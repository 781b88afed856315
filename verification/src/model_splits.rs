//! Orders for the equations that a propositional model makes false.

use crate::axioms::{lemma_split_extend, split_pair};
use crate::collections::{map_get, map_sorted_keys};
use crate::constructors::grew;
use crate::encode::{good, lemma_good_refl, lemma_good_trans};
use crate::state::{goal_inv, Constraint, GoalState, GoalView, Var};
use crate::terms::{
    comparable, is_numeric_sort, node_below, numeric_sort, TermId, TermStore, TermView,
};
use vstd::prelude::*;

verus! {

/// The pair is that of a numeric equation that the model makes false.
pub open spec fn differs(
    s: Seq<TermView>,
    e: GoalView,
    model: Seq<Option<bool>>,
    v: Var,
    a: TermId,
    b: TermId,
) -> bool {
    &&& e.j.constraint.contains_key(v)
    &&& e.j.constraint[v] == Constraint::Eq(a, b)
    &&& numeric_sort(s[a as int].sort)
    &&& v < model.len()
    &&& model[v as int] == Some(false)
}

impl GoalState {
    /// For each numeric equation that the model makes false, says that its sides
    /// are equal or one is less than the other.  The clauses are valid, so they
    /// may stay whatever the next model says.
    pub fn add_arith_diseq_splits_for_sat_model(
        &mut self,
        store: &mut TermStore,
        model: &Vec<Option<bool>>,
    )
        requires
            goal_inv(old(store).terms(), old(self)@),
            old(store).wf(),
        ensures
            grew(old(store), final(store)),
            good(old(store).terms(), old(self)@, final(store).terms(), final(self)@),
            forall|v: Var, a: TermId, b: TermId| #[trigger]
                differs(old(store).terms(), old(self)@, model@, v, a, b) ==> split_pair(
                    final(store).terms(),
                    final(self)@,
                    a,
                    b,
                ),
            (forall|v: Var, a: TermId, b: TermId|
                !#[trigger] differs(old(store).terms(), old(self)@, model@, v, a, b))
                ==> final(self)@ == old(self)@ && final(store).terms() == old(store).terms(),
    {
        let ghost s0 = store.terms();
        let ghost e0 = self@;
        let vars = map_sorted_keys(&self.var_to_constraint);
        let pairs = self.false_equations(store, &vars, model);
        proof {
            lemma_good_refl(s0, e0);
        }
        let mut n: usize = 0;
        while n < pairs.len()
            invariant
                n <= pairs.len(),
                s0 == old(store).terms(),
                e0 == old(self)@,
                store.wf(),
                grew(old(store), store),
                goal_inv(s0, e0),
                good(s0, e0, store.terms(), self@),
                n == 0 ==> self@ == e0 && store.terms() == s0,
                forall|j: int|
                    0 <= j < pairs@.len() ==> differs(
                        s0,
                        e0,
                        model@,
                        (#[trigger] pairs@[j]).0,
                        pairs@[j].1,
                        pairs@[j].2,
                    ) && pairs@[j].1 < s0.len() && pairs@[j].2 < s0.len()
                        && comparable(s0[pairs@[j].1 as int].sort, s0[pairs@[j].2 as int].sort),
                forall|j: int|
                    0 <= j < n ==> split_pair(
                        store.terms(),
                        self@,
                        (#[trigger] pairs@[j]).1,
                        pairs@[j].2,
                    ),
            decreases pairs.len() - n,
        {
            let ghost s1 = store.terms();
            let ghost e1 = self@;
            let (v, a, b) = pairs[n];
            assert(differs(s0, e0, model@, pairs@[n as int].0, pairs@[n as int].1, pairs@[n as int].2));
            assert(s1[a as int] == s0[a as int] && s1[b as int] == s0[b as int]);
            self.add_arith_trichotomy_clause(store, a, b);
            proof {
                lemma_good_trans(s0, e0, s1, e1, store.terms(), self@);
                assert forall|j: int| 0 <= j < n + 1 implies split_pair(
                    store.terms(),
                    self@,
                    (#[trigger] pairs@[j]).1,
                    pairs@[j].2,
                ) by {
                    if j < n {
                        lemma_split_extend(
                            s1,
                            e1,
                            store.terms(),
                            self@,
                            pairs@[j].1,
                            pairs@[j].2,
                        );
                    }
                }
            }
            n = n + 1;
        }
        proof {
            assert forall|v: Var, a: TermId, b: TermId| #[trigger]
                differs(s0, e0, model@, v, a, b) implies split_pair(store.terms(), self@, a, b) by {
                assert(vars@.to_set().contains(v));
                assert(pairs@.contains((v, a, b)));
                let j = choose|j: int| 0 <= j < pairs@.len() && pairs@[j] == (v, a, b);
                assert(split_pair(store.terms(), self@, pairs@[j].1, pairs@[j].2));
            }
            if pairs@.len() > 0 {
                assert(differs(s0, e0, model@, pairs@[0].0, pairs@[0].1, pairs@[0].2));
            }
        }
    }

    fn false_equations(
        &self,
        store: &TermStore,
        vars: &Vec<Var>,
        model: &Vec<Option<bool>>,
    ) -> (pairs: Vec<(Var, TermId, TermId)>)
        requires
            goal_inv(store.terms(), self@),
            vars@.to_set() == self@.j.constraint.dom(),
        ensures
            forall|j: int|
                0 <= j < pairs@.len() ==> differs(
                    store.terms(),
                    self@,
                    model@,
                    (#[trigger] pairs@[j]).0,
                    pairs@[j].1,
                    pairs@[j].2,
                ) && pairs@[j].1 < store.terms().len() && pairs@[j].2 < store.terms().len()
                    && comparable(store.terms()[pairs@[j].1 as int].sort, store.terms()[pairs@[j].2 as int].sort),
            forall|v: Var, a: TermId, b: TermId|
                differs(store.terms(), self@, model@, v, a, b) ==> #[trigger] pairs@.contains(
                    (v, a, b),
                ),
    {
        let ghost s = store.terms();
        let ghost e = self@;
        let mut pairs: Vec<(Var, TermId, TermId)> = Vec::new();
        let mut n: usize = 0;
        while n < vars.len()
            invariant
                n <= vars.len(),
                s == store.terms(),
                e == self@,
                goal_inv(s, e),
                vars@.to_set() == e.j.constraint.dom(),
                forall|j: int|
                    0 <= j < pairs@.len() ==> differs(
                        s,
                        e,
                        model@,
                        (#[trigger] pairs@[j]).0,
                        pairs@[j].1,
                        pairs@[j].2,
                    ) && pairs@[j].1 < s.len() && pairs@[j].2 < s.len() && comparable(s[pairs@[j].1 as int].sort, s[pairs@[j].2 as int].sort),
                forall|j: int, a: TermId, b: TermId|
                    0 <= j < n && differs(s, e, model@, vars@[j], a, b) ==> #[trigger] pairs@.contains(
                        (vars@[j], a, b),
                    ),
            decreases vars.len() - n,
        {
            let v: Var = vars[n];
            let ghost before = pairs@;
            proof {
                assert(vars@.to_set().contains(v));
                assert(e.j.constraint.contains_key(v));
                let t = e.term_of[v as int];
                assert(t < s.len());
                assert(node_below(s, t as int));
            }
            if let Some(Constraint::Eq(a, b)) = map_get(&self.var_to_constraint, v) {
                let (a, b): (TermId, TermId) = (*a, *b);
                let off = v < model.len() && match model[v] {
                    Some(value) => !value,
                    None => false,
                };
                proof {
                    let t = e.term_of[v as int];
                    assert(s[t as int].args == seq![a, b]);
                    assert(s[t as int].args[0] == a && s[t as int].args[1] == b);
                }
                if off && is_numeric_sort(store.nodes[a].sort) {
                    pairs.push((v, a, b));
                    assert(pairs@[before.len() as int] == (v, a, b));
                }
            }
            proof {
                assert forall|j: int, a: TermId, b: TermId|
                    0 <= j < n + 1 && differs(s, e, model@, vars@[j], a, b) implies
                    #[trigger] pairs@.contains((vars@[j], a, b)) by {
                    if j < n {
                        assert(before.contains((vars@[j], a, b)));
                        let i = choose|i: int|
                            0 <= i < before.len() && before[i] == (vars@[j], a, b);
                        assert(pairs@[i] == (vars@[j], a, b));
                    } else {
                        assert(pairs@[before.len() as int] == (v, a, b));
                    }
                }
            }
            n = n + 1;
        }
        proof {
            assert forall|v: Var, a: TermId, b: TermId|
                differs(s, e, model@, v, a, b) implies #[trigger] pairs@.contains((v, a, b)) by {
                assert(vars@.to_set().contains(v));
                let j = choose|j: int| 0 <= j < vars@.len() && vars@[j] == v;
                assert(pairs@.contains((vars@[j], a, b)));
            }
        }
        pairs
    }
}

} // verus!
