//! Instances of quantified formulas, and models that other engines supply.

use crate::assertion::{clauses_true, with_clause};
use crate::axioms::{disequality_split, equation_split};
use crate::collections::map_get;
use crate::constructors::grew;
use crate::descent::{visits, Descent};
use crate::encode::{encoded, good};
use crate::model::Model;
use crate::asserted::literal_integer;
use crate::numbers::{fits, lowest_terms, trunc_quot, BigNum, Rat};
use crate::semantics::{eval_args, holds, is_true, lemma_eval, Interp};
use crate::solver::Solver;
use crate::sorts::{sorts_wf, text_at, texts_of};
use crate::state::{
    clause_true, goal_inv, growth, lemma_clause_extend, lemma_growth_clause, lemma_growth_refl,
    lemma_growth_trans, lit_true, lits_within, remembered, valid_clause, GoalState, GoalView, Lit,
};
use crate::terms::{
    extends, node_below, Data, DataView, Op, TermId, TermStore, TermView, FALSE_TERM, INT_SORT,
    REAL_SORT, STRING_SORT, TRUE_TERM,
};
use crate::text::copy_text;
use vstd::prelude::*;

verus! {

/// The instance `t` was encoded, its literal made a clause, and its
/// disequalities, and its equations where that is asked for, got theirs.
pub open spec fn instance_taken(
    s0: Seq<TermView>,
    e0: GoalView,
    s1: Seq<TermView>,
    e1: GoalView,
    t: TermId,
    equations: bool,
) -> bool {
    exists|sm: Seq<TermView>, em: GoalView, l: Lit| #[trigger]
        instance_through(s0, e0, sm, em, l, s1, e1, t, equations)
}

pub open spec fn instance_through(
    s0: Seq<TermView>,
    e0: GoalView,
    sm: Seq<TermView>,
    em: GoalView,
    l: Lit,
    s1: Seq<TermView>,
    e1: GoalView,
    t: TermId,
    equations: bool,
) -> bool {
    &&& encoded(s0, e0, sm, em, t, l, 0)
    &&& remembered(em, t) && em.j.memo[t].0 == l
    &&& good(sm, with_clause(em, seq![l]), s1, e1)
    &&& exists|s: Seq<TermView>, e: GoalView| #[trigger]
        splits_through(sm, with_clause(em, seq![l]), s, e, s1, e1, t, equations)
}

/// The disequalities were split first, and the equations after them.
pub open spec fn splits_through(
    s0: Seq<TermView>,
    e0: GoalView,
    s: Seq<TermView>,
    e: GoalView,
    s1: Seq<TermView>,
    e1: GoalView,
    t: TermId,
    equations: bool,
) -> bool {
    &&& good(s0, e0, s, e)
    &&& forall|x: TermId| #[trigger]
        visits(s0, Descent::Disequalities, t, x) ==> disequality_split(s, e, x)
    &&& if equations {
        good(s, e, s1, e1) && forall|x: TermId| #[trigger]
            visits(s, Descent::Equations, t, x) ==> equation_split(s1, e1, x)
    } else {
        s1 == s && e1 == e
    }
}

/// How instances are asserted.
#[derive(Clone, Copy, PartialEq, Eq, Debug, Structural)]
pub enum InstanceKind {
    /// From a model, or blindly: an instance that is `false` ends the list.
    General,
    /// Over a finite domain: instances that are `true` are left out, and
    /// equations are not split.
    Finite,
}

/// One instance of a list was dealt with.
pub open spec fn instance_step(
    s0: Seq<TermView>,
    e0: GoalView,
    s1: Seq<TermView>,
    e1: GoalView,
    t: TermId,
    kind: InstanceKind,
) -> bool {
    if kind == InstanceKind::General && t == FALSE_TERM {
        s1 == s0 && e1 == with_clause(e0, Seq::empty())
    } else if kind == InstanceKind::Finite && t == TRUE_TERM {
        s1 == s0 && e1 == e0
    } else {
        instance_taken(s0, e0, s1, e1, t, kind == InstanceKind::General)
    }
}

/// The first `n` instances were dealt with, in their order.
pub open spec fn instances_taken(
    s0: Seq<TermView>,
    e0: GoalView,
    list: Seq<TermId>,
    n: int,
    s1: Seq<TermView>,
    e1: GoalView,
    kind: InstanceKind,
) -> bool
    decreases n,
{
    if n <= 0 {
        s1 == s0 && e1 == e0
    } else {
        exists|s: Seq<TermView>, e: GoalView|
            instances_taken(s0, e0, list, n - 1, s, e, kind) && #[trigger] instance_step(
                s,
                e,
                s1,
                e1,
                list[n - 1],
                kind,
            )
    }
}

/// How many instances are dealt with: those up to the first `false`.
pub open spec fn instances_used(list: Seq<TermId>, n: int, kind: InstanceKind) -> bool {
    &&& 0 <= n <= list.len()
    &&& forall|k: int|
        0 <= k < n - 1 ==> !(kind == InstanceKind::General && (#[trigger] list[k]) == FALSE_TERM)
    &&& n < list.len() ==> n > 0 && kind == InstanceKind::General && list[n - 1] == FALSE_TERM
}

proof fn lemma_instance_next(
    s0: Seq<TermView>,
    e0: GoalView,
    list: Seq<TermId>,
    n: int,
    s: Seq<TermView>,
    e: GoalView,
    s1: Seq<TermView>,
    e1: GoalView,
    kind: InstanceKind,
)
    requires
        n >= 0,
        instances_taken(s0, e0, list, n, s, e, kind),
        instance_step(s, e, s1, e1, list[n], kind),
    ensures
        instances_taken(s0, e0, list, n + 1, s1, e1, kind),
{
    let m = n + 1;
    assert(list[m - 1] == list[n]);
    assert(instances_taken(s0, e0, list, m - 1, s, e, kind) && instance_step(
        s,
        e,
        s1,
        e1,
        list[m - 1],
        kind,
    ));
}

proof fn lemma_good_growth(s0: Seq<TermView>, e0: GoalView, s1: Seq<TermView>, e1: GoalView)
    requires
        good(s0, e0, s1, e1),
    ensures
        growth(s0, e0, s1, e1),
{
}

/// The lemma `t` was encoded, and its literal made a clause.
pub open spec fn lemma_taken(
    s0: Seq<TermView>,
    e0: GoalView,
    s1: Seq<TermView>,
    e1: GoalView,
    t: TermId,
) -> bool {
    exists|em: GoalView, l: Lit| #[trigger] lemma_through(s0, e0, em, l, s1, e1, t)
}

pub open spec fn lemma_through(
    s0: Seq<TermView>,
    e0: GoalView,
    em: GoalView,
    l: Lit,
    s1: Seq<TermView>,
    e1: GoalView,
    t: TermId,
) -> bool {
    &&& encoded(s0, e0, s1, em, t, l, 0)
    &&& remembered(em, t) && em.j.memo[t].0 == l
    &&& e1 == with_clause(em, seq![l])
}

/// The first `n` lemmas of the list were taken one after another.
pub open spec fn lemmas_taken(
    s0: Seq<TermView>,
    e0: GoalView,
    list: Seq<TermId>,
    n: int,
    s1: Seq<TermView>,
    e1: GoalView,
) -> bool
    decreases n,
{
    if n <= 0 {
        s1 == s0 && e1 == e0
    } else {
        exists|s: Seq<TermView>, e: GoalView|
            lemmas_taken(s0, e0, list, n - 1, s, e) && #[trigger] lemma_taken(
                s,
                e,
                s1,
                e1,
                list[n - 1],
            )
    }
}

/// Clauses that are valid keep what the interpretation makes true.
proof fn lemma_good_true(
    s0: Seq<TermView>,
    e0: GoalView,
    s1: Seq<TermView>,
    e1: GoalView,
    i: Interp,
)
    requires
        goal_inv(s0, e0),
        good(s0, e0, s1, e1),
        clauses_true(s0, i, e0),
    ensures
        clauses_true(s1, i, e1),
{
    assert forall|k: int| 0 <= k < e1.clauses.len() implies clause_true(
        s1,
        i,
        e1.term_of,
        #[trigger] e1.clauses[k],
    ) by {
        if k < e0.clauses.len() {
            assert(e1.clauses[k] == e0.clauses[k]);
            assert(clause_true(s0, i, e0.term_of, e0.clauses[k]));
            assert(lits_within(e0.clauses[k], e0.term_of.len() as int));
            lemma_clause_extend(s0, e0.term_of, s1, e1.term_of, i, e0.clauses[k]);
        } else {
            assert(valid_clause(s1, e1.term_of, e1.clauses[k]));
        }
    }
}

/// Asserting an instance that holds in an interpretation loses nothing there.
pub proof fn instances_keep_models(
    s0: Seq<TermView>,
    e0: GoalView,
    s1: Seq<TermView>,
    e1: GoalView,
    t: TermId,
    kind: InstanceKind,
    i: Interp,
)
    requires
        goal_inv(s0, e0),
        instance_step(s0, e0, s1, e1, t, kind),
        t < s0.len(),
        clauses_true(s0, i, e0),
        holds(s0, i, t),
    ensures
        clauses_true(s1, i, e1),
{
    if !(kind == InstanceKind::Finite && t == TRUE_TERM) {
        let equations = kind == InstanceKind::General;
        let (sm, em, l) = choose|sm: Seq<TermView>, em: GoalView, l: Lit| #[trigger]
            instance_through(s0, e0, sm, em, l, s1, e1, t, equations);
        let ec = with_clause(em, seq![l]);
        crate::semantics::lemma_extend(s0, sm, i, t);
        assert(lit_true(sm, i, em.term_of, l));
        lemma_good_true(s0, e0, sm, em, i);
        assert forall|k: int| 0 <= k < ec.clauses.len() implies clause_true(
            sm,
            i,
            ec.term_of,
            #[trigger] ec.clauses[k],
        ) by {
            if k < em.clauses.len() {
                assert(ec.clauses[k] == em.clauses[k]);
            } else {
                assert(ec.clauses[k] == seq![l]);
                assert(seq![l][0] == l);
            }
        }
        lemma_growth_clause(sm, em, ec, seq![l]);
        lemma_good_true(sm, ec, s1, e1, i);
    }
}

/// Asserting a lemma that holds in an interpretation loses nothing there.
pub proof fn lemmas_keep_models(
    s0: Seq<TermView>,
    e0: GoalView,
    s1: Seq<TermView>,
    e1: GoalView,
    t: TermId,
    i: Interp,
)
    requires
        goal_inv(s0, e0),
        lemma_taken(s0, e0, s1, e1, t),
        t < s0.len(),
        clauses_true(s0, i, e0),
        holds(s0, i, t),
    ensures
        clauses_true(s1, i, e1),
{
    let (em, l) = choose|em: GoalView, l: Lit| #[trigger]
        lemma_through(s0, e0, em, l, s1, e1, t);
    crate::semantics::lemma_extend(s0, s1, i, t);
    assert(lit_true(s1, i, em.term_of, l));
    lemma_good_true(s0, e0, s1, em, i);
    assert forall|k: int| 0 <= k < e1.clauses.len() implies clause_true(
        s1,
        i,
        e1.term_of,
        #[trigger] e1.clauses[k],
    ) by {
        if k < em.clauses.len() {
            assert(e1.clauses[k] == em.clauses[k]);
        } else {
            assert(e1.clauses[k] == seq![l]);
            assert(seq![l][0] == l);
        }
    }
}

impl GoalState {
    /// Asserts lemmas: each is encoded, and its literal made a clause.
    pub fn assert_lemmas(&mut self, store: &mut TermStore, list: &Vec<TermId>)
        requires
            goal_inv(old(store).terms(), old(self)@),
            old(store).wf(),
            forall|k: int| 0 <= k < list@.len() ==> (#[trigger] list@[k]) < old(store).terms().len(),
        ensures
            grew(old(store), final(store)),
            growth(old(store).terms(), old(self)@, final(store).terms(), final(self)@),
            lemmas_taken(
                old(store).terms(),
                old(self)@,
                list@,
                list@.len() as int,
                final(store).terms(),
                final(self)@,
            ),
    {
        let ghost s0 = store.terms();
        let ghost e0 = self@;
        let mut n: usize = 0;
        proof {
            lemma_growth_refl(s0, e0);
        }
        while n < list.len()
            invariant
                n <= list.len(),
                s0 == old(store).terms(),
                e0 == old(self)@,
                store.wf(),
                grew(old(store), store),
                goal_inv(store.terms(), self@),
                growth(s0, e0, store.terms(), self@),
                forall|k: int| 0 <= k < list@.len() ==> (#[trigger] list@[k]) < s0.len(),
                lemmas_taken(s0, e0, list@, n as int, store.terms(), self@),
            decreases list.len() - n,
        {
            let t: TermId = list[n];
            let ghost s = store.terms();
            let ghost e = self@;
            let l = self.encode(t, store);
            let ghost sm = store.terms();
            let ghost em = self@;
            let mut unit: Vec<Lit> = Vec::new();
            unit.push(l);
            assert(unit@ =~= seq![l]);
            proof {
                assert forall|k: int| 0 <= k < seq![l].len() implies (#[trigger] seq![l][k]).var
                    < em.term_of.len() by {}
                lemma_growth_clause(sm, em, with_clause(em, seq![l]), seq![l]);
                lemma_good_growth(s, e, sm, em);
            }
            self.add_clause(unit);
            proof {
                assert(self@ == with_clause(em, seq![l]));
                assert(lemma_through(s, e, em, l, sm, self@, t));
                lemma_growth_trans(s0, e0, s, e, sm, em);
                lemma_growth_trans(s0, e0, sm, em, sm, self@);
                let m = n + 1;
                assert(list@[m - 1] == t);
                assert(lemmas_taken(s0, e0, list@, m - 1, s, e) && lemma_taken(
                    s,
                    e,
                    sm,
                    self@,
                    list@[m - 1],
                ));
                assert(lemmas_taken(s0, e0, list@, m as int, sm, self@));
            }
            n = n + 1;
        }
    }

    fn assert_instance(&mut self, store: &mut TermStore, t: TermId, equations: bool)
        requires
            goal_inv(old(store).terms(), old(self)@),
            t < old(store).terms().len(),
        ensures
            old(store).wf() ==> grew(old(store), final(store)),
            goal_inv(final(store).terms(), final(self)@),
            growth(old(store).terms(), old(self)@, final(store).terms(), final(self)@),
            instance_taken(
                old(store).terms(),
                old(self)@,
                final(store).terms(),
                final(self)@,
                t,
                equations,
            ),
    {
        let ghost s0 = store.terms();
        let ghost e0 = self@;
        let l = self.encode(t, store);
        let ghost sm = store.terms();
        let ghost em = self@;
        let mut unit: Vec<Lit> = Vec::new();
        unit.push(l);
        assert(unit@ =~= seq![l]);
        let ghost ec = with_clause(em, seq![l]);
        proof {
            assert forall|k: int| 0 <= k < seq![l].len() implies (#[trigger] seq![l][k]).var
                < em.term_of.len() by {}
            lemma_growth_clause(sm, em, ec, seq![l]);
            lemma_good_growth(s0, e0, sm, em);
        }
        self.add_clause(unit);
        assert(self@ == ec);
        self.add_arith_diseq_split(store, t);
        let ghost s3 = store.terms();
        let ghost e3 = self@;
        proof {
            lemma_good_growth(sm, ec, s3, e3);
            lemma_growth_trans(s0, e0, sm, em, sm, ec);
            lemma_growth_trans(s0, e0, sm, ec, s3, e3);
            crate::encode::lemma_good_refl(s3, e3);
        }
        if equations {
            self.add_arith_eq_trichotomy(store, t);
            proof {
                lemma_good_growth(s3, e3, store.terms(), self@);
                lemma_growth_trans(s0, e0, s3, e3, store.terms(), self@);
            }
        }
        proof {
            crate::encode::lemma_good_trans(sm, ec, s3, e3, store.terms(), self@);
            assert(splits_through(sm, ec, s3, e3, store.terms(), self@, t, equations));
            assert(instance_through(s0, e0, sm, em, l, store.terms(), self@, t, equations));
        }
    }

    /// Asserts instances of quantified formulas.  How many were dealt with is
    /// returned: an instance that is `false` makes the rest superfluous.
    pub fn assert_instances(
        &mut self,
        store: &mut TermStore,
        list: &Vec<TermId>,
        kind: InstanceKind,
    ) -> (n: usize)
        requires
            goal_inv(old(store).terms(), old(self)@),
            old(store).wf(),
            forall|k: int| 0 <= k < list@.len() ==> (#[trigger] list@[k]) < old(store).terms().len(),
        ensures
            grew(old(store), final(store)),
            growth(old(store).terms(), old(self)@, final(store).terms(), final(self)@),
            instances_used(list@, n as int, kind),
            instances_taken(
                old(store).terms(),
                old(self)@,
                list@,
                n as int,
                final(store).terms(),
                final(self)@,
                kind,
            ),
    {
        let ghost s0 = store.terms();
        let ghost e0 = self@;
        let mut n: usize = 0;
        proof {
            lemma_growth_refl(s0, e0);
        }
        while n < list.len()
            invariant
                n <= list.len(),
                s0 == old(store).terms(),
                e0 == old(self)@,
                store.wf(),
                grew(old(store), store),
                goal_inv(store.terms(), self@),
                growth(s0, e0, store.terms(), self@),
                forall|k: int| 0 <= k < list@.len() ==> (#[trigger] list@[k]) < s0.len(),
                forall|k: int|
                    0 <= k < n ==> !(kind == InstanceKind::General && (#[trigger] list@[k])
                        == FALSE_TERM),
                instances_taken(s0, e0, list@, n as int, store.terms(), self@, kind),
            decreases list.len() - n,
        {
            let t: TermId = list[n];
            let ghost s = store.terms();
            let ghost e = self@;
            let general = match kind {
                InstanceKind::General => true,
                InstanceKind::Finite => false,
            };
            if general && t == FALSE_TERM {
                let empty: Vec<Lit> = Vec::new();
                assert(empty@ =~= Seq::<Lit>::empty());
                proof {
                    lemma_growth_clause(s, e, with_clause(e, Seq::empty()), Seq::empty());
                    lemma_growth_trans(s0, e0, s, e, s, with_clause(e, Seq::empty()));
                }
                self.add_clause(empty);
                assert(self@ == with_clause(e, Seq::empty()));
                proof {
                    lemma_instance_next(s0, e0, list@, n as int, s, e, s, self@, kind);
                }
                return n + 1;
            }
            if general || t != TRUE_TERM {
                self.assert_instance(store, t, general);
                proof {
                    lemma_growth_trans(s0, e0, s, e, store.terms(), self@);
                }
            }
            proof {
                lemma_instance_next(
                    s0,
                    e0,
                    list@,
                    n as int,
                    s,
                    e,
                    store.terms(),
                    self@,
                    kind,
                );
            }
            n = n + 1;
        }
        n
    }

    /// Rules out the assignment that the terms of a conflict describe, where all
    /// of them have variables.
    pub fn block_conflict(&mut self, store: &TermStore, reason: &Vec<TermId>) -> (added: bool)
        requires
            goal_inv(store.terms(), old(self)@),
        ensures
            added == (reason@.len() > 0 && forall|k: int|
                0 <= k < reason@.len() ==> old(self)@.j.var_of.contains_key(#[trigger] reason@[k])),
            !added ==> final(self)@ == old(self)@,
            added ==> final(self)@ == with_clause(
                old(self)@,
                Seq::new(
                    reason@.len(),
                    |k: int| Lit { var: old(self)@.j.var_of[reason@[k]], positive: false },
                ),
            ),
            growth(store.terms(), old(self)@, store.terms(), final(self)@),
    {
        let ghost s = store.terms();
        let ghost e0 = self@;
        proof {
            lemma_growth_refl(s, e0);
        }
        let mut lits: Vec<Lit> = Vec::new();
        let mut k: usize = 0;
        while k < reason.len()
            invariant
                k <= reason.len(),
                e0 == self@,
                e0 == old(self)@,
                goal_inv(s, e0),
                growth(s, e0, s, e0),
                s == store.terms(),
                lits@.len() == k,
                forall|j: int|
                    0 <= j < k ==> e0.j.var_of.contains_key(#[trigger] reason@[j]) && lits@[j] == (
                    Lit { var: e0.j.var_of[reason@[j]], positive: false }),
            decreases reason.len() - k,
        {
            match map_get(&self.term_to_var, reason[k]) {
                Some(v) => {
                    lits.push(Lit::neg(*v));
                },
                None => {
                    assert(!e0.j.var_of.contains_key(reason@[k as int]));
                    return false;
                },
            }
            k = k + 1;
        }
        if lits.len() == 0 {
            return false;
        }
        let ghost c = lits@;
        proof {
            assert(c =~= Seq::new(
                reason@.len(),
                |j: int| Lit { var: e0.j.var_of[reason@[j]], positive: false },
            ));
            assert forall|j: int| 0 <= j < c.len() implies (#[trigger] c[j]).var < e0.term_of.len() by {
                assert(e0.j.var_of.contains_key(reason@[j]));
            }
            lemma_growth_clause(s, e0, with_clause(e0, c), c);
        }
        self.add_clause(lits);
        true
    }
}

/// What a term is found valid by: nothing more, for the constant `true`; the
/// body of a universal formula, or the parts of a conjunction.
pub open spec fn validity_parts(node: TermView) -> Option<Seq<TermId>> {
    match node.op {
        Op::True => Some(Seq::empty()),
        Op::Forall => Some(node.args.take(1)),
        Op::And => Some(node.args),
        _ => None,
    }
}

/// One step of the test for trivial validity: the simplified term is valid if
/// those returned are; nothing is returned where it is not known to be.
pub fn validity_step(store: &TermStore, simplified: TermId) -> (r: Option<Vec<TermId>>)
    requires
        store.wf(),
        simplified < store.terms().len(),
    ensures
        r is Some == validity_parts(store.terms()[simplified as int]) is Some,
        r matches Some(parts) ==> Some(parts@) == validity_parts(
            store.terms()[simplified as int],
        ),
{
    let node = &store.nodes[simplified];
    assert(node@ == store.terms()[simplified as int]);
    assert(node_below(store.terms(), simplified as int));
    match node.op {
        Op::True => {
            let parts: Vec<TermId> = Vec::new();
            assert(parts@ =~= Seq::<TermId>::empty());
            Some(parts)
        },
        Op::Forall => {
            let mut parts: Vec<TermId> = Vec::new();
            parts.push(node.args[0]);
            assert(parts@ =~= node.args@.take(1));
            Some(parts)
        },
        Op::And => Some(crate::collections::copy_words(&node.args)),
        _ => None,
    }
}

/// A conjunction whose parts hold everywhere holds everywhere.
pub proof fn valid_parts_make_valid(s: Seq<TermView>, t: TermId)
    requires
        crate::terms::terms_wf(s),
        t < s.len(),
        s[t as int].op == Op::True || s[t as int].op == Op::And,
        forall|k: int, i: Interp|
            0 <= k < s[t as int].args.len() ==> #[trigger] holds(s, i, s[t as int].args[k]),
    ensures
        forall|i: Interp| #[trigger] holds(s, i, t),
{
    assert forall|i: Interp| #[trigger] holds(s, i, t) by {
        assert(node_below(s, t as int));
        lemma_eval(s, i, t);
        if s[t as int].op == Op::And {
            let vals = eval_args(s, i, s[t as int].args);
            assert forall|k: int| 0 <= k < vals.len() implies is_true(#[trigger] vals[k]) by {
                assert(holds(s, i, s[t as int].args[k]));
            }
        }
    }
}

/// A rational of any size.
pub struct BigRatio {
    pub num: BigNum,
    pub den: BigNum,
}

impl BigRatio {
    /// In lowest terms, with a positive denominator.
    pub open spec fn wf(&self) -> bool {
        lowest_terms(self.num.value(), self.den.value())
    }
}

/// The rational that stands for a value: itself where numerator and denominator
/// are words, else the greatest integer below it where that is one, else 0.
pub open spec fn word_ratio(num: int, den: int) -> Rat {
    if fits(num) && fits(den) {
        Rat { num: num as i64, den: den as i64 }
    } else if fits(num / den) {
        Rat { num: (num / den) as i64, den: 1 }
    } else {
        Rat { num: 0, den: 1 }
    }
}

/// `v` is the literal that a model gives a term of this sort for the value.
pub open spec fn value_literal(s: Seq<TermView>, integral: bool, num: int, den: int, v: TermId) -> bool {
    &&& v < s.len()
    &&& s[v as int].args.len() == 0
    &&& if integral {
        &&& s[v as int].op == Op::IntConst
        &&& s[v as int].sort == INT_SORT
        &&& literal_integer(s, v) == Some(trunc_quot(num, den))
    } else {
        &&& s[v as int].op == Op::RealConst
        &&& s[v as int].sort == REAL_SORT
        &&& s[v as int].data == DataView::Real(word_ratio(num, den))
    }
}

/// Terms of unknown sort count as integers.
pub open spec fn integral(s: Seq<TermView>, t: TermId) -> bool {
    t < s.len() ==> s[t as int].sort == INT_SORT
}

impl TermStore {
    /// The literal of an integer of any size.
    pub fn mk_big_int(&mut self, n: BigNum) -> (v: TermId)
        requires
            old(self).wf(),
        ensures
            grew(old(self), final(self)),
            v < final(self).terms().len(),
            final(self).terms()[v as int].op == Op::IntConst,
            final(self).terms()[v as int].args.len() == 0,
            final(self).terms()[v as int].sort == INT_SORT,
            literal_integer(final(self).terms(), v) == Some(n.value()),
    {
        let args: Vec<TermId> = Vec::new();
        assert(args@ =~= Seq::<TermId>::empty());
        self.intern(Op::IntConst, args, Data::Int(n), INT_SORT)
    }

    /// The literal of a real value.
    fn big_rational_to_real_term(&mut self, value: &BigRatio) -> (v: TermId)
        requires
            old(self).wf(),
            value.wf(),
        ensures
            grew(old(self), final(self)),
            value_literal(final(self).terms(), false, value.num.value(), value.den.value(), v),
    {
        let r: Rat = match (value.num.to_i64(), value.den.to_i64()) {
            (Some(n), Some(d)) => Rat { num: n, den: d },
            _ => {
                let whole = value.num.floor_quotient(&value.den);
                match whole.to_i64() {
                    Some(w) => Rat::from_integer(w),
                    None => Rat::from_integer(0),
                }
            },
        };
        self.mk_real(r)
    }
}

/// The last entry for the term among the first `n`.
pub open spec fn last_entry<V>(list: Seq<(TermId, V)>, t: TermId, n: int) -> Option<int>
    decreases n,
{
    if n <= 0 {
        None
    } else if list[n - 1].0 == t {
        Some(n - 1)
    } else {
        last_entry(list, t, n - 1)
    }
}

proof fn lemma_last_entry<V>(list: Seq<(TermId, V)>, t: TermId, n: int)
    requires
        0 <= n <= list.len(),
    ensures
        last_entry(list, t, n) matches Some(k) ==> 0 <= k < n && list[k].0 == t,
    decreases n,
{
    if n > 0 && list[n - 1].0 != t {
        lemma_last_entry(list, t, n - 1);
    }
}

/// The model holds the literals of the values listed, of the last one for each
/// term.
pub open spec fn values_installed(
    s: Seq<TermView>,
    list: Seq<(TermId, BigRatio)>,
    n: int,
    m: Map<TermId, TermId>,
) -> bool {
    forall|t: TermId|
        match last_entry(list, t, n) {
            Some(k) => m.contains_key(t) && value_literal(
                s,
                integral(s, t),
                list[k].1.num.value(),
                list[k].1.den.value(),
                m[t],
            ),
            None => !(#[trigger] m.contains_key(t)),
        }
}

impl Solver {
    /// Installs the model that the nonlinear engine found.
    pub fn install_nl_model(&mut self, store: &mut TermStore, values: &Vec<(TermId, BigRatio)>)
        requires
            old(self).fits(old(store)),
            forall|k: int| 0 <= k < values@.len() ==> (#[trigger] values@[k]).1.wf(),
            forall|k: int|
                0 <= k < values@.len() ==> (#[trigger] values@[k]).0 < old(store).terms().len(),
        ensures
            grew(old(store), final(store)),
            final(self).fits(final(store)),
            *final(self) == (Solver { model: final(self).model, ..*old(self) }),
            final(self).model matches Some(m) && values_installed(
                final(store).terms(),
                values@,
                values@.len() as int,
                m.assignments@,
            ),
    {
        let ghost s0 = store.terms();
        let mut m = Model::new();
        let mut k: usize = 0;
        while k < values.len()
            invariant
                k <= values.len(),
                store.wf(),
                s0 == old(store).terms(),
                grew(old(store), store),
                forall|j: int| 0 <= j < values@.len() ==> (#[trigger] values@[j]).1.wf(),
                forall|j: int| 0 <= j < values@.len() ==> (#[trigger] values@[j]).0 < s0.len(),
                values_installed(store.terms(), values@, k as int, m.assignments@),
            decreases values.len() - k,
        {
            let ghost s1 = store.terms();
            let ghost before = m.assignments@;
            let t: TermId = values[k].0;
            let whole = store.nodes[t].sort == INT_SORT;
            let v = if whole {
                let q = values[k].1.num.quotient(&values[k].1.den);
                store.mk_big_int(q)
            } else {
                store.big_rational_to_real_term(&values[k].1)
            };
            m.set(t, v);
            proof {
                let s2 = store.terms();
                assert(s1[t as int].sort == s2[t as int].sort);
                assert forall|x: TermId|
                    match last_entry(values@, x, k + 1) {
                        Some(j) => m.assignments@.contains_key(x) && value_literal(
                            s2,
                            integral(s2, x),
                            values@[j].1.num.value(),
                            values@[j].1.den.value(),
                            m.assignments@[x],
                        ),
                        None => !(#[trigger] m.assignments@.contains_key(x)),
                    } by {
                    lemma_last_entry(values@, x, k as int);
                    if x != t {
                        assert(m.assignments@.contains_key(x) == before.contains_key(x));
                        if let Some(j) = last_entry(values@, x, k as int) {
                            assert(x < s0.len());
                            assert(s1[x as int].sort == s2[x as int].sort);
                            assert(s2[before[x] as int] == s1[before[x] as int]);
                        }
                    }
                }
            }
            k = k + 1;
        }
        self.model = Some(m);
    }
}

/// More terms and names, and the same sorts.
pub open spec fn grew_names(a: &TermStore, b: &TermStore) -> bool {
    &&& b.wf()
    &&& extends(a.terms(), b.terms())
    &&& b.sorts@ == a.sorts@
    &&& a.names@.len() <= b.names@.len()
    &&& forall|k: int| 0 <= k < a.names@.len() ==> #[trigger] b.names@[k] == a.names@[k]
}

/// `v` is the literal of the text.
pub open spec fn text_literal(store: &TermStore, text: Seq<char>, v: TermId) -> bool {
    &&& v < store.terms().len()
    &&& store.terms()[v as int].op == Op::StringLit
    &&& store.terms()[v as int].args.len() == 0
    &&& store.terms()[v as int].sort == STRING_SORT
    &&& store.terms()[v as int].data matches DataView::Name(n) && text_at(
        texts_of(store.names@),
        n,
        text,
    )
}

impl TermStore {
    /// The literal of a text.
    pub fn mk_string_lit(&mut self, text: String) -> (v: TermId)
        requires
            old(self).wf(),
            sorts_wf(old(self).sorts@),
        ensures
            grew_names(old(self), final(self)),
            text_literal(final(self), text@, v),
    {
        let ghost start = *self;
        let ghost word = text@;
        let n = self.intern_name(text);
        let ghost mid = *self;
        assert(mid.terms() =~= start.terms());
        let args: Vec<TermId> = Vec::new();
        assert(args@ =~= Seq::<TermId>::empty());
        let v = self.intern(Op::StringLit, args, Data::Name(n), STRING_SORT);
        assert(texts_of(self.names@) == texts_of(mid.names@));
        v
    }
}

/// The model holds the literals of the texts listed, of the last one for each
/// term.
pub open spec fn texts_installed(
    store: &TermStore,
    list: Seq<(TermId, String)>,
    n: int,
    m: Map<TermId, TermId>,
) -> bool {
    forall|t: TermId|
        match last_entry(list, t, n) {
            Some(k) => m.contains_key(t) && text_literal(store, list[k].1@, m[t]),
            None => !(#[trigger] m.contains_key(t)),
        }
}

proof fn lemma_literal_grow(a: &TermStore, b: &TermStore, text: Seq<char>, v: TermId)
    requires
        grew_names(a, b),
        text_literal(a, text, v),
    ensures
        text_literal(b, text, v),
{
    let n = a.terms()[v as int].data->Name_0;
    assert(b.terms()[v as int] == a.terms()[v as int]);
    assert(b.names@[n as int] == a.names@[n as int]);
    assert forall|j: int| 0 <= j < n implies #[trigger] texts_of(b.names@)[j] != text by {
        assert(texts_of(a.names@)[j] != text);
        assert(b.names@[j] == a.names@[j]);
    }
}

impl Solver {
    /// Installs the model that the string engine found, where it found one.
    pub fn ground_string_model_sat(
        &mut self,
        store: &mut TermStore,
        found: Option<Vec<(TermId, String)>>,
    ) -> (r: bool)
        requires
            old(self).fits(old(store)),
            sorts_wf(old(store).sorts@),
        ensures
            r == (found is Some),
            grew_names(old(store), final(store)),
            final(self).fits(final(store)),
            *final(self) == (Solver { model: final(self).model, ..*old(self) }),
            found is None ==> final(self).model == old(self).model,
            found matches Some(list) ==> (final(self).model matches Some(m) && texts_installed(
                final(store),
                list@,
                list@.len() as int,
                m.assignments@,
            )),
    {
        match found {
            None => false,
            Some(list) => {
                let mut m = Model::new();
                let mut k: usize = 0;
                while k < list.len()
                    invariant
                        k <= list.len(),
                        store.wf(),
                        sorts_wf(store.sorts@),
                        grew_names(old(store), store),
                        texts_installed(store, list@, k as int, m.assignments@),
                    decreases list.len() - k,
                {
                    let ghost s1 = *store;
                    let ghost before = m.assignments@;
                    let t: TermId = list[k].0;
                    let text = copy_text(list[k].1.as_str());
                    let v = store.mk_string_lit(text);
                    m.set(t, v);
                    proof {
                        assert forall|j: int| 0 <= j < old(store).names@.len() implies
                            #[trigger] store.names@[j] == old(store).names@[j] by {
                            assert(s1.names@[j] == old(store).names@[j]);
                        }
                        assert forall|x: TermId|
                            match last_entry(list@, x, k + 1) {
                                Some(j) => m.assignments@.contains_key(x) && text_literal(
                                    store,
                                    list@[j].1@,
                                    m.assignments@[x],
                                ),
                                None => !(#[trigger] m.assignments@.contains_key(x)),
                            } by {
                            if x != t {
                                assert(m.assignments@.contains_key(x) == before.contains_key(x));
                                if let Some(j) = last_entry(list@, x, k as int) {
                                    lemma_literal_grow(&s1, store, list@[j].1@, before[x]);
                                }
                            }
                        }
                    }
                    k = k + 1;
                }
                self.model = Some(m);
                true
            },
        }
    }
}

} // verus!
