//! Names that asserted equations give to terms.
//!
//! An assertion `(= name body)` makes `name` the representative of `body`;
//! later assertions that repeat the body mention the name instead.

use crate::collections::{map_get, map_insert, map_new, map_sorted_keys, set_sorted_items};
use crate::constructors::grew;
use crate::semantics::{arg_sorts, eqv, eval, eval_args, holds, is_true, lemma_eval, Interp};
use crate::tables::TableState;
use crate::terms::{node_below, terms_wf, Op, TermId, TermStore, TermView};
use crate::walk::{map_ok, subst, substitute};
use rustc_hash::FxHashMap;
use vstd::prelude::*;

verus! {

/// The aliases that change something.
pub open spec fn proper_aliases(reps: Map<TermId, TermId>) -> Map<TermId, TermId> {
    Map::new(|k: TermId| reps.contains_key(k) && reps[k] != k, |k: TermId| reps[k])
}

pub open spec fn is_var(s: Seq<TermView>, t: TermId) -> bool {
    t < s.len() && s[t as int].op == Op::Var
}

/// The map with `k` bound to itself, where it is not bound.
pub open spec fn self_bound(reps: Map<TermId, TermId>, k: TermId) -> Map<TermId, TermId> {
    if reps.contains_key(k) {
        reps
    } else {
        reps.insert(k, k)
    }
}

/// What the equation of `a` and `b` adds: the variable among them names the
/// other; of two variables the earlier names the later.  Only terms of one sort
/// can stand for each other.
pub open spec fn equation_noted(
    s: Seq<TermView>,
    reps: Map<TermId, TermId>,
    a: TermId,
    b: TermId,
) -> Map<TermId, TermId> {
    if s[a as int].sort != s[b as int].sort {
        reps
    } else if is_var(s, a) && (!is_var(s, b) || a <= b) {
        self_bound(reps, a).insert(b, a)
    } else if is_var(s, b) {
        self_bound(reps, b).insert(a, b)
    } else {
        reps
    }
}

/// What the conjuncts of `t` that are equations add, the last conjunct first.
pub open spec fn aliases_noted(
    s: Seq<TermView>,
    reps: Map<TermId, TermId>,
    t: TermId,
) -> Map<TermId, TermId>
    decreases t, s[t as int].args.len() + 2,
{
    if t < s.len() && s[t as int].op == Op::And {
        aliases_noted_from(s, reps, t, 0)
    } else if t < s.len() && s[t as int].op == Op::Eq {
        equation_noted(s, reps, s[t as int].args[0], s[t as int].args[1])
    } else {
        reps
    }
}

/// What the conjuncts of `t` from the `k`-th on add.
pub open spec fn aliases_noted_from(
    s: Seq<TermView>,
    reps: Map<TermId, TermId>,
    t: TermId,
    k: int,
) -> Map<TermId, TermId>
    decreases t, s[t as int].args.len() - k + 1,
{
    if 0 <= k < s[t as int].args.len() && s[t as int].args[k] < t {
        aliases_noted(s, aliases_noted_from(s, reps, t, k + 1), s[t as int].args[k])
    } else {
        reps
    }
}

/// Each alias has the value of what it names.
pub open spec fn aliases_true(s: Seq<TermView>, i: Interp, reps: Map<TermId, TermId>) -> bool {
    forall|k: TermId| #[trigger]
        reps.contains_key(k) ==> eqv(
            s[k as int].sort,
            eval(s, i, k as int),
            eval(s, i, reps[k] as int),
        )
}

proof fn lemma_alias_map_ok(s: Seq<TermView>, reps: Map<TermId, TermId>, t: TermId)
    requires
        terms_wf(s),
        map_ok(s, reps),
        t < s.len(),
    ensures
        map_ok(s, aliases_noted(s, reps, t)),
    decreases t, s[t as int].args.len() + 2,
{
    assert(node_below(s, t as int));
    if s[t as int].op == Op::And {
        lemma_alias_map_ok_from(s, reps, t, 0);
    }
}

proof fn lemma_alias_map_ok_from(s: Seq<TermView>, reps: Map<TermId, TermId>, t: TermId, k: int)
    requires
        terms_wf(s),
        map_ok(s, reps),
        t < s.len(),
        0 <= k,
    ensures
        map_ok(s, aliases_noted_from(s, reps, t, k)),
    decreases t, s[t as int].args.len() - k + 1,
{
    if k < s[t as int].args.len() && s[t as int].args[k] < t {
        lemma_alias_map_ok_from(s, reps, t, k + 1);
        lemma_alias_map_ok(s, aliases_noted_from(s, reps, t, k + 1), s[t as int].args[k]);
    }
}

/// The aliases of an assertion are true wherever it is.
pub proof fn aliases_follow(s: Seq<TermView>, i: Interp, reps: Map<TermId, TermId>, t: TermId)
    requires
        terms_wf(s),
        map_ok(s, reps),
        t < s.len(),
        holds(s, i, t),
        aliases_true(s, i, reps),
    ensures
        aliases_true(s, i, aliases_noted(s, reps, t)),
    decreases t, s[t as int].args.len() + 2,
{
    assert(node_below(s, t as int));
    if s[t as int].op == Op::And {
        lemma_eval(s, i, t);
        let vals = eval_args(s, i, s[t as int].args);
        assert forall|j: int| 0 <= j < s[t as int].args.len() implies holds(
            s,
            i,
            #[trigger] s[t as int].args[j],
        ) by {
            assert(is_true(vals[j]));
        }
        aliases_follow_from(s, i, reps, t, 0);
    } else if s[t as int].op == Op::Eq {
        lemma_eval(s, i, t);
        let a = s[t as int].args[0];
        let b = s[t as int].args[1];
        let vals = eval_args(s, i, s[t as int].args);
        assert(vals[0] == eval(s, i, a as int));
        assert(vals[1] == eval(s, i, b as int));
        assert(arg_sorts(s, s[t as int])[0] == s[a as int].sort);
        assert(eqv(s[a as int].sort, vals[0], vals[1]));
    }
}

proof fn aliases_follow_from(
    s: Seq<TermView>,
    i: Interp,
    reps: Map<TermId, TermId>,
    t: TermId,
    k: int,
)
    requires
        terms_wf(s),
        map_ok(s, reps),
        t < s.len(),
        0 <= k,
        forall|j: int|
            0 <= j < s[t as int].args.len() ==> holds(s, i, #[trigger] s[t as int].args[j]),
        aliases_true(s, i, reps),
    ensures
        aliases_true(s, i, aliases_noted_from(s, reps, t, k)),
    decreases t, s[t as int].args.len() - k + 1,
{
    if k < s[t as int].args.len() && s[t as int].args[k] < t {
        aliases_follow_from(s, i, reps, t, k + 1);
        lemma_alias_map_ok_from(s, reps, t, k + 1);
        aliases_follow(s, i, aliases_noted_from(s, reps, t, k + 1), s[t as int].args[k]);
    }
}

fn var_at(store: &TermStore, t: TermId) -> (b: bool)
    ensures
        b == is_var(store.terms(), t),
{
    match store.get(t) {
        None => false,
        Some(node) => node.op == Op::Var,
    }
}

fn bind(reps: &mut FxHashMap<TermId, TermId>, name: TermId, other: TermId)
    ensures
        final(reps)@ == self_bound(old(reps)@, name).insert(other, name),
{
    let bound = match map_get(reps, name) {
        Some(_) => true,
        None => false,
    };
    if !bound {
        map_insert(reps, name, name);
    }
    map_insert(reps, other, name);
}

fn note_aliases(reps: &mut FxHashMap<TermId, TermId>, store: &TermStore, t: TermId)
    requires
        store.wf(),
        t < store.terms().len(),
    ensures
        final(reps)@ == aliases_noted(store.terms(), old(reps)@, t),
    decreases t,
{
    let ghost s = store.terms();
    assert(node_below(s, t as int));
    let node = &store.nodes[t];
    match node.op {
        Op::And => {
            let ghost first = reps@;
            let mut k: usize = node.args.len();
            while k > 0
                invariant
                    k <= node.args.len(),
                    store.wf(),
                    s == store.terms(),
                    t < s.len(),
                    node_below(s, t as int),
                    node.args@ == s[t as int].args,
                    reps@ == aliases_noted_from(s, first, t, k as int),
                decreases k,
            {
                k = k - 1;
                assert(s[t as int].args[k as int] < t);
                note_aliases(reps, store, node.args[k]);
            }
        },
        Op::Eq => {
            let a: TermId = node.args[0];
            let b: TermId = node.args[1];
            if store.nodes[a].sort != store.nodes[b].sort {
                return;
            }
            if var_at(store, a) && (!var_at(store, b) || a <= b) {
                bind(reps, a, b);
            } else if var_at(store, b) {
                bind(reps, b, a);
            }
        },
        _ => {},
    }
}

impl TableState {
    /// Records the aliases that an assertion gives.
    pub fn note_unit_eq_alias(&mut self, store: &TermStore, term: TermId)
        requires
            store.wf(),
            old(self).wf(store.terms()),
            term < store.terms().len(),
        ensures
            final(self).wf(store.terms()),
            final(self).unit_eq_rep@ == aliases_noted(
                store.terms(),
                old(self).unit_eq_rep@,
                term,
            ),
            *final(self) == (TableState { unit_eq_rep: final(self).unit_eq_rep, ..*old(self) }),
    {
        proof {
            lemma_alias_map_ok(store.terms(), self.unit_eq_rep@, term);
        }
        note_aliases(&mut self.unit_eq_rep, store, term);
    }

    /// Replaces named terms by their names, once there are tables.
    pub fn fold_unit_eq_reps(&self, store: &mut TermStore, term: TermId) -> (r: TermId)
        requires
            old(store).wf(),
            self.wf(old(store).terms()),
            term < old(store).terms().len(),
        ensures
            grew(old(store), final(store)),
            r < final(store).terms().len(),
            self.table_index_terms@ == Set::<TermId>::empty() ==> r == term
                && final(store).terms() == old(store).terms(),
            self.table_index_terms@ != Set::<TermId>::empty() ==> subst(
                final(store).terms(),
                proper_aliases(self.unit_eq_rep@),
                term,
                r,
            ),
    {
        let ghost s0 = store.terms();
        let indices = set_sorted_items(&self.table_index_terms);
        proof {
            if indices@.len() == 0 {
                assert forall|x: TermId| !self.table_index_terms@.contains(x) by {
                    if self.table_index_terms@.contains(x) {
                        assert(indices@.to_set().contains(x));
                        assert(indices@.contains(x));
                    }
                }
                assert(self.table_index_terms@ =~= Set::<TermId>::empty());
            } else {
                assert(indices@.contains(indices@[0]));
                assert(indices@.to_set().contains(indices@[0]));
            }
        }
        if indices.len() == 0 {
            return term;
        }
        let keys = map_sorted_keys(&self.unit_eq_rep);
        let mut map: FxHashMap<TermId, TermId> = map_new();
        let mut n: usize = 0;
        while n < keys.len()
            invariant
                n <= keys.len(),
                keys@.to_set() == self.unit_eq_rep@.dom(),
                forall|k: TermId| #[trigger]
                    map@.contains_key(k) <==> self.unit_eq_rep@.contains_key(k)
                        && self.unit_eq_rep@[k] != k && keys@.take(n as int).contains(k),
                forall|k: TermId| #[trigger]
                    map@.contains_key(k) ==> map@[k] == self.unit_eq_rep@[k],
            decreases keys.len() - n,
        {
            let body: TermId = keys[n];
            let ghost before = map@;
            proof {
                assert(keys@.contains(body));
                assert(keys@.to_set().contains(body));
                let a = keys@.take(n as int);
                let b = keys@.take(n + 1);
                assert(b =~= a.push(body));
                assert forall|k: TermId| #[trigger] b.contains(k) <==> a.contains(k) || k == body by {
                    if a.contains(k) {
                        let j = choose|j: int| 0 <= j < a.len() && a[j] == k;
                        assert(b[j] == k);
                    }
                    assert(b[n as int] == body);
                }
            }
            if let Some(rep) = map_get(&self.unit_eq_rep, body) {
                let rep: TermId = *rep;
                if rep != body {
                    map_insert(&mut map, body, rep);
                }
            }
            n = n + 1;
        }
        proof {
            assert(keys@.take(keys@.len() as int) =~= keys@);
            assert forall|k: TermId| self.unit_eq_rep@.contains_key(k) implies keys@.contains(
                k,
            ) by {
                assert(keys@.to_set().contains(k));
            }
            assert(map@ =~= proper_aliases(self.unit_eq_rep@));
            assert(map_ok(s0, map@)) by {
                assert(map_ok(s0, self.unit_eq_rep@));
                assert forall|k: TermId| #[trigger] map@.contains_key(k) implies k < s0.len()
                    && map@[k] < s0.len() && s0[map@[k] as int].sort == s0[k as int].sort by {
                    assert(self.unit_eq_rep@.contains_key(k));
                }
            }
        }
        substitute(store, term, &map)
    }
}

} // verus!
