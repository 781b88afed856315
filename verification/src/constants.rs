//! Replacing variables by the constants that assertions equate them with.

use crate::aliases::is_var;
use crate::collections::{map_get, map_insert, map_new, map_sorted_keys};
use crate::constructors::grew;
use crate::context::Context;
use crate::semantics::{eval, holds, Interp};
use crate::terms::{node_below, terms_wf, Op, SortId, SortKind, TermId, TermStore, TermView};
use crate::walk::{
    lemma_map_ok_extend, lemma_subst_eval, lemma_subst_extend, map_ok, quantifier_free, subst,
    substitute,
};
use rustc_hash::FxHashMap;
use vstd::prelude::*;

verus! {

/// A literal.
pub open spec fn ground_const(s: Seq<TermView>, t: TermId) -> bool {
    t < s.len() && match s[t as int].op {
        Op::IntConst | Op::RealConst | Op::BitVecConst | Op::FpLit | Op::FpConst | Op::StringLit
        | Op::True | Op::False => true,
        _ => false,
    }
}

pub fn is_ground_const(store: &TermStore, t: TermId) -> (b: bool)
    ensures
        b == ground_const(store.terms(), t),
{
    if t >= store.nodes.len() {
        return false;
    }
    assert(store.nodes@[t as int]@ == store.terms()[t as int]);
    match store.nodes[t].op {
        Op::IntConst | Op::RealConst | Op::BitVecConst | Op::FpLit | Op::FpConst | Op::StringLit
        | Op::True | Op::False => true,
        _ => false,
    }
}

/// Two terms of one sort.
pub fn sorts_match(store: &TermStore, a: TermId, b: TermId) -> (r: bool)
    ensures
        r == (a < store.terms().len() && b < store.terms().len() && store.terms()[a as int].sort
            == store.terms()[b as int].sort),
{
    if a >= store.nodes.len() || b >= store.nodes.len() {
        return false;
    }
    assert(store.nodes@[a as int]@ == store.terms()[a as int]);
    assert(store.nodes@[b as int]@ == store.terms()[b as int]);
    store.nodes[a].sort == store.nodes[b].sort
}

/// Sorts whose variables are replaced: floating-point numbers and strings.
pub open spec fn replaceable_sort(sorts: Seq<SortKind>, id: SortId) -> bool {
    id < sorts.len() && (sorts[id as int] is FloatingPoint || sorts[id as int] == SortKind::String)
}

/// The variable may be replaced by the constant.
pub open spec fn binds(s: Seq<TermView>, sorts: Seq<SortKind>, v: TermId, c: TermId) -> bool {
    &&& is_var(s, v)
    &&& ground_const(s, c)
    &&& replaceable_sort(sorts, s[v as int].sort)
    &&& s[v as int].sort == s[c as int].sort
}

/// The variable and the constant of an equation between the two.
pub open spec fn constant_binding(s: Seq<TermView>, sorts: Seq<SortKind>, t: TermId) -> Option<
    (TermId, TermId),
> {
    if t < s.len() && s[t as int].op == Op::Eq {
        let (l, r) = (s[t as int].args[0], s[t as int].args[1]);
        if binds(s, sorts, l, r) {
            Some((l, r))
        } else if binds(s, sorts, r, l) {
            Some((r, l))
        } else {
            None
        }
    } else {
        None
    }
}

fn may_bind(store: &TermStore, v: TermId, c: TermId) -> (b: bool)
    requires
        store.wf(),
        v < store.terms().len(),
        c < store.terms().len(),
    ensures
        b == binds(store.terms(), store.sorts@, v, c),
{
    assert(store.nodes@[v as int]@ == store.terms()[v as int]);
    let var = match store.nodes[v].op {
        Op::Var => true,
        _ => false,
    };
    let sort: SortId = store.nodes[v].sort;
    let fit = sort < store.sorts.len() && match store.sorts[sort] {
        SortKind::FloatingPoint { .. } => true,
        SortKind::String => true,
        _ => false,
    };
    var && fit && is_ground_const(store, c) && sorts_match(store, v, c)
}

/// Reads a variable and its constant off an equation.
pub fn read_binding(store: &TermStore, t: TermId) -> (r: Option<(TermId, TermId)>)
    requires
        store.wf(),
    ensures
        r == constant_binding(store.terms(), store.sorts@, t),
{
    if t >= store.nodes.len() {
        return None;
    }
    let node = &store.nodes[t];
    assert(node@ == store.terms()[t as int]);
    assert(node_below(store.terms(), t as int));
    match node.op {
        Op::Eq => {
            let l: TermId = node.args[0];
            let r: TermId = node.args[1];
            if may_bind(store, l, r) {
                Some((l, r))
            } else if may_bind(store, r, l) {
                Some((r, l))
            } else {
                None
            }
        },
        _ => None,
    }
}

/// A substitution that is being collected.
pub struct ConstSubst {
    pub map: FxHashMap<TermId, TermId>,
    /// A variable was added in the current round.
    pub grew: bool,
}

impl ConstSubst {
    pub fn new() -> (r: ConstSubst)
        ensures
            r.map@.dom() == Set::<TermId>::empty(),
            !r.grew,
            forall|s: Seq<TermView>| #[trigger] map_ok(s, r.map@),
    {
        ConstSubst { map: map_new(), grew: false }
    }

    /// Takes note of an assertion, after substitution and simplification.
    pub fn offer(&mut self, store: &TermStore, simplified: TermId)
        requires
            store.wf(),
            map_ok(store.terms(), old(self).map@),
        ensures
            map_ok(store.terms(), final(self).map@),
            match constant_binding(store.terms(), store.sorts@, simplified) {
                Some((v, c)) => final(self).map@ == old(self).map@.insert(v, c) && final(self).grew == (old(self).grew || !old(self).map@.contains_key(v)),
                None => *final(self) == *old(self),
            },
    {
        if let Some((v, c)) = read_binding(store, simplified) {
            let before = map_insert(&mut self.map, v, c);
            if before.is_none() {
                self.grew = true;
            }
        }
    }

    /// Ends a round over `n` assertions: whether there is to be another.
    pub fn end_round(&mut self, n: usize) -> (more: bool)
        requires
            2 * n + 16 <= usize::MAX,
        ensures
            more == (old(self).grew && old(self).map@.dom().len() <= 2 * n + 16),
            final(self).map == old(self).map,
            !final(self).grew,
    {
        let keys = map_sorted_keys(&self.map);
        proof {
            assert(keys@.no_duplicates());
            keys@.unique_seq_to_set();
        }
        let more = self.grew && keys.len() <= n * 2 + 16;
        self.grew = false;
        more
    }
}

/// The values of the variables of a substitution are those of their constants.
pub open spec fn bindings_hold(s: Seq<TermView>, i: Interp, m: Map<TermId, TermId>) -> bool {
    forall|v: TermId| #[trigger]
        m.contains_key(v) ==> eval(s, i, v as int) == eval(s, i, m[v] as int)
}

/// Where the bindings hold, a formula holds if and only if what it becomes does.
pub proof fn substitution_keeps_truth(
    s: Seq<TermView>,
    i: Interp,
    m: Map<TermId, TermId>,
    t: TermId,
    r: TermId,
)
    requires
        terms_wf(s),
        map_ok(s, m),
        t < s.len(),
        quantifier_free(s, t),
        subst(s, m, t, r),
        bindings_hold(s, i, m),
    ensures
        holds(s, i, t) == holds(s, i, r),
{
    lemma_subst_eval(s, i, m, t, r);
}

impl Context {
    /// The assertions with the substitution applied.  Inside a scope, and
    /// without a substitution, they are left alone.
    pub fn propagate_constant_subst(&mut self, found: &ConstSubst) -> (r: Option<Vec<TermId>>)
        requires
            old(self).valid(),
            map_ok(old(self).terms.terms(), found.map@),
        ensures
            final(self).valid(),
            *final(self) == (Context { terms: final(self).terms, ..*old(self) }),
            grew(&old(self).terms, &final(self).terms),
            r is Some == (old(self).assertion_stack@.len() == 0 && found.map@.dom()
                != Set::<TermId>::empty()),
            r is None ==> final(self).terms == old(self).terms,
            r matches Some(list) ==> list@.len() == old(self).assertions@.len() && forall|k: int|
                0 <= k < list@.len() ==> (#[trigger] list@[k]) < final(self).terms.terms().len()
                    && subst(
                    final(self).terms.terms(),
                    found.map@,
                    old(self).assertions@[k],
                    list@[k],
                ),
    {
        let keys = map_sorted_keys(&found.map);
        proof {
            if keys@.len() == 0 {
                assert(found.map@.dom() =~= Set::<TermId>::empty());
            } else {
                assert(keys@.to_set().contains(keys@[0]));
            }
        }
        if self.assertion_stack.len() > 0 || keys.len() == 0 {
            return None;
        }
        let ghost before = *self;
        let ghost s0 = self.terms.terms();
        let mut list: Vec<TermId> = Vec::new();
        let mut k: usize = 0;
        while k < self.assertions.len()
            invariant
                k <= self.assertions.len(),
                before.valid(),
                s0 == before.terms.terms(),
                *self == (Context { terms: self.terms, ..before }),
                grew(&before.terms, &self.terms),
                map_ok(s0, found.map@),
                list@.len() == k,
                forall|j: int|
                    0 <= j < k ==> (#[trigger] list@[j]) < self.terms.terms().len() && subst(
                        self.terms.terms(),
                        found.map@,
                        before.assertions@[j],
                        list@[j],
                    ),
            decreases self.assertions.len() - k,
        {
            let t: TermId = self.assertions[k];
            let ghost s1 = self.terms.terms();
            proof {
                lemma_map_ok_extend(s0, s1, found.map@);
                assert(t == before.assertions@[k as int]);
            }
            let r = substitute(&mut self.terms, t, &found.map);
            proof {
                let s2 = self.terms.terms();
                assert forall|j: int| 0 <= j < k implies (#[trigger] list@[j]) < s2.len() && subst(
                    s2,
                    found.map@,
                    before.assertions@[j],
                    list@[j],
                ) by {
                    assert(before.assertions@[j] < s0.len());
                    lemma_subst_extend(s1, s2, found.map@, before.assertions@[j], list@[j]);
                }
            }
            list.push(r);
            k = k + 1;
        }
        Some(list)
    }
}

/// The term that a chain of replacements leads to within `n` steps.
pub open spec fn chain_end(m: Map<TermId, TermId>, t: TermId, n: int) -> TermId
    decreases n,
{
    if n > 0 && m.contains_key(t) && m[t] != t {
        chain_end(m, m[t], n - 1)
    } else {
        t
    }
}

/// How far a chain of replacements is followed.
pub const MAX_CHAIN: u32 = 65537;

/// Follows a chain of replacements.
pub fn resolve_chain(t: TermId, m: &FxHashMap<TermId, TermId>) -> (r: TermId)
    ensures
        r == chain_end(m@, t, MAX_CHAIN as int),
{
    let mut now: TermId = t;
    let mut left: u32 = MAX_CHAIN;
    while left > 0
        invariant
            chain_end(m@, t, MAX_CHAIN as int) == chain_end(m@, now, left as int),
        decreases left,
    {
        match map_get(m, now) {
            Some(next) => {
                if *next == now {
                    return now;
                }
                now = *next;
            },
            None => {
                return now;
            },
        }
        left = left - 1;
    }
    now
}

} // verus!
