//! Walks that descend into some arguments only.

use crate::collections::{set_contains, set_insert, set_new};
use crate::terms::{node_below, terms_wf, Op, TermId, TermStore, TermView};
use crate::walk::{collect_subterms, lemma_reach_le, lists_reach, reach, subterm};
use rustc_hash::FxHashSet;
use vstd::prelude::*;

verus! {

/// Which arguments a walk descends into.
#[derive(Clone, Copy, PartialEq, Eq, Debug, Structural)]
pub enum Descent {
    /// Places where a negated equation or `distinct` can force an order: below
    /// connectives, the consequent of an implication, the branches of a
    /// conditional.
    Disequalities,
    /// Places where an equation can stand: below connectives and in the
    /// branches of a conditional.
    Equations,
    /// Conjuncts.
    Conjuncts,
    /// Disjuncts.
    Disjuncts,
}

/// The walk descends into the `k`-th argument.
pub open spec fn descends(d: Descent, op: Op, k: int) -> bool {
    match d {
        Descent::Disequalities => match op {
            Op::Not | Op::And | Op::Or => true,
            Op::Implies => k == 1,
            Op::Ite => k >= 1,
            _ => false,
        },
        Descent::Equations => match op {
            Op::Not | Op::And | Op::Or | Op::Implies => true,
            Op::Ite => k >= 1,
            _ => false,
        },
        Descent::Conjuncts => op == Op::And,
        Descent::Disjuncts => op == Op::Or,
    }
}

fn goes_into(d: Descent, op: Op, k: usize) -> (b: bool)
    ensures
        b == descends(d, op, k as int),
{
    match d {
        Descent::Disequalities => match op {
            Op::Not | Op::And | Op::Or => true,
            Op::Implies => k == 1,
            Op::Ite => k >= 1,
            _ => false,
        },
        Descent::Equations => match op {
            Op::Not | Op::And | Op::Or | Op::Implies => true,
            Op::Ite => k >= 1,
            _ => false,
        },
        Descent::Conjuncts => op == Op::And,
        Descent::Disjuncts => op == Op::Or,
    }
}

/// The walk from `t` comes to `x`.
pub open spec fn visits(s: Seq<TermView>, d: Descent, t: TermId, x: TermId) -> bool
    decreases t,
{
    x == t || exists|k: int|
        0 <= k < s[t as int].args.len() && descends(d, s[t as int].op, k) && (
        #[trigger] s[t as int].args[k]) < t && visits(s, d, s[t as int].args[k], x)
}

/// `p` has `x` as an argument that the walk descends into.
pub open spec fn leads_to(s: Seq<TermView>, d: Descent, p: TermId, x: TermId) -> bool {
    exists|k: int|
        0 <= k < s[p as int].args.len() && descends(d, s[p as int].op, k)
            && #[trigger] s[p as int].args[k] == x
}

proof fn lemma_visits_subterm(s: Seq<TermView>, d: Descent, t: TermId, x: TermId)
    requires
        visits(s, d, t, x),
    ensures
        subterm(s, t, x),
    decreases t,
{
    if x != t {
        let k = choose|k: int|
            0 <= k < s[t as int].args.len() && descends(d, s[t as int].op, k) && (
            #[trigger] s[t as int].args[k]) < t && visits(s, d, s[t as int].args[k], x);
        lemma_visits_subterm(s, d, s[t as int].args[k], x);
        assert(reach(s, Map::empty(), s[t as int].args[k], x));
    }
}

/// The walk goes on below what it comes to.
pub proof fn lemma_visits_step(s: Seq<TermView>, d: Descent, t: TermId, p: TermId, x: TermId)
    requires
        terms_wf(s),
        t < s.len(),
        visits(s, d, t, p),
        leads_to(s, d, p, x),
    ensures
        visits(s, d, t, x),
    decreases t,
{
    assert(node_below(s, t as int));
    if p == t {
        let k = choose|k: int|
            0 <= k < s[p as int].args.len() && descends(d, s[p as int].op, k)
                && #[trigger] s[p as int].args[k] == x;
        assert(s[t as int].args[k] < t);
        assert(visits(s, d, s[t as int].args[k], x));
    } else {
        let k = choose|k: int|
            0 <= k < s[t as int].args.len() && descends(d, s[t as int].op, k) && (
            #[trigger] s[t as int].args[k]) < t && visits(s, d, s[t as int].args[k], p);
        lemma_visits_step(s, d, s[t as int].args[k], p, x);
        assert(visits(s, d, s[t as int].args[k], x));
    }
}

/// The walk comes to a term from one that it comes to.
proof fn lemma_visits_from(s: Seq<TermView>, d: Descent, t: TermId, x: TermId) -> (p: TermId)
    requires
        terms_wf(s),
        t < s.len(),
        visits(s, d, t, x),
        x != t,
    ensures
        visits(s, d, t, p),
        leads_to(s, d, p, x),
        p <= t,
        x < p,
    decreases t,
{
    assert(node_below(s, t as int));
    let k = choose|k: int|
        0 <= k < s[t as int].args.len() && descends(d, s[t as int].op, k) && (
        #[trigger] s[t as int].args[k]) < t && visits(s, d, s[t as int].args[k], x);
    let a = s[t as int].args[k];
    if a == x {
        assert(leads_to(s, d, t, x));
        t
    } else {
        let p = lemma_visits_from(s, d, a, x);
        assert(visits(s, d, s[t as int].args[k], p));
        p
    }
}

/// What the walk from `t` comes to, outer terms before inner ones.
pub fn collect_visited(store: &TermStore, t: TermId, d: Descent) -> (list: Vec<TermId>)
    requires
        store.wf(),
        t < store.terms().len(),
    ensures
        forall|x: TermId| #[trigger] list@.contains(x) <==> visits(store.terms(), d, t, x),
        forall|j: int, k: int| 0 <= j < k < list@.len() ==> list@[j] > list@[k],
        forall|j: int| 0 <= j < list@.len() ==> (#[trigger] list@[j]) < store.terms().len(),
{
    let ghost s = store.terms();
    let all = collect_subterms(store, t);
    let mut marked: FxHashSet<TermId> = set_new();
    set_insert(&mut marked, t);
    let mut list: Vec<TermId> = Vec::new();
    let mut n: usize = all.len();
    while n > 0
        invariant
            n <= all.len(),
            store.wf(),
            s == store.terms(),
            t < s.len(),
            lists_reach(all@, s, Map::empty(), t),
            marked@.contains(t),
            forall|x: TermId| #[trigger] marked@.contains(x) ==> visits(s, d, t, x),
            forall|j: int, x: TermId|
                n <= j < all@.len() && visits(s, d, t, all@[j]) && #[trigger] leads_to(
                    s,
                    d,
                    all@[j],
                    x,
                ) ==> marked@.contains(x),
            forall|j: int|
                n <= j < all@.len() ==> (list@.contains(#[trigger] all@[j]) <==> visits(
                    s,
                    d,
                    t,
                    all@[j],
                )),
            forall|k: int|
                0 <= k < list@.len() ==> exists|j: int|
                    n <= j < all@.len() && #[trigger] all@[j] == #[trigger] list@[k],
            forall|k: int| 0 <= k < list@.len() ==> (#[trigger] list@[k]) < s.len(),
            forall|j: int, k: int| 0 <= j < k < list@.len() ==> list@[j] > list@[k],
        decreases n,
    {
        let ghost before = list@;
        let ghost marks = marked@;
        n = n - 1;
        let x: TermId = all[n];
        proof {
            assert(all@.contains(x));
            lemma_reach_le(s, Map::empty(), t, x);
            assert(node_below(s, x as int));
            assert(marked@.contains(x) <==> visits(s, d, t, x)) by {
                if visits(s, d, t, x) && x != t {
                    let p = lemma_visits_from(s, d, t, x);
                    lemma_visits_subterm(s, d, t, p);
                    assert(all@.contains(p));
                    let j = choose|j: int| 0 <= j < all@.len() && all@[j] == p;
                    assert(n < j) by {
                        if j < n {
                            assert(all@[j] < all@[n as int]);
                        }
                    }
                    assert(leads_to(s, d, all@[j], x));
                }
            }
        }
        if set_contains(&marked, x) {
            list.push(x);
            let node = &store.nodes[x];
            let mut k: usize = 0;
            while k < node.args.len()
                invariant
                    k <= node.args.len(),
                    s == store.terms(),
                    terms_wf(s),
                    t < s.len(),
                    x < s.len(),
                    node.args@ == s[x as int].args,
                    node.op == s[x as int].op,
                    visits(s, d, t, x),
                    forall|y: TermId| #[trigger] marked@.contains(y) ==> visits(s, d, t, y),
                    forall|y: TermId| #[trigger] marks.contains(y) ==> marked@.contains(y),
                    forall|j: int|
                        0 <= j < k && descends(d, s[x as int].op, j) ==> marked@.contains(
                            #[trigger] s[x as int].args[j],
                        ),
                decreases node.args.len() - k,
            {
                if goes_into(d, node.op, k) {
                    let a: TermId = node.args[k];
                    proof {
                        assert(s[x as int].args[k as int] == a);
                        assert(leads_to(s, d, x, a));
                        lemma_visits_step(s, d, t, x, a);
                    }
                    set_insert(&mut marked, a);
                }
                k = k + 1;
            }
        }
        proof {
            assert forall|j: int, y: TermId|
                n <= j < all@.len() && visits(s, d, t, all@[j]) && #[trigger] leads_to(
                    s,
                    d,
                    all@[j],
                    y,
                ) implies marked@.contains(y) by {
                if j == n {
                    let k = choose|k: int|
                        0 <= k < s[x as int].args.len() && descends(d, s[x as int].op, k)
                            && #[trigger] s[x as int].args[k] == y;
                    assert(marked@.contains(s[x as int].args[k]));
                }
            }
            if marks.contains(x) {
                crate::domains::lemma_push_contains(before, x);
                assert(list@ == before.push(x));
            }
            assert forall|j: int| n <= j < all@.len() implies (list@.contains(#[trigger] all@[j])
                <==> visits(s, d, t, all@[j])) by {
                if j == n {
                    if before.contains(x) {
                        let k = choose|k: int| 0 <= k < before.len() && before[k] == x;
                        let i = choose|i: int|
                            n < i < all@.len() && #[trigger] all@[i] == #[trigger] before[k];
                        assert(all@[n as int] < all@[i]);
                    }
                } else {
                    assert(all@[n as int] < all@[j]);
                }
            }
            assert forall|k: int| 0 <= k < list@.len() implies exists|j: int|
                n <= j < all@.len() && #[trigger] all@[j] == #[trigger] list@[k] by {
                if k < before.len() {
                    assert(list@[k] == before[k]);
                    let i = choose|i: int|
                        n < i < all@.len() && #[trigger] all@[i] == #[trigger] before[k];
                    assert(all@[i] == list@[k]);
                } else {
                    assert(all@[n as int] == list@[k]);
                }
            }
            assert forall|j: int, k: int| 0 <= j < k < list@.len() implies list@[j] > list@[k] by {
                if k == before.len() {
                    assert(list@[j] == before[j]);
                    let i = choose|i: int|
                        n < i < all@.len() && #[trigger] all@[i] == #[trigger] before[j];
                    assert(all@[n as int] < all@[i]);
                } else {
                    assert(list@[j] == before[j] && list@[k] == before[k]);
                }
            }
        }
    }
    proof {
        assert forall|x: TermId| #[trigger] list@.contains(x) <==> visits(s, d, t, x) by {
            if visits(s, d, t, x) {
                lemma_visits_subterm(s, d, t, x);
                assert(all@.contains(x));
                let j = choose|j: int| 0 <= j < all@.len() && all@[j] == x;
                assert(list@.contains(all@[j]));
            }
            if list@.contains(x) {
                let k = choose|k: int| 0 <= k < list@.len() && list@[k] == x;
                let j = choose|j: int|
                    0 <= j < all@.len() && #[trigger] all@[j] == #[trigger] list@[k];
                assert(list@.contains(all@[j]));
            }
        }
    }
    list
}

/// Walks do not depend on later terms.
pub(crate) proof fn lemma_visits_extend(a: Seq<TermView>, b: Seq<TermView>, d: Descent, t: TermId, x: TermId)
    requires
        terms_wf(a),
        crate::terms::extends(a, b),
        t < a.len(),
        visits(a, d, t, x),
    ensures
        visits(b, d, t, x),
        x < a.len(),
    decreases t,
{
    assert(b[t as int] == a[t as int]);
    if x != t {
        let k = choose|k: int|
            0 <= k < a[t as int].args.len() && descends(d, a[t as int].op, k) && (
            #[trigger] a[t as int].args[k]) < t && visits(a, d, a[t as int].args[k], x);
        lemma_visits_extend(a, b, d, a[t as int].args[k], x);
        assert(visits(b, d, b[t as int].args[k], x));
    }
}

pub(crate) proof fn lemma_visits_back(a: Seq<TermView>, b: Seq<TermView>, d: Descent, t: TermId, x: TermId)
    requires
        terms_wf(a),
        crate::terms::extends(a, b),
        t < a.len(),
        visits(b, d, t, x),
    ensures
        visits(a, d, t, x),
    decreases t,
{
    assert(b[t as int] == a[t as int]);
    if x != t {
        let k = choose|k: int|
            0 <= k < b[t as int].args.len() && descends(d, b[t as int].op, k) && (
            #[trigger] b[t as int].args[k]) < t && visits(b, d, b[t as int].args[k], x);
        lemma_visits_back(a, b, d, a[t as int].args[k], x);
        assert(visits(a, d, a[t as int].args[k], x));
    }
}

} // verus!
