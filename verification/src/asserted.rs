//! What an assertion states unconditionally.

use crate::collections::{map_get, map_insert, map_new, set_contains, set_insert, set_new};
use crate::descent::{collect_visited, visits, Descent};
use crate::numbers::{signed_value, BigNum};
use crate::semantics::{eval, eval_args, holds, is_true, lemma_eval, num, Interp};
use crate::terms::{node_below, terms_wf, Data, DataView, Op, TermId, TermStore, TermView, INT_SORT};
use crate::walk::{collect_subterms, lemma_reach_le, lists_reach, reach, subterm};
use rustc_hash::{FxHashMap, FxHashSet};
use vstd::prelude::*;

verus! {

/// The integer that a literal is.
pub open spec fn literal_integer(s: Seq<TermView>, t: TermId) -> Option<int> {
    if t < s.len() && s[t as int].op == Op::IntConst {
        match s[t as int].data {
            DataView::Int(negative, digits) => Some(signed_value(negative, digits)),
            _ => None,
        }
    } else {
        None
    }
}

/// The integer term and the value of an equation between the two.
pub open spec fn pinned(s: Seq<TermView>, x: TermId) -> Option<(TermId, int)> {
    if x < s.len() && s[x as int].op == Op::Eq {
        let (l, r) = (s[x as int].args[0], s[x as int].args[1]);
        let found = match (literal_integer(s, l), literal_integer(s, r)) {
            (Some(v), _) => Some((r, v)),
            (None, Some(v)) => Some((l, v)),
            _ => None,
        };
        match found {
            Some((t, v)) => if s[t as int].sort == INT_SORT {
                Some((t, v))
            } else {
                None
            },
            None => None,
        }
    } else {
        None
    }
}

/// The integer term of such an equation.
pub open spec fn pinned_term(s: Seq<TermView>, x: TermId) -> TermId {
    let (t, v) = pinned(s, x)->0;
    t
}

/// A conjunct of one of the assertions from `from` up to `to` gives `t` the
/// value.
pub open spec fn pinned_between(
    s: Seq<TermView>,
    assertions: Seq<TermId>,
    from: int,
    to: int,
    t: TermId,
    v: int,
) -> bool {
    exists|k: int, x: TermId|
        from <= k < to && #[trigger] visits(s, Descent::Conjuncts, assertions[k], x) && pinned(s, x)
            == Some((t, v))
}

/// Integer terms whose value the assertions state.
pub struct EntailedInts {
    pub values: FxHashMap<TermId, BigNum>,
    /// How many assertions have been read.
    pub upto: usize,
}

fn read_literal(store: &TermStore, t: TermId) -> (r: Option<BigNum>)
    ensures
        match r {
            Some(n) => literal_integer(store.terms(), t) == Some(n.value()),
            None => literal_integer(store.terms(), t) is None,
        },
{
    match store.get(t) {
        None => None,
        Some(node) => {
            if node.op != Op::IntConst {
                return None;
            }
            match &node.data {
                Data::Int(n) => Some(n.duplicate()),
                _ => None,
            }
        },
    }
}

fn read_pinned(store: &TermStore, x: TermId) -> (r: Option<(TermId, BigNum)>)
    requires
        store.wf(),
    ensures
        match r {
            Some((t, n)) => pinned(store.terms(), x) == Some((t, n.value())),
            None => pinned(store.terms(), x) is None,
        },
{
    let node = match store.get(x) {
        None => {
            return None;
        },
        Some(node) => node,
    };
    assert(node_below(store.terms(), x as int));
    if node.op != Op::Eq {
        return None;
    }
    let (l, r) = (node.args[0], node.args[1]);
    let found = match read_literal(store, l) {
        Some(n) => Some((r, n)),
        None => match read_literal(store, r) {
            Some(n) => Some((l, n)),
            None => None,
        },
    };
    match found {
        Some((t, n)) => if store.nodes[t].sort == INT_SORT {
            Some((t, n))
        } else {
            None
        },
        None => None,
    }
}

impl EntailedInts {
    pub fn new() -> (r: EntailedInts)
        ensures
            r.values@.dom() == Set::<TermId>::empty(),
            r.upto == 0,
    {
        EntailedInts { values: map_new(), upto: 0 }
    }

    /// Reads the assertions that have not been read yet.
    pub fn refresh_entailed_int_constants(&mut self, store: &TermStore, assertions: &Vec<TermId>)
        requires
            store.wf(),
            forall|k: int| 0 <= k < assertions@.len() ==> (#[trigger] assertions@[k]) < store.terms().len(),
        ensures
            old(self).upto >= assertions@.len() ==> *final(self) == *old(self),
            old(self).upto < assertions@.len() ==> final(self).upto == assertions@.len(),
            forall|t: TermId| #[trigger]
                old(self).values@.contains_key(t) ==> final(self).values@.contains_key(t)
                    && final(self).values@[t] == old(self).values@[t],
            forall|t: TermId| #[trigger]
                final(self).values@.contains_key(t) && !old(self).values@.contains_key(t)
                    ==> pinned_between(
                    store.terms(),
                    assertions@,
                    old(self).upto as int,
                    assertions@.len() as int,
                    t,
                    final(self).values@[t].value(),
                ),
            forall|t: TermId, v: int| #[trigger]
                pinned_between(
                    store.terms(),
                    assertions@,
                    old(self).upto as int,
                    assertions@.len() as int,
                    t,
                    v,
                ) ==> final(self).values@.contains_key(t),
    {
        let ghost s = store.terms();
        let ghost first = *self;
        if self.upto >= assertions.len() {
            return;
        }
        let start: usize = self.upto;
        let mut n: usize = start;
        while n < assertions.len()
            invariant
                start <= n <= assertions.len(),
                start == first.upto,
                self.upto == first.upto,
                store.wf(),
                s == store.terms(),
                forall|k: int| 0 <= k < assertions@.len() ==> (#[trigger] assertions@[k]) < s.len(),
                forall|t: TermId| #[trigger]
                    first.values@.contains_key(t) ==> self.values@.contains_key(t)
                        && self.values@[t] == first.values@[t],
                forall|t: TermId| #[trigger]
                    self.values@.contains_key(t) && !first.values@.contains_key(t)
                        ==> pinned_between(
                        s,
                        assertions@,
                        start as int,
                        n as int,
                        t,
                        self.values@[t].value(),
                    ),
                forall|t: TermId, v: int| #[trigger]
                    pinned_between(s, assertions@, start as int, n as int, t, v)
                        ==> self.values@.contains_key(t),
            decreases assertions.len() - n,
        {
            let ghost base = *self;
            let a: TermId = assertions[n];
            assert(assertions@[n as int] < s.len());
            let list = collect_visited(store, a, Descent::Conjuncts);
            let mut m: usize = 0;
            while m < list.len()
                invariant
                    m <= list.len(),
                    n < assertions@.len(),
                    store.wf(),
                    s == store.terms(),
                    self.upto == base.upto,
                    forall|x: TermId| #[trigger]
                        list@.contains(x) <==> visits(s, Descent::Conjuncts, assertions@[n as int], x),
                    forall|t: TermId| #[trigger]
                        base.values@.contains_key(t) ==> self.values@.contains_key(t)
                            && self.values@[t] == base.values@[t],
                    forall|t: TermId| #[trigger]
                        self.values@.contains_key(t) && !base.values@.contains_key(t)
                            ==> pinned_between(
                            s,
                            assertions@,
                            n as int,
                            n + 1,
                            t,
                            self.values@[t].value(),
                        ),
                    forall|j: int|
                        0 <= j < m && pinned(s, #[trigger] list@[j]) is Some
                            ==> self.values@.contains_key(pinned_term(s, list@[j])),
                decreases list.len() - m,
            {
                let ghost before = *self;
                let x: TermId = list[m];
                assert(list@.contains(x));
                if let Some((t, v)) = read_pinned(store, x) {
                    let known = match map_get(&self.values, t) {
                        Some(_) => true,
                        None => false,
                    };
                    if !known {
                        let ghost value = v.value();
                        map_insert(&mut self.values, t, v);
                        proof {
                            assert(visits(s, Descent::Conjuncts, assertions@[n as int], x));
                            assert(pinned_between(s, assertions@, n as int, n + 1, t, value));
                        }
                    }
                }
                m = m + 1;
            }
            proof {
                assert forall|t: TermId| #[trigger]
                    self.values@.contains_key(t) && !first.values@.contains_key(
                        t,
                    ) implies pinned_between(
                    s,
                    assertions@,
                    start as int,
                    n + 1,
                    t,
                    self.values@[t].value(),
                ) by {
                    let v = self.values@[t].value();
                    if base.values@.contains_key(t) {
                        assert(pinned_between(s, assertions@, start as int, n as int, t, v));
                        let (k, x) = choose|k: int, x: TermId|
                            start <= k < n && #[trigger] visits(
                                s,
                                Descent::Conjuncts,
                                assertions@[k],
                                x,
                            ) && pinned(s, x) == Some((t, v));
                        assert(visits(s, Descent::Conjuncts, assertions@[k], x));
                    } else {
                        assert(pinned_between(s, assertions@, n as int, n + 1, t, v));
                        let (k, x) = choose|k: int, x: TermId|
                            n <= k < n + 1 && #[trigger] visits(
                                s,
                                Descent::Conjuncts,
                                assertions@[k],
                                x,
                            ) && pinned(s, x) == Some((t, v));
                        assert(visits(s, Descent::Conjuncts, assertions@[k], x));
                    }
                }
                assert forall|t: TermId, v: int| #[trigger]
                    pinned_between(
                        s,
                        assertions@,
                        start as int,
                        n + 1,
                        t,
                        v,
                    ) implies self.values@.contains_key(t) by {
                    let (k, x) = choose|k: int, x: TermId|
                        start <= k < n + 1 && #[trigger] visits(
                            s,
                            Descent::Conjuncts,
                            assertions@[k],
                            x,
                        ) && pinned(s, x) == Some((t, v));
                    if k < n {
                        assert(pinned_between(s, assertions@, start as int, n as int, t, v));
                        assert(base.values@.contains_key(t));
                    } else {
                        assert(list@.contains(x));
                        let j = choose|j: int| 0 <= j < list@.len() && list@[j] == x;
                        assert(pinned(s, list@[j]) is Some);
                    }
                }
            }
            n = n + 1;
        }
        self.upto = assertions.len();
    }
}

/// A conjunct is true wherever the formula is.
pub proof fn conjuncts_hold(s: Seq<TermView>, i: Interp, t: TermId, x: TermId)
    requires
        terms_wf(s),
        t < s.len(),
        holds(s, i, t),
        visits(s, Descent::Conjuncts, t, x),
    ensures
        holds(s, i, x),
    decreases t,
{
    if x != t {
        assert(node_below(s, t as int));
        let k = choose|k: int|
            0 <= k < s[t as int].args.len() && crate::descent::descends(
                Descent::Conjuncts,
                s[t as int].op,
                k,
            ) && (#[trigger] s[t as int].args[k]) < t && visits(
                s,
                Descent::Conjuncts,
                s[t as int].args[k],
                x,
            );
        lemma_eval(s, i, t);
        assert(is_true(eval_args(s, i, s[t as int].args)[k]));
        conjuncts_hold(s, i, s[t as int].args[k], x);
    }
}

/// The values read off the assertions are those that every interpretation of
/// them gives.
pub proof fn pinned_values_are_entailed(
    s: Seq<TermView>,
    i: Interp,
    assertions: Seq<TermId>,
    from: int,
    to: int,
    t: TermId,
    v: int,
)
    requires
        terms_wf(s),
        0 <= from <= to <= assertions.len(),
        forall|k: int|
            0 <= k < assertions.len() ==> (#[trigger] assertions[k]) < s.len() && holds(
                s,
                i,
                assertions[k],
            ),
        pinned_between(s, assertions, from, to, t, v),
    ensures
        num(eval(s, i, t as int)) == v as real,
{
    let (k, x) = choose|k: int, x: TermId|
        from <= k < to && #[trigger] visits(s, Descent::Conjuncts, assertions[k], x) && pinned(s, x)
            == Some((t, v));
    conjuncts_hold(s, i, assertions[k], x);
    assert(node_below(s, x as int));
    lemma_eval(s, i, x);
    let (l, r) = (s[x as int].args[0], s[x as int].args[1]);
    let vals = eval_args(s, i, s[x as int].args);
    assert(vals[0] == eval(s, i, l as int) && vals[1] == eval(s, i, r as int));
    assert(crate::semantics::arg_sorts(s, s[x as int])[0] == s[l as int].sort);
    if literal_integer(s, l) is Some {
        lemma_eval(s, i, l);
    } else {
        lemma_eval(s, i, r);
    }
}

/// The polarity with which an argument is asserted, where its formula is
/// asserted with polarity `positive`.
pub open spec fn asserted_child(op: Op, positive: bool, k: int) -> Option<bool> {
    match op {
        Op::Not => Some(!positive),
        Op::And => if positive {
            Some(true)
        } else {
            None
        },
        Op::Or => if !positive {
            Some(false)
        } else {
            None
        },
        Op::Implies => if !positive {
            Some(k == 0)
        } else {
            None
        },
        _ => None,
    }
}

fn child_polarity(op: Op, positive: bool, k: usize) -> (r: Option<bool>)
    ensures
        r == asserted_child(op, positive, k as int),
{
    match op {
        Op::Not => Some(!positive),
        Op::And => if positive {
            Some(true)
        } else {
            None
        },
        Op::Or => if !positive {
            Some(false)
        } else {
            None
        },
        Op::Implies => if !positive {
            Some(k == 0)
        } else {
            None
        },
        _ => None,
    }
}

/// Asserting `t` with polarity `p` asserts `x` with polarity `q`.
pub open spec fn asserts(s: Seq<TermView>, t: TermId, p: bool, x: TermId, q: bool) -> bool
    decreases t,
{
    (x == t && q == p) || exists|k: int|
        0 <= k < s[t as int].args.len() && asserted_child(s[t as int].op, p, k) is Some && (
        #[trigger] s[t as int].args[k]) < t && asserts(
            s,
            s[t as int].args[k],
            asserted_child(s[t as int].op, p, k)->0,
            x,
            q,
        )
}

/// Asserting `y` with polarity `r` directly asserts `x` with polarity `q`.
pub open spec fn asserts_next(s: Seq<TermView>, y: TermId, r: bool, x: TermId, q: bool) -> bool {
    exists|k: int|
        0 <= k < s[y as int].args.len() && asserted_child(s[y as int].op, r, k) == Some(q)
            && #[trigger] s[y as int].args[k] == x
}

/// What an assertion asserts is so wherever the assertion is true.
pub proof fn asserted_is_entailed(
    s: Seq<TermView>,
    i: Interp,
    t: TermId,
    p: bool,
    x: TermId,
    q: bool,
)
    requires
        terms_wf(s),
        t < s.len(),
        holds(s, i, t) == p,
        asserts(s, t, p, x, q),
    ensures
        holds(s, i, x) == q,
    decreases t,
{
    if !(x == t && q == p) {
        assert(node_below(s, t as int));
        let k = choose|k: int|
            0 <= k < s[t as int].args.len() && asserted_child(s[t as int].op, p, k) is Some && (
            #[trigger] s[t as int].args[k]) < t && asserts(
                s,
                s[t as int].args[k],
                asserted_child(s[t as int].op, p, k)->0,
                x,
                q,
            );
        lemma_eval(s, i, t);
        let vals = eval_args(s, i, s[t as int].args);
        let a = s[t as int].args[k];
        assert(vals[k] == eval(s, i, a as int));
        if s[t as int].op == Op::Implies {
            assert(vals[0] == eval(s, i, s[t as int].args[0] as int));
            assert(vals[1] == eval(s, i, s[t as int].args[1] as int));
        }
        if s[t as int].op == Op::Or && !p {
            assert(!is_true(vals[k]));
        }
        if s[t as int].op == Op::And && p {
            assert(is_true(vals[k]));
        }
        asserted_is_entailed(s, i, a, asserted_child(s[t as int].op, p, k)->0, x, q);
    }
}

proof fn lemma_asserts_subterm(s: Seq<TermView>, t: TermId, p: bool, x: TermId, q: bool)
    requires
        asserts(s, t, p, x, q),
    ensures
        subterm(s, t, x),
    decreases t,
{
    if !(x == t && q == p) {
        let k = choose|k: int|
            0 <= k < s[t as int].args.len() && asserted_child(s[t as int].op, p, k) is Some && (
            #[trigger] s[t as int].args[k]) < t && asserts(
                s,
                s[t as int].args[k],
                asserted_child(s[t as int].op, p, k)->0,
                x,
                q,
            );
        lemma_asserts_subterm(s, s[t as int].args[k], asserted_child(s[t as int].op, p, k)->0, x, q);
        assert(reach(s, Map::empty(), s[t as int].args[k], x));
    }
}

proof fn lemma_asserts_step(
    s: Seq<TermView>,
    t: TermId,
    p: bool,
    y: TermId,
    r: bool,
    x: TermId,
    q: bool,
)
    requires
        terms_wf(s),
        t < s.len(),
        asserts(s, t, p, y, r),
        asserts_next(s, y, r, x, q),
    ensures
        asserts(s, t, p, x, q),
    decreases t,
{
    assert(node_below(s, t as int));
    if y == t && r == p {
        let k = choose|k: int|
            0 <= k < s[y as int].args.len() && asserted_child(s[y as int].op, r, k) == Some(q)
                && #[trigger] s[y as int].args[k] == x;
        assert(s[t as int].args[k] < t);
        assert(asserts(s, s[t as int].args[k], q, x, q));
    } else {
        let k = choose|k: int|
            0 <= k < s[t as int].args.len() && asserted_child(s[t as int].op, p, k) is Some && (
            #[trigger] s[t as int].args[k]) < t && asserts(
                s,
                s[t as int].args[k],
                asserted_child(s[t as int].op, p, k)->0,
                y,
                r,
            );
        lemma_asserts_step(
            s,
            s[t as int].args[k],
            asserted_child(s[t as int].op, p, k)->0,
            y,
            r,
            x,
            q,
        );
        assert(asserts(
            s,
            s[t as int].args[k],
            asserted_child(s[t as int].op, p, k)->0,
            x,
            q,
        ));
    }
}

proof fn lemma_asserts_from(s: Seq<TermView>, t: TermId, p: bool, x: TermId, q: bool) -> (y: (
    TermId,
    bool,
))
    requires
        terms_wf(s),
        t < s.len(),
        asserts(s, t, p, x, q),
        !(x == t && q == p),
    ensures
        asserts(s, t, p, y.0, y.1),
        asserts_next(s, y.0, y.1, x, q),
        y.0 <= t,
        x < y.0,
    decreases t,
{
    assert(node_below(s, t as int));
    let k = choose|k: int|
        0 <= k < s[t as int].args.len() && asserted_child(s[t as int].op, p, k) is Some && (
        #[trigger] s[t as int].args[k]) < t && asserts(
            s,
            s[t as int].args[k],
            asserted_child(s[t as int].op, p, k)->0,
            x,
            q,
        );
    let a = s[t as int].args[k];
    let r = asserted_child(s[t as int].op, p, k)->0;
    if a == x && r == q {
        assert(asserts_next(s, t, p, x, q));
        (t, p)
    } else {
        let y = lemma_asserts_from(s, a, r, x, q);
        assert(asserts(s, s[t as int].args[k], r, y.0, y.1));
        y
    }
}

/// A quantified formula that an assertion asserts.
pub struct AssertedQuantifier {
    pub term: TermId,
    pub universal: bool,
    /// The body is an existential formula.
    pub body_exists: bool,
    pub triggers: Vec<TermId>,
}

/// The entry describes the quantified formula at its term.
pub open spec fn describes(s: Seq<TermView>, q: AssertedQuantifier) -> bool {
    let node = s[q.term as int];
    &&& q.term < s.len()
    &&& node.op == Op::Forall || node.op == Op::Exists
    &&& q.universal == (node.op == Op::Forall)
    &&& q.body_exists == (s[node.args[0] as int].op == Op::Exists)
    &&& q.triggers@ == node.args.skip(1)
}

fn describe(store: &TermStore, x: TermId) -> (q: AssertedQuantifier)
    requires
        store.wf(),
        x < store.terms().len(),
        store.terms()[x as int].op == Op::Forall || store.terms()[x as int].op == Op::Exists,
    ensures
        q.term == x,
        describes(store.terms(), q),
{
    let ghost s = store.terms();
    assert(node_below(s, x as int));
    let node = &store.nodes[x];
    let body: TermId = node.args[0];
    let body_exists = store.nodes[body].op == Op::Exists;
    let mut triggers: Vec<TermId> = Vec::new();
    let mut k: usize = 1;
    while k < node.args.len()
        invariant
            1 <= k <= node.args.len(),
            triggers@ == node.args@.subrange(1, k as int),
        decreases node.args.len() - k,
    {
        triggers.push(node.args[k]);
        assert(triggers@ =~= node.args@.subrange(1, k + 1));
        k = k + 1;
    }
    assert(node.args@.subrange(1, node.args@.len() as int) =~= node.args@.skip(1));
    AssertedQuantifier { term: x, universal: node.op == Op::Forall, body_exists, triggers }
}

/// The quantified formulas that an assertion states unconditionally: those that
/// may be instantiated.
pub fn register_asserted_quantifiers(store: &TermStore, t: TermId) -> (found: Vec<AssertedQuantifier>)
    requires
        store.wf(),
        t < store.terms().len(),
    ensures
        forall|k: int|
            0 <= k < found@.len() ==> describes(store.terms(), #[trigger] found@[k]) && asserts(
                store.terms(),
                t,
                true,
                found@[k].term,
                true,
            ),
        forall|x: TermId|
            #[trigger] asserts(store.terms(), t, true, x, true) && (store.terms()[x as int].op
                == Op::Forall || store.terms()[x as int].op == Op::Exists) ==> exists|k: int|
                0 <= k < found@.len() && (#[trigger] found@[k]).term == x,
{
    let ghost s = store.terms();
    let all = collect_subterms(store, t);
    let mut up: FxHashSet<TermId> = set_new();
    let mut down: FxHashSet<TermId> = set_new();
    set_insert(&mut up, t);
    let mut found: Vec<AssertedQuantifier> = Vec::new();
    let mut n: usize = all.len();
    while n > 0
        invariant
            n <= all.len(),
            store.wf(),
            s == store.terms(),
            t < s.len(),
            lists_reach(all@, s, Map::empty(), t),
            up@.contains(t),
            forall|x: TermId| #[trigger] up@.contains(x) ==> asserts(s, t, true, x, true),
            forall|x: TermId| #[trigger] down@.contains(x) ==> asserts(s, t, true, x, false),
            forall|j: int, r: bool, x: TermId, q: bool|
                n <= j < all@.len() && asserts(s, t, true, all@[j], r) && #[trigger] asserts_next(
                    s,
                    all@[j],
                    r,
                    x,
                    q,
                ) ==> (if q {
                    up@.contains(x)
                } else {
                    down@.contains(x)
                }),
            forall|k: int|
                0 <= k < found@.len() ==> describes(s, #[trigger] found@[k]) && asserts(
                    s,
                    t,
                    true,
                    found@[k].term,
                    true,
                ),
            forall|j: int|
                n <= j < all@.len() && asserts(s, t, true, #[trigger] all@[j], true) && (
                s[all@[j] as int].op == Op::Forall || s[all@[j] as int].op == Op::Exists)
                    ==> exists|k: int|
                    0 <= k < found@.len() && (#[trigger] found@[k]).term == all@[j],
        decreases n,
    {
        let ghost found1 = found@;
        let ghost up1 = up@;
        let ghost down1 = down@;
        n = n - 1;
        let x: TermId = all[n];
        proof {
            assert(all@.contains(x));
            lemma_reach_le(s, Map::empty(), t, x);
            assert(node_below(s, x as int));
            assert forall|q: bool| #[trigger] asserts(s, t, true, x, q) implies (if q {
                up@.contains(x)
            } else {
                down@.contains(x)
            }) by {
                if !(x == t && q) {
                    let y = lemma_asserts_from(s, t, true, x, q);
                    lemma_asserts_subterm(s, t, true, y.0, y.1);
                    assert(all@.contains(y.0));
                    let j = choose|j: int| 0 <= j < all@.len() && all@[j] == y.0;
                    assert(n < j) by {
                        if j < n {
                            assert(all@[j] < all@[n as int]);
                        }
                    }
                    assert(asserts_next(s, all@[j], y.1, x, q));
                }
            }
        }
        let positive = set_contains(&up, x);
        let negative = set_contains(&down, x);
        let node = &store.nodes[x];
        if positive && (node.op == Op::Forall || node.op == Op::Exists) {
            found.push(describe(store, x));
        }
        let mut k: usize = 0;
        while k < node.args.len()
            invariant
                k <= node.args.len(),
                s == store.terms(),
                terms_wf(s),
                t < s.len(),
                x < s.len(),
                node.args@ == s[x as int].args,
                node.op == s[x as int].op,
                positive ==> asserts(s, t, true, x, true),
                negative ==> asserts(s, t, true, x, false),
                forall|y: TermId| #[trigger] up@.contains(y) ==> asserts(s, t, true, y, true),
                forall|y: TermId| #[trigger] down@.contains(y) ==> asserts(s, t, true, y, false),
                forall|y: TermId| #[trigger] up1.contains(y) ==> up@.contains(y),
                forall|y: TermId| #[trigger] down1.contains(y) ==> down@.contains(y),
                forall|j: int|
                    0 <= j < k && positive && asserted_child(s[x as int].op, true, j) is Some ==> (
                    if asserted_child(s[x as int].op, true, j)->0 {
                        up@.contains(#[trigger] s[x as int].args[j])
                    } else {
                        down@.contains(s[x as int].args[j])
                    }),
                forall|j: int|
                    0 <= j < k && negative && asserted_child(s[x as int].op, false, j) is Some ==> (
                    if asserted_child(s[x as int].op, false, j)->0 {
                        up@.contains(#[trigger] s[x as int].args[j])
                    } else {
                        down@.contains(s[x as int].args[j])
                    }),
            decreases node.args.len() - k,
        {
            let a: TermId = node.args[k];
            assert(s[x as int].args[k as int] == a);
            if positive {
                if let Some(q) = child_polarity(node.op, true, k) {
                    proof {
                        assert(asserts_next(s, x, true, a, q));
                        lemma_asserts_step(s, t, true, x, true, a, q);
                    }
                    if q {
                        set_insert(&mut up, a);
                    } else {
                        set_insert(&mut down, a);
                    }
                }
            }
            if negative {
                if let Some(q) = child_polarity(node.op, false, k) {
                    proof {
                        assert(asserts_next(s, x, false, a, q));
                        lemma_asserts_step(s, t, true, x, false, a, q);
                    }
                    if q {
                        set_insert(&mut up, a);
                    } else {
                        set_insert(&mut down, a);
                    }
                }
            }
            k = k + 1;
        }
        proof {
            assert forall|j: int, r: bool, y: TermId, q: bool|
                n <= j < all@.len() && asserts(s, t, true, all@[j], r) && #[trigger] asserts_next(
                    s,
                    all@[j],
                    r,
                    y,
                    q,
                ) implies (if q {
                up@.contains(y)
            } else {
                down@.contains(y)
            }) by {
                if j == n {
                    let k = choose|k: int|
                        0 <= k < s[x as int].args.len() && asserted_child(s[x as int].op, r, k)
                            == Some(q) && #[trigger] s[x as int].args[k] == y;
                    assert(if r { positive } else { negative });
                }
            }
            assert forall|j: int|
                n <= j < all@.len() && asserts(s, t, true, #[trigger] all@[j], true) && (
                s[all@[j] as int].op == Op::Forall || s[all@[j] as int].op
                    == Op::Exists) implies exists|k: int|
                0 <= k < found@.len() && (#[trigger] found@[k]).term == all@[j] by {
                if j == n {
                    assert(found@[found1.len() as int].term == x);
                } else {
                    let k = choose|k: int|
                        0 <= k < found1.len() && (#[trigger] found1[k]).term == all@[j];
                    assert(found@[k] == found1[k]);
                }
            }
        }
    }
    proof {
        assert forall|x: TermId|
            #[trigger] asserts(s, t, true, x, true) && (s[x as int].op == Op::Forall
                || s[x as int].op == Op::Exists) implies exists|k: int|
            0 <= k < found@.len() && (#[trigger] found@[k]).term == x by {
            lemma_asserts_subterm(s, t, true, x, true);
            assert(all@.contains(x));
            let j = choose|j: int| 0 <= j < all@.len() && all@[j] == x;
            assert(asserts(s, t, true, all@[j], true));
        }
    }
    found
}

/// A pinned value stays pinned when terms and assertions are added.
pub(crate) proof fn lemma_pinned_carry(
    s0: Seq<TermView>,
    s1: Seq<TermView>,
    a0: Seq<TermId>,
    a1: Seq<TermId>,
    from0: int,
    to0: int,
    from1: int,
    to1: int,
    t: TermId,
    v: int,
)
    requires
        terms_wf(s0),
        crate::terms::extends(s0, s1),
        0 <= from1 <= from0 <= to0 <= to1,
        to0 <= a0.len() <= a1.len(),
        forall|k: int| 0 <= k < a0.len() ==> (#[trigger] a0[k]) < s0.len() && a1[k] == a0[k],
        pinned_between(s0, a0, from0, to0, t, v),
    ensures
        pinned_between(s1, a1, from1, to1, t, v),
{
    let (k, x) = choose|k: int, x: TermId|
        from0 <= k < to0 && #[trigger] visits(s0, Descent::Conjuncts, a0[k], x) && pinned(s0, x)
            == Some((t, v));
    crate::descent::lemma_visits_extend(s0, s1, Descent::Conjuncts, a0[k], x);
    assert(node_below(s0, x as int));
    assert(s1[x as int] == s0[x as int]);
    let (l, r) = (s0[x as int].args[0], s0[x as int].args[1]);
    assert(s1[l as int] == s0[l as int]);
    assert(s1[r as int] == s0[r as int]);
    assert(visits(s1, Descent::Conjuncts, a1[k], x) && pinned(s1, x) == Some((t, v)));
}

/// What later terms and assertions do not add to is stated before them.
pub(crate) proof fn lemma_pinned_back(
    s0: Seq<TermView>,
    s1: Seq<TermView>,
    a0: Seq<TermId>,
    a1: Seq<TermId>,
    from: int,
    to: int,
    t: TermId,
    v: int,
)
    requires
        terms_wf(s0),
        crate::terms::extends(s0, s1),
        0 <= from <= to <= a0.len() <= a1.len(),
        forall|k: int| 0 <= k < a0.len() ==> (#[trigger] a0[k]) < s0.len() && a1[k] == a0[k],
        pinned_between(s1, a1, from, to, t, v),
    ensures
        pinned_between(s0, a0, from, to, t, v),
{
    let (k, x) = choose|k: int, x: TermId|
        from <= k < to && #[trigger] visits(s1, Descent::Conjuncts, a1[k], x) && pinned(s1, x)
            == Some((t, v));
    assert(a1[k] == a0[k]);
    crate::descent::lemma_visits_back(s0, s1, Descent::Conjuncts, a0[k], x);
    crate::descent::lemma_visits_extend(s0, s1, Descent::Conjuncts, a0[k], x);
    assert(node_below(s0, x as int));
    assert(s1[x as int] == s0[x as int]);
    let (l, r) = (s0[x as int].args[0], s0[x as int].args[1]);
    assert(s1[l as int] == s0[l as int]);
    assert(s1[r as int] == s0[r as int]);
    assert(visits(s0, Descent::Conjuncts, a0[k], x) && pinned(s0, x) == Some((t, v)));
}

/// What is stated by some assertions is stated by the first of them or by the
/// others.
pub(crate) proof fn lemma_pinned_split(
    s: Seq<TermView>,
    assertions: Seq<TermId>,
    from: int,
    mid: int,
    to: int,
    t: TermId,
    v: int,
)
    requires
        pinned_between(s, assertions, from, to, t, v),
    ensures
        pinned_between(s, assertions, from, mid, t, v) || pinned_between(
            s,
            assertions,
            mid,
            to,
            t,
            v,
        ),
{
    let (k, x) = choose|k: int, x: TermId|
        from <= k < to && #[trigger] visits(s, Descent::Conjuncts, assertions[k], x) && pinned(s, x)
            == Some((t, v));
    assert(visits(s, Descent::Conjuncts, assertions[k], x) && pinned(s, x) == Some((t, v)));
}

} // verus!
