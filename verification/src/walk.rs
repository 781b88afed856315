//! Subterms and substitution.

use crate::collections::{copy_words, map_get, map_insert, map_new};
use crate::constructors::grew;
use crate::semantics::{arg_sorts, eval, eval_args, lemma_eval, Interp};
use crate::terms::{
    extends, node_below, node_ok, same_ids, sorts_ok, terms_wf, Op, TermId, TermStore, TermView,
};
use rustc_hash::FxHashMap;
use vstd::prelude::*;

verus! {

/// `x` is found below `t` without descending below a key of `m`.
pub open spec fn reach(s: Seq<TermView>, m: Map<TermId, TermId>, t: TermId, x: TermId) -> bool
    decreases t,
{
    ||| x == t
    ||| !m.contains_key(t) && exists|k: int|
        0 <= k < s[t as int].args.len() && (#[trigger] s[t as int].args[k]) < t && reach(
            s,
            m,
            s[t as int].args[k],
            x,
        )
}

/// `x` is a subterm of `t`.
pub open spec fn subterm(s: Seq<TermView>, t: TermId, x: TermId) -> bool {
    reach(s, Map::empty(), t, x)
}

pub proof fn lemma_reach_le(s: Seq<TermView>, m: Map<TermId, TermId>, t: TermId, x: TermId)
    requires
        reach(s, m, t, x),
    ensures
        x <= t,
    decreases t,
{
    if x != t {
        let k = choose|k: int|
            0 <= k < s[t as int].args.len() && (#[trigger] s[t as int].args[k]) < t && reach(
                s,
                m,
                s[t as int].args[k],
                x,
            );
        lemma_reach_le(s, m, s[t as int].args[k], x);
    }
}

/// Descending continues from wherever it has come.
pub proof fn lemma_reach_step(
    s: Seq<TermView>,
    m: Map<TermId, TermId>,
    t: TermId,
    x: TermId,
    k: int,
)
    requires
        terms_wf(s),
        t < s.len(),
        reach(s, m, t, x),
        !m.contains_key(x),
        0 <= k < s[x as int].args.len(),
    ensures
        reach(s, m, t, s[x as int].args[k]),
    decreases t,
{
    assert(node_below(s, t as int));
    let y = s[x as int].args[k];
    if x == t {
        assert(reach(s, m, y, y));
    } else {
        let j = choose|j: int|
            0 <= j < s[t as int].args.len() && (#[trigger] s[t as int].args[j]) < t && reach(
                s,
                m,
                s[t as int].args[j],
                x,
            );
        lemma_reach_step(s, m, s[t as int].args[j], x, k);
    }
}

/// A set with `t` that is closed under descending holds all that is found.
proof fn lemma_closed(
    s: Seq<TermView>,
    m: Map<TermId, TermId>,
    set: spec_fn(TermId) -> bool,
    t: TermId,
    x: TermId,
)
    requires
        terms_wf(s),
        t < s.len(),
        set(t),
        forall|y: TermId, k: int|
            y < s.len() && set(y) && !m.contains_key(y) && 0 <= k < s[y as int].args.len() ==> set(
                #[trigger] s[y as int].args[k],
            ),
        reach(s, m, t, x),
    ensures
        set(x),
    decreases t,
{
    assert(node_below(s, t as int));
    if x != t {
        let j = choose|j: int|
            0 <= j < s[t as int].args.len() && (#[trigger] s[t as int].args[j]) < t && reach(
                s,
                m,
                s[t as int].args[j],
                x,
            );
        lemma_closed(s, m, set, s[t as int].args[j], x);
    }
}

/// Strictly ascending, and exactly what is found below `t`.
pub open spec fn lists_reach(
    list: Seq<TermId>,
    s: Seq<TermView>,
    m: Map<TermId, TermId>,
    t: TermId,
) -> bool {
    &&& forall|i: int, j: int| 0 <= i < j < list.len() ==> list[i] < list[j]
    &&& forall|x: TermId| #[trigger] list.contains(x) <==> reach(s, m, t, x)
}

/// What is found below `t` without descending below a key of `stops`, in
/// ascending order.
pub fn collect_until(store: &TermStore, t: TermId, stops: &FxHashMap<TermId, TermId>) -> (list: Vec<
    TermId,
>)
    requires
        store.wf(),
        t < store.terms().len(),
    ensures
        lists_reach(list@, store.terms(), stops@, t),
{
    let ghost s = store.terms();
    let ghost m = stops@;
    let mut mark: Vec<bool> = Vec::new();
    let mut i: usize = 0;
    while i < t
        invariant
            i <= t,
            mark@.len() == i,
            forall|x: int| 0 <= x < i ==> !(#[trigger] mark@[x]),
        decreases t - i,
    {
        mark.push(false);
        i = i + 1;
    }
    mark.push(true);
    let mut x: usize = t;
    // Every marked term from `x + 1` on has its arguments marked.
    loop
        invariant
            store.wf(),
            s == store.terms(),
            m == stops@,
            t < s.len(),
            x <= t,
            mark@.len() == t + 1,
            mark@[t as int],
            forall|y: TermId| y <= t && #[trigger] mark@[y as int] ==> reach(s, m, t, y),
            forall|y: TermId, k: int|
                x < y <= t && mark@[y as int] && !m.contains_key(y) && 0 <= k
                    < s[y as int].args.len() ==> mark@[#[trigger] s[y as int].args[k] as int],
        ensures
            forall|y: TermId, k: int|
                0 <= y <= t && mark@[y as int] && !m.contains_key(y) && 0 <= k
                    < s[y as int].args.len() ==> mark@[#[trigger] s[y as int].args[k] as int],
        decreases x,
    {
        if mark[x] && map_get(stops, x).is_none() {
            let args = &store.nodes[x].args;
            assert(args@ == s[x as int].args);
            assert(node_below(s, x as int));
            let mut k: usize = 0;
            while k < args.len()
                invariant
                    store.wf(),
                    s == store.terms(),
                    t < s.len(),
                    x <= t,
                    k <= args.len(),
                    args@ == s[x as int].args,
                    node_below(s, x as int),
                    mark@.len() == t + 1,
                    mark@[t as int],
                    mark@[x as int],
                    !m.contains_key(x),
                    forall|y: TermId| y <= t && #[trigger] mark@[y as int] ==> reach(s, m, t, y),
                    forall|y: TermId, j: int|
                        x < y <= t && mark@[y as int] && !m.contains_key(y) && 0 <= j
                            < s[y as int].args.len() ==> mark@[#[trigger] s[y as int].args[j] as int],
                    forall|j: int| 0 <= j < k ==> mark@[#[trigger] args@[j] as int],
                decreases args.len() - k,
            {
                let a: TermId = args[k];
                assert(s[x as int].args[k as int] < x);
                proof {
                    lemma_reach_step(s, m, t, x, k as int);
                }
                let ghost before = mark@;
                mark.set(a, true);
                proof {
                    assert forall|y: TermId, j: int|
                        x < y <= t && mark@[y as int] && !m.contains_key(y) && 0 <= j
                            < s[y as int].args.len() implies mark@[#[trigger] s[y as int].args[j] as int] by {
                        assert(node_below(s, y as int));
                        assert(before[y as int]);
                        assert(before[s[y as int].args[j] as int]);
                    }
                    assert forall|j: int| 0 <= j < k + 1 implies mark@[#[trigger] args@[j] as int] by {
                        assert(s[x as int].args[j] < x);
                        if j < k {
                            assert(before[args@[j] as int]);
                        }
                    }
                }
                k = k + 1;
            }
        }
        if x == 0 {
            break;
        }
        x = x - 1;
    }
    proof {
        let set = |y: TermId| y <= t && mark@[y as int];
        assert forall|y: TermId| #[trigger] reach(s, m, t, y) implies y <= t && mark@[y as int] by {
            lemma_reach_le(s, m, t, y);
            assert forall|z: TermId, k: int|
                z < s.len() && set(z) && !m.contains_key(z) && 0 <= k
                    < s[z as int].args.len() implies set(#[trigger] s[z as int].args[k]) by {
                assert(node_below(s, z as int));
                assert(mark@[s[z as int].args[k] as int]);
            }
            lemma_closed(s, m, set, t, y);
        }
    }
    let mut list: Vec<TermId> = Vec::new();
    let mut y: usize = 0;
    while y < mark.len()
        invariant
            y <= mark.len(),
            mark@.len() == t + 1,
            forall|i: int, j: int| 0 <= i < j < list@.len() ==> list@[i] < list@[j],
            forall|z: TermId| #[trigger] list@.contains(z) <==> z < y && mark@[z as int],
        decreases mark.len() - y,
    {
        let ghost before = list@;
        if mark[y] {
            proof {
                assert forall|i: int| 0 <= i < before.len() implies before[i] < y by {
                    assert(before.contains(before[i]));
                }
            }
            list.push(y);
            proof {
                assert forall|z: TermId| #[trigger] list@.contains(z) <==> z < y + 1
                    && mark@[z as int] by {
                    if before.contains(z) {
                        let i = choose|i: int| 0 <= i < before.len() && before[i] == z;
                        assert(list@[i] == z);
                    }
                    assert(list@[before.len() as int] == y);
                    if list@.contains(z) {
                        let i = choose|i: int| 0 <= i < list@.len() && list@[i] == z;
                        if i < before.len() {
                            assert(before[i] == z);
                        }
                    }
                }
            }
        }
        y = y + 1;
    }
    list
}

/// The subterms of `t` in ascending order, so arguments come before the terms
/// they are arguments of.
pub fn collect_subterms(store: &TermStore, t: TermId) -> (list: Vec<TermId>)
    requires
        store.wf(),
        t < store.terms().len(),
    ensures
        lists_reach(list@, store.terms(), Map::empty(), t),
{
    let none: FxHashMap<TermId, TermId> = map_new();
    assert(none@ =~= Map::empty());
    collect_until(store, t, &none)
}

/// `r` is `t` with the keys of `m` replaced by their values; where nothing is
/// replaced, `r` is `t` itself.
pub open spec fn subst(s: Seq<TermView>, m: Map<TermId, TermId>, t: TermId, r: TermId) -> bool
    decreases t,
{
    if m.contains_key(t) {
        r == m[t]
    } else {
        let a = s[t as int];
        let b = s[r as int];
        &&& r < s.len()
        &&& b.op == a.op && b.data == a.data && b.sort == a.sort && b.args.len() == a.args.len()
        &&& forall|k: int|
            0 <= k < a.args.len() && a.args[k] < t ==> subst(s, m, #[trigger] a.args[k], b.args[k])
        &&& b.args == a.args ==> r == t
    }
}

/// The values are terms of the same sorts as their keys.
pub open spec fn map_ok(s: Seq<TermView>, m: Map<TermId, TermId>) -> bool {
    forall|k: TermId| #[trigger]
        m.contains_key(k) ==> k < s.len() && m[k] < s.len() && s[m[k] as int].sort
            == s[k as int].sort
}

pub proof fn lemma_map_ok_extend(a: Seq<TermView>, b: Seq<TermView>, m: Map<TermId, TermId>)
    requires
        extends(a, b),
        map_ok(a, m),
    ensures
        map_ok(b, m),
{
    assert forall|k: TermId| #[trigger] m.contains_key(k) implies k < b.len() && m[k] < b.len()
        && b[m[k] as int].sort == b[k as int].sort by {
        assert(b[k as int] == a[k as int]);
        assert(b[m[k] as int] == a[m[k] as int]);
    }
}

/// Images do not depend on later terms.
pub proof fn lemma_subst_extend(
    a: Seq<TermView>,
    b: Seq<TermView>,
    m: Map<TermId, TermId>,
    t: TermId,
    r: TermId,
)
    requires
        terms_wf(a),
        extends(a, b),
        t < a.len(),
        r < a.len(),
        subst(a, m, t, r),
    ensures
        subst(b, m, t, r),
    decreases t,
{
    if !m.contains_key(t) {
        assert(node_below(a, t as int));
        assert(node_below(a, r as int));
        assert(b[t as int] == a[t as int]);
        assert(b[r as int] == a[r as int]);
        assert forall|k: int| 0 <= k < a[t as int].args.len() implies subst(
            b,
            m,
            #[trigger] a[t as int].args[k],
            a[r as int].args[k],
        ) by {
            assert(a[r as int].args[k] < r);
            lemma_subst_extend(a, b, m, a[t as int].args[k], a[r as int].args[k]);
        }
    }
}

/// A term and its image have one sort.
pub proof fn lemma_subst_sort(s: Seq<TermView>, m: Map<TermId, TermId>, t: TermId, r: TermId)
    requires
        map_ok(s, m),
        subst(s, m, t, r),
    ensures
        s[r as int].sort == s[t as int].sort,
{
}

/// No quantified formula is found below `t`.
pub open spec fn quantifier_free(s: Seq<TermView>, t: TermId) -> bool
    decreases t,
{
    &&& s[t as int].op != Op::Forall
    &&& s[t as int].op != Op::Exists
    &&& forall|k: int|
        0 <= k < s[t as int].args.len() && s[t as int].args[k] < t ==> quantifier_free(
            s,
            #[trigger] s[t as int].args[k],
        )
}

/// Replacing terms by terms of the same value keeps the value.
pub proof fn lemma_subst_eval(
    s: Seq<TermView>,
    i: Interp,
    m: Map<TermId, TermId>,
    t: TermId,
    r: TermId,
)
    requires
        terms_wf(s),
        map_ok(s, m),
        t < s.len(),
        quantifier_free(s, t),
        subst(s, m, t, r),
        forall|k: TermId| #[trigger]
            m.contains_key(k) && subterm(s, t, k) ==> eval(s, i, k as int) == eval(
                s,
                i,
                m[k] as int,
            ),
    ensures
        eval(s, i, t as int) == eval(s, i, r as int),
    decreases t,
{
    assert(subterm(s, t, t));
    if !m.contains_key(t) {
        let a = s[t as int];
        let b = s[r as int];
        assert(node_below(s, t as int));
        assert(node_below(s, r as int));
        assert forall|k: int| 0 <= k < a.args.len() implies eval(s, i, #[trigger] a.args[k] as int)
            == eval(s, i, b.args[k] as int) && s[a.args[k] as int].sort == s[b.args[k] as int].sort by {
            assert forall|x: TermId| #[trigger] m.contains_key(x) && subterm(
                s,
                a.args[k],
                x,
            ) implies eval(s, i, x as int) == eval(s, i, m[x] as int) by {
                assert(subterm(s, t, x));
            }
            lemma_subst_eval(s, i, m, a.args[k], b.args[k]);
            lemma_subst_sort(s, m, a.args[k], b.args[k]);
        }
        lemma_eval(s, i, t);
        lemma_eval(s, i, r);
        assert(eval_args(s, i, a.args) =~= eval_args(s, i, b.args));
        assert(arg_sorts(s, a) =~= arg_sorts(s, b));
        lemma_op_value_args(i, a, b, arg_sorts(s, a), eval_args(s, i, a.args));
    }
}

proof fn lemma_op_value_args(
    i: Interp,
    a: TermView,
    b: TermView,
    ss: Seq<usize>,
    vals: Seq<crate::semantics::Value>,
)
    requires
        a.op == b.op,
        a.data == b.data,
        a.sort == b.sort,
    ensures
        crate::semantics::op_value(i, a, ss, vals) == crate::semantics::op_value(i, b, ss, vals),
{
}

/// `t` with the keys of `map` replaced by their values.
pub fn substitute(store: &mut TermStore, t: TermId, map: &FxHashMap<TermId, TermId>) -> (r: TermId)
    requires
        old(store).wf(),
        t < old(store).terms().len(),
        map_ok(old(store).terms(), map@),
    ensures
        grew(old(store), final(store)),
        r < final(store).terms().len(),
        subst(final(store).terms(), map@, t, r),
{
    let ghost s0 = store.terms();
    let ghost m = map@;
    let list = collect_until(store, t, map);
    let mut image: FxHashMap<TermId, TermId> = map_new();
    let mut n: usize = 0;
    proof {
        assert forall|x: TermId| reach(s0, m, t, x) implies list@.contains(x) by {}
        assert(list@.contains(t)) by {
            assert(reach(s0, m, t, t));
        }
    }
    while n < list.len()
        invariant
            n <= list.len(),
            m == map@,
            s0 == old(store).terms(),
            terms_wf(s0),
            t < s0.len(),
            map_ok(s0, m),
            grew(old(store), store),
            lists_reach(list@, s0, m, t),
            forall|x: TermId| #[trigger]
                image@.contains_key(x) <==> exists|j: int| 0 <= j < n && list@[j] == x,
            forall|x: TermId| #[trigger]
                image@.contains_key(x) ==> x < s0.len() && image@[x] < store.terms().len() && subst(
                    store.terms(),
                    m,
                    x,
                    image@[x],
                ),
        decreases list.len() - n,
    {
        let x: TermId = list[n];
        let ghost s1 = store.terms();
        let ghost before = image@;
        proof {
            assert(list@.contains(x));
            lemma_reach_le(s0, m, t, x);
            assert(node_below(s0, x as int));
            assert(s1[x as int] == s0[x as int]);
            lemma_map_ok_extend(s0, s1, m);
        }
        let r: TermId = match map_get(map, x) {
            Some(v) => *v,
            None => {
                let args = copy_words(&store.nodes[x].args);
                assert(args@ == s0[x as int].args);
                let mut new_args: Vec<TermId> = Vec::new();
                let mut k: usize = 0;
                while k < args.len()
                    invariant
                        k <= args.len(),
                        x < s0.len(),
                        n < list.len(),
                        x == list@[n as int],
                        !m.contains_key(x),
                        terms_wf(s0),
                        t < s0.len(),
                        s1 == store.terms(),
                        args@ == s0[x as int].args,
                        node_below(s0, x as int),
                        reach(s0, m, t, x),
                        before == image@,
                        lists_reach(list@, s0, m, t),
                        forall|y: TermId| #[trigger]
                            image@.contains_key(y) <==> exists|j: int| 0 <= j < n && list@[j] == y,
                        forall|y: TermId| #[trigger]
                            image@.contains_key(y) ==> image@[y] < s1.len() && subst(
                                s1,
                                m,
                                y,
                                image@[y],
                            ),
                        new_args@.len() == k,
                        forall|j: int|
                            0 <= j < k ==> image@.contains_key(#[trigger] args@[j]) && new_args@[j]
                                == image@[args@[j]],
                    decreases args.len() - k,
                {
                    let a: TermId = args[k];
                    proof {
                        lemma_reach_step(s0, m, t, x, k as int);
                        assert(list@.contains(a));
                        let j = choose|j: int| 0 <= j < list@.len() && list@[j] == a;
                        assert(s0[x as int].args[k as int] < x);
                        if j >= n {
                            if j > n {
                                assert(list@[n as int] < list@[j]);
                            }
                            assert(false);
                        }
                        assert(image@.contains_key(a));
                    }
                    let b: TermId = match map_get(&image, a) {
                        Some(b) => *b,
                        None => a,
                    };
                    new_args.push(b);
                    k = k + 1;
                }
                if same_ids(&new_args, &args) {
                    proof {
                        assert forall|k: int| 0 <= k < args@.len() implies subst(
                            s1,
                            m,
                            #[trigger] args@[k],
                            args@[k],
                        ) by {
                            assert(new_args@[k] == image@[args@[k]]);
                        }
                    }
                    x
                } else {
                    let op = store.nodes[x].op;
                    let sort = store.nodes[x].sort;
                    let data = store.nodes[x].data.duplicate();
                    let ghost node = TermView { op, args: new_args@, data: data@, sort };
                    proof {
                        assert forall|k: int| 0 <= k < new_args@.len() implies (
                        #[trigger] new_args@[k]) < s1.len() && s1[new_args@[k] as int].sort
                            == s0[args@[k] as int].sort by {
                            assert(image@.contains_key(args@[k]));
                            assert(s1[args@[k] as int] == s0[args@[k] as int]);
                            lemma_subst_sort(s1, m, args@[k], new_args@[k]);
                        }
                        assert(args@.len() > 0) by {
                            if args@.len() == 0 {
                                assert(new_args@ =~= args@);
                            }
                        }
                        assert(op != Op::True && op != Op::False);
                        assert(sorts_ok(s1, node));
                        assert(node_ok(s1, node));
                    }
                    let r = store.intern(op, new_args, data, sort);
                    proof {
                        let s2 = store.terms();
                        assert(s2[r as int] == node);
                        assert(s2[x as int] == s0[x as int]);
                        assert forall|k: int| 0 <= k < args@.len() implies subst(
                            s2,
                            m,
                            #[trigger] args@[k],
                            new_args@[k],
                        ) by {
                            assert(image@.contains_key(args@[k]));
                            assert(new_args@[k] == image@[args@[k]]);
                            lemma_subst_extend(s1, s2, m, args@[k], new_args@[k]);
                        }
                        assert(subst(s2, m, x, r));
                    }
                    r
                }
            },
        };
        map_insert(&mut image, x, r);
        proof {
            let s2 = store.terms();
            assert forall|y: TermId| #[trigger] image@.contains_key(y) implies y < s0.len()
                && image@[y] < s2.len() && subst(s2, m, y, image@[y]) by {
                if y != x {
                    assert(before.contains_key(y));
                    lemma_subst_extend(s1, s2, m, y, before[y]);
                }
            }
            assert forall|y: TermId| #[trigger] image@.contains_key(y) <==> exists|j: int|
                0 <= j < n + 1 && list@[j] == y by {
                if y == x {
                    assert(list@[n as int] == y);
                } else {
                    assert(before.contains_key(y) == image@.contains_key(y));
                    if before.contains_key(y) {
                        let j = choose|j: int| 0 <= j < n && list@[j] == y;
                        assert(list@[j] == y);
                    }
                }
            }
        }
        n = n + 1;
    }
    proof {
        assert(list@.contains(t)) by {
            assert(reach(s0, m, t, t));
        }
        assert(image@.contains_key(t));
    }
    match map_get(&image, t) {
        Some(r) => *r,
        None => t,
    }
}

} // verus!
