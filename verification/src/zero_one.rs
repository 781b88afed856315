//! Folding conditionals over terms whose value is 0 or 1.
//!
//! On such terms a maximum is `a + b - a*b`, and the absolute value of a
//! difference is its square, so nests of conditionals become arithmetic.

use crate::collections::{map_get, map_insert, map_new, set_contains, set_insert};
use crate::constructors::{grew, plain_node};
use crate::ite_table::{int_const_val, int_literal};
use crate::semantics::{eval, eval_args, holds, lemma_eval, num, product_of, sum_of, Interp, Value};
use crate::tables::{
    indices_rebound, keys_rebound, lemma_indices_rebound_extend, lemma_keys_rebound_extend,
    lemma_rebound_extend, rebound, TableState,
};
use crate::terms::{
    extends, node_at, node_below, terms_wf, Data, Op, SortId, TermId, TermStore, TermView,
    BOOL_SORT,
};
use crate::walk::{
    collect_subterms, lemma_map_ok_extend, lemma_subst_eval, lemma_subst_extend, lists_reach,
    map_ok, quantifier_free, subst, substitute, subterm,
};
use rustc_hash::{FxHashMap, FxHashSet};
use vstd::prelude::*;

verus! {

/// How often the nests of one assertion are folded.
pub const FOLD_ROUNDS: usize = 8;

pub fn is_int_const(store: &TermStore, term: TermId, want: i64) -> (b: bool)
    ensures
        b == (int_literal(store.terms(), term) == Some(want)),
{
    match int_const_val(term, store) {
        Some(v) => v == want,
        None => false,
    }
}

/// The two sides of a comparison with the given head.
pub open spec fn sides_of(s: Seq<TermView>, cond: TermId, op: Op) -> Option<(TermId, TermId)> {
    if cond < s.len() && s[cond as int].op == op {
        Some((s[cond as int].args[0], s[cond as int].args[1]))
    } else {
        None
    }
}

fn binary_sides(store: &TermStore, cond: TermId, op: Op) -> (r: Option<(TermId, TermId)>)
    requires
        store.wf(),
        op == Op::Gt || op == Op::Lt || op == Op::Sub,
    ensures
        r == sides_of(store.terms(), cond, op),
{
    match store.get(cond) {
        None => None,
        Some(node) => {
            assert(node_below(store.terms(), cond as int));
            if node.op == op {
                Some((node.args[0], node.args[1]))
            } else {
                None
            }
        },
    }
}

/// The condition is `(> term 0)`.
pub open spec fn gt_zero_of(s: Seq<TermView>, cond: TermId, term: TermId) -> bool {
    gt_zero(s, cond) == Some(term)
}

/// The term that the condition says is positive.
pub open spec fn gt_zero(s: Seq<TermView>, cond: TermId) -> Option<TermId> {
    match sides_of(s, cond, Op::Gt) {
        Some((a, b)) => if int_literal(s, b) == Some(0i64) {
            Some(a)
        } else {
            None
        },
        None => None,
    }
}

/// The term that the condition says is negative.
pub open spec fn lt_zero(s: Seq<TermView>, cond: TermId) -> Option<TermId> {
    match sides_of(s, cond, Op::Lt) {
        Some((a, b)) => if int_literal(s, b) == Some(0i64) {
            Some(a)
        } else {
            None
        },
        None => None,
    }
}

pub fn is_gt_zero_of(store: &TermStore, cond: TermId, term: TermId) -> (b: bool)
    requires
        store.wf(),
    ensures
        b == gt_zero_of(store.terms(), cond, term),
{
    match gt_zero_lhs(store, cond) {
        Some(t) => t == term,
        None => false,
    }
}

pub fn is_gt_of(store: &TermStore, cond: TermId, a: TermId, b: TermId) -> (r: bool)
    requires
        store.wf(),
    ensures
        r == (sides_of(store.terms(), cond, Op::Gt) == Some((a, b))),
{
    match binary_sides(store, cond, Op::Gt) {
        Some((x, y)) => x == a && y == b,
        None => false,
    }
}

pub fn gt_zero_lhs(store: &TermStore, cond: TermId) -> (r: Option<TermId>)
    requires
        store.wf(),
    ensures
        r == gt_zero(store.terms(), cond),
{
    match binary_sides(store, cond, Op::Gt) {
        Some((a, b)) => if is_int_const(store, b, 0) {
            Some(a)
        } else {
            None
        },
        None => None,
    }
}

pub fn lt_zero_lhs(store: &TermStore, cond: TermId) -> (r: Option<TermId>)
    requires
        store.wf(),
    ensures
        r == lt_zero(store.terms(), cond),
{
    match binary_sides(store, cond, Op::Lt) {
        Some((a, b)) => if is_int_const(store, b, 0) {
            Some(a)
        } else {
            None
        },
        None => None,
    }
}

/// The term is `(- x)` or `(- 0 x)`.
pub open spec fn negation_of(s: Seq<TermView>, term: TermId, x: TermId) -> bool {
    &&& term < s.len()
    &&& (s[term as int].op == Op::Neg && s[term as int].args[0] == x) || (sides_of(
        s,
        term,
        Op::Sub,
    ) matches Some((a, b)) && int_literal(s, a) == Some(0i64) && b == x)
}

pub fn is_negation_of(store: &TermStore, term: TermId, x: TermId) -> (r: bool)
    requires
        store.wf(),
    ensures
        r == negation_of(store.terms(), term, x),
{
    match store.get(term) {
        None => false,
        Some(node) => {
            assert(node_below(store.terms(), term as int));
            if node.op == Op::Neg {
                return node.args[0] == x;
            }
            match binary_sides(store, term, Op::Sub) {
                Some((a, b)) => is_int_const(store, a, 0) && b == x,
                None => false,
            }
        },
    }
}

/// The term is a difference of members of `z`, or the negation of one.
pub open spec fn zo_diff(s: Seq<TermView>, z: Set<TermId>, x: TermId) -> bool {
    &&& x < s.len()
    &&& match s[x as int].op {
        Op::Sub => z.contains(s[x as int].args[0]) && z.contains(s[x as int].args[1]),
        Op::Neg => z.contains(s[x as int].args[0]),
        _ => false,
    }
}

pub fn is_zo_diff(store: &TermStore, x: TermId, zo: &FxHashSet<TermId>) -> (r: bool)
    requires
        store.wf(),
    ensures
        r == zo_diff(store.terms(), zo@, x),
{
    match store.get(x) {
        None => false,
        Some(node) => {
            assert(node_below(store.terms(), x as int));
            match node.op {
                Op::Sub => set_contains(zo, node.args[0]) && set_contains(zo, node.args[1]),
                Op::Neg => set_contains(zo, node.args[0]),
                _ => false,
            }
        },
    }
}

/// `t` applies `op` to `a` and `b`.
pub open spec fn pair_node(
    s: Seq<TermView>,
    t: TermId,
    op: Op,
    a: TermId,
    b: TermId,
    sort: SortId,
) -> bool {
    node_at(s, t, plain_node(op, seq![a, b], sort))
}

/// `out` is `a + b - a*b`.
pub open spec fn max_node(s: Seq<TermView>, a: TermId, b: TermId, out: TermId) -> bool {
    exists|sum: TermId, prod: TermId| #[trigger]
        pair_node(s, out, Op::Sub, sum, prod, s[a as int].sort) && pair_node(
            s,
            sum,
            Op::Add,
            a,
            b,
            s[a as int].sort,
        ) && pair_node(s, prod, Op::Mul, a, b, s[a as int].sort)
}

/// What the conditional `(ite c th el)` folds to, where the members of `z` are
/// 0 or 1; `z2` is `z` with the result, where that is 0 or 1 too.
pub open spec fn ite_folded(
    s: Seq<TermView>,
    z: Set<TermId>,
    c: TermId,
    th: TermId,
    el: TermId,
    out: TermId,
    z2: Set<TermId>,
) -> bool {
    let sort = s[th as int].sort;
    if th == el {
        out == th && z2 == z
    } else if gt_zero_of(s, c, th) && int_literal(s, el) == Some(0i64) && z.contains(th) {
        out == th && z2 == z
    } else if gt_zero(s, c) is Some && int_literal(s, th) == Some(1i64) && int_literal(s, el)
        == Some(0i64) && z.contains(gt_zero(s, c)->0) && s[gt_zero(s, c)->0 as int].sort == sort {
        out == gt_zero(s, c)->0 && z2 == z
    } else if sides_of(s, c, Op::Gt) == Some((th, el)) && z.contains(th) && z.contains(el) {
        max_node(s, th, el, out) && z2 == z.insert(out)
    } else if lt_zero(s, c) == Some(el) && negation_of(s, th, el) && zo_diff(s, z, el) {
        pair_node(s, out, Op::Mul, el, el, sort) && z2 == z.insert(out)
    } else {
        &&& node_at(s, out, plain_node(Op::Ite, seq![c, th, el], sort))
        &&& z2 == (if z.contains(th) && z.contains(el) {
            z.insert(out)
        } else {
            z
        })
    }
}

fn pair(a: TermId, b: TermId) -> (r: Vec<TermId>)
    ensures
        r@ == seq![a, b],
{
    let mut r: Vec<TermId> = Vec::new();
    r.push(a);
    r.push(b);
    assert(r@ =~= seq![a, b]);
    r
}

/// Folds one conditional whose parts have been folded.
pub fn fold_one_ite(
    store: &mut TermStore,
    c: TermId,
    th: TermId,
    el: TermId,
    zo: &mut FxHashSet<TermId>,
) -> (out: TermId)
    requires
        old(store).wf(),
        c < old(store).terms().len(),
        th < old(store).terms().len(),
        el < old(store).terms().len(),
        old(store).terms()[th as int].sort == old(store).terms()[el as int].sort,
        forall|x: TermId| #[trigger] old(zo)@.contains(x) ==> x < old(store).terms().len(),
    ensures
        grew(old(store), final(store)),
        out < final(store).terms().len(),
        final(store).terms()[out as int].sort == old(store).terms()[th as int].sort,
        ite_folded(final(store).terms(), old(zo)@, c, th, el, out, final(zo)@),
        forall|x: TermId| #[trigger] final(zo)@.contains(x) ==> x < final(store).terms().len(),
{
    let ghost s0 = store.terms();
    if th == el {
        return th;
    }
    let sort: SortId = store.nodes[th].sort;
    if is_gt_zero_of(store, c, th) && is_int_const(store, el, 0) && set_contains(zo, th) {
        return th;
    }
    if let Some(t) = gt_zero_lhs(store, c) {
        if is_int_const(store, th, 1) && is_int_const(store, el, 0) && set_contains(zo, t)
            && store.nodes[t].sort == sort {
            return t;
        }
    }
    if is_gt_of(store, c, th, el) && set_contains(zo, th) && set_contains(zo, el) {
        let sum = store.mk_add(pair(th, el), sort);
        let ghost s1 = store.terms();
        let prod = store.mk_mul(pair(th, el), sort);
        let ghost s2 = store.terms();
        let max = store.mk_sub(sum, prod);
        set_insert(zo, max);
        proof {
            let s3 = store.terms();
            lemma_parts_extend(s0, s3, old(zo)@, c, th, el);
            assert(s3[sum as int] == s1[sum as int] && s3[prod as int] == s2[prod as int]);
            assert(pair_node(s3, max, Op::Sub, sum, prod, s3[th as int].sort));
            assert(max_node(s3, th, el, max));
        }
        return max;
    }
    if let Some(x) = lt_zero_lhs(store, c) {
        if el == x && is_negation_of(store, th, x) && is_zo_diff(store, x, zo) {
            let square = store.mk_mul(pair(x, x), sort);
            set_insert(zo, square);
            proof {
                lemma_parts_extend(s0, store.terms(), old(zo)@, c, th, el);
            }
            return square;
        }
    }
    let rebuilt = store.mk_ite(c, th, el);
    if set_contains(zo, th) && set_contains(zo, el) {
        set_insert(zo, rebuilt);
    }
    proof {
        lemma_parts_extend(s0, store.terms(), old(zo)@, c, th, el);
    }
    rebuilt
}

/// The tests of the folds do not depend on later terms.
proof fn lemma_parts_extend(
    a: Seq<TermView>,
    b: Seq<TermView>,
    z: Set<TermId>,
    c: TermId,
    th: TermId,
    el: TermId,
)
    requires
        terms_wf(a),
        extends(a, b),
        c < a.len(),
        th < a.len(),
        el < a.len(),
    ensures
        gt_zero(a, c) == gt_zero(b, c),
        lt_zero(a, c) == lt_zero(b, c),
        gt_zero(a, c) matches Some(t) ==> t < a.len() && b[t as int] == a[t as int],
        sides_of(a, c, Op::Gt) == sides_of(b, c, Op::Gt),
        int_literal(a, th) == int_literal(b, th),
        int_literal(a, el) == int_literal(b, el),
        negation_of(a, th, el) == negation_of(b, th, el),
        zo_diff(a, z, el) == zo_diff(b, z, el),
        b[th as int] == a[th as int],
        b[el as int] == a[el as int],
{
    assert(node_below(a, c as int));
    assert(node_below(a, th as int));
    assert(node_below(a, el as int));
    assert(b[c as int] == a[c as int]);
    if a[c as int].op == Op::Gt || a[c as int].op == Op::Lt {
        let x = a[c as int].args[0];
        let y = a[c as int].args[1];
        assert(b[x as int] == a[x as int] && b[y as int] == a[y as int]);
    }
    if a[th as int].op == Op::Sub {
        let x = a[th as int].args[0];
        assert(b[x as int] == a[x as int]);
    }
}

/// Every member is 0 or 1.
pub open spec fn zero_one_valued(s: Seq<TermView>, i: Interp, z: Set<TermId>) -> bool {
    forall|x: TermId| #[trigger]
        z.contains(x) ==> x < s.len() && (eval(s, i, x as int) == Value::Num(0real) || eval(
            s,
            i,
            x as int,
        ) == Value::Num(1real))
}

proof fn lemma_literal_value(s: Seq<TermView>, i: Interp, t: TermId, v: i64)
    requires
        terms_wf(s),
        int_literal(s, t) == Some(v),
    ensures
        eval(s, i, t as int) == Value::Num(v as int as real),
{
    lemma_eval(s, i, t);
}

/// The value of a node with two arguments.
proof fn lemma_eval_pair(s: Seq<TermView>, i: Interp, t: TermId, op: Op, a: TermId, b: TermId, sort: SortId)
    requires
        terms_wf(s),
        pair_node(s, t, op, a, b, sort),
        op == Op::Add || op == Op::Mul || op == Op::Sub,
    ensures
        ({
            let x = num(eval(s, i, a as int));
            let y = num(eval(s, i, b as int));
            eval(s, i, t as int) == Value::Num(
                if op == Op::Add {
                    x + y
                } else if op == Op::Mul {
                    x * y
                } else {
                    x - y
                },
            )
        }),
{
    lemma_eval(s, i, t);
    let vals = eval_args(s, i, seq![a, b]);
    assert(vals.len() == 2);
    assert(vals[0] == eval(s, i, a as int));
    assert(vals[1] == eval(s, i, b as int));
    let one = vals.drop_last();
    assert(one.len() == 1 && one.last() == vals[0]);
    assert(one.drop_last().len() == 0);
    assert(sum_of(one.drop_last()) == 0real);
    assert(product_of(one.drop_last()) == 1real);
    assert(sum_of(one) == num(vals[0]));
    assert(product_of(one) == num(vals[0])) by {
        assert(product_of(one) == 1real * num(vals[0]));
    }
    assert(sum_of(vals) == num(vals[0]) + num(vals[1]));
    assert(product_of(vals) == num(vals[0]) * num(vals[1]));
}

/// On 0/1 terms the maximum is `a + b - a*b`, and the absolute value of a
/// difference is its square: folding a conditional keeps its value, and what
/// it adds to the 0/1 terms is 0 or 1.
pub proof fn folding_keeps_the_value(
    s: Seq<TermView>,
    i: Interp,
    z: Set<TermId>,
    c: TermId,
    th: TermId,
    el: TermId,
    out: TermId,
    z2: Set<TermId>,
)
    requires
        terms_wf(s),
        c < s.len(),
        th < s.len(),
        el < s.len(),
        ite_folded(s, z, c, th, el, out, z2),
        zero_one_valued(s, i, z),
    ensures
        eval(s, i, out as int) == (if holds(s, i, c) {
            eval(s, i, th as int)
        } else {
            eval(s, i, el as int)
        }),
        zero_one_valued(s, i, z2),
{
    let sort = s[th as int].sort;
    assert(node_below(s, c as int));
    if s[c as int].op == Op::Gt || s[c as int].op == Op::Lt {
        lemma_eval(s, i, c);
        let vals = eval_args(s, i, s[c as int].args);
        assert(vals[0] == eval(s, i, s[c as int].args[0] as int));
        assert(vals[1] == eval(s, i, s[c as int].args[1] as int));
        if int_literal(s, s[c as int].args[1]) == Some(0i64) {
            lemma_literal_value(s, i, s[c as int].args[1], 0);
        }
    }
    if int_literal(s, el) == Some(0i64) {
        lemma_literal_value(s, i, el, 0);
    }
    if int_literal(s, th) == Some(1i64) {
        lemma_literal_value(s, i, th, 1);
    }
    if th == el {
    } else if gt_zero_of(s, c, th) && int_literal(s, el) == Some(0i64) && z.contains(th) {
    } else if gt_zero(s, c) is Some && int_literal(s, th) == Some(1i64) && int_literal(s, el)
        == Some(0i64) && z.contains(gt_zero(s, c)->0) && s[gt_zero(s, c)->0 as int].sort == sort {
    } else if sides_of(s, c, Op::Gt) == Some((th, el)) && z.contains(th) && z.contains(el) {
        let (sum, prod) = choose|sum: TermId, prod: TermId| #[trigger]
            pair_node(s, out, Op::Sub, sum, prod, s[th as int].sort) && pair_node(
                s,
                sum,
                Op::Add,
                th,
                el,
                s[th as int].sort,
            ) && pair_node(s, prod, Op::Mul, th, el, s[th as int].sort);
        lemma_eval_pair(s, i, out, Op::Sub, sum, prod, sort);
        lemma_eval_pair(s, i, sum, Op::Add, th, el, sort);
        lemma_eval_pair(s, i, prod, Op::Mul, th, el, sort);
        let a = num(eval(s, i, th as int));
        let b = num(eval(s, i, el as int));
        assert((a == 0real || a == 1real) && (b == 0real || b == 1real));
        assert(a * b == (if a == 1real { b } else { 0real })) by (nonlinear_arith)
            requires
                a == 0real || a == 1real,
        ;
    } else if lt_zero(s, c) == Some(el) && negation_of(s, th, el) && zo_diff(s, z, el) {
        lemma_eval_pair(s, i, out, Op::Mul, el, el, sort);
        assert(node_below(s, el as int));
        assert(node_below(s, th as int));
        lemma_eval(s, i, el);
        lemma_eval(s, i, th);
        let below = eval_args(s, i, s[el as int].args);
        assert(below[0] == eval(s, i, s[el as int].args[0] as int));
        let x = num(eval(s, i, el as int));
        if s[el as int].op == Op::Sub {
            assert(below[1] == eval(s, i, s[el as int].args[1] as int));
            assert(z.contains(s[el as int].args[0]) && z.contains(s[el as int].args[1]));
        } else {
            assert(z.contains(s[el as int].args[0]));
        }
        assert(x == 0real || x == 1real || x == -1real);
        assert(x * x == (if x < 0real { -x } else { x })) by (nonlinear_arith)
            requires
                x == 0real || x == 1real || x == -1real,
        ;
        let neg = eval_args(s, i, s[th as int].args);
        assert(neg[0] == eval(s, i, s[th as int].args[0] as int));
        if s[th as int].op == Op::Sub {
            assert(neg[1] == eval(s, i, s[th as int].args[1] as int));
            lemma_literal_value(s, i, s[th as int].args[0], 0);
        }
        assert(eval(s, i, th as int) == Value::Num(-x));
        assert(eval(s, i, el as int) == Value::Num(x));
    } else {
        lemma_eval(s, i, out);
        let vals = eval_args(s, i, s[out as int].args);
        assert(vals[0] == eval(s, i, c as int));
        assert(vals[1] == eval(s, i, th as int));
        assert(vals[2] == eval(s, i, el as int));
    }
}

/// The image of a term, itself where it has none.
pub open spec fn image(m: Map<TermId, TermId>, t: TermId) -> TermId {
    if m.contains_key(t) {
        m[t]
    } else {
        t
    }
}

pub open spec fn images(m: Map<TermId, TermId>, ts: Seq<TermId>) -> Seq<TermId> {
    Seq::new(ts.len(), |k: int| image(m, ts[k]))
}

/// What the term `x` folds to, given the images of its arguments.
pub open spec fn term_folded(
    s: Seq<TermView>,
    z: Set<TermId>,
    m: Map<TermId, TermId>,
    x: TermId,
    out: TermId,
    z2: Set<TermId>,
) -> bool {
    let node = s[x as int];
    let args = images(m, node.args);
    if node.sort == BOOL_SORT {
        out == x && z2 == z
    } else if node.op == Op::Ite {
        ite_folded(s, z, args[0], args[1], args[2], out, z2)
    } else if node.op == Op::Add || node.op == Op::Sub {
        node_at(s, out, plain_node(node.op, args, node.sort)) && z2 == z
    } else if node.op == Op::Mul {
        &&& node_at(s, out, plain_node(node.op, args, node.sort))
        &&& z2 == (if forall|k: int| 0 <= k < args.len() ==> z.contains(#[trigger] args[k]) {
            z.insert(out)
        } else {
            z
        })
    } else {
        out == x && z2 == z
    }
}

/// The map with `x` folded to `out`.
pub open spec fn noting(m: Map<TermId, TermId>, x: TermId, out: TermId) -> Map<TermId, TermId> {
    if out == x {
        m
    } else {
        m.insert(x, out)
    }
}

/// `m` and `z` are what folding the first `n` terms of the list gives, one
/// after the other.
pub open spec fn list_folded(
    s: Seq<TermView>,
    list: Seq<TermId>,
    n: int,
    z0: Set<TermId>,
    m: Map<TermId, TermId>,
    z: Set<TermId>,
) -> bool
    decreases n,
{
    &&& map_ok(s, m)
    &&& forall|x: TermId| #[trigger] z.contains(x) ==> x < s.len()
    &&& if n <= 0 {
        m == Map::<TermId, TermId>::empty() && z == z0
    } else {
        exists|m1: Map<TermId, TermId>, z1: Set<TermId>, out: TermId|
            list_folded(s, list, n - 1, z0, m1, z1) && #[trigger] term_folded(
                s,
                z1,
                m1,
                list[n - 1],
                out,
                z,
            ) && m == noting(m1, list[n - 1], out)
    }
}

/// One round of folding below `t`.
pub open spec fn round_folded(
    s: Seq<TermView>,
    t: TermId,
    z0: Set<TermId>,
    m: Map<TermId, TermId>,
    z: Set<TermId>,
) -> bool {
    exists|list: Seq<TermId>|
        lists_reach(list, s, Map::empty(), t) && #[trigger] list_folded(
            s,
            list,
            list.len() as int,
            z0,
            m,
            z,
        )
}

/// At most `n` rounds of folding turn `t` into `r`; a round that folds nothing
/// is the last.
pub open spec fn rounds_folded(
    s: Seq<TermView>,
    n: int,
    t: TermId,
    z0: Set<TermId>,
    r: TermId,
    z: Set<TermId>,
) -> bool
    decreases n,
{
    if n <= 0 {
        r == t && z == z0
    } else {
        exists|m: Map<TermId, TermId>, z1: Set<TermId>, t1: TermId|
            t1 < s.len() && #[trigger] round_folded(s, t, z0, m, z1) && #[trigger] subst(
                s,
                m,
                t,
                t1,
            ) && if m == Map::<TermId, TermId>::empty() {
                r == t && z == z1
            } else {
                rounds_folded(s, n - 1, t1, z1, r, z)
            }
    }
}

proof fn lemma_images_within(s: Seq<TermView>, m: Map<TermId, TermId>, x: TermId)
    requires
        terms_wf(s),
        map_ok(s, m),
        x < s.len(),
    ensures
        forall|k: int|
            0 <= k < s[x as int].args.len() ==> #[trigger] images(m, s[x as int].args)[k] < s.len()
                && s[images(m, s[x as int].args)[k] as int].sort
                == s[s[x as int].args[k] as int].sort,
{
    assert(node_below(s, x as int));
    assert forall|k: int| 0 <= k < s[x as int].args.len() implies #[trigger] images(
        m,
        s[x as int].args,
    )[k] < s.len() && s[images(m, s[x as int].args)[k] as int].sort
        == s[s[x as int].args[k] as int].sort by {
        let a = s[x as int].args[k];
        assert(a < s.len());
        if m.contains_key(a) {
            assert(m[a] < s.len());
        }
    }
}

proof fn lemma_term_folded_extend(
    a: Seq<TermView>,
    b: Seq<TermView>,
    z: Set<TermId>,
    m: Map<TermId, TermId>,
    x: TermId,
    out: TermId,
    z2: Set<TermId>,
)
    requires
        terms_wf(a),
        extends(a, b),
        map_ok(a, m),
        x < a.len(),
        term_folded(a, z, m, x, out, z2),
    ensures
        term_folded(b, z, m, x, out, z2),
{
    let node = a[x as int];
    assert(b[x as int] == node);
    assert(node_below(a, x as int));
    lemma_images_within(a, m, x);
    let args = images(m, node.args);
    if node.sort != BOOL_SORT && node.op == Op::Ite {
        assert(args[0] < a.len() && args[1] < a.len() && args[2] < a.len());
        let (c, th, el) = (args[0], args[1], args[2]);
        lemma_parts_extend(a, b, z, c, th, el);
        let sort = a[th as int].sort;
        if th != el && !(gt_zero_of(a, c, th) && int_literal(a, el) == Some(0i64) && z.contains(th))
            && !(gt_zero(a, c) is Some && int_literal(a, th) == Some(1i64) && int_literal(a, el)
            == Some(0i64) && z.contains(gt_zero(a, c)->0) && a[gt_zero(a, c)->0 as int].sort
            == sort) && sides_of(a, c, Op::Gt) == Some((th, el)) && z.contains(th) && z.contains(
            el,
        ) {
            let (sum, prod) = choose|sum: TermId, prod: TermId| #[trigger]
                pair_node(a, out, Op::Sub, sum, prod, a[th as int].sort) && pair_node(
                    a,
                    sum,
                    Op::Add,
                    th,
                    el,
                    a[th as int].sort,
                ) && pair_node(a, prod, Op::Mul, th, el, a[th as int].sort);
            assert(pair_node(b, out, Op::Sub, sum, prod, b[th as int].sort));
        }
    }
}

proof fn lemma_list_folded_extend(
    a: Seq<TermView>,
    b: Seq<TermView>,
    list: Seq<TermId>,
    n: int,
    z0: Set<TermId>,
    m: Map<TermId, TermId>,
    z: Set<TermId>,
)
    requires
        terms_wf(a),
        extends(a, b),
        n <= list.len(),
        forall|k: int| 0 <= k < list.len() ==> (#[trigger] list[k]) < a.len(),
        list_folded(a, list, n, z0, m, z),
    ensures
        list_folded(b, list, n, z0, m, z),
    decreases n,
{
    lemma_map_ok_extend(a, b, m);
    if n > 0 {
        let (m1, z1, out) = choose|m1: Map<TermId, TermId>, z1: Set<TermId>, out: TermId|
            list_folded(a, list, n - 1, z0, m1, z1) && #[trigger] term_folded(
                a,
                z1,
                m1,
                list[n - 1],
                out,
                z,
            ) && m == noting(m1, list[n - 1], out);
        lemma_list_folded_extend(a, b, list, n - 1, z0, m1, z1);
        assert(map_ok(a, m1));
        lemma_term_folded_extend(a, b, z1, m1, list[n - 1], out, z);
    }
}

/// Folding a term keeps its value, where its arguments keep theirs.
proof fn lemma_term_folded(
    s: Seq<TermView>,
    i: Interp,
    z: Set<TermId>,
    m: Map<TermId, TermId>,
    x: TermId,
    out: TermId,
    z2: Set<TermId>,
)
    requires
        terms_wf(s),
        map_ok(s, m),
        x < s.len(),
        term_folded(s, z, m, x, out, z2),
        zero_one_valued(s, i, z),
        forall|k: TermId| #[trigger]
            m.contains_key(k) ==> eval(s, i, k as int) == eval(s, i, m[k] as int),
    ensures
        eval(s, i, out as int) == eval(s, i, x as int),
        zero_one_valued(s, i, z2),
{
    let node = s[x as int];
    let args = images(m, node.args);
    assert(node_below(s, x as int));
    lemma_images_within(s, m, x);
    if node.sort != BOOL_SORT && (node.op == Op::Ite || node.op == Op::Add || node.op == Op::Sub
        || node.op == Op::Mul) {
        assert(eval_args(s, i, args) =~= eval_args(s, i, node.args));
        lemma_eval(s, i, x);
        let vals = eval_args(s, i, node.args);
        if node.op == Op::Ite {
            assert(args[0] < s.len() && args[1] < s.len() && args[2] < s.len());
            assert(vals[0] == eval_args(s, i, args)[0]);
            assert(vals[1] == eval_args(s, i, args)[1]);
            assert(vals[2] == eval_args(s, i, args)[2]);
            folding_keeps_the_value(s, i, z, args[0], args[1], args[2], out, z2);
        } else {
            lemma_eval(s, i, out);
            if node.op == Op::Mul && forall|k: int|
                0 <= k < args.len() ==> z.contains(#[trigger] args[k]) {
                let vs = eval_args(s, i, args);
                assert forall|k: int| 0 <= k < vs.len() implies num(#[trigger] vs[k]) == 0real
                    || num(vs[k]) == 1real by {
                    assert(z.contains(args[k]));
                }
                lemma_binary_product(vs);
            }
        }
    }
}

proof fn lemma_binary_product(vals: Seq<Value>)
    requires
        forall|k: int| 0 <= k < vals.len() ==> num(#[trigger] vals[k]) == 0real || num(vals[k]) == 1real,
    ensures
        product_of(vals) == 0real || product_of(vals) == 1real,
    decreases vals.len(),
{
    if vals.len() > 0 {
        let rest = vals.drop_last();
        assert forall|k: int| 0 <= k < rest.len() implies num(#[trigger] rest[k]) == 0real || num(
            rest[k],
        ) == 1real by {
            assert(rest[k] == vals[k]);
        }
        lemma_binary_product(rest);
        let p = product_of(rest);
        let v = num(vals.last());
        assert(p * v == 0real || p * v == 1real) by (nonlinear_arith)
            requires
                p == 0real || p == 1real,
                v == 0real || v == 1real,
        ;
    }
}

proof fn lemma_list_folded(
    s: Seq<TermView>,
    i: Interp,
    list: Seq<TermId>,
    n: int,
    z0: Set<TermId>,
    m: Map<TermId, TermId>,
    z: Set<TermId>,
)
    requires
        terms_wf(s),
        n <= list.len(),
        forall|k: int| 0 <= k < list.len() ==> (#[trigger] list[k]) < s.len(),
        list_folded(s, list, n, z0, m, z),
        zero_one_valued(s, i, z0),
    ensures
        forall|k: TermId| #[trigger]
            m.contains_key(k) ==> eval(s, i, k as int) == eval(s, i, m[k] as int),
        zero_one_valued(s, i, z),
    decreases n,
{
    if n > 0 {
        let (m1, z1, out) = choose|m1: Map<TermId, TermId>, z1: Set<TermId>, out: TermId|
            list_folded(s, list, n - 1, z0, m1, z1) && #[trigger] term_folded(
                s,
                z1,
                m1,
                list[n - 1],
                out,
                z,
            ) && m == noting(m1, list[n - 1], out);
        lemma_list_folded(s, i, list, n - 1, z0, m1, z1);
        assert(map_ok(s, m1));
        lemma_term_folded(s, i, z1, m1, list[n - 1], out, z);
    }
}

/// Folding introduces no quantifiers.
proof fn lemma_term_folded_free(
    s: Seq<TermView>,
    z: Set<TermId>,
    m: Map<TermId, TermId>,
    x: TermId,
    out: TermId,
    z2: Set<TermId>,
)
    requires
        terms_wf(s),
        map_ok(s, m),
        x < s.len(),
        quantifier_free(s, x),
        term_folded(s, z, m, x, out, z2),
        forall|k: TermId| #[trigger] m.contains_key(k) ==> quantifier_free(s, m[k]),
    ensures
        quantifier_free(s, out),
{
    let node = s[x as int];
    let args = images(m, node.args);
    assert(node_below(s, x as int));
    lemma_images_within(s, m, x);
    assert forall|k: int| 0 <= k < args.len() implies quantifier_free(s, #[trigger] args[k]) by {
        assert(quantifier_free(s, node.args[k]));
    }
    if node.sort != BOOL_SORT && node.op == Op::Ite {
        let (c, th, el) = (args[0], args[1], args[2]);
        let sort = s[th as int].sort;
        assert(quantifier_free(s, c) && quantifier_free(s, th) && quantifier_free(s, el));
        assert(node_below(s, c as int));
        if s[c as int].op == Op::Gt {
            assert(quantifier_free(s, s[c as int].args[0]));
        }
        if th == el {
        } else if gt_zero_of(s, c, th) && int_literal(s, el) == Some(0i64) && z.contains(th) {
        } else if gt_zero(s, c) is Some && int_literal(s, th) == Some(1i64) && int_literal(s, el)
            == Some(0i64) && z.contains(gt_zero(s, c)->0) && s[gt_zero(s, c)->0 as int].sort
            == sort {
        } else if sides_of(s, c, Op::Gt) == Some((th, el)) && z.contains(th) && z.contains(el) {
            let (sum, prod) = choose|sum: TermId, prod: TermId| #[trigger]
                pair_node(s, out, Op::Sub, sum, prod, s[th as int].sort) && pair_node(
                    s,
                    sum,
                    Op::Add,
                    th,
                    el,
                    s[th as int].sort,
                ) && pair_node(s, prod, Op::Mul, th, el, s[th as int].sort);
            assert(quantifier_free(s, sum));
            assert(quantifier_free(s, prod));
        }
    } else if node.sort != BOOL_SORT && (node.op == Op::Add || node.op == Op::Sub || node.op
        == Op::Mul) {
        assert(s[out as int].args == args);
    }
}

proof fn lemma_list_folded_free(
    s: Seq<TermView>,
    list: Seq<TermId>,
    n: int,
    z0: Set<TermId>,
    m: Map<TermId, TermId>,
    z: Set<TermId>,
)
    requires
        terms_wf(s),
        n <= list.len(),
        forall|k: int|
            0 <= k < list.len() ==> (#[trigger] list[k]) < s.len() && quantifier_free(s, list[k]),
        list_folded(s, list, n, z0, m, z),
    ensures
        forall|k: TermId| #[trigger] m.contains_key(k) ==> quantifier_free(s, m[k]),
    decreases n,
{
    if n > 0 {
        let (m1, z1, out) = choose|m1: Map<TermId, TermId>, z1: Set<TermId>, out: TermId|
            list_folded(s, list, n - 1, z0, m1, z1) && #[trigger] term_folded(
                s,
                z1,
                m1,
                list[n - 1],
                out,
                z,
            ) && m == noting(m1, list[n - 1], out);
        lemma_list_folded_free(s, list, n - 1, z0, m1, z1);
        assert(map_ok(s, m1));
        lemma_term_folded_free(s, z1, m1, list[n - 1], out, z);
    }
}

/// A substitution by terms without quantifiers introduces none.
proof fn lemma_subst_free(s: Seq<TermView>, m: Map<TermId, TermId>, t: TermId, r: TermId)
    requires
        terms_wf(s),
        map_ok(s, m),
        t < s.len(),
        r < s.len(),
        quantifier_free(s, t),
        subst(s, m, t, r),
        forall|k: TermId| #[trigger] m.contains_key(k) ==> quantifier_free(s, m[k]),
    ensures
        quantifier_free(s, r),
    decreases t,
{
    if !m.contains_key(t) {
        assert(node_below(s, t as int));
        assert(node_below(s, r as int));
        let a = s[t as int];
        let b = s[r as int];
        assert forall|k: int| 0 <= k < b.args.len() && b.args[k] < r implies quantifier_free(
            s,
            #[trigger] b.args[k],
        ) by {
            assert(quantifier_free(s, a.args[k]));
            lemma_subst_free(s, m, a.args[k], b.args[k]);
        }
    }
}

proof fn lemma_list_within(s: Seq<TermView>, t: TermId, list: Seq<TermId>)
    requires
        terms_wf(s),
        t < s.len(),
        quantifier_free(s, t),
        lists_reach(list, s, Map::empty(), t),
    ensures
        forall|k: int|
            0 <= k < list.len() ==> (#[trigger] list[k]) < s.len() && quantifier_free(s, list[k]),
{
    assert forall|k: int| 0 <= k < list.len() implies (#[trigger] list[k]) < s.len()
        && quantifier_free(s, list[k]) by {
        assert(list.contains(list[k]));
        assert(subterm(s, t, list[k]));
        crate::walk::lemma_reach_le(s, Map::empty(), t, list[k]);
        crate::rewrite::lemma_quantifier_free_below(s, t, list[k]);
    }
}

/// Folding nests keeps the value of an assertion wherever the terms that count
/// as 0 or 1 are, and so are the terms that it adds to them.
pub proof fn nests_keep_their_value(
    s: Seq<TermView>,
    i: Interp,
    n: int,
    t: TermId,
    z0: Set<TermId>,
    r: TermId,
    z: Set<TermId>,
)
    requires
        terms_wf(s),
        t < s.len(),
        quantifier_free(s, t),
        rounds_folded(s, n, t, z0, r, z),
        zero_one_valued(s, i, z0),
    ensures
        eval(s, i, r as int) == eval(s, i, t as int),
        zero_one_valued(s, i, z),
    decreases n,
{
    if n > 0 {
        let (m, z1, t1) = choose|m: Map<TermId, TermId>, z1: Set<TermId>, t1: TermId|
            t1 < s.len() && #[trigger] round_folded(s, t, z0, m, z1) && #[trigger] subst(
                s,
                m,
                t,
                t1,
            ) && if m == Map::<TermId, TermId>::empty() {
                r == t && z == z1
            } else {
                rounds_folded(s, n - 1, t1, z1, r, z)
            };
        let list = choose|list: Seq<TermId>|
            lists_reach(list, s, Map::empty(), t) && #[trigger] list_folded(
                s,
                list,
                list.len() as int,
                z0,
                m,
                z1,
            );
        lemma_list_within(s, t, list);
        lemma_list_folded(s, i, list, list.len() as int, z0, m, z1);
        lemma_list_folded_free(s, list, list.len() as int, z0, m, z1);
        lemma_subst_eval(s, i, m, t, t1);
        lemma_subst_free(s, m, t, t1);
        if m != Map::<TermId, TermId>::empty() {
            nests_keep_their_value(s, i, n - 1, t1, z1, r, z);
        }
    }
}

/// The images of the arguments of a term.
fn image_args(store: &TermStore, x: TermId, map: &FxHashMap<TermId, TermId>) -> (args: Vec<TermId>)
    requires
        store.wf(),
        x < store.terms().len(),
    ensures
        args@ == images(map@, store.terms()[x as int].args),
{
    let node = &store.nodes[x];
    let ghost full = store.terms()[x as int].args;
    let mut args: Vec<TermId> = Vec::new();
    let mut k: usize = 0;
    while k < node.args.len()
        invariant
            k <= node.args.len(),
            node.args@ == full,
            args@.len() == k,
            forall|j: int| 0 <= j < k ==> #[trigger] args@[j] == image(map@, full[j]),
        decreases node.args.len() - k,
    {
        let a: TermId = node.args[k];
        let b: TermId = match map_get(map, a) {
            Some(v) => *v,
            None => a,
        };
        args.push(b);
        k = k + 1;
    }
    assert(args@ =~= images(map@, full));
    args
}

fn all_members(args: &Vec<TermId>, zo: &FxHashSet<TermId>) -> (b: bool)
    ensures
        b == forall|k: int| 0 <= k < args@.len() ==> zo@.contains(#[trigger] args@[k]),
{
    let mut k: usize = 0;
    while k < args.len()
        invariant
            k <= args.len(),
            forall|j: int| 0 <= j < k ==> zo@.contains(#[trigger] args@[j]),
        decreases args.len() - k,
    {
        if !set_contains(zo, args[k]) {
            assert(!zo@.contains(args@[k as int]));
            return false;
        }
        k = k + 1;
    }
    true
}

/// Folds one term whose arguments have been folded.
fn fold_term(
    store: &mut TermStore,
    x: TermId,
    map: &FxHashMap<TermId, TermId>,
    zo: &mut FxHashSet<TermId>,
) -> (out: TermId)
    requires
        old(store).wf(),
        x < old(store).terms().len(),
        map_ok(old(store).terms(), map@),
        forall|y: TermId| #[trigger] old(zo)@.contains(y) ==> y < old(store).terms().len(),
    ensures
        grew(old(store), final(store)),
        out < final(store).terms().len(),
        final(store).terms()[out as int].sort == old(store).terms()[x as int].sort,
        term_folded(final(store).terms(), old(zo)@, map@, x, out, final(zo)@),
        forall|y: TermId| #[trigger] final(zo)@.contains(y) ==> y < final(store).terms().len(),
{
    let ghost s0 = store.terms();
    let op: Op = store.nodes[x].op;
    let sort: SortId = store.nodes[x].sort;
    proof {
        assert(node_below(s0, x as int));
        lemma_images_within(s0, map@, x);
    }
    if sort == BOOL_SORT {
        return x;
    }
    match op {
        Op::Ite => {
            let args = image_args(store, x, map);
            assert(args@[0] < s0.len() && args@[1] < s0.len() && args@[2] < s0.len());
            fold_one_ite(store, args[0], args[1], args[2], zo)
        },
        Op::Add | Op::Sub => {
            let args = image_args(store, x, map);
            assert forall|k: int| 0 <= k < args@.len() implies (#[trigger] args@[k]) < s0.len() by {
                assert(images(map@, s0[x as int].args)[k] < s0.len());
            }
            store.intern(op, args, Data::Plain, sort)
        },
        Op::Mul => {
            let args = image_args(store, x, map);
            assert forall|k: int| 0 <= k < args@.len() implies (#[trigger] args@[k]) < s0.len() by {
                assert(images(map@, s0[x as int].args)[k] < s0.len());
            }
            let small = all_members(&args, zo);
            let out = store.intern(op, args, Data::Plain, sort);
            if small {
                set_insert(zo, out);
            }
            out
        },
        _ => x,
    }
}

/// Folds the terms of a list, one after the other.
fn fold_list(
    store: &mut TermStore,
    list: &Vec<TermId>,
    zo: &mut FxHashSet<TermId>,
) -> (r: (FxHashMap<TermId, TermId>, bool))
    requires
        old(store).wf(),
        forall|k: int| 0 <= k < list@.len() ==> (#[trigger] list@[k]) < old(store).terms().len(),
        forall|y: TermId| #[trigger] old(zo)@.contains(y) ==> y < old(store).terms().len(),
    ensures
        grew(old(store), final(store)),
        list_folded(
            final(store).terms(),
            list@,
            list@.len() as int,
            old(zo)@,
            r.0@,
            final(zo)@,
        ),
        r.1 == (r.0@ != Map::<TermId, TermId>::empty()),
{
    let ghost s0 = store.terms();
    let ghost z0 = zo@;
    let mut map: FxHashMap<TermId, TermId> = map_new();
    let mut changed = false;
    let mut n: usize = 0;
    assert(map@ =~= Map::<TermId, TermId>::empty());
    while n < list.len()
        invariant
            n <= list.len(),
            s0 == old(store).terms(),
            grew(old(store), store),
            forall|k: int| 0 <= k < list@.len() ==> (#[trigger] list@[k]) < s0.len(),
            list_folded(store.terms(), list@, n as int, z0, map@, zo@),
            changed == (map@ != Map::<TermId, TermId>::empty()),
        decreases list.len() - n,
    {
        let ghost s1 = store.terms();
        let ghost m1 = map@;
        let ghost z1 = zo@;
        let x: TermId = list[n];
        assert(list@[n as int] < s0.len());
        assert(s1[x as int] == s0[x as int]);
        let out = fold_term(store, x, &map, zo);
        if out != x {
            map_insert(&mut map, x, out);
            changed = true;
        }
        proof {
            let s2 = store.terms();
            lemma_list_folded_extend(s1, s2, list@, n as int, z0, m1, z1);
            lemma_map_ok_extend(s1, s2, m1);
            assert(map@ =~= noting(m1, x, out));
            assert(s2[x as int] == s1[x as int]);
            assert(map_ok(s2, map@));
            assert(term_folded(s2, z1, m1, list@[n + 1 - 1], out, zo@));
            assert(list_folded(s2, list@, n + 1, z0, map@, zo@));
            if out != x {
                assert(map@.contains_key(x));
            }
        }
        n = n + 1;
    }
    (map, changed)
}

proof fn lemma_round_extend(
    a: Seq<TermView>,
    b: Seq<TermView>,
    t: TermId,
    list: Seq<TermId>,
    z0: Set<TermId>,
    m: Map<TermId, TermId>,
    z: Set<TermId>,
)
    requires
        terms_wf(a),
        extends(a, b),
        t < a.len(),
        lists_reach(list, a, Map::empty(), t),
        list_folded(a, list, list.len() as int, z0, m, z),
    ensures
        round_folded(b, t, z0, m, z),
{
    assert forall|k: int| 0 <= k < list.len() implies (#[trigger] list[k]) < a.len() by {
        assert(list.contains(list[k]));
        crate::walk::lemma_reach_le(a, Map::empty(), t, list[k]);
    }
    lemma_list_folded_extend(a, b, list, list.len() as int, z0, m, z);
    assert forall|x: TermId| #[trigger] list.contains(x) <==> crate::walk::reach(
        b,
        Map::empty(),
        t,
        x,
    ) by {
        crate::rewrite::lemma_subterm_back(a, b, t, x);
        assert(subterm(a, t, x) == subterm(b, t, x));
    }
    assert(lists_reach(list, b, Map::empty(), t));
}

/// The rest of the state, which folding leaves as it is.
pub open spec fn only_folded(before: &TableState, after: &TableState) -> bool {
    &&& *after == (TableState {
        unit_eq_rep: after.unit_eq_rep,
        table_index_terms: after.table_index_terms,
        table_index_keys: after.table_index_keys,
        zero_one_terms: after.zero_one_terms,
        ..*before
    })
    &&& before.table_index_terms@.subset_of(after.table_index_terms@)
    &&& before.unit_eq_rep@.dom().subset_of(after.unit_eq_rep@.dom())
    &&& forall|k: TermId, y: i64| #[trigger]
        crate::tables::keys_at(before.table_index_keys@, k).contains(y)
            ==> crate::tables::keys_at(after.table_index_keys@, k).contains(y)
}

/// A round carried names, keys and indices over to the terms they turn into.
pub open spec fn round_carried(
    s: Seq<TermView>,
    m: Map<TermId, TermId>,
    a: &TableState,
    b: &TableState,
) -> bool {
    &&& rebound(s, m, a.unit_eq_rep@, b.unit_eq_rep@)
    &&& keys_rebound(s, m, a.table_index_keys@, b.table_index_keys@)
    &&& indices_rebound(
        s,
        m,
        a.table_index_keys@,
        a.table_index_terms@,
        b.table_index_terms@,
    )
    &&& *b == (TableState {
        unit_eq_rep: b.unit_eq_rep,
        table_index_terms: b.table_index_terms,
        table_index_keys: b.table_index_keys,
        zero_one_terms: b.zero_one_terms,
        ..*a
    })
}

/// What at most `n` rounds of folding `t` make of the table state.
pub open spec fn tables_folded(
    s: Seq<TermView>,
    n: int,
    t: TermId,
    before: &TableState,
    after: &TableState,
) -> bool
    decreases n,
{
    if n <= 0 {
        *after == *before
    } else {
        exists|m: Map<TermId, TermId>, mid: TableState, t1: TermId|
            t1 < s.len() && #[trigger] round_folded(
                s,
                t,
                before.zero_one_terms@,
                m,
                mid.zero_one_terms@,
            ) && #[trigger] subst(s, m, t, t1) && if m == Map::<TermId, TermId>::empty() {
                *after == mid && mid == (TableState {
                    zero_one_terms: mid.zero_one_terms,
                    ..*before
                })
            } else {
                round_carried(s, m, before, &mid) && tables_folded(s, n - 1, t1, &mid, after)
            }
    }
}

impl TableState {
    fn fold_rounds(&mut self, store: &mut TermStore, term: TermId, n: usize) -> (r: TermId)
        requires
            old(store).wf(),
            old(self).wf(old(store).terms()),
            term < old(store).terms().len(),
        ensures
            grew(old(store), final(store)),
            final(self).wf(final(store).terms()),
            r < final(store).terms().len(),
            rounds_folded(
                final(store).terms(),
                n as int,
                term,
                old(self).zero_one_terms@,
                r,
                final(self).zero_one_terms@,
            ),
            only_folded(old(self), final(self)),
            tables_folded(final(store).terms(), n as int, term, old(self), final(self)),
        decreases n,
    {
        if n == 0 {
            return term;
        }
        let ghost s0 = store.terms();
        let ghost z0 = self.zero_one_terms@;
        let list = collect_subterms(store, term);
        proof {
            assert forall|k: int| 0 <= k < list@.len() implies (#[trigger] list@[k]) < s0.len() by {
                assert(list@.contains(list@[k]));
                crate::walk::lemma_reach_le(s0, Map::empty(), term, list@[k]);
            }
        }
        let (map, changed) = fold_list(store, &list, &mut self.zero_one_terms);
        let ghost s1 = store.terms();
        let ghost z1 = self.zero_one_terms@;
        let ghost folded = *self;
        let ghost m = map@;
        proof {
            assert(lists_reach(list@, s1, Map::empty(), term)) by {
                assert forall|x: TermId| #[trigger] list@.contains(x) <==> crate::walk::reach(
                    s1,
                    Map::empty(),
                    term,
                    x,
                ) by {
                    crate::rewrite::lemma_subterm_back(s0, s1, term, x);
                    assert(subterm(s0, term, x) == subterm(s1, term, x));
                }
            }
            old(self).lemma_wf_extend(s0, s1);
            assert(map_ok(s1, m));
            assert forall|x: TermId| #[trigger] z1.contains(x) implies x < s1.len() by {
                assert(list_folded(s1, list@, list@.len() as int, z0, m, z1));
            }
            assert(self.wf(s1));
        }
        if !changed {
            proof {
                lemma_round_extend(s1, s1, term, list@, z0, m, z1);
                lemma_subst_refl(s1, m, term);
                assert(round_folded(s1, term, z0, m, z1) && subst(s1, m, term, term));
                assert(round_folded(s1, term, z0, m, folded.zero_one_terms@));
            }
            return term;
        }
        self.rebind_aliases_through_map(store, &map);
        let ghost aliased = *self;
        let ghost s2 = store.terms();
        proof {
            lemma_map_ok_extend(s1, s2, m);
        }
        self.rebind_table_indices_through_map(store, &map);
        let ghost keyed = *self;
        let ghost s3 = store.terms();
        proof {
            lemma_map_ok_extend(s2, s3, m);
        }
        let next = substitute(store, term, &map);
        let ghost s4 = store.terms();
        proof {
            self.lemma_wf_extend(s3, s4);
            assert forall|t: TermId| old(self).table_index_terms@.contains(
                t,
            ) implies keyed.table_index_terms@.contains(t) by {
                assert(aliased.table_index_terms@.contains(t));
            }
            assert forall|t: TermId| old(self).unit_eq_rep@.dom().contains(
                t,
            ) implies keyed.unit_eq_rep@.dom().contains(t) by {
                assert(old(self).unit_eq_rep@.contains_key(t));
                assert(aliased.unit_eq_rep@.contains_key(t));
            }
        }
        let r = self.fold_rounds(store, next, n - 1);
        proof {
            let s5 = store.terms();
            lemma_round_extend(s1, s5, term, list@, z0, m, z1);
            lemma_subst_extend(s4, s5, m, term, next);
            assert(round_folded(s5, term, z0, m, z1) && subst(s5, m, term, next));
            old(self).lemma_wf_extend(s0, s2);
            old(self).lemma_wf_extend(s0, s3);
            lemma_rebound_extend(s2, s5, m, old(self).unit_eq_rep@, aliased.unit_eq_rep@);
            lemma_keys_rebound_extend(
                s3,
                s5,
                m,
                old(self).table_index_keys@,
                keyed.table_index_keys@,
            );
            lemma_indices_rebound_extend(
                s3,
                s5,
                m,
                old(self).table_index_keys@,
                old(self).table_index_terms@,
                keyed.table_index_terms@,
            );
            assert(round_carried(s5, m, old(self), &keyed));
            assert(round_folded(s5, term, z0, m, keyed.zero_one_terms@));
            assert(only_folded(old(self), self)) by {
                assert forall|k: TermId, y: i64| #[trigger]
                    crate::tables::keys_at(old(self).table_index_keys@, k).contains(
                        y,
                    ) implies crate::tables::keys_at(self.table_index_keys@, k).contains(y) by {
                    assert(crate::tables::keys_at(keyed.table_index_keys@, k).contains(y));
                }
            }
        }
        r
    }

    /// Folds the nests of conditionals of an assertion, as long as that changes
    /// it and at most as often as is allowed.
    pub fn fold_zero_one_nests(&mut self, store: &mut TermStore, term: TermId) -> (r: TermId)
        requires
            old(store).wf(),
            old(self).wf(old(store).terms()),
            term < old(store).terms().len(),
        ensures
            grew(old(store), final(store)),
            final(self).wf(final(store).terms()),
            r < final(store).terms().len(),
            only_folded(old(self), final(self)),
            old(self).zero_one_terms@ == Set::<TermId>::empty() ==> r == term && *final(self)
                == *old(self) && final(store).terms() == old(store).terms(),
            old(self).zero_one_terms@ != Set::<TermId>::empty() ==> rounds_folded(
                final(store).terms(),
                FOLD_ROUNDS as int,
                term,
                old(self).zero_one_terms@,
                r,
                final(self).zero_one_terms@,
            ) && tables_folded(
                final(store).terms(),
                FOLD_ROUNDS as int,
                term,
                old(self),
                final(self),
            ),
    {
        let members = crate::collections::set_sorted_items(&self.zero_one_terms);
        proof {
            if members@.len() == 0 {
                assert(self.zero_one_terms@ =~= Set::<TermId>::empty()) by {
                    assert forall|x: TermId| !self.zero_one_terms@.contains(x) by {
                        if self.zero_one_terms@.contains(x) {
                            assert(members@.contains(x));
                        }
                    }
                }
            } else {
                assert(members@.contains(members@[0]));
                assert(self.zero_one_terms@.contains(members@[0]));
            }
        }
        if members.len() == 0 {
            return term;
        }
        self.fold_rounds(store, term, FOLD_ROUNDS)
    }
}

/// Replacing nothing changes nothing.
proof fn lemma_subst_refl(s: Seq<TermView>, m: Map<TermId, TermId>, t: TermId)
    requires
        terms_wf(s),
        t < s.len(),
        m == Map::<TermId, TermId>::empty(),
    ensures
        subst(s, m, t, t),
    decreases t,
{
    assert(node_below(s, t as int));
    assert forall|k: int| 0 <= k < s[t as int].args.len() implies subst(
        s,
        m,
        #[trigger] s[t as int].args[k],
        s[t as int].args[k],
    ) by {
        lemma_subst_refl(s, m, s[t as int].args[k]);
    }
}

} // verus!
