//! Finite domains of table indices.
//!
//! Where the assertions bound an index to a small range, the index is split
//! into cases: one literal per value, a clause that says that one of them is
//! true, and clauses that say that no two are.  Comparisons of the index with
//! constants are then linked to those literals.

use crate::aliases::{aliases_true, is_var};
use crate::collections::{map_get, map_insert, map_new, map_sorted_keys, set_contains, set_insert};
use crate::encode::good;
use crate::int_case_split::{
    case_clause, lemma_value_literal, lemma_value_literal_extend, tighten, tightened, value_literal,
    Bounds,
};
use crate::ite_table::{int_const_val, int_literal, named, MAX_EAGER_TABLE_DOMAIN};
use crate::semantics::{all_hold, eval, eval_args, holds, is_true, lemma_eval, num, Interp};
use crate::state::{
    clause_true, goal_inv, growth, lemma_clause_extend, lemma_growth_clause, lemma_growth_refl,
    lemma_growth_trans, lit_true, lits_within, GoalState, GoalView, Lit, Var,
};
use crate::tables::TableState;
use crate::terms::{
    extends, node_below, numeric_sort, terms_wf, Op, TermId, TermStore, TermView, INT_SORT,
};
use crate::walk::map_ok;
use rustc_hash::FxHashMap;
use vstd::prelude::*;

verus! {

/// The term that a bound on `t` is recorded for: its name, or itself where it
/// is a variable.
pub open spec fn bounded_term(
    s: Seq<TermView>,
    aliases: Map<TermId, TermId>,
    t: TermId,
) -> Option<TermId> {
    if aliases.contains_key(t) {
        Some(aliases[t])
    } else if is_var(s, t) {
        Some(t)
    } else {
        None
    }
}

pub fn bound_term(
    term: TermId,
    store: &TermStore,
    aliases: &FxHashMap<TermId, TermId>,
) -> (r: Option<TermId>)
    ensures
        r == bounded_term(store.terms(), aliases@, term),
{
    if let Some(rep) = map_get(aliases, term) {
        return Some(*rep);
    }
    match store.get(term) {
        None => None,
        Some(node) => if node.op == Op::Var {
            Some(term)
        } else {
            None
        },
    }
}

/// The least value above `c`, or `c` itself where the bound is not strict.
pub open spec fn lower_from(c: i64, strict: bool) -> Option<i64> {
    if !strict {
        Some(c)
    } else if c < i64::MAX {
        Some((c + 1) as i64)
    } else {
        None
    }
}

/// The greatest value below `c`, or `c` itself where the bound is not strict.
pub open spec fn upper_from(c: i64, strict: bool) -> Option<i64> {
    if !strict {
        Some(c)
    } else if c > i64::MIN {
        Some((c - 1) as i64)
    } else {
        None
    }
}

fn lower_bound_from(c: i64, strict: bool) -> (r: Option<i64>)
    ensures
        r == lower_from(c, strict),
{
    if !strict {
        Some(c)
    } else {
        c.checked_add(1)
    }
}

fn upper_bound_from(c: i64, strict: bool) -> (r: Option<i64>)
    ensures
        r == upper_from(c, strict),
{
    if !strict {
        Some(c)
    } else {
        c.checked_sub(1)
    }
}

/// The bounds after `a >= b`, or `a > b`.
pub open spec fn ge_noted(
    s: Seq<TermView>,
    aliases: Map<TermId, TermId>,
    bounds: Map<TermId, (Option<i64>, Option<i64>)>,
    a: TermId,
    b: TermId,
    strict: bool,
) -> Map<TermId, (Option<i64>, Option<i64>)> {
    match (bounded_term(s, aliases, a), int_literal(s, b)) {
        (Some(v), Some(c)) => tightened(bounds, v, lower_from(c, strict), None),
        _ => match (int_literal(s, a), bounded_term(s, aliases, b)) {
            (Some(c), Some(v)) => tightened(bounds, v, None, upper_from(c, strict)),
            _ => bounds,
        },
    }
}

/// The bounds after `a <= b`, or `a < b`; here a bound is recorded for the term
/// itself too, and for terms that have no name.
pub open spec fn le_noted(
    s: Seq<TermView>,
    aliases: Map<TermId, TermId>,
    bounds: Map<TermId, (Option<i64>, Option<i64>)>,
    a: TermId,
    b: TermId,
    strict: bool,
) -> Map<TermId, (Option<i64>, Option<i64>)> {
    match (bounded_term(s, aliases, a), int_literal(s, b)) {
        (Some(v), Some(c)) => {
            let first = tightened(bounds, v, None, upper_from(c, strict));
            if a != v {
                tightened(first, a, None, upper_from(c, strict))
            } else {
                first
            }
        },
        _ => match (int_literal(s, a), bounded_term(s, aliases, b)) {
            (Some(c), Some(v)) => {
                let first = tightened(bounds, v, lower_from(c, strict), None);
                if b != v {
                    tightened(first, b, lower_from(c, strict), None)
                } else {
                    first
                }
            },
            _ => match (int_literal(s, b), int_literal(s, a)) {
                (Some(c), _) => tightened(bounds, a, None, upper_from(c, strict)),
                (None, Some(c)) => tightened(bounds, b, lower_from(c, strict), None),
                _ => bounds,
            },
        },
    }
}

/// The bounds after `a = b`.
pub open spec fn eq_noted(
    s: Seq<TermView>,
    aliases: Map<TermId, TermId>,
    bounds: Map<TermId, (Option<i64>, Option<i64>)>,
    a: TermId,
    b: TermId,
) -> Map<TermId, (Option<i64>, Option<i64>)> {
    match (bounded_term(s, aliases, a), int_literal(s, b)) {
        (Some(v), Some(c)) => tightened(bounds, v, Some(c), Some(c)),
        _ => match (int_literal(s, a), bounded_term(s, aliases, b)) {
            (Some(c), Some(v)) => tightened(bounds, v, Some(c), Some(c)),
            _ => bounds,
        },
    }
}

/// The bounds after the conjuncts of `t`.
pub open spec fn bounds_noted(
    s: Seq<TermView>,
    aliases: Map<TermId, TermId>,
    bounds: Map<TermId, (Option<i64>, Option<i64>)>,
    t: TermId,
) -> Map<TermId, (Option<i64>, Option<i64>)>
    decreases t, s[t as int].args.len() + 1,
{
    let args = s[t as int].args;
    if t >= s.len() {
        bounds
    } else {
        match s[t as int].op {
            Op::And => conjuncts_noted(s, aliases, bounds, t, args.len() as int),
            Op::Ge => ge_noted(s, aliases, bounds, args[0], args[1], false),
            Op::Gt => ge_noted(s, aliases, bounds, args[0], args[1], true),
            Op::Le => le_noted(s, aliases, bounds, args[0], args[1], false),
            Op::Lt => le_noted(s, aliases, bounds, args[0], args[1], true),
            Op::Eq => eq_noted(s, aliases, bounds, args[0], args[1]),
            _ => bounds,
        }
    }
}

/// The bounds after the first `k` conjuncts of `t`.
pub open spec fn conjuncts_noted(
    s: Seq<TermView>,
    aliases: Map<TermId, TermId>,
    bounds: Map<TermId, (Option<i64>, Option<i64>)>,
    t: TermId,
    k: int,
) -> Map<TermId, (Option<i64>, Option<i64>)>
    decreases t, k,
{
    if 0 < k <= s[t as int].args.len() && s[t as int].args[k - 1] < t {
        bounds_noted(s, aliases, conjuncts_noted(s, aliases, bounds, t, k - 1), s[t as int].args[k - 1])
    } else {
        bounds
    }
}

fn tighten_bound(bounds: &mut Bounds, x: TermId, lo: Option<i64>, hi: Option<i64>)
    ensures
        final(bounds)@ == tightened(old(bounds)@, x, lo, hi),
{
    let mut changed = false;
    tighten(x, lo, hi, bounds, &mut changed);
}

pub fn note_ge(
    a: TermId,
    b: TermId,
    strict: bool,
    store: &TermStore,
    bounds: &mut Bounds,
    aliases: &FxHashMap<TermId, TermId>,
)
    ensures
        final(bounds)@ == ge_noted(store.terms(), aliases@, old(bounds)@, a, b, strict),
{
    if let (Some(v), Some(c)) = (bound_term(a, store, aliases), int_const_val(b, store)) {
        tighten_bound(bounds, v, lower_bound_from(c, strict), None);
    } else if let (Some(c), Some(v)) = (int_const_val(a, store), bound_term(b, store, aliases)) {
        tighten_bound(bounds, v, None, upper_bound_from(c, strict));
    }
}

pub fn note_le(
    a: TermId,
    b: TermId,
    strict: bool,
    store: &TermStore,
    bounds: &mut Bounds,
    aliases: &FxHashMap<TermId, TermId>,
)
    ensures
        final(bounds)@ == le_noted(store.terms(), aliases@, old(bounds)@, a, b, strict),
{
    if let (Some(v), Some(c)) = (bound_term(a, store, aliases), int_const_val(b, store)) {
        let hi = upper_bound_from(c, strict);
        tighten_bound(bounds, v, None, hi);
        if a != v {
            tighten_bound(bounds, a, None, hi);
        }
    } else if let (Some(c), Some(v)) = (int_const_val(a, store), bound_term(b, store, aliases)) {
        let lo = lower_bound_from(c, strict);
        tighten_bound(bounds, v, lo, None);
        if b != v {
            tighten_bound(bounds, b, lo, None);
        }
    } else if let Some(c) = int_const_val(b, store) {
        tighten_bound(bounds, a, None, upper_bound_from(c, strict));
    } else if let Some(c) = int_const_val(a, store) {
        tighten_bound(bounds, b, lower_bound_from(c, strict), None);
    }
}

fn note_eq(
    a: TermId,
    b: TermId,
    store: &TermStore,
    bounds: &mut Bounds,
    aliases: &FxHashMap<TermId, TermId>,
)
    ensures
        final(bounds)@ == eq_noted(store.terms(), aliases@, old(bounds)@, a, b),
{
    if let (Some(v), Some(c)) = (bound_term(a, store, aliases), int_const_val(b, store)) {
        tighten_bound(bounds, v, Some(c), Some(c));
    } else if let (Some(c), Some(v)) = (int_const_val(a, store), bound_term(b, store, aliases)) {
        tighten_bound(bounds, v, Some(c), Some(c));
    }
}

/// Records the bounds that the conjuncts of an assertion give.
pub fn collect_conjunctive_int_bounds(
    term: TermId,
    store: &TermStore,
    bounds: &mut Bounds,
    aliases: &FxHashMap<TermId, TermId>,
)
    requires
        store.wf(),
    ensures
        final(bounds)@ == bounds_noted(store.terms(), aliases@, old(bounds)@, term),
    decreases term,
{
    let ghost s = store.terms();
    let node = match store.get(term) {
        None => {
            return;
        },
        Some(node) => node,
    };
    assert(node_below(s, term as int));
    match node.op {
        Op::And => {
            let ghost first = bounds@;
            let mut k: usize = 0;
            while k < node.args.len()
                invariant
                    k <= node.args.len(),
                    store.wf(),
                    s == store.terms(),
                    term < s.len(),
                    node_below(s, term as int),
                    node.args@ == s[term as int].args,
                    bounds@ == conjuncts_noted(s, aliases@, first, term, k as int),
                decreases node.args.len() - k,
            {
                assert(s[term as int].args[k as int] < term);
                collect_conjunctive_int_bounds(node.args[k], store, bounds, aliases);
                k = k + 1;
            }
        },
        Op::Ge => note_ge(node.args[0], node.args[1], false, store, bounds, aliases),
        Op::Gt => note_ge(node.args[0], node.args[1], true, store, bounds, aliases),
        Op::Le => note_le(node.args[0], node.args[1], false, store, bounds, aliases),
        Op::Lt => note_le(node.args[0], node.args[1], true, store, bounds, aliases),
        Op::Eq => note_eq(node.args[0], node.args[1], store, bounds, aliases),
        _ => {},
    }
}

/// The number is the integer `n`.
pub open spec fn whole(v: real, n: int) -> bool {
    v == n as real
}

pub open spec fn is_whole(v: real) -> bool {
    exists|n: int| whole(v, n)
}

/// The terms of the integer sort are integers.
pub open spec fn integral(s: Seq<TermView>, i: Interp) -> bool {
    forall|t: TermId|
        t < s.len() && s[t as int].sort == INT_SORT ==> is_whole(
            num(#[trigger] eval(s, i, t as int)),
        )
}

/// Each alias of a number has the value of what it names.
pub open spec fn same_numbers(s: Seq<TermView>, i: Interp, aliases: Map<TermId, TermId>) -> bool {
    forall|k: TermId| #[trigger]
        aliases.contains_key(k) && numeric_sort(s[k as int].sort) ==> num(eval(s, i, k as int))
            == num(eval(s, i, aliases[k] as int))
}

/// The values of the integer terms lie within their bounds.
pub open spec fn bounds_hold(
    s: Seq<TermView>,
    i: Interp,
    bounds: Map<TermId, (Option<i64>, Option<i64>)>,
) -> bool {
    forall|x: TermId| #[trigger]
        bounds.contains_key(x) ==> x < s.len() && (s[x as int].sort == INT_SORT ==> real_in_bounds(
            bounds[x],
            num(eval(s, i, x as int)),
        ))
}

pub open spec fn real_in_bounds(b: (Option<i64>, Option<i64>), v: real) -> bool {
    &&& b.0 matches Some(lo) ==> lo as real <= v
    &&& b.1 matches Some(hi) ==> v <= hi as real
}

proof fn lemma_tightened(
    s: Seq<TermView>,
    i: Interp,
    bounds: Map<TermId, (Option<i64>, Option<i64>)>,
    x: TermId,
    lo: Option<i64>,
    hi: Option<i64>,
)
    requires
        bounds_hold(s, i, bounds),
        x < s.len(),
        s[x as int].sort == INT_SORT ==> real_in_bounds((lo, hi), num(eval(s, i, x as int))),
    ensures
        bounds_hold(s, i, tightened(bounds, x, lo, hi)),
{
    let after = tightened(bounds, x, lo, hi);
    assert forall|y: TermId| #[trigger] after.contains_key(y) implies y < s.len() && (
    s[y as int].sort == INT_SORT ==> real_in_bounds(after[y], num(eval(s, i, y as int)))) by {
        if y != x {
            assert(bounds.contains_key(y));
        } else if bounds.contains_key(x) {
            assert(s[x as int].sort == INT_SORT ==> real_in_bounds(
                bounds[x],
                num(eval(s, i, x as int)),
            ));
        }
    }
}

/// Strict bounds on integers.
proof fn lemma_strict(n: int, c: i64)
    ensures
        n as real > c as real ==> n >= c + 1,
        (n as real) < c as real ==> n <= c - 1,
        n >= c ==> n as real >= c as real,
        n <= c ==> n as real <= c as real,
{
}

/// The bounds that a comparison gives are true where it is, and all aliases are
/// equal to what they name.
proof fn lemma_comparison_noted(
    s: Seq<TermView>,
    i: Interp,
    aliases: Map<TermId, TermId>,
    bounds: Map<TermId, (Option<i64>, Option<i64>)>,
    t: TermId,
)
    requires
        terms_wf(s),
        t < s.len(),
        s[t as int].op == Op::Ge || s[t as int].op == Op::Gt || s[t as int].op == Op::Le
            || s[t as int].op == Op::Lt || s[t as int].op == Op::Eq,
        holds(s, i, t),
        integral(s, i),
        map_ok(s, aliases),
        same_numbers(s, i, aliases),
        bounds_hold(s, i, bounds),
    ensures
        bounds_hold(s, i, bounds_noted(s, aliases, bounds, t)),
{
    assert(node_below(s, t as int));
    let args = s[t as int].args;
    let (a, b) = (args[0], args[1]);
    lemma_eval(s, i, t);
    let vals = eval_args(s, i, args);
    assert(vals[0] == eval(s, i, a as int) && vals[1] == eval(s, i, b as int));
    assert(crate::semantics::arg_sorts(s, s[t as int])[0] == s[a as int].sort);
    let x = num(vals[0]);
    let y = num(vals[1]);
    let (ia, ib) = (s[a as int].sort == INT_SORT, s[b as int].sort == INT_SORT);
    assert(ia ==> is_whole(num(eval(s, i, a as int))));
    assert(ib ==> is_whole(num(eval(s, i, b as int))));
    let n = choose|n: int| whole(num(eval(s, i, a as int)), n);
    let m = choose|m: int| whole(num(eval(s, i, b as int)), m);
    assert(ia ==> x == n as real);
    assert(ib ==> y == m as real);
    if let Some(c) = int_literal(s, b) {
        lemma_eval(s, i, b);
        assert(y == c as int as real);
        lemma_strict(n, c);
    }
    if let Some(c) = int_literal(s, a) {
        lemma_eval(s, i, a);
        assert(x == c as int as real);
        lemma_strict(m, c);
    }
    let strict = s[t as int].op == Op::Gt || s[t as int].op == Op::Lt;
    let va = bounded_term(s, aliases, a);
    let vb = bounded_term(s, aliases, b);
    if va is Some {
        assert(ia ==> num(eval(s, i, va->0 as int)) == x);
    }
    if vb is Some {
        assert(ib ==> num(eval(s, i, vb->0 as int)) == y);
    }
    let ge = s[t as int].op == Op::Ge || s[t as int].op == Op::Gt;
    if let Some(c) = int_literal(s, b) {
        let lo = lower_from(c, strict);
        let hi = upper_from(c, strict);
        if s[t as int].op == Op::Eq {
            assert(ia ==> real_in_bounds((Some(c), Some(c)), x));
            if va is Some {
                lemma_tightened(s, i, bounds, va->0, Some(c), Some(c));
            }
        } else if ge {
            assert(ia ==> real_in_bounds((lo, None), x));
            if va is Some {
                lemma_tightened(s, i, bounds, va->0, lo, None);
            }
        } else {
            assert(ia ==> real_in_bounds((None, hi), x));
            if va is Some {
                lemma_tightened(s, i, bounds, va->0, None, hi);
                lemma_tightened(s, i, tightened(bounds, va->0, None, hi), a, None, hi);
            }
            lemma_tightened(s, i, bounds, a, None, hi);
        }
    }
    if let Some(c) = int_literal(s, a) {
        let lo = lower_from(c, strict);
        let hi = upper_from(c, strict);
        if s[t as int].op == Op::Eq {
            assert(ib ==> real_in_bounds((Some(c), Some(c)), y));
            if vb is Some {
                lemma_tightened(s, i, bounds, vb->0, Some(c), Some(c));
            }
        } else if ge {
            assert(ib ==> real_in_bounds((None, hi), y));
            if vb is Some {
                lemma_tightened(s, i, bounds, vb->0, None, hi);
            }
        } else {
            assert(ib ==> real_in_bounds((lo, None), y));
            if vb is Some {
                lemma_tightened(s, i, bounds, vb->0, lo, None);
                lemma_tightened(s, i, tightened(bounds, vb->0, lo, None), b, lo, None);
            }
            lemma_tightened(s, i, bounds, b, lo, None);
        }
    }
}

/// The bounds collected from an assertion follow from it, over the integers.
pub proof fn conjunctive_bounds_are_entailed(
    s: Seq<TermView>,
    i: Interp,
    aliases: Map<TermId, TermId>,
    bounds: Map<TermId, (Option<i64>, Option<i64>)>,
    t: TermId,
)
    requires
        terms_wf(s),
        t < s.len(),
        holds(s, i, t),
        integral(s, i),
        map_ok(s, aliases),
        same_numbers(s, i, aliases),
        bounds_hold(s, i, bounds),
    ensures
        bounds_hold(s, i, bounds_noted(s, aliases, bounds, t)),
    decreases t, s[t as int].args.len() + 1,
{
    assert(node_below(s, t as int));
    if s[t as int].op == Op::And {
        lemma_eval(s, i, t);
        let vals = eval_args(s, i, s[t as int].args);
        assert forall|j: int| 0 <= j < s[t as int].args.len() implies holds(
            s,
            i,
            #[trigger] s[t as int].args[j],
        ) by {
            assert(is_true(vals[j]));
        }
        lemma_conjuncts_noted(s, i, aliases, bounds, t, s[t as int].args.len() as int);
    } else if s[t as int].op == Op::Ge || s[t as int].op == Op::Gt || s[t as int].op == Op::Le
        || s[t as int].op == Op::Lt || s[t as int].op == Op::Eq {
        lemma_comparison_noted(s, i, aliases, bounds, t);
    }
}

proof fn lemma_conjuncts_noted(
    s: Seq<TermView>,
    i: Interp,
    aliases: Map<TermId, TermId>,
    bounds: Map<TermId, (Option<i64>, Option<i64>)>,
    t: TermId,
    k: int,
)
    requires
        terms_wf(s),
        t < s.len(),
        s[t as int].op == Op::And,
        0 <= k <= s[t as int].args.len(),
        forall|j: int|
            0 <= j < s[t as int].args.len() ==> holds(s, i, #[trigger] s[t as int].args[j]),
        integral(s, i),
        map_ok(s, aliases),
        same_numbers(s, i, aliases),
        bounds_hold(s, i, bounds),
    ensures
        bounds_hold(s, i, conjuncts_noted(s, aliases, bounds, t, k)),
    decreases t, k,
{
    assert(node_below(s, t as int));
    if k > 0 {
        lemma_conjuncts_noted(s, i, aliases, bounds, t, k - 1);
        assert(s[t as int].args[k - 1] < t);
        conjunctive_bounds_are_entailed(
            s,
            i,
            aliases,
            conjuncts_noted(s, aliases, bounds, t, k - 1),
            s[t as int].args[k - 1],
        );
    }
}

/// The range that an index is split over: that between its two bounds, where
/// it is narrow.
pub open spec fn domain_of(lo: Option<i64>, hi: Option<i64>) -> Option<(i64, i64)> {
    match (lo, hi) {
        (Some(l), Some(h)) => narrow(l as int, h as int),
        _ => None,
    }
}

/// A range that is not empty and not too wide.
pub open spec fn narrow(l: int, h: int) -> Option<(i64, i64)> {
    if l <= h && h - l <= MAX_EAGER_TABLE_DOMAIN {
        Some((l as i64, h as i64))
    } else {
        None
    }
}

fn narrow_range(l: i64, h: i64) -> (r: Option<(i64, i64)>)
    ensures
        r == narrow(l as int, h as int),
{
    if l > h {
        return None;
    }
    match h.checked_sub(l) {
        Some(w) => if w <= MAX_EAGER_TABLE_DOMAIN {
            Some((l, h))
        } else {
            None
        },
        None => None,
    }
}

/// The range that an index with the given bounds is split over.
pub fn index_domain(lo: Option<i64>, hi: Option<i64>) -> (r: Option<(i64, i64)>)
    ensures
        r == domain_of(lo, hi),
{
    match (lo, hi) {
        (Some(l), Some(h)) => narrow_range(l, h),
        _ => None,
    }
}

/// The literals are those of the equations between `t` and their constants,
/// which ascend.
pub open spec fn domain_pairs(
    s: Seq<TermView>,
    e: GoalView,
    t: TermId,
    pairs: Seq<(i64, Lit)>,
) -> bool {
    &&& t < s.len()
    &&& forall|j: int|
        0 <= j < pairs.len() ==> value_literal(
            s,
            e,
            t,
            (#[trigger] pairs[j]).0,
            pairs[j].1,
        )
    &&& forall|j: int, k: int|
        0 <= j < k < pairs.len() ==> (#[trigger] pairs[j]).0 < (#[trigger] pairs[k]).0
}

/// The pairs are those of the constants from `lo` to `hi`.
pub open spec fn range_pairs(pairs: Seq<(i64, Lit)>, lo: i64, hi: i64) -> bool {
    &&& pairs.len() == hi - lo + 1
    &&& forall|j: int| 0 <= j < pairs.len() ==> (#[trigger] pairs[j]).0 == lo + j
}

/// The value of `t` is one of the constants.
pub open spec fn in_domain(
    s: Seq<TermView>,
    i: Interp,
    t: TermId,
    pairs: Seq<(i64, Lit)>,
) -> bool {
    &&& numeric_sort(s[t as int].sort)
    &&& exists|j: int|
        0 <= j < pairs.len() && num(eval(s, i, t as int)) == (#[trigger] pairs[j]).0 as real
}

pub open spec fn pair_lits(pairs: Seq<(i64, Lit)>) -> Seq<Lit> {
    Seq::new(pairs.len(), |j: int| pairs[j].1)
}

/// The clause that says that not both are true.
pub open spec fn exclusion(a: Lit, b: Lit) -> Seq<Lit> {
    seq![a.negated(), b.negated()]
}

/// The clause that says that `b` is true where `a` is.
pub open spec fn implication(a: Lit, b: Lit) -> Seq<Lit> {
    seq![a.negated(), b]
}

/// The clauses from the `from`-th on are true.
pub open spec fn added_true(s: Seq<TermView>, e: GoalView, from: int, i: Interp) -> bool {
    forall|k: int|
        from <= k < e.clauses.len() ==> clause_true(s, i, e.term_of, #[trigger] e.clauses[k])
}

/// The clauses say that exactly one of the literals is true.
pub open spec fn one_of(clauses: Seq<Seq<Lit>>, lits: Seq<Lit>) -> bool {
    &&& clauses.contains(lits)
    &&& forall|j: int, k: int|
        0 <= j < k < lits.len() ==> clauses.contains(
            exclusion(#[trigger] lits[j], #[trigger] lits[k]),
        )
}

/// The clauses say that the literals of `a` are true where those of `b` are.
pub open spec fn linked(
    clauses: Seq<Seq<Lit>>,
    a: Seq<(i64, Lit)>,
    b: Seq<(i64, Lit)>,
) -> bool {
    &&& a.len() == b.len()
    &&& forall|j: int|
        0 <= j < a.len() ==> (#[trigger] a[j]).0 == b[j].0 && clauses.contains(
            implication(a[j].1, b[j].1),
        ) && clauses.contains(implication(b[j].1, a[j].1))
}

pub(crate) proof fn lemma_value_pair(
    s: Seq<TermView>,
    e: GoalView,
    i: Interp,
    t: TermId,
    pairs: Seq<(i64, Lit)>,
    j: int,
)
    requires
        terms_wf(s),
        domain_pairs(s, e, t, pairs),
        numeric_sort(s[t as int].sort),
        0 <= j < pairs.len(),
    ensures
        lit_true(s, i, e.term_of, pairs[j].1) == (num(eval(s, i, t as int)) == pairs[j].0 as real),
        lit_true(s, i, e.term_of, pairs[j].1.negated()) == !(num(eval(s, i, t as int))
            == pairs[j].0 as real),
{
    assert(value_literal(s, e, t, pairs[j].0, pairs[j].1));
    lemma_value_literal(s, e, i, t, pairs[j].0, pairs[j].1);
}

proof fn lemma_domain_pairs_extend(
    s0: Seq<TermView>,
    e0: GoalView,
    s1: Seq<TermView>,
    e1: GoalView,
    t: TermId,
    pairs: Seq<(i64, Lit)>,
)
    requires
        goal_inv(s0, e0),
        growth(s0, e0, s1, e1),
        domain_pairs(s0, e0, t, pairs),
    ensures
        domain_pairs(s1, e1, t, pairs),
{
    assert forall|j: int| 0 <= j < pairs.len() implies value_literal(
        s1,
        e1,
        t,
        (#[trigger] pairs[j]).0,
        pairs[j].1,
    ) by {
        lemma_value_literal_extend(
            s0,
            e0,
            s1,
            e1,
            t,
            pairs[j].0,
            pairs[j].1,
        );
    }
}

/// Clauses true before are true after, with those added.
pub(crate) proof fn lemma_added_trans(
    s0: Seq<TermView>,
    e0: GoalView,
    s1: Seq<TermView>,
    e1: GoalView,
    from: int,
    i: Interp,
)
    requires
        goal_inv(s0, e0),
        growth(s0, e0, s1, e1),
        0 <= from <= e0.clauses.len(),
        added_true(s0, e0, from, i),
        added_true(s1, e1, e0.clauses.len() as int, i),
    ensures
        added_true(s1, e1, from, i),
{
    assert forall|k: int| from <= k < e1.clauses.len() implies clause_true(
        s1,
        i,
        e1.term_of,
        #[trigger] e1.clauses[k],
    ) by {
        if k < e0.clauses.len() {
            assert(e1.clauses[k] == e0.clauses[k]);
            assert(clause_true(s0, i, e0.term_of, e0.clauses[k]));
            assert(lits_within(e0.clauses[k], e0.term_of.len() as int));
            lemma_clause_extend(s0, e0.term_of, s1, e1.term_of, i, e0.clauses[k]);
        }
    }
}

/// Encoding adds clauses that are always true.
proof fn lemma_good_added(s0: Seq<TermView>, e0: GoalView, s1: Seq<TermView>, e1: GoalView)
    requires
        good(s0, e0, s1, e1),
    ensures
        growth(s0, e0, s1, e1),
        forall|i: Interp|
            #[trigger] added_true(s1, e1, e0.clauses.len() as int, i),
{
    assert forall|i: Interp| #[trigger] added_true(
        s1,
        e1,
        e0.clauses.len() as int,
        i,
    ) by {
        assert forall|k: int| e0.clauses.len() <= k < e1.clauses.len() implies clause_true(
            s1,
            i,
            e1.term_of,
            #[trigger] e1.clauses[k],
        ) by {
            assert(crate::state::valid_clause(s1, e1.term_of, e1.clauses[k]));
        }
    }
}

pub(crate) proof fn lemma_contains_grow(a: Seq<Seq<Lit>>, b: Seq<Seq<Lit>>, c: Seq<Lit>)
    requires
        a.len() <= b.len(),
        forall|k: int| 0 <= k < a.len() ==> #[trigger] b[k] == a[k],
        a.contains(c),
    ensures
        b.contains(c),
{
    let k = choose|k: int| 0 <= k < a.len() && a[k] == c;
    assert(b[k] == c);
}

impl GoalState {
    /// Adds the clause `[a, b]`.
    fn add_pair(&mut self, Ghost(s): Ghost<Seq<TermView>>, a: Lit, b: Lit)
        requires
            goal_inv(s, old(self)@),
            a.var < old(self)@.term_of.len(),
            b.var < old(self)@.term_of.len(),
        ensures
            growth(s, old(self)@, s, final(self)@),
            final(self)@ == (GoalView {
                clauses: old(self)@.clauses.push(seq![a, b]),
                ..old(self)@
            }),
    {
        let ghost before = self@;
        let mut c: Vec<Lit> = Vec::new();
        c.push(a);
        c.push(b);
        assert(c@ =~= seq![a, b]);
        self.add_clause(c);
        proof {
            lemma_growth_clause(s, before, self@, seq![a, b]);
        }
    }

    /// Says that no two of the literals from the `j`-th on are true together
    /// with the `j`-th.
    fn exclude_with(&mut self, Ghost(s): Ghost<Seq<TermView>>, pairs: &Vec<(i64, Lit)>, j: usize)
        requires
            goal_inv(s, old(self)@),
            j < pairs@.len(),
            lits_within(pair_lits(pairs@), old(self)@.term_of.len() as int),
        ensures
            growth(s, old(self)@, s, final(self)@),
            final(self)@ == (GoalView { clauses: final(self)@.clauses, ..old(self)@ }),
            final(self)@.clauses.len() == old(self)@.clauses.len() + pairs@.len() - j - 1,
            forall|k: int|
                j < k < pairs@.len() ==> final(self)@.clauses[old(self)@.clauses.len() + k - j - 1]
                    == exclusion(pairs@[j as int].1, (#[trigger] pairs@[k]).1),
    {
        let ghost e0 = self@;
        let count: usize = pairs.len();
        let mut k: usize = j + 1;
        proof {
            lemma_growth_refl(s, e0);
        }
        while k < pairs.len()
            invariant
                j < k <= pairs.len(),
                j < pairs@.len(),
                growth(s, e0, s, self@),
                self@ == (GoalView { clauses: self@.clauses, ..e0 }),
                lits_within(pair_lits(pairs@), e0.term_of.len() as int),
                self@.clauses.len() == e0.clauses.len() + k - j - 1,
                forall|m: int|
                    j < m < k ==> self@.clauses[e0.clauses.len() + m - j - 1] == exclusion(
                        pairs@[j as int].1,
                        (#[trigger] pairs@[m]).1,
                    ),
            decreases pairs.len() - k,
        {
            let ghost e1 = self@;
            let a = pairs[j].1;
            let b = pairs[k].1;
            proof {
                assert(pair_lits(pairs@)[j as int] == a);
                assert(pair_lits(pairs@)[k as int] == b);
            }
            self.add_pair(Ghost(s), a.negate(), b.negate());
            proof {
                lemma_growth_trans(s, e0, s, e1, s, self@);
            }
            k = k + 1;
        }
    }

    /// Says that exactly one of the literals is true.
    fn assert_one_of(&mut self, Ghost(s): Ghost<Seq<TermView>>, t: TermId, pairs: &Vec<(i64, Lit)>)
        requires
            goal_inv(s, old(self)@),
            domain_pairs(s, old(self)@, t, pairs@),
        ensures
            growth(s, old(self)@, s, final(self)@),
            final(self)@ == (GoalView { clauses: final(self)@.clauses, ..old(self)@ }),
            one_of(final(self)@.clauses, pair_lits(pairs@)),
            forall|i: Interp|
                in_domain(s, i, t, pairs@) ==> #[trigger] added_true(
                    s,
                    final(self)@,
                    old(self)@.clauses.len() as int,
                    i,
                ),
    {
        let ghost e0 = self@;
        let ghost lits = pair_lits(pairs@);
        let mut some: Vec<Lit> = Vec::new();
        let mut n: usize = 0;
        while n < pairs.len()
            invariant
                n <= pairs.len(),
                some@.len() == n,
                forall|j: int| 0 <= j < n ==> #[trigger] some@[j] == pairs@[j].1,
            decreases pairs.len() - n,
        {
            some.push(pairs[n].1);
            n = n + 1;
        }
        proof {
            assert(some@ =~= lits);
            assert forall|j: int| 0 <= j < lits.len() implies (#[trigger] lits[j]).var
                < e0.term_of.len() by {
                assert(value_literal(s, e0, t, pairs@[j].0, pairs@[j].1));
            }
        }
        self.add_clause(some);
        let ghost e1 = self@;
        proof {
            lemma_growth_clause(s, e0, e1, lits);
            assert(e1.clauses[e0.clauses.len() as int] == lits);
            assert forall|i: Interp|
                in_domain(s, i, t, pairs@) implies #[trigger] added_true(
                s,
                e1,
                e0.clauses.len() as int,
                i,
            ) by {
                let j = choose|j: int|
                    0 <= j < pairs@.len() && num(eval(s, i, t as int)) == (
                    #[trigger] pairs@[j]).0 as real;
                lemma_value_pair(s, e0, i, t, pairs@, j);
                assert(lit_true(s, i, e0.term_of, lits[j]));
            }
        }
        let mut m: usize = 0;
        while m < pairs.len()
            invariant
                m <= pairs.len(),
                goal_inv(s, e0),
                lits == pair_lits(pairs@),
                lits_within(lits, e0.term_of.len() as int),
                domain_pairs(s, e0, t, pairs@),
                growth(s, e0, s, self@),
                self@ == (GoalView { clauses: self@.clauses, ..e0 }),
                self@.clauses.contains(lits),
                forall|j: int, k: int|
                    0 <= j < m && j < k < lits.len() ==> self@.clauses.contains(
                        exclusion(#[trigger] lits[j], #[trigger] lits[k]),
                    ),
                forall|i: Interp|
                    in_domain(s, i, t, pairs@) ==> #[trigger] added_true(
                        s,
                        self@,
                        e0.clauses.len() as int,
                        i,
                    ),
            decreases pairs.len() - m,
        {
            let ghost e2 = self@;
            self.exclude_with(Ghost(s), pairs, m);
            proof {
                let e3 = self@;
                lemma_growth_trans(s, e0, s, e2, s, e3);
                lemma_contains_grow(e2.clauses, e3.clauses, lits);
                assert forall|j: int, k: int|
                    0 <= j < m + 1 && j < k < lits.len() implies self@.clauses.contains(
                    exclusion(#[trigger] lits[j], #[trigger] lits[k]),
                ) by {
                    if j < m {
                        lemma_contains_grow(
                            e2.clauses,
                            e3.clauses,
                            exclusion(lits[j], lits[k]),
                        );
                    } else {
                        assert(pairs@[k].1 == lits[k]);
                        assert(e3.clauses[e2.clauses.len() + k - j - 1] == exclusion(
                            lits[j],
                            lits[k],
                        ));
                    }
                }
                assert forall|i: Interp|
                    in_domain(s, i, t, pairs@) implies #[trigger] added_true(
                    s,
                    e3,
                    e0.clauses.len() as int,
                    i,
                ) by {
                    assert(added_true(s, e2, e0.clauses.len() as int, i));
                    assert forall|x: int| e2.clauses.len() <= x < e3.clauses.len() implies clause_true(
                        s,
                        i,
                        e3.term_of,
                        #[trigger] e3.clauses[x],
                    ) by {
                        let k = x - e2.clauses.len() + m + 1;
                        let a = pairs@[m as int];
                        let b = pairs@[k];
                        assert(e3.clauses[x] == exclusion(a.1, b.1));
                        lemma_value_pair(s, e0, i, t, pairs@, m as int);
                        lemma_value_pair(s, e0, i, t, pairs@, k);
                        assert(a.0 < b.0);
                        let c = exclusion(a.1, b.1);
                        assert(c[0] == a.1.negated() && c[1] == b.1.negated());
                        assert(lit_true(s, i, e3.term_of, c[0]) || lit_true(s, i, e3.term_of, c[1]));
                    }
                    lemma_added_trans(s, e2, s, e3, e0.clauses.len() as int, i);
                }
            }
            m = m + 1;
        }
    }

    /// Splits a term over a range of values.
    pub(crate) fn split_domain(
        &mut self,
        store: &mut TermStore,
        t: TermId,
        lo: i64,
        hi: i64,
    ) -> (pairs: Vec<(i64, Lit)>)
        requires
            goal_inv(old(store).terms(), old(self)@),
            t < old(store).terms().len(),
            lo <= hi,
        ensures
            crate::constructors::grew(old(store), final(store)),
            growth(old(store).terms(), old(self)@, final(store).terms(), final(self)@),
            domain_pairs(final(store).terms(), final(self)@, t, pairs@),
            range_pairs(pairs@, lo, hi),
            one_of(final(self)@.clauses, pair_lits(pairs@)),
            forall|i: Interp|
                in_domain(
                    final(store).terms(),
                    i,
                    t,
                    pairs@,
                ) ==> #[trigger] added_true(
                    final(store).terms(),
                    final(self)@,
                    old(self)@.clauses.len() as int,
                    i,
                ),
    {
        let ghost s0 = store.terms();
        let ghost e0 = self@;
        let lits = self.value_literals(store, t, lo, hi);
        let ghost s1 = store.terms();
        let ghost e1 = self@;
        proof {
            lemma_good_added(s0, e0, s1, e1);
        }
        let mut pairs: Vec<(i64, Lit)> = Vec::new();
        let mut n: usize = 0;
        while n < lits.len()
            invariant
                n <= lits.len(),
                lo <= hi,
                case_clause(s1, e1, t, lo, hi, lits@),
                pairs@.len() == n,
                forall|j: int|
                    0 <= j < n ==> (#[trigger] pairs@[j]).0 == lo + j && pairs@[j].1 == lits@[j],
            decreases lits.len() - n,
        {
            let k: i64 = if n == 0 {
                lo
            } else {
                pairs[n - 1].0 + 1
            };
            pairs.push((k, lits[n]));
            n = n + 1;
        }
        proof {
            assert forall|j: int| 0 <= j < pairs@.len() implies value_literal(
                s1,
                e1,
                t,
                (#[trigger] pairs@[j]).0,
                pairs@[j].1,
            ) by {
                assert(value_literal(s1, e1, t, (lo + j) as i64, lits@[j]));
            }
        }
        self.assert_one_of(Ghost(s1), t, &pairs);
        proof {
            let e2 = self@;
            lemma_growth_trans(s0, e0, s1, e1, s1, e2);
            assert forall|i: Interp|
                in_domain(s1, i, t, pairs@) implies #[trigger] added_true(
                s1,
                e2,
                e0.clauses.len() as int,
                i,
            ) by {
                assert(added_true(s1, e1, e0.clauses.len() as int, i));
                assert(added_true(s1, e2, e1.clauses.len() as int, i));
                lemma_added_trans(s1, e1, s1, e2, e0.clauses.len() as int, i);
            }
        }
        pairs
    }

    /// Gives a term the literals of another that has the same value.
    pub(crate) fn bridge_domain(
        &mut self,
        store: &mut TermStore,
        idx: TermId,
        rep: TermId,
        rep_pairs: &Vec<(i64, Lit)>,
    ) -> (pairs: Vec<(i64, Lit)>)
        requires
            goal_inv(old(store).terms(), old(self)@),
            idx < old(store).terms().len(),
            domain_pairs(old(store).terms(), old(self)@, rep, rep_pairs@),
        ensures
            crate::constructors::grew(old(store), final(store)),
            growth(old(store).terms(), old(self)@, final(store).terms(), final(self)@),
            domain_pairs(final(store).terms(), final(self)@, idx, pairs@),
            linked(final(self)@.clauses, pairs@, rep_pairs@),
            forall|i: Interp|
                numeric_sort(
                    final(store).terms()[idx as int].sort,
                ) && numeric_sort(final(store).terms()[rep as int].sort) && num(
                    eval(final(store).terms(), i, idx as int),
                ) == num(eval(final(store).terms(), i, rep as int)) ==> #[trigger] added_true(
                    final(store).terms(),
                    final(self)@,
                    old(self)@.clauses.len() as int,
                    i,
                ),
    {
        let ghost s0 = store.terms();
        let ghost e0 = self@;
        let mut pairs: Vec<(i64, Lit)> = Vec::new();
        let mut n: usize = 0;
        proof {
            lemma_growth_refl(s0, e0);
        }
        while n < rep_pairs.len()
            invariant
                n <= rep_pairs.len(),
                s0 == old(store).terms(),
                e0 == old(self)@,
                goal_inv(s0, e0),
                idx < s0.len(),
                domain_pairs(s0, e0, rep, rep_pairs@),
                crate::constructors::grew(old(store), store),
                growth(s0, e0, store.terms(), self@),
                domain_pairs(store.terms(), self@, idx, pairs@),
                pairs@.len() == n,
                forall|j: int|
                    0 <= j < n ==> (#[trigger] pairs@[j]).0 == rep_pairs@[j].0
                        && self@.clauses.contains(implication(pairs@[j].1, rep_pairs@[j].1))
                        && self@.clauses.contains(implication(rep_pairs@[j].1, pairs@[j].1)),
                forall|i: Interp|
                    numeric_sort(store.terms()[idx as int].sort)
                        && numeric_sort(store.terms()[rep as int].sort) && num(
                        eval(store.terms(), i, idx as int),
                    ) == num(eval(store.terms(), i, rep as int)) ==> #[trigger] added_true(
                        store.terms(),
                        self@,
                        e0.clauses.len() as int,
                        i,
                    ),
            decreases rep_pairs.len() - n,
        {
            let ghost s1 = store.terms();
            let ghost e1 = self@;
            let ghost pairs1 = pairs@;
            let (k, lit_rep) = rep_pairs[n];
            let lits = self.value_literals(store, idx, k, k);
            let ghost s2 = store.terms();
            let ghost e2 = self@;
            let lit_idx = lits[0];
            proof {
                lemma_good_added(s1, e1, s2, e2);
                lemma_growth_trans(s0, e0, s1, e1, s2, e2);
                lemma_domain_pairs_extend(s1, e1, s2, e2, idx, pairs1);
                lemma_domain_pairs_extend(s0, e0, s2, e2, rep, rep_pairs@);
                assert(value_literal(s2, e2, idx, (k + 0) as i64, lits@[0]));
                assert(value_literal(s2, e2, rep, rep_pairs@[n as int].0, lit_rep));
            }
            self.add_pair(Ghost(s2), lit_rep.negate(), lit_idx);
            let ghost e3 = self@;
            self.add_pair(Ghost(s2), lit_idx.negate(), lit_rep);
            pairs.push((k, lit_idx));
            proof {
                let e4 = self@;
                lemma_growth_trans(s0, e0, s2, e2, s2, e3);
                lemma_growth_trans(s0, e0, s2, e3, s2, e4);
                lemma_growth_trans(s2, e2, s2, e3, s2, e4);
                assert(e4.clauses[e2.clauses.len() as int] == implication(lit_rep, lit_idx));
                assert(e4.clauses[e3.clauses.len() as int] == implication(lit_idx, lit_rep));
                assert forall|j: int, m: int| 0 <= j < m < pairs@.len() implies (
                #[trigger] pairs@[j]).0 < (#[trigger] pairs@[m]).0 by {
                    if m == n {
                        assert(pairs1[j].0 == rep_pairs@[j].0);
                        assert(rep_pairs@[j].0 < rep_pairs@[n as int].0);
                    }
                }
                assert forall|j: int| 0 <= j < pairs@.len() implies value_literal(
                    s2,
                    e4,
                    idx,
                    (#[trigger] pairs@[j]).0,
                    pairs@[j].1,
                ) by {
                    if j < n {
                        assert(pairs@[j] == pairs1[j]);
                    }
                }
                assert forall|j: int| 0 <= j < n + 1 implies (#[trigger] pairs@[j]).0
                    == rep_pairs@[j].0 && e4.clauses.contains(
                    implication(pairs@[j].1, rep_pairs@[j].1),
                ) && e4.clauses.contains(implication(rep_pairs@[j].1, pairs@[j].1)) by {
                    if j < n {
                        assert(pairs@[j] == pairs1[j]);
                        lemma_growth_trans(s1, e1, s2, e2, s2, e4);
                        lemma_contains_grow(
                            e1.clauses,
                            e4.clauses,
                            implication(pairs1[j].1, rep_pairs@[j].1),
                        );
                        lemma_contains_grow(
                            e1.clauses,
                            e4.clauses,
                            implication(rep_pairs@[j].1, pairs1[j].1),
                        );
                    }
                }
                assert forall|i: Interp|
                    numeric_sort(s2[idx as int].sort) && numeric_sort(
                        s2[rep as int].sort,
                    ) && num(eval(s2, i, idx as int)) == num(
                        eval(s2, i, rep as int),
                    ) implies #[trigger] added_true(s2, e4, e0.clauses.len() as int, i) by {
                    crate::semantics::lemma_extend(s1, s2, i, idx);
                    crate::semantics::lemma_extend(s1, s2, i, rep);
                    assert(s2[idx as int] == s1[idx as int] && s2[rep as int] == s1[rep as int]);
                    assert(added_true(s1, e1, e0.clauses.len() as int, i));
                    assert(added_true(s2, e2, e1.clauses.len() as int, i));
                    lemma_added_trans(s1, e1, s2, e2, e0.clauses.len() as int, i);
                    lemma_value_literal(s2, e2, i, idx, k, lit_idx);
                    lemma_value_literal(s2, e2, i, rep, k, lit_rep);
                    let c1 = implication(lit_rep, lit_idx);
                    let c2 = implication(lit_idx, lit_rep);
                    assert(c1[0] == lit_rep.negated() && c1[1] == lit_idx);
                    assert(c2[0] == lit_idx.negated() && c2[1] == lit_rep);
                    assert(lit_true(s2, i, e4.term_of, c1[0]) || lit_true(s2, i, e4.term_of, c1[1]));
                    assert(lit_true(s2, i, e4.term_of, c2[0]) || lit_true(s2, i, e4.term_of, c2[1]));
                    assert(added_true(s2, e4, e2.clauses.len() as int, i));
                    lemma_added_trans(s2, e2, s2, e4, e0.clauses.len() as int, i);
                }
            }
            n = n + 1;
        }
        pairs
    }
}

/// The bounds that the first `n` assertions give.
pub open spec fn asserted_bounds(
    s: Seq<TermView>,
    aliases: Map<TermId, TermId>,
    assertions: Seq<TermId>,
    n: int,
) -> Map<TermId, (Option<i64>, Option<i64>)>
    decreases n,
{
    if n <= 0 {
        Map::empty()
    } else {
        bounds_noted(s, aliases, asserted_bounds(s, aliases, assertions, n - 1), assertions[n - 1])
    }
}

/// A bound on `t` is one on the index with the name `rep`.
pub open spec fn concerns(reps: Map<TermId, TermId>, rep: TermId, t: TermId) -> bool {
    t == rep || named(reps, t) == rep
}

/// `lo` is the greatest lower bound on the index with the name `rep`.
pub open spec fn tightest_lower(
    bounds: Map<TermId, (Option<i64>, Option<i64>)>,
    reps: Map<TermId, TermId>,
    rep: TermId,
    lo: Option<i64>,
) -> bool {
    &&& forall|t: TermId| #[trigger]
        bounds.contains_key(t) && concerns(reps, rep, t) && bounds[t].0 is Some ==> lo is Some
            && bounds[t].0->0 <= lo->0
    &&& lo is Some ==> exists|t: TermId| #[trigger]
        bounds.contains_key(t) && concerns(reps, rep, t) && bounds[t].0 == lo
}

/// `hi` is the least upper bound on the index with the name `rep`.
pub open spec fn tightest_upper(
    bounds: Map<TermId, (Option<i64>, Option<i64>)>,
    reps: Map<TermId, TermId>,
    rep: TermId,
    hi: Option<i64>,
) -> bool {
    &&& forall|t: TermId| #[trigger]
        bounds.contains_key(t) && concerns(reps, rep, t) && bounds[t].1 is Some ==> hi is Some
            && hi->0 <= bounds[t].1->0
    &&& hi is Some ==> exists|t: TermId| #[trigger]
        bounds.contains_key(t) && concerns(reps, rep, t) && bounds[t].1 == hi
}

/// `t` is an index with the name `rep`.
pub open spec fn index_named(tables: &TableState, rep: TermId, t: TermId) -> bool {
    tables.table_index_terms@.contains(t) && named(tables.unit_eq_rep@, t) == rep
}

/// The indices with the name `rep` are split over the values from `lo` to `hi`.
pub open spec fn index_range(
    s: Seq<TermView>,
    tables: &TableState,
    bounds: Map<TermId, (Option<i64>, Option<i64>)>,
    rep: TermId,
    lo: i64,
    hi: i64,
) -> bool {
    &&& s[rep as int].sort == INT_SORT
    &&& lo <= hi && hi - lo <= MAX_EAGER_TABLE_DOMAIN
    &&& tightest_lower(bounds, tables.unit_eq_rep@, rep, Some(lo))
    &&& tightest_upper(bounds, tables.unit_eq_rep@, rep, Some(hi))
}

/// The range of an integer index follows from its bounds.
pub proof fn bounded_domain_is_entailed(
    s: Seq<TermView>,
    i: Interp,
    tables: &TableState,
    bounds: Map<TermId, (Option<i64>, Option<i64>)>,
    rep: TermId,
    lo: i64,
    hi: i64,
    pairs: Seq<(i64, Lit)>,
)
    requires
        rep < s.len(),
        tables.wf(s),
        integral(s, i),
        same_numbers(s, i, tables.unit_eq_rep@),
        bounds_hold(s, i, bounds),
        index_range(s, tables, bounds, rep, lo, hi),
        range_pairs(pairs, lo, hi),
    ensures
        in_domain(s, i, rep, pairs),
{
    let reps = tables.unit_eq_rep@;
    let a = choose|t: TermId| #[trigger]
        bounds.contains_key(t) && concerns(reps, rep, t) && bounds[t].0 == Some(lo);
    let b = choose|t: TermId| #[trigger]
        bounds.contains_key(t) && concerns(reps, rep, t) && bounds[t].1 == Some(hi);
    assert(real_in_bounds(bounds[a], num(eval(s, i, a as int))));
    assert(real_in_bounds(bounds[b], num(eval(s, i, b as int))));
    assert(num(eval(s, i, a as int)) == num(eval(s, i, rep as int)));
    assert(num(eval(s, i, b as int)) == num(eval(s, i, rep as int)));
    assert(is_whole(num(eval(s, i, rep as int))));
    let n = choose|n: int| whole(num(eval(s, i, rep as int)), n);
    assert(lo <= n <= hi);
    assert(pairs[n - lo].0 == n);
}

/// The recorded literals are those of the terms they are recorded for.
pub open spec fn domains_inv(s: Seq<TermView>, e: GoalView, tables: &TableState) -> bool {
    forall|t: TermId| #[trigger]
        tables.table_index_domain_eqs@.contains_key(t) ==> domain_pairs(
            s,
            e,
            t,
            tables.table_index_domain_eqs@[t]@,
        ) && tables.case_split_terms@.contains(t)
}

/// Each term with a domain has a value of its domain.
pub open spec fn domains_hold(s: Seq<TermView>, i: Interp, tables: &TableState) -> bool {
    forall|t: TermId| #[trigger]
        tables.table_index_domain_eqs@.contains_key(t) ==> in_domain(
            s,
            i,
            t,
            tables.table_index_domain_eqs@[t]@,
        )
}

/// What adding domains leaves as it is.
pub open spec fn domains_grown(before: &TableState, after: &TableState) -> bool {
    &&& *after == (TableState {
        table_index_domain_eqs: after.table_index_domain_eqs,
        case_split_terms: after.case_split_terms,
        ..*before
    })
    &&& forall|t: TermId| #[trigger]
        before.table_index_domain_eqs@.contains_key(t)
            ==> after.table_index_domain_eqs@.contains_key(t)
            && after.table_index_domain_eqs@[t] == before.table_index_domain_eqs@[t]
    &&& forall|t: TermId| #[trigger]
        before.case_split_terms@.contains(t) ==> after.case_split_terms@.contains(t)
    &&& forall|t: TermId| #[trigger]
        after.case_split_terms@.contains(t) ==> before.case_split_terms@.contains(t)
            || after.table_index_domain_eqs@.contains_key(t)
}

/// The clauses added are true wherever the domains hold.
pub open spec fn domain_clauses_true(
    s: Seq<TermView>,
    e: GoalView,
    from: int,
    tables: &TableState,
) -> bool {
    forall|i: Interp|
        domains_hold(s, i, tables) && same_numbers(s, i, tables.unit_eq_rep@)
            ==> #[trigger] added_true(s, e, from, i)
}

pub(crate) proof fn lemma_domains_trans(a: &TableState, b: &TableState, c: &TableState)
    requires
        domains_grown(a, b),
        domains_grown(b, c),
    ensures
        domains_grown(a, c),
{
    assert forall|t: TermId| #[trigger] c.case_split_terms@.contains(t) implies a.case_split_terms@.contains(
        t,
    ) || c.table_index_domain_eqs@.contains_key(t) by {
        if !c.table_index_domain_eqs@.contains_key(t) {
            assert(b.case_split_terms@.contains(t));
            if b.table_index_domain_eqs@.contains_key(t) {
                assert(c.table_index_domain_eqs@.contains_key(t));
            }
        }
    }
    assert forall|t: TermId| #[trigger]
        a.table_index_domain_eqs@.contains_key(t) implies c.table_index_domain_eqs@.contains_key(t)
        && c.table_index_domain_eqs@[t] == a.table_index_domain_eqs@[t] by {
        assert(b.table_index_domain_eqs@.contains_key(t));
    }
    assert forall|t: TermId| #[trigger]
        a.case_split_terms@.contains(t) implies c.case_split_terms@.contains(t) by {
        assert(b.case_split_terms@.contains(t));
    }
}

proof fn lemma_domains_inv_extend(
    s0: Seq<TermView>,
    e0: GoalView,
    s1: Seq<TermView>,
    e1: GoalView,
    tables: &TableState,
)
    requires
        goal_inv(s0, e0),
        growth(s0, e0, s1, e1),
        domains_inv(s0, e0, tables),
    ensures
        domains_inv(s1, e1, tables),
{
    assert forall|t: TermId| #[trigger]
        tables.table_index_domain_eqs@.contains_key(t) implies domain_pairs(
        s1,
        e1,
        t,
        tables.table_index_domain_eqs@[t]@,
    ) && tables.case_split_terms@.contains(t) by {
        lemma_domain_pairs_extend(s0, e0, s1, e1, t, tables.table_index_domain_eqs@[t]@);
    }
}

/// Clauses true under the domains so far, and clauses true under those after,
/// are true under those after.
pub(crate) proof fn lemma_domain_clauses_trans(
    s0: Seq<TermView>,
    e0: GoalView,
    t0: &TableState,
    s1: Seq<TermView>,
    e1: GoalView,
    t1: &TableState,
    from: int,
)
    requires
        goal_inv(s0, e0),
        growth(s0, e0, s1, e1),
        0 <= from <= e0.clauses.len(),
        domains_grown(t0, t1),
        domains_inv(s0, e0, t0),
        crate::walk::map_ok(s0, t0.unit_eq_rep@),
        domain_clauses_true(s0, e0, from, t0),
        domain_clauses_true(s1, e1, e0.clauses.len() as int, t1),
    ensures
        domain_clauses_true(s1, e1, from, t1),
{
    assert forall|i: Interp|
        domains_hold(s1, i, t1) && same_numbers(
            s1,
            i,
            t1.unit_eq_rep@,
        ) implies #[trigger] added_true(s1, e1, from, i) by {
        assert forall|t: TermId| #[trigger]
            t0.table_index_domain_eqs@.contains_key(t) implies in_domain(
            s0,
            i,
            t,
            t0.table_index_domain_eqs@[t]@,
        ) by {
            assert(t1.table_index_domain_eqs@.contains_key(t));
            assert(domain_pairs(s0, e0, t, t0.table_index_domain_eqs@[t]@));
            crate::semantics::lemma_extend(s0, s1, i, t);
            assert(s1[t as int] == s0[t as int]);
        }
        assert forall|k: TermId| #[trigger]
            t0.unit_eq_rep@.contains_key(k) && numeric_sort(s0[k as int].sort) implies num(
            eval(s0, i, k as int),
        ) == num(eval(s0, i, t0.unit_eq_rep@[k] as int)) by {
            assert(t1.unit_eq_rep@.contains_key(k));
            crate::semantics::lemma_extend(s0, s1, i, k);
            crate::semantics::lemma_extend(s0, s1, i, t0.unit_eq_rep@[k]);
        }
        assert(added_true(s0, e0, from, i));
        assert(added_true(s1, e1, e0.clauses.len() as int, i));
        lemma_added_trans(s0, e0, s1, e1, from, i);
    }
}

impl GoalState {
    /// Gives an index the domain of its name, unless it has one.
    pub fn bridge_index_to_rep(
        &mut self,
        tables: &mut TableState,
        store: &mut TermStore,
        idx: TermId,
        rep: TermId,
    )
        requires
            goal_inv(old(store).terms(), old(self)@),
            old(tables).wf(old(store).terms()),
            domains_inv(old(store).terms(), old(self)@, old(tables)),
            idx < old(store).terms().len(),
            old(tables).table_index_domain_eqs@.contains_key(rep),
            named(old(tables).unit_eq_rep@, idx) == rep,
        ensures
            crate::constructors::grew(old(store), final(store)),
            growth(old(store).terms(), old(self)@, final(store).terms(), final(self)@),
            final(tables).wf(final(store).terms()),
            domains_inv(final(store).terms(), final(self)@, final(tables)),
            domains_grown(old(tables), final(tables)),
            domain_clauses_true(
                final(store).terms(),
                final(self)@,
                old(self)@.clauses.len() as int,
                final(tables),
            ),
            old(tables).case_split_terms@.contains(idx) ==> *final(tables) == *old(tables)
                && final(self)@ == old(self)@,
            !old(tables).case_split_terms@.contains(idx) ==> final(tables).table_index_domain_eqs@.dom() == old(tables).table_index_domain_eqs@.dom().insert(idx)
                && linked(
                final(self)@.clauses,
                final(tables).table_index_domain_eqs@[idx]@,
                old(tables).table_index_domain_eqs@[rep]@,
            ),
    {
        let ghost s0 = store.terms();
        let ghost e0 = self@;
        proof {
            lemma_growth_refl(s0, e0);
        }
        if set_contains(&tables.case_split_terms, idx) {
            return;
        }
        let rep_pairs: Vec<(i64, Lit)> = match map_get(&tables.table_index_domain_eqs, rep) {
            Some(v) => crate::collections::copy_words(v),
            None => Vec::new(),
        };
        let pairs = self.bridge_domain(store, idx, rep, &rep_pairs);
        let ghost listed = pairs@;
        map_insert(&mut tables.table_index_domain_eqs, idx, pairs);
        set_insert(&mut tables.case_split_terms, idx);
        proof {
            let s1 = store.terms();
            let e1 = self@;
            assert(idx != rep) by {
                assert(old(tables).case_split_terms@.contains(rep));
            }
            old(tables).lemma_wf_extend(s0, s1);
            lemma_domains_inv_extend(s0, e0, s1, e1, old(tables));
            assert(tables.table_index_domain_eqs@.dom() =~= old(tables).table_index_domain_eqs@.dom().insert(idx));
            assert forall|i: Interp|
                domains_hold(s1, i, tables) && same_numbers(
                    s1,
                    i,
                    tables.unit_eq_rep@,
                ) implies #[trigger] added_true(s1, e1, e0.clauses.len() as int, i) by {
                assert(tables.table_index_domain_eqs@.contains_key(idx));
                assert(tables.table_index_domain_eqs@.contains_key(rep));
                assert(in_domain(s1, i, idx, tables.table_index_domain_eqs@[idx]@));
                assert(in_domain(s1, i, rep, tables.table_index_domain_eqs@[rep]@));
                assert(tables.unit_eq_rep@.contains_key(idx));
            }
        }
    }

    /// Splits a term over a range and records its literals.
    pub(crate) fn split_recorded(
        &mut self,
        tables: &mut TableState,
        store: &mut TermStore,
        rep: TermId,
        lo: i64,
        hi: i64,
    )
        requires
            goal_inv(old(store).terms(), old(self)@),
            old(tables).wf(old(store).terms()),
            domains_inv(old(store).terms(), old(self)@, old(tables)),
            rep < old(store).terms().len(),
            !old(tables).case_split_terms@.contains(rep),
            lo <= hi,
        ensures
            crate::constructors::grew(old(store), final(store)),
            growth(old(store).terms(), old(self)@, final(store).terms(), final(self)@),
            final(tables).wf(final(store).terms()),
            domains_inv(final(store).terms(), final(self)@, final(tables)),
            domains_grown(old(tables), final(tables)),
            domain_clauses_true(
                final(store).terms(),
                final(self)@,
                old(self)@.clauses.len() as int,
                final(tables),
            ),
            final(tables).table_index_domain_eqs@.dom() == old(tables).table_index_domain_eqs@.dom().insert(rep),
            range_pairs(final(tables).table_index_domain_eqs@[rep]@, lo, hi),
            one_of(
                final(self)@.clauses,
                pair_lits(final(tables).table_index_domain_eqs@[rep]@),
            ),
    {
        let ghost s0 = store.terms();
        let ghost e0 = self@;
        let pairs = self.split_domain(store, rep, lo, hi);
        let ghost listed = pairs@;
        map_insert(&mut tables.table_index_domain_eqs, rep, pairs);
        set_insert(&mut tables.case_split_terms, rep);
        proof {
            let s1 = store.terms();
            let e1 = self@;
            old(tables).lemma_wf_extend(s0, s1);
            lemma_domains_inv_extend(s0, e0, s1, e1, old(tables));
            assert(tables.table_index_domain_eqs@.dom() =~= old(tables).table_index_domain_eqs@.dom().insert(rep));
            assert forall|i: Interp|
                domains_hold(s1, i, tables) && same_numbers(
                    s1,
                    i,
                    tables.unit_eq_rep@,
                ) implies #[trigger] added_true(s1, e1, e0.clauses.len() as int, i) by {
                assert(tables.table_index_domain_eqs@.contains_key(rep));
                assert(in_domain(s1, i, rep, listed));
            }
        }
    }
}

/// How eagerly the search is to decide the literals of split domains.
pub struct DomainHints {
    /// Variables to bump, by how much; each is to be tried true first.
    pub bumps: Vec<(Var, u32)>,
    /// Variables to decide before all others, each with the total weight of
    /// its index and the weight of its constant.
    pub priority: Vec<(i64, i64, Var)>,
}

/// The greatest weight of the list, at least 1.
pub open spec fn greatest_weight(list: Seq<(i64, i64)>) -> i64
    decreases list.len(),
{
    if list.len() == 0 {
        1
    } else {
        let m = greatest_weight(list.drop_last());
        if list.last().1 > m {
            list.last().1
        } else {
            m
        }
    }
}

/// The sum of the weights of the list, held to the range of a word.
pub open spec fn total_weight(list: Seq<(i64, i64)>) -> i64
    decreases list.len(),
{
    if list.len() == 0 {
        0
    } else {
        crate::ite_table::saturated(total_weight(list.drop_last()) + list.last().1)
    }
}

/// By how much the literal of a constant is bumped: a base, and more the more
/// the constant weighs.
pub open spec fn bump_amount(domain: int, weight: i64, greatest: i64) -> int {
    (if domain <= 8 {
        48int
    } else {
        12int
    }) + (if weight <= 0 {
        0
    } else {
        weight * 128 / greatest as int
    })
}

/// How many of the constants are decided first.
pub open spec fn first_few(domain: int) -> int {
    if domain <= 8 {
        domain
    } else {
        10
    }
}

/// How many of the first `n` constants come before the `j`-th by weight.
pub open spec fn weight_rank(
    list: Seq<(i64, i64)>,
    pairs: Seq<(i64, Lit)>,
    j: int,
    n: int,
) -> int
    decreases n,
{
    if n <= 0 {
        0
    } else {
        let a = crate::ite_table::weight_in(list, pairs[n - 1].0);
        let b = crate::ite_table::weight_in(list, pairs[j].0);
        weight_rank(list, pairs, j, n - 1) + (if a > b || (a == b && n - 1 < j) {
            1int
        } else {
            0int
        })
    }
}

/// The heavier index first, then the heavier constant, then the earlier
/// variable.
pub open spec fn decided_before(a: (i64, i64, Var), b: (i64, i64, Var)) -> bool {
    a.0 > b.0 || (a.0 == b.0 && (a.1 > b.1 || (a.1 == b.1 && a.2 <= b.2)))
}

pub open spec fn in_decision_order(list: Seq<(i64, i64, Var)>) -> bool {
    forall|j: int, k: int| 0 <= j < k < list.len() ==> decided_before(#[trigger] list[j], #[trigger] list[k])
}

/// The hints cover the literals of a domain whose constants have the weights
/// listed.
pub open spec fn hinted(h: &DomainHints, list: Seq<(i64, i64)>, pairs: Seq<(i64, Lit)>) -> bool {
    forall|j: int|
        0 <= j < pairs.len() ==> {
            let w = crate::ite_table::weight_in(list, (#[trigger] pairs[j]).0);
            &&& exists|b: (Var, u32)| #[trigger]
                h.bumps@.contains(b) && b.0 == pairs[j].1.var && b.1 == bump_amount(
                    pairs.len() as int,
                    w,
                    greatest_weight(list),
                )
            &&& weight_rank(list, pairs, j, pairs.len() as int) < first_few(pairs.len() as int)
                ==> h.priority@.contains((total_weight(list), w, pairs[j].1.var))
        }
}

pub open spec fn hints_grown(a: &DomainHints, b: &DomainHints) -> bool {
    &&& forall|x: (Var, u32)| #[trigger] a.bumps@.contains(x) ==> b.bumps@.contains(x)
    &&& forall|x: (i64, i64, Var)| #[trigger] a.priority@.contains(x) ==> b.priority@.contains(x)
}

fn weight_of(list: &Vec<(i64, i64)>, k: i64) -> (w: i64)
    ensures
        w == crate::ite_table::weight_in(list@, k),
{
    let mut n: usize = 0;
    assert(list@.skip(0) =~= list@);
    while n < list.len()
        invariant
            n <= list.len(),
            crate::ite_table::weight_in(list@, k) == crate::ite_table::weight_in(
                list@.skip(n as int),
                k,
            ),
        decreases list.len() - n,
    {
        let ghost rest = list@.skip(n as int);
        assert(rest[0] == list@[n as int]);
        if list[n].0 == k {
            return list[n].1;
        }
        assert(rest.drop_first() =~= list@.skip(n + 1));
        n = n + 1;
    }
    0
}

fn weigh_list(list: &Vec<(i64, i64)>) -> (r: (i64, i64))
    ensures
        r.0 == greatest_weight(list@),
        r.1 == total_weight(list@),
        r.0 >= 1,
{
    let mut greatest: i64 = 1;
    let mut total: i64 = 0;
    let mut n: usize = 0;
    assert(list@.take(0).len() == 0);
    while n < list.len()
        invariant
            n <= list.len(),
            greatest == greatest_weight(list@.take(n as int)),
            total == total_weight(list@.take(n as int)),
            greatest >= 1,
        decreases list.len() - n,
    {
        let w: i64 = list[n].1;
        proof {
            let a = list@.take(n + 1);
            assert(a.drop_last() =~= list@.take(n as int));
            assert(a.last() == list@[n as int]);
        }
        if w > greatest {
            greatest = w;
        }
        total = crate::ite_table::saturating_sum(total, w);
        n = n + 1;
    }
    assert(list@.take(list@.len() as int) =~= list@);
    (greatest, total)
}

fn rank_of(list: &Vec<(i64, i64)>, pairs: &Vec<(i64, Lit)>, j: usize) -> (r: usize)
    requires
        j < pairs@.len(),
    ensures
        r == weight_rank(list@, pairs@, j as int, pairs@.len() as int),
{
    let b: i64 = weight_of(list, pairs[j].0);
    let mut rank: usize = 0;
    let mut n: usize = 0;
    while n < pairs.len()
        invariant
            n <= pairs.len(),
            j < pairs@.len(),
            b == crate::ite_table::weight_in(list@, pairs@[j as int].0),
            rank <= n,
            rank == weight_rank(list@, pairs@, j as int, n as int),
        decreases pairs.len() - n,
    {
        let a: i64 = weight_of(list, pairs[n].0);
        if a > b || (a == b && n < j) {
            rank = rank + 1;
        }
        n = n + 1;
    }
    rank
}

fn bump_for(domain: usize, weight: i64, greatest: i64) -> (r: u32)
    requires
        weight <= greatest,
        greatest >= 1,
    ensures
        r == bump_amount(domain as int, weight, greatest),
{
    let base: u32 = if domain <= 8 {
        48
    } else {
        12
    };
    if weight <= 0 {
        return base;
    }
    let extra: i128 = (weight as i128 * 128) / (greatest as i128);
    proof {
        assert(weight * 128 / greatest as int <= 128) by (nonlinear_arith)
            requires
                0 < weight <= greatest,
        ;
        assert(weight * 128 / greatest as int >= 0) by (nonlinear_arith)
            requires
                0 < weight <= greatest,
        ;
    }
    base + extra as u32
}

proof fn lemma_greatest(list: Seq<(i64, i64)>, k: i64)
    ensures
        crate::ite_table::weight_in(list, k) <= greatest_weight(list),
        greatest_weight(list) >= 1,
    decreases list.len(),
{
    if list.len() > 0 {
        lemma_greatest_all(list);
        lemma_weight_listed(list, k);
    }
}

proof fn lemma_greatest_all(list: Seq<(i64, i64)>)
    ensures
        forall|j: int| 0 <= j < list.len() ==> (#[trigger] list[j]).1 <= greatest_weight(list),
        greatest_weight(list) >= 1,
    decreases list.len(),
{
    if list.len() > 0 {
        lemma_greatest_all(list.drop_last());
        assert forall|j: int| 0 <= j < list.len() implies (#[trigger] list[j]).1
            <= greatest_weight(list) by {
            if j < list.len() - 1 {
                assert(list.drop_last()[j] == list[j]);
            }
        }
    }
}

proof fn lemma_weight_listed(list: Seq<(i64, i64)>, k: i64)
    ensures
        crate::ite_table::weight_in(list, k) == 0 || exists|j: int|
            0 <= j < list.len() && (#[trigger] list[j]).1 == crate::ite_table::weight_in(list, k),
    decreases list.len(),
{
    if list.len() > 0 && list[0].0 != k {
        let rest = list.drop_first();
        lemma_weight_listed(rest, k);
        if crate::ite_table::weight_in(list, k) != 0 {
            let j = choose|j: int|
                0 <= j < rest.len() && (#[trigger] rest[j]).1 == crate::ite_table::weight_in(
                    rest,
                    k,
                );
            assert(list[j + 1] == rest[j]);
        }
    }
}

/// Inserts a variable at its place in the order of decisions.
fn place_decision(list: &mut Vec<(i64, i64, Var)>, item: (i64, i64, Var))
    requires
        in_decision_order(old(list)@),
    ensures
        in_decision_order(final(list)@),
        forall|x: (i64, i64, Var)| #[trigger]
            final(list)@.contains(x) <==> old(list)@.contains(x) || x == item,
{
    let ghost first = list@;
    let mut p: usize = 0;
    while p < list.len() && (list[p].0 > item.0 || (list[p].0 == item.0 && (list[p].1 > item.1 || (
    list[p].1 == item.1 && list[p].2 <= item.2))))
        invariant
            p <= list.len(),
            list@ == first,
            forall|j: int| 0 <= j < p ==> decided_before(#[trigger] first[j], item),
        decreases list.len() - p,
    {
        p = p + 1;
    }
    list.insert(p, item);
    proof {
        assert(list@ =~= first.insert(p as int, item));
        assert forall|j: int, k: int| 0 <= j < k < list@.len() implies decided_before(
            #[trigger] list@[j],
            #[trigger] list@[k],
        ) by {
            let x = if j < p { j } else { j - 1 };
            let y = if k < p { k } else { k - 1 };
            if j == p {
                assert(first[y] == list@[k]);
                assert(!decided_before(first[p as int], item));
                if p < y {
                    assert(decided_before(first[p as int], first[y]));
                }
            } else if k == p {
                assert(first[x] == list@[j]);
            } else {
                assert(first[x] == list@[j] && first[y] == list@[k]);
                assert(decided_before(first[x], first[y]));
            }
        }
        assert forall|x: (i64, i64, Var)| #[trigger] list@.contains(x) <==> first.contains(x) || x
            == item by {
            if first.contains(x) {
                let j = choose|j: int| 0 <= j < first.len() && first[j] == x;
                let k = if j < p { j } else { j + 1 };
                assert(list@[k] == x);
            }
            assert(list@[p as int] == item);
            if list@.contains(x) && x != item {
                let k = choose|k: int| 0 <= k < list@.len() && list@[k] == x;
                let j = if k < p { k } else { k - 1 };
                assert(first[j] == x);
            }
        }
    }
}

impl DomainHints {
    pub fn new() -> (h: DomainHints)
        ensures
            h.bumps@.len() == 0,
            h.priority@.len() == 0,
            in_decision_order(h.priority@),
    {
        DomainHints { bumps: Vec::new(), priority: Vec::new() }
    }

    /// Adds the literals of a domain.
    fn add_domain(&mut self, list: &Vec<(i64, i64)>, pairs: &Vec<(i64, Lit)>)
        requires
            in_decision_order(old(self).priority@),
        ensures
            in_decision_order(final(self).priority@),
            hints_grown(old(self), final(self)),
            hinted(final(self), list@, pairs@),
    {
        let (greatest, total) = weigh_list(list);
        let few: usize = if pairs.len() <= 8 {
            pairs.len()
        } else {
            10
        };
        let ghost first = *self;
        let mut n: usize = 0;
        while n < pairs.len()
            invariant
                n <= pairs.len(),
                greatest == greatest_weight(list@),
                total == total_weight(list@),
                greatest >= 1,
                few == first_few(pairs@.len() as int),
                in_decision_order(self.priority@),
                hints_grown(&first, self),
                forall|j: int|
                    0 <= j < n ==> {
                        let w = crate::ite_table::weight_in(list@, (#[trigger] pairs@[j]).0);
                        &&& exists|b: (Var, u32)| #[trigger]
                            self.bumps@.contains(b) && b.0 == pairs@[j].1.var && b.1
                                == bump_amount(pairs@.len() as int, w, greatest)
                        &&& weight_rank(list@, pairs@, j, pairs@.len() as int) < few
                            ==> self.priority@.contains((total, w, pairs@[j].1.var))
                    },
            decreases pairs.len() - n,
        {
            let ghost before = *self;
            let (k, lit) = pairs[n];
            let w: i64 = weight_of(list, k);
            proof {
                lemma_greatest(list@, k);
            }
            let amount = bump_for(pairs.len(), w, greatest);
            self.bumps.push((lit.var, amount));
            if rank_of(list, pairs, n) < few {
                place_decision(&mut self.priority, (total, w, lit.var));
            }
            proof {
                assert forall|x: (Var, u32)| #[trigger] before.bumps@.contains(
                    x,
                ) implies self.bumps@.contains(x) by {
                    let j = choose|j: int| 0 <= j < before.bumps@.len() && before.bumps@[j] == x;
                    assert(self.bumps@[j] == x);
                }
                assert(self.bumps@[before.bumps@.len() as int] == (lit.var, amount));
                assert(self.bumps@.contains((lit.var, amount)));
                assert(hints_grown(&before, self));
                assert forall|j: int| 0 <= j < n + 1 implies {
                    let w = crate::ite_table::weight_in(list@, (#[trigger] pairs@[j]).0);
                    &&& exists|b: (Var, u32)| #[trigger]
                        self.bumps@.contains(b) && b.0 == pairs@[j].1.var && b.1 == bump_amount(
                            pairs@.len() as int,
                            w,
                            greatest,
                        )
                    &&& weight_rank(list@, pairs@, j, pairs@.len() as int) < few
                        ==> self.priority@.contains((total, w, pairs@[j].1.var))
                } by {
                    if j < n {
                        let w = crate::ite_table::weight_in(list@, pairs@[j].0);
                        let b = choose|b: (Var, u32)| #[trigger]
                            before.bumps@.contains(b) && b.0 == pairs@[j].1.var && b.1
                                == bump_amount(pairs@.len() as int, w, greatest);
                        assert(self.bumps@.contains(b));
                    }
                }
            }
            n = n + 1;
        }
    }
}

/// The names of the indices, ascending.
fn index_reps(tables: &TableState) -> (reps: Vec<TermId>)
    ensures
        forall|r: TermId| #[trigger]
            reps@.contains(r) <==> exists|t: TermId| #[trigger] index_named(tables, r, t),
{
    let indices = crate::collections::set_sorted_items(&tables.table_index_terms);
    let mut found: rustc_hash::FxHashSet<TermId> = crate::collections::set_new();
    let mut n: usize = 0;
    while n < indices.len()
        invariant
            n <= indices.len(),
            indices@.to_set() == tables.table_index_terms@,
            forall|r: TermId| #[trigger]
                found@.contains(r) ==> exists|t: TermId| #[trigger] index_named(tables, r, t),
            forall|j: int|
                0 <= j < n ==> found@.contains(
                    named(tables.unit_eq_rep@, #[trigger] indices@[j]),
                ),
        decreases indices.len() - n,
    {
        let t: TermId = indices[n];
        let rep: TermId = match map_get(&tables.unit_eq_rep, t) {
            Some(r) => *r,
            None => t,
        };
        proof {
            assert(indices@.contains(t));
            assert(indices@.to_set().contains(t));
            assert(index_named(tables, rep, t));
        }
        set_insert(&mut found, rep);
        n = n + 1;
    }
    let reps = crate::collections::set_sorted_items(&found);
    proof {
        assert forall|r: TermId| #[trigger] reps@.contains(r) <==> exists|t: TermId| #[trigger]
            index_named(tables, r, t) by {
            assert(reps@.contains(r) <==> reps@.to_set().contains(r));
            if exists|t: TermId| #[trigger] index_named(tables, r, t) {
                let t = choose|t: TermId| #[trigger] index_named(tables, r, t);
                assert(indices@.to_set().contains(t));
                let j = choose|j: int| 0 <= j < indices@.len() && indices@[j] == t;
                assert(found@.contains(named(tables.unit_eq_rep@, indices@[j])));
            }
        }
    }
    reps
}

/// The indices with a name, ascending.
fn indices_named(tables: &TableState, rep: TermId) -> (list: Vec<TermId>)
    ensures
        forall|t: TermId| #[trigger] list@.contains(t) <==> index_named(tables, rep, t),
{
    let indices = crate::collections::set_sorted_items(&tables.table_index_terms);
    let mut list: Vec<TermId> = Vec::new();
    let mut n: usize = 0;
    while n < indices.len()
        invariant
            n <= indices.len(),
            indices@.to_set() == tables.table_index_terms@,
            forall|t: TermId| #[trigger] list@.contains(t) ==> index_named(tables, rep, t),
            forall|j: int|
                0 <= j < n && index_named(tables, rep, #[trigger] indices@[j])
                    ==> list@.contains(indices@[j]),
        decreases indices.len() - n,
    {
        let t: TermId = indices[n];
        let ghost before = list@;
        let name: TermId = match map_get(&tables.unit_eq_rep, t) {
            Some(r) => *r,
            None => t,
        };
        proof {
            assert(indices@.contains(t));
            assert(indices@.to_set().contains(t));
        }
        if name == rep {
            list.push(t);
            proof {
                lemma_push_contains(before, t);
            }
        }
        n = n + 1;
    }
    proof {
        assert forall|t: TermId| index_named(tables, rep, t) implies list@.contains(t) by {
            assert(indices@.to_set().contains(t));
            let j = choose|j: int| 0 <= j < indices@.len() && indices@[j] == t;
            assert(index_named(tables, rep, indices@[j]));
        }
    }
    list
}

pub(crate) proof fn lemma_push_contains(list: Seq<TermId>, x: TermId)
    ensures
        forall|t: TermId| #[trigger] list.push(x).contains(t) <==> list.contains(t) || t == x,
{
    assert forall|t: TermId| #[trigger] list.push(x).contains(t) <==> list.contains(t) || t == x by {
        if list.contains(t) {
            let j = choose|j: int| 0 <= j < list.len() && list[j] == t;
            assert(list.push(x)[j] == t);
        }
        assert(list.push(x)[list.len() as int] == x);
    }
}

/// The tightest bounds on the indices with a name.
fn bounds_of_name(bounds: &Bounds, reps: &FxHashMap<TermId, TermId>, rep: TermId) -> (r: (
    Option<i64>,
    Option<i64>,
))
    ensures
        tightest_lower(bounds@, reps@, rep, r.0),
        tightest_upper(bounds@, reps@, rep, r.1),
{
    let terms = map_sorted_keys(bounds);
    let mut lo: Option<i64> = None;
    let mut hi: Option<i64> = None;
    let mut n: usize = 0;
    while n < terms.len()
        invariant
            n <= terms.len(),
            terms@.to_set() == bounds@.dom(),
            forall|j: int|
                0 <= j < n && concerns(reps@, rep, #[trigger] terms@[j]) && bounds@[terms@[j]].0
                    is Some ==> lo is Some && bounds@[terms@[j]].0->0 <= lo->0,
            lo is Some ==> exists|t: TermId| #[trigger]
                bounds@.contains_key(t) && concerns(reps@, rep, t) && bounds@[t].0 == lo,
            forall|j: int|
                0 <= j < n && concerns(reps@, rep, #[trigger] terms@[j]) && bounds@[terms@[j]].1
                    is Some ==> hi is Some && hi->0 <= bounds@[terms@[j]].1->0,
            hi is Some ==> exists|t: TermId| #[trigger]
                bounds@.contains_key(t) && concerns(reps@, rep, t) && bounds@[t].1 == hi,
        decreases terms.len() - n,
    {
        let t: TermId = terms[n];
        proof {
            assert(terms@.contains(t));
            assert(terms@.to_set().contains(t));
            assert(bounds@.contains_key(t));
        }
        let name: TermId = match map_get(reps, t) {
            Some(r) => *r,
            None => t,
        };
        if t == rep || name == rep {
            let (l, h) = match map_get(bounds, t) {
                Some(b) => *b,
                None => (None, None),
            };
            assert(concerns(reps@, rep, t) && bounds@[t] == (l, h));
            if let Some(x) = l {
                let better = match lo {
                    Some(y) => x > y,
                    None => true,
                };
                if better {
                    lo = Some(x);
                    assert(bounds@.contains_key(t) && concerns(reps@, rep, t) && bounds@[t].0 == lo);
                }
            }
            if let Some(x) = h {
                let better = match hi {
                    Some(y) => x < y,
                    None => true,
                };
                if better {
                    hi = Some(x);
                    assert(bounds@.contains_key(t) && concerns(reps@, rep, t) && bounds@[t].1 == hi);
                }
            }
        }
        n = n + 1;
    }
    proof {
        assert forall|t: TermId| #[trigger]
            bounds@.contains_key(t) && concerns(reps@, rep, t) implies (bounds@[t].0 is Some
            ==> lo is Some && bounds@[t].0->0 <= lo->0) && (bounds@[t].1 is Some ==> hi is Some
            && hi->0 <= bounds@[t].1->0) by {
            assert(terms@.to_set().contains(t));
            let j = choose|j: int| 0 <= j < terms@.len() && terms@[j] == t;
            assert(concerns(reps@, rep, terms@[j]));
        }
    }
    (lo, hi)
}

/// A domain that is recorded has a reason: it is the range of its name, or it
/// is linked to the domain of its name.
pub open spec fn domain_reason(
    s: Seq<TermView>,
    e: GoalView,
    tables: &TableState,
    bounds: Map<TermId, (Option<i64>, Option<i64>)>,
    t: TermId,
) -> bool {
    let pairs = tables.table_index_domain_eqs@[t]@;
    let name = named(tables.unit_eq_rep@, t);
    ||| exists|lo: i64, hi: i64| #[trigger]
        index_range(s, tables, bounds, t, lo, hi) && range_pairs(pairs, lo, hi) && one_of(
            e.clauses,
            pair_lits(pairs),
        )
    ||| tables.table_index_domain_eqs@.contains_key(name) && linked(
        e.clauses,
        pairs,
        tables.table_index_domain_eqs@[name]@,
    )
}

proof fn lemma_reason_grow(
    s0: Seq<TermView>,
    e0: GoalView,
    t0: &TableState,
    s1: Seq<TermView>,
    e1: GoalView,
    t1: &TableState,
    bounds: Map<TermId, (Option<i64>, Option<i64>)>,
    t: TermId,
)
    requires
        extends(s0, s1),
        t < s0.len(),
        domains_grown(t0, t1),
        e0.clauses.len() <= e1.clauses.len(),
        forall|k: int| 0 <= k < e0.clauses.len() ==> #[trigger] e1.clauses[k] == e0.clauses[k],
        t0.table_index_domain_eqs@.contains_key(t),
        domain_reason(s0, e0, t0, bounds, t),
    ensures
        domain_reason(s1, e1, t1, bounds, t),
{
    let pairs = t0.table_index_domain_eqs@[t]@;
    let name = named(t0.unit_eq_rep@, t);
    assert(t1.table_index_domain_eqs@[t]@ == pairs);
    if exists|lo: i64, hi: i64| #[trigger]
        index_range(s0, t0, bounds, t, lo, hi) && range_pairs(pairs, lo, hi) && one_of(
            e0.clauses,
            pair_lits(pairs),
        ) {
        let (lo, hi) = choose|lo: i64, hi: i64| #[trigger]
            index_range(s0, t0, bounds, t, lo, hi) && range_pairs(pairs, lo, hi) && one_of(
                e0.clauses,
                pair_lits(pairs),
            );
        let lits = pair_lits(pairs);
        lemma_contains_grow(e0.clauses, e1.clauses, lits);
        assert forall|j: int, k: int| 0 <= j < k < lits.len() implies e1.clauses.contains(
            exclusion(#[trigger] lits[j], #[trigger] lits[k]),
        ) by {
            lemma_contains_grow(e0.clauses, e1.clauses, exclusion(lits[j], lits[k]));
        }
        assert(index_range(s1, t1, bounds, t, lo, hi));
    } else {
        let b = t0.table_index_domain_eqs@[name]@;
        assert forall|j: int| 0 <= j < pairs.len() implies (#[trigger] pairs[j]).0 == b[j].0
            && e1.clauses.contains(implication(pairs[j].1, b[j].1)) && e1.clauses.contains(
            implication(b[j].1, pairs[j].1),
        ) by {
            lemma_contains_grow(e0.clauses, e1.clauses, implication(pairs[j].1, b[j].1));
            lemma_contains_grow(e0.clauses, e1.clauses, implication(b[j].1, pairs[j].1));
        }
        assert(t1.table_index_domain_eqs@.contains_key(name));
    }
}

/// Where the bounds, the aliases and the domains before are right, so are the
/// domains after.
pub open spec fn domains_entailed(
    s0: Seq<TermView>,
    t0: &TableState,
    s1: Seq<TermView>,
    t1: &TableState,
    bounds: Map<TermId, (Option<i64>, Option<i64>)>,
) -> bool {
    forall|i: Interp|
        integral(s1, i) && same_numbers(s1, i, t1.unit_eq_rep@) && bounds_hold(s0, i, bounds)
            && domains_hold(s1, i, t0) ==> #[trigger] domains_hold(s1, i, t1)
}

proof fn lemma_entailed_trans(
    s0: Seq<TermView>,
    t0: &TableState,
    s1: Seq<TermView>,
    t1: &TableState,
    s2: Seq<TermView>,
    t2: &TableState,
    bounds: Map<TermId, (Option<i64>, Option<i64>)>,
)
    requires
        terms_wf(s0),
        terms_wf(s1),
        terms_wf(s2),
        extends(s0, s1),
        extends(s1, s2),
        t0.wf(s0),
        t1.wf(s1),
        t1.unit_eq_rep == t0.unit_eq_rep,
        t2.unit_eq_rep == t0.unit_eq_rep,
        domains_entailed(s0, t0, s1, t1, bounds),
        domains_entailed(s1, t1, s2, t2, bounds),
    ensures
        domains_entailed(s0, t0, s2, t2, bounds),
{
    assert forall|i: Interp|
        integral(s2, i) && same_numbers(s2, i, t2.unit_eq_rep@) && bounds_hold(s0, i, bounds)
            && domains_hold(s2, i, t0) implies #[trigger] domains_hold(s2, i, t2) by {
        lemma_premises_shorter(s1, s2, t1, i);
        lemma_bounds_longer(s0, s1, i, bounds);
        t0.lemma_wf_extend(s0, s1);
        lemma_domains_between(s1, s2, t0, i);
        assert(domains_hold(s1, i, t1));
        lemma_domains_between(s1, s2, t1, i);
    }
}

/// Domains hold of a store as they do of one that continues it.
proof fn lemma_domains_between(s1: Seq<TermView>, s2: Seq<TermView>, t: &TableState, i: Interp)
    requires
        terms_wf(s1),
        terms_wf(s2),
        extends(s1, s2),
        t.wf(s1),
    ensures
        domains_hold(s1, i, t) == domains_hold(s2, i, t),
{
    assert forall|x: TermId| #[trigger]
        t.table_index_domain_eqs@.contains_key(x) implies in_domain(
        s1,
        i,
        x,
        t.table_index_domain_eqs@[x]@,
    ) == in_domain(s2, i, x, t.table_index_domain_eqs@[x]@) by {
        crate::semantics::lemma_extend(s1, s2, i, x);
        assert(s2[x as int] == s1[x as int]);
    }
}

proof fn lemma_premises_shorter(s1: Seq<TermView>, s2: Seq<TermView>, t: &TableState, i: Interp)
    requires
        terms_wf(s1),
        terms_wf(s2),
        extends(s1, s2),
        t.wf(s1),
        integral(s2, i),
        same_numbers(s2, i, t.unit_eq_rep@),
    ensures
        integral(s1, i),
        same_numbers(s1, i, t.unit_eq_rep@),
{
    assert forall|x: TermId| x < s1.len() && s1[x as int].sort == INT_SORT implies is_whole(
        num(#[trigger] eval(s1, i, x as int)),
    ) by {
        crate::semantics::lemma_extend(s1, s2, i, x);
        assert(s2[x as int] == s1[x as int]);
    }
    assert forall|k: TermId| #[trigger]
        t.unit_eq_rep@.contains_key(k) && numeric_sort(s1[k as int].sort) implies num(
        eval(s1, i, k as int),
    ) == num(eval(s1, i, t.unit_eq_rep@[k] as int)) by {
        crate::semantics::lemma_extend(s1, s2, i, k);
        crate::semantics::lemma_extend(s1, s2, i, t.unit_eq_rep@[k]);
    }
}

proof fn lemma_bounds_longer(
    s0: Seq<TermView>,
    s1: Seq<TermView>,
    i: Interp,
    bounds: Map<TermId, (Option<i64>, Option<i64>)>,
)
    requires
        terms_wf(s0),
        terms_wf(s1),
        extends(s0, s1),
        bounds_hold(s0, i, bounds),
    ensures
        bounds_hold(s1, i, bounds),
{
    assert forall|x: TermId| #[trigger] bounds.contains_key(x) implies x < s1.len() && (
    s1[x as int].sort == INT_SORT ==> real_in_bounds(bounds[x], num(eval(s1, i, x as int)))) by {
        crate::semantics::lemma_extend(s0, s1, i, x);
        assert(s1[x as int] == s0[x as int]);
    }
}

/// What recording domains adds: literals of the terms, clauses that are true
/// where the domains hold, domains that follow from the bounds, and a reason
/// for each domain.
pub open spec fn domain_step(
    s0: Seq<TermView>,
    e0: GoalView,
    t0: &TableState,
    s1: Seq<TermView>,
    e1: GoalView,
    t1: &TableState,
    bounds: Map<TermId, (Option<i64>, Option<i64>)>,
) -> bool {
    &&& growth(s0, e0, s1, e1)
    &&& t1.wf(s1)
    &&& domains_inv(s1, e1, t1)
    &&& domains_grown(t0, t1)
    &&& domain_clauses_true(s1, e1, e0.clauses.len() as int, t1)
    &&& domains_entailed(s0, t0, s1, t1, bounds)
    &&& forall|t: TermId| #[trigger]
        t1.table_index_domain_eqs@.contains_key(t) && !t0.table_index_domain_eqs@.contains_key(t)
            ==> domain_reason(s1, e1, t1, bounds, t)
}

proof fn lemma_domain_step_refl(
    s: Seq<TermView>,
    e: GoalView,
    t: &TableState,
    bounds: Map<TermId, (Option<i64>, Option<i64>)>,
)
    requires
        goal_inv(s, e),
        t.wf(s),
        domains_inv(s, e, t),
    ensures
        domain_step(s, e, t, s, e, t, bounds),
{
    lemma_growth_refl(s, e);
}

proof fn lemma_domain_step_trans(
    s0: Seq<TermView>,
    e0: GoalView,
    t0: &TableState,
    s1: Seq<TermView>,
    e1: GoalView,
    t1: &TableState,
    s2: Seq<TermView>,
    e2: GoalView,
    t2: &TableState,
    bounds: Map<TermId, (Option<i64>, Option<i64>)>,
)
    requires
        terms_wf(s0),
        t0.wf(s0),
        domain_step(s0, e0, t0, s1, e1, t1, bounds),
        domain_step(s1, e1, t1, s2, e2, t2, bounds),
    ensures
        domain_step(s0, e0, t0, s2, e2, t2, bounds),
{
    lemma_growth_trans(s0, e0, s1, e1, s2, e2);
    lemma_domains_trans(t0, t1, t2);
    lemma_domain_clauses_trans(s1, e1, t1, s2, e2, t2, e0.clauses.len() as int);
    lemma_entailed_trans(s0, t0, s1, t1, s2, t2, bounds);
    assert forall|t: TermId| #[trigger]
        t2.table_index_domain_eqs@.contains_key(t) && !t0.table_index_domain_eqs@.contains_key(
            t,
        ) implies domain_reason(s2, e2, t2, bounds, t) by {
        if t1.table_index_domain_eqs@.contains_key(t) {
            lemma_reason_grow(s1, e1, t1, s2, e2, t2, bounds, t);
        }
    }
}

/// All indices with the name are split.
pub open spec fn indices_split(tables: &TableState, rep: TermId) -> bool {
    forall|t: TermId| #[trigger] index_named(tables, rep, t) ==> tables.case_split_terms@.contains(t)
}

/// The name has a range.
pub open spec fn has_range(
    s: Seq<TermView>,
    tables: &TableState,
    bounds: Map<TermId, (Option<i64>, Option<i64>)>,
    rep: TermId,
) -> bool {
    exists|lo: i64, hi: i64| #[trigger] index_range(s, tables, bounds, rep, lo, hi)
}

/// The indices with the name have been dealt with.
pub open spec fn name_done(
    s: Seq<TermView>,
    before: &TableState,
    after: &TableState,
    bounds: Map<TermId, (Option<i64>, Option<i64>)>,
    rep: TermId,
) -> bool {
    &&& has_range(s, before, bounds, rep) && !before.case_split_terms@.contains(rep)
        ==> after.table_index_domain_eqs@.contains_key(rep) && indices_split(after, rep)
    &&& before.table_index_domain_eqs@.contains_key(rep) ==> indices_split(after, rep)
}

proof fn lemma_split_grow(t0: &TableState, t1: &TableState, rep: TermId)
    requires
        domains_grown(t0, t1),
        indices_split(t0, rep),
    ensures
        indices_split(t1, rep),
{
    assert forall|t: TermId| #[trigger] index_named(t1, rep, t) implies t1.case_split_terms@.contains(
        t,
    ) by {
        assert(index_named(t0, rep, t));
    }
}

/// What an index with a name was dealt with stays so, and counts from the
/// state before.
proof fn lemma_name_done(
    s0: Seq<TermView>,
    t0: &TableState,
    s1: Seq<TermView>,
    t1: &TableState,
    t2: &TableState,
    bounds: Map<TermId, (Option<i64>, Option<i64>)>,
    rep: TermId,
)
    requires
        extends(s0, s1),
        rep < s0.len(),
        domains_grown(t0, t1),
        domains_grown(t1, t2),
        name_done(s1, t1, t2, bounds, rep),
    ensures
        name_done(s0, t0, t2, bounds, rep),
{
    if has_range(s0, t0, bounds, rep) && !t0.case_split_terms@.contains(rep) {
        let (lo, hi) = choose|lo: i64, hi: i64| #[trigger] index_range(s0, t0, bounds, rep, lo, hi);
        assert(index_range(s1, t1, bounds, rep, lo, hi));
        if t1.case_split_terms@.contains(rep) {
            assert(t1.table_index_domain_eqs@.contains_key(rep));
            assert(t2.table_index_domain_eqs@.contains_key(rep));
        }
    }
    if t0.table_index_domain_eqs@.contains_key(rep) {
        assert(t1.table_index_domain_eqs@.contains_key(rep));
    }
}

proof fn lemma_name_done_grow(
    s0: Seq<TermView>,
    t0: &TableState,
    t1: &TableState,
    t2: &TableState,
    bounds: Map<TermId, (Option<i64>, Option<i64>)>,
    rep: TermId,
)
    requires
        domains_grown(t1, t2),
        name_done(s0, t0, t1, bounds, rep),
    ensures
        name_done(s0, t0, t2, bounds, rep),
{
    if indices_split(t1, rep) {
        lemma_split_grow(t1, t2, rep);
    }
    if t1.table_index_domain_eqs@.contains_key(rep) {
        assert(t2.table_index_domain_eqs@.contains_key(rep));
    }
}

/// The domain of `t` is linked to that of its name.
pub open spec fn name_linked(e: GoalView, tables: &TableState, t: TermId) -> bool {
    let name = named(tables.unit_eq_rep@, t);
    tables.table_index_domain_eqs@.contains_key(name) && linked(
        e.clauses,
        tables.table_index_domain_eqs@[t]@,
        tables.table_index_domain_eqs@[name]@,
    )
}

/// Each domain added is linked to that of its name, or the hints cover it.
pub open spec fn domains_hinted(
    t0: &TableState,
    e: GoalView,
    t1: &TableState,
    h: &DomainHints,
) -> bool {
    forall|t: TermId| #[trigger]
        t1.table_index_domain_eqs@.contains_key(t) && !t0.table_index_domain_eqs@.contains_key(t)
            ==> name_linked(e, t1, t) || hinted(
            h,
            scores_of(t1, t),
            t1.table_index_domain_eqs@[t]@,
        )
}

proof fn lemma_linked_grow(
    e0: GoalView,
    t0: &TableState,
    e1: GoalView,
    t1: &TableState,
    t: TermId,
)
    requires
        domains_grown(t0, t1),
        e0.clauses.len() <= e1.clauses.len(),
        forall|k: int| 0 <= k < e0.clauses.len() ==> #[trigger] e1.clauses[k] == e0.clauses[k],
        t0.table_index_domain_eqs@.contains_key(t),
        name_linked(e0, t0, t),
    ensures
        name_linked(e1, t1, t),
{
    let pairs = t0.table_index_domain_eqs@[t]@;
    let name = named(t0.unit_eq_rep@, t);
    let b = t0.table_index_domain_eqs@[name]@;
    assert forall|j: int| 0 <= j < pairs.len() implies (#[trigger] pairs[j]).0 == b[j].0
        && e1.clauses.contains(implication(pairs[j].1, b[j].1)) && e1.clauses.contains(
        implication(b[j].1, pairs[j].1),
    ) by {
        lemma_contains_grow(e0.clauses, e1.clauses, implication(pairs[j].1, b[j].1));
        lemma_contains_grow(e0.clauses, e1.clauses, implication(b[j].1, pairs[j].1));
    }
    assert(t1.table_index_domain_eqs@.contains_key(name));
}

proof fn lemma_hinted_grow(
    a: &DomainHints,
    b: &DomainHints,
    list: Seq<(i64, i64)>,
    pairs: Seq<(i64, Lit)>,
)
    requires
        hints_grown(a, b),
        hinted(a, list, pairs),
    ensures
        hinted(b, list, pairs),
{
    assert forall|j: int| 0 <= j < pairs.len() implies {
        let w = crate::ite_table::weight_in(list, (#[trigger] pairs[j]).0);
        &&& exists|x: (Var, u32)| #[trigger]
            b.bumps@.contains(x) && x.0 == pairs[j].1.var && x.1 == bump_amount(
                pairs.len() as int,
                w,
                greatest_weight(list),
            )
        &&& weight_rank(list, pairs, j, pairs.len() as int) < first_few(pairs.len() as int)
            ==> b.priority@.contains((total_weight(list), w, pairs[j].1.var))
    } by {
        let w = crate::ite_table::weight_in(list, pairs[j].0);
        let x = choose|x: (Var, u32)| #[trigger]
            a.bumps@.contains(x) && x.0 == pairs[j].1.var && x.1 == bump_amount(
                pairs.len() as int,
                w,
                greatest_weight(list),
            );
        assert(b.bumps@.contains(x));
    }
}

proof fn lemma_domains_hinted_trans(
    t0: &TableState,
    e1: GoalView,
    t1: &TableState,
    h1: &DomainHints,
    e2: GoalView,
    t2: &TableState,
    h2: &DomainHints,
)
    requires
        domains_grown(t1, t2),
        e1.clauses.len() <= e2.clauses.len(),
        forall|k: int| 0 <= k < e1.clauses.len() ==> #[trigger] e2.clauses[k] == e1.clauses[k],
        hints_grown(h1, h2),
        domains_hinted(t0, e1, t1, h1),
        domains_hinted(t1, e2, t2, h2),
    ensures
        domains_hinted(t0, e2, t2, h2),
{
    assert forall|t: TermId| #[trigger]
        t2.table_index_domain_eqs@.contains_key(t) && !t0.table_index_domain_eqs@.contains_key(
            t,
        ) implies name_linked(e2, t2, t) || hinted(
        h2,
        scores_of(t2, t),
        t2.table_index_domain_eqs@[t]@,
    ) by {
        if t1.table_index_domain_eqs@.contains_key(t) {
            if name_linked(e1, t1, t) {
                lemma_linked_grow(e1, t1, e2, t2, t);
            } else {
                lemma_hinted_grow(h1, h2, scores_of(t1, t), t1.table_index_domain_eqs@[t]@);
            }
        }
    }
}

impl GoalState {
    /// Gives every index with a name the domain of the name.
    fn bridge_all(
        &mut self,
        tables: &mut TableState,
        store: &mut TermStore,
        rep: TermId,
        list: &Vec<TermId>,
        Ghost(bounds): Ghost<Map<TermId, (Option<i64>, Option<i64>)>>,
    )
        requires
            goal_inv(old(store).terms(), old(self)@),
            old(tables).wf(old(store).terms()),
            domains_inv(old(store).terms(), old(self)@, old(tables)),
            old(tables).table_index_domain_eqs@.contains_key(rep),
            forall|t: TermId| #[trigger] list@.contains(t) <==> index_named(old(tables), rep, t),
        ensures
            crate::constructors::grew(old(store), final(store)),
            domain_step(
                old(store).terms(),
                old(self)@,
                old(tables),
                final(store).terms(),
                final(self)@,
                final(tables),
                bounds,
            ),
            indices_split(final(tables), rep),
            forall|t: TermId| #[trigger]
                final(tables).table_index_domain_eqs@.contains_key(t)
                    && !old(tables).table_index_domain_eqs@.contains_key(t) ==> name_linked(
                    final(self)@,
                    final(tables),
                    t,
                ),
    {
        let ghost s0 = store.terms();
        let ghost e0 = self@;
        let ghost t0 = *tables;
        let mut n: usize = 0;
        proof {
            lemma_domain_step_refl(s0, e0, tables, bounds);
        }
        while n < list.len()
            invariant
                n <= list.len(),
                s0 == old(store).terms(),
                e0 == old(self)@,
                t0 == *old(tables),
                t0.wf(s0),
                goal_inv(s0, e0),
                crate::constructors::grew(old(store), store),
                domain_step(s0, e0, &t0, store.terms(), self@, tables, bounds),
                t0.table_index_domain_eqs@.contains_key(rep),
                forall|t: TermId| #[trigger] list@.contains(t) <==> index_named(&t0, rep, t),
                forall|j: int| 0 <= j < n ==> tables.case_split_terms@.contains(#[trigger] list@[j]),
                forall|t: TermId| #[trigger]
                    tables.table_index_domain_eqs@.contains_key(t)
                        && !t0.table_index_domain_eqs@.contains_key(t) ==> name_linked(
                        self@,
                        tables,
                        t,
                    ),
            decreases list.len() - n,
        {
            let ghost s1 = store.terms();
            let ghost e1 = self@;
            let ghost t1 = *tables;
            let idx: TermId = list[n];
            proof {
                assert(list@.contains(idx));
                assert(index_named(&t0, rep, idx));
                assert(t1.table_index_domain_eqs@.contains_key(rep));
                assert(t1.case_split_terms@.contains(rep));
            }
            if idx != rep {
                self.bridge_index_to_rep(tables, store, idx, rep);
                proof {
                    let t2 = *tables;
                    let e2 = self@;
                    let s2 = store.terms();
                    lemma_linked_entailed(s1, &t1, s2, &t2, e2.clauses, bounds, idx, rep);
                    assert forall|t: TermId| #[trigger]
                        t2.table_index_domain_eqs@.contains_key(t)
                            && !t1.table_index_domain_eqs@.contains_key(t) implies domain_reason(
                        s2,
                        e2,
                        &t2,
                        bounds,
                        t,
                    ) by {
                        assert(t2.table_index_domain_eqs@.dom().contains(t));
                        assert(t == idx);
                        assert(t2.table_index_domain_eqs@.contains_key(rep));
                        assert(t2.table_index_domain_eqs@[rep] == t1.table_index_domain_eqs@[rep]);
                        assert(named(t2.unit_eq_rep@, t) == rep);
                    }
                    assert(tables.case_split_terms@.contains(idx)) by {
                        if !t1.case_split_terms@.contains(idx) {
                            assert(t2.table_index_domain_eqs@.dom().contains(idx));
                            assert(t2.table_index_domain_eqs@.contains_key(idx));
                        }
                    }
                    lemma_domain_step_trans(
                        s0,
                        e0,
                        &t0,
                        s1,
                        e1,
                        &t1,
                        store.terms(),
                        e2,
                        &t2,
                        bounds,
                    );
                    assert forall|t: TermId| #[trigger]
                        t2.table_index_domain_eqs@.contains_key(t)
                            && !t0.table_index_domain_eqs@.contains_key(t) implies name_linked(
                        e2,
                        &t2,
                        t,
                    ) by {
                        if t1.table_index_domain_eqs@.contains_key(t) {
                            lemma_linked_grow(e1, &t1, e2, &t2, t);
                        } else {
                            assert(t2.table_index_domain_eqs@.dom().contains(t));
                            assert(t == idx);
                            assert(t2.table_index_domain_eqs@[rep]
                                == t1.table_index_domain_eqs@[rep]);
                        }
                    }
                    assert forall|j: int| 0 <= j < n implies tables.case_split_terms@.contains(
                        #[trigger] list@[j],
                    ) by {
                        assert(t1.case_split_terms@.contains(list@[j]));
                    }
                }
            }
            n = n + 1;
        }
        proof {
            assert forall|t: TermId| #[trigger] index_named(
                tables,
                rep,
                t,
            ) implies tables.case_split_terms@.contains(t) by {
                assert(index_named(&t0, rep, t));
                assert(list@.contains(t));
                let j = choose|j: int| 0 <= j < list@.len() && list@[j] == t;
                assert(tables.case_split_terms@.contains(list@[j]));
            }
        }
    }

    /// Splits the indices with a name, where they have a range and are not
    /// split yet.
    fn split_name(
        &mut self,
        tables: &mut TableState,
        store: &mut TermStore,
        bounds: &Bounds,
        rep: TermId,
        hints: &mut DomainHints,
    )
        requires
            goal_inv(old(store).terms(), old(self)@),
            old(tables).wf(old(store).terms()),
            domains_inv(old(store).terms(), old(self)@, old(tables)),
            rep < old(store).terms().len(),
            in_decision_order(old(hints).priority@),
        ensures
            crate::constructors::grew(old(store), final(store)),
            domain_step(
                old(store).terms(),
                old(self)@,
                old(tables),
                final(store).terms(),
                final(self)@,
                final(tables),
                bounds@,
            ),
            name_done(old(store).terms(), old(tables), final(tables), bounds@, rep),
            in_decision_order(final(hints).priority@),
            hints_grown(old(hints), final(hints)),
            domains_hinted(old(tables), final(self)@, final(tables), final(hints)),
    {
        let ghost s0 = store.terms();
        let ghost e0 = self@;
        let ghost t0 = *tables;
        let ghost b = bounds@;
        let list = indices_named(tables, rep);
        proof {
            lemma_domain_step_refl(s0, e0, tables, b);
        }
        if set_contains(&tables.case_split_terms, rep) {
            let known = match map_get(&tables.table_index_domain_eqs, rep) {
                Some(_) => true,
                None => false,
            };
            if known {
                self.bridge_all(tables, store, rep, &list, Ghost(b));
            }
            return;
        }
        assert(!t0.table_index_domain_eqs@.contains_key(rep));
        let (lo, hi) = bounds_of_name(bounds, &tables.unit_eq_rep, rep);
        if store.nodes[rep].sort != INT_SORT {
            return;
        }
        match index_domain(lo, hi) {
            None => {
                proof {
                    assert(!has_range(s0, &t0, b, rep)) by {
                        if has_range(s0, &t0, b, rep) {
                            let (x, y) = choose|x: i64, y: i64| #[trigger]
                                index_range(s0, &t0, b, rep, x, y);
                            lemma_range_unique(s0, &t0, b, rep, x, y, lo, hi);
                        }
                    }
                }
            },
            Some((l, h)) => {
                assert(index_range(s0, &t0, b, rep, l, h));
                self.split_recorded(tables, store, rep, l, h);
                let ghost s1 = store.terms();
                let ghost e1 = self@;
                let ghost t1 = *tables;
                proof {
                    assert(t1.table_index_domain_eqs@.dom().contains(rep));
                    assert(index_range(s1, &t1, b, rep, l, h));
                    lemma_range_entailed(s0, &t0, s1, &t1, b, rep, l, h);
                    assert forall|t: TermId| #[trigger]
                        t1.table_index_domain_eqs@.contains_key(t)
                            && !t0.table_index_domain_eqs@.contains_key(t) implies domain_reason(
                        s1,
                        e1,
                        &t1,
                        b,
                        t,
                    ) by {
                        assert(t1.table_index_domain_eqs@.dom().contains(t));
                        assert(t == rep);
                        assert(index_range(s1, &t1, b, rep, l, h));
                    }
                    assert(domain_step(s0, e0, &t0, s1, e1, &t1, b));
                    assert(t1.table_index_domain_eqs@.dom().contains(rep));
                }
                let scores: Vec<(i64, i64)> = match map_get(&tables.table_index_key_score, rep) {
                    Some(v) => crate::collections::copy_words(v),
                    None => Vec::new(),
                };
                assert(scores@ =~= scores_of(&t0, rep));
                if let Some(pairs) = map_get(&tables.table_index_domain_eqs, rep) {
                    hints.add_domain(&scores, pairs);
                }
                self.bridge_all(tables, store, rep, &list, Ghost(b));
                proof {
                    let t2 = *tables;
                    lemma_domain_step_trans(
                        s0,
                        e0,
                        &t0,
                        s1,
                        e1,
                        &t1,
                        store.terms(),
                        self@,
                        &t2,
                        b,
                    );
                    assert(t2.table_index_domain_eqs@.contains_key(rep));
                    assert(t2.table_index_domain_eqs@[rep] == t1.table_index_domain_eqs@[rep]);
                    assert forall|t: TermId| #[trigger]
                        t2.table_index_domain_eqs@.contains_key(t)
                            && !t0.table_index_domain_eqs@.contains_key(t) implies name_linked(
                        self@,
                        &t2,
                        t,
                    ) || hinted(hints, scores_of(&t2, t), t2.table_index_domain_eqs@[t]@) by {
                        if t1.table_index_domain_eqs@.contains_key(t) {
                            assert(t1.table_index_domain_eqs@.dom().contains(t));
                            assert(t == rep);
                        }
                    }
                }
            },
        }
    }

    /// Splits table indices over the small ranges that the assertions give
    /// them, each name once.  Gives what the search should decide early.
    pub fn eager_table_index_case_split(
        &mut self,
        tables: &mut TableState,
        store: &mut TermStore,
    ) -> (hints: DomainHints)
        requires
            goal_inv(old(store).terms(), old(self)@),
            old(tables).wf(old(store).terms()),
            domains_inv(old(store).terms(), old(self)@, old(tables)),
        ensures
            crate::constructors::grew(old(store), final(store)),
            ({
                let bounds = asserted_bounds(
                    old(store).terms(),
                    old(tables).unit_eq_rep@,
                    old(self)@.j.assertions,
                    old(self)@.j.assertions.len() as int,
                );
                &&& domain_step(
                    old(store).terms(),
                    old(self)@,
                    old(tables),
                    final(store).terms(),
                    final(self)@,
                    final(tables),
                    bounds,
                )
                &&& forall|t: TermId|
                    old(tables).table_index_terms@.contains(t) ==> #[trigger] name_done(
                        old(store).terms(),
                        old(tables),
                        final(tables),
                        bounds,
                        named(old(tables).unit_eq_rep@, t),
                    )
            }),
            split_is_entailed(
                old(store).terms(),
                final(store).terms(),
                old(self)@,
                old(tables),
                final(self)@,
            ),
            in_decision_order(hints.priority@),
            domains_hinted(old(tables), final(self)@, final(tables), &hints),
    {
        let ghost s0 = store.terms();
        let ghost e0 = self@;
        let ghost t0 = *tables;
        let mut bounds: Bounds = map_new();
        let mut n: usize = 0;
        assert(bounds@ =~= Map::<TermId, (Option<i64>, Option<i64>)>::empty());
        while n < self.assertions.len()
            invariant
                n <= self.assertions.len(),
                store.wf(),
                self@.j.assertions == self.assertions@,
                bounds@ == asserted_bounds(
                    store.terms(),
                    tables.unit_eq_rep@,
                    self.assertions@,
                    n as int,
                ),
            decreases self.assertions.len() - n,
        {
            collect_conjunctive_int_bounds(
                self.assertions[n],
                store,
                &mut bounds,
                &tables.unit_eq_rep,
            );
            n = n + 1;
        }
        let ghost b = bounds@;
        let reps = index_reps(tables);
        let mut hints = DomainHints::new();
        let mut k: usize = 0;
        proof {
            lemma_domain_step_refl(s0, e0, tables, b);
        }
        while k < reps.len()
            invariant
                k <= reps.len(),
                b == bounds@,
                s0 == old(store).terms(),
                e0 == old(self)@,
                t0 == *old(tables),
                t0.wf(s0),
                goal_inv(s0, e0),
                domains_inv(s0, e0, &t0),
                crate::constructors::grew(old(store), store),
                domain_step(s0, e0, &t0, store.terms(), self@, tables, b),
                in_decision_order(hints.priority@),
                domains_hinted(&t0, self@, tables, &hints),
                forall|r: TermId| #[trigger]
                    reps@.contains(r) <==> exists|t: TermId| #[trigger] index_named(&t0, r, t),
                forall|j: int|
                    0 <= j < k ==> name_done(s0, &t0, tables, b, #[trigger] reps@[j]),
            decreases reps.len() - k,
        {
            let ghost s1 = store.terms();
            let ghost e1 = self@;
            let ghost t1 = *tables;
            let rep: TermId = reps[k];
            proof {
                assert(reps@.contains(rep));
                let t = choose|t: TermId| #[trigger] index_named(&t0, rep, t);
                assert(t < s0.len());
                assert(rep < s0.len());
            }
            let ghost h1 = hints;
            self.split_name(tables, store, &bounds, rep, &mut hints);
            proof {
                let t2 = *tables;
                lemma_domains_hinted_trans(&t0, e1, &t1, &h1, self@, &t2, &hints);
                lemma_domain_step_trans(s0, e0, &t0, s1, e1, &t1, store.terms(), self@, &t2, b);
                assert forall|j: int| 0 <= j < k + 1 implies name_done(
                    s0,
                    &t0,
                    tables,
                    b,
                    #[trigger] reps@[j],
                ) by {
                    if j < k {
                        lemma_name_done_grow(s0, &t0, &t1, &t2, b, reps@[j]);
                    } else {
                        lemma_name_done(s0, &t0, s1, &t1, &t2, b, rep);
                    }
                }
            }
            k = k + 1;
        }
        proof {
            assert forall|t: TermId|
                t0.table_index_terms@.contains(t) implies #[trigger] name_done(
                s0,
                &t0,
                tables,
                b,
                named(t0.unit_eq_rep@, t),
            ) by {
                assert(index_named(&t0, named(t0.unit_eq_rep@, t), t));
                assert(reps@.contains(named(t0.unit_eq_rep@, t)));
                let j = choose|j: int|
                    0 <= j < reps@.len() && reps@[j] == named(t0.unit_eq_rep@, t);
                assert(name_done(s0, &t0, tables, b, reps@[j]));
            }
            lemma_split_entailed(s0, e0, &t0, store.terms(), self@, tables);
        }
        hints
    }
}

/// The weights listed for an index.
pub open spec fn scores_of(tables: &TableState, t: TermId) -> Seq<(i64, i64)> {
    if tables.table_index_key_score@.contains_key(t) {
        tables.table_index_key_score@[t]@
    } else {
        Seq::empty()
    }
}

/// A name has one range.
proof fn lemma_range_unique(
    s: Seq<TermView>,
    tables: &TableState,
    bounds: Map<TermId, (Option<i64>, Option<i64>)>,
    rep: TermId,
    x: i64,
    y: i64,
    lo: Option<i64>,
    hi: Option<i64>,
)
    requires
        index_range(s, tables, bounds, rep, x, y),
        tightest_lower(bounds, tables.unit_eq_rep@, rep, lo),
        tightest_upper(bounds, tables.unit_eq_rep@, rep, hi),
    ensures
        domain_of(lo, hi) == Some((x, y)),
{
    assert(lo == Some(x));
    assert(hi == Some(y));
}

/// A range that the bounds give follows from them.
proof fn lemma_range_entailed(
    s0: Seq<TermView>,
    t0: &TableState,
    s1: Seq<TermView>,
    t1: &TableState,
    bounds: Map<TermId, (Option<i64>, Option<i64>)>,
    rep: TermId,
    lo: i64,
    hi: i64,
)
    requires
        terms_wf(s0),
        terms_wf(s1),
        extends(s0, s1),
        rep < s0.len(),
        t1.wf(s1),
        domains_grown(t0, t1),
        t1.table_index_domain_eqs@.dom() == t0.table_index_domain_eqs@.dom().insert(rep),
        index_range(s1, t1, bounds, rep, lo, hi),
        range_pairs(t1.table_index_domain_eqs@[rep]@, lo, hi),
    ensures
        domains_entailed(s0, t0, s1, t1, bounds),
{
    assert forall|i: Interp|
        integral(s1, i) && same_numbers(s1, i, t1.unit_eq_rep@) && bounds_hold(s0, i, bounds)
            && domains_hold(s1, i, t0) implies #[trigger] domains_hold(s1, i, t1) by {
        lemma_bounds_longer(s0, s1, i, bounds);
        let pairs = t1.table_index_domain_eqs@[rep]@;
        bounded_domain_is_entailed(s1, i, t1, bounds, rep, lo, hi, pairs);
        assert forall|t: TermId| #[trigger]
            t1.table_index_domain_eqs@.contains_key(t) implies in_domain(
            s1,
            i,
            t,
            t1.table_index_domain_eqs@[t]@,
        ) by {
            assert(t1.table_index_domain_eqs@.dom().contains(t));
            if t != rep {
                assert(t0.table_index_domain_eqs@.contains_key(t));
            }
        }
    }
}

/// The domain of an index follows from that of its name.
proof fn lemma_linked_entailed(
    s0: Seq<TermView>,
    t0: &TableState,
    s1: Seq<TermView>,
    t1: &TableState,
    clauses: Seq<Seq<Lit>>,
    bounds: Map<TermId, (Option<i64>, Option<i64>)>,
    idx: TermId,
    rep: TermId,
)
    requires
        extends(s0, s1),
        t0.wf(s0),
        t1.wf(s1),
        idx < s0.len(),
        idx != rep,
        domains_grown(t0, t1),
        t0.table_index_domain_eqs@.contains_key(rep),
        named(t0.unit_eq_rep@, idx) == rep,
        t0.case_split_terms@.contains(idx) ==> *t1 == *t0,
        !t0.case_split_terms@.contains(idx) ==> t1.table_index_domain_eqs@.dom()
            == t0.table_index_domain_eqs@.dom().insert(idx) && linked(
            clauses,
            t1.table_index_domain_eqs@[idx]@,
            t0.table_index_domain_eqs@[rep]@,
        ),
    ensures
        domains_entailed(s0, t0, s1, t1, bounds),
{
    if !t0.case_split_terms@.contains(idx) {
        assert forall|i: Interp|
            integral(s1, i) && same_numbers(s1, i, t1.unit_eq_rep@) && bounds_hold(s0, i, bounds)
                && domains_hold(s1, i, t0) implies #[trigger] domains_hold(s1, i, t1) by {
            let a = t1.table_index_domain_eqs@[idx]@;
            let b = t0.table_index_domain_eqs@[rep]@;
            assert(in_domain(s1, i, rep, b));
            assert(t1.unit_eq_rep@.contains_key(idx));
            let j = choose|j: int|
                0 <= j < b.len() && num(eval(s1, i, rep as int)) == (#[trigger] b[j]).0 as real;
            assert(a[j].0 == b[j].0);
            assert(in_domain(s1, i, idx, a));
            assert forall|t: TermId| #[trigger]
                t1.table_index_domain_eqs@.contains_key(t) implies in_domain(
                s1,
                i,
                t,
                t1.table_index_domain_eqs@[t]@,
            ) by {
                assert(t1.table_index_domain_eqs@.dom().contains(t));
                if t != idx {
                    assert(t0.table_index_domain_eqs@.contains_key(t));
                }
            }
        }
    }
}

/// The clauses added are true wherever the assertions are, the aliases are equal
/// to what they name, and the domains recorded before hold.
pub open spec fn split_is_entailed(
    s0: Seq<TermView>,
    s: Seq<TermView>,
    before: GoalView,
    tables: &TableState,
    after: GoalView,
) -> bool {
    forall|i: Interp|
        integral(s, i) && all_hold(s0, i, before.j.assertions) && aliases_true(
            s,
            i,
            tables.unit_eq_rep@,
        ) && domains_hold(s, i, tables) ==> #[trigger] added_true(
            s,
            after,
            before.clauses.len() as int,
            i,
        )
}

/// The bounds of the assertions hold where the assertions do.
pub proof fn asserted_bounds_are_entailed(
    s: Seq<TermView>,
    i: Interp,
    aliases: Map<TermId, TermId>,
    assertions: Seq<TermId>,
    n: int,
)
    requires
        terms_wf(s),
        integral(s, i),
        map_ok(s, aliases),
        same_numbers(s, i, aliases),
        all_hold(s, i, assertions),
        n <= assertions.len(),
    ensures
        bounds_hold(s, i, asserted_bounds(s, aliases, assertions, n)),
    decreases n,
{
    if n > 0 {
        asserted_bounds_are_entailed(s, i, aliases, assertions, n - 1);
        conjunctive_bounds_are_entailed(
            s,
            i,
            aliases,
            asserted_bounds(s, aliases, assertions, n - 1),
            assertions[n - 1],
        );
    }
}

proof fn lemma_split_entailed(
    s0: Seq<TermView>,
    e0: GoalView,
    t0: &TableState,
    s1: Seq<TermView>,
    e1: GoalView,
    t1: &TableState,
)
    requires
        goal_inv(s0, e0),
        t0.wf(s0),
        domain_step(
            s0,
            e0,
            t0,
            s1,
            e1,
            t1,
            asserted_bounds(
                s0,
                t0.unit_eq_rep@,
                e0.j.assertions,
                e0.j.assertions.len() as int,
            ),
        ),
    ensures
        split_is_entailed(s0, s1, e0, t0, e1),
{
    let list = e0.j.assertions;
    let n = list.len() as int;
    assert forall|i: Interp|
        integral(s1, i) && all_hold(s0, i, list) && aliases_true(s1, i, t0.unit_eq_rep@)
            && domains_hold(s1, i, t0) implies #[trigger] added_true(
        s1,
        e1,
        e0.clauses.len() as int,
        i,
    ) by {
        lemma_premises_shorter(s0, s1, t0, i);
        asserted_bounds_are_entailed(s0, i, t0.unit_eq_rep@, list, n);
        assert(domains_hold(s1, i, t1));
    }
}

} // verus!
