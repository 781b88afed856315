//! Integer bounds from linear facts, and case splits on small ranges.
//!
//! An integer term that the facts confine to a few values, and that a function
//! is applied to, may need a case for each value before congruence can refute
//! an assignment.  The bounds are consequences of the facts, so the disjunction
//! over the range is one too.

use crate::collections::{
    coeffs_get, coeffs_len, map_get, map_insert, map_new, map_sorted_keys, set_contains, set_insert,
    set_new,
};
use crate::constructors::{grew, is_equation, lemma_eq_holds};
use crate::encode::good;
use crate::linear::{terms_value, ArithConstraintType, ParsedArithConstraint, ParsedView};
use crate::numbers::{fits, lemma_real_product, magnitude, word_digits, BigNum, Rat};
use crate::semantics::{eqv, eval, eval_args, holds, lemma_eval, num, Interp};
use crate::state::{
    clause_true, constraint_ok, goal_inv, lemma_means_extend, lit_true, lits_within, means,
    parsed_ok, Constraint, GoalState, GoalView, Lit, Var,
};
use crate::text::{has_prefix, is_prefix};
use crate::terms::{
    extends, is_numeric_sort, node_at, node_below, numeric_sort, terms_wf, Data, DataView, Op,
    SortId, Symbol, TermId, TermStore, TermView,
};
use crate::walk::{collect_subterms, lemma_reach_le, lists_reach, subterm};
use rustc_hash::{FxHashMap, FxHashSet};
use vstd::arithmetic::div_mod::lemma_fundamental_div_mod;
use vstd::prelude::*;

verus! {

/// The widest range `hi - lo` that is split into cases.
pub const MAX_INT_CASE_RANGE: i64 = 8;

/// How many rounds of case splits a check may take.
pub const MAX_CASE_SPLIT_ROUNDS: u32 = 16;

/// How many terms are split in one round.
pub const PER_ROUND_CAP: usize = 8;

/// Bounds of a term, each of which may be missing.
pub type Bounds = FxHashMap<TermId, (Option<i64>, Option<i64>)>;

/// The relation of a fact.
#[derive(Clone, Copy, PartialEq, Eq, Debug, Structural)]
pub enum Dir {
    Le,
    Ge,
    Eq,
}

/// A sum of terms with integer coefficients that is at most, at least or equal
/// to a constant.
pub struct Fact {
    pub terms: Vec<(TermId, i64)>,
    pub constant: i64,
    pub dir: Dir,
}

/// The largest integer that does not exceed `num / den`.
pub open spec fn floor_quotient(num: int, den: int) -> int {
    if den > 0 {
        num / den
    } else {
        (-num) / (-den)
    }
}

/// The smallest integer that is not below `num / den`.
pub open spec fn ceil_quotient(num: int, den: int) -> int {
    -floor_quotient(-num, den)
}

/// Division rounded down.  Nothing for a zero divisor.
pub fn floor_div(num: i64, den: i64) -> (q: Option<i64>)
    requires
        !(num == i64::MIN && den == -1),
    ensures
        match q {
            Some(q) => den != 0 && q == floor_quotient(num as int, den as int),
            None => den == 0,
        },
{
    if den == 0 {
        return None;
    }
    let (n, d): (i128, i128) = if den < 0 {
        (-(num as i128), -(den as i128))
    } else {
        (num as i128, den as i128)
    };
    proof {
        lemma_quotient_fits(n as int, d as int);
    }
    Some(floor_positive(n, d) as i64)
}

/// Division rounded up.  Nothing for a zero divisor.
pub fn ceil_div(num: i64, den: i64) -> (q: Option<i64>)
    requires
        !(num == i64::MIN && den == -1),
    ensures
        match q {
            Some(q) => den != 0 && q == ceil_quotient(num as int, den as int),
            None => den == 0,
        },
{
    if den == 0 {
        return None;
    }
    let (n, d): (i128, i128) = if den < 0 {
        (num as i128, -(den as i128))
    } else {
        (-(num as i128), den as i128)
    };
    let q: i128 = floor_positive(n, d);
    proof {
        lemma_quotient_fits(n as int, d as int);
        if n == 0x8000_0000_0000_0000 {
            lemma_half(n as int, d as int);
        }
        if n == i64::MIN {
            assert(d > 1);
            lemma_low_half(n as int, d as int);
        } else {
            lemma_above_min(n as int, d as int);
        }
    }
    Some((-q) as i64)
}

proof fn lemma_half(n: int, d: int)
    requires
        n == 0x8000_0000_0000_0000,
        d > 0,
    ensures
        0 <= n / d <= n,
{
    lemma_fundamental_div_mod(n, d);
    let q = n / d;
    let r = n % d;
    assert(0 <= q <= n) by (nonlinear_arith)
        requires
            n == d * q + r,
            0 <= r < d,
            d > 0,
            n >= 0,
    ;
}

proof fn lemma_low_half(n: int, d: int)
    requires
        n == i64::MIN,
        d > 1,
    ensures
        i64::MIN < n / d <= 0,
{
    lemma_fundamental_div_mod(n, d);
    let q = n / d;
    let r = n % d;
    assert(i64::MIN < q <= 0) by (nonlinear_arith)
        requires
            n == d * q + r,
            0 <= r < d,
            d > 1,
            n == i64::MIN,
            i64::MIN < -1,
    ;
}

proof fn lemma_above_min(num: int, den: int)
    requires
        den > 0,
        num > i64::MIN,
    ensures
        num / den > i64::MIN,
{
    lemma_fundamental_div_mod(num, den);
    let q = num / den;
    let r = num % den;
    assert(q > i64::MIN) by (nonlinear_arith)
        requires
            num == den * q + r,
            0 <= r < den,
            den > 0,
            num > i64::MIN,
    ;
}

/// A quotient is a word, but for that of the greatest number by 1.
proof fn lemma_quotient_fits(num: int, den: int)
    requires
        den > 0,
        i64::MIN <= num <= 0x8000_0000_0000_0000,
    ensures
        i64::MIN <= num / den,
        num < 0x8000_0000_0000_0000 || den > 1 ==> num / den <= i64::MAX,
{
    lemma_fundamental_div_mod(num, den);
    let q = num / den;
    let r = num % den;
    assert(i64::MIN <= q) by (nonlinear_arith)
        requires
            num == den * q + r,
            0 <= r < den,
            den > 0,
            i64::MIN <= num,
            i64::MIN < 0,
    ;
    if num < 0x8000_0000_0000_0000 || den > 1 {
        assert(q <= i64::MAX) by (nonlinear_arith)
            requires
                num == den * q + r,
                0 <= r < den,
                den > 0,
                num <= 0x8000_0000_0000_0000,
                num < 0x8000_0000_0000_0000 || den > 1,
                i64::MAX == 0x7fff_ffff_ffff_ffff,
        ;
    }
}

/// Rounded-down division by a positive number.
fn floor_positive(num: i128, den: i128) -> (q: i128)
    requires
        den > 0,
        i64::MIN <= num <= 0x8000_0000_0000_0000,
    ensures
        q == num as int / den as int,
{
    if num >= 0 {
        num / den
    } else {
        // Rust's `/` rounds towards zero; `num + 1` is not positive.
        let m: i128 = -(num + 1);
        proof {
            lemma_floor_negative(num as int, den as int);
            lemma_quotient_fits(m as int, den as int);
        }
        -(m / den) - 1
    }
}

proof fn lemma_floor_negative(num: int, den: int)
    requires
        num < 0,
        den > 0,
    ensures
        num / den == -((-(num + 1)) / den) - 1,
{
    let m = -(num + 1);
    lemma_fundamental_div_mod(m, den);
    lemma_fundamental_div_mod(num, den);
    let p = m / den;
    let a = m % den;
    let q = num / den;
    let b = num % den;
    // num = -(den * p + a) - 1 = den * (-p - 1) + (den - 1 - a)
    assert(q == -p - 1) by (nonlinear_arith)
        requires
            m == den * p + a,
            0 <= a < den,
            num == den * q + b,
            0 <= b < den,
            m == -(num + 1),
            den > 0,
    ;
}

/// Dividing an inequality by a coefficient, which turns it round where the
/// coefficient is negative.
pub proof fn lemma_divide(a: int, rhs: int, x: int)
    requires
        a != 0,
    ensures
        a > 0 ==> (a * x <= rhs <==> x <= floor_quotient(rhs, a)),
        a > 0 ==> (a * x >= rhs <==> x >= ceil_quotient(rhs, a)),
        a < 0 ==> (a * x <= rhs <==> x >= ceil_quotient(rhs, a)),
        a < 0 ==> (a * x >= rhs <==> x <= floor_quotient(rhs, a)),
{
    let d = if a > 0 { a } else { -a };
    lemma_floor(d, rhs, x);
    lemma_floor(d, rhs, -x);
    lemma_floor(d, -rhs, x);
    lemma_floor(d, -rhs, -x);
    assert(d * (-x) == -(d * x)) by (nonlinear_arith);
    assert((-d) * x == -(d * x)) by (nonlinear_arith);
}

proof fn lemma_floor(d: int, n: int, x: int)
    requires
        d > 0,
    ensures
        d * x <= n <==> x <= n / d,
{
    lemma_fundamental_div_mod(n, d);
    let q = n / d;
    let r = n % d;
    assert(d * x <= n <==> x <= q) by (nonlinear_arith)
        requires
            n == d * q + r,
            0 <= r < d,
            d > 0,
    ;
}

/// The values of `x` for which `a * x` lies in a range.
pub fn div_interval(a: i64, klo: i64, khi: i64) -> (r: (Option<i64>, Option<i64>))
    requires
        a == -1 ==> klo != i64::MIN && khi != i64::MIN,
    ensures
        a != 0 ==> r.0 is Some && r.1 is Some,
        a > 0 ==> r.0->0 == ceil_quotient(klo as int, a as int) && r.1->0 == floor_quotient(
            khi as int,
            a as int,
        ),
        a < 0 ==> r.0->0 == ceil_quotient(khi as int, a as int) && r.1->0 == floor_quotient(
            klo as int,
            a as int,
        ),
        a == 0 ==> r.0 is None && r.1 is None,
        a != 0 ==> forall|x: int|
            klo <= #[trigger] (a * x) <= khi <==> r.0->0 <= x <= r.1->0,
{
    proof {
        if a != 0 {
            assert forall|x: int| klo <= #[trigger] (a * x) <= khi <==> if a > 0 {
                ceil_quotient(klo as int, a as int) <= x <= floor_quotient(khi as int, a as int)
            } else {
                ceil_quotient(khi as int, a as int) <= x <= floor_quotient(klo as int, a as int)
            } by {
                lemma_divide(a as int, klo as int, x);
                lemma_divide(a as int, khi as int, x);
            }
        }
    }
    if a > 0 {
        (ceil_div(klo, a), floor_div(khi, a))
    } else if a < 0 {
        (ceil_div(khi, a), floor_div(klo, a))
    } else {
        (None, None)
    }
}

/// The bound on `x` that `a * x <= rhs` (`upper`) or `a * x >= rhs` gives.
pub fn div_le_ge(a: i64, rhs: i64, upper: bool) -> (r: (Option<i64>, Option<i64>))
    requires
        a == -1 ==> rhs != i64::MIN,
    ensures
        a == 0 ==> r.0 is None && r.1 is None,
        a != 0 && (a > 0) == upper ==> r.0 is None && r.1 is Some && r.1->0 == floor_quotient(
            rhs as int,
            a as int,
        ),
        a != 0 && (a > 0) != upper ==> r.1 is None && r.0 is Some && r.0->0 == ceil_quotient(
            rhs as int,
            a as int,
        ),
        a != 0 ==> forall|x: int|
            (if upper {
                #[trigger] (a * x) <= rhs
            } else {
                a * x >= rhs
            }) <==> (r.0 matches Some(lo) ==> lo <= x) && (r.1 matches Some(hi) ==> x <= hi),
{
    proof {
        if a != 0 {
            assert forall|x: int|
                (if upper {
                    #[trigger] (a * x) <= rhs
                } else {
                    a * x >= rhs
                }) <==> if (a > 0) == upper {
                    x <= floor_quotient(rhs as int, a as int)
                } else {
                    ceil_quotient(rhs as int, a as int) <= x
                } by {
                lemma_divide(a as int, rhs as int, x);
            }
        }
    }
    if a > 0 {
        if upper {
            (None, floor_div(rhs, a))
        } else {
            (ceil_div(rhs, a), None)
        }
    } else if a < 0 {
        if upper {
            (ceil_div(rhs, a), None)
        } else {
            (None, floor_div(rhs, a))
        }
    } else {
        (None, None)
    }
}

/// The larger of two lower bounds.
pub open spec fn max_bound(a: Option<i64>, b: Option<i64>) -> Option<i64> {
    match (a, b) {
        (Some(x), Some(y)) => if x >= y {
            a
        } else {
            b
        },
        (Some(_), None) => a,
        _ => b,
    }
}

/// The smaller of two upper bounds.
pub open spec fn min_bound(a: Option<i64>, b: Option<i64>) -> Option<i64> {
    match (a, b) {
        (Some(x), Some(y)) => if x <= y {
            a
        } else {
            b
        },
        (Some(_), None) => a,
        _ => b,
    }
}

/// The bounds of a term, missing where it has no entry.
pub open spec fn bounds_of(b: Map<TermId, (Option<i64>, Option<i64>)>, x: TermId) -> (
    Option<i64>,
    Option<i64>,
) {
    if b.contains_key(x) {
        b[x]
    } else {
        (None, None)
    }
}

/// The bounds with those of `x` intersected with new ones.
pub open spec fn tightened(
    b: Map<TermId, (Option<i64>, Option<i64>)>,
    x: TermId,
    lo: Option<i64>,
    hi: Option<i64>,
) -> Map<TermId, (Option<i64>, Option<i64>)> {
    if lo is None && hi is None {
        b
    } else {
        b.insert(x, (max_bound(bounds_of(b, x).0, lo), min_bound(bounds_of(b, x).1, hi)))
    }
}

/// Intersects the bounds of a term with new ones, and notes whether that changed
/// them.  A looser bound changes nothing.
pub fn tighten(
    x: TermId,
    new_lo: Option<i64>,
    new_hi: Option<i64>,
    bounds: &mut Bounds,
    changed: &mut bool,
)
    ensures
        final(bounds)@ == tightened(old(bounds)@, x, new_lo, new_hi),
        *final(changed) == (*old(changed) || bounds_of(final(bounds)@, x) != bounds_of(
            old(bounds)@,
            x,
        )),
{
    if new_lo.is_none() && new_hi.is_none() {
        return;
    }
    let (lo0, hi0) = match map_get(bounds, x) {
        Some(b) => *b,
        None => (None, None),
    };
    let mut lo: Option<i64> = lo0;
    let mut hi: Option<i64> = hi0;
    if let Some(nl) = new_lo {
        match lo0 {
            Some(cur) => {
                if nl > cur {
                    lo = Some(nl);
                    *changed = true;
                }
            },
            None => {
                lo = Some(nl);
                *changed = true;
            },
        }
    }
    if let Some(nh) = new_hi {
        match hi0 {
            Some(cur) => {
                if nh < cur {
                    hi = Some(nh);
                    *changed = true;
                }
            },
            None => {
                hi = Some(nh);
                *changed = true;
            },
        }
    }
    map_insert(bounds, x, (lo, hi));
}

/// A value for each term.
pub type IntEnv = spec_fn(TermId) -> int;

pub open spec fn fact_sum(terms: Seq<(TermId, i64)>, env: IntEnv) -> int
    decreases terms.len(),
{
    if terms.len() == 0 {
        0
    } else {
        fact_sum(terms.drop_last(), env) + terms.last().1 * env(terms.last().0)
    }
}

/// The values satisfy the fact.
pub open spec fn fact_holds(terms: Seq<(TermId, i64)>, constant: int, dir: Dir, env: IntEnv) -> bool {
    match dir {
        Dir::Le => fact_sum(terms, env) <= constant,
        Dir::Ge => fact_sum(terms, env) >= constant,
        Dir::Eq => fact_sum(terms, env) == constant,
    }
}

pub open spec fn in_bounds(b: (Option<i64>, Option<i64>), v: int) -> bool {
    &&& b.0 matches Some(lo) ==> lo <= v
    &&& b.1 matches Some(hi) ==> v <= hi
}

/// The values lie within the bounds.
pub open spec fn within(b: Map<TermId, (Option<i64>, Option<i64>)>, env: IntEnv) -> bool {
    forall|x: TermId| #[trigger] b.contains_key(x) ==> in_bounds(b[x], env(x))
}

/// A partial sum with one more product; nothing where a side is unbounded or a
/// step overflows.
pub open spec fn add_side(acc: Option<i64>, a: i64, v: Option<i64>) -> Option<i64> {
    match (acc, v) {
        (Some(s), Some(v)) => if fits(a * v) && fits(s + a * v) {
            Some((s + a * v) as i64)
        } else {
            None
        },
        _ => None,
    }
}

/// The interval of the sum of the first `n` terms other than the `k`-th.
pub open spec fn interval_excluding(
    terms: Seq<(TermId, i64)>,
    k: int,
    b: Map<TermId, (Option<i64>, Option<i64>)>,
    n: int,
) -> (Option<i64>, Option<i64>)
    decreases n,
{
    if n <= 0 {
        (Some(0), Some(0))
    } else {
        let acc = interval_excluding(terms, k, b, n - 1);
        let (x, a) = terms[n - 1];
        let (lo, hi) = bounds_of(b, x);
        if n - 1 == k || a == 0 {
            acc
        } else if a > 0 {
            (add_side(acc.0, a, lo), add_side(acc.1, a, hi))
        } else {
            (add_side(acc.0, a, hi), add_side(acc.1, a, lo))
        }
    }
}

fn add_scaled_bound(acc: Option<i64>, a: i64, v: Option<i64>) -> (r: Option<i64>)
    ensures
        r == add_side(acc, a, v),
{
    match (acc, v) {
        (Some(s), Some(v)) => match a.checked_mul(v) {
            Some(p) => s.checked_add(p),
            None => None,
        },
        _ => None,
    }
}

/// The interval of the sum of all terms other than the `k`-th.  An overflow
/// counts as unbounded.
pub fn sum_excluding(terms: &Vec<(TermId, i64)>, k: usize, bounds: &Bounds) -> (r: (
    Option<i64>,
    Option<i64>,
))
    ensures
        r == interval_excluding(terms@, k as int, bounds@, terms@.len() as int),
{
    let mut lo: Option<i64> = Some(0);
    let mut hi: Option<i64> = Some(0);
    let mut j: usize = 0;
    while j < terms.len()
        invariant
            j <= terms.len(),
            (lo, hi) == interval_excluding(terms@, k as int, bounds@, j as int),
        decreases terms.len() - j,
    {
        let (x, a) = terms[j];
        if j != k && a != 0 {
            let (xlo, xhi) = match map_get(bounds, x) {
                Some(b) => *b,
                None => (None, None),
            };
            if a > 0 {
                lo = add_scaled_bound(lo, a, xlo);
                hi = add_scaled_bound(hi, a, xhi);
            } else {
                lo = add_scaled_bound(lo, a, xhi);
                hi = add_scaled_bound(hi, a, xlo);
            }
        }
        j = j + 1;
    }
    (lo, hi)
}

/// The bound that a fact gives its `k`-th term, from the bounds of the others.
/// Nothing where those leave the sum open or a step overflows.
pub open spec fn derived(
    terms: Seq<(TermId, i64)>,
    constant: i64,
    dir: Dir,
    k: int,
    b: Map<TermId, (Option<i64>, Option<i64>)>,
) -> (Option<i64>, Option<i64>) {
    let a = terms[k].1;
    let (tlo, thi) = interval_excluding(terms, k, b, terms.len() as int);
    if a == 0 {
        (None, None)
    } else {
        match dir {
            Dir::Eq => match (tlo, thi) {
                (Some(l), Some(h)) => if usable(a as int, constant - h) && usable(a as int, constant - l) {
                    if a > 0 {
                        (
                            Some(ceil_quotient(constant - h, a as int) as i64),
                            Some(floor_quotient(constant - l, a as int) as i64),
                        )
                    } else {
                        (
                            Some(ceil_quotient(constant - l, a as int) as i64),
                            Some(floor_quotient(constant - h, a as int) as i64),
                        )
                    }
                } else {
                    (None, None)
                },
                _ => (None, None),
            },
            Dir::Le => match tlo {
                Some(l) => if usable(a as int, constant - l) {
                    one_sided(a as int, constant - l, true)
                } else {
                    (None, None)
                },
                None => (None, None),
            },
            Dir::Ge => match thi {
                Some(h) => if usable(a as int, constant - h) {
                    one_sided(a as int, constant - h, false)
                } else {
                    (None, None)
                },
                None => (None, None),
            },
        }
    }
}

/// In the 64-bit range, and so is its quotient by `a`.
pub open spec fn usable(a: int, i: int) -> bool {
    fits(i) && !(a == -1 && i == i64::MIN)
}

/// What `a * x <= rhs` (`upper`) or `a * x >= rhs` says of `x`.
pub open spec fn one_sided(a: int, rhs: int, upper: bool) -> (Option<i64>, Option<i64>) {
    if (a > 0) == upper {
        (None, Some(floor_quotient(rhs, a) as i64))
    } else {
        (Some(ceil_quotient(rhs, a) as i64), None)
    }
}

/// The bounds after a fact has been applied to its first `n` terms in turn.
pub open spec fn propagated(
    terms: Seq<(TermId, i64)>,
    constant: i64,
    dir: Dir,
    b: Map<TermId, (Option<i64>, Option<i64>)>,
    n: int,
) -> Map<TermId, (Option<i64>, Option<i64>)>
    decreases n,
{
    if n <= 0 {
        b
    } else {
        let c = propagated(terms, constant, dir, b, n - 1);
        let (lo, hi) = derived(terms, constant, dir, n - 1, c);
        tightened(c, terms[n - 1].0, lo, hi)
    }
}

/// A difference, where it and its quotient by `a` fit in 64 bits.
fn usable_difference(a: i64, c: i64, t: i64) -> (r: Option<i64>)
    ensures
        match r {
            Some(d) => usable(a as int, c - t) && d == c - t,
            None => !usable(a as int, c - t),
        },
{
    match c.checked_sub(t) {
        Some(d) => if a == -1 && d == i64::MIN {
            None
        } else {
            Some(d)
        },
        None => None,
    }
}

/// The bound that a fact gives one of its terms.
fn derive_bound(fact: &Fact, k: usize, bounds: &Bounds) -> (r: (Option<i64>, Option<i64>))
    requires
        k < fact.terms@.len(),
    ensures
        r == derived(fact.terms@, fact.constant, fact.dir, k as int, bounds@),
{
    let a: i64 = fact.terms[k].1;
    if a == 0 {
        return (None, None);
    }
    let (tlo, thi) = sum_excluding(&fact.terms, k, bounds);
    match fact.dir {
        Dir::Eq => match (tlo, thi) {
            (Some(l), Some(h)) => match (
                usable_difference(a, fact.constant, h),
                usable_difference(a, fact.constant, l),
            ) {
                (Some(klo), Some(khi)) => div_interval(a, klo, khi),
                _ => (None, None),
            },
            _ => (None, None),
        },
        Dir::Le => match tlo {
            Some(l) => match usable_difference(a, fact.constant, l) {
                Some(d) => div_le_ge(a, d, true),
                None => (None, None),
            },
            None => (None, None),
        },
        Dir::Ge => match thi {
            Some(h) => match usable_difference(a, fact.constant, h) {
                Some(d) => div_le_ge(a, d, false),
                None => (None, None),
            },
            None => (None, None),
        },
    }
}

/// Applies a fact to each of its terms in turn.
pub fn propagate_fact(fact: &Fact, bounds: &mut Bounds, changed: &mut bool)
    ensures
        final(bounds)@ == propagated(
            fact.terms@,
            fact.constant,
            fact.dir,
            old(bounds)@,
            fact.terms@.len() as int,
        ),
        *old(changed) ==> *final(changed),
        *final(changed) && !*old(changed) ==> exists|k: int, x: TermId|
            0 <= k < fact.terms@.len() && x == (#[trigger] fact.terms@[k]).0 && #[trigger] bounds_of(
                final(bounds)@,
                x,
            ) != bounds_of(old(bounds)@, x),
        !*final(changed) ==> forall|x: TermId| #[trigger]
            bounds_of(final(bounds)@, x) == bounds_of(old(bounds)@, x),
{
    let ghost b0 = bounds@;
    let ghost c0 = *changed;
    let ghost ts = fact.terms@;
    let mut k: usize = 0;
    while k < fact.terms.len()
        invariant
            k <= fact.terms.len(),
            ts == fact.terms@,
            bounds@ == propagated(ts, fact.constant, fact.dir, b0, k as int),
            c0 ==> *changed,
            *changed && !c0 ==> exists|j: int, x: TermId|
                0 <= j < ts.len() && x == (#[trigger] ts[j]).0 && #[trigger] bounds_of(bounds@, x)
                    != bounds_of(b0, x),
            !*changed ==> forall|x: TermId| #[trigger]
                bounds_of(bounds@, x) == bounds_of(b0, x),
            narrower(b0, bounds@),
        decreases fact.terms.len() - k,
    {
        let ghost before = bounds@;
        let ghost was = *changed;
        let (lo, hi) = derive_bound(fact, k, bounds);
        let x: TermId = fact.terms[k].0;
        tighten(x, lo, hi, bounds, changed);
        proof {
            lemma_tightened_narrower(before, x, lo, hi);
            lemma_narrower_trans(b0, before, bounds@);
            if *changed && !c0 {
                if was {
                    let (j, y) = choose|j: int, y: TermId|
                        0 <= j < ts.len() && y == (#[trigger] ts[j]).0 && #[trigger] bounds_of(
                            before,
                            y,
                        ) != bounds_of(b0, y);
                    assert(ts[j].0 == y);
                    assert(narrow(bounds_of(b0, y), bounds_of(before, y)));
                    assert(narrow(bounds_of(before, y), bounds_of(bounds@, y)));
                    assert(bounds_of(bounds@, y) != bounds_of(b0, y));
                } else {
                    assert(ts[k as int].0 == x);
                    assert(bounds_of(before, x) == bounds_of(b0, x));
                    assert(bounds_of(bounds@, x) != bounds_of(b0, x));
                }
            }
            if !*changed {
                assert forall|y: TermId| #[trigger] bounds_of(bounds@, y) == bounds_of(b0, y) by {
                    assert(bounds_of(before, y) == bounds_of(b0, y));
                }
            }
        }
        k = k + 1;
    }
}

/// The second pair of bounds is at least as tight.
pub open spec fn narrow(
    a: (Option<i64>, Option<i64>),
    b: (Option<i64>, Option<i64>),
) -> bool {
    &&& a.0 matches Some(x) ==> b.0 matches Some(y) && x <= y
    &&& a.1 matches Some(x) ==> b.1 matches Some(y) && y <= x
}

/// Bounds have only been tightened.
pub open spec fn narrower(
    a: Map<TermId, (Option<i64>, Option<i64>)>,
    b: Map<TermId, (Option<i64>, Option<i64>)>,
) -> bool {
    forall|x: TermId| narrow(#[trigger] bounds_of(a, x), bounds_of(b, x))
}

pub(crate) proof fn lemma_tightened_narrower(
    b: Map<TermId, (Option<i64>, Option<i64>)>,
    x: TermId,
    lo: Option<i64>,
    hi: Option<i64>,
)
    ensures
        narrower(b, tightened(b, x, lo, hi)),
{
    let c = tightened(b, x, lo, hi);
    assert forall|y: TermId| narrow(#[trigger] bounds_of(b, y), bounds_of(c, y)) by {}
}

pub(crate) proof fn lemma_narrower_trans(
    a: Map<TermId, (Option<i64>, Option<i64>)>,
    b: Map<TermId, (Option<i64>, Option<i64>)>,
    c: Map<TermId, (Option<i64>, Option<i64>)>,
)
    requires
        narrower(a, b),
        narrower(b, c),
    ensures
        narrower(a, c),
{
    assert forall|y: TermId| narrow(#[trigger] bounds_of(a, y), bounds_of(c, y)) by {
        assert(narrow(bounds_of(a, y), bounds_of(b, y)));
        assert(narrow(bounds_of(b, y), bounds_of(c, y)));
    }
}

/// The sum of the first `n` terms other than the `k`-th.
spec fn sum_except(terms: Seq<(TermId, i64)>, k: int, env: IntEnv, n: int) -> int
    decreases n,
{
    if n <= 0 {
        0
    } else if n - 1 == k {
        sum_except(terms, k, env, n - 1)
    } else {
        sum_except(terms, k, env, n - 1) + terms[n - 1].1 * env(terms[n - 1].0)
    }
}

proof fn lemma_sum_except(terms: Seq<(TermId, i64)>, k: int, env: IntEnv, n: int)
    requires
        0 <= n <= terms.len(),
        0 <= k,
    ensures
        fact_sum(terms.take(n), env) == sum_except(terms, k, env, n) + if k < n {
            terms[k].1 * env(terms[k].0)
        } else {
            0
        },
    decreases n,
{
    if n > 0 {
        lemma_sum_except(terms, k, env, n - 1);
        assert(terms.take(n).drop_last() =~= terms.take(n - 1));
        assert(terms.take(n).last() == terms[n - 1]);
    }
}

/// Bounded terms have a bounded sum.
proof fn lemma_interval(
    terms: Seq<(TermId, i64)>,
    k: int,
    b: Map<TermId, (Option<i64>, Option<i64>)>,
    env: IntEnv,
    n: int,
)
    requires
        0 <= n <= terms.len(),
        within(b, env),
    ensures
        in_bounds(interval_excluding(terms, k, b, n), sum_except(terms, k, env, n)),
    decreases n,
{
    if n > 0 {
        lemma_interval(terms, k, b, env, n - 1);
        let (x, a) = terms[n - 1];
        let v = env(x);
        let (lo, hi) = bounds_of(b, x);
        assert(in_bounds((lo, hi), v));
        let ai = a as int;
        if a == 0 {
            assert(ai * v == 0) by (nonlinear_arith)
                requires
                    ai == 0,
            ;
        }
        if let Some(l) = lo {
            let li = l as int;
            assert(ai > 0 ==> ai * li <= ai * v) by (nonlinear_arith)
                requires
                    li <= v,
            ;
            assert(ai < 0 ==> ai * li >= ai * v) by (nonlinear_arith)
                requires
                    li <= v,
            ;
        }
        if let Some(h) = hi {
            let h2 = h as int;
            assert(ai > 0 ==> ai * h2 >= ai * v) by (nonlinear_arith)
                requires
                    v <= h2,
            ;
            assert(ai < 0 ==> ai * h2 <= ai * v) by (nonlinear_arith)
                requires
                    v <= h2,
            ;
        }
    }
}

pub(crate) proof fn lemma_quotient_range(n: int, a: int)
    requires
        a != 0,
        fits(a),
        usable(a, n),
    ensures
        fits(floor_quotient(n, a)),
        fits(ceil_quotient(n, a)),
{
    let d = if a > 0 { a } else { -a };
    lemma_quotient_within(n, d);
    lemma_quotient_within(-n, d);
    if a > 0 && n == i64::MIN {
        lemma_half(-n, d);
    }
}

proof fn lemma_quotient_within(n: int, d: int)
    requires
        d > 0,
        i64::MIN <= n <= 0x8000_0000_0000_0000,
    ensures
        i64::MIN <= n / d <= 0x8000_0000_0000_0000,
        d > 1 ==> n / d <= i64::MAX && i64::MIN < n / d,
        n != i64::MIN ==> i64::MIN < n / d,
        n != 0x8000_0000_0000_0000 ==> n / d <= i64::MAX,
{
    lemma_fundamental_div_mod(n, d);
    let q = n / d;
    let r = n % d;
    assert(i64::MIN <= q <= 0x8000_0000_0000_0000) by (nonlinear_arith)
        requires
            n == d * q + r,
            0 <= r < d,
            d > 0,
            i64::MIN <= n <= 0x8000_0000_0000_0000,
            i64::MIN == -0x8000_0000_0000_0000,
    ;
    assert(d > 1 ==> i64::MIN < q <= i64::MAX) by (nonlinear_arith)
        requires
            n == d * q + r,
            0 <= r < d,
            i64::MIN <= n <= 0x8000_0000_0000_0000,
            i64::MIN == -0x8000_0000_0000_0000,
            i64::MAX == 0x7fff_ffff_ffff_ffff,
    ;
}

/// What a fact derives holds of every solution of it within the bounds.
proof fn lemma_derived_sound(
    terms: Seq<(TermId, i64)>,
    constant: i64,
    dir: Dir,
    k: int,
    b: Map<TermId, (Option<i64>, Option<i64>)>,
    env: IntEnv,
)
    requires
        0 <= k < terms.len(),
        within(b, env),
        fact_holds(terms, constant as int, dir, env),
    ensures
        in_bounds(derived(terms, constant, dir, k, b), env(terms[k].0)),
{
    let n = terms.len() as int;
    lemma_interval(terms, k, b, env, n);
    lemma_sum_except(terms, k, env, n);
    assert(terms.take(n) =~= terms);
    let a = terms[k].1 as int;
    let v = env(terms[k].0);
    let t = sum_except(terms, k, env, n);
    let (tlo, thi) = interval_excluding(terms, k, b, n);
    if a != 0 {
        if let Some(l) = tlo {
            let d = constant - l;
            if usable(a, d) {
                lemma_divide(a, d, v);
                lemma_quotient_range(d, a);
            }
        }
        if let Some(h) = thi {
            let d = constant - h;
            if usable(a, d) {
                lemma_divide(a, d, v);
                lemma_quotient_range(d, a);
            }
        }
    }
}

/// Propagating a fact loses no solution of it.
pub proof fn propagation_is_sound(
    terms: Seq<(TermId, i64)>,
    constant: i64,
    dir: Dir,
    b: Map<TermId, (Option<i64>, Option<i64>)>,
    env: IntEnv,
    n: int,
)
    requires
        0 <= n <= terms.len(),
        within(b, env),
        fact_holds(terms, constant as int, dir, env),
    ensures
        within(propagated(terms, constant, dir, b, n), env),
    decreases n,
{
    if n > 0 {
        propagation_is_sound(terms, constant, dir, b, env, n - 1);
        let c = propagated(terms, constant, dir, b, n - 1);
        lemma_derived_sound(terms, constant, dir, n - 1, c, env);
        let x = terms[n - 1].0;
        let (lo, hi) = derived(terms, constant, dir, n - 1, c);
        let after = tightened(c, x, lo, hi);
        assert forall|y: TermId| #[trigger] after.contains_key(y) implies in_bounds(
            after[y],
            env(y),
        ) by {
            if c.contains_key(y) {
                assert(in_bounds(c[y], env(y)));
            }
        }
    }
}

/// Bounds are never loosened.
pub proof fn propagation_narrows(
    terms: Seq<(TermId, i64)>,
    constant: i64,
    dir: Dir,
    b: Map<TermId, (Option<i64>, Option<i64>)>,
    n: int,
)
    ensures
        narrower(b, propagated(terms, constant, dir, b, n)),
    decreases n,
{
    if n > 0 {
        propagation_narrows(terms, constant, dir, b, n - 1);
        let c = propagated(terms, constant, dir, b, n - 1);
        let (lo, hi) = derived(terms, constant, dir, n - 1, c);
        lemma_tightened_narrower(c, terms[n - 1].0, lo, hi);
        lemma_narrower_trans(b, c, tightened(c, terms[n - 1].0, lo, hi));
    }
}

/// How far a pair of bounds can still be tightened.
spec fn slack(b: (Option<i64>, Option<i64>)) -> nat {
    let lo = match b.0 {
        Some(x) => (i64::MAX - x) as nat,
        None => 0x1_0000_0000_0000_0000nat,
    };
    let hi = match b.1 {
        Some(x) => (x - i64::MIN) as nat,
        None => 0x1_0000_0000_0000_0000nat,
    };
    lo + hi
}

spec fn total_slack(b: Map<TermId, (Option<i64>, Option<i64>)>, atoms: Seq<TermId>) -> nat
    decreases atoms.len(),
{
    if atoms.len() == 0 {
        0
    } else {
        total_slack(b, atoms.drop_last()) + slack(bounds_of(b, atoms.last()))
    }
}

proof fn lemma_slack(
    a: Map<TermId, (Option<i64>, Option<i64>)>,
    b: Map<TermId, (Option<i64>, Option<i64>)>,
    atoms: Seq<TermId>,
)
    requires
        narrower(a, b),
    ensures
        total_slack(b, atoms) <= total_slack(a, atoms),
        forall|x: TermId|
            atoms.contains(x) && #[trigger] bounds_of(b, x) != bounds_of(a, x) ==> total_slack(
                b,
                atoms,
            ) < total_slack(a, atoms),
    decreases atoms.len(),
{
    if atoms.len() > 0 {
        let y = atoms.last();
        lemma_slack(a, b, atoms.drop_last());
        assert(narrow(bounds_of(a, y), bounds_of(b, y)));
        assert forall|x: TermId|
            atoms.contains(x) && #[trigger] bounds_of(b, x) != bounds_of(a, x) implies total_slack(
            b,
            atoms,
        ) < total_slack(a, atoms) by {
            if x != y {
                let j = choose|j: int| 0 <= j < atoms.len() && atoms[j] == x;
                assert(atoms.drop_last()[j] == x);
                assert(atoms.drop_last().contains(x));
            }
        }
    }
}

/// All terms of the facts.
spec fn atoms_of(facts: Seq<Fact>) -> Seq<TermId>
    decreases facts.len(),
{
    if facts.len() == 0 {
        Seq::empty()
    } else {
        atoms_of(facts.drop_last()) + Seq::new(
            facts.last().terms@.len(),
            |k: int| facts.last().terms@[k].0,
        )
    }
}

proof fn lemma_atoms_of(facts: Seq<Fact>, f: int, k: int)
    requires
        0 <= f < facts.len(),
        0 <= k < facts[f].terms@.len(),
    ensures
        atoms_of(facts).contains(facts[f].terms@[k].0),
    decreases facts.len(),
{
    let pre = atoms_of(facts.drop_last());
    let own = Seq::new(facts.last().terms@.len(), |k: int| facts.last().terms@[k].0);
    let all = atoms_of(facts);
    if f == facts.len() - 1 {
        assert(own[k] == facts[f].terms@[k].0);
        assert(all[pre.len() + k] == own[k]);
    } else {
        lemma_atoms_of(facts.drop_last(), f, k);
        let j = choose|j: int| 0 <= j < pre.len() && pre[j] == facts[f].terms@[k].0;
        assert(all[j] == pre[j]);
    }
}

/// All facts hold of the values.
pub open spec fn all_hold(facts: Seq<Fact>, env: IntEnv) -> bool {
    forall|f: int|
        0 <= f < facts.len() ==> fact_holds(
            (#[trigger] facts[f]).terms@,
            facts[f].constant as int,
            facts[f].dir,
            env,
        )
}

/// No fact tightens the bounds further.
pub open spec fn saturated(
    facts: Seq<Fact>,
    b: Map<TermId, (Option<i64>, Option<i64>)>,
) -> bool {
    forall|f: int, x: TermId|
        0 <= f < facts.len() ==> #[trigger] bounds_of(
            propagated(
                (#[trigger] facts[f]).terms@,
                facts[f].constant,
                facts[f].dir,
                b,
                facts[f].terms@.len() as int,
            ),
            x,
        ) == bounds_of(b, x)
}

/// Propagates facts until no bound changes any more.
///
/// Every solution of the facts lies within the bounds, and no fact tightens
/// them further.
pub fn bounds_from_facts(facts: &Vec<Fact>) -> (bounds: Bounds)
    ensures
        forall|env: IntEnv| all_hold(facts@, env) ==> #[trigger] within(bounds@, env),
        saturated(facts@, bounds@),
        facts@.len() == 0 ==> bounds@.dom() == Set::<TermId>::empty(),
{
    let mut bounds: Bounds = map_new();
    let mut changed: bool = true;
    let ghost atoms = atoms_of(facts@);
    while changed
        invariant
            atoms == atoms_of(facts@),
            forall|env: IntEnv| all_hold(facts@, env) ==> #[trigger] within(bounds@, env),
            !changed ==> saturated(facts@, bounds@),
            facts@.len() == 0 ==> bounds@.dom() == Set::<TermId>::empty(),
        decreases
                total_slack(bounds@, atoms),
                if changed {
                    1int
                } else {
                    0int
                },
    {
        let ghost start = bounds@;
        changed = false;
        let mut f: usize = 0;
        while f < facts.len()
            invariant
                f <= facts.len(),
                atoms == atoms_of(facts@),
                forall|env: IntEnv| all_hold(facts@, env) ==> #[trigger] within(bounds@, env),
                narrower(start, bounds@),
                changed ==> total_slack(bounds@, atoms) < total_slack(start, atoms),
                !changed ==> forall|x: TermId| #[trigger]
                    bounds_of(bounds@, x) == bounds_of(start, x),
                !changed ==> bounds@ == start || f > 0,
                facts@.len() == 0 ==> bounds@.dom() == Set::<TermId>::empty(),
                !changed ==> saturated(facts@.take(f as int), bounds@),
            decreases facts.len() - f,
        {
            let ghost before = bounds@;
            let ghost was = changed;
            let ghost fact = facts@[f as int];
            propagate_fact(&facts[f], &mut bounds, &mut changed);
            proof {
                let n = fact.terms@.len() as int;
                propagation_narrows(fact.terms@, fact.constant, fact.dir, before, n);
                lemma_narrower_trans(start, before, bounds@);
                lemma_slack(before, bounds@, atoms);
                lemma_slack(start, before, atoms);
                assert forall|env: IntEnv| all_hold(facts@, env) implies #[trigger] within(
                    bounds@,
                    env,
                ) by {
                    assert(within(before, env));
                    propagation_is_sound(
                        fact.terms@,
                        fact.constant,
                        fact.dir,
                        before,
                        env,
                        n,
                    );
                }
                if changed && !was {
                    let (k, x) = choose|k: int, x: TermId|
                        0 <= k < fact.terms@.len() && x == (#[trigger] fact.terms@[k]).0
                            && #[trigger] bounds_of(bounds@, x) != bounds_of(before, x);
                    lemma_atoms_of(facts@, f as int, k);
                    assert(atoms.contains(x));
                }
                if !changed {
                    lemma_same_bounds(facts@, f as int, before, bounds@);
                }
            }
            f = f + 1;
        }
        proof {
            assert(facts@.take(facts@.len() as int) =~= facts@);
            lemma_slack(start, bounds@, atoms);
        }
    }
    bounds
}

/// Propagation depends on the bounds of the terms alone, so entries that say
/// nothing make no difference.
proof fn lemma_same_bounds(
    facts: Seq<Fact>,
    f: int,
    before: Map<TermId, (Option<i64>, Option<i64>)>,
    after: Map<TermId, (Option<i64>, Option<i64>)>,
)
    requires
        0 <= f < facts.len(),
        saturated(facts.take(f), before),
        after == propagated(
            facts[f].terms@,
            facts[f].constant,
            facts[f].dir,
            before,
            facts[f].terms@.len() as int,
        ),
        forall|x: TermId| #[trigger] bounds_of(after, x) == bounds_of(before, x),
    ensures
        saturated(facts.take(f + 1), after),
{
    let all = facts.take(f + 1);
    assert forall|g: int, x: TermId| 0 <= g < all.len() implies #[trigger] bounds_of(
        propagated(
            (#[trigger] all[g]).terms@,
            all[g].constant,
            all[g].dir,
            after,
            all[g].terms@.len() as int,
        ),
        x,
    ) == bounds_of(after, x) by {
        let fact = all[g];
        let n = fact.terms@.len() as int;
        lemma_propagated_same(fact.terms@, fact.constant, fact.dir, before, after, n);
        assert(bounds_of(propagated(fact.terms@, fact.constant, fact.dir, before, n), x)
            == bounds_of(propagated(fact.terms@, fact.constant, fact.dir, after, n), x));
        if g < f {
            assert(facts.take(f)[g] == all[g]);
            assert(bounds_of(propagated(fact.terms@, fact.constant, fact.dir, before, n), x)
                == bounds_of(before, x));
        }
        assert(bounds_of(after, x) == bounds_of(before, x));
    }
}

proof fn lemma_propagated_same(
    terms: Seq<(TermId, i64)>,
    constant: i64,
    dir: Dir,
    a: Map<TermId, (Option<i64>, Option<i64>)>,
    b: Map<TermId, (Option<i64>, Option<i64>)>,
    n: int,
)
    requires
        0 <= n <= terms.len(),
        forall|x: TermId| #[trigger] bounds_of(a, x) == bounds_of(b, x),
    ensures
        forall|x: TermId| #[trigger]
            bounds_of(propagated(terms, constant, dir, a, n), x) == bounds_of(
                propagated(terms, constant, dir, b, n),
                x,
            ),
    decreases n,
{
    if n > 0 {
        lemma_propagated_same(terms, constant, dir, a, b, n - 1);
        let c = propagated(terms, constant, dir, a, n - 1);
        let d = propagated(terms, constant, dir, b, n - 1);
        lemma_interval_same(terms, n - 1, c, d, terms.len() as int);
        let y = terms[n - 1].0;
        let (lo, hi) = derived(terms, constant, dir, n - 1, c);
        assert forall|x: TermId| #[trigger] bounds_of(tightened(c, y, lo, hi), x) == bounds_of(
            tightened(d, y, lo, hi),
            x,
        ) by {
            assert(bounds_of(c, x) == bounds_of(d, x));
            assert(bounds_of(c, y) == bounds_of(d, y));
        }
    }
}

proof fn lemma_interval_same(
    terms: Seq<(TermId, i64)>,
    k: int,
    a: Map<TermId, (Option<i64>, Option<i64>)>,
    b: Map<TermId, (Option<i64>, Option<i64>)>,
    n: int,
)
    requires
        forall|x: TermId| #[trigger] bounds_of(a, x) == bounds_of(b, x),
    ensures
        interval_excluding(terms, k, a, n) == interval_excluding(terms, k, b, n),
    decreases n,
{
    if n > 0 {
        lemma_interval_same(terms, k, a, b, n - 1);
        assert(bounds_of(a, terms[n - 1].0) == bounds_of(b, terms[n - 1].0));
    }
}

/// The fact that a linear constraint states of integers: strict inequalities
/// move the constant by one.  Nothing where a coefficient or the constant is no
/// integer, or the moved constant overflows.
pub open spec fn fact_of(p: ParsedView, is_eq: bool) -> Option<(Seq<(TermId, i64)>, i64, Dir)> {
    if p.constant.den != 1 || exists|k: int| 0 <= k < p.terms.len() && (#[trigger] p.terms[k]).1.den
        != 1 {
        None
    } else {
        let terms = Seq::new(p.terms.len(), |k: int| (p.terms[k].0, p.terms[k].1.num));
        let dir = if is_eq {
            Dir::Eq
        } else {
            match p.constraint_type {
                ArithConstraintType::Lt | ArithConstraintType::Le => Dir::Le,
                ArithConstraintType::Gt | ArithConstraintType::Ge => Dir::Ge,
            }
        };
        let c = p.constant.num;
        match p.constraint_type {
            ArithConstraintType::Lt => if c == i64::MIN {
                None
            } else {
                Some((terms, (c - 1) as i64, dir))
            },
            ArithConstraintType::Gt => if c == i64::MAX {
                None
            } else {
                Some((terms, (c + 1) as i64, dir))
            },
            _ => Some((terms, c, dir)),
        }
    }
}

/// The fact that a linear constraint states of integers.
fn fact_from(p: &ParsedArithConstraint, is_eq: bool) -> (r: Option<Fact>)
    ensures
        match r {
            Some(f) => fact_of(p@, is_eq) == Some((f.terms@, f.constant, f.dir)),
            None => fact_of(p@, is_eq) is None,
        },
{
    if p.constant.den != 1 {
        return None;
    }
    let n: usize = coeffs_len(&p.terms);
    let mut terms: Vec<(TermId, i64)> = Vec::new();
    let mut k: usize = 0;
    while k < n
        invariant
            k <= n,
            n == p@.terms.len(),
            terms@.len() == k,
            forall|j: int| 0 <= j < k ==> (#[trigger] p@.terms[j]).1.den == 1,
            forall|j: int|
                0 <= j < k ==> (#[trigger] terms@[j]).0 == p@.terms[j].0 && terms@[j].1
                    == p@.terms[j].1.num,
        decreases n - k,
    {
        let item = coeffs_get(&p.terms, k);
        assert(item == p@.terms[k as int]);
        if item.1.den != 1 {
            return None;
        }
        terms.push((item.0, item.1.num));
        k = k + 1;
    }
    proof {
        assert(terms@ =~= Seq::new(
            p@.terms.len(),
            |k: int| (p@.terms[k].0, p@.terms[k].1.num),
        ));
    }
    let dir = if is_eq {
        Dir::Eq
    } else {
        match p.constraint_type {
            ArithConstraintType::Lt | ArithConstraintType::Le => Dir::Le,
            ArithConstraintType::Gt | ArithConstraintType::Ge => Dir::Ge,
        }
    };
    let c: i64 = p.constant.num;
    match p.constraint_type {
        ArithConstraintType::Lt => if c == i64::MIN {
            None
        } else {
            Some(Fact { terms, constant: c - 1, dir })
        },
        ArithConstraintType::Gt => if c == i64::MAX {
            None
        } else {
            Some(Fact { terms, constant: c + 1, dir })
        },
        _ => Some(Fact { terms, constant: c, dir }),
    }
}

proof fn lemma_integer_sum(
    s: Seq<TermView>,
    i: Interp,
    terms: Seq<(TermId, Rat)>,
    env: IntEnv,
)
    requires
        forall|k: int|
            0 <= k < terms.len() ==> (#[trigger] terms[k]).1.den == 1 && num(
                eval(s, i, terms[k].0 as int),
            ) == env(terms[k].0) as real,
    ensures
        terms_value(s, i, terms) == fact_sum(
            Seq::new(terms.len(), |k: int| (terms[k].0, terms[k].1.num)),
            env,
        ) as real,
    decreases terms.len(),
{
    let ints = Seq::new(terms.len(), |k: int| (terms[k].0, terms[k].1.num));
    if terms.len() > 0 {
        let pre = terms.drop_last();
        let last = terms[terms.len() - 1];
        assert forall|k: int| 0 <= k < pre.len() implies (#[trigger] pre[k]).1.den == 1 && num(
            eval(s, i, pre[k].0 as int),
        ) == env(pre[k].0) as real by {
            assert(pre[k] == terms[k]);
        }
        lemma_integer_sum(s, i, pre, env);
        assert(ints.drop_last() =~= Seq::new(pre.len(), |k: int| (pre[k].0, pre[k].1.num)));
        assert(terms.last() == last);
        let c = last.1.num as int;
        let v = env(last.0);
        lemma_real_product(c, v);
        let x = c as real;
        assert(x / 1real == x) by (nonlinear_arith);
    }
}

/// The fact of a comparison holds of the values of the interpretation where the
/// comparison does.
proof fn lemma_fact_of(
    s: Seq<TermView>,
    i: Interp,
    t: TermId,
    p: ParsedView,
    is_eq: bool,
    env: IntEnv,
)
    requires
        terms_wf(s),
        parsed_ok(s, t, p),
        is_eq == (s[t as int].op == Op::Eq),
        holds(s, i, t),
        forall|k: int|
            0 <= k < p.terms.len() ==> num(eval(s, i, (#[trigger] p.terms[k]).0 as int)) == env(
                p.terms[k].0,
            ) as real,
        fact_of(p, is_eq) is Some,
    ensures
        ({
            let (terms, c, dir) = fact_of(p, is_eq)->0;
            fact_holds(terms, c as int, dir, env)
        }),
{
    assert(node_below(s, t as int));
    let (terms, c, dir) = fact_of(p, is_eq)->0;
    lemma_integer_sum(s, i, p.terms, env);
    lemma_eval(s, i, t);
    let args = s[t as int].args;
    let vals = eval_args(s, i, args);
    assert(vals[0] == eval(s, i, args[0] as int));
    assert(vals[1] == eval(s, i, args[1] as int));
    assert(terms_value(s, i, p.terms) - p.constant.value() == num(vals[0]) - num(vals[1]));
    let x = p.constant.num as real;
    assert(x / 1real == x) by (nonlinear_arith);
    assert(p.constant.value() == x);
    let sum = fact_sum(terms, env);
    assert(terms_value(s, i, p.terms) == sum as real);
}

/// Values of the atoms of the linear forms are the given integers.
pub open spec fn integral(s: Seq<TermView>, e: GoalView, i: Interp, env: IntEnv) -> bool {
    forall|v: Var, k: int| #[trigger]
        e.parsed.contains_key(v) && 0 <= k < e.parsed[v].terms.len() ==> num(
            eval(s, i, (#[trigger] e.parsed[v].terms[k]).0 as int),
        ) == env(e.parsed[v].terms[k].0) as real
}

/// The interpretation makes the forced comparisons true.
pub open spec fn forced_hold(
    s: Seq<TermView>,
    e: GoalView,
    forced: Set<Var>,
    i: Interp,
) -> bool {
    forall|v: Var| #[trigger]
        forced.contains(v) && e.parsed.contains_key(v) ==> holds(s, i, e.term_of[v as int])
}

/// The fact does not tighten the bounds.
pub open spec fn settled(
    fact: (Seq<(TermId, i64)>, i64, Dir),
    b: Map<TermId, (Option<i64>, Option<i64>)>,
) -> bool {
    forall|x: TermId| #[trigger]
        bounds_of(propagated(fact.0, fact.1, fact.2, b, fact.0.len() as int), x) == bounds_of(b, x)
}

/// The fact that the forced variable `v` states.
pub open spec fn forced_fact(e: GoalView, v: Var) -> Option<(Seq<(TermId, i64)>, i64, Dir)> {
    fact_of(e.parsed[v], e.j.constraint.contains_key(v) && e.j.constraint[v] is Eq)
}

impl GoalState {
    /// Bounds on integer terms from the comparisons that are forced at the root
    /// of the search, given by their variables.
    ///
    /// They hold in every interpretation with integer values that makes the
    /// forced comparisons true, and no forced comparison tightens them further.
    pub fn compute_int_bounds(&self, forced: &FxHashSet<Var>) -> (bounds: Bounds)
        ensures
            forall|s: Seq<TermView>, i: Interp, env: IntEnv|
                goal_inv(s, self@) && #[trigger] forced_hold(s, self@, forced@, i)
                    && #[trigger] integral(s, self@, i, env) ==> within(bounds@, env),
            forall|v: Var|
                self@.parsed.contains_key(v) && forced@.contains(v) && (#[trigger] forced_fact(
                    self@,
                    v,
                )) is Some ==> settled(forced_fact(self@, v)->0, bounds@),
    {
        let ghost e = self@;
        let vars = map_sorted_keys(&self.var_to_parsed_arith);
        let mut facts: Vec<Fact> = Vec::new();
        let ghost mut from: Seq<Var> = Seq::empty();
        let mut n: usize = 0;
        proof {
            assert forall|j: int| 0 <= j < vars@.len() implies e.parsed.contains_key(
                #[trigger] vars@[j],
            ) by {
                assert(vars@.to_set().contains(vars@[j]));
            }
        }
        while n < vars.len()
            invariant
                n <= vars.len(),
                e == self@,
                forall|j: int| 0 <= j < vars@.len() ==> e.parsed.contains_key(#[trigger] vars@[j]),
                from.len() == facts@.len(),
                forall|f: int|
                    0 <= f < facts@.len() ==> e.parsed.contains_key(from[f]) && forced@.contains(
                        from[f],
                    ) && forced_fact(e, from[f]) == Some(
                        ((#[trigger] facts@[f]).terms@, facts@[f].constant, facts@[f].dir),
                    ),
                forall|j: int|
                    0 <= j < n && forced@.contains(#[trigger] vars@[j]) && forced_fact(
                        e,
                        vars@[j],
                    ) is Some ==> from.contains(vars@[j]),
            decreases vars.len() - n,
        {
            let v: Var = vars[n];
            assert(e.parsed.contains_key(vars@[n as int]));
            let ghost before = from;
            if set_contains(forced, v) {
                let is_eq = match map_get(&self.var_to_constraint, v) {
                    Some(c) => match c {
                        Constraint::Eq(_, _) => true,
                        _ => false,
                    },
                    None => false,
                };
                if let Some(p) = map_get(&self.var_to_parsed_arith, v) {
                    if let Some(f) = fact_from(p, is_eq) {
                        facts.push(f);
                        proof {
                            from = from.push(v);
                            assert(from[before.len() as int] == v);
                        }
                    }
                }
            }
            proof {
                assert forall|j: int|
                    0 <= j < n + 1 && forced@.contains(#[trigger] vars@[j]) && forced_fact(
                        e,
                        vars@[j],
                    ) is Some implies from.contains(vars@[j]) by {
                    if j < n {
                        assert(before.contains(vars@[j]));
                        let l = choose|l: int| 0 <= l < before.len() && before[l] == vars@[j];
                        assert(from[l] == vars@[j]);
                    }
                }
            }
            n = n + 1;
        }
        let bounds = bounds_from_facts(&facts);
        proof {
            assert forall|s: Seq<TermView>, i: Interp, env: IntEnv|
                goal_inv(s, e) && #[trigger] forced_hold(s, e, forced@, i) && #[trigger] integral(
                    s,
                    e,
                    i,
                    env,
                ) implies within(bounds@, env) by {
                assert forall|f: int| 0 <= f < facts@.len() implies fact_holds(
                    (#[trigger] facts@[f]).terms@,
                    facts@[f].constant as int,
                    facts@[f].dir,
                    env,
                ) by {
                    let v = from[f];
                    let t = e.term_of[v as int];
                    assert(e.parsed.contains_key(v));
                    assert(e.j.constraint.contains_key(v));
                    assert(constraint_ok(s[t as int], t, e.j.constraint[v]));
                    assert(parsed_ok(s, t, e.parsed[v]));
                    assert forall|k: int| 0 <= k < e.parsed[v].terms.len() implies num(
                        eval(s, i, (#[trigger] e.parsed[v].terms[k]).0 as int),
                    ) == env(e.parsed[v].terms[k].0) as real by {}
                    lemma_fact_of(s, i, t, e.parsed[v], e.j.constraint[v] is Eq, env);
                }
                assert(all_hold(facts@, env));
            }
            assert forall|v: Var|
                e.parsed.contains_key(v) && forced@.contains(v) && (#[trigger] forced_fact(
                    e,
                    v,
                )) is Some implies settled(forced_fact(e, v)->0, bounds@) by {
                assert(vars@.to_set().contains(v));
                let j = choose|j: int| 0 <= j < vars@.len() && vars@[j] == v;
                assert(from.contains(vars@[j]));
                let f = choose|f: int| 0 <= f < from.len() && from[f] == v;
                assert forall|x: TermId| #[trigger] bounds_of(
                    propagated(
                        facts@[f].terms@,
                        facts@[f].constant,
                        facts@[f].dir,
                        bounds@,
                        facts@[f].terms@.len() as int,
                    ),
                    x,
                ) == bounds_of(bounds@, x) by {}
            }
        }
        bounds
    }
}

/// A variable that a rewriting pass introduced, or one that was declared under a
/// name of that kind.
pub open spec fn internal_var(s: Seq<TermView>, names: Seq<String>, t: TermId) -> bool {
    t < s.len() && s[t as int].op == Op::Var && match s[t as int].data {
        DataView::Sym(Symbol::User(n)) => n < names.len() && (is_prefix("__oxiz"@, names[n as int]@)
            || is_prefix("$p"@, names[n as int]@)),
        DataView::Sym(_) => true,
        _ => false,
    }
}

/// Whether a term is a variable that no user declared.
pub fn is_internal_var(store: &TermStore, term: TermId) -> (b: bool)
    ensures
        b == internal_var(store.terms(), store.names@, term),
{
    let node = match store.get(term) {
        None => {
            return false;
        },
        Some(node) => node,
    };
    if node.op != Op::Var {
        return false;
    }
    match &node.data {
        Data::Sym(Symbol::User(n)) => {
            let n: usize = *n;
            n < store.names.len() && (has_prefix(store.names[n].as_str(), "__oxiz") || has_prefix(
                store.names[n].as_str(),
                "$p",
            ))
        },
        Data::Sym(_) => true,
        _ => false,
    }
}

/// A numeric argument of a function below an assertion that is no internal
/// variable.
pub open spec fn int_uf_arg(
    s: Seq<TermView>,
    names: Seq<String>,
    assertions: Seq<TermId>,
    x: TermId,
) -> bool {
    &&& x < s.len()
    &&& numeric_sort(s[x as int].sort)
    &&& !internal_var(s, names, x)
    &&& exists|a: int, p: TermId|
        0 <= a < assertions.len() && #[trigger] uf_arg_at(s, assertions[a], p, x)
}

pub open spec fn uf_arg_at(s: Seq<TermView>, assertion: TermId, p: TermId, x: TermId) -> bool {
    subterm(s, assertion, p) && s[p as int].op == Op::Apply && s[p as int].args.contains(x)
}

/// The numeric function arguments below the assertions, each once.
pub fn collect_int_uf_args(store: &TermStore, assertions: &Vec<TermId>) -> (out: Vec<TermId>)
    requires
        store.wf(),
        forall|a: int|
            0 <= a < assertions@.len() ==> (#[trigger] assertions@[a]) < store.terms().len(),
    ensures
        out@.no_duplicates(),
        forall|x: TermId| #[trigger]
            out@.contains(x) <==> int_uf_arg(store.terms(), store.names@, assertions@, x),
{
    let ghost s = store.terms();
    let ghost names = store.names@;
    let mut seen: FxHashSet<TermId> = set_new();
    let mut out: Vec<TermId> = Vec::new();
    let mut a: usize = 0;
    while a < assertions.len()
        invariant
            a <= assertions.len(),
            store.wf(),
            s == store.terms(),
            names == store.names@,
            forall|j: int| 0 <= j < assertions@.len() ==> (#[trigger] assertions@[j]) < s.len(),
            out@.no_duplicates(),
            forall|x: TermId| #[trigger] out@.contains(x) <==> seen@.contains(x),
            forall|x: TermId| #[trigger]
                seen@.contains(x) ==> int_uf_arg(s, names, assertions@, x),
            forall|j: int, p: TermId, x: TermId|
                0 <= j < a && #[trigger] uf_arg_at(s, assertions@[j], p, x) && numeric_sort(
                    s[x as int].sort,
                ) && !internal_var(s, names, x) ==> seen@.contains(x),
        decreases assertions.len() - a,
    {
        let top: TermId = assertions[a];
        assert(assertions@[a as int] < s.len());
        let list = collect_subterms(store, top);
        let mut n: usize = 0;
        while n < list.len()
            invariant
                a < assertions.len(),
                top == assertions@[a as int],
                n <= list.len(),
                store.wf(),
                s == store.terms(),
                names == store.names@,
                top < s.len(),
                lists_reach(list@, s, Map::empty(), top),
                out@.no_duplicates(),
                forall|x: TermId| #[trigger] out@.contains(x) <==> seen@.contains(x),
                forall|x: TermId| #[trigger]
                    seen@.contains(x) ==> int_uf_arg(s, names, assertions@, x),
                forall|j: int, p: TermId, x: TermId|
                    0 <= j < a && #[trigger] uf_arg_at(s, assertions@[j], p, x) && numeric_sort(
                        s[x as int].sort,
                    ) && !internal_var(s, names, x) ==> seen@.contains(x),
                forall|j: int, k: int|
                    0 <= j < n && s[list@[j] as int].op == Op::Apply && 0 <= k
                        < s[list@[j] as int].args.len() ==> arg_seen(
                        s,
                        names,
                        seen@,
                        #[trigger] s[list@[j] as int].args[k],
                    ),
            decreases list.len() - n,
        {
            let st: TermId = list[n];
            proof {
                assert(list@.contains(st));
                lemma_reach_le(s, Map::empty(), top, st);
                assert(node_below(s, st as int));
            }
            if store.nodes[st].op == Op::Apply {
                let mut k: usize = 0;
                while k < store.nodes[st].args.len()
                    invariant
                        a < assertions.len(),
                        top == assertions@[a as int],
                        n < list.len(),
                        st == list@[n as int],
                        store.wf(),
                        s == store.terms(),
                        names == store.names@,
                        st < s.len(),
                        subterm(s, top, st),
                        s[st as int].op == Op::Apply,
                        node_below(s, st as int),
                        k <= s[st as int].args.len(),
                        out@.no_duplicates(),
                        forall|x: TermId| #[trigger] out@.contains(x) <==> seen@.contains(x),
                        forall|x: TermId| #[trigger]
                            seen@.contains(x) ==> int_uf_arg(s, names, assertions@, x),
                        forall|j: int, p: TermId, x: TermId|
                            0 <= j < a && #[trigger] uf_arg_at(s, assertions@[j], p, x)
                                && numeric_sort(s[x as int].sort) && !internal_var(s, names, x)
                                ==> seen@.contains(x),
                        forall|j: int, l: int|
                            0 <= j < n && s[list@[j] as int].op == Op::Apply && 0 <= l
                                < s[list@[j] as int].args.len() ==> arg_seen(
                                s,
                                names,
                                seen@,
                                #[trigger] s[list@[j] as int].args[l],
                            ),
                        forall|l: int|
                            0 <= l < k ==> arg_seen(s, names, seen@, #[trigger] s[st as int].args[l]),
                    decreases s[st as int].args.len() - k,
                {
                    let x: TermId = store.nodes[st].args[k];
                    assert(x == s[st as int].args[k as int]);
                    if is_numeric_sort(store.nodes[x].sort) && !is_internal_var(store, x) {
                        let ghost before = out@;
                        if set_insert(&mut seen, x) {
                            out.push(x);
                            proof {
                                assert forall|y: TermId| #[trigger] out@.contains(y)
                                    <==> before.contains(y) || y == x by {
                                    if before.contains(y) {
                                        let j = choose|j: int|
                                            0 <= j < before.len() && before[j] == y;
                                        assert(out@[j] == y);
                                    }
                                    assert(out@[before.len() as int] == x);
                                    if out@.contains(y) {
                                        let j = choose|j: int|
                                            0 <= j < out@.len() && out@[j] == y;
                                        if j < before.len() {
                                            assert(before[j] == y);
                                        }
                                    }
                                }
                                assert(!before.contains(x));
                            }
                        }
                        proof {
                            assert(s[st as int].args.contains(x));
                            assert(uf_arg_at(s, assertions@[a as int], st, x));
                            assert(int_uf_arg(s, names, assertions@, x));
                        }
                    }
                    k = k + 1;
                }
            }
            n = n + 1;
        }
        proof {
            assert forall|j: int, p: TermId, x: TermId|
                0 <= j < a + 1 && #[trigger] uf_arg_at(s, assertions@[j], p, x) && numeric_sort(
                    s[x as int].sort,
                ) && !internal_var(s, names, x) implies seen@.contains(x) by {
                if j == a {
                    assert(list@.contains(p));
                    let l = choose|l: int| 0 <= l < list@.len() && list@[l] == p;
                    let k = choose|k: int|
                        0 <= k < s[p as int].args.len() && s[p as int].args[k] == x;
                    assert(arg_seen(s, names, seen@, s[list@[l] as int].args[k]));
                }
            }
        }
        a = a + 1;
    }
    out
}

spec fn arg_seen(s: Seq<TermView>, names: Seq<String>, seen: Set<TermId>, x: TermId) -> bool {
    numeric_sort(s[x as int].sort) && !internal_var(s, names, x) ==> seen.contains(x)
}

/// A term that is worth a case split: it has not been split, both bounds are
/// known, the range is small and not empty, and the value that the term has now,
/// if any, lies in it.
pub open spec fn splittable(
    t: TermId,
    b: Map<TermId, (Option<i64>, Option<i64>)>,
    split: Set<TermId>,
    values: Map<TermId, i64>,
) -> bool {
    &&& !split.contains(t)
    &&& bounds_of(b, t).0 is Some
    &&& bounds_of(b, t).1 is Some
    &&& 0 <= bounds_of(b, t).1->0 - bounds_of(b, t).0->0 <= MAX_INT_CASE_RANGE
    &&& values.contains_key(t) ==> in_bounds(bounds_of(b, t), values[t] as int)
}

/// The tighter range goes first, then the lower one.
pub open spec fn split_before(a: (TermId, i64, i64), b: (TermId, i64, i64)) -> bool {
    a.2 - a.1 < b.2 - b.1 || (a.2 - a.1 == b.2 - b.1 && a.1 <= b.1)
}

/// `list` with `c` behind everything that goes before it or ties with it.
pub open spec fn placed(list: Seq<(TermId, i64, i64)>, c: (TermId, i64, i64)) -> Seq<
    (TermId, i64, i64),
>
    decreases list.len(),
{
    if list.len() == 0 || split_before(list.last(), c) {
        list.push(c)
    } else {
        placed(list.drop_last(), c).push(list.last())
    }
}

/// The candidates among the first `n` terms, tightest ranges first.
pub open spec fn ranked(
    args: Seq<TermId>,
    b: Map<TermId, (Option<i64>, Option<i64>)>,
    split: Set<TermId>,
    values: Map<TermId, i64>,
    n: int,
) -> Seq<(TermId, i64, i64)>
    decreases n,
{
    if n <= 0 {
        Seq::empty()
    } else {
        let r = ranked(args, b, split, values, n - 1);
        let t = args[n - 1];
        if splittable(t, b, split, values) {
            placed(r, (t, bounds_of(b, t).0->0, bounds_of(b, t).1->0))
        } else {
            r
        }
    }
}

fn place(list: &mut Vec<(TermId, i64, i64)>, c: (TermId, i64, i64))
    requires
        0 <= c.2 - c.1 <= MAX_INT_CASE_RANGE,
        forall|k: int|
            0 <= k < old(list)@.len() ==> 0 <= (#[trigger] old(list)@[k]).2 - old(list)@[k].1
                <= MAX_INT_CASE_RANGE,
    ensures
        final(list)@ == placed(old(list)@, c),
        forall|k: int|
            0 <= k < final(list)@.len() ==> 0 <= (#[trigger] final(list)@[k]).2 - final(list)@[k].1
                <= MAX_INT_CASE_RANGE,
{
    let ghost before = list@;
    let mut i: usize = list.len();
    let width: i64 = c.2 - c.1;
    proof {
        assert(before.take(before.len() as int) =~= before);
        assert(placed(before, c) + before.skip(before.len() as int) =~= placed(before, c));
    }
    loop
        invariant
            i <= list.len(),
            list@ == before,
            width == c.2 - c.1,
            forall|k: int|
                0 <= k < before.len() ==> 0 <= (#[trigger] before[k]).2 - before[k].1
                    <= MAX_INT_CASE_RANGE,
            placed(before, c) == placed(before.take(i as int), c) + before.skip(i as int),
        ensures
            i <= list.len(),
            list@ == before,
            placed(before, c) == before.take(i as int).push(c) + before.skip(i as int),
        decreases i,
    {
        if i == 0 {
            break;
        }
        let last = list[i - 1];
        assert(0 <= before[i - 1].2 - before[i - 1].1 <= MAX_INT_CASE_RANGE);
        let w: i64 = last.2 - last.1;
        proof {
            assert(before.take(i as int).last() == before[i - 1]);
            assert(before.take(i as int).drop_last() =~= before.take(i - 1));
        }
        if w < width || (w == width && last.1 <= c.1) {
            break;
        }
        proof {
            let p = placed(before.take(i - 1), c);
            assert(p.push(before[i - 1]) + before.skip(i as int) =~= p + before.skip(i - 1));
        }
        i = i - 1;
    }
    list.insert(i, c);
    proof {
        assert(list@ =~= before.take(i as int).push(c) + before.skip(i as int));
        assert forall|k: int| 0 <= k < list@.len() implies 0 <= (#[trigger] list@[k]).2 - list@[k].1
            <= MAX_INT_CASE_RANGE by {
            if k < i {
                assert(list@[k] == before[k]);
            } else if k > i {
                assert(list@[k] == before[k - 1]);
            }
        }
    }
}

/// The terms to split in one round, with their ranges.
pub fn select_case_splits(
    args: &Vec<TermId>,
    bounds: &Bounds,
    split: &FxHashSet<TermId>,
    values: &FxHashMap<TermId, i64>,
) -> (r: Vec<(TermId, i64, i64)>)
    ensures
        ({
            let all = ranked(args@, bounds@, split@, values@, args@.len() as int);
            r@ == all.take(if all.len() <= PER_ROUND_CAP {
                all.len() as int
            } else {
                PER_ROUND_CAP as int
            })
        }),
        forall|k: int|
            0 <= k < r@.len() ==> 0 <= (#[trigger] r@[k]).2 - r@[k].1 <= MAX_INT_CASE_RANGE,
{
    let mut list: Vec<(TermId, i64, i64)> = Vec::new();
    let mut n: usize = 0;
    while n < args.len()
        invariant
            n <= args.len(),
            list@ == ranked(args@, bounds@, split@, values@, n as int),
            forall|k: int|
                0 <= k < list@.len() ==> 0 <= (#[trigger] list@[k]).2 - list@[k].1
                    <= MAX_INT_CASE_RANGE,
        decreases args.len() - n,
    {
        let t: TermId = args[n];
        if !set_contains(split, t) {
            if let Some(b) = map_get(bounds, t) {
                if let (Some(lo), Some(hi)) = *b {
                    let small = match hi.checked_sub(lo) {
                        Some(w) => 0 <= w && w <= MAX_INT_CASE_RANGE,
                        None => false,
                    };
                    let fitting = match map_get(values, t) {
                        Some(v) => lo <= *v && *v <= hi,
                        None => true,
                    };
                    if small && fitting {
                        place(&mut list, (t, lo, hi));
                    }
                }
            }
        }
        n = n + 1;
    }
    list.truncate(PER_ROUND_CAP);
    list
}

/// The node of an integer literal of the given sort.
pub open spec fn literal_node(n: i64, sort: SortId) -> TermView {
    TermView {
        op: Op::IntConst,
        args: Seq::empty(),
        data: DataView::Int(n < 0, word_digits(magnitude(n as int))),
        sort,
    }
}

/// The equation between a term and an integer literal of its sort.
pub(crate) fn mk_value_equation(store: &mut TermStore, term: TermId, n: i64) -> (r: (TermId, Ghost<
    TermId,
>))
    requires
        old(store).wf(),
        term < old(store).terms().len(),
    ensures
        grew(old(store), final(store)),
        value_equation(final(store).terms(), term, n, r.1@, r.0),
{
    let ghost s0 = store.terms();
    let sort = store.nodes[term].sort;
    let args: Vec<TermId> = Vec::new();
    assert(args@ =~= Seq::<TermId>::empty());
    let lit = store.intern(Op::IntConst, args, Data::Int(BigNum::from_i64(n)), sort);
    let ghost s1 = store.terms();
    proof {
        assert(s1[lit as int] == literal_node(n, sort));
        assert(s1[term as int] == s0[term as int]);
    }
    let eq = store.mk_eq(term, lit);
    proof {
        let s2 = store.terms();
        assert(s2[lit as int] == s1[lit as int]);
        assert(s2[term as int] == s0[term as int]);
    }
    (eq, Ghost(lit))
}

/// `eq` is the equation between `term` and the literal `lit` for `n`.
pub open spec fn value_equation(
    s: Seq<TermView>,
    term: TermId,
    n: i64,
    lit: TermId,
    eq: TermId,
) -> bool {
    &&& term < s.len()
    &&& eq < s.len()
    &&& node_at(s, lit, literal_node(n, s[term as int].sort))
    &&& is_equation(s, term, lit, eq)
}

/// The literal `l` stands for the equation between `term` and `n`, which was
/// encoded.
pub open spec fn value_literal(
    s: Seq<TermView>,
    e: GoalView,
    term: TermId,
    n: i64,
    l: Lit,
) -> bool {
    exists|lit: TermId, eq: TermId| #[trigger]
        value_equation(s, term, n, lit, eq) && means(s, e.term_of, l, eq)
            && e.j.memo.contains_key(eq)
}

pub(crate) proof fn lemma_value_literal_extend(
    s0: Seq<TermView>,
    e0: GoalView,
    s1: Seq<TermView>,
    e1: GoalView,
    term: TermId,
    n: i64,
    l: Lit,
)
    requires
        terms_wf(s0),
        terms_wf(s1),
        extends(s0, s1),
        e0.term_of.len() <= e1.term_of.len(),
        forall|v: int| 0 <= v < e0.term_of.len() ==> #[trigger] e1.term_of[v] == e0.term_of[v],
        forall|v: int| 0 <= v < e0.term_of.len() ==> (#[trigger] e0.term_of[v]) < s0.len(),
        forall|t: TermId| #[trigger] e0.j.memo.contains_key(t) ==> e1.j.memo.contains_key(t),
        value_literal(s0, e0, term, n, l),
    ensures
        value_literal(s1, e1, term, n, l),
{
    let (lit, eq) = choose|lit: TermId, eq: TermId| #[trigger]
        value_equation(s0, term, n, lit, eq) && means(s0, e0.term_of, l, eq)
            && e0.j.memo.contains_key(eq);
    assert(s1[term as int] == s0[term as int]);
    assert(s1[lit as int] == s0[lit as int]);
    assert(s1[eq as int] == s0[eq as int]);
    lemma_means_extend(s0, e0.term_of, s1, e1.term_of, l, eq);
    assert(value_equation(s1, term, n, lit, eq));
}

/// The equation between a number and a literal holds where the number has that
/// value.
pub proof fn lemma_value_equation(
    s: Seq<TermView>,
    i: Interp,
    term: TermId,
    n: i64,
    lit: TermId,
    eq: TermId,
)
    requires
        terms_wf(s),
        numeric_sort(s[term as int].sort),
        value_equation(s, term, n, lit, eq),
    ensures
        holds(s, i, eq) == (num(eval(s, i, term as int)) == n as real),
{
    lemma_eq_holds(s, term, lit, eq);
    lemma_eval(s, i, lit);
    crate::numbers::lemma_word_digits(magnitude(n as int));
    assert(holds(s, i, eq) == eqv(
        s[term as int].sort,
        eval(s, i, term as int),
        eval(s, i, lit as int),
    ));
}

/// A value literal is true exactly where the term has the value.
pub proof fn lemma_value_literal(
    s: Seq<TermView>,
    e: GoalView,
    i: Interp,
    term: TermId,
    n: i64,
    l: Lit,
)
    requires
        terms_wf(s),
        numeric_sort(s[term as int].sort),
        value_literal(s, e, term, n, l),
    ensures
        lit_true(s, i, e.term_of, l) == (num(eval(s, i, term as int)) == n as real),
{
    let (lit, eq) = choose|lit: TermId, eq: TermId| #[trigger]
        value_equation(s, term, n, lit, eq) && means(s, e.term_of, l, eq)
            && e.j.memo.contains_key(eq);
    lemma_value_equation(s, i, term, n, lit, eq);
    assert(lit_true(s, i, e.term_of, l) == holds(s, i, eq));
}

/// The clause lists a literal for each value of the range.
pub open spec fn case_clause(
    s: Seq<TermView>,
    e: GoalView,
    term: TermId,
    lo: i64,
    hi: i64,
    clause: Seq<Lit>,
) -> bool {
    &&& clause.len() == hi - lo + 1
    &&& forall|k: int|
        0 <= k < clause.len() ==> value_literal(
            s,
            e,
            term,
            (lo + k) as i64,
            #[trigger] clause[k],
        )
}

/// The state without its last clause.
pub open spec fn without_last_clause(e: GoalView) -> GoalView {
    GoalView { clauses: e.clauses.drop_last(), ..e }
}

/// The disjunction over a range of values is true wherever the term has an
/// integer value in the range: it follows from the bounds.
pub proof fn case_split_is_entailed(
    s: Seq<TermView>,
    e: GoalView,
    i: Interp,
    term: TermId,
    lo: i64,
    hi: i64,
    clause: Seq<Lit>,
    v: int,
)
    requires
        terms_wf(s),
        term < s.len(),
        numeric_sort(s[term as int].sort),
        case_clause(s, e, term, lo, hi, clause),
        num(eval(s, i, term as int)) == v as real,
        lo <= v <= hi,
    ensures
        clause_true(s, i, e.term_of, clause),
{
    let k = v - lo;
    assert(value_literal(s, e, term, (lo + k) as i64, clause[k]));
    lemma_value_literal(s, e, i, term, v as i64, clause[k]);
    assert(lit_true(s, i, e.term_of, clause[k]));
}

impl GoalState {
    /// Literals for the equations between a term and the values of a range.
    pub(crate) fn value_literals(&mut self, store: &mut TermStore, term: TermId, lo: i64, hi: i64) -> (lits: Vec<
        Lit,
    >)
        requires
            goal_inv(old(store).terms(), old(self)@),
            term < old(store).terms().len(),
            lo <= hi,
        ensures
            grew(old(store), final(store)),
            good(old(store).terms(), old(self)@, final(store).terms(), final(self)@),
            case_clause(final(store).terms(), final(self)@, term, lo, hi, lits@),
    {
        let ghost s0 = store.terms();
        let ghost e0 = self@;
        let mut lits: Vec<Lit> = Vec::new();
        let mut k: i64 = lo;
        proof {
            crate::encode::lemma_good_refl(s0, e0);
        }
        loop
            invariant_except_break
                lo <= k <= hi,
                s0 == old(store).terms(),
                e0 == old(self)@,
                goal_inv(s0, e0),
                term < s0.len(),
                grew(old(store), store),
                good(s0, e0, store.terms(), self@),
                lits@.len() == k - lo,
                forall|j: int|
                    0 <= j < lits@.len() ==> value_literal(
                        store.terms(),
                        self@,
                        term,
                        (lo + j) as i64,
                        #[trigger] lits@[j],
                    ),
            ensures
                grew(old(store), store),
                good(s0, e0, store.terms(), self@),
                case_clause(store.terms(), self@, term, lo, hi, lits@),
            decreases hi - k,
        {
            let ghost s1 = store.terms();
            let ghost e1 = self@;
            let (eq, lit) = mk_value_equation(store, term, k);
            let ghost s2 = store.terms();
            proof {
                crate::encode::lemma_good_grow(s1, s2, e1);
                crate::encode::lemma_good_trans(s0, e0, s1, e1, s2, e1);
            }
            let l = self.encode_depth(eq, store, 0);
            let ghost s3 = store.terms();
            let ghost e3 = self@;
            let ghost before = lits@;
            lits.push(l);
            proof {
                crate::encode::lemma_good_trans(s0, e0, s2, e1, s3, e3);
                assert(value_literal(s3, e3, term, k, l)) by {
                    assert(s3[term as int] == s2[term as int]);
                    assert(s3[lit@ as int] == s2[lit@ as int]);
                    assert(s3[eq as int] == s2[eq as int]);
                    assert(value_equation(s3, term, k, lit@, eq));
                }
                assert forall|j: int| 0 <= j < lits@.len() implies value_literal(
                    s3,
                    e3,
                    term,
                    (lo + j) as i64,
                    #[trigger] lits@[j],
                ) by {
                    if j < before.len() {
                        assert(value_literal(s1, e1, term, (lo + j) as i64, before[j]));
                        lemma_value_literal_extend(
                            s1,
                            e1,
                            s3,
                            e3,
                            term,
                            (lo + j) as i64,
                            before[j],
                        );
                    }
                }
            }
            if k == hi {
                break;
            }
            k = k + 1;
        }
        lits
    }

    /// Asserts that a term has one of the values of a range.
    pub fn assert_case_split(&mut self, store: &mut TermStore, term: TermId, lo: i64, hi: i64)
        requires
            goal_inv(old(store).terms(), old(self)@),
            term < old(store).terms().len(),
            lo <= hi,
        ensures
            grew(old(store), final(store)),
            goal_inv(final(store).terms(), final(self)@),
            final(self)@.clauses.len() > 0,
            good(
                old(store).terms(),
                old(self)@,
                final(store).terms(),
                without_last_clause(final(self)@),
            ),
            case_clause(
                final(store).terms(),
                final(self)@,
                term,
                lo,
                hi,
                final(self)@.clauses.last(),
            ),
    {
        let lits = self.value_literals(store, term, lo, hi);
        let ghost s1 = store.terms();
        let ghost e1 = self@;
        self.add_clause(lits);
        proof {
            let e2 = self@;
            assert(e2.clauses.drop_last() =~= e1.clauses);
            assert forall|k: int| 0 <= k < lits@.len() implies (#[trigger] lits@[k]).var
                < e2.term_of.len() by {
                assert(value_literal(s1, e1, term, (lo + k) as i64, lits@[k]));
            }
            assert forall|k: int| 0 <= k < e2.clauses.len() implies lits_within(
                #[trigger] e2.clauses[k],
                e2.term_of.len() as int,
            ) by {
                if k < e1.clauses.len() {
                    assert(e2.clauses[k] == e1.clauses[k]);
                }
            }
            assert(goal_inv(s1, e2));
        }
    }

    /// One round of case splits.  Gives whether there was anything to split.
    ///
    /// `values` holds the values that the arithmetic engine gives terms at the
    /// moment, `forced` the comparisons that are forced at the root of the
    /// search.
    pub fn refine_int_case_split(
        &mut self,
        store: &mut TermStore,
        split: &mut FxHashSet<TermId>,
        rounds: &mut u32,
        integer_arithmetic: bool,
        forced: &FxHashSet<Var>,
        values: &FxHashMap<TermId, i64>,
    ) -> (r: bool)
        requires
            goal_inv(old(store).terms(), old(self)@),
            forall|a: int|
                0 <= a < old(self)@.j.assertions.len() ==> (#[trigger] old(self)@.j.assertions[a])
                    < old(store).terms().len(),
        ensures
            grew(old(store), final(store)),
            crate::state::growth(
                old(store).terms(),
                old(self)@,
                final(store).terms(),
                final(self)@,
            ),
            !r ==> final(self)@ == old(self)@ && *final(store) == *old(store) && *final(rounds)
                == *old(rounds) && final(split)@ == old(split)@,
            r ==> integer_arithmetic && *old(rounds) < MAX_CASE_SPLIT_ROUNDS && *final(rounds)
                == *old(rounds) + 1,
            integer_arithmetic && *old(rounds) < MAX_CASE_SPLIT_ROUNDS ==> exists|
                list: Seq<(TermId, i64, i64)>,
                args: Seq<TermId>,
                b: Map<TermId, (Option<i64>, Option<i64>)>,
            | #[trigger]
                split_round(
                    old(store),
                    old(self)@,
                    forced@,
                    values@,
                    old(split)@,
                    args,
                    b,
                    list,
                ) && r == (list.len() > 0) && splits_added(
                    old(self)@,
                    final(store).terms(),
                    final(self)@,
                    list,
                    list.len() as int,
                ) && forall|t: TermId| #[trigger]
                    final(split)@.contains(t) <==> old(split)@.contains(t) || exists|k: int|
                        0 <= k < list.len() && (#[trigger] list[k]).0 == t,
    {
        proof {
            crate::state::lemma_growth_refl(store.terms(), self@);
        }
        if !integer_arithmetic {
            return false;
        }
        if *rounds >= MAX_CASE_SPLIT_ROUNDS {
            return false;
        }
        let ghost s0 = store.terms();
        let ghost e0 = self@;
        proof {
            assert forall|a: int| 0 <= a < self.assertions@.len() implies (
            #[trigger] self.assertions@[a]) < s0.len() by {
                assert(e0.j.assertions[a] == self.assertions@[a]);
            }
        }
        let args = collect_int_uf_args(store, &self.assertions);
        let bounds = self.compute_int_bounds(forced);
        let list = select_case_splits(&args, &bounds, split, values);
        assert(split_round(
            old(store),
            e0,
            forced@,
            values@,
            split@,
            args@,
            bounds@,
            list@,
        ));
        if list.len() == 0 {
            return false;
        }
        proof {
            lemma_ranked_among(args@, bounds@, split@, values@, args@.len() as int);
            let all = ranked(args@, bounds@, split@, values@, args@.len() as int);
            assert forall|k: int| 0 <= k < list@.len() implies (#[trigger] list@[k]).0 < s0.len() by {
                assert(list@[k] == all[k]);
                assert(args@.contains(all[k].0));
            }
        }
        let ghost split0 = split@;
        let mut n: usize = 0;
        while n < list.len()
            invariant
                n <= list.len(),
                s0 == old(store).terms(),
                e0 == old(self)@,
                goal_inv(s0, e0),
                crate::state::growth(s0, e0, store.terms(), self@),
                grew(old(store), store),
                goal_inv(store.terms(), self@),
                forall|k: int|
                    0 <= k < list@.len() ==> 0 <= (#[trigger] list@[k]).2 - list@[k].1
                        <= MAX_INT_CASE_RANGE && list@[k].0 < s0.len(),
                splits_added(e0, store.terms(), self@, list@, n as int),
                split0 == old(split)@,
                forall|t: TermId| #[trigger]
                    split@.contains(t) <==> split0.contains(t) || exists|k: int|
                        0 <= k < n && (#[trigger] list@[k]).0 == t,
            decreases list.len() - n,
        {
            let (term, lo, hi) = list[n];
            let ghost s1 = store.terms();
            let ghost e1 = self@;
            let ghost before = split@;
            assert(list@[n as int].0 < s0.len());
            self.assert_case_split(store, term, lo, hi);
            proof {
                lemma_case_growth(s1, e1, store.terms(), self@);
                crate::state::lemma_growth_trans(s0, e0, s1, e1, store.terms(), self@);
                lemma_splits_added(e0, s1, e1, store.terms(), self@, list@, n as int);
            }
            set_insert(split, term);
            proof {
                assert forall|t: TermId| #[trigger] split@.contains(t) <==> split0.contains(t)
                    || exists|k: int| 0 <= k < n + 1 && (#[trigger] list@[k]).0 == t by {
                    if before.contains(t) && !split0.contains(t) {
                        let k = choose|k: int| 0 <= k < n && (#[trigger] list@[k]).0 == t;
                        assert(list@[k].0 == t);
                    }
                    if t == term {
                        assert(list@[n as int].0 == t);
                    }
                }
            }
            n = n + 1;
        }
        *rounds = *rounds + 1;
        proof {
            assert(split_round(
                old(store),
                e0,
                forced@,
                values@,
                split0,
                args@,
                bounds@,
                list@,
            ));
        }
        true
    }
}

/// The choice of one round: the numeric function arguments, the bounds that the
/// forced comparisons entail, and the terms picked by them.
pub open spec fn split_round(
    store: &TermStore,
    e: GoalView,
    forced: Set<Var>,
    values: Map<TermId, i64>,
    split: Set<TermId>,
    args: Seq<TermId>,
    b: Map<TermId, (Option<i64>, Option<i64>)>,
    list: Seq<(TermId, i64, i64)>,
) -> bool {
    let all = ranked(args, b, split, values, args.len() as int);
    &&& forall|x: TermId| #[trigger]
        args.contains(x) <==> int_uf_arg(store.terms(), store.names@, e.j.assertions, x)
    &&& forall|i: Interp, env: IntEnv| #[trigger]
        forced_hold(store.terms(), e, forced, i) && #[trigger] integral(store.terms(), e, i, env)
            ==> within(b, env)
    &&& forall|v: Var|
        e.parsed.contains_key(v) && forced.contains(v) && (#[trigger] forced_fact(e, v)) is Some
            ==> settled(forced_fact(e, v)->0, b)
    &&& list == all.take(if all.len() <= PER_ROUND_CAP {
        all.len() as int
    } else {
        PER_ROUND_CAP as int
    })
}

/// The clauses of the first `n` splits have been added; every other new clause
/// is valid.
pub open spec fn splits_added(
    e0: GoalView,
    s: Seq<TermView>,
    e: GoalView,
    list: Seq<(TermId, i64, i64)>,
    n: int,
) -> bool {
    &&& e0.clauses.len() <= e.clauses.len()
    &&& forall|k: int| 0 <= k < e0.clauses.len() ==> #[trigger] e.clauses[k] == e0.clauses[k]
    &&& forall|j: int|
        0 <= j < n ==> split_clause_added(e0, s, e, (#[trigger] list[j]).0, list[j].1, list[j].2)
    &&& forall|k: int|
        e0.clauses.len() <= k < e.clauses.len() ==> crate::state::valid_clause(
            s,
            e.term_of,
            #[trigger] e.clauses[k],
        ) || is_split_clause(s, e, list, n, e.clauses[k])
    &&& e.j.assertions == e0.j.assertions
}

pub open spec fn split_clause_added(
    e0: GoalView,
    s: Seq<TermView>,
    e: GoalView,
    term: TermId,
    lo: i64,
    hi: i64,
) -> bool {
    exists|k: int|
        e0.clauses.len() <= k < e.clauses.len() && case_clause(
            s,
            e,
            term,
            lo,
            hi,
            #[trigger] e.clauses[k],
        )
}

pub open spec fn is_split_clause(
    s: Seq<TermView>,
    e: GoalView,
    list: Seq<(TermId, i64, i64)>,
    n: int,
    clause: Seq<Lit>,
) -> bool {
    exists|j: int|
        0 <= j < n && case_clause(
            s,
            e,
            (#[trigger] list[j]).0,
            list[j].1,
            list[j].2,
            clause,
        )
}

proof fn lemma_case_clause_extend(
    s0: Seq<TermView>,
    e0: GoalView,
    s1: Seq<TermView>,
    e1: GoalView,
    term: TermId,
    lo: i64,
    hi: i64,
    clause: Seq<Lit>,
)
    requires
        terms_wf(s0),
        terms_wf(s1),
        extends(s0, s1),
        e0.term_of.len() <= e1.term_of.len(),
        forall|v: int| 0 <= v < e0.term_of.len() ==> #[trigger] e1.term_of[v] == e0.term_of[v],
        forall|v: int| 0 <= v < e0.term_of.len() ==> (#[trigger] e0.term_of[v]) < s0.len(),
        forall|t: TermId| #[trigger] e0.j.memo.contains_key(t) ==> e1.j.memo.contains_key(t),
        case_clause(s0, e0, term, lo, hi, clause),
    ensures
        case_clause(s1, e1, term, lo, hi, clause),
{
    assert forall|k: int| 0 <= k < clause.len() implies value_literal(
        s1,
        e1,
        term,
        (lo + k) as i64,
        #[trigger] clause[k],
    ) by {
        lemma_value_literal_extend(s0, e0, s1, e1, term, (lo + k) as i64, clause[k]);
    }
}

proof fn lemma_splits_added(
    e0: GoalView,
    s1: Seq<TermView>,
    e1: GoalView,
    s2: Seq<TermView>,
    e2: GoalView,
    list: Seq<(TermId, i64, i64)>,
    n: int,
)
    requires
        0 <= n < list.len(),
        goal_inv(s1, e1),
        goal_inv(s2, e2),
        splits_added(e0, s1, e1, list, n),
        e2.clauses.len() > 0,
        good(s1, e1, s2, without_last_clause(e2)),
        case_clause(s2, e2, list[n].0, list[n].1, list[n].2, e2.clauses.last()),
    ensures
        splits_added(e0, s2, e2, list, n + 1),
{
    let mid = without_last_clause(e2);
    assert forall|k: int| 0 <= k < e1.clauses.len() implies #[trigger] e2.clauses[k]
        == e1.clauses[k] by {
        assert(mid.clauses[k] == e1.clauses[k]);
    }
    assert forall|j: int| 0 <= j < n + 1 implies split_clause_added(
        e0,
        s2,
        e2,
        (#[trigger] list[j]).0,
        list[j].1,
        list[j].2,
    ) by {
        if j < n {
            assert(split_clause_added(e0, s1, e1, list[j].0, list[j].1, list[j].2));
            let k = choose|k: int|
                e0.clauses.len() <= k < e1.clauses.len() && case_clause(
                    s1,
                    e1,
                    list[j].0,
                    list[j].1,
                    list[j].2,
                    #[trigger] e1.clauses[k],
                );
            lemma_case_clause_extend(
                s1,
                e1,
                s2,
                e2,
                list[j].0,
                list[j].1,
                list[j].2,
                e1.clauses[k],
            );
            assert(e2.clauses[k] == e1.clauses[k]);
        } else {
            assert(e2.clauses[e2.clauses.len() - 1] == e2.clauses.last());
        }
    }
    assert forall|k: int| e0.clauses.len() <= k < e2.clauses.len() implies crate::state::valid_clause(
        s2,
        e2.term_of,
        #[trigger] e2.clauses[k],
    ) || is_split_clause(s2, e2, list, n + 1, e2.clauses[k]) by {
        if k < e1.clauses.len() {
            assert(e2.clauses[k] == e1.clauses[k]);
            if crate::state::valid_clause(s1, e1.term_of, e1.clauses[k]) {
                crate::state::lemma_valid_extend(
                    s1,
                    e1.term_of,
                    s2,
                    e2.term_of,
                    e1.clauses[k],
                );
            } else {
                let j = choose|j: int|
                    0 <= j < n && case_clause(
                        s1,
                        e1,
                        (#[trigger] list[j]).0,
                        list[j].1,
                        list[j].2,
                        e1.clauses[k],
                    );
                lemma_case_clause_extend(
                    s1,
                    e1,
                    s2,
                    e2,
                    list[j].0,
                    list[j].1,
                    list[j].2,
                    e1.clauses[k],
                );
                assert(list[j].0 == list[j].0);
            }
        } else if k < e2.clauses.len() - 1 {
            assert(mid.clauses[k] == e2.clauses[k]);
        } else {
            assert(list[n].0 == list[n].0);
        }
    }
}

proof fn lemma_ranked_among(
    args: Seq<TermId>,
    b: Map<TermId, (Option<i64>, Option<i64>)>,
    split: Set<TermId>,
    values: Map<TermId, i64>,
    n: int,
)
    requires
        0 <= n <= args.len(),
    ensures
        forall|k: int|
            0 <= k < ranked(args, b, split, values, n).len() ==> args.contains(
                (#[trigger] ranked(args, b, split, values, n)[k]).0,
            ),
    decreases n,
{
    if n > 0 {
        lemma_ranked_among(args, b, split, values, n - 1);
        let r = ranked(args, b, split, values, n - 1);
        let t = args[n - 1];
        if splittable(t, b, split, values) {
            lemma_placed_among(r, (t, bounds_of(b, t).0->0, bounds_of(b, t).1->0));
            let p = placed(r, (t, bounds_of(b, t).0->0, bounds_of(b, t).1->0));
            assert forall|k: int| 0 <= k < p.len() implies args.contains((#[trigger] p[k]).0) by {
                assert(r.contains(p[k]) || p[k].0 == t);
                if r.contains(p[k]) {
                    let j = choose|j: int| 0 <= j < r.len() && r[j] == p[k];
                    assert(args.contains(r[j].0));
                }
            }
        }
    }
}

proof fn lemma_placed_among(list: Seq<(TermId, i64, i64)>, c: (TermId, i64, i64))
    ensures
        forall|k: int|
            0 <= k < placed(list, c).len() ==> list.contains(#[trigger] placed(list, c)[k]) || placed(
                list,
                c,
            )[k] == c,
    decreases list.len(),
{
    let p = placed(list, c);
    if list.len() == 0 || split_before(list.last(), c) {
        assert forall|k: int| 0 <= k < p.len() implies list.contains(#[trigger] p[k]) || p[k] == c by {
            if k < list.len() {
                assert(list[k] == p[k]);
            }
        }
    } else {
        let pre = list.drop_last();
        lemma_placed_among(pre, c);
        let q = placed(pre, c);
        assert forall|k: int| 0 <= k < p.len() implies list.contains(#[trigger] p[k]) || p[k] == c by {
            if k < q.len() {
                assert(p[k] == q[k]);
                if pre.contains(q[k]) {
                    let j = choose|j: int| 0 <= j < pre.len() && pre[j] == q[k];
                    assert(list[j] == q[k]);
                }
            } else {
                assert(list[list.len() - 1] == p[k]);
            }
        }
    }
}

/// A good step and one more clause are growth.
pub(crate) proof fn lemma_case_growth(
    s0: Seq<TermView>,
    e0: GoalView,
    s1: Seq<TermView>,
    e1: GoalView,
)
    requires
        goal_inv(s0, e0),
        goal_inv(s1, e1),
        e1.clauses.len() > 0,
        good(s0, e0, s1, without_last_clause(e1)),
    ensures
        crate::state::growth(s0, e0, s1, e1),
{
    let e = without_last_clause(e1);
    assert(crate::state::growth(s0, e0, s1, e));
    assert(e.clauses.push(e1.clauses.last()) =~= e1.clauses);
    assert(crate::state::lits_within(
        e1.clauses[e1.clauses.len() - 1],
        e1.term_of.len() as int,
    ));
    crate::state::lemma_growth_clause(s1, e, e1, e1.clauses.last());
    crate::state::lemma_growth_trans(s0, e0, s1, e, s1, e1);
}

} // verus!
