//! How tight the bounds are that case splits go by.

use crate::encode::{clause_sat, lit_val, sat_all, Assignment};
use crate::int_case_split::{
    bounds_of, case_clause, derived, fact_holds, fact_of, fact_sum, forced_fact, in_bounds,
    int_uf_arg, internal_var, interval_excluding, lemma_divide, lemma_narrower_trans,
    lemma_quotient_range, lemma_tightened_narrower, narrower, placed, propagated,
    propagation_narrows, ranked, settled, split_before, split_clause_added, splits_added,
    splittable, tightened, uf_arg_at, value_literal, Dir, IntEnv,
};
use crate::linear::{ArithConstraintType, ParsedView};
use crate::state::{GoalView, Lit, Var};
use crate::terms::{node_below, numeric_sort, terms_wf, DataView, Op, Symbol, TermId, TermView};
use crate::text::is_prefix;
use crate::walk::subterm;
use vstd::prelude::*;

verus! {

pub open spec fn absolute(n: int) -> int {
    if n < 0 {
        -n
    } else {
        n
    }
}

/// The least that the first `n` terms other than the `k`-th add up to within their
/// bounds.
pub open spec fn least_sum(
    terms: Seq<(TermId, i64)>,
    k: int,
    b: Map<TermId, (Option<i64>, Option<i64>)>,
    n: int,
) -> int
    decreases n,
{
    if n <= 0 {
        0
    } else if n - 1 == k {
        least_sum(terms, k, b, n - 1)
    } else {
        let (x, a) = terms[n - 1];
        least_sum(terms, k, b, n - 1) + if a > 0 {
            a * (bounds_of(b, x).0->0)
        } else {
            a * (bounds_of(b, x).1->0)
        }
    }
}

/// The most that they add up to.
pub open spec fn greatest_sum(
    terms: Seq<(TermId, i64)>,
    k: int,
    b: Map<TermId, (Option<i64>, Option<i64>)>,
    n: int,
) -> int
    decreases n,
{
    if n <= 0 {
        0
    } else if n - 1 == k {
        greatest_sum(terms, k, b, n - 1)
    } else {
        let (x, a) = terms[n - 1];
        greatest_sum(terms, k, b, n - 1) + if a > 0 {
            a * (bounds_of(b, x).1->0)
        } else {
            a * (bounds_of(b, x).0->0)
        }
    }
}

/// How large the numbers can be that come up on the way.
pub open spec fn spread(
    terms: Seq<(TermId, i64)>,
    k: int,
    b: Map<TermId, (Option<i64>, Option<i64>)>,
    n: int,
) -> int
    decreases n,
{
    if n <= 0 {
        0
    } else if n - 1 == k {
        spread(terms, k, b, n - 1)
    } else {
        let (x, a) = terms[n - 1];
        spread(terms, k, b, n - 1) + absolute(a * (bounds_of(b, x).0->0)) + absolute(
            a * (bounds_of(b, x).1->0),
        )
    }
}

/// The terms other than the `k`-th are bounded on both sides.
pub open spec fn others_bounded(
    terms: Seq<(TermId, i64)>,
    k: int,
    b: Map<TermId, (Option<i64>, Option<i64>)>,
) -> bool {
    forall|j: int|
        0 <= j < terms.len() && j != k ==> bounds_of(b, (#[trigger] terms[j]).0).0 is Some
            && bounds_of(b, terms[j].0).1 is Some
}

proof fn lemma_spread(
    terms: Seq<(TermId, i64)>,
    k: int,
    b: Map<TermId, (Option<i64>, Option<i64>)>,
    n: int,
)
    ensures
        spread(terms, k, b, n) >= 0,
    decreases n,
{
    if n > 0 {
        lemma_spread(terms, k, b, n - 1);
    }
}

proof fn lemma_interval(
    terms: Seq<(TermId, i64)>,
    k: int,
    b: Map<TermId, (Option<i64>, Option<i64>)>,
    n: int,
)
    requires
        0 <= n <= terms.len(),
        others_bounded(terms, k, b),
        spread(terms, k, b, n) <= i64::MAX,
    ensures
        interval_excluding(terms, k, b, n) == (
            Some(least_sum(terms, k, b, n) as i64),
            Some(greatest_sum(terms, k, b, n) as i64),
        ),
        absolute(least_sum(terms, k, b, n)) <= spread(terms, k, b, n),
        absolute(greatest_sum(terms, k, b, n)) <= spread(terms, k, b, n),
    decreases n,
{
    if n > 0 {
        lemma_spread(terms, k, b, n - 1);
        lemma_interval(terms, k, b, n - 1);
        let (x, a) = terms[n - 1];
        if n - 1 != k {
            assert(bounds_of(b, terms[n - 1].0).0 is Some);
            let lo = bounds_of(b, x).0->0;
            let hi = bounds_of(b, x).1->0;
            if a == 0 {
                assert(a * lo == 0 && a * hi == 0) by (nonlinear_arith)
                    requires
                        a == 0,
                ;
            }
        }
    }
}

proof fn lemma_same_interval(
    terms: Seq<(TermId, i64)>,
    k: int,
    b: Map<TermId, (Option<i64>, Option<i64>)>,
    c: Map<TermId, (Option<i64>, Option<i64>)>,
    n: int,
)
    requires
        forall|x: TermId| #[trigger] bounds_of(b, x) == bounds_of(c, x),
    ensures
        interval_excluding(terms, k, b, n) == interval_excluding(terms, k, c, n),
    decreases n,
{
    if n > 0 {
        lemma_same_interval(terms, k, b, c, n - 1);
        assert(bounds_of(b, terms[n - 1].0) == bounds_of(c, terms[n - 1].0));
    }
}

proof fn lemma_steps_narrow(
    terms: Seq<(TermId, i64)>,
    constant: i64,
    dir: Dir,
    b: Map<TermId, (Option<i64>, Option<i64>)>,
    m: int,
    n: int,
)
    requires
        0 <= m <= n,
    ensures
        narrower(
            propagated(terms, constant, dir, b, m),
            propagated(terms, constant, dir, b, n),
        ),
    decreases n,
{
    if m < n {
        lemma_steps_narrow(terms, constant, dir, b, m, n - 1);
        let c = propagated(terms, constant, dir, b, n - 1);
        let (lo, hi) = derived(terms, constant, dir, n - 1, c);
        lemma_tightened_narrower(c, terms[n - 1].0, lo, hi);
        lemma_narrower_trans(
            propagated(terms, constant, dir, b, m),
            c,
            tightened(c, terms[n - 1].0, lo, hi),
        );
    }
}

proof fn lemma_settled_stage(
    terms: Seq<(TermId, i64)>,
    constant: i64,
    dir: Dir,
    b: Map<TermId, (Option<i64>, Option<i64>)>,
    k: int,
)
    requires
        0 <= k < terms.len(),
        settled((terms, constant, dir), b),
    ensures
        ({
            let c = propagated(terms, constant, dir, b, k);
            let r = derived(terms, constant, dir, k, c);
            &&& forall|y: TermId| #[trigger] bounds_of(b, y) == bounds_of(c, y)
            &&& forall|v: int| in_bounds(bounds_of(b, terms[k].0), v) ==> #[trigger] in_bounds(r, v)
        }),
{
    let n = terms.len() as int;
    let c = propagated(terms, constant, dir, b, k);
    let d = propagated(terms, constant, dir, b, k + 1);
    let z = propagated(terms, constant, dir, b, n);
    propagation_narrows(terms, constant, dir, b, k);
    lemma_steps_narrow(terms, constant, dir, b, k, k + 1);
    lemma_steps_narrow(terms, constant, dir, b, k + 1, n);
    let fact = (terms, constant, dir);
    assert(fact.0 == terms && fact.1 == constant && fact.2 == dir);
    assert forall|y: TermId| #[trigger] bounds_of(b, y) == bounds_of(c, y) && bounds_of(d, y)
        == bounds_of(b, y) by {
        assert(bounds_of(propagated(fact.0, fact.1, fact.2, b, fact.0.len() as int), y)
            == bounds_of(b, y));
        assert(crate::int_case_split::narrow(bounds_of(b, y), bounds_of(c, y)));
        assert(crate::int_case_split::narrow(bounds_of(c, y), bounds_of(d, y)));
        assert(crate::int_case_split::narrow(bounds_of(d, y), bounds_of(z, y)));
    }
    let x = terms[k].0;
    let (lo, hi) = derived(terms, constant, dir, k, c);
    assert(d == tightened(c, x, lo, hi));
    assert(bounds_of(b, x) == bounds_of(c, x) && bounds_of(d, x) == bounds_of(b, x));
}

/// Bounds that a fact does not tighten further are consistent with it: each value
/// of a term that lies in its bounds satisfies the fact where the other terms take
/// values within theirs that suit it best.  So where a fact speaks of one term
/// alone, its bounds say all that the fact says.
pub proof fn settled_bounds_are_consistent(
    terms: Seq<(TermId, i64)>,
    constant: i64,
    dir: Dir,
    b: Map<TermId, (Option<i64>, Option<i64>)>,
    k: int,
    v: int,
)
    requires
        0 <= k < terms.len(),
        terms[k].1 != 0,
        settled((terms, constant, dir), b),
        others_bounded(terms, k, b),
        spread(terms, k, b, terms.len() as int) + absolute(constant as int) <= i64::MAX,
        in_bounds(bounds_of(b, terms[k].0), v),
    ensures
        dir != Dir::Ge ==> terms[k].1 * v + least_sum(terms, k, b, terms.len() as int) <= constant,
        dir != Dir::Le ==> terms[k].1 * v + greatest_sum(terms, k, b, terms.len() as int)
            >= constant,
{
    let n = terms.len() as int;
    let (x, a) = terms[k];
    let c = propagated(terms, constant, dir, b, k);
    let (lo, hi) = derived(terms, constant, dir, k, c);
    lemma_settled_stage(terms, constant, dir, b, k);
    lemma_same_interval(terms, k, b, c, n);
    lemma_spread(terms, k, b, n);
    lemma_interval(terms, k, b, n);
    let l = least_sum(terms, k, b, n);
    let h = greatest_sum(terms, k, b, n);
    lemma_divide(a as int, constant - l, v);
    lemma_divide(a as int, constant - h, v);
    lemma_quotient_range(constant - l, a as int);
    lemma_quotient_range(constant - h, a as int);
    assert(in_bounds((lo, hi), v));
}

/// The fact that a linear constraint states says of integers what the constraint
/// says; it is there wherever the numbers are integers in the 64-bit range.
pub proof fn facts_say_the_same(p: ParsedView, is_eq: bool, env: IntEnv)
    requires
        p.constant.den == 1,
        forall|k: int| 0 <= k < p.terms.len() ==> (#[trigger] p.terms[k]).1.den == 1,
        i64::MIN < p.constant.num < i64::MAX,
        is_eq ==> p.constraint_type == ArithConstraintType::Le || p.constraint_type
            == ArithConstraintType::Ge,
    ensures
        fact_of(p, is_eq) matches Some(f) && {
            let sum = fact_sum(f.0, env);
            &&& f.0.len() == p.terms.len()
            &&& forall|k: int|
                0 <= k < p.terms.len() ==> (#[trigger] f.0[k]) == (p.terms[k].0, p.terms[k].1.num)
            &&& fact_holds(f.0, f.1 as int, f.2, env) <==> {
                if is_eq {
                    sum == p.constant.num
                } else {
                    match p.constraint_type {
                        ArithConstraintType::Lt => sum < p.constant.num,
                        ArithConstraintType::Le => sum <= p.constant.num,
                        ArithConstraintType::Gt => sum > p.constant.num,
                        ArithConstraintType::Ge => sum >= p.constant.num,
                    }
                }
            }
        },
{
}

/// Ranges in the order in which they are split.
pub open spec fn in_order(list: Seq<(TermId, i64, i64)>) -> bool {
    forall|i: int, j: int| 0 <= i < j < list.len() ==> split_before(#[trigger] list[i], #[trigger] list[j])
}

proof fn lemma_placed(list: Seq<(TermId, i64, i64)>, c: (TermId, i64, i64))
    requires
        in_order(list),
    ensures
        in_order(placed(list, c)),
        forall|x: (TermId, i64, i64)| #[trigger]
            placed(list, c).contains(x) <==> x == c || list.contains(x),
        placed(list, c).len() == list.len() + 1,
    decreases list.len(),
{
    let r = placed(list, c);
    if list.len() == 0 || split_before(list.last(), c) {
        assert(r == list.push(c));
        assert(r[list.len() as int] == c);
        assert forall|x: (TermId, i64, i64)| #[trigger] r.contains(x) <==> x == c || list.contains(
            x,
        ) by {
            if list.contains(x) {
                assert(r[list.index_of(x)] == x);
            }
        }
        assert forall|i: int, j: int| 0 <= i < j < r.len() implies split_before(
            #[trigger] r[i],
            #[trigger] r[j],
        ) by {
            if j == list.len() {
                assert(i == list.len() - 1 || split_before(list[i], list[list.len() - 1]));
            }
        }
    } else {
        let front = list.drop_last();
        lemma_placed(front, c);
        let p = placed(front, c);
        assert(r == p.push(list.last()));
        assert(r[p.len() as int] == list.last());
        assert forall|x: (TermId, i64, i64)| #[trigger] r.contains(x) <==> x == c || list.contains(
            x,
        ) by {
            if r.contains(x) {
                let j = r.index_of(x);
                if j < p.len() {
                    assert(p[j] == x);
                    assert(p.contains(x));
                    if front.contains(x) {
                        assert(list[front.index_of(x)] == x);
                    }
                } else {
                    assert(list[list.len() - 1] == x);
                }
            }
            if x == c || front.contains(x) {
                assert(p.contains(x));
                assert(r[p.index_of(x)] == x);
            }
            if list.contains(x) {
                let j = list.index_of(x);
                if j < front.len() {
                    assert(front[j] == x);
                }
            }
        }
        assert forall|i: int, j: int| 0 <= i < j < r.len() implies split_before(
            #[trigger] r[i],
            #[trigger] r[j],
        ) by {
            if j == p.len() {
                assert(p.contains(p[i]));
                if p[i] != c {
                    assert(front.contains(p[i]));
                    let q = front.index_of(p[i]);
                    assert(split_before(list[q], list[list.len() - 1]));
                }
            }
        }
    }
}

proof fn lemma_ranked(
    args: Seq<TermId>,
    b: Map<TermId, (Option<i64>, Option<i64>)>,
    split: Set<TermId>,
    values: Map<TermId, i64>,
    n: int,
)
    requires
        0 <= n <= args.len(),
    ensures
        in_order(ranked(args, b, split, values, n)),
        forall|c: (TermId, i64, i64)| #[trigger]
            ranked(args, b, split, values, n).contains(c) <==> exists|k: int|
                0 <= k < n && #[trigger] args[k] == c.0 && splittable(c.0, b, split, values) && c.1
                    == bounds_of(b, c.0).0->0 && c.2 == bounds_of(b, c.0).1->0,
    decreases n,
{
    let r = ranked(args, b, split, values, n);
    if n > 0 {
        lemma_ranked(args, b, split, values, n - 1);
        let p = ranked(args, b, split, values, n - 1);
        let t = args[n - 1];
        let new = (t, bounds_of(b, t).0->0, bounds_of(b, t).1->0);
        if splittable(t, b, split, values) {
            lemma_placed(p, new);
        }
        assert forall|c: (TermId, i64, i64)| #[trigger] r.contains(c) <==> exists|k: int|
            0 <= k < n && #[trigger] args[k] == c.0 && splittable(c.0, b, split, values) && c.1
                == bounds_of(b, c.0).0->0 && c.2 == bounds_of(b, c.0).1->0 by {
            if r.contains(c) {
                if splittable(t, b, split, values) && c == new {
                    assert(args[n - 1] == c.0);
                } else {
                    assert(p.contains(c));
                    let k = choose|k: int|
                        0 <= k < n - 1 && #[trigger] args[k] == c.0 && splittable(
                            c.0,
                            b,
                            split,
                            values,
                        ) && c.1 == bounds_of(b, c.0).0->0 && c.2 == bounds_of(b, c.0).1->0;
                    assert(args[k] == c.0);
                }
            }
            if exists|k: int|
                0 <= k < n && #[trigger] args[k] == c.0 && splittable(c.0, b, split, values) && c.1
                    == bounds_of(b, c.0).0->0 && c.2 == bounds_of(b, c.0).1->0 {
                let k = choose|k: int|
                    0 <= k < n && #[trigger] args[k] == c.0 && splittable(c.0, b, split, values)
                        && c.1 == bounds_of(b, c.0).0->0 && c.2 == bounds_of(b, c.0).1->0;
                if k == n - 1 {
                    assert(c == new);
                } else {
                    assert(args[k] == c.0);
                    assert(p.contains(c));
                }
            }
        }
    }
}

/// No range is wider than a later one.
pub open spec fn widening(list: Seq<(TermId, i64, i64)>) -> bool {
    forall|i: int, j: int|
        0 <= i < j < list.len() ==> (#[trigger] list[i]).2 - list[i].1 <= (#[trigger] list[j]).2
            - list[j].1
}

/// The terms that a round may split are just those arguments that were not split
/// yet, whose bounds are known and at most 8 apart, with the value that they have
/// between the bounds; narrow ranges come first.
pub proof fn narrow_ranges_are_split_first(
    args: Seq<TermId>,
    b: Map<TermId, (Option<i64>, Option<i64>)>,
    split: Set<TermId>,
    values: Map<TermId, i64>,
    t: TermId,
    lo: i64,
    hi: i64,
)
    ensures
        ranked(args, b, split, values, args.len() as int).contains((t, lo, hi)) <==> {
            &&& args.contains(t) && !split.contains(t)
            &&& bounds_of(b, t) == (Some(lo), Some(hi))
            &&& lo <= hi <= lo + 8
            &&& values.contains_key(t) ==> lo <= values[t] <= hi
        },
        widening(ranked(args, b, split, values, args.len() as int)),
{
    lemma_ranked(args, b, split, values, args.len() as int);
    let all = ranked(args, b, split, values, args.len() as int);
    if args.contains(t) {
        let k = args.index_of(t);
        assert(args[k] == t);
    }
    assert forall|i: int, j: int| 0 <= i < j < all.len() implies (#[trigger] all[i]).2 - all[i].1 <= (
    #[trigger] all[j]).2 - all[j].1 by {
        assert(split_before(all[i], all[j]));
    }
}

/// A variable that rewriting introduced is never split; one that was declared under
/// a name with another first letter than those of the reserved names may be.
pub proof fn introduced_variables_are_internal(s: Seq<TermView>, names: Seq<String>, t: TermId)
    requires
        t < s.len(),
        s[t as int].op == Op::Var,
    ensures
        s[t as int].data matches DataView::Sym(sym) ==> !(sym is User) ==> internal_var(s, names, t),
        s[t as int].data matches DataView::Sym(Symbol::User(n)) ==> n < names.len()
            && names[n as int]@.len() > 0 && names[n as int]@[0] != '_' && names[n as int]@[0]
            != '$' ==> !internal_var(s, names, t),
{
    reveal_strlit("__oxiz");
    reveal_strlit("$p");
    if let DataView::Sym(Symbol::User(n)) = s[t as int].data {
        if n < names.len() {
            let name = names[n as int]@;
            if is_prefix("__oxiz"@, name) {
                assert(name.take("__oxiz"@.len() as int)[0] == '_');
                assert(name[0] == '_');
            }
            if is_prefix("$p"@, name) {
                assert(name.take("$p"@.len() as int)[0] == '$');
                assert(name[0] == '$');
            }
        }
    }
}

/// A forced comparison states a fact: an equation one with equality, whatever the
/// relation that its linear form is recorded with.
pub proof fn forced_comparisons_state_facts(e: GoalView, v: Var, env: IntEnv)
    requires
        e.j.constraint.contains_key(v),
        e.parsed[v].constant.den == 1,
        forall|k: int| 0 <= k < e.parsed[v].terms.len() ==> (#[trigger] e.parsed[v].terms[k]).1.den
            == 1,
        i64::MIN < e.parsed[v].constant.num < i64::MAX,
        e.j.constraint[v] is Eq ==> e.parsed[v].constraint_type == ArithConstraintType::Le,
    ensures
        forced_fact(e, v) matches Some(f) && {
            let sum = fact_sum(f.0, env);
            let c = e.parsed[v].constant.num;
            fact_holds(f.0, f.1 as int, f.2, env) <==> {
                if e.j.constraint[v] is Eq {
                    sum == c
                } else {
                    match e.parsed[v].constraint_type {
                        ArithConstraintType::Lt => sum < c,
                        ArithConstraintType::Le => sum <= c,
                        ArithConstraintType::Gt => sum > c,
                        ArithConstraintType::Ge => sum >= c,
                    }
                }
            }
        },
{
    facts_say_the_same(e.parsed[v], e.j.constraint[v] is Eq, env);
}

/// A numeric argument of a function in an assertion is considered for a split,
/// unless it is an internal variable.
pub proof fn numeric_arguments_are_considered(
    s: Seq<TermView>,
    names: Seq<String>,
    given: Seq<TermId>,
    a: int,
    p: TermId,
    k: int,
)
    requires
        terms_wf(s),
        0 <= a < given.len(),
        given[a] < s.len(),
        subterm(s, given[a], p),
        p < s.len() && s[p as int].op == Op::Apply,
        0 <= k < s[p as int].args.len(),
        numeric_sort(s[s[p as int].args[k] as int].sort),
    ensures
        int_uf_arg(s, names, given, s[p as int].args[k]) <==> !internal_var(
            s,
            names,
            s[p as int].args[k],
        ),
{
    assert(node_below(s, p as int));
    let x = s[p as int].args[k];
    assert(x < p);
    assert(s[p as int].args.contains(x));
    assert(uf_arg_at(s, given[a], p, x));
}

/// Under an assignment that satisfies the clauses, each term that was split takes
/// one of the values between its bounds.
pub proof fn split_terms_take_a_value(
    e0: GoalView,
    s: Seq<TermView>,
    e: GoalView,
    g: Assignment,
    list: Seq<(TermId, i64, i64)>,
    j: int,
)
    requires
        splits_added(e0, s, e, list, list.len() as int),
        sat_all(g, e.clauses),
        0 <= j < list.len(),
        list[j].1 <= list[j].2,
    ensures
        exists|v: i64, l: Lit|
            list[j].1 <= v <= list[j].2 && #[trigger] value_literal(s, e, list[j].0, v, l)
                && lit_val(g, l),
{
    assert(split_clause_added(e0, s, e, list[j].0, list[j].1, list[j].2));
    let k = choose|k: int|
        e0.clauses.len() <= k < e.clauses.len() && case_clause(
            s,
            e,
            list[j].0,
            list[j].1,
            list[j].2,
            #[trigger] e.clauses[k],
        );
    let c = e.clauses[k];
    assert(clause_sat(g, c));
    let i = choose|i: int| 0 <= i < c.len() && lit_val(g, #[trigger] c[i]);
    assert(value_literal(s, e, list[j].0, (list[j].1 + i) as i64, c[i]));
}

} // verus!
