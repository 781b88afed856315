//! What the bounds and the domains of indices say.

use crate::aliases::is_var;
use crate::domains::{
    asserted_bounds, bounded_term, bounds_noted, bump_amount, conjuncts_noted, decided_before,
    domain_of, domain_reason, eq_noted, exclusion, ge_noted, greatest_weight, hinted, implication,
    in_decision_order, index_range, le_noted, linked, one_of, pair_lits, range_pairs, total_weight,
    weight_rank, DomainHints,
};
use crate::encode::{clause_sat, lit_val, sat_all, Assignment};
use crate::int_case_split::{
    bounds_of, lemma_narrower_trans, lemma_tightened_narrower, narrow, narrower, tightened,
};
use crate::ite_table::{int_literal, named, weight_in};
use crate::links::{comparison_linked, link_of, satisfying, some_value, value_decides, CompKind};
use crate::nonlinear_laws::{is_stated, says_above};
use crate::state::{Constraint, GoalView, Lit, Var};
use crate::string_laws::conjunct;
use crate::tables::TableState;
use crate::terms::{node_below, terms_wf, Op, TermId, TermView};
use vstd::prelude::*;

verus! {

proof fn lemma_step_narrows(
    s: Seq<TermView>,
    aliases: Map<TermId, TermId>,
    b: Map<TermId, (Option<i64>, Option<i64>)>,
    x: TermId,
    y: TermId,
    strict: bool,
)
    ensures
        narrower(b, ge_noted(s, aliases, b, x, y, strict)),
        narrower(b, le_noted(s, aliases, b, x, y, strict)),
        narrower(b, eq_noted(s, aliases, b, x, y)),
{
    assert forall|v: TermId, lo: Option<i64>, hi: Option<i64>| narrower(
        b,
        #[trigger] tightened(b, v, lo, hi),
    ) by {
        lemma_tightened_narrower(b, v, lo, hi);
    }
    assert forall|v: TermId, w: TermId, lo: Option<i64>, hi: Option<i64>| narrower(
        b,
        #[trigger] tightened(tightened(b, v, lo, hi), w, lo, hi),
    ) by {
        let c = tightened(b, v, lo, hi);
        lemma_tightened_narrower(b, v, lo, hi);
        lemma_tightened_narrower(c, w, lo, hi);
        lemma_narrower_trans(b, c, tightened(c, w, lo, hi));
    }
}

proof fn lemma_noted_narrows(
    s: Seq<TermView>,
    aliases: Map<TermId, TermId>,
    b: Map<TermId, (Option<i64>, Option<i64>)>,
    t: TermId,
)
    ensures
        narrower(b, bounds_noted(s, aliases, b, t)),
    decreases t, s[t as int].args.len() + 1,
{
    if t < s.len() {
        let args = s[t as int].args;
        if s[t as int].op == Op::And {
            lemma_conjuncts_narrow(s, aliases, b, t, 0, args.len() as int);
        } else {
            lemma_step_narrows(s, aliases, b, args[0], args[1], true);
            lemma_step_narrows(s, aliases, b, args[0], args[1], false);
        }
    }
}

proof fn lemma_conjuncts_narrow(
    s: Seq<TermView>,
    aliases: Map<TermId, TermId>,
    b: Map<TermId, (Option<i64>, Option<i64>)>,
    t: TermId,
    m: int,
    n: int,
)
    requires
        0 <= m <= n <= s[t as int].args.len(),
    ensures
        m == 0 ==> narrower(b, conjuncts_noted(s, aliases, b, t, n)),
        (forall|k: int| m < k <= n ==> (#[trigger] s[t as int].args[k - 1]) < t) ==> narrower(
            conjuncts_noted(s, aliases, b, t, m),
            conjuncts_noted(s, aliases, b, t, n),
        ),
    decreases t, n,
{
    let d = conjuncts_noted(s, aliases, b, t, n);
    if n > 0 && s[t as int].args[n - 1] < t {
        let c = conjuncts_noted(s, aliases, b, t, n - 1);
        lemma_noted_narrows(s, aliases, c, s[t as int].args[n - 1]);
        lemma_conjuncts_narrow(s, aliases, b, t, 0, n - 1);
        lemma_narrower_trans(b, c, d);
        if m < n {
            if forall|k: int| m < k <= n ==> (#[trigger] s[t as int].args[k - 1]) < t {
                lemma_conjuncts_narrow(s, aliases, b, t, m, n - 1);
                lemma_narrower_trans(conjuncts_noted(s, aliases, b, t, m), c, d);
            }
        }
    }
}

/// The bounds hold at least what the pair says of the term.
spec fn reaches(
    b: Map<TermId, (Option<i64>, Option<i64>)>,
    v: TermId,
    lo: Option<i64>,
    hi: Option<i64>,
) -> bool {
    narrow((lo, hi), bounds_of(b, v))
}

proof fn lemma_reaches(
    a: Map<TermId, (Option<i64>, Option<i64>)>,
    b: Map<TermId, (Option<i64>, Option<i64>)>,
    v: TermId,
    lo: Option<i64>,
    hi: Option<i64>,
)
    requires
        narrower(a, b),
        reaches(a, v, lo, hi),
    ensures
        reaches(b, v, lo, hi),
{
    assert(narrow(bounds_of(a, v), bounds_of(b, v)));
}

proof fn lemma_conjunct_reaches(
    s: Seq<TermView>,
    aliases: Map<TermId, TermId>,
    b: Map<TermId, (Option<i64>, Option<i64>)>,
    t: TermId,
    e: TermId,
    v: TermId,
    lo: Option<i64>,
    hi: Option<i64>,
)
    requires
        terms_wf(s),
        t < s.len(),
        conjunct(s, t, e),
        forall|c: Map<TermId, (Option<i64>, Option<i64>)>|
            reaches(#[trigger] bounds_noted(s, aliases, c, e), v, lo, hi),
    ensures
        reaches(bounds_noted(s, aliases, b, t), v, lo, hi),
    decreases t,
{
    if t != e {
        let args = s[t as int].args;
        let k = choose|k: int|
            0 <= k < args.len() && #[trigger] args[k] < t && conjunct(s, args[k], e);
        let n = args.len() as int;
        assert(node_below(s, t as int));
        let c = conjuncts_noted(s, aliases, b, t, k);
        lemma_conjunct_reaches(s, aliases, c, args[k], e, v, lo, hi);
        lemma_conjuncts_narrow(s, aliases, b, t, k + 1, n);
        assert forall|j: int| k + 1 < j <= n implies (#[trigger] s[t as int].args[j - 1]) < t by {
            assert(args[j - 1] < t);
        }
        lemma_reaches(
            conjuncts_noted(s, aliases, b, t, k + 1),
            conjuncts_noted(s, aliases, b, t, n),
            v,
            lo,
            hi,
        );
    }
}

proof fn lemma_asserted_reaches(
    s: Seq<TermView>,
    aliases: Map<TermId, TermId>,
    given: Seq<TermId>,
    n: int,
    k: int,
    e: TermId,
    v: TermId,
    lo: Option<i64>,
    hi: Option<i64>,
)
    requires
        terms_wf(s),
        0 <= k < n <= given.len(),
        given[k] < s.len(),
        conjunct(s, given[k], e),
        forall|c: Map<TermId, (Option<i64>, Option<i64>)>|
            reaches(#[trigger] bounds_noted(s, aliases, c, e), v, lo, hi),
    ensures
        reaches(asserted_bounds(s, aliases, given, n), v, lo, hi),
    decreases n,
{
    let b = asserted_bounds(s, aliases, given, n - 1);
    if k == n - 1 {
        lemma_conjunct_reaches(s, aliases, b, given[k], e, v, lo, hi);
    } else {
        lemma_asserted_reaches(s, aliases, given, n - 1, k, e, v, lo, hi);
        lemma_noted_narrows(s, aliases, b, given[n - 1]);
        lemma_reaches(b, bounds_noted(s, aliases, b, given[n - 1]), v, lo, hi);
    }
}

/// A lower bound that a conjunct states of a variable, or of a term with a name,
/// is collected: the bound of the variable or the name is no lower.
pub proof fn stated_lower_bounds_are_collected(
    s: Seq<TermView>,
    aliases: Map<TermId, TermId>,
    given: Seq<TermId>,
    e: TermId,
    x: TermId,
    d: TermId,
    c: i64,
    strict: bool,
)
    requires
        terms_wf(s),
        forall|k: int| 0 <= k < given.len() ==> (#[trigger] given[k]) < s.len(),
        is_stated(s, given, e),
        is_var(s, x) || (aliases.contains_key(x) && int_literal(s, x) is None),
        int_literal(s, d) == Some(c),
        says_above(s, e, x, d, strict),
        strict ==> c < i64::MAX,
        s[e as int].op == Op::Gt || s[e as int].op == Op::Lt ==> strict,
        !aliases.contains_key(d),
    ensures
        ({
            let v = if aliases.contains_key(x) {
                aliases[x]
            } else {
                x
            };
            bounds_of(asserted_bounds(s, aliases, given, given.len() as int), v).0 matches Some(lo)
                && lo >= (if strict {
                c + 1
            } else {
                c as int
            })
        }),
{
    let v = if aliases.contains_key(x) {
        aliases[x]
    } else {
        x
    };
    let lo = if strict {
        (c + 1) as i64
    } else {
        c
    };
    let k = choose|k: int| 0 <= k < given.len() && conjunct(s, #[trigger] given[k], e);
    assert(bounded_term(s, aliases, d) is None);
    assert(bounded_term(s, aliases, x) == Some(v));
    assert(int_literal(s, x) is None);
    assert forall|b: Map<TermId, (Option<i64>, Option<i64>)>| reaches(
        #[trigger] bounds_noted(s, aliases, b, e),
        v,
        Some(lo),
        None,
    ) by {
        lemma_tightened_narrower(
            tightened(b, v, Some(lo), None),
            x,
            Some(lo),
            None,
        );
        let first = tightened(b, v, Some(lo), None);
        assert(reaches(first, v, Some(lo), None));
        lemma_reaches(first, tightened(first, x, Some(lo), None), v, Some(lo), None);
    }
    lemma_asserted_reaches(s, aliases, given, given.len() as int, k, e, v, Some(lo), None);
}

/// An upper bound that a conjunct states of a variable, or of a term with a name,
/// is collected: the bound of the variable or the name is no higher.
pub proof fn stated_upper_bounds_are_collected(
    s: Seq<TermView>,
    aliases: Map<TermId, TermId>,
    given: Seq<TermId>,
    e: TermId,
    x: TermId,
    d: TermId,
    c: i64,
    strict: bool,
)
    requires
        terms_wf(s),
        forall|k: int| 0 <= k < given.len() ==> (#[trigger] given[k]) < s.len(),
        is_stated(s, given, e),
        is_var(s, x) || (aliases.contains_key(x) && int_literal(s, x) is None),
        int_literal(s, d) == Some(c),
        says_above(s, e, d, x, strict),
        strict ==> c > i64::MIN,
        s[e as int].op == Op::Gt || s[e as int].op == Op::Lt ==> strict,
        !aliases.contains_key(d),
    ensures
        ({
            let v = if aliases.contains_key(x) {
                aliases[x]
            } else {
                x
            };
            bounds_of(asserted_bounds(s, aliases, given, given.len() as int), v).1 matches Some(hi)
                && hi <= (if strict {
                c - 1
            } else {
                c as int
            })
        }),
{
    let v = if aliases.contains_key(x) {
        aliases[x]
    } else {
        x
    };
    let hi = if strict {
        (c - 1) as i64
    } else {
        c
    };
    let k = choose|k: int| 0 <= k < given.len() && conjunct(s, #[trigger] given[k], e);
    assert(bounded_term(s, aliases, d) is None);
    assert(bounded_term(s, aliases, x) == Some(v));
    assert(int_literal(s, x) is None);
    assert forall|b: Map<TermId, (Option<i64>, Option<i64>)>| reaches(
        #[trigger] bounds_noted(s, aliases, b, e),
        v,
        None,
        Some(hi),
    ) by {
        let first = tightened(b, v, None, Some(hi));
        lemma_tightened_narrower(first, x, None, Some(hi));
        assert(reaches(first, v, None, Some(hi)));
        lemma_reaches(first, tightened(first, x, None, Some(hi)), v, None, Some(hi));
    }
    lemma_asserted_reaches(s, aliases, given, given.len() as int, k, e, v, None, Some(hi));
}

/// An equation of a variable with a constant bounds the variable on both sides.
pub proof fn stated_values_are_collected(
    s: Seq<TermView>,
    given: Seq<TermId>,
    e: TermId,
    x: TermId,
    d: TermId,
    c: i64,
)
    requires
        terms_wf(s),
        forall|k: int| 0 <= k < given.len() ==> (#[trigger] given[k]) < s.len(),
        is_stated(s, given, e),
        is_var(s, x),
        int_literal(s, d) == Some(c),
        s[e as int].op == Op::Eq,
        s[e as int].args == seq![x, d] || s[e as int].args == seq![d, x],
    ensures
        ({
            let b = bounds_of(
                asserted_bounds(s, Map::<TermId, TermId>::empty(), given, given.len() as int),
                x,
            );
            b.0 is Some && b.0->0 >= c && b.1 is Some && b.1->0 <= c
        }),
{
    let aliases = Map::<TermId, TermId>::empty();
    let k = choose|k: int| 0 <= k < given.len() && conjunct(s, #[trigger] given[k], e);
    assert(bounded_term(s, aliases, d) is None);
    assert(int_literal(s, x) is None);
    assert forall|b: Map<TermId, (Option<i64>, Option<i64>)>| reaches(
        #[trigger] bounds_noted(s, aliases, b, e),
        x,
        Some(c),
        Some(c),
    ) by {
        assert(reaches(tightened(b, x, Some(c), Some(c)), x, Some(c), Some(c)));
    }
    lemma_asserted_reaches(s, aliases, given, given.len() as int, k, e, x, Some(c), Some(c));
}

/// An index is split over all that lies between its bounds, where that is not
/// empty and no wider than 64.
pub proof fn domains_fill_the_bounds(lo: Option<i64>, hi: Option<i64>)
    ensures
        domain_of(lo, hi) matches Some((l, h)) ==> lo == Some(l) && hi == Some(h) && l <= h,
        domain_of(lo, hi) is Some <==> lo is Some && hi is Some && lo->0 <= hi->0 <= lo->0 + 64,
{
}

/// Under an assignment that satisfies the clauses, just one of the values of a
/// split index is taken.
pub proof fn one_value_is_taken(g: Assignment, clauses: Seq<Seq<Lit>>, lits: Seq<Lit>)
    requires
        sat_all(g, clauses),
        one_of(clauses, lits),
    ensures
        exists|j: int| 0 <= j < lits.len() && lit_val(g, #[trigger] lits[j]),
        forall|j: int, k: int|
            0 <= j < lits.len() && 0 <= k < lits.len() && lit_val(g, #[trigger] lits[j]) && lit_val(
                g,
                #[trigger] lits[k],
            ) ==> j == k,
{
    let i = clauses.index_of(lits);
    assert(clauses[i] == lits);
    assert(clause_sat(g, clauses[i]));
    assert forall|j: int, k: int|
        0 <= j < lits.len() && 0 <= k < lits.len() && lit_val(g, #[trigger] lits[j]) && lit_val(
            g,
            #[trigger] lits[k],
        ) implies j == k by {
        if j != k {
            let (a, b) = if j < k {
                (j, k)
            } else {
                (k, j)
            };
            let c = exclusion(lits[a], lits[b]);
            assert(clauses.contains(c));
            let n = clauses.index_of(c);
            assert(clause_sat(g, clauses[n]));
            let q = choose|q: int| 0 <= q < c.len() && lit_val(g, #[trigger] c[q]);
            assert(c[0] == lits[a].negated() && c[1] == lits[b].negated());
        }
    }
}

/// Under an assignment that satisfies the clauses, an index and its name take the
/// same values.
pub proof fn linked_indices_agree(
    g: Assignment,
    clauses: Seq<Seq<Lit>>,
    a: Seq<(i64, Lit)>,
    b: Seq<(i64, Lit)>,
    j: int,
)
    requires
        sat_all(g, clauses),
        linked(clauses, a, b),
        0 <= j < a.len(),
    ensures
        b.len() == a.len(),
        a[j].0 == b[j].0,
        lit_val(g, a[j].1) == lit_val(g, b[j].1),
{
    assert(a[j].0 == b[j].0);
    let c = implication(a[j].1, b[j].1);
    let d = implication(b[j].1, a[j].1);
    assert(clauses.contains(c) && clauses.contains(d));
    assert(clause_sat(g, clauses[clauses.index_of(c)]));
    assert(clause_sat(g, clauses[clauses.index_of(d)]));
    let p = choose|p: int| 0 <= p < c.len() && lit_val(g, #[trigger] c[p]);
    let q = choose|q: int| 0 <= q < d.len() && lit_val(g, #[trigger] d[q]);
    assert(c[0] == a[j].1.negated() && c[1] == b[j].1);
    assert(d[0] == b[j].1.negated() && d[1] == a[j].1);
}

/// A comparison seen from the other side says the same.
pub proof fn mirrored_comparisons_agree(kind: CompKind, a: int, b: int)
    ensures
        kind.mirrored().compares(a, b) == kind.compares(b, a),
        kind.mirrored().mirrored() == kind,
        CompKind::Lt.compares(a, b) == (a < b),
        CompKind::Ge.compares(a, b) == !CompKind::Lt.compares(a, b),
        CompKind::Le.compares(a, b) == (CompKind::Lt.compares(a, b) || a == b),
        CompKind::Gt.compares(a, b) == !CompKind::Le.compares(a, b),
{
}

proof fn lemma_satisfying(pairs: Seq<(i64, Lit)>, kind: CompKind, c: i64, l: Lit)
    requires
        satisfying(pairs, kind, c).contains(l),
    ensures
        exists|j: int|
            0 <= j < pairs.len() && (#[trigger] pairs[j]).1 == l && kind.compares(
                pairs[j].0 as int,
                c as int,
            ),
    decreases pairs.len(),
{
    if pairs.len() > 0 {
        let front = pairs.drop_last();
        let r = satisfying(pairs, kind, c);
        let k = r.index_of(l);
        if kind.compares(pairs.last().0 as int, c as int) && k == r.len() - 1 {
            assert(pairs[pairs.len() - 1].1 == l);
        } else {
            assert(satisfying(front, kind, c)[k] == l);
            lemma_satisfying(front, kind, c, l);
            let j = choose|j: int|
                0 <= j < front.len() && (#[trigger] front[j]).1 == l && kind.compares(
                    front[j].0 as int,
                    c as int,
                );
            assert(pairs[j] == front[j]);
        }
    }
}

/// Under an assignment that satisfies the clauses, a comparison that is linked is
/// true just where a value is taken that compares so.
pub proof fn linked_comparisons_are_decided(
    g: Assignment,
    clauses: Seq<Seq<Lit>>,
    atom: Lit,
    pairs: Seq<(i64, Lit)>,
    kind: CompKind,
    c: i64,
)
    requires
        sat_all(g, clauses),
        one_of(clauses, pair_lits(pairs)),
        comparison_linked(clauses, atom, pairs, kind, c),
    ensures
        lit_val(g, atom) <==> exists|j: int|
            0 <= j < pairs.len() && lit_val(g, (#[trigger] pairs[j]).1) && kind.compares(
                pairs[j].0 as int,
                c as int,
            ),
{
    let some = some_value(atom, pairs, kind, c);
    assert(clauses.contains(some));
    assert(clause_sat(g, clauses[clauses.index_of(some)]));
    if lit_val(g, atom) {
        let q = choose|q: int| 0 <= q < some.len() && lit_val(g, #[trigger] some[q]);
        assert(some[0] == atom.negated());
        assert(satisfying(pairs, kind, c)[q - 1] == some[q]);
        lemma_satisfying(pairs, kind, c, some[q]);
    } else {
        assert forall|j: int| 0 <= j < pairs.len() && lit_val(g, (#[trigger] pairs[j]).1) implies
            !kind.compares(pairs[j].0 as int, c as int) by {
            let d = value_decides(atom, pairs[j], kind, c);
            assert(clauses.contains(d));
            assert(clause_sat(g, clauses[clauses.index_of(d)]));
            let q = choose|q: int| 0 <= q < d.len() && lit_val(g, #[trigger] d[q]);
            assert(d[0] == pairs[j].1.negated());
        }
    }
}

/// Heavier constants are bumped no less, and indices with few values more.
pub proof fn heavier_constants_are_bumped_more(
    domain: int,
    wider: int,
    a: i64,
    b: i64,
    greatest: i64,
)
    requires
        a <= b <= greatest,
        greatest > 0,
        domain <= wider,
    ensures
        bump_amount(domain, a, greatest) <= bump_amount(domain, b, greatest),
        bump_amount(wider, b, greatest) <= bump_amount(domain, b, greatest),
        0 < bump_amount(domain, b, greatest) <= 176,
{
    let g = greatest as int;
    let (x, y) = (a * 128, b * 128);
    vstd::arithmetic::div_mod::lemma_div_is_ordered(x, y, g);
    assert(y <= 128 * g);
    vstd::arithmetic::div_mod::lemma_div_is_ordered(y, 128 * g, g);
    assert((128 * g) / g == 128) by (nonlinear_arith)
        requires
            g > 0,
    ;
    if b > 0 {
        vstd::arithmetic::div_mod::lemma_div_pos_is_pos(y, g);
    }
    if a > 0 {
        vstd::arithmetic::div_mod::lemma_div_pos_is_pos(x, g);
    }
}

/// A comparison of a term that has a domain with a constant is linked, whichever
/// side the constant is on, and the kind that it is linked with says of the term
/// what the comparison says.
pub proof fn comparisons_of_domains_are_linked(
    s: Seq<TermView>,
    tables: &TableState,
    t: TermId,
    c: TermId,
    n: i64,
    v: int,
)
    requires
        tables.table_index_domain_eqs@.contains_key(t),
        !tables.table_index_domain_eqs@.contains_key(c),
        int_literal(s, c) == Some(n),
    ensures
        link_of(s, tables, Constraint::Lt(t, c)) matches Some((x, k, kind)) && x == t && k == n
            && kind.compares(v, k as int) == (v < n),
        link_of(s, tables, Constraint::Le(t, c)) matches Some((x, k, kind)) && x == t && k == n
            && kind.compares(v, k as int) == (v <= n),
        link_of(s, tables, Constraint::Gt(t, c)) matches Some((x, k, kind)) && x == t && k == n
            && kind.compares(v, k as int) == (v > n),
        link_of(s, tables, Constraint::Ge(t, c)) matches Some((x, k, kind)) && x == t && k == n
            && kind.compares(v, k as int) == (v >= n),
        link_of(s, tables, Constraint::Lt(c, t)) matches Some((x, k, kind)) && x == t && k == n
            && kind.compares(v, k as int) == (n < v),
        link_of(s, tables, Constraint::Le(c, t)) matches Some((x, k, kind)) && x == t && k == n
            && kind.compares(v, k as int) == (n <= v),
        link_of(s, tables, Constraint::Gt(c, t)) matches Some((x, k, kind)) && x == t && k == n
            && kind.compares(v, k as int) == (n > v),
        link_of(s, tables, Constraint::Ge(c, t)) matches Some((x, k, kind)) && x == t && k == n
            && kind.compares(v, k as int) == (n >= v),
        link_of(s, tables, Constraint::Eq(t, c)) is None,
{
}

/// Heavier indices are decided before lighter ones, and on one index heavier
/// constants before lighter ones.
pub proof fn heavier_is_decided_first(list: Seq<(i64, i64, Var)>, j: int, k: int)
    requires
        in_decision_order(list),
        0 <= j < k < list.len(),
    ensures
        list[j].0 >= list[k].0,
        list[j].0 == list[k].0 ==> list[j].1 >= list[k].1,
        list[j].0 == list[k].0 && list[j].1 == list[k].1 ==> list[j].2 <= list[k].2,
{
    assert(decided_before(list[j], list[k]));
}

/// The greatest weight is at least 1 and no weight is greater; it is one of the
/// weights, or 1.
pub proof fn greatest_weight_is_greatest(list: Seq<(i64, i64)>, k: int)
    ensures
        greatest_weight(list) >= 1,
        0 <= k < list.len() ==> list[k].1 <= greatest_weight(list),
        greatest_weight(list) == 1 || exists|j: int|
            0 <= j < list.len() && (#[trigger] list[j]).1 == greatest_weight(list),
    decreases list.len(),
{
    if list.len() > 0 {
        let front = list.drop_last();
        greatest_weight_is_greatest(front, k);
        if 0 <= k < front.len() {
            assert(front[k] == list[k]);
        }
        if greatest_weight(front) != 1 {
            let j = choose|j: int|
                0 <= j < front.len() && (#[trigger] front[j]).1 == greatest_weight(front);
            assert(list[j] == front[j]);
        }
        assert(list[list.len() - 1] == list.last());
    }
}

/// A heavier constant ranks before a lighter one, and of two that weigh the same the
/// earlier before the later.
pub proof fn heavier_constants_rank_first(
    list: Seq<(i64, i64)>,
    pairs: Seq<(i64, Lit)>,
    j: int,
    k: int,
    n: int,
)
    requires
        0 <= j < n <= pairs.len() && 0 <= k < n,
        j != k,
        weight_in(list, pairs[j].0) > weight_in(list, pairs[k].0) || (weight_in(list, pairs[j].0)
            == weight_in(list, pairs[k].0) && j < k),
    ensures
        weight_rank(list, pairs, j, n) < weight_rank(list, pairs, k, n),
{
    lemma_ranks(list, pairs, j, k, n);
}

proof fn lemma_ranks(
    list: Seq<(i64, i64)>,
    pairs: Seq<(i64, Lit)>,
    j: int,
    k: int,
    n: int,
)
    requires
        0 <= j < pairs.len() && 0 <= k < pairs.len(),
        j != k,
        weight_in(list, pairs[j].0) > weight_in(list, pairs[k].0) || (weight_in(list, pairs[j].0)
            == weight_in(list, pairs[k].0) && j < k),
    ensures
        weight_rank(list, pairs, j, n) + (if j < n {
            1int
        } else {
            0int
        }) <= weight_rank(list, pairs, k, n),
    decreases n,
{
    if n > 0 {
        lemma_ranks(list, pairs, j, k, n - 1);
    }
}

/// An index whose domain has a reason of its own takes just one value, and that lies
/// between its tightest bounds, under an assignment that satisfies the clauses; with
/// a reason from its name it takes the values of its name.
pub proof fn domains_have_reasons(
    s: Seq<TermView>,
    e: GoalView,
    g: Assignment,
    tables: &TableState,
    bounds: Map<TermId, (Option<i64>, Option<i64>)>,
    t: TermId,
)
    requires
        sat_all(g, e.clauses),
        domain_reason(s, e, tables, bounds, t),
    ensures
        ({
            let pairs = tables.table_index_domain_eqs@[t]@;
            let name = named(tables.unit_eq_rep@, t);
            ||| exists|j: int| 0 <= j < pairs.len() && lit_val(g, (#[trigger] pairs[j]).1)
            ||| tables.table_index_domain_eqs@.contains_key(name)
                && tables.table_index_domain_eqs@[name]@.len() == pairs.len() && forall|j: int|
                0 <= j < pairs.len() ==> lit_val(g, (#[trigger] pairs[j]).1) == lit_val(
                    g,
                    tables.table_index_domain_eqs@[name]@[j].1,
                )
        }),
{
    let pairs = tables.table_index_domain_eqs@[t]@;
    let name = named(tables.unit_eq_rep@, t);
    if exists|lo: i64, hi: i64| #[trigger]
        index_range(s, tables, bounds, t, lo, hi) && range_pairs(pairs, lo, hi) && one_of(
            e.clauses,
            pair_lits(pairs),
        ) {
        let lits = pair_lits(pairs);
        one_value_is_taken(g, e.clauses, lits);
        let j = choose|j: int| 0 <= j < lits.len() && lit_val(g, #[trigger] lits[j]);
        assert(lit_val(g, pairs[j].1));
    } else {
        let other = tables.table_index_domain_eqs@[name]@;
        assert forall|j: int| 0 <= j < pairs.len() implies lit_val(g, (#[trigger] pairs[j]).1)
            == lit_val(g, other[j].1) by {
            linked_indices_agree(g, e.clauses, pairs, other, j);
        }
    }
}

proof fn lemma_rank_below(list: Seq<(i64, i64)>, pairs: Seq<(i64, Lit)>, j: int, n: int)
    requires
        0 <= j,
    ensures
        weight_rank(list, pairs, j, n) <= (if n <= 0 {
            0
        } else if j < n {
            n - 1
        } else {
            n
        }),
    decreases n,
{
    if n > 0 {
        lemma_rank_below(list, pairs, j, n - 1);
    }
}

/// Of an index with at most 8 values all are decided first, of another one the ten
/// that weigh most; every value is bumped.
pub proof fn heaviest_values_are_decided_first(
    h: &DomainHints,
    list: Seq<(i64, i64)>,
    pairs: Seq<(i64, Lit)>,
    j: int,
)
    requires
        hinted(h, list, pairs),
        0 <= j < pairs.len(),
    ensures
        pairs.len() <= 8 || weight_rank(list, pairs, j, pairs.len() as int) < 10
            ==> h.priority@.contains(
            (total_weight(list), weight_in(list, pairs[j].0), pairs[j].1.var),
        ),
        exists|b: (Var, u32)| #[trigger] h.bumps@.contains(b) && b.0 == pairs[j].1.var && b.1 > 0,
{
    lemma_rank_below(list, pairs, j, pairs.len() as int);
    let w = weight_in(list, pairs[j].0);
    let b = choose|b: (Var, u32)| #[trigger]
        h.bumps@.contains(b) && b.0 == pairs[j].1.var && b.1 == bump_amount(
            pairs.len() as int,
            w,
            greatest_weight(list),
        );
    greatest_weight_is_greatest(list, 0);
    lemma_weight_listed(list, pairs[j].0);
    heavier_constants_are_bumped_more(
        pairs.len() as int,
        pairs.len() as int,
        w,
        w,
        greatest_weight(list),
    );
}

proof fn lemma_weight_listed(list: Seq<(i64, i64)>, k: i64)
    ensures
        weight_in(list, k) <= greatest_weight(list),
    decreases list.len(),
{
    greatest_weight_is_greatest(list, 0);
    if list.len() > 0 && list[0].0 != k {
        lemma_weight_listed(list.drop_first(), k);
        let rest = list.drop_first();
        let m = greatest_weight(rest);
        greatest_weight_is_greatest(rest, 0);
        if m != 1 {
            let j = choose|j: int| 0 <= j < rest.len() && (#[trigger] rest[j]).1 == m;
            assert(list[j + 1] == rest[j]);
            greatest_weight_is_greatest(list, j + 1);
        }
    }
}

/// The weights of all constants together.
pub open spec fn weights_together(list: Seq<(i64, i64)>) -> int
    decreases list.len(),
{
    if list.len() == 0 {
        0
    } else {
        list[0].1 + weights_together(list.drop_first())
    }
}

/// The total weight is what the weights come to, within the range of a word.
pub proof fn total_weights_add_up(list: Seq<(i64, i64)>)
    requires
        forall|k: int| 0 <= k < list.len() ==> (#[trigger] list[k]).1 >= 0,
    ensures
        total_weight(list) == (if weights_together(list) <= i64::MAX {
            weights_together(list)
        } else {
            i64::MAX as int
        }),
        weights_together(list) >= 0,
    decreases list.len(),
{
    if list.len() > 0 {
        let front = list.drop_last();
        assert forall|k: int| 0 <= k < front.len() implies (#[trigger] front[k]).1 >= 0 by {
            assert(front[k] == list[k]);
        }
        total_weights_add_up(front);
        lemma_together(list);
        assert(list[list.len() - 1].1 >= 0);
    }
}

proof fn lemma_together(list: Seq<(i64, i64)>)
    requires
        list.len() > 0,
    ensures
        weights_together(list) == weights_together(list.drop_last()) + list.last().1,
    decreases list.len(),
{
    if list.len() > 1 {
        let rest = list.drop_first();
        lemma_together(rest);
        assert(rest.drop_last() =~= list.drop_last().drop_first());
        assert(rest.last() == list.last());
        assert(list.drop_last()[0] == list[0]);
    } else {
        assert(list.drop_first() =~= list.drop_last());
    }
}

} // verus!
