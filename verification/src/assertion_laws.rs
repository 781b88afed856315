//! What entering and encoding an assertion amounts to.

use crate::assertion::{clashes, entered, known_polarity, nesting, nesting_below, noted, widened};
use crate::constructors::is_equation;
use crate::encode::{
    branch_clauses, branches_tied, bvs_registered, clause_sat, lit_val, sat_all, Assignment,
};
use crate::linear::{terms_value, ArithConstraintType, ParsedView};
use crate::search::{started, Action, Goal, SolverResult};
use crate::semantics::{eqv, eval, holds, lemma_eval, num, Interp};
use crate::state::{
    constraint_ok, goal_inv, means, theory_atom, Constraint, GoalView, Lit, Polarity,
};
use crate::terms::{
    node_below, numeric_sort, terms_wf, NameId, Op, SortKind, TermId, TermView, BOOL_SORT,
    FALSE_TERM, TRUE_TERM,
};
use vstd::prelude::*;

verus! {

/// What a constraint says of an interpretation.
pub open spec fn constraint_says(s: Seq<TermView>, i: Interp, c: Constraint) -> bool {
    match c {
        Constraint::Eq(a, b) => eqv(
            s[a as int].sort,
            eval(s, i, a as int),
            eval(s, i, b as int),
        ),
        Constraint::Lt(a, b) => num(eval(s, i, a as int)) < num(eval(s, i, b as int)),
        Constraint::Le(a, b) => num(eval(s, i, a as int)) <= num(eval(s, i, b as int)),
        Constraint::Gt(a, b) => num(eval(s, i, a as int)) > num(eval(s, i, b as int)),
        Constraint::Ge(a, b) => num(eval(s, i, a as int)) >= num(eval(s, i, b as int)),
        Constraint::BoolApp(t) => holds(s, i, t),
    }
}

/// The constraint that the theories get for an atom says what the atom says.
pub proof fn constraints_mean_their_atoms(s: Seq<TermView>, e: GoalView, i: Interp, t: TermId)
    requires
        goal_inv(s, e),
        e.j.memo.contains_key(t),
        match s[t as int].op {
            Op::Eq | Op::Lt | Op::Le | Op::Gt | Op::Ge => true,
            Op::Var | Op::Apply => s[t as int].sort == BOOL_SORT,
            _ => false,
        },
    ensures
        e.j.var_of.contains_key(t),
        e.j.constraint.contains_key(e.j.var_of[t]),
        constraint_says(s, i, e.j.constraint[e.j.var_of[t]]) == holds(s, i, t),
{
    assert(theory_atom(s, t));
    let v = e.j.var_of[t];
    assert(e.term_of[v as int] == t);
    assert(e.j.constraint.contains_key(v));
    assert(constraint_ok(s[t as int], t, e.j.constraint[v]));
    assert(node_below(s, t as int));
    if s[t as int].op != Op::Var && s[t as int].op != Op::Apply {
        lemma_eval(s, i, t);
    }
}

/// What a linear form says, as the relation that it is recorded with.
pub open spec fn form_says(s: Seq<TermView>, i: Interp, p: ParsedView) -> bool {
    let sum = terms_value(s, i, p.terms);
    match p.constraint_type {
        ArithConstraintType::Lt => sum < p.constant.value(),
        ArithConstraintType::Le => sum <= p.constant.value(),
        ArithConstraintType::Gt => sum > p.constant.value(),
        ArithConstraintType::Ge => sum >= p.constant.value(),
    }
}

/// The linear form that is recorded for a comparison says what the comparison says,
/// and that for an equation has the constant for its value just where the equation
/// is true.
pub proof fn linear_forms_mean_their_atoms(s: Seq<TermView>, e: GoalView, i: Interp, t: TermId)
    requires
        goal_inv(s, e),
        e.j.var_of.contains_key(t),
        e.parsed.contains_key(e.j.var_of[t]),
    ensures
        ({
            let p = e.parsed[e.j.var_of[t]];
            let op = s[t as int].op;
            &&& op == Op::Lt || op == Op::Le || op == Op::Gt || op == Op::Ge ==> form_says(s, i, p)
                == holds(s, i, t)
            &&& op == Op::Eq && numeric_sort(s[s[t as int].args[0] as int].sort) ==> (terms_value(
                s,
                i,
                p.terms,
            ) == p.constant.value()) == (num(eval(s, i, s[t as int].args[0] as int)) == num(
                eval(s, i, s[t as int].args[1] as int),
            ))
        }),
{
    let v = e.j.var_of[t];
    assert(e.term_of[v as int] == t);
    assert(crate::state::parsed_ok(s, t, e.parsed[v]));
    assert(node_below(s, t as int));
    let op = s[t as int].op;
    if op == Op::Lt || op == Op::Le || op == Op::Gt || op == Op::Ge {
        lemma_eval(s, i, t);
    }
}

/// The flags tell of every quantifier, every array operation and every division of
/// bit vectors that was encoded.
pub proof fn flags_tell_of_operators(s: Seq<TermView>, e: GoalView, t: TermId)
    requires
        goal_inv(s, e),
        e.j.memo.contains_key(t),
    ensures
        s[t as int].op == Op::Forall || s[t as int].op == Op::Exists ==> e.quantified,
        s[t as int].op == Op::Select || s[t as int].op == Op::Store ==> e.arrays,
        s[t as int].op == Op::BvUdiv || s[t as int].op == Op::BvSdiv || s[t as int].op == Op::BvUrem
            || s[t as int].op == Op::BvSrem ==> e.bv_arith,
{
}

/// Entering an assertion adds it to the list, and changes the flags just for the
/// constant `false` and for terms that are nested too deeply.
pub proof fn entered_assertions_are_listed(
    s: Seq<TermView>,
    e0: GoalView,
    e1: GoalView,
    term: TermId,
    name: Option<Seq<char>>,
)
    requires
        entered(s, e0, e1, term, name),
    ensures
        e1.j.assertions == e0.j.assertions.push(term),
        e1.j.has_false <==> e0.j.has_false || term == FALSE_TERM,
        e1.exceeded <==> e0.exceeded || (term != TRUE_TERM && term != FALSE_TERM && nesting(
            s,
            term as int,
        ) > 512),
        e1.clauses == e0.clauses,
        e1.quantified == e0.quantified && e1.arrays == e0.arrays,
        term == TRUE_TERM || term == FALSE_TERM ==> e1.j.named.len() == e0.j.named.len() + 1
            && e1.j.named.last().term == term && e1.j.named.last().index as int
            == e0.j.assertions.len() as usize as int,
{
}

/// Once `false` was asserted, a check answers `unsat`; and an assertion other than
/// `false` never makes it do so at its start.
pub proof fn asserting_false_refutes(
    s: Seq<TermView>,
    e0: GoalView,
    e1: GoalView,
    term: TermId,
    name: Option<Seq<char>>,
    g: Goal,
    out_of_budget: bool,
)
    requires
        entered(s, e0, e1, term, name),
        !e0.j.has_false,
        g.has_false == e1.j.has_false,
    ensures
        started(g, out_of_budget).action == Action::Answer(SolverResult::Unsat) <==> term
            == FALSE_TERM,
{
}

proof fn lemma_nesting_below(s: Seq<TermView>, t: int, n: int)
    requires
        terms_wf(s),
        0 <= t < s.len(),
        0 <= n <= s[t].args.len(),
    ensures
        forall|k: int| 0 <= k < n ==> nesting_below(s, t, n) >= 1 + nesting(
            s,
            (#[trigger] s[t].args[k]) as int,
        ),
        n > 0 ==> exists|k: int|
            0 <= k < n && nesting_below(s, t, n) == 1 + nesting(
                s,
                (#[trigger] s[t].args[k]) as int,
            ),
        n == 0 ==> nesting_below(s, t, n) == 0,
    decreases n,
{
    assert(node_below(s, t));
    if n > 0 {
        lemma_nesting_below(s, t, n - 1);
        assert(1 + nesting(s, s[t].args[n - 1] as int) <= nesting_below(s, t, n));
        if n > 1 {
            let k = choose|k: int|
                0 <= k < n - 1 && nesting_below(s, t, n - 1) == 1 + nesting(
                    s,
                    (#[trigger] s[t].args[k]) as int,
                );
            assert(s[t].args[k] as int >= 0);
        }
    }
}

/// A term is nested one deeper than the deepest of its arguments; without arguments
/// it is not nested.
pub proof fn nesting_counts_levels(s: Seq<TermView>, t: TermId)
    requires
        terms_wf(s),
        t < s.len(),
    ensures
        s[t as int].args.len() == 0 <==> nesting(s, t as int) == 0,
        forall|k: int| 0 <= k < s[t as int].args.len() ==> nesting(s, t as int) > nesting(
            s,
            (#[trigger] s[t as int].args[k]) as int,
        ),
        s[t as int].args.len() > 0 ==> exists|k: int|
            0 <= k < s[t as int].args.len() && nesting(s, t as int) == 1 + nesting(
                s,
                (#[trigger] s[t as int].args[k]) as int,
            ),
{
    assert(node_below(s, t as int));
    lemma_nesting_below(s, t as int, s[t as int].args.len() as int);
}

/// A variable that was built by one constructor clashes with every other.
pub proof fn constructors_exclude_each_other(
    e: GoalView,
    v: TermId,
    one: NameId,
    other: NameId,
)
    requires
        !clashes(e, Some((v, one))),
    ensures
        clashes(noted(e, Some((v, one))), Some((v, other))) <==> other != one,
        forall|w: TermId, c: NameId| w != v ==> #[trigger] clashes(noted(e, Some((v, one))), Some((w, c)))
            == clashes(e, Some((w, c))),
{
}

/// The polarity covers the other.
pub open spec fn covers_polarity(known: Option<Polarity>, p: Polarity) -> bool {
    known == Some(p) || known == Some(Polarity::Both)
}

/// Polarities are only widened: each covers what was known before and every
/// occurrence, and it is no wider than the occurrences and what was known make it.
pub proof fn polarities_cover_their_occurrences(
    pols: Map<TermId, Polarity>,
    list: Seq<(TermId, Polarity)>,
    n: int,
    t: TermId,
    k: int,
)
    requires
        0 <= n <= list.len(),
    ensures
        0 <= k < n ==> covers_polarity(
            known_polarity(widened(pols, list, n), list[k].0),
            list[k].1,
        ),
        pols.contains_key(t) ==> covers_polarity(
            known_polarity(widened(pols, list, n), t),
            pols[t],
        ),
        (forall|j: int| 0 <= j < n ==> (#[trigger] list[j]).0 != t) ==> known_polarity(
            widened(pols, list, n),
            t,
        ) == known_polarity(pols, t),
        !pols.contains_key(t) && (forall|j: int|
            0 <= j < n && (#[trigger] list[j]).0 == t ==> list[j].1 == Polarity::Positive)
            ==> known_polarity(widened(pols, list, n), t) is None || known_polarity(
            widened(pols, list, n),
            t,
        ) == Some(Polarity::Positive),
    decreases n,
{
    if n > 0 {
        polarities_cover_their_occurrences(pols, list, n - 1, t, k);
        let before = widened(pols, list, n - 1);
        assert(list[n - 1].0 == t || list[n - 1].0 != t);
    }
}

/// An equation with a conditional on a side that is true, under an assignment that
/// satisfies the clauses, makes the equation with the branch true that the condition
/// selects.
pub proof fn conditional_equations_follow_the_branch(
    s: Seq<TermView>,
    e: GoalView,
    g: Assignment,
    t: TermId,
    eq: Lit,
)
    requires
        sat_all(g, e.clauses),
        branches_tied(s, e, t, eq),
        lit_val(g, eq),
        s[s[t as int].args[1] as int].op == Op::Ite,
    ensures
        exists|c: Lit, x: TermId, l: Lit| #[trigger]
            means(s, e.term_of, c, s[s[t as int].args[1] as int].args[0]) && #[trigger] means(
                s,
                e.term_of,
                l,
                x,
            ) && lit_val(g, l) && is_equation(
                s,
                s[t as int].args[0],
                s[s[t as int].args[1] as int].args[if lit_val(g, c) {
                    1
                } else {
                    2
                }],
                x,
            ),
{
    let (a, b) = (s[t as int].args[0], s[t as int].args[1]);
    let (c, et, l, ee, r) = choose|c: Lit, et: TermId, l: Lit, ee: TermId, r: Lit| #[trigger]
        branch_clauses(s, e, eq, a, b, c, et, l, ee, r);
    let p = seq![eq.negated(), c.negated(), l];
    let q = seq![eq.negated(), c, r];
    let i = choose|i: int| 0 <= i < e.clauses.len() && #[trigger] e.clauses[i] == p;
    let j = choose|j: int| 0 <= j < e.clauses.len() && #[trigger] e.clauses[j] == q;
    assert(clause_sat(g, e.clauses[i]) && clause_sat(g, e.clauses[j]));
    let u = choose|u: int| 0 <= u < p.len() && lit_val(g, #[trigger] p[u]);
    let w = choose|w: int| 0 <= w < q.len() && lit_val(g, #[trigger] q[w]);
    assert(p[0] == eq.negated() && p[1] == c.negated() && p[2] == l);
    assert(q[0] == eq.negated() && q[1] == c && q[2] == r);
    assert(means(s, e.term_of, c, s[b as int].args[0]));
    if lit_val(g, c) {
        assert(means(s, e.term_of, l, et) && lit_val(g, l));
    } else {
        assert(means(s, e.term_of, r, ee) && lit_val(g, r));
    }
}

/// An encoded variable of a bit-vector sort is registered with the bit-vector
/// engine.
pub proof fn bit_vector_variables_are_registered(
    kinds: Seq<SortKind>,
    s: Seq<TermView>,
    e: GoalView,
    t: TermId,
    width: u32,
)
    requires
        bvs_registered(kinds, s, e),
        e.j.memo.contains_key(t),
        s[t as int].op == Op::Var,
        !numeric_sort(s[t as int].sort),
        s[t as int].sort < kinds.len(),
        kinds[s[t as int].sort as int] == SortKind::BitVec(width),
    ensures
        e.j.bv.contains(t),
{
}

} // verus!
