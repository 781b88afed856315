//! Formulas as clauses.
//!
//! Every formula gets a literal, and clauses tie the literals of a connective
//! to those of its arguments.  The clauses are consequences of nothing: each is
//! true in every interpretation that reads a variable as its term.  And they
//! are enough: an assignment that satisfies them and agrees with an
//! interpretation on the theory atoms gives each literal the value of its
//! formula, in the directions that the formula's polarity asks for.

use crate::collections::{copy_words, map_get};
use crate::constructors::{grew, is_equation};
use crate::linear::{parses_as, ArithConstraintType};
use crate::semantics::{eqv, eval, eval_args, holds, is_true, lemma_eval, lemma_extend, Interp};
use crate::state::{
    array_op, atom_literal, attached, bv_arith_op, clause_true, conditional_side, constraint_ok,
    equation_at, flags_cover, flags_rise, goal_inv, lemma_attached_step, lemma_means_extend,
    lemma_no_parts, lemma_parts_args, lemma_parts_branches, lemma_parts_grow, lemma_parts_pairs,
    lemma_step_clause, lemma_step_grow, lemma_step_trans, linear_atom, lit_true, means,
    operands_requested, pair_encoded, parts_encoded, polarity_of, quantifier_op, relation_of,
    remembered, step, theory_atom, valid_clause, Constraint, GoalState, GoalView, Journaled, Lit,
    Polarity, TheoryRequest, Var,
};
use crate::terms::{
    extends, is_numeric_sort, node_below, numeric_sort, terms_wf, Op, SortKind, TermId, TermStore,
    TermView, BOOL_SORT, FALSE_TERM, TRUE_TERM,
};
use vstd::prelude::*;

verus! {

/// The nesting depth at which the encoder stops descending.
pub const ENCODE_DEPTH_LIMIT: u32 = 512;

/// A bound on how deep the encoder descends below a term.
pub open spec fn weight(s: Seq<TermView>, t: int) -> nat
    decreases t, 1int, 0int,
{
    if !(0 <= t < s.len()) || !node_below(s, t) {
        1
    } else if s[t].op == Op::Distinct {
        3 + weight_from(s, t, 0)
    } else {
        2 + weight_from(s, t, 0)
    }
}

pub open spec fn weight_from(s: Seq<TermView>, t: int, k: int) -> nat
    decreases t, 0int, s[t].args.len() - k,
{
    if !(0 <= k < s[t].args.len()) || !node_below(s, t) || t < 0 {
        0
    } else {
        weight(s, s[t].args[k] as int) + weight_from(s, t, k + 1)
    }
}

proof fn lemma_weight_from(s: Seq<TermView>, t: int, j: int, k: int)
    requires
        0 <= t < s.len(),
        node_below(s, t),
        0 <= j <= k < s[t].args.len(),
    ensures
        weight_from(s, t, j) >= weight(s, s[t].args[k] as int),
    decreases k - j,
{
    if j < k {
        lemma_weight_from(s, t, j + 1, k);
    }
}

proof fn lemma_weight_from_two(s: Seq<TermView>, t: int, i: int, j: int, k: int)
    requires
        0 <= t < s.len(),
        node_below(s, t),
        0 <= i <= j < k < s[t].args.len(),
    ensures
        weight_from(s, t, i) >= weight(s, s[t].args[j] as int) + weight(s, s[t].args[k] as int),
    decreases j - i,
{
    if i < j {
        lemma_weight_from_two(s, t, i + 1, j, k);
    } else {
        lemma_weight_from(s, t, j + 1, k);
    }
}

/// Arguments weigh less.
pub proof fn lemma_weight_arg(s: Seq<TermView>, t: int, k: int)
    requires
        terms_wf(s),
        0 <= t < s.len(),
        0 <= k < s[t].args.len(),
    ensures
        weight(s, s[t].args[k] as int) + 2 <= weight(s, t),
{
    assert(node_below(s, t));
    lemma_weight_from(s, t, 0, k);
}

proof fn lemma_weight_pair(s: Seq<TermView>, t: int, j: int, k: int)
    requires
        terms_wf(s),
        0 <= t < s.len(),
        0 <= j < k < s[t].args.len(),
    ensures
        weight(s, s[t].args[j] as int) + weight(s, s[t].args[k] as int) + 2 <= weight(s, t),
        s[t].op == Op::Distinct ==> weight(s, s[t].args[j] as int) + weight(
            s,
            s[t].args[k] as int,
        ) + 3 <= weight(s, t),
{
    assert(node_below(s, t));
    lemma_weight_from_two(s, t, 0, j, k);
}

/// Weights do not depend on later terms.
pub proof fn lemma_weight_extend(a: Seq<TermView>, b: Seq<TermView>, t: int)
    requires
        terms_wf(a),
        terms_wf(b),
        extends(a, b),
        0 <= t < a.len(),
    ensures
        weight(a, t) == weight(b, t),
    decreases t, 1int, 0int,
{
    assert(node_below(a, t));
    assert(node_below(b, t));
    assert(b[t] == a[t]);
    lemma_weight_from_extend(a, b, t, 0);
}

proof fn lemma_weight_from_extend(a: Seq<TermView>, b: Seq<TermView>, t: int, k: int)
    requires
        terms_wf(a),
        terms_wf(b),
        extends(a, b),
        0 <= t < a.len(),
        0 <= k,
    ensures
        weight_from(a, t, k) == weight_from(b, t, k),
    decreases t, 0int, a[t].args.len() - k,
{
    assert(node_below(a, t));
    assert(node_below(b, t));
    assert(b[t] == a[t]);
    if k < a[t].args.len() {
        lemma_weight_extend(a, b, a[t].args[k] as int);
        lemma_weight_from_extend(a, b, t, k + 1);
    }
}

/// A value for each propositional variable.
pub type Assignment = spec_fn(Var) -> bool;

pub open spec fn lit_val(g: Assignment, l: Lit) -> bool {
    g(l.var) == l.positive
}

pub open spec fn clause_sat(g: Assignment, c: Seq<Lit>) -> bool {
    exists|k: int| 0 <= k < c.len() && lit_val(g, #[trigger] c[k])
}

pub open spec fn sat_all(g: Assignment, clauses: Seq<Seq<Lit>>) -> bool {
    forall|k: int| 0 <= k < clauses.len() ==> clause_sat(g, #[trigger] clauses[k])
}

/// Formulas whose value the clauses derive from those of other formulas.
pub open spec fn gate(s: Seq<TermView>, t: int) -> bool {
    match s[t].op {
        Op::True | Op::False | Op::Not | Op::And | Op::Or | Op::Xor | Op::Implies | Op::Ite
        | Op::Distinct | Op::Let => true,
        Op::Eq => s[s[t].args[0] as int].sort == BOOL_SORT,
        _ => false,
    }
}

/// The assignment gives the theory atoms the values of the interpretation.
pub open spec fn agrees(s: Seq<TermView>, e: GoalView, g: Assignment, i: Interp) -> bool {
    forall|t: TermId| #[trigger]
        e.j.var_of.contains_key(t) && !gate(s, t as int) ==> g(e.j.var_of[t]) == holds(s, i, t)
}

pub open spec fn flip(p: Polarity) -> Polarity {
    match p {
        Polarity::Positive => Polarity::Negative,
        Polarity::Negative => Polarity::Positive,
        Polarity::Both => Polarity::Both,
    }
}

pub open spec fn covers(p: Polarity, q: Polarity) -> bool {
    p == Polarity::Both || p == q
}

/// The literal's value bounds the formula's in the directions of the polarity.
pub open spec fn bounded(p: Polarity, lit: bool, formula: bool) -> bool {
    &&& p != Polarity::Negative ==> (lit ==> formula)
    &&& p != Polarity::Positive ==> (formula ==> lit)
}

/// The directions that the clauses of a term give: those of its polarity for
/// the connectives that pass polarity on, both for every other term.
pub open spec fn coverage(s: Seq<TermView>, e: GoalView, t: TermId) -> Polarity {
    match s[t as int].op {
        Op::Not | Op::And | Op::Or | Op::Implies | Op::Ite | Op::Let => polarity_of(e, t),
        _ => Polarity::Both,
    }
}

/// Connectives whose arguments are formulas.
pub open spec fn connective(s: Seq<TermView>, t: int) -> bool {
    match s[t].op {
        Op::Not | Op::And | Op::Or | Op::Xor | Op::Implies | Op::Ite | Op::Let => true,
        Op::Eq | Op::Distinct => s[t].args.len() > 0 && s[s[t].args[0] as int].sort == BOOL_SORT,
        _ => false,
    }
}

/// The polarities of the arguments are wide enough for that of the term.
pub open spec fn coherent_at(s: Seq<TermView>, e: GoalView, t: TermId) -> bool {
    let args = s[t as int].args;
    let p = polarity_of(e, t);
    match s[t as int].op {
        Op::Not => covers(polarity_of(e, args[0]), flip(p)),
        Op::And | Op::Or => forall|k: int|
            0 <= k < args.len() ==> covers(polarity_of(e, #[trigger] args[k]), p),
        Op::Implies => covers(polarity_of(e, args[0]), flip(p)) && covers(
            polarity_of(e, args[1]),
            p,
        ),
        Op::Ite => polarity_of(e, args[0]) == Polarity::Both && covers(polarity_of(e, args[1]), p)
            && covers(polarity_of(e, args[2]), p),
        Op::Let => covers(polarity_of(e, args[0]), p),
        Op::Xor | Op::Eq | Op::Distinct => connective(s, t as int) ==> forall|k: int|
            0 <= k < args.len() ==> polarity_of(e, #[trigger] args[k]) == Polarity::Both,
        _ => true,
    }
}

/// The polarities are coherent at every connective of the formula.
pub open spec fn coherent(s: Seq<TermView>, e: GoalView, t: TermId) -> bool
    decreases t,
{
    &&& coherent_at(s, e, t)
    &&& connective(s, t as int) ==> forall|k: int|
        0 <= k < s[t as int].args.len() && s[t as int].args[k] < t ==> coherent(
            s,
            e,
            #[trigger] s[t as int].args[k],
        )
}

/// The clauses bound the literal by the formula in the directions of `p`.
pub open spec fn covered(s: Seq<TermView>, e: GoalView, l: Lit, t: TermId, p: Polarity) -> bool {
    forall|g: Assignment, i: Interp| #[trigger]
        agrees(s, e, g, i) && sat_all(g, e.clauses) ==> bounded(p, lit_val(g, l), holds(s, i, t))
}

/// The clauses are enough for every remembered term with coherent polarities.
pub open spec fn complete(s: Seq<TermView>, e: GoalView) -> bool {
    forall|t: TermId| #[trigger]
        e.j.memo.contains_key(t) && coherent(s, e, t) ==> covered(
            s,
            e,
            e.j.memo[t].0,
            t,
            coverage(s, e, t),
        )
}

/// A step that keeps the clauses complete.
pub open spec fn keeps(s0: Seq<TermView>, e0: GoalView, s1: Seq<TermView>, e1: GoalView) -> bool {
    &&& step(s0, e0, s1, e1)
    &&& flags_rise(e0, s1, e1)
    &&& complete(s0, e0) && !e1.exceeded ==> complete(s1, e1)
}

/// A step that keeps the clauses complete and records no arithmetic axioms.
pub open spec fn good(s0: Seq<TermView>, e0: GoalView, s1: Seq<TermView>, e1: GoalView) -> bool {
    &&& keeps(s0, e0, s1, e1)
    &&& e1.j.const_axioms == e0.j.const_axioms
    &&& e1.j.care_pairs == e0.j.care_pairs
}

/// An equation between terms that are no formulas.
pub open spec fn theory_equation(s: Seq<TermView>, t: TermId) -> bool {
    s[t as int].op == Op::Eq && s[s[t as int].args[0] as int].sort != BOOL_SORT
}

/// The clauses say that `eq` forces `a` to equal the branch of `b` that the
/// condition selects: `et` and `ee` equate `a` with the branches, and `c`, `l`
/// and `r` are the literals of the condition, of `et` and of `ee`.
pub open spec fn branch_clauses(
    s: Seq<TermView>,
    e: GoalView,
    eq: Lit,
    a: TermId,
    b: TermId,
    c: Lit,
    et: TermId,
    l: Lit,
    ee: TermId,
    r: Lit,
) -> bool {
    &&& means(s, e.term_of, c, s[b as int].args[0])
    &&& is_equation(s, a, s[b as int].args[1], et)
    &&& means(s, e.term_of, l, et)
    &&& is_equation(s, a, s[b as int].args[2], ee)
    &&& means(s, e.term_of, r, ee)
    &&& has_clause(e, seq![eq.negated(), c.negated(), l])
    &&& has_clause(e, seq![eq.negated(), c, r])
}

/// An equation with a conditional side is tied to the branches of that side.
pub open spec fn branches_tied(s: Seq<TermView>, e: GoalView, t: TermId, eq: Lit) -> bool {
    match conditional_side(s, t) {
        Some((a, b)) => exists|c: Lit, et: TermId, l: Lit, ee: TermId, r: Lit| #[trigger]
            branch_clauses(s, e, eq, a, b, c, et, l, ee, r),
        None => true,
    }
}

proof fn lemma_tied(
    s: Seq<TermView>,
    e: GoalView,
    t: TermId,
    eq: Lit,
    a: TermId,
    b: TermId,
    c: Lit,
    et: TermId,
    l: Lit,
    ee: TermId,
    r: Lit,
)
    requires
        conditional_side(s, t) == Some((a, b)),
        branch_clauses(s, e, eq, a, b, c, et, l, ee, r),
    ensures
        branches_tied(s, e, t, eq),
{
    if let Some((x, y)) = conditional_side(s, t) {
        assert(x == a && y == b);
        assert(branch_clauses(s, e, eq, x, y, c, et, l, ee, r));
    }
}

proof fn lemma_tied_same(s: Seq<TermView>, e0: GoalView, e1: GoalView, t: TermId, eq: Lit)
    requires
        branches_tied(s, e0, t, eq),
        e1.term_of == e0.term_of,
        e1.clauses == e0.clauses,
    ensures
        branches_tied(s, e1, t, eq),
{
    if let Some((a, b)) = conditional_side(s, t) {
        let (c, et, l, ee, r) = choose|c: Lit, et: TermId, l: Lit, ee: TermId, r: Lit| #[trigger]
            branch_clauses(s, e0, eq, a, b, c, et, l, ee, r);
        assert(branch_clauses(s, e1, eq, a, b, c, et, l, ee, r));
    }
}

/// The encoded bit-vector variables are registered with their engine.
pub open spec fn bvs_registered(kinds: Seq<SortKind>, s: Seq<TermView>, e: GoalView) -> bool {
    forall|t: TermId| #[trigger]
        e.j.memo.contains_key(t) && bv_variable(kinds, s[t as int]) ==> e.j.bv.contains(t)
}

pub open spec fn bv_variable(kinds: Seq<SortKind>, node: TermView) -> bool {
    node.op == Op::Var && bv_term(kinds, node)
}

/// If the encoded bit-vector variables were registered, they still are.
pub open spec fn bvs_kept(
    kinds: Seq<SortKind>,
    s0: Seq<TermView>,
    e0: GoalView,
    s1: Seq<TermView>,
    e1: GoalView,
) -> bool {
    bvs_registered(kinds, s0, e0) ==> bvs_registered(kinds, s1, e1)
}

/// What encoding `t` at a depth does, with the literal `l` for it.
pub open spec fn encoded(
    s0: Seq<TermView>,
    e0: GoalView,
    s1: Seq<TermView>,
    e1: GoalView,
    t: TermId,
    l: Lit,
    depth: u32,
) -> bool {
    &&& good(s0, e0, s1, e1)
    &&& means(s1, e1.term_of, l, t)
    &&& e1.exceeded && !e0.exceeded ==> depth + weight(s0, t as int) > ENCODE_DEPTH_LIMIT
    &&& complete(s0, e0) && !e1.exceeded && coherent(s1, e1, t) ==> covered(
        s1,
        e1,
        l,
        t,
        coverage(s1, e1, t),
    )
}

pub(crate) proof fn lemma_coherent_extend(
    s0: Seq<TermView>,
    e0: GoalView,
    s1: Seq<TermView>,
    e1: GoalView,
    t: TermId,
)
    requires
        terms_wf(s0),
        extends(s0, s1),
        e1.pols == e0.pols,
        e1.aware == e0.aware,
        t < s0.len(),
    ensures
        coherent(s0, e0, t) == coherent(s1, e1, t),
        gate(s0, t as int) == gate(s1, t as int),
        coverage(s0, e0, t) == coverage(s1, e1, t),
        polarity_of(e0, t) == polarity_of(e1, t),
    decreases t,
{
    assert(node_below(s0, t as int));
    let node = s0[t as int];
    assert(s1[t as int] == node);
    assert forall|k: int| 0 <= k < node.args.len() implies coherent(s0, e0, #[trigger] node.args[k])
        == coherent(s1, e1, node.args[k]) by {
        lemma_coherent_extend(s0, e0, s1, e1, node.args[k]);
    }
    assert forall|k: int| 0 <= k < node.args.len() implies polarity_of(e0, #[trigger] node.args[k])
        == polarity_of(e1, node.args[k]) by {}
    if node.args.len() > 0 {
        assert(s1[node.args[0] as int] == s0[node.args[0] as int]);
    }
    assert(coherent_at(s0, e0, t) == coherent_at(s1, e1, t));
}

/// Agreement and satisfaction carry back to an earlier state.
pub(crate) proof fn lemma_agrees_back(
    s0: Seq<TermView>,
    e0: GoalView,
    s1: Seq<TermView>,
    e1: GoalView,
    g: Assignment,
    i: Interp,
)
    requires
        goal_inv(s0, e0),
        step(s0, e0, s1, e1),
        agrees(s1, e1, g, i),
        sat_all(g, e1.clauses),
    ensures
        agrees(s0, e0, g, i),
        sat_all(g, e0.clauses),
{
    assert forall|t: TermId| #[trigger] e0.j.var_of.contains_key(t) && !gate(
        s0,
        t as int,
    ) implies g(e0.j.var_of[t]) == holds(s0, i, t) by {
        assert(e0.term_of[e0.j.var_of[t] as int] == t);
        assert(t < s0.len());
        lemma_coherent_extend(s0, e0, s1, e1, t);
        lemma_extend(s0, s1, i, t);
        assert(e1.j.var_of.contains_key(t));
    }
    assert forall|k: int| 0 <= k < e0.clauses.len() implies clause_sat(
        g,
        #[trigger] e0.clauses[k],
    ) by {
        assert(e1.clauses[k] == e0.clauses[k]);
    }
}

/// What is covered stays covered.
proof fn lemma_covered_step(
    s0: Seq<TermView>,
    e0: GoalView,
    s1: Seq<TermView>,
    e1: GoalView,
    l: Lit,
    t: TermId,
    p: Polarity,
)
    requires
        goal_inv(s0, e0),
        step(s0, e0, s1, e1),
        t < s0.len(),
        covered(s0, e0, l, t, p),
    ensures
        covered(s1, e1, l, t, p),
{
    assert forall|g: Assignment, i: Interp| #[trigger] agrees(s1, e1, g, i) && sat_all(
        g,
        e1.clauses,
    ) implies bounded(p, lit_val(g, l), holds(s1, i, t)) by {
        lemma_agrees_back(s0, e0, s1, e1, g, i);
        lemma_extend(s0, s1, i, t);
    }
}

/// A step that remembers no term is good.
pub(crate) proof fn lemma_good_quiet(s0: Seq<TermView>, e0: GoalView, s1: Seq<TermView>, e1: GoalView)
    requires
        goal_inv(s0, e0),
        step(s0, e0, s1, e1),
        e1.j.memo == e0.j.memo,
        e1.quantified == e0.quantified,
        e1.arrays == e0.arrays,
        e1.bv_arith == e0.bv_arith,
    ensures
        keeps(s0, e0, s1, e1),
        e1.j.const_axioms == e0.j.const_axioms && e1.j.care_pairs == e0.j.care_pairs ==> good(
            s0,
            e0,
            s1,
            e1,
        ),
{
    assert forall|t: TermId| complete(s0, e0) && #[trigger] e1.j.memo.contains_key(t) && coherent(
        s1,
        e1,
        t,
    ) implies covered(s1, e1, e1.j.memo[t].0, t, coverage(s1, e1, t)) by {
        lemma_coherent_extend(s0, e0, s1, e1, t);
        assert(e0.j.memo.contains_key(t));
        lemma_covered_step(s0, e0, s1, e1, e0.j.memo[t].0, t, coverage(s0, e0, t));
    }
}

/// Growing the store alone is a good step.
pub(crate) proof fn lemma_good_grow(s0: Seq<TermView>, s1: Seq<TermView>, e: GoalView)
    requires
        goal_inv(s0, e),
        terms_wf(s1),
        extends(s0, s1),
    ensures
        good(s0, e, s1, e),
{
    lemma_step_grow(s0, s1, e);
    lemma_good_quiet(s0, e, s1, e);
}

pub(crate) proof fn lemma_good_refl(s: Seq<TermView>, e: GoalView)
    requires
        goal_inv(s, e),
    ensures
        good(s, e, s, e),
{
    lemma_good_grow(s, s, e);
}

/// Good steps compose.
pub(crate) proof fn lemma_good_trans(
    s0: Seq<TermView>,
    e0: GoalView,
    s1: Seq<TermView>,
    e1: GoalView,
    s2: Seq<TermView>,
    e2: GoalView,
)
    requires
        goal_inv(s0, e0),
        good(s0, e0, s1, e1),
        good(s1, e1, s2, e2),
    ensures
        good(s0, e0, s2, e2),
{
    lemma_keeps_trans(s0, e0, s1, e1, s2, e2);
}

pub(crate) proof fn lemma_keeps_trans(
    s0: Seq<TermView>,
    e0: GoalView,
    s1: Seq<TermView>,
    e1: GoalView,
    s2: Seq<TermView>,
    e2: GoalView,
)
    requires
        goal_inv(s0, e0),
        keeps(s0, e0, s1, e1),
        keeps(s1, e1, s2, e2),
    ensures
        keeps(s0, e0, s2, e2),
{
    lemma_step_trans(s0, e0, s1, e1, s2, e2);
    if e1.quantified && !e0.quantified {
        let t = choose|t: TermId| #[trigger] e1.j.memo.contains_key(t) && quantifier_op(
            s1[t as int].op,
        );
        assert(t < s1.len());
        assert(e2.j.memo.contains_key(t) && s2[t as int] == s1[t as int]);
    }
    if e1.arrays && !e0.arrays {
        let t = choose|t: TermId| #[trigger] e1.j.memo.contains_key(t) && array_op(
            s1[t as int].op,
        );
        assert(t < s1.len());
        assert(e2.j.memo.contains_key(t) && s2[t as int] == s1[t as int]);
    }
    if e1.bv_arith && !e0.bv_arith {
        let t = choose|t: TermId| #[trigger] e1.j.memo.contains_key(t) && bv_arith_op(
            s1[t as int].op,
        );
        assert(t < s1.len());
        assert(e2.j.memo.contains_key(t) && s2[t as int] == s1[t as int]);
    }
}

/// Marking the state as incomplete is a step.
proof fn lemma_step_exceeded(s: Seq<TermView>, e0: GoalView, e1: GoalView)
    requires
        goal_inv(s, e0),
        e1 == (GoalView { exceeded: true, ..e0 }),
    ensures
        step(s, e0, s, e1),
{
    assert(e1.trail.take(e1.trail.len() as int) =~= e1.trail);
    assert(e1.requests.take(e1.requests.len() as int) =~= e1.requests);
}

/// Remembering the literal of a term keeps what was done for it.
proof fn lemma_remember(
    s0: Seq<TermView>,
    e0: GoalView,
    s1: Seq<TermView>,
    e1: GoalView,
    e2: GoalView,
    term: TermId,
    lit: Lit,
    depth: u32,
)
    requires
        goal_inv(s0, e0),
        term < s0.len(),
        encoded(s0, e0, s1, e1, term, lit, depth),
        step(s1, e1, s1, e2),
        e2.j.memo.dom() == e1.j.memo.dom().insert(term),
        e2.j.memo[term].0 == lit,
        forall|t: TermId| t != term ==> #[trigger] e2.j.memo[t] == e1.j.memo[t],
        e2.exceeded == e1.exceeded,
        e2.quantified == e1.quantified,
        e2.arrays == e1.arrays,
        e2.bv_arith == e1.bv_arith,
        e2.j.const_axioms == e1.j.const_axioms,
        e2.j.care_pairs == e1.j.care_pairs,
    ensures
        encoded(s0, e0, s1, e2, term, lit, depth),
{
    lemma_step_trans(s0, e0, s1, e1, s1, e2);
    lemma_means_extend(s1, e1.term_of, s1, e2.term_of, lit, term);
    lemma_coherent_extend(s1, e1, s1, e2, term);
    let sure = complete(s0, e0) && !e2.exceeded;
    if sure && coherent(s1, e2, term) {
        lemma_covered_step(s1, e1, s1, e2, lit, term, coverage(s1, e1, term));
    }
    assert forall|t: TermId| sure && #[trigger] e2.j.memo.contains_key(t) && coherent(
        s1,
        e2,
        t,
    ) implies covered(s1, e2, e2.j.memo[t].0, t, coverage(s1, e2, t)) by {
        if t != term {
            assert(e1.j.memo.contains_key(t));
            lemma_coherent_extend(s1, e1, s1, e2, t);
            lemma_covered_step(s1, e1, s1, e2, e1.j.memo[t].0, t, coverage(s1, e1, t));
        }
    }
    assert(flags_rise(e0, s1, e2)) by {
        assert(forall|t: TermId| e1.j.memo.contains_key(t) ==> #[trigger] e2.j.memo.contains_key(t));
        if e1.quantified && !e0.quantified {
            let t = choose|t: TermId| #[trigger] e1.j.memo.contains_key(t) && quantifier_op(
                s1[t as int].op,
            );
            assert(e2.j.memo.contains_key(t));
        }
        if e1.arrays && !e0.arrays {
            let t = choose|t: TermId| #[trigger] e1.j.memo.contains_key(t) && array_op(
                s1[t as int].op,
            );
            assert(e2.j.memo.contains_key(t));
        }
        if e1.bv_arith && !e0.bv_arith {
            let t = choose|t: TermId| #[trigger] e1.j.memo.contains_key(t) && bv_arith_op(
                s1[t as int].op,
            );
            assert(e2.j.memo.contains_key(t));
        }
    }
}

/// What has been done for `term` so far.
spec fn so_far(
    s0: Seq<TermView>,
    e0: GoalView,
    s1: Seq<TermView>,
    e1: GoalView,
    term: TermId,
    depth: u32,
) -> bool {
    &&& good(s0, e0, s1, e1)
    &&& e1.exceeded && !e0.exceeded ==> depth + weight(s0, term as int) > ENCODE_DEPTH_LIMIT
}

/// The literal `l` stands for `arg` in the state reached from the first.
spec fn arg_ok(
    s0: Seq<TermView>,
    e0: GoalView,
    s1: Seq<TermView>,
    e1: GoalView,
    arg: TermId,
    l: Lit,
) -> bool {
    &&& arg < s1.len()
    &&& e1.j.memo.contains_key(arg) || e1.exceeded
    &&& means(s1, e1.term_of, l, arg)
    &&& complete(s0, e0) && !e1.exceeded && coherent(s1, e1, arg) ==> covered(
        s1,
        e1,
        l,
        arg,
        coverage(s1, e1, arg),
    )
}

proof fn lemma_start(s: Seq<TermView>, e: GoalView, term: TermId, depth: u32)
    requires
        goal_inv(s, e),
    ensures
        so_far(s, e, s, e, term, depth),
{
    lemma_step_grow(s, s, e);
    lemma_good_quiet(s, e, s, e);
}

proof fn lemma_quiet(
    s0: Seq<TermView>,
    e0: GoalView,
    s1: Seq<TermView>,
    e1: GoalView,
    s2: Seq<TermView>,
    e2: GoalView,
    term: TermId,
    depth: u32,
)
    requires
        goal_inv(s0, e0),
        so_far(s0, e0, s1, e1, term, depth),
        step(s1, e1, s2, e2),
        e2.j.memo == e1.j.memo,
        e2.quantified == e1.quantified,
        e2.arrays == e1.arrays,
        e2.bv_arith == e1.bv_arith,
        e2.exceeded == e1.exceeded,
        e2.j.const_axioms == e1.j.const_axioms,
        e2.j.care_pairs == e1.j.care_pairs,
    ensures
        so_far(s0, e0, s2, e2, term, depth),
        good(s1, e1, s2, e2),
{
    lemma_good_quiet(s1, e1, s2, e2);
    lemma_good_trans(s0, e0, s1, e1, s2, e2);
}

proof fn lemma_sub(
    s0: Seq<TermView>,
    e0: GoalView,
    s1: Seq<TermView>,
    e1: GoalView,
    s2: Seq<TermView>,
    e2: GoalView,
    term: TermId,
    arg: TermId,
    l: Lit,
    depth: u32,
)
    requires
        goal_inv(s0, e0),
        so_far(s0, e0, s1, e1, term, depth),
        arg < s1.len(),
        depth < u32::MAX,
        e2.j.memo.contains_key(arg) || e2.exceeded,
        encoded(s1, e1, s2, e2, arg, l, (depth + 1) as u32),
        weight(s1, arg as int) + 1 <= weight(s0, term as int),
    ensures
        so_far(s0, e0, s2, e2, term, depth),
        good(s1, e1, s2, e2),
        arg_ok(s0, e0, s2, e2, arg, l),
{
    lemma_good_trans(s0, e0, s1, e1, s2, e2);
}

/// Where the arguments have their literals, the parts of the term are encoded.
proof fn lemma_args_parts(
    s0: Seq<TermView>,
    e0: GoalView,
    s: Seq<TermView>,
    e: GoalView,
    term: TermId,
    lits: Seq<Lit>,
)
    requires
        s[term as int].op != Op::Distinct,
        s[term as int].op == Op::Eq ==> s[term as int].args.len() == 2 && s[s[term as int].args[0] as int].sort
            == BOOL_SORT,
        s[term as int].op == Op::Let ==> s[term as int].args.len() > 0,
        lits.len() == (if s[term as int].op == Op::Let {
            1int
        } else {
            s[term as int].args.len() as int
        }),
        forall|k: int|
            0 <= k < lits.len() ==> arg_ok(s0, e0, s, e, s[term as int].args[k], #[trigger] lits[k]),
    ensures
        e.exceeded || parts_encoded(s, e.j.memo, term),
{
    if !e.exceeded {
        assert forall|k: int| 0 <= k < lits.len() implies e.j.memo.contains_key(
            #[trigger] s[term as int].args[k],
        ) by {
            assert(arg_ok(s0, e0, s, e, s[term as int].args[k], lits[k]));
        }
        lemma_parts_args(s, e, term);
    }
}

proof fn lemma_arg_carry(
    s0: Seq<TermView>,
    e0: GoalView,
    s1: Seq<TermView>,
    e1: GoalView,
    s2: Seq<TermView>,
    e2: GoalView,
    arg: TermId,
    l: Lit,
)
    requires
        goal_inv(s1, e1),
        arg_ok(s0, e0, s1, e1, arg, l),
        good(s1, e1, s2, e2),
    ensures
        arg_ok(s0, e0, s2, e2, arg, l),
{
    lemma_means_extend(s1, e1.term_of, s2, e2.term_of, l, arg);
    if complete(s0, e0) && !e2.exceeded && coherent(s2, e2, arg) {
        lemma_coherent_extend(s1, e1, s2, e2, arg);
        lemma_covered_step(s1, e1, s2, e2, l, arg, coverage(s1, e1, arg));
    }
}

proof fn lemma_arg_weight(s0: Seq<TermView>, s1: Seq<TermView>, term: TermId, k: int)
    requires
        terms_wf(s0),
        terms_wf(s1),
        extends(s0, s1),
        term < s0.len(),
        0 <= k < s0[term as int].args.len(),
    ensures
        s0[term as int].args[k] < s1.len(),
        weight(s1, s0[term as int].args[k] as int) + 1 <= weight(s0, term as int),
{
    assert(node_below(s0, term as int));
    lemma_weight_arg(s0, term as int, k);
    lemma_weight_extend(s0, s1, s0[term as int].args[k] as int);
}

proof fn lemma_clause1(s: Seq<TermView>, f: Seq<TermId>, a: Lit)
    requires
        a.var < f.len(),
        forall|i: Interp| #[trigger] lit_true(s, i, f, a),
    ensures
        valid_clause(s, f, seq![a]),
{
    let c = seq![a];
    assert forall|i: Interp| #[trigger] clause_true(s, i, f, c) by {
        assert(lit_true(s, i, f, c[0]));
    }
}

proof fn lemma_clause2(s: Seq<TermView>, f: Seq<TermId>, a: Lit, b: Lit)
    requires
        a.var < f.len(),
        b.var < f.len(),
        forall|i: Interp| #[trigger]
            lit_true(s, i, f, a) || lit_true(s, i, f, b),
    ensures
        valid_clause(s, f, seq![a, b]),
{
    let c = seq![a, b];
    assert forall|i: Interp| #[trigger] clause_true(s, i, f, c) by {
        assert(lit_true(s, i, f, a) || lit_true(s, i, f, b));
        assert(lit_true(s, i, f, c[0]) || lit_true(s, i, f, c[1]));
    }
}

proof fn lemma_clause3(s: Seq<TermView>, f: Seq<TermId>, a: Lit, b: Lit, c: Lit)
    requires
        a.var < f.len(),
        b.var < f.len(),
        c.var < f.len(),
        forall|i: Interp| #[trigger]
            lit_true(s, i, f, a) || lit_true(s, i, f, b) || lit_true(s, i, f, c),
    ensures
        valid_clause(s, f, seq![a, b, c]),
{
    let d = seq![a, b, c];
    assert forall|i: Interp| #[trigger] clause_true(s, i, f, d) by {
        assert(lit_true(s, i, f, a) || lit_true(s, i, f, b) || lit_true(s, i, f, c));
        assert(lit_true(s, i, f, d[0]) || lit_true(s, i, f, d[1]) || lit_true(s, i, f, d[2]));
    }
}

/// The clause is among those handed over.
pub open spec fn has_clause(e: GoalView, c: Seq<Lit>) -> bool {
    exists|k: int| 0 <= k < e.clauses.len() && #[trigger] e.clauses[k] == c
}

proof fn lemma_sat1(g: Assignment, e: GoalView, a: Lit)
    requires
        sat_all(g, e.clauses),
        has_clause(e, seq![a]),
    ensures
        lit_val(g, a),
{
    let k = choose|k: int| 0 <= k < e.clauses.len() && #[trigger] e.clauses[k] == seq![a];
    assert(clause_sat(g, e.clauses[k]));
}

proof fn lemma_sat2(g: Assignment, e: GoalView, a: Lit, b: Lit)
    requires
        sat_all(g, e.clauses),
        has_clause(e, seq![a, b]),
    ensures
        lit_val(g, a) || lit_val(g, b),
{
    let c = seq![a, b];
    let k = choose|k: int| 0 <= k < e.clauses.len() && #[trigger] e.clauses[k] == c;
    assert(clause_sat(g, e.clauses[k]));
    let j = choose|j: int| 0 <= j < 2 && lit_val(g, #[trigger] c[j]);
    assert(j == 0 || j == 1);
}

proof fn lemma_sat3(g: Assignment, e: GoalView, a: Lit, b: Lit, c: Lit)
    requires
        sat_all(g, e.clauses),
        has_clause(e, seq![a, b, c]),
    ensures
        lit_val(g, a) || lit_val(g, b) || lit_val(g, c),
{
    let d = seq![a, b, c];
    let k = choose|k: int| 0 <= k < e.clauses.len() && #[trigger] e.clauses[k] == d;
    assert(clause_sat(g, e.clauses[k]));
    let j = choose|j: int| 0 <= j < 3 && lit_val(g, #[trigger] d[j]);
    assert(j == 0 || j == 1 || j == 2);
}

fn clause1(a: Lit) -> (c: Vec<Lit>)
    ensures
        c@ == seq![a],
{
    let mut c: Vec<Lit> = Vec::new();
    c.push(a);
    assert(c@ =~= seq![a]);
    c
}

fn clause2(a: Lit, b: Lit) -> (c: Vec<Lit>)
    ensures
        c@ == seq![a, b],
{
    let mut c: Vec<Lit> = Vec::new();
    c.push(a);
    c.push(b);
    assert(c@ =~= seq![a, b]);
    c
}

fn clause3(a: Lit, b: Lit, c: Lit) -> (d: Vec<Lit>)
    ensures
        d@ == seq![a, b, c],
{
    let mut d: Vec<Lit> = Vec::new();
    d.push(a);
    d.push(b);
    d.push(c);
    assert(d@ =~= seq![a, b, c]);
    d
}

impl GoalState {
    /// Hands over a clause that every interpretation makes true.
    pub(crate) fn add_valid(&mut self, Ghost(s): Ghost<Seq<TermView>>, clause: Vec<Lit>)
        requires
            goal_inv(s, old(self)@),
            valid_clause(s, old(self)@.term_of, clause@),
        ensures
            step(s, old(self)@, s, final(self)@),
            final(self)@ == (GoalView { clauses: old(self)@.clauses.push(clause@), ..old(self)@ }),
    {
        let ghost before = self@;
        self.add_clause(clause);
        proof {
            lemma_step_clause(s, before, self@, clause@);
        }
    }

    /// The literal of a term that was encoded in the directions needed.
    fn recall(&self, term: TermId, needed: Polarity) -> (r: Option<Lit>)
        requires
            needed == polarity_of(self@, term),
        ensures
            r is Some == remembered(self@, term),
            r matches Some(l) ==> l == self@.j.memo[term].0,
    {
        match map_get(&self.encoded_terms, term) {
            Some(entry) => {
                let (lit, cached) = *entry;
                if cached == Polarity::Both || cached == needed {
                    Some(lit)
                } else {
                    None
                }
            },
            None => None,
        }
    }

    fn polarity(&self, term: TermId) -> (p: Polarity)
        ensures
            p == polarity_of(self@, term),
    {
        if self.polarity_aware {
            match map_get(&self.polarities, term) {
                Some(p) => *p,
                None => Polarity::Both,
            }
        } else {
            Polarity::Both
        }
    }
}


/// The clauses of an exclusive disjunction are true in every interpretation.
proof fn lemma_xor_valid(s: Seq<TermView>, f: Seq<TermId>, term: TermId, res: Lit, l: Lit, r: Lit)
    requires
        terms_wf(s),
        term < s.len(),
        s[term as int].op == Op::Xor,
        means(s, f, res, term),
        means(s, f, l, s[term as int].args[0]),
        means(s, f, r, s[term as int].args[1]),
    ensures
        valid_clause(s, f, seq![res.negated(), l, r]),
        valid_clause(s, f, seq![res.negated(), l.negated(), r.negated()]),
        valid_clause(s, f, seq![l.negated(), r, res]),
        valid_clause(s, f, seq![l, r.negated(), res]),
{
    assert(node_below(s, term as int));
    let a = s[term as int].args[0];
    let b = s[term as int].args[1];
    assert forall|i: Interp| #[trigger] lit_true(s, i, f, res) == (lit_true(s, i, f, l) != lit_true(s, i, f, r)) by {
        lemma_eval(s, i, term);
        assert(eval_args(s, i, s[term as int].args)[0] == eval(s, i, a as int));
        assert(eval_args(s, i, s[term as int].args)[1] == eval(s, i, b as int));
    }
    assert forall|i: Interp| #[trigger] lit_true(s, i, f, res.negated()) || lit_true(s, i, f, l) || lit_true(s, i, f, r) by {
        assert(lit_true(s, i, f, res) == (lit_true(s, i, f, l) != lit_true(s, i, f, r)));
    }
    lemma_clause3(s, f, res.negated(), l, r);
    assert forall|i: Interp| #[trigger] lit_true(s, i, f, res.negated()) || lit_true(s, i, f, l.negated()) || lit_true(s, i, f, r.negated()) by {
        assert(lit_true(s, i, f, res) == (lit_true(s, i, f, l) != lit_true(s, i, f, r)));
    }
    lemma_clause3(s, f, res.negated(), l.negated(), r.negated());
    assert forall|i: Interp| #[trigger] lit_true(s, i, f, l.negated()) || lit_true(s, i, f, r) || lit_true(s, i, f, res) by {
        assert(lit_true(s, i, f, res) == (lit_true(s, i, f, l) != lit_true(s, i, f, r)));
    }
    lemma_clause3(s, f, l.negated(), r, res);
    assert forall|i: Interp| #[trigger] lit_true(s, i, f, l) || lit_true(s, i, f, r.negated()) || lit_true(s, i, f, res) by {
        assert(lit_true(s, i, f, res) == (lit_true(s, i, f, l) != lit_true(s, i, f, r)));
    }
    lemma_clause3(s, f, l, r.negated(), res);
}

/// The clauses of an exclusive disjunction derive its value from those of its arguments.
proof fn lemma_xor_covered(s: Seq<TermView>, e: GoalView, term: TermId, res: Lit, l: Lit, r: Lit)
    requires
        terms_wf(s),
        term < s.len(),
        s[term as int].op == Op::Xor,
        covered(s, e, l, s[term as int].args[0], Polarity::Both),
        covered(s, e, r, s[term as int].args[1], Polarity::Both),
        has_clause(e, seq![res.negated(), l, r]),
        has_clause(e, seq![res.negated(), l.negated(), r.negated()]),
        has_clause(e, seq![l.negated(), r, res]),
        has_clause(e, seq![l, r.negated(), res]),
    ensures
        covered(s, e, res, term, Polarity::Both),
{
    assert(node_below(s, term as int));
    let a = s[term as int].args[0];
    let b = s[term as int].args[1];
    assert forall|g: Assignment, i: Interp| #[trigger] agrees(s, e, g, i) && sat_all(
        g,
        e.clauses,
    ) implies bounded(Polarity::Both, lit_val(g, res), holds(s, i, term)) by {
        lemma_eval(s, i, term);
        assert(eval_args(s, i, s[term as int].args)[0] == eval(s, i, a as int));
        assert(eval_args(s, i, s[term as int].args)[1] == eval(s, i, b as int));
        lemma_sat3(g, e, res.negated(), l, r);
        lemma_sat3(g, e, res.negated(), l.negated(), r.negated());
        lemma_sat3(g, e, l.negated(), r, res);
        lemma_sat3(g, e, l, r.negated(), res);
        assert(bounded(Polarity::Both, lit_val(g, l), holds(s, i, a)));
        assert(bounded(Polarity::Both, lit_val(g, r), holds(s, i, b)));
    }
}

/// The clauses of an implication are true in every interpretation.
proof fn lemma_implies_valid(s: Seq<TermView>, f: Seq<TermId>, term: TermId, res: Lit, l: Lit, r: Lit)
    requires
        terms_wf(s),
        term < s.len(),
        s[term as int].op == Op::Implies,
        means(s, f, res, term),
        means(s, f, l, s[term as int].args[0]),
        means(s, f, r, s[term as int].args[1]),
    ensures
        valid_clause(s, f, seq![res.negated(), l.negated(), r]),
        valid_clause(s, f, seq![l, res]),
        valid_clause(s, f, seq![r.negated(), res]),
{
    assert(node_below(s, term as int));
    let a = s[term as int].args[0];
    let b = s[term as int].args[1];
    assert forall|i: Interp| #[trigger] lit_true(s, i, f, res) == (lit_true(s, i, f, l) ==> lit_true(s, i, f, r)) by {
        lemma_eval(s, i, term);
        assert(eval_args(s, i, s[term as int].args)[0] == eval(s, i, a as int));
        assert(eval_args(s, i, s[term as int].args)[1] == eval(s, i, b as int));
    }
    assert forall|i: Interp| #[trigger] lit_true(s, i, f, res.negated()) || lit_true(s, i, f, l.negated()) || lit_true(s, i, f, r) by {
        assert(lit_true(s, i, f, res) == (lit_true(s, i, f, l) ==> lit_true(s, i, f, r)));
    }
    lemma_clause3(s, f, res.negated(), l.negated(), r);
    assert forall|i: Interp| #[trigger] lit_true(s, i, f, l) || lit_true(s, i, f, res) by {
        assert(lit_true(s, i, f, res) == (lit_true(s, i, f, l) ==> lit_true(s, i, f, r)));
    }
    lemma_clause2(s, f, l, res);
    assert forall|i: Interp| #[trigger] lit_true(s, i, f, r.negated()) || lit_true(s, i, f, res) by {
        assert(lit_true(s, i, f, res) == (lit_true(s, i, f, l) ==> lit_true(s, i, f, r)));
    }
    lemma_clause2(s, f, r.negated(), res);
}

/// The clauses of an implication derive its value from those of its arguments.
proof fn lemma_implies_covered(s: Seq<TermView>, e: GoalView, term: TermId, res: Lit, l: Lit, r: Lit)
    requires
        terms_wf(s),
        term < s.len(),
        s[term as int].op == Op::Implies,
        covered(s, e, l, s[term as int].args[0], flip(polarity_of(e, term))),
        covered(s, e, r, s[term as int].args[1], polarity_of(e, term)),
        has_clause(e, seq![res.negated(), l.negated(), r]),
        has_clause(e, seq![l, res]),
        has_clause(e, seq![r.negated(), res]),
    ensures
        covered(s, e, res, term, polarity_of(e, term)),
{
    assert(node_below(s, term as int));
    let a = s[term as int].args[0];
    let b = s[term as int].args[1];
    assert forall|g: Assignment, i: Interp| #[trigger] agrees(s, e, g, i) && sat_all(
        g,
        e.clauses,
    ) implies bounded(polarity_of(e, term), lit_val(g, res), holds(s, i, term)) by {
        lemma_eval(s, i, term);
        assert(eval_args(s, i, s[term as int].args)[0] == eval(s, i, a as int));
        assert(eval_args(s, i, s[term as int].args)[1] == eval(s, i, b as int));
        lemma_sat3(g, e, res.negated(), l.negated(), r);
        lemma_sat2(g, e, l, res);
        lemma_sat2(g, e, r.negated(), res);
        assert(bounded(flip(polarity_of(e, term)), lit_val(g, l), holds(s, i, a)));
        assert(bounded(polarity_of(e, term), lit_val(g, r), holds(s, i, b)));
    }
}

/// The clauses of a Boolean equation are true in every interpretation.
proof fn lemma_iff_valid(s: Seq<TermView>, f: Seq<TermId>, term: TermId, res: Lit, l: Lit, r: Lit)
    requires
        terms_wf(s),
        term < s.len(),
        s[term as int].op == Op::Eq,
        s[s[term as int].args[0] as int].sort == BOOL_SORT,
        means(s, f, res, term),
        means(s, f, l, s[term as int].args[0]),
        means(s, f, r, s[term as int].args[1]),
    ensures
        valid_clause(s, f, seq![res.negated(), l.negated(), r]),
        valid_clause(s, f, seq![res.negated(), r.negated(), l]),
        valid_clause(s, f, seq![l, r, res]),
        valid_clause(s, f, seq![l.negated(), r.negated(), res]),
{
    assert(node_below(s, term as int));
    let a = s[term as int].args[0];
    let b = s[term as int].args[1];
    assert forall|i: Interp| #[trigger] lit_true(s, i, f, res) == (lit_true(s, i, f, l) == lit_true(s, i, f, r)) by {
        lemma_eval(s, i, term);
        assert(eval_args(s, i, s[term as int].args)[0] == eval(s, i, a as int));
        assert(eval_args(s, i, s[term as int].args)[1] == eval(s, i, b as int));
    }
    assert forall|i: Interp| #[trigger] lit_true(s, i, f, res.negated()) || lit_true(s, i, f, l.negated()) || lit_true(s, i, f, r) by {
        assert(lit_true(s, i, f, res) == (lit_true(s, i, f, l) == lit_true(s, i, f, r)));
    }
    lemma_clause3(s, f, res.negated(), l.negated(), r);
    assert forall|i: Interp| #[trigger] lit_true(s, i, f, res.negated()) || lit_true(s, i, f, r.negated()) || lit_true(s, i, f, l) by {
        assert(lit_true(s, i, f, res) == (lit_true(s, i, f, l) == lit_true(s, i, f, r)));
    }
    lemma_clause3(s, f, res.negated(), r.negated(), l);
    assert forall|i: Interp| #[trigger] lit_true(s, i, f, l) || lit_true(s, i, f, r) || lit_true(s, i, f, res) by {
        assert(lit_true(s, i, f, res) == (lit_true(s, i, f, l) == lit_true(s, i, f, r)));
    }
    lemma_clause3(s, f, l, r, res);
    assert forall|i: Interp| #[trigger] lit_true(s, i, f, l.negated()) || lit_true(s, i, f, r.negated()) || lit_true(s, i, f, res) by {
        assert(lit_true(s, i, f, res) == (lit_true(s, i, f, l) == lit_true(s, i, f, r)));
    }
    lemma_clause3(s, f, l.negated(), r.negated(), res);
}

/// The clauses of a Boolean equation derive its value from those of its arguments.
proof fn lemma_iff_covered(s: Seq<TermView>, e: GoalView, term: TermId, res: Lit, l: Lit, r: Lit)
    requires
        terms_wf(s),
        term < s.len(),
        s[term as int].op == Op::Eq,
        s[s[term as int].args[0] as int].sort == BOOL_SORT,
        covered(s, e, l, s[term as int].args[0], Polarity::Both),
        covered(s, e, r, s[term as int].args[1], Polarity::Both),
        has_clause(e, seq![res.negated(), l.negated(), r]),
        has_clause(e, seq![res.negated(), r.negated(), l]),
        has_clause(e, seq![l, r, res]),
        has_clause(e, seq![l.negated(), r.negated(), res]),
    ensures
        covered(s, e, res, term, Polarity::Both),
{
    assert(node_below(s, term as int));
    let a = s[term as int].args[0];
    let b = s[term as int].args[1];
    assert forall|g: Assignment, i: Interp| #[trigger] agrees(s, e, g, i) && sat_all(
        g,
        e.clauses,
    ) implies bounded(Polarity::Both, lit_val(g, res), holds(s, i, term)) by {
        lemma_eval(s, i, term);
        assert(eval_args(s, i, s[term as int].args)[0] == eval(s, i, a as int));
        assert(eval_args(s, i, s[term as int].args)[1] == eval(s, i, b as int));
        lemma_sat3(g, e, res.negated(), l.negated(), r);
        lemma_sat3(g, e, res.negated(), r.negated(), l);
        lemma_sat3(g, e, l, r, res);
        lemma_sat3(g, e, l.negated(), r.negated(), res);
        assert(bounded(Polarity::Both, lit_val(g, l), holds(s, i, a)));
        assert(bounded(Polarity::Both, lit_val(g, r), holds(s, i, b)));
    }
}

/// The clauses of a conditional are true in every interpretation.
proof fn lemma_ite_valid(
    s: Seq<TermView>,
    f: Seq<TermId>,
    term: TermId,
    res: Lit,
    c: Lit,
    l: Lit,
    r: Lit,
)
    requires
        terms_wf(s),
        term < s.len(),
        s[term as int].op == Op::Ite,
        means(s, f, res, term),
        means(s, f, c, s[term as int].args[0]),
        means(s, f, l, s[term as int].args[1]),
        means(s, f, r, s[term as int].args[2]),
    ensures
        valid_clause(s, f, seq![c.negated(), res.negated(), l]),
        valid_clause(s, f, seq![c.negated(), l.negated(), res]),
        valid_clause(s, f, seq![c, res.negated(), r]),
        valid_clause(s, f, seq![c, r.negated(), res]),
{
    assert(node_below(s, term as int));
    let args = s[term as int].args;
    assert forall|i: Interp| #[trigger] lit_true(s, i, f, res) == (if lit_true(s, i, f, c) { lit_true(s, i, f, l) } else { lit_true(s, i, f, r) }) by {
        lemma_eval(s, i, term);
        assert(eval_args(s, i, args)[0] == eval(s, i, args[0] as int));
        assert(eval_args(s, i, args)[1] == eval(s, i, args[1] as int));
        assert(eval_args(s, i, args)[2] == eval(s, i, args[2] as int));
    }
    assert forall|i: Interp| #[trigger] lit_true(s, i, f, c.negated()) || lit_true(s, i, f, res.negated()) || lit_true(s, i, f, l) by {
        assert(lit_true(s, i, f, res) == (if lit_true(s, i, f, c) { lit_true(s, i, f, l) } else { lit_true(s, i, f, r) }));
    }
    lemma_clause3(s, f, c.negated(), res.negated(), l);
    assert forall|i: Interp| #[trigger] lit_true(s, i, f, c.negated()) || lit_true(s, i, f, l.negated()) || lit_true(s, i, f, res) by {
        assert(lit_true(s, i, f, res) == (if lit_true(s, i, f, c) { lit_true(s, i, f, l) } else { lit_true(s, i, f, r) }));
    }
    lemma_clause3(s, f, c.negated(), l.negated(), res);
    assert forall|i: Interp| #[trigger] lit_true(s, i, f, c) || lit_true(s, i, f, res.negated()) || lit_true(s, i, f, r) by {
        assert(lit_true(s, i, f, res) == (if lit_true(s, i, f, c) { lit_true(s, i, f, l) } else { lit_true(s, i, f, r) }));
    }
    lemma_clause3(s, f, c, res.negated(), r);
    assert forall|i: Interp| #[trigger] lit_true(s, i, f, c) || lit_true(s, i, f, r.negated()) || lit_true(s, i, f, res) by {
        assert(lit_true(s, i, f, res) == (if lit_true(s, i, f, c) { lit_true(s, i, f, l) } else { lit_true(s, i, f, r) }));
    }
    lemma_clause3(s, f, c, r.negated(), res);
}

/// The clauses of a conditional derive its value from those of its parts.
proof fn lemma_ite_covered(
    s: Seq<TermView>,
    e: GoalView,
    term: TermId,
    res: Lit,
    c: Lit,
    l: Lit,
    r: Lit,
)
    requires
        terms_wf(s),
        term < s.len(),
        s[term as int].op == Op::Ite,
        covered(s, e, c, s[term as int].args[0], Polarity::Both),
        covered(s, e, l, s[term as int].args[1], polarity_of(e, term)),
        covered(s, e, r, s[term as int].args[2], polarity_of(e, term)),
        has_clause(e, seq![c.negated(), res.negated(), l]),
        has_clause(e, seq![c.negated(), l.negated(), res]),
        has_clause(e, seq![c, res.negated(), r]),
        has_clause(e, seq![c, r.negated(), res]),
    ensures
        covered(s, e, res, term, polarity_of(e, term)),
{
    assert(node_below(s, term as int));
    let args = s[term as int].args;
    let p = polarity_of(e, term);
    assert forall|g: Assignment, i: Interp| #[trigger] agrees(s, e, g, i) && sat_all(
        g,
        e.clauses,
    ) implies bounded(p, lit_val(g, res), holds(s, i, term)) by {
        lemma_eval(s, i, term);
        assert(eval_args(s, i, args)[0] == eval(s, i, args[0] as int));
        assert(eval_args(s, i, args)[1] == eval(s, i, args[1] as int));
        assert(eval_args(s, i, args)[2] == eval(s, i, args[2] as int));
        lemma_sat3(g, e, c.negated(), res.negated(), l);
        lemma_sat3(g, e, c.negated(), l.negated(), res);
        lemma_sat3(g, e, c, res.negated(), r);
        lemma_sat3(g, e, c, r.negated(), res);
        assert(bounded(Polarity::Both, lit_val(g, c), holds(s, i, args[0])));
        assert(bounded(p, lit_val(g, l), holds(s, i, args[1])));
        assert(bounded(p, lit_val(g, r), holds(s, i, args[2])));
    }
}

/// Coverage in more directions is coverage in fewer.
proof fn lemma_covered_narrow(
    s: Seq<TermView>,
    e: GoalView,
    l: Lit,
    t: TermId,
    p: Polarity,
    q: Polarity,
)
    requires
        covered(s, e, l, t, p),
        covers(p, q),
    ensures
        covered(s, e, l, t, q),
{
    assert forall|g: Assignment, i: Interp| #[trigger] agrees(s, e, g, i) && sat_all(
        g,
        e.clauses,
    ) implies bounded(q, lit_val(g, l), holds(s, i, t)) by {
        assert(bounded(p, lit_val(g, l), holds(s, i, t)));
    }
}

/// A coherent formula's argument is covered in the directions it needs.
proof fn lemma_arg_covered(
    s0: Seq<TermView>,
    e0: GoalView,
    s: Seq<TermView>,
    e: GoalView,
    term: TermId,
    k: int,
    l: Lit,
    q: Polarity,
)
    requires
        terms_wf(s),
        term < s.len(),
        connective(s, term as int),
        0 <= k < s[term as int].args.len(),
        arg_ok(s0, e0, s, e, s[term as int].args[k], l),
        complete(s0, e0),
        !e.exceeded,
        coherent(s, e, term),
        covers(polarity_of(e, s[term as int].args[k]), q),
    ensures
        covered(s, e, l, s[term as int].args[k], q),
{
    assert(node_below(s, term as int));
    let a = s[term as int].args[k];
    assert(coherent(s, e, a));
    lemma_covered_narrow(s, e, l, a, coverage(s, e, a), q);
}

impl GoalState {
    /// Hands over clauses that every interpretation makes true.
    fn add_all_valid(&mut self, Ghost(s): Ghost<Seq<TermView>>, clauses: &Vec<Vec<Lit>>)
        requires
            goal_inv(s, old(self)@),
            forall|k: int|
                0 <= k < clauses@.len() ==> valid_clause(
                    s,
                    old(self)@.term_of,
                    (#[trigger] clauses@[k])@,
                ),
        ensures
            step(s, old(self)@, s, final(self)@),
            final(self)@ == (GoalView { clauses: final(self)@.clauses, ..old(self)@ }),
            final(self)@.clauses.len() == old(self)@.clauses.len() + clauses@.len(),
            forall|k: int|
                0 <= k < clauses@.len() ==> final(self)@.clauses[old(self)@.clauses.len() + k] == (
                #[trigger] clauses@[k])@,
            forall|k: int|
                0 <= k < clauses@.len() ==> has_clause(final(self)@, (#[trigger] clauses@[k])@),
    {
        let ghost before = self@;
        proof {
            lemma_step_grow(s, s, before);
        }
        let mut k: usize = 0;
        while k < clauses.len()
            invariant
                k <= clauses.len(),
                goal_inv(s, before),
                step(s, before, s, self@),
                self@ == (GoalView { clauses: self@.clauses, ..before }),
                self@.clauses.len() == before.clauses.len() + k,
                forall|j: int|
                    0 <= j < k ==> self@.clauses[before.clauses.len() + j] == (
                    #[trigger] clauses@[j])@,
                forall|j: int|
                    0 <= j < clauses@.len() ==> valid_clause(
                        s,
                        before.term_of,
                        (#[trigger] clauses@[j])@,
                    ),
            decreases clauses.len() - k,
        {
            let ghost mid = self@;
            self.add_valid(Ghost(s), copy_words(&clauses[k]));
            proof {
                lemma_step_trans(s, before, s, mid, s, self@);
            }
            k = k + 1;
        }
        proof {
            assert forall|j: int| 0 <= j < clauses@.len() implies has_clause(
                self@,
                (#[trigger] clauses@[j])@,
            ) by {
                assert(self@.clauses[before.clauses.len() + j] == clauses@[j]@);
            }
        }
    }
}

impl GoalState {
    /// Literals for the first two arguments, and a variable for the term.
    fn encode_operands(&mut self, term: TermId, store: &mut TermStore, depth: u32) -> (r: (
        Lit,
        Lit,
        Var,
    ))
        requires
            goal_inv(old(store).terms(), old(self)@),
            term < old(store).terms().len(),
            depth <= ENCODE_DEPTH_LIMIT,
            old(store).terms()[term as int].args.len() >= 2,
        ensures
            grew(old(store), final(store)),
            so_far(
                old(store).terms(),
                old(self)@,
                final(store).terms(),
                final(self)@,
                term,
                depth,
            ),
            bvs_kept(
                old(store).sorts@,
                old(store).terms(),
                old(self)@,
                final(store).terms(),
                final(self)@,
            ),
            arg_ok(
                old(store).terms(),
                old(self)@,
                final(store).terms(),
                final(self)@,
                old(store).terms()[term as int].args[0],
                r.0,
            ),
            arg_ok(
                old(store).terms(),
                old(self)@,
                final(store).terms(),
                final(self)@,
                old(store).terms()[term as int].args[1],
                r.1,
            ),
            r.2 < final(self)@.term_of.len(),
            final(self)@.term_of[r.2 as int] == term,
            final(self)@.j.var_of.contains_key(term),
            final(self)@.j.var_of[term] == r.2,
        decreases ENCODE_DEPTH_LIMIT + 2 - depth, 0int,
    {
        let ghost s0 = store.terms();
        let ghost e0 = self@;
        let lhs: TermId = store.nodes[term].args[0];
        let rhs: TermId = store.nodes[term].args[1];
        proof {
            lemma_start(s0, e0, term, depth);
            lemma_arg_weight(s0, s0, term, 0);
        }
        let l = self.encode_depth(lhs, store, depth + 1);
        let ghost s1 = store.terms();
        let ghost e1 = self@;
        proof {
            lemma_sub(s0, e0, s0, e0, s1, e1, term, lhs, l, depth);
            lemma_arg_weight(s0, s1, term, 1);
        }
        let r = self.encode_depth(rhs, store, depth + 1);
        let ghost s2 = store.terms();
        let ghost e2 = self@;
        proof {
            lemma_sub(s0, e0, s1, e1, s2, e2, term, rhs, r, depth);
            lemma_arg_carry(s0, e0, s1, e1, s2, e2, lhs, l);
        }
        let v = self.get_or_create_var(Ghost(s2), term);
        proof {
            lemma_quiet(s0, e0, s2, e2, s2, self@, term, depth);
            lemma_arg_carry(s0, e0, s2, e2, s2, self@, lhs, l);
            lemma_arg_carry(s0, e0, s2, e2, s2, self@, rhs, r);
        }
        (l, r, v)
    }

    fn encode_xor(&mut self, term: TermId, store: &mut TermStore, depth: u32) -> (res: Lit)
        requires
            goal_inv(old(store).terms(), old(self)@),
            term < old(store).terms().len(),
            depth <= ENCODE_DEPTH_LIMIT,
            old(store).terms()[term as int].op == Op::Xor,
        ensures
            grew(old(store), final(store)),
            encoded(
                old(store).terms(),
                old(self)@,
                final(store).terms(),
                final(self)@,
                term,
                res,
                depth,
            ),
            bvs_kept(
                old(store).sorts@,
                old(store).terms(),
                old(self)@,
                final(store).terms(),
                final(self)@,
            ),
            final(self)@.exceeded || parts_encoded(final(store).terms(), final(self)@.j.memo, term),
        decreases ENCODE_DEPTH_LIMIT + 2 - depth, 1int,
    {
        let ghost s0 = store.terms();
        let ghost e0 = self@;
        assert(node_below(s0, term as int));
        let (l, r, v) = self.encode_operands(term, store, depth);
        let res = Lit::pos(v);
        let ghost s1 = store.terms();
        let ghost e1 = self@;
        assert(s1[term as int] == s0[term as int]);
        proof {
            assert(s1[s0[term as int].args[0] as int] == s0[s0[term as int].args[0] as int]);
            lemma_xor_valid(s1, e1.term_of, term, res, l, r);
        }
        let mut cs: Vec<Vec<Lit>> = Vec::new();
        cs.push(clause3(res.negate(), l, r));
        cs.push(clause3(res.negate(), l.negate(), r.negate()));
        cs.push(clause3(l.negate(), r, res));
        cs.push(clause3(l, r.negate(), res));
        self.add_all_valid(Ghost(s1), &cs);
        let ghost e2 = self@;
        proof {
            lemma_quiet(s0, e0, s1, e1, s1, e2, term, depth);
            lemma_arg_carry(s0, e0, s1, e1, s1, e2, s0[term as int].args[0], l);
            lemma_arg_carry(s0, e0, s1, e1, s1, e2, s0[term as int].args[1], r);
            lemma_args_parts(s0, e0, s1, e2, term, seq![l, r]);
            assert(cs@[0]@ == seq![res.negated(), l, r]);
            assert(cs@[1]@ == seq![res.negated(), l.negated(), r.negated()]);
            assert(cs@[2]@ == seq![l.negated(), r, res]);
            assert(cs@[3]@ == seq![l, r.negated(), res]);
            if complete(s0, e0) && !e2.exceeded && coherent(s1, e2, term) {
                lemma_arg_covered(s0, e0, s1, e2, term, 0, l, Polarity::Both);
                lemma_arg_covered(s0, e0, s1, e2, term, 1, r, Polarity::Both);
                lemma_xor_covered(s1, e2, term, res, l, r);
            }
        }
        res
    }

    fn encode_implies(&mut self, term: TermId, store: &mut TermStore, depth: u32) -> (res: Lit)
        requires
            goal_inv(old(store).terms(), old(self)@),
            term < old(store).terms().len(),
            depth <= ENCODE_DEPTH_LIMIT,
            old(store).terms()[term as int].op == Op::Implies,
        ensures
            grew(old(store), final(store)),
            encoded(
                old(store).terms(),
                old(self)@,
                final(store).terms(),
                final(self)@,
                term,
                res,
                depth,
            ),
            bvs_kept(
                old(store).sorts@,
                old(store).terms(),
                old(self)@,
                final(store).terms(),
                final(self)@,
            ),
            final(self)@.exceeded || parts_encoded(final(store).terms(), final(self)@.j.memo, term),
        decreases ENCODE_DEPTH_LIMIT + 2 - depth, 1int,
    {
        let ghost s0 = store.terms();
        let ghost e0 = self@;
        assert(node_below(s0, term as int));
        let (l, r, v) = self.encode_operands(term, store, depth);
        let res = Lit::pos(v);
        let ghost s1 = store.terms();
        let ghost e1 = self@;
        assert(s1[term as int] == s0[term as int]);
        proof {
            assert(s1[s0[term as int].args[0] as int] == s0[s0[term as int].args[0] as int]);
            lemma_implies_valid(s1, e1.term_of, term, res, l, r);
        }
        let mut cs: Vec<Vec<Lit>> = Vec::new();
        cs.push(clause3(res.negate(), l.negate(), r));
        cs.push(clause2(l, res));
        cs.push(clause2(r.negate(), res));
        self.add_all_valid(Ghost(s1), &cs);
        let ghost e2 = self@;
        proof {
            lemma_quiet(s0, e0, s1, e1, s1, e2, term, depth);
            lemma_arg_carry(s0, e0, s1, e1, s1, e2, s0[term as int].args[0], l);
            lemma_arg_carry(s0, e0, s1, e1, s1, e2, s0[term as int].args[1], r);
            lemma_args_parts(s0, e0, s1, e2, term, seq![l, r]);
            assert(cs@[0]@ == seq![res.negated(), l.negated(), r]);
            assert(cs@[1]@ == seq![l, res]);
            assert(cs@[2]@ == seq![r.negated(), res]);
            if complete(s0, e0) && !e2.exceeded && coherent(s1, e2, term) {
                lemma_arg_covered(s0, e0, s1, e2, term, 0, l, flip(polarity_of(e2, term)));
                lemma_arg_covered(s0, e0, s1, e2, term, 1, r, polarity_of(e2, term));
                lemma_implies_covered(s1, e2, term, res, l, r);
            }
        }
        res
    }

    fn encode_not(&mut self, term: TermId, store: &mut TermStore, depth: u32) -> (res: Lit)
        requires
            goal_inv(old(store).terms(), old(self)@),
            term < old(store).terms().len(),
            depth <= ENCODE_DEPTH_LIMIT,
            old(store).terms()[term as int].op == Op::Not,
        ensures
            grew(old(store), final(store)),
            encoded(
                old(store).terms(),
                old(self)@,
                final(store).terms(),
                final(self)@,
                term,
                res,
                depth,
            ),
            bvs_kept(
                old(store).sorts@,
                old(store).terms(),
                old(self)@,
                final(store).terms(),
                final(self)@,
            ),
            final(self)@.exceeded || parts_encoded(final(store).terms(), final(self)@.j.memo, term),
        decreases ENCODE_DEPTH_LIMIT + 2 - depth, 1int,
    {
        let ghost s0 = store.terms();
        let ghost e0 = self@;
        assert(node_below(s0, term as int));
        let arg: TermId = store.nodes[term].args[0];
        proof {
            lemma_start(s0, e0, term, depth);
            lemma_arg_weight(s0, s0, term, 0);
        }
        let l = self.encode_depth(arg, store, depth + 1);
        let ghost s1 = store.terms();
        let ghost e1 = self@;
        proof {
            lemma_sub(s0, e0, s0, e0, s1, e1, term, arg, l, depth);
            assert(s1[term as int] == s0[term as int]);
            let n = l.negated();
            assert forall|i: Interp| #[trigger] lit_true(
                s1,
                i,
                e1.term_of,
                n,
            ) == holds(s1, i, term) by {
                lemma_eval(s1, i, term);
                assert(eval_args(s1, i, s1[term as int].args)[0] == eval(s1, i, arg as int));
                assert(lit_true(s1, i, e1.term_of, l) == holds(s1, i, arg));
            }
            if complete(s0, e0) && !e1.exceeded && coherent(s1, e1, term) {
                let p = polarity_of(e1, term);
                lemma_arg_covered(s0, e0, s1, e1, term, 0, l, flip(p));
                assert forall|g: Assignment, i: Interp| #[trigger] agrees(s1, e1, g, i) && sat_all(
                    g,
                    e1.clauses,
                ) implies bounded(p, lit_val(g, n), holds(s1, i, term)) by {
                    lemma_eval(s1, i, term);
                    assert(eval_args(s1, i, s1[term as int].args)[0] == eval(s1, i, arg as int));
                    assert(bounded(flip(p), lit_val(g, l), holds(s1, i, arg)));
                }
            }
        }
        proof {
            lemma_args_parts(s0, e0, s1, e1, term, seq![l]);
        }
        l.negate()
    }

    fn encode_let(&mut self, term: TermId, store: &mut TermStore, depth: u32) -> (res: Lit)
        requires
            goal_inv(old(store).terms(), old(self)@),
            term < old(store).terms().len(),
            depth <= ENCODE_DEPTH_LIMIT,
            old(store).terms()[term as int].op == Op::Let,
        ensures
            grew(old(store), final(store)),
            encoded(
                old(store).terms(),
                old(self)@,
                final(store).terms(),
                final(self)@,
                term,
                res,
                depth,
            ),
            bvs_kept(
                old(store).sorts@,
                old(store).terms(),
                old(self)@,
                final(store).terms(),
                final(self)@,
            ),
            final(self)@.exceeded || parts_encoded(final(store).terms(), final(self)@.j.memo, term),
        decreases ENCODE_DEPTH_LIMIT + 2 - depth, 1int,
    {
        let ghost s0 = store.terms();
        let ghost e0 = self@;
        assert(node_below(s0, term as int));
        let body: TermId = store.nodes[term].args[0];
        proof {
            lemma_start(s0, e0, term, depth);
            lemma_arg_weight(s0, s0, term, 0);
        }
        let l = self.encode_depth(body, store, depth + 1);
        let ghost s1 = store.terms();
        let ghost e1 = self@;
        proof {
            lemma_sub(s0, e0, s0, e0, s1, e1, term, body, l, depth);
            assert(s1[term as int] == s0[term as int]);
            assert forall|i: Interp| #[trigger] holds(s1, i, term) == holds(s1, i, body) by {
                lemma_eval(s1, i, term);
                assert(eval_args(s1, i, s1[term as int].args)[0] == eval(s1, i, body as int));
            }
            assert forall|i: Interp| #[trigger] lit_true(
                s1,
                i,
                e1.term_of,
                l,
            ) == holds(s1, i, term) by {
                assert(lit_true(s1, i, e1.term_of, l) == holds(s1, i, body));
            }
            if complete(s0, e0) && !e1.exceeded && coherent(s1, e1, term) {
                let p = polarity_of(e1, term);
                lemma_arg_covered(s0, e0, s1, e1, term, 0, l, p);
                assert forall|g: Assignment, i: Interp| #[trigger] agrees(s1, e1, g, i) && sat_all(
                    g,
                    e1.clauses,
                ) implies bounded(p, lit_val(g, l), holds(s1, i, term)) by {
                    assert(bounded(p, lit_val(g, l), holds(s1, i, body)));
                }
            }
        }
        proof {
            lemma_args_parts(s0, e0, s1, e1, term, seq![l]);
        }
        l
    }

    #[verifier::rlimit(40)]
    fn encode_ite(&mut self, term: TermId, store: &mut TermStore, depth: u32) -> (res: Lit)
        requires
            goal_inv(old(store).terms(), old(self)@),
            term < old(store).terms().len(),
            depth <= ENCODE_DEPTH_LIMIT,
            old(store).terms()[term as int].op == Op::Ite,
        ensures
            grew(old(store), final(store)),
            encoded(
                old(store).terms(),
                old(self)@,
                final(store).terms(),
                final(self)@,
                term,
                res,
                depth,
            ),
            bvs_kept(
                old(store).sorts@,
                old(store).terms(),
                old(self)@,
                final(store).terms(),
                final(self)@,
            ),
            final(self)@.exceeded || parts_encoded(final(store).terms(), final(self)@.j.memo, term),
        decreases ENCODE_DEPTH_LIMIT + 2 - depth, 1int,
    {
        let ghost s0 = store.terms();
        let ghost e0 = self@;
        assert(node_below(s0, term as int));
        let cond: TermId = store.nodes[term].args[0];
        let then_br: TermId = store.nodes[term].args[1];
        let else_br: TermId = store.nodes[term].args[2];
        proof {
            lemma_start(s0, e0, term, depth);
            lemma_arg_weight(s0, s0, term, 0);
        }
        let c = self.encode_depth(cond, store, depth + 1);
        let ghost s1 = store.terms();
        let ghost e1 = self@;
        proof {
            lemma_sub(s0, e0, s0, e0, s1, e1, term, cond, c, depth);
            lemma_arg_weight(s0, s1, term, 1);
        }
        let l = self.encode_depth(then_br, store, depth + 1);
        let ghost s2 = store.terms();
        let ghost e2 = self@;
        proof {
            lemma_sub(s0, e0, s1, e1, s2, e2, term, then_br, l, depth);
            lemma_arg_carry(s0, e0, s1, e1, s2, e2, cond, c);
            lemma_arg_weight(s0, s2, term, 2);
        }
        let r = self.encode_depth(else_br, store, depth + 1);
        let ghost s3 = store.terms();
        let ghost e3 = self@;
        proof {
            lemma_sub(s0, e0, s2, e2, s3, e3, term, else_br, r, depth);
            lemma_arg_carry(s0, e0, s2, e2, s3, e3, cond, c);
            lemma_arg_carry(s0, e0, s2, e2, s3, e3, then_br, l);
        }
        let v = self.get_or_create_var(Ghost(s3), term);
        let ghost e4 = self@;
        let res = Lit::pos(v);
        proof {
            lemma_quiet(s0, e0, s3, e3, s3, e4, term, depth);
            lemma_arg_carry(s0, e0, s3, e3, s3, e4, cond, c);
            lemma_arg_carry(s0, e0, s3, e3, s3, e4, then_br, l);
            lemma_arg_carry(s0, e0, s3, e3, s3, e4, else_br, r);
            assert(s3[term as int] == s0[term as int]);
            lemma_ite_valid(s3, e4.term_of, term, res, c, l, r);
        }
        let mut cs: Vec<Vec<Lit>> = Vec::new();
        cs.push(clause3(c.negate(), res.negate(), l));
        cs.push(clause3(c.negate(), l.negate(), res));
        cs.push(clause3(c, res.negate(), r));
        cs.push(clause3(c, r.negate(), res));
        self.add_all_valid(Ghost(s3), &cs);
        let ghost e5 = self@;
        proof {
            lemma_quiet(s0, e0, s3, e4, s3, e5, term, depth);
            lemma_arg_carry(s0, e0, s3, e4, s3, e5, cond, c);
            lemma_arg_carry(s0, e0, s3, e4, s3, e5, then_br, l);
            lemma_arg_carry(s0, e0, s3, e4, s3, e5, else_br, r);
            lemma_args_parts(s0, e0, s3, e5, term, seq![c, l, r]);
            assert(cs@[0]@ == seq![c.negated(), res.negated(), l]);
            assert(cs@[1]@ == seq![c.negated(), l.negated(), res]);
            assert(cs@[2]@ == seq![c, res.negated(), r]);
            assert(cs@[3]@ == seq![c, r.negated(), res]);
            if complete(s0, e0) && !e5.exceeded && coherent(s3, e5, term) {
                let p = polarity_of(e5, term);
                lemma_arg_covered(s0, e0, s3, e5, term, 0, c, Polarity::Both);
                lemma_arg_covered(s0, e0, s3, e5, term, 1, l, p);
                lemma_arg_covered(s0, e0, s3, e5, term, 2, r, p);
                lemma_ite_covered(s3, e5, term, res, c, l, r);
            }
        }
        res
    }

    /// The literal of a formula, with its clauses.
    pub fn encode(&mut self, term: TermId, store: &mut TermStore) -> (res: Lit)
        requires
            goal_inv(old(store).terms(), old(self)@),
            term < old(store).terms().len(),
        ensures
            grew(old(store), final(store)),
            encoded(
                old(store).terms(),
                old(self)@,
                final(store).terms(),
                final(self)@,
                term,
                res,
                0,
            ),
            bvs_kept(
                old(store).sorts@,
                old(store).terms(),
                old(self)@,
                final(store).terms(),
                final(self)@,
            ),
            remembered(old(self)@, term) ==> res == old(self)@.j.memo[term].0 && final(self)@
                == old(self)@ && *final(store) == *old(store),
            remembered(final(self)@, term),
            res == final(self)@.j.memo[term].0,
            !remembered(old(self)@, term) && theory_equation(old(store).terms(), term)
                ==> branches_tied(
                final(store).terms(),
                final(self)@,
                term,
                Lit { var: final(self)@.j.var_of[term], positive: true },
            ),
    {
        self.encode_depth(term, store, 0)
    }

    /// [`GoalState::encode`] below `depth` connectives.
    ///
    /// A term that was encoded in the directions that are needed now keeps its
    /// literal.  Beyond the depth limit the term gets a variable without
    /// clauses, and the state is marked as incomplete.
    pub fn encode_depth(&mut self, term: TermId, store: &mut TermStore, depth: u32) -> (res: Lit)
        requires
            goal_inv(old(store).terms(), old(self)@),
            term < old(store).terms().len(),
        ensures
            grew(old(store), final(store)),
            encoded(
                old(store).terms(),
                old(self)@,
                final(store).terms(),
                final(self)@,
                term,
                res,
                depth,
            ),
            bvs_kept(
                old(store).sorts@,
                old(store).terms(),
                old(self)@,
                final(store).terms(),
                final(self)@,
            ),
            remembered(old(self)@, term) ==> res == old(self)@.j.memo[term].0 && final(self)@ == old(self)@ && *final(store) == *old(store),
            depth <= ENCODE_DEPTH_LIMIT ==> remembered(final(self)@, term) && res == final(self)@.j.memo[term].0,
            depth <= ENCODE_DEPTH_LIMIT && !remembered(old(self)@, term) && theory_equation(
                old(store).terms(),
                term,
            ) ==> branches_tied(
                final(store).terms(),
                final(self)@,
                term,
                Lit { var: final(self)@.j.var_of[term], positive: true },
            ),
            final(self)@.j.memo.contains_key(term) || final(self)@.exceeded,
        decreases ENCODE_DEPTH_LIMIT + 2 - depth, 3int,
    {
        let ghost s0 = store.terms();
        let ghost e0 = self@;
        let needed = self.polarity(term);
        if let Some(lit) = self.recall(term, needed) {
            proof {
                lemma_start(s0, e0, term, depth);
                assert(e0.j.memo.contains_key(term));
            }
            return lit;
        }
        if depth > ENCODE_DEPTH_LIMIT {
            self.encode_depth_exceeded = true;
            proof {
                assert(self@.parsed =~= e0.parsed);
                assert(self@.cache =~= e0.cache);
                assert(self@.clauses =~= e0.clauses);
                assert(self@ == GoalView { exceeded: true, ..e0 });
                lemma_step_grow(s0, s0, e0);
                lemma_step_exceeded(s0, e0, self@);
            }
            let ghost e1 = self@;
            let v = self.get_or_create_var(Ghost(s0), term);
            proof {
                lemma_step_trans(s0, e0, s0, e1, s0, self@);
            }
            return Lit::pos(v);
        }
        let lit = self.encode_depth_uncached(term, store, depth);
        let ghost s1 = store.terms();
        let ghost e1 = self@;
        match self.recall(term, needed) {
            Some(known) => {
                assert(e1.j.memo.contains_key(term));
                known
            },
            None => {
                self.memoize_encoding(Ghost(s1), term, lit, Polarity::Both);
                proof {
                    lemma_remember(s0, e0, s1, e1, self@, term, lit, depth);
                    if theory_equation(s0, term) {
                        let v = e1.j.var_of[term];
                        lemma_tied_same(s1, e1, self@, term, Lit { var: v, positive: true });
                    }
                }
                lit
            },
        }
    }
}

/// Every literal of `c`, negated.
spec fn negated_all(c: Seq<Lit>) -> Seq<Lit> {
    Seq::new(c.len(), |k: int| c[k].negated())
}

/// The clauses of a conjunction are true in every interpretation.
proof fn lemma_and_valid(s: Seq<TermView>, f: Seq<TermId>, term: TermId, res: Lit, lits: Seq<Lit>)
    requires
        terms_wf(s),
        term < s.len(),
        s[term as int].op == Op::And,
        means(s, f, res, term),
        lits.len() == s[term as int].args.len(),
        forall|k: int| 0 <= k < lits.len() ==> means(s, f, #[trigger] lits[k], s[term as int].args[k]),
    ensures
        forall|k: int|
            0 <= k < lits.len() ==> valid_clause(s, f, seq![res.negated(), #[trigger] lits[k]]),
        valid_clause(s, f, negated_all(lits).push(res)),
{
    assert(node_below(s, term as int));
    let args = s[term as int].args;
    assert forall|i: Interp| (#[trigger] lit_true(s, i, f, res) == forall|k: int|
        0 <= k < lits.len() ==> lit_true(s, i, f, #[trigger] lits[k])) by {
        lemma_eval(s, i, term);
        let vals = eval_args(s, i, args);
        assert forall|k: int| 0 <= k < lits.len() implies is_true(#[trigger] vals[k]) == lit_true(
            s,
            i,
            f,
            lits[k],
        ) by {
            assert(means(s, f, lits[k], args[k]));
        }
        if forall|k: int| 0 <= k < lits.len() ==> lit_true(s, i, f, #[trigger] lits[k]) {
            assert forall|k: int| 0 <= k < vals.len() implies is_true(#[trigger] vals[k]) by {
                assert(lit_true(s, i, f, lits[k]));
            }
        } else {
            let k = choose|k: int| 0 <= k < lits.len() && !lit_true(s, i, f, #[trigger] lits[k]);
            assert(!is_true(vals[k]));
        }
    }
    assert forall|k: int| 0 <= k < lits.len() implies valid_clause(
        s,
        f,
        seq![res.negated(), #[trigger] lits[k]],
    ) by {
        let n = res.negated();
        assert forall|i: Interp| #[trigger] lit_true(s, i, f, n) || lit_true(
            s,
            i,
            f,
            lits[k],
        ) by {
            assert(lit_true(s, i, f, res) == !lit_true(s, i, f, n));
        }
        lemma_clause2(s, f, n, lits[k]);
    }
    let c = negated_all(lits).push(res);
    assert forall|k: int| 0 <= k < c.len() implies (#[trigger] c[k]).var < f.len() by {
        if k < lits.len() {
            assert(means(s, f, lits[k], args[k]));
        }
    }
    assert forall|i: Interp| #[trigger] clause_true(s, i, f, c) by {
        if lit_true(s, i, f, res) {
            assert(c[lits.len() as int] == res);
        } else {
            let k = choose|k: int| 0 <= k < lits.len() && !lit_true(s, i, f, #[trigger] lits[k]);
            assert(c[k] == lits[k].negated());
            assert(lit_true(s, i, f, c[k]));
        }
    }
}

/// The clauses of a conjunction derive its value from those of its arguments.
proof fn lemma_and_covered(
    s: Seq<TermView>,
    e: GoalView,
    term: TermId,
    res: Lit,
    lits: Seq<Lit>,
    p: Polarity,
)
    requires
        terms_wf(s),
        term < s.len(),
        s[term as int].op == Op::And,
        lits.len() == s[term as int].args.len(),
        forall|k: int|
            0 <= k < lits.len() ==> covered(s, e, #[trigger] lits[k], s[term as int].args[k], p),
        p != Polarity::Negative ==> forall|k: int|
            0 <= k < lits.len() ==> has_clause(e, seq![res.negated(), #[trigger] lits[k]]),
        p != Polarity::Positive ==> has_clause(e, negated_all(lits).push(res)),
    ensures
        covered(s, e, res, term, p),
{
    assert(node_below(s, term as int));
    let args = s[term as int].args;
    assert forall|g: Assignment, i: Interp| #[trigger] agrees(s, e, g, i) && sat_all(
        g,
        e.clauses,
    ) implies bounded(p, lit_val(g, res), holds(s, i, term)) by {
        lemma_eval(s, i, term);
        let vals = eval_args(s, i, args);
        assert forall|k: int| 0 <= k < lits.len() implies bounded(
            p,
            lit_val(g, #[trigger] lits[k]),
            is_true(vals[k]),
        ) by {
            assert(covered(s, e, lits[k], args[k], p));
        }
        if p != Polarity::Negative && lit_val(g, res) {
            assert forall|k: int| 0 <= k < vals.len() implies is_true(#[trigger] vals[k]) by {
                assert(has_clause(e, seq![res.negated(), lits[k]]));
                lemma_sat2(g, e, res.negated(), lits[k]);
            }
        }
        if p != Polarity::Positive && holds(s, i, term) {
            let c = negated_all(lits).push(res);
            let j = choose|j: int| 0 <= j < e.clauses.len() && #[trigger] e.clauses[j] == c;
            assert(clause_sat(g, e.clauses[j]));
            let k = choose|k: int| 0 <= k < c.len() && lit_val(g, #[trigger] c[k]);
            if k < lits.len() {
                assert(c[k] == lits[k].negated());
                assert(is_true(vals[k]));
                assert(bounded(p, lit_val(g, lits[k]), is_true(vals[k])));
            }
        }
    }
}

/// The clauses of a disjunction are true in every interpretation.
proof fn lemma_or_valid(s: Seq<TermView>, f: Seq<TermId>, term: TermId, res: Lit, lits: Seq<Lit>)
    requires
        terms_wf(s),
        term < s.len(),
        s[term as int].op == Op::Or,
        means(s, f, res, term),
        lits.len() == s[term as int].args.len(),
        forall|k: int| 0 <= k < lits.len() ==> means(s, f, #[trigger] lits[k], s[term as int].args[k]),
    ensures
        forall|k: int|
            0 <= k < lits.len() ==> valid_clause(s, f, seq![(#[trigger] lits[k]).negated(), res]),
        valid_clause(s, f, seq![res.negated()] + lits),
{
    assert(node_below(s, term as int));
    let args = s[term as int].args;
    assert forall|i: Interp| (#[trigger] lit_true(s, i, f, res) == exists|k: int|
        0 <= k < lits.len() && lit_true(s, i, f, #[trigger] lits[k])) by {
        lemma_eval(s, i, term);
        let vals = eval_args(s, i, args);
        assert forall|k: int| 0 <= k < lits.len() implies is_true(#[trigger] vals[k]) == lit_true(
            s,
            i,
            f,
            lits[k],
        ) by {
            assert(means(s, f, lits[k], args[k]));
        }
        if exists|k: int| 0 <= k < lits.len() && lit_true(s, i, f, #[trigger] lits[k]) {
            let k = choose|k: int| 0 <= k < lits.len() && lit_true(s, i, f, #[trigger] lits[k]);
            assert(is_true(vals[k]));
        }
        if exists|k: int| 0 <= k < vals.len() && is_true(#[trigger] vals[k]) {
            let k = choose|k: int| 0 <= k < vals.len() && is_true(#[trigger] vals[k]);
            assert(lit_true(s, i, f, lits[k]));
        }
    }
    assert forall|k: int| 0 <= k < lits.len() implies valid_clause(
        s,
        f,
        seq![(#[trigger] lits[k]).negated(), res],
    ) by {
        let n = lits[k].negated();
        assert(means(s, f, lits[k], args[k]));
        assert forall|i: Interp| #[trigger] lit_true(s, i, f, n) || lit_true(
            s,
            i,
            f,
            res,
        ) by {
            assert(lit_true(s, i, f, lits[k]) == !lit_true(s, i, f, n));
        }
        lemma_clause2(s, f, n, res);
    }
    let c = seq![res.negated()] + lits;
    assert forall|k: int| 0 <= k < c.len() implies (#[trigger] c[k]).var < f.len() by {
        if k > 0 {
            assert(means(s, f, lits[k - 1], args[k - 1]));
            assert(c[k] == lits[k - 1]);
        }
    }
    assert forall|i: Interp| #[trigger] clause_true(s, i, f, c) by {
        assert(c[0] == res.negated());
        if lit_true(s, i, f, res) {
            let k = choose|k: int| 0 <= k < lits.len() && lit_true(s, i, f, #[trigger] lits[k]);
            assert(c[k + 1] == lits[k]);
        } else {
            assert(lit_true(s, i, f, c[0]));
        }
    }
}

/// The clauses of a disjunction derive its value from those of its arguments.
proof fn lemma_or_covered(
    s: Seq<TermView>,
    e: GoalView,
    term: TermId,
    res: Lit,
    lits: Seq<Lit>,
    p: Polarity,
)
    requires
        terms_wf(s),
        term < s.len(),
        s[term as int].op == Op::Or,
        lits.len() == s[term as int].args.len(),
        forall|k: int|
            0 <= k < lits.len() ==> covered(s, e, #[trigger] lits[k], s[term as int].args[k], p),
        p != Polarity::Positive ==> forall|k: int|
            0 <= k < lits.len() ==> has_clause(e, seq![(#[trigger] lits[k]).negated(), res]),
        p != Polarity::Negative ==> has_clause(e, seq![res.negated()] + lits),
    ensures
        covered(s, e, res, term, p),
{
    assert(node_below(s, term as int));
    let args = s[term as int].args;
    assert forall|g: Assignment, i: Interp| #[trigger] agrees(s, e, g, i) && sat_all(
        g,
        e.clauses,
    ) implies bounded(p, lit_val(g, res), holds(s, i, term)) by {
        lemma_eval(s, i, term);
        let vals = eval_args(s, i, args);
        assert forall|k: int| 0 <= k < lits.len() implies bounded(
            p,
            lit_val(g, #[trigger] lits[k]),
            is_true(vals[k]),
        ) by {
            assert(covered(s, e, lits[k], args[k], p));
        }
        if p != Polarity::Positive && holds(s, i, term) {
            let k = choose|k: int| 0 <= k < vals.len() && is_true(#[trigger] vals[k]);
            assert(bounded(p, lit_val(g, lits[k]), is_true(vals[k])));
            assert(has_clause(e, seq![lits[k].negated(), res]));
            lemma_sat2(g, e, lits[k].negated(), res);
        }
        if p != Polarity::Negative && lit_val(g, res) {
            let c = seq![res.negated()] + lits;
            let j = choose|j: int| 0 <= j < e.clauses.len() && #[trigger] e.clauses[j] == c;
            assert(clause_sat(g, e.clauses[j]));
            let k = choose|k: int| 0 <= k < c.len() && lit_val(g, #[trigger] c[k]);
            if k > 0 {
                assert(c[k] == lits[k - 1]);
                assert(bounded(p, lit_val(g, lits[k - 1]), is_true(vals[k - 1])));
            }
        }
    }
}

impl GoalState {
    /// A variable for the term and literals for all its arguments.
    fn encode_arguments(&mut self, term: TermId, store: &mut TermStore, depth: u32) -> (r: (
        Var,
        Vec<Lit>,
    ))
        requires
            goal_inv(old(store).terms(), old(self)@),
            term < old(store).terms().len(),
            depth <= ENCODE_DEPTH_LIMIT,
        ensures
            grew(old(store), final(store)),
            so_far(
                old(store).terms(),
                old(self)@,
                final(store).terms(),
                final(self)@,
                term,
                depth,
            ),
            bvs_kept(
                old(store).sorts@,
                old(store).terms(),
                old(self)@,
                final(store).terms(),
                final(self)@,
            ),
            r.0 < final(self)@.term_of.len(),
            final(self)@.term_of[r.0 as int] == term,
            r.1@.len() == old(store).terms()[term as int].args.len(),
            forall|k: int|
                0 <= k < r.1@.len() ==> arg_ok(
                    old(store).terms(),
                    old(self)@,
                    final(store).terms(),
                    final(self)@,
                    old(store).terms()[term as int].args[k],
                    #[trigger] r.1@[k],
                ),
        decreases ENCODE_DEPTH_LIMIT + 2 - depth, 0int,
    {
        let ghost s0 = store.terms();
        let ghost e0 = self@;
        let args = copy_words(&store.nodes[term].args);
        assert(args@ == s0[term as int].args);
        proof {
            lemma_start(s0, e0, term, depth);
        }
        let v = self.get_or_create_var(Ghost(s0), term);
        proof {
            lemma_quiet(s0, e0, s0, e0, s0, self@, term, depth);
        }
        let mut lits: Vec<Lit> = Vec::new();
        let mut j: usize = 0;
        while j < args.len()
            invariant
                j <= args.len(),
                args@ == s0[term as int].args,
                depth <= ENCODE_DEPTH_LIMIT,
                s0 == old(store).terms(),
                goal_inv(s0, e0),
                term < s0.len(),
                grew(old(store), store),
                so_far(s0, e0, store.terms(), self@, term, depth),
                bvs_kept(old(store).sorts@, s0, e0, store.terms(), self@),
                v < self@.term_of.len(),
                self@.term_of[v as int] == term,
                lits@.len() == j,
                forall|k: int|
                    0 <= k < j ==> arg_ok(
                        s0,
                        e0,
                        store.terms(),
                        self@,
                        args@[k],
                        #[trigger] lits@[k],
                    ),
            decreases args.len() - j,
        {
            let ghost s1 = store.terms();
            let ghost e1 = self@;
            proof {
                lemma_arg_weight(s0, s1, term, j as int);
            }
            let l = self.encode_depth(args[j], store, depth + 1);
            proof {
                lemma_sub(s0, e0, s1, e1, store.terms(), self@, term, args@[j as int], l, depth);
                assert forall|k: int| 0 <= k < j implies arg_ok(
                    s0,
                    e0,
                    store.terms(),
                    self@,
                    args@[k],
                    #[trigger] lits@[k],
                ) by {
                    lemma_arg_carry(s0, e0, s1, e1, store.terms(), self@, args@[k], lits@[k]);
                }
                assert(self@.term_of[v as int] == e1.term_of[v as int]);
            }
            lits.push(l);
            j = j + 1;
        }
        (v, lits)
    }

    fn encode_and(&mut self, term: TermId, store: &mut TermStore, depth: u32) -> (res: Lit)
        requires
            goal_inv(old(store).terms(), old(self)@),
            term < old(store).terms().len(),
            depth <= ENCODE_DEPTH_LIMIT,
            old(store).terms()[term as int].op == Op::And,
        ensures
            grew(old(store), final(store)),
            encoded(
                old(store).terms(),
                old(self)@,
                final(store).terms(),
                final(self)@,
                term,
                res,
                depth,
            ),
            bvs_kept(
                old(store).sorts@,
                old(store).terms(),
                old(self)@,
                final(store).terms(),
                final(self)@,
            ),
            final(self)@.j.memo.contains_key(term),
        decreases ENCODE_DEPTH_LIMIT + 2 - depth, 1int,
    {
        let ghost s0 = store.terms();
        let ghost e0 = self@;
        let (v, lits) = self.encode_arguments(term, store, depth);
        let res = Lit::pos(v);
        let ghost s1 = store.terms();
        let ghost e1 = self@;
        let polarity = self.polarity(term);
        proof {
            assert(s1[term as int] == s0[term as int]);
            lemma_and_valid(s1, e1.term_of, term, res, lits@);
        }
        let mut cs: Vec<Vec<Lit>> = Vec::new();
        if polarity != Polarity::Negative {
            let mut k: usize = 0;
            while k < lits.len()
                invariant
                    k <= lits.len(),
                    cs@.len() == k,
                    forall|j: int|
                        0 <= j < k ==> (#[trigger] cs@[j])@ == seq![res.negated(), lits@[j]],
                decreases lits.len() - k,
            {
                cs.push(clause2(res.negate(), lits[k]));
                k = k + 1;
            }
        }
        let ghost n = cs@.len();
        if polarity != Polarity::Positive {
            let mut c: Vec<Lit> = Vec::new();
            let mut k: usize = 0;
            while k < lits.len()
                invariant
                    k <= lits.len(),
                    c@ =~= negated_all(lits@).take(k as int),
                decreases lits.len() - k,
            {
                c.push(lits[k].negate());
                k = k + 1;
            }
            c.push(res);
            assert(c@ =~= negated_all(lits@).push(res));
            cs.push(c);
        }
        proof {
            assert forall|k: int| 0 <= k < cs@.len() implies valid_clause(
                s1,
                e1.term_of,
                (#[trigger] cs@[k])@,
            ) by {
                if k < n {
                    assert(valid_clause(s1, e1.term_of, seq![res.negated(), lits@[k]]));
                }
            }
        }
        self.add_all_valid(Ghost(s1), &cs);
        let ghost e2 = self@;
        proof {
            lemma_quiet(s0, e0, s1, e1, s1, e2, term, depth);
            lemma_args_parts(s0, e0, s1, e1, term, lits@);
            if !e1.exceeded {
                lemma_parts_grow(s1, e1, s1, e2, term);
            }
            if complete(s0, e0) && !e2.exceeded && coherent(s1, e2, term) {
                assert forall|k: int| 0 <= k < lits@.len() implies covered(
                    s1,
                    e2,
                    #[trigger] lits@[k],
                    s1[term as int].args[k],
                    polarity,
                ) by {
                    lemma_arg_carry(s0, e0, s1, e1, s1, e2, s1[term as int].args[k], lits@[k]);
                    assert(covers(polarity_of(e2, s1[term as int].args[k]), polarity));
                    lemma_arg_covered(s0, e0, s1, e2, term, k, lits@[k], polarity);
                }
                if polarity != Polarity::Negative {
                    assert forall|k: int| 0 <= k < lits@.len() implies has_clause(
                        e2,
                        seq![res.negated(), #[trigger] lits@[k]],
                    ) by {
                        assert(cs@[k]@ == seq![res.negated(), lits@[k]]);
                    }
                }
                if polarity != Polarity::Positive {
                    assert(cs@[n as int]@ == negated_all(lits@).push(res));
                }
                lemma_and_covered(s1, e2, term, res, lits@, polarity);
            }
        }
        if self.recall(term, polarity).is_none() {
            self.memoize_encoding(Ghost(s1), term, res, polarity);
            proof {
                lemma_remember(s0, e0, s1, e2, self@, term, res, depth);
            }
        }
        res
    }

    fn encode_or(&mut self, term: TermId, store: &mut TermStore, depth: u32) -> (res: Lit)
        requires
            goal_inv(old(store).terms(), old(self)@),
            term < old(store).terms().len(),
            depth <= ENCODE_DEPTH_LIMIT,
            old(store).terms()[term as int].op == Op::Or,
        ensures
            grew(old(store), final(store)),
            encoded(
                old(store).terms(),
                old(self)@,
                final(store).terms(),
                final(self)@,
                term,
                res,
                depth,
            ),
            bvs_kept(
                old(store).sorts@,
                old(store).terms(),
                old(self)@,
                final(store).terms(),
                final(self)@,
            ),
            final(self)@.j.memo.contains_key(term),
        decreases ENCODE_DEPTH_LIMIT + 2 - depth, 1int,
    {
        let ghost s0 = store.terms();
        let ghost e0 = self@;
        let (v, lits) = self.encode_arguments(term, store, depth);
        let res = Lit::pos(v);
        let ghost s1 = store.terms();
        let ghost e1 = self@;
        let polarity = self.polarity(term);
        proof {
            assert(s1[term as int] == s0[term as int]);
            lemma_or_valid(s1, e1.term_of, term, res, lits@);
        }
        let mut cs: Vec<Vec<Lit>> = Vec::new();
        if polarity != Polarity::Negative {
            let mut c: Vec<Lit> = Vec::new();
            c.push(res.negate());
            let mut k: usize = 0;
            while k < lits.len()
                invariant
                    k <= lits.len(),
                    c@ =~= seq![res.negated()] + lits@.take(k as int),
                decreases lits.len() - k,
            {
                c.push(lits[k]);
                k = k + 1;
            }
            assert(c@ =~= seq![res.negated()] + lits@);
            cs.push(c);
        }
        let ghost n = cs@.len();
        if polarity != Polarity::Positive {
            let mut k: usize = 0;
            while k < lits.len()
                invariant
                    k <= lits.len(),
                    cs@.len() == n + k,
                    n == 1 ==> cs@[0]@ == seq![res.negated()] + lits@,
                    n <= 1,
                    forall|j: int|
                        n <= j < n + k ==> (#[trigger] cs@[j])@ == seq![
                            lits@[j - n].negated(),
                            res,
                        ],
                decreases lits.len() - k,
            {
                cs.push(clause2(lits[k].negate(), res));
                k = k + 1;
            }
        }
        proof {
            assert forall|k: int| 0 <= k < cs@.len() implies valid_clause(
                s1,
                e1.term_of,
                (#[trigger] cs@[k])@,
            ) by {
                if k >= n {
                    assert(valid_clause(s1, e1.term_of, seq![lits@[k - n].negated(), res]));
                }
            }
        }
        self.add_all_valid(Ghost(s1), &cs);
        let ghost e2 = self@;
        proof {
            lemma_quiet(s0, e0, s1, e1, s1, e2, term, depth);
            lemma_args_parts(s0, e0, s1, e1, term, lits@);
            if !e1.exceeded {
                lemma_parts_grow(s1, e1, s1, e2, term);
            }
            if complete(s0, e0) && !e2.exceeded && coherent(s1, e2, term) {
                assert forall|k: int| 0 <= k < lits@.len() implies covered(
                    s1,
                    e2,
                    #[trigger] lits@[k],
                    s1[term as int].args[k],
                    polarity,
                ) by {
                    lemma_arg_carry(s0, e0, s1, e1, s1, e2, s1[term as int].args[k], lits@[k]);
                    assert(covers(polarity_of(e2, s1[term as int].args[k]), polarity));
                    lemma_arg_covered(s0, e0, s1, e2, term, k, lits@[k], polarity);
                }
                if polarity != Polarity::Positive {
                    assert forall|k: int| 0 <= k < lits@.len() implies has_clause(
                        e2,
                        seq![(#[trigger] lits@[k]).negated(), res],
                    ) by {
                        assert(cs@[n + k]@ == seq![lits@[k].negated(), res]);
                    }
                }
                if polarity != Polarity::Negative {
                    assert(cs@[0]@ == seq![res.negated()] + lits@);
                }
                lemma_or_covered(s1, e2, term, res, lits@, polarity);
            }
        }
        if self.recall(term, polarity).is_none() {
            self.memoize_encoding(Ghost(s1), term, res, polarity);
            proof {
                lemma_remember(s0, e0, s1, e2, self@, term, res, depth);
            }
        }
        res
    }

    /// Asks for the operands of a comparison to be registered, and attaches the
    /// constraint to its variable.
    fn record_theory_atom(
        &mut self,
        Ghost(s): Ghost<Seq<TermView>>,
        v: Var,
        lhs: TermId,
        rhs: TermId,
        constraint: Constraint,
    )
        requires
            goal_inv(s, old(self)@),
            v < old(self)@.term_of.len(),
            constraint_ok(
                s[old(self)@.term_of[v as int] as int],
                old(self)@.term_of[v as int],
                constraint,
            ),
            constraint == Constraint::Eq(lhs, rhs) || constraint == Constraint::Lt(lhs, rhs)
                || constraint == Constraint::Le(lhs, rhs) || constraint == Constraint::Gt(lhs, rhs)
                || constraint == Constraint::Ge(lhs, rhs),
        ensures
            step(s, old(self)@, s, final(self)@),
            final(self)@.j.memo == old(self)@.j.memo,
            final(self)@.j.var_of == old(self)@.j.var_of,
            final(self)@.term_of == old(self)@.term_of,
            final(self)@.exceeded == old(self)@.exceeded,
            final(self)@.quantified == old(self)@.quantified,
            final(self)@.arrays == old(self)@.arrays,
            final(self)@.bv_arith == old(self)@.bv_arith,
            final(self)@.j.constraint == old(self)@.j.constraint.insert(v, constraint),
            final(self)@.j.const_axioms == old(self)@.j.const_axioms,
            final(self)@.j.care_pairs == old(self)@.j.care_pairs,
    {
        let ghost e0 = self@;
        self.track_theory_vars(Ghost(s), lhs);
        let ghost e1 = self@;
        self.track_theory_vars(Ghost(s), rhs);
        let ghost e2 = self@;
        proof {
            lemma_step_trans(s, e0, s, e1, s, e2);
            assert(e2.requests[e0.requests.len() as int] == TheoryRequest::Track(lhs));
            assert(e2.requests[e0.requests.len() as int + 1] == TheoryRequest::Track(rhs));
        }
        self.record_constraint(Ghost(s), v, constraint);
        proof {
            lemma_step_trans(s, e0, s, e2, s, self@);
        }
    }

    /// Attaches the linear form of a comparison to its variable, where there
    /// is one.
    fn record_linear_form(
        &mut self,
        store: &TermStore,
        v: Var,
        lhs: TermId,
        rhs: TermId,
        constraint_type: ArithConstraintType,
        term: TermId,
    )
        requires
            goal_inv(store.terms(), old(self)@),
            term < store.terms().len(),
            store.terms()[term as int].args == seq![lhs, rhs],
            relation_of(store.terms()[term as int].op) == Some(constraint_type),
            store.terms()[term as int].op == Op::Eq ==> store.terms()[lhs as int].sort != BOOL_SORT,
            v < old(self)@.term_of.len(),
            old(self)@.term_of[v as int] == term,
            old(self)@.j.constraint.contains_key(v),
        ensures
            step(store.terms(), old(self)@, store.terms(), final(self)@),
            final(self)@ == (GoalView {
                parsed: final(self)@.parsed,
                cache: final(self)@.cache,
                ..old(self)@
            }),
            parses_as(store.terms(), lhs, rhs, None) ==> final(self)@.parsed == old(self)@.parsed,
            !parses_as(store.terms(), lhs, rhs, None) ==> final(self)@.parsed.contains_key(v),
    {
        let ghost s = store.terms();
        let ghost e0 = self@;
        let parsed = self.parse_arith_comparison(store, lhs, rhs, constraint_type, term);
        let ghost e1 = self@;
        if let Some(p) = parsed {
            self.attach_parsed(Ghost(s), v, p);
            proof {
                lemma_step_trans(s, e0, s, e1, s, self@);
            }
        }
    }

    /// A comparison: a variable with a constraint for the theories.
    fn encode_comparison(
        &mut self,
        term: TermId,
        store: &mut TermStore,
        constraint: Constraint,
        relation: Option<ArithConstraintType>,
        depth: u32,
    ) -> (res: Lit)
        requires
            goal_inv(old(store).terms(), old(self)@),
            term < old(store).terms().len(),
            depth <= ENCODE_DEPTH_LIMIT,
            old(store).terms()[term as int].args.len() == 2,
            !gate(old(store).terms(), term as int),
            constraint_ok(old(store).terms()[term as int], term, constraint),
            ({
                let a = old(store).terms()[term as int].args[0];
                let b = old(store).terms()[term as int].args[1];
                constraint == Constraint::Eq(a, b) || constraint == Constraint::Lt(a, b)
                    || constraint == Constraint::Le(a, b) || constraint == Constraint::Gt(a, b)
                    || constraint == Constraint::Ge(a, b)
            }),
            relation is Some ==> relation_of(old(store).terms()[term as int].op) == relation,
        ensures
            grew(old(store), final(store)),
            encoded(
                old(store).terms(),
                old(self)@,
                final(store).terms(),
                final(self)@,
                term,
                res,
                depth,
            ),
            bvs_kept(
                old(store).sorts@,
                old(store).terms(),
                old(self)@,
                final(store).terms(),
                final(self)@,
            ),
            *final(store) == *old(store),
            final(self)@.j.memo == old(self)@.j.memo,
            relation is Some && !parses_as(
                old(store).terms(),
                old(store).terms()[term as int].args[0],
                old(store).terms()[term as int].args[1],
                None,
            ) ==> final(self)@.parsed.contains_key(res.var),
            res.positive,
            final(self)@.j.var_of.contains_key(term),
            final(self)@.j.var_of[term] == res.var,
            final(self)@.j.constraint.contains_key(res.var),
            final(self)@.term_of[res.var as int] == term,
            final(self)@.quantified == old(self)@.quantified,
            final(self)@.arrays == old(self)@.arrays,
            final(self)@.bv_arith == old(self)@.bv_arith,
    {
        let ghost s = store.terms();
        let ghost e0 = self@;
        let lhs: TermId = store.nodes[term].args[0];
        let rhs: TermId = store.nodes[term].args[1];
        let v = self.get_or_create_var(Ghost(s), term);
        let ghost e1 = self@;
        self.record_theory_atom(Ghost(s), v, lhs, rhs, constraint);
        let ghost e2 = self@;
        if let Some(r) = relation {
            assert(s[term as int].args =~= seq![lhs, rhs]);
            self.record_linear_form(store, v, lhs, rhs, r, term);
        } else {
            proof {
                lemma_step_grow(s, s, e2);
            }
        }
        proof {
            lemma_step_trans(s, e0, s, e1, s, e2);
            lemma_step_trans(s, e0, s, e2, s, self@);
            lemma_good_quiet(s, e0, s, self@);
            lemma_atom_covered(s, self@, term, Lit { var: v, positive: true });
        }
        Lit::pos(v)
    }

    /// A Boolean equation: equivalence of the two literals, and a constraint for
    /// the theories.
    fn encode_iff(&mut self, term: TermId, store: &mut TermStore, depth: u32) -> (res: Lit)
        requires
            goal_inv(old(store).terms(), old(self)@),
            term < old(store).terms().len(),
            depth <= ENCODE_DEPTH_LIMIT,
            old(store).terms()[term as int].op == Op::Eq,
            old(store).terms()[old(store).terms()[term as int].args[0] as int].sort == BOOL_SORT,
        ensures
            grew(old(store), final(store)),
            encoded(
                old(store).terms(),
                old(self)@,
                final(store).terms(),
                final(self)@,
                term,
                res,
                depth,
            ),
            bvs_kept(
                old(store).sorts@,
                old(store).terms(),
                old(self)@,
                final(store).terms(),
                final(self)@,
            ),
            attached(final(store).terms(), final(self)@, term),
            res == (Lit { var: final(self)@.j.var_of[term], positive: true }),
            final(self)@.exceeded || parts_encoded(final(store).terms(), final(self)@.j.memo, term),
        decreases ENCODE_DEPTH_LIMIT + 2 - depth, 1int,
    {
        let ghost s0 = store.terms();
        let ghost e0 = self@;
        assert(node_below(s0, term as int));
        let lhs: TermId = store.nodes[term].args[0];
        let rhs: TermId = store.nodes[term].args[1];
        let (l, r, v) = self.encode_operands(term, store, depth);
        let res = Lit::pos(v);
        let ghost s1 = store.terms();
        let ghost e1 = self@;
        assert(s1[term as int] == s0[term as int]);
        proof {
            assert(s1[lhs as int] == s0[lhs as int]);
            lemma_iff_valid(s1, e1.term_of, term, res, l, r);
        }
        let mut cs: Vec<Vec<Lit>> = Vec::new();
        cs.push(clause3(res.negate(), l.negate(), r));
        cs.push(clause3(res.negate(), r.negate(), l));
        cs.push(clause3(l, r, res));
        cs.push(clause3(l.negate(), r.negate(), res));
        self.add_all_valid(Ghost(s1), &cs);
        let ghost e2 = self@;
        proof {
            lemma_quiet(s0, e0, s1, e1, s1, e2, term, depth);
            lemma_arg_carry(s0, e0, s1, e1, s1, e2, lhs, l);
            lemma_arg_carry(s0, e0, s1, e1, s1, e2, rhs, r);
            lemma_args_parts(s0, e0, s1, e2, term, seq![l, r]);
            assert(cs@[0]@ == seq![res.negated(), l.negated(), r]);
            assert(cs@[1]@ == seq![res.negated(), r.negated(), l]);
            assert(cs@[2]@ == seq![l, r, res]);
            assert(cs@[3]@ == seq![l.negated(), r.negated(), res]);
            if complete(s0, e0) && !e2.exceeded && coherent(s1, e2, term) {
                lemma_arg_covered(s0, e0, s1, e2, term, 0, l, Polarity::Both);
                lemma_arg_covered(s0, e0, s1, e2, term, 1, r, Polarity::Both);
                lemma_iff_covered(s1, e2, term, res, l, r);
            }
            assert(s1[term as int].args =~= seq![lhs, rhs]);
        }
        self.record_theory_atom(Ghost(s1), v, lhs, rhs, Constraint::Eq(lhs, rhs));
        let ghost e3 = self@;
        proof {
            lemma_quiet(s0, e0, s1, e2, s1, e3, term, depth);
            if !e3.exceeded {
                lemma_parts_grow(s1, e2, s1, e3, term);
            }
            if complete(s0, e0) && !e3.exceeded && coherent(s1, e3, term) {
                lemma_coherent_extend(s1, e2, s1, e3, term);
                lemma_covered_step(s1, e2, s1, e3, res, term, Polarity::Both);
            }
        }
        res
    }

    /// Equations between terms that are no formulas.
    fn encode_theory_eq(&mut self, term: TermId, store: &mut TermStore, depth: u32) -> (res: Lit)
        requires
            goal_inv(old(store).terms(), old(self)@),
            term < old(store).terms().len(),
            depth <= ENCODE_DEPTH_LIMIT,
            old(store).terms()[term as int].op == Op::Eq,
            old(store).terms()[old(store).terms()[term as int].args[0] as int].sort != BOOL_SORT,
        ensures
            grew(old(store), final(store)),
            encoded(
                old(store).terms(),
                old(self)@,
                final(store).terms(),
                final(self)@,
                term,
                res,
                depth,
            ),
            bvs_kept(
                old(store).sorts@,
                old(store).terms(),
                old(self)@,
                final(store).terms(),
                final(self)@,
            ),
            attached(final(store).terms(), final(self)@, term),
            res == (Lit { var: final(self)@.j.var_of[term], positive: true }),
            branches_tied(
                final(store).terms(),
                final(self)@,
                term,
                Lit { var: final(self)@.j.var_of[term], positive: true },
            ),
            final(self)@.exceeded || parts_encoded(final(store).terms(), final(self)@.j.memo, term),
        decreases ENCODE_DEPTH_LIMIT + 2 - depth, 1int,
    {
        let ghost s0 = store.terms();
        let ghost e0 = self@;
        assert(node_below(s0, term as int));
        let lhs: TermId = store.nodes[term].args[0];
        let rhs: TermId = store.nodes[term].args[1];
        assert(s0[term as int].args =~= seq![lhs, rhs]);
        let relation = if is_numeric_sort(store.nodes[lhs].sort) {
            Some(ArithConstraintType::Le)
        } else {
            None
        };
        let res = self.encode_comparison(term, store, Constraint::Eq(lhs, rhs), relation, depth);
        let ghost e1 = self@;
        self.encode_nonbool_ite_equality(term, res, store, depth);
        proof {
            assert(attached(s0, e1, term));
            lemma_attached_step(s0, e1, store.terms(), self@, term);
            lemma_good_trans(s0, e0, s0, e1, store.terms(), self@);
            lemma_means_extend(s0, e1.term_of, store.terms(), self@.term_of, res, term);
            assert(store.terms()[term as int] == s0[term as int]);
            assert(store.terms()[lhs as int] == s0[lhs as int]);
            lemma_atom_covered(store.terms(), self@, term, res);
        }
        res
    }

    /// `(= a (ite c t e))` forces `(= a t)` where `c` is true and `(= a e)`
    /// where it is false.  Conditional operands on either side count; the
    /// right-hand one goes first, and one is enough.
    #[verifier::rlimit(90)]
    fn encode_nonbool_ite_equality(
        &mut self,
        term: TermId,
        eq: Lit,
        store: &mut TermStore,
        depth: u32,
    )
        requires
            goal_inv(old(store).terms(), old(self)@),
            term < old(store).terms().len(),
            depth <= ENCODE_DEPTH_LIMIT,
            old(store).terms()[term as int].op == Op::Eq,
            old(store).terms()[old(store).terms()[term as int].args[0] as int].sort != BOOL_SORT,
            means(old(store).terms(), old(self)@.term_of, eq, term),
        ensures
            grew(old(store), final(store)),
            so_far(
                old(store).terms(),
                old(self)@,
                final(store).terms(),
                final(self)@,
                term,
                depth,
            ),
            bvs_kept(
                old(store).sorts@,
                old(store).terms(),
                old(self)@,
                final(store).terms(),
                final(self)@,
            ),
            branches_tied(final(store).terms(), final(self)@, term, eq),
            final(self)@.exceeded || parts_encoded(final(store).terms(), final(self)@.j.memo, term),
        decreases ENCODE_DEPTH_LIMIT + 2 - depth, 0int,
    {
        let ghost s0 = store.terms();
        let ghost e0 = self@;
        assert(node_below(s0, term as int));
        let lhs: TermId = store.nodes[term].args[0];
        let rhs: TermId = store.nodes[term].args[1];
        proof {
            lemma_start(s0, e0, term, depth);
        }
        let (a, b): (TermId, TermId) = if store.nodes[rhs].op == Op::Ite {
            (lhs, rhs)
        } else if store.nodes[lhs].op == Op::Ite {
            (rhs, lhs)
        } else {
            proof {
                lemma_no_parts(s0, e0, term);
            }
            return;
        };
        assert(node_below(s0, b as int));
        let cond: TermId = store.nodes[b].args[0];
        let then_br: TermId = store.nodes[b].args[1];
        let else_br: TermId = store.nodes[b].args[2];
        proof {
            lemma_ite_equation_weight(s0, term, a, b);
        }
        let cond_lit = self.encode_depth(cond, store, depth + 1);
        let ghost s1 = store.terms();
        let ghost e1 = self@;
        proof {
            lemma_sub(s0, e0, s0, e0, s1, e1, term, cond, cond_lit, depth);
            assert(s1[a as int] == s0[a as int]);
            assert(s1[then_br as int] == s0[then_br as int]);
            assert(s1[else_br as int] == s0[else_br as int]);
        }
        let eq_then = store.mk_eq(a, then_br);
        let ghost s2 = store.terms();
        let eq_else = store.mk_eq(a, else_br);
        let ghost s3 = store.terms();
        proof {
            lemma_step_grow(s1, s3, e1);
            lemma_quiet(s0, e0, s1, e1, s3, e1, term, depth);
            lemma_arg_carry(s0, e0, s1, e1, s3, e1, cond, cond_lit);
            lemma_equation_weight(s0, s3, term, a, b, then_br, eq_then);
            lemma_equation_weight(s0, s3, term, a, b, else_br, eq_else);
        }
        let then_lit = self.encode_depth(eq_then, store, depth + 1);
        let ghost s4 = store.terms();
        let ghost e4 = self@;
        proof {
            lemma_sub(s0, e0, s3, e1, s4, e4, term, eq_then, then_lit, depth);
            lemma_arg_carry(s0, e0, s3, e1, s4, e4, cond, cond_lit);
            lemma_weight_extend(s3, s4, eq_else as int);
        }
        let else_lit = self.encode_depth(eq_else, store, depth + 1);
        let ghost s5 = store.terms();
        let ghost e5 = self@;
        proof {
            lemma_sub(s0, e0, s4, e4, s5, e5, term, eq_else, else_lit, depth);
            lemma_arg_carry(s0, e0, s4, e4, s5, e5, cond, cond_lit);
            lemma_arg_carry(s0, e0, s4, e4, s5, e5, eq_then, then_lit);
            lemma_means_extend(s0, e0.term_of, s5, e5.term_of, eq, term);
            lemma_equation_extend(s2, s5, a, then_br, eq_then);
            lemma_equation_extend(s3, s5, a, else_br, eq_else);
            assert(s5[term as int] == s0[term as int]);
            assert(s5[b as int] == s0[b as int]);
            assert(s5[a as int] == s0[a as int]);
            assert(s5[lhs as int] == s0[lhs as int]);
            lemma_ite_equation_valid(
                s5,
                e5.term_of,
                term,
                a,
                b,
                eq,
                cond_lit,
                eq_then,
                then_lit,
                eq_else,
                else_lit,
            );
        }
        let mut cs: Vec<Vec<Lit>> = Vec::new();
        cs.push(clause3(eq.negate(), cond_lit.negate(), then_lit));
        cs.push(clause3(eq.negate(), cond_lit, else_lit));
        self.add_all_valid(Ghost(s5), &cs);
        proof {
            lemma_quiet(s0, e0, s5, e5, s5, self@, term, depth);
            assert(cs@[0]@ == seq![eq.negated(), cond_lit.negated(), then_lit]);
            assert(cs@[1]@ == seq![eq.negated(), cond_lit, else_lit]);
            assert(s5[rhs as int] == s0[rhs as int]);
            if !self@.exceeded {
                lemma_parts_branches(s5, self@, term, a, b, eq_then, eq_else);
            }
            lemma_tied(
                s5,
                self@,
                term,
                eq,
                a,
                b,
                cond_lit,
                eq_then,
                then_lit,
                eq_else,
                else_lit,
            );
        }
    }

    /// Pairwise equations of the arguments, one of which holds where the
    /// arguments are not distinct.
    #[verifier::rlimit(60)]
    fn encode_distinct(&mut self, term: TermId, store: &mut TermStore, depth: u32) -> (res: Lit)
        requires
            goal_inv(old(store).terms(), old(self)@),
            term < old(store).terms().len(),
            depth <= ENCODE_DEPTH_LIMIT,
            old(store).terms()[term as int].op == Op::Distinct,
        ensures
            grew(old(store), final(store)),
            encoded(
                old(store).terms(),
                old(self)@,
                final(store).terms(),
                final(self)@,
                term,
                res,
                depth,
            ),
            bvs_kept(
                old(store).sorts@,
                old(store).terms(),
                old(self)@,
                final(store).terms(),
                final(self)@,
            ),
            final(self)@.exceeded || parts_encoded(final(store).terms(), final(self)@.j.memo, term),
        decreases ENCODE_DEPTH_LIMIT + 2 - depth, 1int,
    {
        let ghost s0 = store.terms();
        let ghost e0 = self@;
        assert(node_below(s0, term as int));
        let args = copy_words(&store.nodes[term].args);
        assert(args@ == s0[term as int].args);
        let n: usize = args.len();
        proof {
            lemma_start(s0, e0, term, depth);
        }
        if n <= 1 {
            let res = self.encode_constant(TRUE_TERM, store, depth);
            proof {
                assert forall|i: Interp| #[trigger] lit_true(s0, i, self@.term_of, res) == holds(
                    s0,
                    i,
                    term,
                ) by {
                    lemma_eval(s0, i, term);
                    lemma_eval(s0, i, TRUE_TERM);
                }
                assert(coherent(s0, self@, TRUE_TERM));
                if complete(s0, e0) && !self@.exceeded {
                    assert(covered(s0, self@, res, TRUE_TERM, Polarity::Both));
                    assert forall|g: Assignment, i: Interp| #[trigger] agrees(s0, self@, g, i)
                        && sat_all(g, self@.clauses) implies bounded(
                        Polarity::Both,
                        lit_val(g, res),
                        holds(s0, i, term),
                    ) by {
                        lemma_eval(s0, i, term);
                        lemma_eval(s0, i, TRUE_TERM);
                    }
                }
                lemma_parts_pairs(s0, self@, term);
            }
            return res;
        }
        let v = self.get_or_create_var(Ghost(s0), term);
        proof {
            lemma_quiet(s0, e0, s0, e0, s0, self@, term, depth);
        }
        let mut eq_lits: Vec<Lit> = Vec::new();
        let ghost mut eqs: Seq<TermId> = Seq::empty();
        let ghost mut pairs: Seq<(int, int)> = Seq::empty();
        let mut i: usize = 0;
        while i < n
            invariant
                i <= n,
                n == args@.len(),
                args@ == s0[term as int].args,
                depth <= ENCODE_DEPTH_LIMIT,
                s0 == old(store).terms(),
                goal_inv(s0, e0),
                term < s0.len(),
                node_below(s0, term as int),
                s0[term as int].op == Op::Distinct,
                grew(old(store), store),
                so_far(s0, e0, store.terms(), self@, term, depth),
                bvs_kept(old(store).sorts@, s0, e0, store.terms(), self@),
                v < self@.term_of.len(),
                self@.term_of[v as int] == term,
                pairs_done(s0, e0, store.terms(), self@, args@, eq_lits@, eqs, pairs),
                forall|p: int, q: int| 0 <= p < i && p < q < n ==> pairs.contains((p, q)),
            decreases n - i,
        {
            let mut j: usize = i + 1;
            while j < n
                invariant
                    i < n,
                    i < j <= n,
                    n == args@.len(),
                    args@ == s0[term as int].args,
                    depth <= ENCODE_DEPTH_LIMIT,
                    s0 == old(store).terms(),
                    goal_inv(s0, e0),
                    term < s0.len(),
                    node_below(s0, term as int),
                    s0[term as int].op == Op::Distinct,
                    grew(old(store), store),
                    so_far(s0, e0, store.terms(), self@, term, depth),
                    bvs_kept(old(store).sorts@, s0, e0, store.terms(), self@),
                    v < self@.term_of.len(),
                    self@.term_of[v as int] == term,
                    pairs_done(s0, e0, store.terms(), self@, args@, eq_lits@, eqs, pairs),
                    forall|p: int, q: int| 0 <= p < i && p < q < n ==> pairs.contains((p, q)),
                    forall|q: int| i < q < j ==> pairs.contains((i as int, q)),
                decreases n - j,
            {
                let ghost s1 = store.terms();
                let ghost e1 = self@;
                let a: TermId = args[i];
                let b: TermId = args[j];
                proof {
                    assert(s1[a as int] == s0[a as int]);
                    assert(s1[b as int] == s0[b as int]);
                    assert(s0[args@[i as int] as int].sort == s0[args@[j as int] as int].sort);
                }
                let eq = store.mk_eq(a, b);
                let ghost s2 = store.terms();
                proof {
                    lemma_step_grow(s1, s2, e1);
                    lemma_quiet(s0, e0, s1, e1, s2, e1, term, depth);
                    lemma_weight_pair(s0, term as int, i as int, j as int);
                    lemma_pair_weight(s0, s2, term, a, b, eq);
                }
                let l = self.encode_depth(eq, store, depth + 1);
                proof {
                    let s3 = store.terms();
                    let e3 = self@;
                    lemma_sub(s0, e0, s2, e1, s3, e3, term, eq, l, depth);
                    lemma_good_trans(s1, e1, s2, e1, s3, e3);
                    lemma_pairs_carry(
                        s0,
                        e0,
                        s1,
                        e1,
                        s3,
                        e3,
                        args@,
                        eq_lits@,
                        eqs,
                        pairs,
                    );
                    lemma_equation_extend(s2, s3, a, b, eq);
                    assert(self@.term_of[v as int] == e1.term_of[v as int]);
                    let old_pairs = pairs;
                    eqs = eqs.push(eq);
                    pairs = pairs.push((i as int, j as int));
                    assert forall|p: int, q: int| old_pairs.contains((p, q)) implies pairs.contains(
                        (p, q),
                    ) by {
                        let k = choose|k: int| 0 <= k < old_pairs.len() && old_pairs[k] == (p, q);
                        assert(pairs[k] == (p, q));
                    }
                    assert(pairs[old_pairs.len() as int] == (i as int, j as int));
                    let ls = eq_lits@.push(l);
                    assert forall|k: int| 0 <= k < ls.len() implies pair_done(
                        s0,
                        e0,
                        s3,
                        e3,
                        args@,
                        #[trigger] ls[k],
                        eqs[k],
                        pairs[k],
                    ) by {
                        if k < eq_lits@.len() {
                            assert(pair_done(s0, e0, s3, e3, args@, eq_lits@[k], eqs[k], pairs[k]));
                        }
                    }
                }
                eq_lits.push(l);
                j = j + 1;
            }
            i = i + 1;
        }
        let res = Lit::pos(v);
        let ghost s1 = store.terms();
        let ghost e1 = self@;
        proof {
            assert(s1[term as int] == s0[term as int]);
            lemma_distinct_valid(s0, e0, s1, e1, term, res, eq_lits@, eqs, pairs);
        }
        let mut cs: Vec<Vec<Lit>> = Vec::new();
        let mut big: Vec<Lit> = Vec::new();
        let mut k: usize = 0;
        while k < eq_lits.len()
            invariant
                k <= eq_lits.len(),
                cs@.len() == k,
                big@ =~= eq_lits@.take(k as int),
                forall|j: int|
                    0 <= j < k ==> (#[trigger] cs@[j])@ == seq![
                        res.negated(),
                        eq_lits@[j].negated(),
                    ],
            decreases eq_lits.len() - k,
        {
            cs.push(clause2(res.negate(), eq_lits[k].negate()));
            big.push(eq_lits[k]);
            k = k + 1;
        }
        big.push(res);
        assert(big@ =~= eq_lits@.push(res));
        cs.push(big);
        proof {
            assert forall|k: int| 0 <= k < cs@.len() implies valid_clause(
                s1,
                e1.term_of,
                (#[trigger] cs@[k])@,
            ) by {
                if k < eq_lits@.len() {
                    assert(valid_clause(
                        s1,
                        e1.term_of,
                        seq![res.negated(), eq_lits@[k].negated()],
                    ));
                }
            }
        }
        self.add_all_valid(Ghost(s1), &cs);
        let ghost e2 = self@;
        proof {
            lemma_quiet(s0, e0, s1, e1, s1, e2, term, depth);
            if !e2.exceeded {
                lemma_pairs_parts(s0, e0, s1, e1, term, eq_lits@, eqs, pairs);
                lemma_parts_grow(s1, e1, s1, e2, term);
            }
            if complete(s0, e0) && !e2.exceeded && coherent(s1, e2, term) {
                lemma_pairs_carry(s0, e0, s1, e1, s1, e2, args@, eq_lits@, eqs, pairs);
                assert forall|k: int| 0 <= k < eq_lits@.len() implies covered(
                    s1,
                    e2,
                    #[trigger] eq_lits@[k],
                    eqs[k],
                    Polarity::Both,
                ) by {
                    assert(pair_done(s0, e0, s1, e2, args@, eq_lits@[k], eqs[k], pairs[k]));
                    lemma_pair_coherent(s1, e2, term, eqs[k], pairs[k]);
                }
                assert forall|k: int| 0 <= k < eq_lits@.len() implies has_clause(
                    e2,
                    seq![res.negated(), (#[trigger] eq_lits@[k]).negated()],
                ) by {
                    assert(cs@[k]@ == seq![res.negated(), eq_lits@[k].negated()]);
                }
                assert(cs@[eq_lits@.len() as int]@ == eq_lits@.push(res));
                lemma_distinct_covered(s0, e0, s1, e2, term, res, eq_lits@, eqs, pairs);
            }
        }
        res
    }

    /// A Boolean constant: its variable, and a clause that fixes it.
    fn encode_constant(&mut self, term: TermId, store: &mut TermStore, depth: u32) -> (res: Lit)
        requires
            goal_inv(old(store).terms(), old(self)@),
            term < old(store).terms().len(),
            depth <= ENCODE_DEPTH_LIMIT,
            term == TRUE_TERM || term == FALSE_TERM,
        ensures
            grew(old(store), final(store)),
            encoded(
                old(store).terms(),
                old(self)@,
                final(store).terms(),
                final(self)@,
                term,
                res,
                depth,
            ),
            bvs_kept(
                old(store).sorts@,
                old(store).terms(),
                old(self)@,
                final(store).terms(),
                final(self)@,
            ),
            *final(store) == *old(store),
            res.positive,
            has_clause(
                final(self)@,
                seq![Lit { var: res.var, positive: term == TRUE_TERM }],
            ),
    {
        let ghost s = store.terms();
        let ghost e0 = self@;
        proof {
            lemma_start(s, e0, term, depth);
        }
        let v = self.get_or_create_var(Ghost(s), term);
        let ghost e1 = self@;
        let res = Lit::pos(v);
        let unit = Lit { var: v, positive: term == TRUE_TERM };
        proof {
            lemma_quiet(s, e0, s, e0, s, e1, term, depth);
            assert forall|i: Interp| #[trigger] lit_true(s, i, e1.term_of, unit) by {
                lemma_eval(s, i, term);
            }
            lemma_clause1(s, e1.term_of, unit);
        }
        self.add_valid(Ghost(s), clause1(unit));
        proof {
            let e2 = self@;
            lemma_quiet(s, e0, s, e1, s, e2, term, depth);
            assert(e2.clauses[e1.clauses.len() as int] == seq![unit]);
            assert forall|i: Interp| #[trigger] lit_true(s, i, e2.term_of, res) == holds(
                s,
                i,
                term,
            ) by {}
            assert forall|g: Assignment, i: Interp| #[trigger] agrees(s, e2, g, i) && sat_all(
                g,
                e2.clauses,
            ) implies bounded(Polarity::Both, lit_val(g, res), holds(s, i, term)) by {
                lemma_sat1(g, e2, unit);
                lemma_eval(s, i, term);
            }
        }
        res
    }

    /// A variable: Boolean ones are completed by the theory of equality, numeric
    /// and bit-vector ones are registered with their engines.
    fn encode_variable(&mut self, term: TermId, store: &mut TermStore, depth: u32) -> (res: Lit)
        requires
            goal_inv(old(store).terms(), old(self)@),
            term < old(store).terms().len(),
            depth <= ENCODE_DEPTH_LIMIT,
            old(store).terms()[term as int].op == Op::Var,
        ensures
            grew(old(store), final(store)),
            encoded(
                old(store).terms(),
                old(self)@,
                final(store).terms(),
                final(self)@,
                term,
                res,
                depth,
            ),
            bvs_kept(
                old(store).sorts@,
                old(store).terms(),
                old(self)@,
                final(store).terms(),
                final(self)@,
            ),
            *final(store) == *old(store),
            res == (Lit { var: final(self)@.j.var_of[term], positive: true }),
            final(self)@.j.var_of.contains_key(term),
            old(store).terms()[term as int].sort == BOOL_SORT
                ==> final(self)@.j.constraint.contains_key(res.var),
            numeric_sort(old(store).terms()[term as int].sort) ==> final(self)@.j.arith.contains(
                term,
            ),
            bv_variable(old(store).sorts@, old(store).terms()[term as int])
                ==> final(self)@.j.bv.contains(term),
    {
        let ghost s = store.terms();
        let ghost e0 = self@;
        let sort: usize = store.nodes[term].sort;
        let v = self.get_or_create_var(Ghost(s), term);
        let ghost e1 = self@;
        if sort == BOOL_SORT {
            self.record_constraint(Ghost(s), v, Constraint::BoolApp(term));
        } else {
            proof {
                lemma_step_grow(s, s, e1);
            }
        }
        let ghost e2 = self@;
        proof {
            lemma_step_trans(s, e0, s, e1, s, e2);
        }
        if is_numeric_sort(sort) {
            self.register_arith_atom(Ghost(s), term, sort);
        } else {
            let mut width: Option<u32> = None;
            if sort < store.sorts.len() {
                if let SortKind::BitVec(w) = store.sorts[sort] {
                    width = Some(w);
                }
            }
            if let Some(w) = width {
                self.register_bv_term(Ghost(s), term, w);
            } else {
                proof {
                    lemma_step_grow(s, s, e2);
                }
            }
        }
        proof {
            lemma_step_trans(s, e0, s, e2, s, self@);
            lemma_good_quiet(s, e0, s, self@);
            lemma_atom_covered(s, self@, term, Lit { var: v, positive: true });
        }
        Lit::pos(v)
    }

    /// Any other term: a variable that the theories give its meaning.
    fn encode_atom(&mut self, term: TermId, store: &mut TermStore, depth: u32) -> (res: Lit)
        requires
            goal_inv(old(store).terms(), old(self)@),
            term < old(store).terms().len(),
            depth <= ENCODE_DEPTH_LIMIT,
            !remembered(old(self)@, term),
            !gate(old(store).terms(), term as int),
        ensures
            grew(old(store), final(store)),
            encoded(
                old(store).terms(),
                old(self)@,
                final(store).terms(),
                final(self)@,
                term,
                res,
                depth,
            ),
            bvs_kept(
                old(store).sorts@,
                old(store).terms(),
                old(self)@,
                final(store).terms(),
                final(self)@,
            ),
            *final(store) == *old(store),
            final(self)@.j.memo.contains_key(term) || flags_cover(
                final(self)@,
                old(store).terms()[term as int].op,
            ),
            final(self)@.j.var_of.contains_key(term),
            final(self)@.j.var_of[term] == res.var,
            res.positive,
            old(store).terms()[term as int].op == Op::Apply && old(store).terms()[term as int].sort
                == BOOL_SORT ==> final(self)@.j.constraint.contains_key(res.var),
    {
        let ghost s = store.terms();
        let ghost e0 = self@;
        let op = store.nodes[term].op;
        let v = self.get_or_create_var(Ghost(s), term);
        let res = Lit::pos(v);
        let ghost e1 = self@;
        let mut flagged = false;
        match op {
            Op::Apply => {
                if store.nodes[term].sort == BOOL_SORT {
                    self.record_constraint(Ghost(s), v, Constraint::BoolApp(term));
                }
            },
            Op::Select | Op::Store => {
                self.has_array_ops = true;
                flagged = true;
            },
            Op::BvUdiv | Op::BvSdiv | Op::BvUrem | Op::BvSrem => {
                self.has_bv_arith_ops = true;
                flagged = true;
            },
            Op::Forall | Op::Exists => {
                self.has_quantifiers = true;
                flagged = true;
            },
            _ => {},
        }
        let ghost e2 = self@;
        proof {
            assert(e2.parsed =~= e1.parsed);
            assert(e2.cache =~= e1.cache);
            assert(e2.clauses =~= e1.clauses);
            if flagged {
                lemma_step_flags(s, e1, e2);
            } else if e2 == e1 {
                lemma_step_grow(s, s, e1);
            }
            lemma_step_trans(s, e0, s, e1, s, e2);
            lemma_atom_covered(s, e2, term, res);
        }
        if flagged {
            proof {
                lemma_no_parts(s, e2, term);
            }
            self.memoize_encoding(Ghost(s), term, res, Polarity::Both);
            proof {
                lemma_step_trans(s, e0, s, e2, s, self@);
                lemma_atom_covered(s, self@, term, res);
                lemma_flagged_good(s, e0, e2, self@, term, res);
            }
        } else {
            proof {
                lemma_good_quiet(s, e0, s, e2);
            }
        }
        res
    }

    /// [`GoalState::encode_depth`] of a term that is not remembered yet.
    fn encode_depth_uncached(&mut self, term: TermId, store: &mut TermStore, depth: u32) -> (res: Lit)
        requires
            goal_inv(old(store).terms(), old(self)@),
            term < old(store).terms().len(),
            depth <= ENCODE_DEPTH_LIMIT,
            !remembered(old(self)@, term),
        ensures
            grew(old(store), final(store)),
            encoded(
                old(store).terms(),
                old(self)@,
                final(store).terms(),
                final(self)@,
                term,
                res,
                depth,
            ),
            bvs_kept(
                old(store).sorts@,
                old(store).terms(),
                old(self)@,
                final(store).terms(),
                final(self)@,
            ),
            final(self)@.j.memo.contains_key(term) || (flags_cover(
                final(self)@,
                final(store).terms()[term as int].op,
            ) && attached(final(store).terms(), final(self)@, term)),
            atom_literal(final(store).terms(), final(self)@, term, res),
            bv_variable(old(store).sorts@, old(store).terms()[term as int])
                ==> final(self)@.j.bv.contains(term),
            theory_equation(old(store).terms(), term) ==> branches_tied(
                final(store).terms(),
                final(self)@,
                term,
                Lit { var: final(self)@.j.var_of[term], positive: true },
            ),
            final(self)@.exceeded || parts_encoded(final(store).terms(), final(self)@.j.memo, term),
        decreases ENCODE_DEPTH_LIMIT + 2 - depth, 2int,
    {
        let ghost s0 = store.terms();
        assert(node_below(s0, term as int));
        let op = store.nodes[term].op;
        let res = match op {
            Op::True | Op::False => self.encode_constant(term, store, depth),
            Op::Var => self.encode_variable(term, store, depth),
            Op::Not => self.encode_not(term, store, depth),
            Op::And => self.encode_and(term, store, depth),
            Op::Or => self.encode_or(term, store, depth),
            Op::Xor => self.encode_xor(term, store, depth),
            Op::Implies => self.encode_implies(term, store, depth),
            Op::Ite => self.encode_ite(term, store, depth),
            Op::Eq => {
                if store.nodes[store.nodes[term].args[0]].sort == BOOL_SORT {
                    self.encode_iff(term, store, depth)
                } else {
                    self.encode_theory_eq(term, store, depth)
                }
            },
            Op::Distinct => self.encode_distinct(term, store, depth),
            Op::Let => self.encode_let(term, store, depth),
            Op::Lt | Op::Le | Op::Gt | Op::Ge | Op::BvUlt | Op::BvUle | Op::BvSlt | Op::BvSle => {
                let a: TermId = store.nodes[term].args[0];
                let b: TermId = store.nodes[term].args[1];
                assert(s0[term as int].args =~= seq![a, b]);
                // Signed bit-vector comparisons get no linear form: it would
                // read the operands as unsigned numbers.
                let (constraint, relation) = match op {
                    Op::Lt | Op::BvUlt => (Constraint::Lt(a, b), Some(ArithConstraintType::Lt)),
                    Op::Le | Op::BvUle => (Constraint::Le(a, b), Some(ArithConstraintType::Le)),
                    Op::Gt => (Constraint::Gt(a, b), Some(ArithConstraintType::Gt)),
                    Op::Ge => (Constraint::Ge(a, b), Some(ArithConstraintType::Ge)),
                    Op::BvSlt => (Constraint::Lt(a, b), None),
                    _ => (Constraint::Le(a, b), None),
                };
                self.encode_comparison(term, store, constraint, relation, depth)
            },
            _ => self.encode_atom(term, store, depth),
        };
        proof {
            assert(store.terms()[term as int] == s0[term as int]);
            match op {
                Op::Not | Op::And | Op::Or | Op::Xor | Op::Implies | Op::Ite | Op::Let
                | Op::Distinct | Op::Eq => {},
                _ => lemma_no_parts(store.terms(), self@, term),
            }
        }
        res
    }
}

/// Raising a flag is a step.
proof fn lemma_step_flags(s: Seq<TermView>, e0: GoalView, e1: GoalView)
    requires
        goal_inv(s, e0),
        e1 == (GoalView {
            quantified: e1.quantified,
            arrays: e1.arrays,
            bv_arith: e1.bv_arith,
            ..e0
        }),
        e0.quantified ==> e1.quantified,
        e0.arrays ==> e1.arrays,
        e0.bv_arith ==> e1.bv_arith,
    ensures
        step(s, e0, s, e1),
{
    assert(e1.trail.take(e1.trail.len() as int) =~= e1.trail);
    assert(e1.requests.take(e1.requests.len() as int) =~= e1.requests);
}

/// A flagged term that is remembered right away.
proof fn lemma_flagged_good(
    s: Seq<TermView>,
    e0: GoalView,
    e1: GoalView,
    e2: GoalView,
    term: TermId,
    lit: Lit,
)
    requires
        goal_inv(s, e0),
        term < s.len(),
        step(s, e0, s, e2),
        e1.j.memo == e0.j.memo,
        e2.j.memo == e1.j.memo.insert(term, (lit, Polarity::Both)),
        covered(s, e2, lit, term, Polarity::Both),
        coverage(s, e2, term) == Polarity::Both,
        e2.quantified == (e0.quantified || quantifier_op(s[term as int].op)),
        e2.arrays == (e0.arrays || array_op(s[term as int].op)),
        e2.bv_arith == (e0.bv_arith || bv_arith_op(s[term as int].op)),
        e2.j.const_axioms == e0.j.const_axioms,
        e2.j.care_pairs == e0.j.care_pairs,
    ensures
        good(s, e0, s, e2),
{
    assert(e2.j.memo.contains_key(term));
    assert forall|t: TermId| complete(s, e0) && #[trigger] e2.j.memo.contains_key(t) && coherent(
        s,
        e2,
        t,
    ) implies covered(s, e2, e2.j.memo[t].0, t, coverage(s, e2, t)) by {
        if t != term {
            assert(e0.j.memo.contains_key(t));
            lemma_coherent_extend(s, e0, s, e2, t);
            lemma_covered_step(s, e0, s, e2, e0.j.memo[t].0, t, coverage(s, e0, t));
        }
    }
}

/// The equation `eq` of a pair of arguments has the literal `l`.
spec fn pair_done(
    s0: Seq<TermView>,
    e0: GoalView,
    s: Seq<TermView>,
    e: GoalView,
    args: Seq<TermId>,
    l: Lit,
    eq: TermId,
    pair: (int, int),
) -> bool {
    &&& 0 <= pair.0 < pair.1 < args.len()
    &&& arg_ok(s0, e0, s, e, eq, l)
    &&& equation_at(s, args[pair.0], args[pair.1], eq)
}

spec fn pairs_done(
    s0: Seq<TermView>,
    e0: GoalView,
    s: Seq<TermView>,
    e: GoalView,
    args: Seq<TermId>,
    lits: Seq<Lit>,
    eqs: Seq<TermId>,
    pairs: Seq<(int, int)>,
) -> bool {
    &&& lits.len() == eqs.len() == pairs.len()
    &&& forall|k: int|
        0 <= k < lits.len() ==> pair_done(s0, e0, s, e, args, #[trigger] lits[k], eqs[k], pairs[k])
}

/// Where all pairs have their equations, the parts of a distinction are encoded.
proof fn lemma_pairs_parts(
    s0: Seq<TermView>,
    e0: GoalView,
    s: Seq<TermView>,
    e: GoalView,
    term: TermId,
    lits: Seq<Lit>,
    eqs: Seq<TermId>,
    pairs: Seq<(int, int)>,
)
    requires
        s[term as int].op == Op::Distinct,
        !e.exceeded,
        pairs_done(s0, e0, s, e, s[term as int].args, lits, eqs, pairs),
        forall|p: int, q: int|
            0 <= p < q < s[term as int].args.len() ==> pairs.contains((p, q)),
    ensures
        parts_encoded(s, e.j.memo, term),
{
    let args = s[term as int].args;
    assert forall|j: int, k: int| 0 <= j < k < args.len() implies pair_encoded(
        s,
        e.j.memo,
        #[trigger] args[j],
        #[trigger] args[k]) by {
        assert(pairs.contains((j, k)));
        let n = choose|n: int| 0 <= n < pairs.len() && pairs[n] == (j, k);
        assert(pair_done(s0, e0, s, e, args, lits[n], eqs[n], pairs[n]));
        assert(equation_at(s, args[j], args[k], eqs[n]));
    }
    lemma_parts_pairs(s, e, term);
}

proof fn lemma_pairs_carry(
    s0: Seq<TermView>,
    e0: GoalView,
    s1: Seq<TermView>,
    e1: GoalView,
    s2: Seq<TermView>,
    e2: GoalView,
    args: Seq<TermId>,
    lits: Seq<Lit>,
    eqs: Seq<TermId>,
    pairs: Seq<(int, int)>,
)
    requires
        goal_inv(s1, e1),
        good(s1, e1, s2, e2),
        pairs_done(s0, e0, s1, e1, args, lits, eqs, pairs),
    ensures
        pairs_done(s0, e0, s2, e2, args, lits, eqs, pairs),
{
    assert forall|k: int| 0 <= k < lits.len() implies pair_done(
        s0,
        e0,
        s2,
        e2,
        args,
        #[trigger] lits[k],
        eqs[k],
        pairs[k],
    ) by {
        lemma_arg_carry(s0, e0, s1, e1, s2, e2, eqs[k], lits[k]);
        assert(s2[eqs[k] as int] == s1[eqs[k] as int]);
    }
}

proof fn lemma_pair_weight(
    s0: Seq<TermView>,
    s: Seq<TermView>,
    term: TermId,
    a: TermId,
    b: TermId,
    eq: TermId,
)
    requires
        terms_wf(s0),
        terms_wf(s),
        extends(s0, s),
        term < s0.len(),
        a < s0.len(),
        b < s0.len(),
        s0[term as int].op == Op::Distinct,
        weight(s0, a as int) + weight(s0, b as int) + 3 <= weight(s0, term as int),
        equation_at(s, a, b, eq),
    ensures
        weight(s, eq as int) + 1 <= weight(s0, term as int),
{
    lemma_weight_extend(s0, s, a as int);
    lemma_weight_extend(s0, s, b as int);
    assert(node_below(s, eq as int));
    if a == b {
        assert(s[eq as int].args.len() == 0);
        assert(weight_from(s, eq as int, 0) == 0);
    } else {
        assert(weight_from(s, eq as int, 2) == 0);
        assert(weight_from(s, eq as int, 1) == weight(s, b as int));
        assert(weight_from(s, eq as int, 0) == weight(s, a as int) + weight(s, b as int));
    }
}

/// Arguments are distinct exactly where none of the equations holds.
proof fn lemma_distinct_holds(
    s0: Seq<TermView>,
    e0: GoalView,
    s: Seq<TermView>,
    e: GoalView,
    term: TermId,
    lits: Seq<Lit>,
    eqs: Seq<TermId>,
    pairs: Seq<(int, int)>,
    i: Interp,
)
    requires
        terms_wf(s),
        term < s.len(),
        s[term as int].op == Op::Distinct,
        pairs_done(s0, e0, s, e, s[term as int].args, lits, eqs, pairs),
        forall|p: int, q: int|
            0 <= p < q < s[term as int].args.len() ==> pairs.contains((p, q)),
    ensures
        holds(s, i, term) == forall|k: int|
            0 <= k < lits.len() ==> !holds(s, i, #[trigger] eqs[k]),
{
    let args = s[term as int].args;
    assert(node_below(s, term as int));
    lemma_eval(s, i, term);
    let vals = eval_args(s, i, args);
    assert forall|k: int| 0 <= k < lits.len() implies holds(
        s,
        i,
        eqs[k],
    ) == eqv(
        s[args[pairs[k].0] as int].sort,
        vals[pairs[k].0],
        vals[pairs[k].1],
    ) by {
        assert(pair_done(s0, e0, s, e, args, lits[k], eqs[k], pairs[k]));
        lemma_equation_extend(s, s, args[pairs[k].0], args[pairs[k].1], eqs[k]);
    }
    let ss = crate::semantics::arg_sorts(s, s[term as int]);
    if holds(s, i, term) {
        assert forall|k: int| 0 <= k < lits.len() implies !holds(s, i, #[trigger] eqs[k]) by {
            assert(pair_done(s0, e0, s, e, args, lits[k], eqs[k], pairs[k]));
            assert(!eqv(ss[pairs[k].0], vals[pairs[k].0], vals[pairs[k].1]));
        }
    }
    if forall|k: int| 0 <= k < lits.len() ==> !holds(s, i, #[trigger] eqs[k]) {
        assert forall|p: int, q: int| 0 <= p < q < vals.len() implies !eqv(
            ss[p],
            #[trigger] vals[p],
            #[trigger] vals[q],
        ) by {
            assert(pairs.contains((p, q)));
            let k = choose|k: int| 0 <= k < pairs.len() && pairs[k] == (p, q);
            assert(!holds(s, i, eqs[k]));
        }
    }
}

/// The clauses of `distinct` are true in every interpretation.
proof fn lemma_distinct_valid(
    s0: Seq<TermView>,
    e0: GoalView,
    s: Seq<TermView>,
    e: GoalView,
    term: TermId,
    res: Lit,
    lits: Seq<Lit>,
    eqs: Seq<TermId>,
    pairs: Seq<(int, int)>,
)
    requires
        terms_wf(s),
        term < s.len(),
        s[term as int].op == Op::Distinct,
        means(s, e.term_of, res, term),
        pairs_done(s0, e0, s, e, s[term as int].args, lits, eqs, pairs),
        forall|p: int, q: int|
            0 <= p < q < s[term as int].args.len() ==> pairs.contains((p, q)),
    ensures
        forall|k: int|
            0 <= k < lits.len() ==> valid_clause(
                s,
                e.term_of,
                seq![res.negated(), (#[trigger] lits[k]).negated()],
            ),
        valid_clause(s, e.term_of, lits.push(res)),
{
    let f = e.term_of;
    let args = s[term as int].args;
    assert forall|i: Interp| (#[trigger] lit_true(s, i, f, res) == forall|k: int|
        0 <= k < lits.len() ==> !lit_true(s, i, f, #[trigger] lits[k])) by {
        lemma_distinct_holds(s0, e0, s, e, term, lits, eqs, pairs, i);
        assert forall|k: int| 0 <= k < lits.len() implies lit_true(s, i, f, #[trigger] lits[k])
            == holds(s, i, eqs[k]) by {
            assert(pair_done(s0, e0, s, e, args, lits[k], eqs[k], pairs[k]));
        }
        if forall|k: int| 0 <= k < lits.len() ==> !lit_true(s, i, f, #[trigger] lits[k]) {
            assert forall|k: int| 0 <= k < lits.len() implies !holds(s, i, #[trigger] eqs[k]) by {
                assert(!lit_true(s, i, f, lits[k]));
            }
        } else {
            let k = choose|k: int| 0 <= k < lits.len() && lit_true(s, i, f, #[trigger] lits[k]);
            assert(holds(s, i, eqs[k]));
        }
    }
    assert forall|k: int| 0 <= k < lits.len() implies valid_clause(
        s,
        f,
        seq![res.negated(), (#[trigger] lits[k]).negated()],
    ) by {
        assert(pair_done(s0, e0, s, e, args, lits[k], eqs[k], pairs[k]));
        let n = res.negated();
        let m = lits[k].negated();
        assert forall|i: Interp| #[trigger] lit_true(s, i, f, n) || lit_true(
            s,
            i,
            f,
            m,
        ) by {
            assert(lit_true(s, i, f, res) == !lit_true(s, i, f, n));
            assert(lit_true(s, i, f, lits[k]) == !lit_true(s, i, f, m));
        }
        lemma_clause2(s, f, n, m);
    }
    let c = lits.push(res);
    assert forall|k: int| 0 <= k < c.len() implies (#[trigger] c[k]).var < f.len() by {
        if k < lits.len() {
            assert(pair_done(s0, e0, s, e, args, lits[k], eqs[k], pairs[k]));
        }
    }
    assert forall|i: Interp| #[trigger] clause_true(s, i, f, c) by {
        if lit_true(s, i, f, res) {
            assert(c[lits.len() as int] == res);
        } else {
            let k = choose|k: int| 0 <= k < lits.len() && lit_true(s, i, f, #[trigger] lits[k]);
            assert(c[k] == lits[k]);
        }
    }
}

/// The equation of two arguments inherits coherence from `distinct`.
proof fn lemma_pair_coherent(
    s: Seq<TermView>,
    e: GoalView,
    term: TermId,
    eq: TermId,
    pair: (int, int),
)
    requires
        terms_wf(s),
        term < s.len(),
        s[term as int].op == Op::Distinct,
        coherent(s, e, term),
        0 <= pair.0 < pair.1 < s[term as int].args.len(),
        equation_at(s, s[term as int].args[pair.0], s[term as int].args[pair.1], eq),
    ensures
        coherent(s, e, eq),
        coverage(s, e, eq) == Polarity::Both,
{
    assert(node_below(s, term as int));
    assert(node_below(s, eq as int));
    let args = s[term as int].args;
    let a = args[pair.0];
    let b = args[pair.1];
    if a != b {
        assert(s[eq as int].args[0] == a && s[eq as int].args[1] == b);
        if connective(s, eq as int) {
            if pair.0 > 0 {
                assert(s[args[0] as int].sort == s[args[pair.0] as int].sort);
            }
            assert(connective(s, term as int));
            assert(coherent(s, e, args[pair.0]));
            assert(coherent(s, e, args[pair.1]));
            assert(polarity_of(e, args[pair.0]) == Polarity::Both);
            assert(polarity_of(e, args[pair.1]) == Polarity::Both);
        }
    }
}

/// The clauses of `distinct` derive its value from those of the equations.
proof fn lemma_distinct_covered(
    s0: Seq<TermView>,
    e0: GoalView,
    s: Seq<TermView>,
    e: GoalView,
    term: TermId,
    res: Lit,
    lits: Seq<Lit>,
    eqs: Seq<TermId>,
    pairs: Seq<(int, int)>,
)
    requires
        terms_wf(s),
        term < s.len(),
        s[term as int].op == Op::Distinct,
        pairs_done(s0, e0, s, e, s[term as int].args, lits, eqs, pairs),
        forall|p: int, q: int|
            0 <= p < q < s[term as int].args.len() ==> pairs.contains((p, q)),
        forall|k: int|
            0 <= k < lits.len() ==> covered(s, e, #[trigger] lits[k], eqs[k], Polarity::Both),
        forall|k: int|
            0 <= k < lits.len() ==> has_clause(
                e,
                seq![res.negated(), (#[trigger] lits[k]).negated()],
            ),
        has_clause(e, lits.push(res)),
    ensures
        covered(s, e, res, term, Polarity::Both),
{
    assert forall|g: Assignment, i: Interp| #[trigger] agrees(s, e, g, i) && sat_all(
        g,
        e.clauses,
    ) implies bounded(Polarity::Both, lit_val(g, res), holds(s, i, term)) by {
        lemma_distinct_holds(s0, e0, s, e, term, lits, eqs, pairs, i);
        assert forall|k: int| 0 <= k < lits.len() implies lit_val(g, #[trigger] lits[k]) == holds(
            s,
            i,
            eqs[k],
        ) by {
            assert(covered(s, e, lits[k], eqs[k], Polarity::Both));
        }
        if lit_val(g, res) {
            assert forall|k: int| 0 <= k < lits.len() implies !holds(s, i, #[trigger] eqs[k]) by {
                assert(has_clause(e, seq![res.negated(), lits[k].negated()]));
                lemma_sat2(g, e, res.negated(), lits[k].negated());
                assert(!lit_val(g, lits[k]));
            }
        } else {
            let c = lits.push(res);
            let j = choose|j: int| 0 <= j < e.clauses.len() && #[trigger] e.clauses[j] == c;
            assert(clause_sat(g, e.clauses[j]));
            let k = choose|k: int| 0 <= k < c.len() && lit_val(g, #[trigger] c[k]);
            assert(c[k] == lits[k]);
            assert(holds(s, i, eqs[k]));
        }
    }
}

/// An atom's variable has the value that agreement with an interpretation gives
/// it.
proof fn lemma_atom_covered(s: Seq<TermView>, e: GoalView, term: TermId, l: Lit)
    requires
        !gate(s, term as int),
        e.j.var_of.contains_key(term),
        l == (Lit { var: e.j.var_of[term], positive: true }),
    ensures
        covered(s, e, l, term, Polarity::Both),
        coverage(s, e, term) == Polarity::Both,
{
}

/// What an equation means, in a longer store.
proof fn lemma_equation_extend(
    s: Seq<TermView>,
    s1: Seq<TermView>,
    a: TermId,
    x: TermId,
    eq: TermId,
)
    requires
        terms_wf(s),
        terms_wf(s1),
        extends(s, s1),
        a < s.len(),
        x < s.len(),
        eq < s.len(),
        if a == x {
            eq == TRUE_TERM
        } else {
            s[eq as int].op == Op::Eq && s[eq as int].args == seq![a, x]
        },
    ensures
        if a == x {
            eq == TRUE_TERM
        } else {
            s1[eq as int].op == Op::Eq && s1[eq as int].args == seq![a, x]
        },
        forall|i: Interp| #[trigger]
            holds(s1, i, eq) == eqv(
                s1[a as int].sort,
                eval(s1, i, a as int),
                eval(s1, i, x as int),
            ),
{
    assert(s1[eq as int] == s[eq as int]);
    assert(s1[a as int] == s[a as int]);
    assert forall|i: Interp| #[trigger] holds(s1, i, eq) == eqv(
        s1[a as int].sort,
        eval(s1, i, a as int),
        eval(s1, i, x as int),
    ) by {
        lemma_eval(s1, i, eq);
        if a != x {
            let vals = eval_args(s1, i, s1[eq as int].args);
            assert(vals[0] == eval(s1, i, a as int));
            assert(vals[1] == eval(s1, i, x as int));
        }
    }
}

proof fn lemma_ite_equation_weight(s: Seq<TermView>, term: TermId, a: TermId, b: TermId)
    requires
        terms_wf(s),
        term < s.len(),
        s[term as int].op == Op::Eq,
        (s[term as int].args[0] == a && s[term as int].args[1] == b) || (s[term as int].args[0] == b
            && s[term as int].args[1] == a),
        s[b as int].op == Op::Ite,
    ensures
        a < s.len(),
        b < s.len(),
        forall|k: int|
            0 <= k < 3 ==> weight(s, a as int) + weight(s, #[trigger] s[b as int].args[k] as int)
                + 4 <= weight(s, term as int),
{
    assert(node_below(s, term as int));
    assert(node_below(s, b as int));
    lemma_weight_pair(s, term as int, 0, 1);
    assert forall|k: int| 0 <= k < 3 implies weight(s, a as int) + weight(
        s,
        #[trigger] s[b as int].args[k] as int,
    ) + 4 <= weight(s, term as int) by {
        lemma_weight_arg(s, b as int, k);
    }
}

proof fn lemma_equation_weight(
    s0: Seq<TermView>,
    s: Seq<TermView>,
    term: TermId,
    a: TermId,
    b: TermId,
    x: TermId,
    eq: TermId,
)
    requires
        terms_wf(s0),
        terms_wf(s),
        extends(s0, s),
        term < s0.len(),
        a < s0.len(),
        x < s0.len(),
        weight(s0, a as int) + weight(s0, x as int) + 4 <= weight(s0, term as int),
        eq < s.len(),
        if a == x {
            eq == TRUE_TERM
        } else {
            s[eq as int].op == Op::Eq && s[eq as int].args == seq![a, x]
        },
    ensures
        weight(s, eq as int) + 1 <= weight(s0, term as int),
{
    lemma_weight_extend(s0, s, a as int);
    lemma_weight_extend(s0, s, x as int);
    assert(node_below(s, eq as int));
    if a == x {
        assert(s[eq as int].args.len() == 0);
        assert(weight_from(s, eq as int, 0) == 0);
    } else {
        assert(weight_from(s, eq as int, 2) == 0);
        assert(weight_from(s, eq as int, 1) == weight(s, x as int));
        assert(weight_from(s, eq as int, 0) == weight(s, a as int) + weight(s, x as int));
    }
}

/// The clauses of an equation with a conditional are true in every
/// interpretation.
proof fn lemma_ite_equation_valid(
    s: Seq<TermView>,
    f: Seq<TermId>,
    term: TermId,
    a: TermId,
    b: TermId,
    eq: Lit,
    c: Lit,
    eq_then: TermId,
    l: Lit,
    eq_else: TermId,
    r: Lit,
)
    requires
        terms_wf(s),
        term < s.len(),
        s[term as int].op == Op::Eq,
        s[s[term as int].args[0] as int].sort != BOOL_SORT,
        (s[term as int].args[0] == a && s[term as int].args[1] == b) || (s[term as int].args[0] == b
            && s[term as int].args[1] == a),
        s[b as int].op == Op::Ite,
        means(s, f, eq, term),
        means(s, f, c, s[b as int].args[0]),
        means(s, f, l, eq_then),
        means(s, f, r, eq_else),
        forall|i: Interp| #[trigger]
            holds(s, i, eq_then) == eqv(
                s[a as int].sort,
                eval(s, i, a as int),
                eval(s, i, s[b as int].args[1] as int),
            ),
        forall|i: Interp| #[trigger]
            holds(s, i, eq_else) == eqv(
                s[a as int].sort,
                eval(s, i, a as int),
                eval(s, i, s[b as int].args[2] as int),
            ),
    ensures
        valid_clause(s, f, seq![eq.negated(), c.negated(), l]),
        valid_clause(s, f, seq![eq.negated(), c, r]),
{
    assert(node_below(s, term as int));
    assert(node_below(s, b as int));
    let args = s[b as int].args;
    let n = eq.negated();
    let m = c.negated();
    assert forall|i: Interp| (#[trigger] lit_true(s, i, f, n) || lit_true(
        s,
        i,
        f,
        m,
    ) || lit_true(s, i, f, l)) && (lit_true(s, i, f, n) || lit_true(s, i, f, c) || lit_true(
        s,
        i,
        f,
        r,
    )) by {
        lemma_eval(s, i, term);
        lemma_eval(s, i, b);
        let vals = eval_args(s, i, s[term as int].args);
        assert(vals[0] == eval(s, i, s[term as int].args[0] as int));
        assert(vals[1] == eval(s, i, s[term as int].args[1] as int));
        let parts = eval_args(s, i, args);
        assert(parts[0] == eval(s, i, args[0] as int));
        assert(parts[1] == eval(s, i, args[1] as int));
        assert(parts[2] == eval(s, i, args[2] as int));
        assert(lit_true(s, i, f, eq) == holds(s, i, term));
        assert(lit_true(s, i, f, c) == holds(s, i, args[0]));
        assert(lit_true(s, i, f, l) == holds(s, i, eq_then));
        assert(lit_true(s, i, f, r) == holds(s, i, eq_else));
    }
    lemma_clause3(s, f, n, m, l);
    lemma_clause3(s, f, n, c, r);
}

/// Encoded atoms reach the theories: a comparison, an equation, a Boolean
/// variable or application has its constraint at its variable, with its operands
/// asked for; a Boolean variable or application stands for itself; what has a
/// linear form has it at its variable; and a numeric variable is registered.
pub proof fn encoded_atoms_reach_the_theories(s: Seq<TermView>, e: GoalView, t: TermId)
    requires
        goal_inv(s, e),
        e.j.memo.contains_key(t),
    ensures
        theory_atom(s, t) ==> {
            let v = e.j.var_of[t];
            &&& e.j.memo[t].0 == (Lit { var: v, positive: true })
            &&& e.j.constraint.contains_key(v)
            &&& constraint_ok(s[t as int], t, e.j.constraint[v])
            &&& operands_requested(e.requests, e.j.constraint[v])
        },
        (s[t as int].op == Op::Var || s[t as int].op == Op::Apply) && s[t as int].sort == BOOL_SORT
            ==> e.j.constraint[e.j.var_of[t]] == Constraint::BoolApp(t),
        linear_atom(s, t) && !parses_as(s, s[t as int].args[0], s[t as int].args[1], None) ==> {
            let v = e.j.var_of[t];
            &&& e.parsed.contains_key(v)
            &&& e.parsed[v].reason_term == t
            &&& relation_of(s[t as int].op) == Some(e.parsed[v].constraint_type)
            &&& parses_as(s, s[t as int].args[0], s[t as int].args[1], Some(e.parsed[v]))
        },
        s[t as int].op == Op::Var && numeric_sort(s[t as int].sort) ==> e.j.arith.contains(t),
{
    assert(attached(s, e, t) && atom_literal(s, e, t, e.j.memo[t].0));
    if theory_atom(s, t) {
        let v = e.j.var_of[t];
        assert(e.term_of[v as int] == t);
        assert(e.j.constraint.contains_key(v));
    }
    if linear_atom(s, t) && !parses_as(s, s[t as int].args[0], s[t as int].args[1], None) {
        assert(e.parsed.contains_key(e.j.var_of[t]));
    }
}

/// `x` is the formula `t`, or one that it is built of by connectives.
pub open spec fn built_of(s: Seq<TermView>, t: TermId, x: TermId) -> bool
    decreases t,
{
    let args = s[t as int].args;
    x == t || match s[t as int].op {
        Op::Not | Op::And | Op::Or | Op::Xor | Op::Implies | Op::Ite => exists|k: int|
            0 <= k < args.len() && (#[trigger] args[k]) < t && built_of(s, args[k], x),
        Op::Let => args[0] < t && built_of(s, args[0], x),
        Op::Eq => s[args[0] as int].sort == BOOL_SORT && ((args[0] < t && built_of(s, args[0], x))
            || (args[1] < t && built_of(s, args[1], x))),
        _ => false,
    }
}

/// Where nothing was nested too deeply, every formula that an encoded one is
/// built of is encoded: so every theory atom in it reaches the theories.
pub proof fn encoded_formulas_reach_their_atoms(
    s: Seq<TermView>,
    e: GoalView,
    t: TermId,
    x: TermId,
)
    requires
        goal_inv(s, e),
        !e.exceeded,
        e.j.memo.contains_key(t),
        built_of(s, t, x),
    ensures
        e.j.memo.contains_key(x),
    decreases t,
{
    reveal(parts_encoded);
    assert(node_below(s, t as int));
    let args = s[t as int].args;
    if x != t {
        match s[t as int].op {
            Op::Not | Op::And | Op::Or | Op::Xor | Op::Implies | Op::Ite => {
                let k = choose|k: int|
                    0 <= k < args.len() && (#[trigger] args[k]) < t && built_of(s, args[k], x);
                encoded_formulas_reach_their_atoms(s, e, args[k], x);
            },
            Op::Let => encoded_formulas_reach_their_atoms(s, e, args[0], x),
            Op::Eq => {
                if args[0] < t && built_of(s, args[0], x) {
                    encoded_formulas_reach_their_atoms(s, e, args[0], x);
                } else {
                    encoded_formulas_reach_their_atoms(s, e, args[1], x);
                }
            },
            _ => {},
        }
    }
}

/// A term that was encoded keeps its literal: whatever was encoded since, the
/// literal is still remembered for the directions that are needed.
pub proof fn terms_keep_their_literals(
    s0: Seq<TermView>,
    e0: GoalView,
    s1: Seq<TermView>,
    e1: GoalView,
    t: TermId,
)
    requires
        step(s0, e0, s1, e1),
        remembered(e0, t),
    ensures
        remembered(e1, t),
        e1.j.memo[t].0 == e0.j.memo[t].0,
{
}

/// The term is of a bit-vector sort.
pub open spec fn bv_term(kinds: Seq<SortKind>, node: TermView) -> bool {
    !numeric_sort(node.sort) && node.sort < kinds.len() && kinds[node.sort as int] is BitVec
}

/// The listed terms that `kind` admits were added.
pub open spec fn terms_added(
    before: Set<TermId>,
    after: Set<TermId>,
    list: Seq<TermId>,
    kind: spec_fn(TermId) -> bool,
) -> bool {
    forall|t: TermId| #[trigger]
        after.contains(t) <==> before.contains(t) || (list.contains(t) && kind(t))
}

impl GoalState {
    /// Registers terms below the operands of theory atoms: numbers with the
    /// arithmetic engine, bit vectors with theirs, and no others.
    pub fn register_theory_terms(&mut self, store: &TermStore, list: &Vec<TermId>)
        requires
            goal_inv(store.terms(), old(self)@),
            store.wf(),
            forall|k: int| 0 <= k < list@.len() ==> (#[trigger] list@[k]) < store.terms().len(),
        ensures
            step(store.terms(), old(self)@, store.terms(), final(self)@),
            final(self)@ == (GoalView {
                j: Journaled {
                    arith: final(self)@.j.arith,
                    bv: final(self)@.j.bv,
                    ..old(self)@.j
                },
                trail: final(self)@.trail,
                requests: final(self)@.requests,
                ..old(self)@
            }),
            terms_added(
                old(self)@.j.arith,
                final(self)@.j.arith,
                list@,
                |t: TermId| numeric_sort(store.terms()[t as int].sort),
            ),
            terms_added(
                old(self)@.j.bv,
                final(self)@.j.bv,
                list@,
                |t: TermId| bv_term(store.sorts@, store.terms()[t as int]),
            ),
    {
        let ghost s = store.terms();
        let ghost e0 = self@;
        let ghost number = |t: TermId| numeric_sort(s[t as int].sort);
        let ghost bits = |t: TermId| bv_term(store.sorts@, s[t as int]);
        let mut n: usize = 0;
        proof {
            lemma_step_grow(s, s, e0);
            assert(list@.take(0) =~= Seq::<TermId>::empty());
        }
        while n < list.len()
            invariant
                n <= list.len(),
                store.wf(),
                s == store.terms(),
                forall|k: int| 0 <= k < list@.len() ==> (#[trigger] list@[k]) < s.len(),
                e0 == old(self)@,
                goal_inv(s, e0),
                step(s, e0, s, self@),
                self@ == (GoalView {
                    j: Journaled { arith: self@.j.arith, bv: self@.j.bv, ..e0.j },
                    trail: self@.trail,
                    requests: self@.requests,
                    ..e0
                }),
                number == (|t: TermId| numeric_sort(s[t as int].sort)),
                bits == (|t: TermId| bv_term(store.sorts@, s[t as int])),
                terms_added(e0.j.arith, self@.j.arith, list@.take(n as int), number),
                terms_added(e0.j.bv, self@.j.bv, list@.take(n as int), bits),
            decreases list.len() - n,
        {
            let t: TermId = list[n];
            let ghost e1 = self@;
            let ghost pre = list@.take(n as int);
            let ghost all = list@.take(n + 1);
            assert(list@[n as int] < s.len());
            let sort = store.nodes[t].sort;
            proof {
                assert(all =~= pre.push(t));
                crate::domains::lemma_push_contains(pre, t);
                lemma_step_grow(s, s, e1);
            }
            if is_numeric_sort(sort) {
                self.register_arith_atom(Ghost(s), t, sort);
            } else if sort < store.sorts.len() {
                if let SortKind::BitVec(w) = store.sorts[sort] {
                    self.register_bv_term(Ghost(s), t, w);
                }
            }
            proof {
                lemma_step_trans(s, e0, s, e1, s, self@);
                assert forall|x: TermId| #[trigger] self@.j.arith.contains(x) <==> e0.j.arith.contains(x)
                    || (all.contains(x) && number(x)) by {
                    assert(all.contains(x) <==> pre.contains(x) || x == t);
                    assert(e1.j.arith.contains(x) <==> e0.j.arith.contains(x) || (pre.contains(x)
                        && number(x)));
                }
                assert forall|x: TermId| #[trigger] self@.j.bv.contains(x) <==> e0.j.bv.contains(x)
                    || (all.contains(x) && bits(x)) by {
                    assert(all.contains(x) <==> pre.contains(x) || x == t);
                    assert(e1.j.bv.contains(x) <==> e0.j.bv.contains(x) || (pre.contains(x) && bits(
                        x,
                    )));
                }
            }
            n = n + 1;
        }
        assert(list@.take(list@.len() as int) =~= list@);
    }
}

} // verus!
