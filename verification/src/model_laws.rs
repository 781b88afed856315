//! What the values of a model are worth.

use crate::collections::ascending;
use crate::ite_table::int_literal;
use crate::model::{
    bits_count, entry, model_built, model_value, pin_of, pinned_value, truth_of, EngineValues,
};
use crate::numbers::{signed_value, Rat};
use crate::semantics::{eval, holds, lemma_eval, num, Interp};
use crate::state::{Constraint, GoalView, Var};
use crate::terms::{
    terms_wf, DataView, Op, SortKind, TermId, TermView, FALSE_TERM, INT_SORT, REAL_SORT, TRUE_TERM,
};
use vstd::prelude::*;

verus! {

/// The assignment makes an equation of `t` with `c` true.
pub open spec fn truly_equated(
    e: GoalView,
    sat: Seq<Option<bool>>,
    v: Var,
    t: TermId,
    c: TermId,
) -> bool {
    &&& e.j.constraint.contains_key(v)
    &&& e.j.constraint[v] == Constraint::Eq(t, c) || e.j.constraint[v] == Constraint::Eq(c, t)
    &&& v < sat.len() && sat[v as int] == Some(true)
}

/// No true equation has `t` on a side.
pub open spec fn free_of_equations(e: GoalView, sat: Seq<Option<bool>>, t: TermId) -> bool {
    forall|v: Var, c: TermId| !#[trigger] truly_equated(e, sat, v, t, c)
}

/// The assignment says nothing of the term as a formula.
pub open spec fn no_formula(e: GoalView, sat: Seq<Option<bool>>, t: TermId) -> bool {
    e.j.var_of.contains_key(t) ==> e.j.var_of[t] >= sat.len() || sat[e.j.var_of[t] as int] is None
}

proof fn lemma_pin_is_true(
    s: Seq<TermView>,
    sorts: Seq<SortKind>,
    e: GoalView,
    sat: Seq<Option<bool>>,
    vars: Seq<Var>,
    n: int,
    t: TermId,
)
    requires
        0 <= n <= vars.len(),
        forall|k: int| 0 <= k < vars.len() ==> e.j.constraint.contains_key(#[trigger] vars[k]),
    ensures
        pinned_value(s, sorts, e, sat, vars, n, t) matches Some(c) ==> (exists|v: Var| #[trigger]
            truly_equated(e, sat, v, t, c)) && c < s.len() && s[c as int].op != Op::Var
            && s[c as int].op != Op::Apply,
    decreases n,
{
    if n > 0 {
        lemma_pin_is_true(s, sorts, e, sat, vars, n - 1, t);
        let v = vars[n - 1];
        assert(e.j.constraint.contains_key(vars[n - 1]));
        if let Some((x, c)) = pin_of(s, sorts, e, e.j.constraint[v]) {
            if x == t && truth_of(sat, v) == Some(true) {
                assert(truly_equated(e, sat, v, t, c));
            }
        }
    }
}

proof fn lemma_pin_is_found(
    s: Seq<TermView>,
    sorts: Seq<SortKind>,
    e: GoalView,
    sat: Seq<Option<bool>>,
    vars: Seq<Var>,
    n: int,
    t: TermId,
    k: int,
    c: TermId,
)
    requires
        0 <= k < n <= vars.len(),
        truth_of(sat, vars[k]) == Some(true),
        pin_of(s, sorts, e, e.j.constraint[vars[k]]) == Some((t, c)),
    ensures
        pinned_value(s, sorts, e, sat, vars, n, t) is Some,
    decreases n,
{
    if k < n - 1 {
        lemma_pin_is_found(s, sorts, e, sat, vars, n - 1, t, k, c);
    }
}

proof fn lemma_vars(vars: Seq<Var>, e: GoalView)
    requires
        vars.to_set() == e.j.constraint.dom(),
    ensures
        forall|k: int| 0 <= k < vars.len() ==> e.j.constraint.contains_key(#[trigger] vars[k]),
{
    assert forall|k: int| 0 <= k < vars.len() implies e.j.constraint.contains_key(
        #[trigger] vars[k],
    ) by {
        assert(vars.to_set().contains(vars[k]));
    }
}

/// The value of an arithmetic term that no true equation has on a side is the
/// number that the arithmetic engine reports, and 0 where it reports none.
pub proof fn arithmetic_values_are_exact(
    s0: Seq<TermView>,
    s: Seq<TermView>,
    sorts: Seq<SortKind>,
    e: GoalView,
    values: &EngineValues,
    m: Map<TermId, TermId>,
    i: Interp,
    t: TermId,
)
    requires
        terms_wf(s),
        model_built(s0, s, sorts, e, values, m),
        e.j.arith.contains(t),
        t < s.len(),
        free_of_equations(e, values.sat@, t),
        no_formula(e, values.sat@, t),
        values.arith@.contains_key(t) ==> values.arith@[t].wf() && (s[t as int].sort == INT_SORT
            ==> values.arith@[t].den == 1),
    ensures
        m.contains_key(t),
        m[t] < s.len(),
        num(eval(s, i, m[t] as int)) == (if values.arith@.contains_key(t) {
            values.arith@[t].value()
        } else {
            0real
        }),
        s[m[t] as int].sort == (if s[t as int].sort == INT_SORT {
            INT_SORT
        } else {
            REAL_SORT
        }),
        s[m[t] as int].args.len() == 0,
{
    let vars = choose|vars: Seq<Var>|
        #[trigger] ascending(vars) && vars.to_set() == e.j.constraint.dom() && forall|t: TermId|
            model_value(
                s,
                sorts,
                e,
                values,
                vars,
                bits_count(s0, sorts, e),
                t,
                #[trigger] entry(m, t),
            );
    lemma_vars(vars, e);
    lemma_pin_is_true(s, sorts, e, values.sat@, vars, vars.len() as int, t);
    assert(model_value(s, sorts, e, values, vars, bits_count(s0, sorts, e), t, entry(m, t)));
    let v = m[t];
    lemma_eval(s, i, v);
    if values.arith@.contains_key(t) && s[t as int].sort == INT_SORT {
        let r = values.arith@[t];
        crate::numbers::lemma_word_digits(crate::numbers::magnitude(r.num as int));
        assert(r.num as real / 1real == r.num as real) by (nonlinear_arith);
    } else {
        crate::numbers::lemma_word_digits(0);
        assert(0real / 1real == 0real) by (nonlinear_arith);
    }
}

/// Where the assignment makes an equation of a number, a bit vector or an
/// application with a constant true, the value is a constant that a true equation
/// states.
pub proof fn equated_values_are_stated(
    s0: Seq<TermView>,
    s: Seq<TermView>,
    sorts: Seq<SortKind>,
    e: GoalView,
    values: &EngineValues,
    m: Map<TermId, TermId>,
    t: TermId,
    v: Var,
    c: TermId,
)
    requires
        model_built(s0, s, sorts, e, values, m),
        e.j.arith.contains(t) || e.j.bv.contains(t) || (t < s.len() && s[t as int].op == Op::Apply),
        e.j.constraint.contains_key(v),
        e.j.constraint[v] == Constraint::Eq(t, c),
        v < values.sat@.len() && values.sat@[v as int] == Some(true),
        c < s.len(),
        s[c as int].op == Op::RealConst || s[c as int].op == Op::StringLit,
    ensures
        m.contains_key(t),
        exists|w: Var| #[trigger] truly_equated(e, values.sat@, w, t, m[t]),
        m[t] < s.len() && s[m[t] as int].op != Op::Var && s[m[t] as int].op != Op::Apply,
{
    let vars = choose|vars: Seq<Var>|
        #[trigger] ascending(vars) && vars.to_set() == e.j.constraint.dom() && forall|t: TermId|
            model_value(
                s,
                sorts,
                e,
                values,
                vars,
                bits_count(s0, sorts, e),
                t,
                #[trigger] entry(m, t),
            );
    lemma_vars(vars, e);
    assert(vars.to_set().contains(v));
    let k = choose|k: int| 0 <= k < vars.len() && vars[k] == v;
    lemma_pin_is_found(s, sorts, e, values.sat@, vars, vars.len() as int, t, k, c);
    lemma_pin_is_true(s, sorts, e, values.sat@, vars, vars.len() as int, t);
    assert(model_value(s, sorts, e, values, vars, bits_count(s0, sorts, e), t, entry(m, t)));
}

/// The same of integer and bit-vector constants, where they fit in a word.
pub proof fn equated_words_are_stated(
    s0: Seq<TermView>,
    s: Seq<TermView>,
    sorts: Seq<SortKind>,
    e: GoalView,
    values: &EngineValues,
    m: Map<TermId, TermId>,
    t: TermId,
    v: Var,
    c: TermId,
)
    requires
        model_built(s0, s, sorts, e, values, m),
        e.j.arith.contains(t) || e.j.bv.contains(t) || (t < s.len() && s[t as int].op == Op::Apply),
        e.j.constraint.contains_key(v),
        e.j.constraint[v] == Constraint::Eq(t, c),
        v < values.sat@.len() && values.sat@[v as int] == Some(true),
        c < s.len(),
        match (s[c as int].op, s[c as int].data) {
            (Op::IntConst, DataView::Int(neg, d)) => i64::MIN <= signed_value(neg, d) <= i64::MAX,
            (Op::BitVecConst, DataView::Bits(neg, d, _)) => 0 <= signed_value(neg, d) <= i64::MAX,
            _ => false,
        },
    ensures
        m.contains_key(t),
        exists|w: Var| #[trigger] truly_equated(e, values.sat@, w, t, m[t]),
{
    let vars = choose|vars: Seq<Var>|
        #[trigger] ascending(vars) && vars.to_set() == e.j.constraint.dom() && forall|t: TermId|
            model_value(
                s,
                sorts,
                e,
                values,
                vars,
                bits_count(s0, sorts, e),
                t,
                #[trigger] entry(m, t),
            );
    lemma_vars(vars, e);
    assert(vars.to_set().contains(v));
    let k = choose|k: int| 0 <= k < vars.len() && vars[k] == v;
    lemma_pin_is_found(s, sorts, e, values.sat@, vars, vars.len() as int, t, k, c);
    lemma_pin_is_true(s, sorts, e, values.sat@, vars, vars.len() as int, t);
    assert(model_value(s, sorts, e, values, vars, bits_count(s0, sorts, e), t, entry(m, t)));
}

/// The value of a formula with a variable is the truth value that the assignment
/// gives the variable.
pub proof fn truth_values_are_exact(
    s0: Seq<TermView>,
    s: Seq<TermView>,
    sorts: Seq<SortKind>,
    e: GoalView,
    values: &EngineValues,
    m: Map<TermId, TermId>,
    i: Interp,
    t: TermId,
    b: bool,
)
    requires
        terms_wf(s),
        model_built(s0, s, sorts, e, values, m),
        free_of_equations(e, values.sat@, t),
        e.j.var_of.contains_key(t),
        e.j.var_of[t] < values.sat@.len(),
        values.sat@[e.j.var_of[t] as int] == Some(b),
    ensures
        m.contains_key(t),
        m[t] < s.len(),
        holds(s, i, m[t]) == b,
        s[m[t] as int].args.len() == 0,
{
    let vars = choose|vars: Seq<Var>|
        #[trigger] ascending(vars) && vars.to_set() == e.j.constraint.dom() && forall|t: TermId|
            model_value(
                s,
                sorts,
                e,
                values,
                vars,
                bits_count(s0, sorts, e),
                t,
                #[trigger] entry(m, t),
            );
    lemma_vars(vars, e);
    lemma_pin_is_true(s, sorts, e, values.sat@, vars, vars.len() as int, t);
    assert(model_value(s, sorts, e, values, vars, bits_count(s0, sorts, e), t, entry(m, t)));
    assert(crate::terms::node_below(s, TRUE_TERM as int));
    assert(crate::terms::node_below(s, FALSE_TERM as int));
    assert(s[TRUE_TERM as int].op == Op::True && s[FALSE_TERM as int].op == Op::False);
    lemma_eval(s, i, m[t]);
}

/// An operation whose result is a bit vector.
pub open spec fn computes_bits(op: Op) -> bool {
    op == Op::BvNot || op == Op::BvAnd || op == Op::BvOr || op == Op::BvXor || op == Op::BvAdd || op
        == Op::BvSub || op == Op::BvMul || op == Op::BvUdiv || op == Op::BvSdiv || op == Op::BvUrem
        || op == Op::BvSrem || op == Op::BvShl || op == Op::BvLshr || op == Op::BvAshr || op
        == Op::BvConcat || op == Op::BvExtract
}

/// The value of a bit-vector term that no true equation has on a side is the
/// number that an engine reports: that of the bit-vector engine where there are
/// operations on bit vectors or equations of them, or where the arithmetic engine
/// reports none; else that of the arithmetic engine, where it fits the width.
pub proof fn bit_values_are_exact(
    s0: Seq<TermView>,
    s: Seq<TermView>,
    sorts: Seq<SortKind>,
    e: GoalView,
    values: &EngineValues,
    m: Map<TermId, TermId>,
    i: Interp,
    t: TermId,
    width: u32,
)
    requires
        terms_wf(s),
        model_built(s0, s, sorts, e, values, m),
        e.j.bv.contains(t) && !e.j.arith.contains(t),
        t < s.len() && s[t as int].sort < sorts.len(),
        sorts[s[t as int].sort as int] == SortKind::BitVec(width),
        free_of_equations(e, values.sat@, t),
        no_formula(e, values.sat@, t),
    ensures
        m.contains_key(t),
        m[t] < s.len(),
        s[m[t] as int].op == Op::BitVecConst,
        s[m[t] as int].sort == s[t as int].sort,
        s[m[t] as int].data matches DataView::Bits(_, _, w) && w == width,
        values.bits@.contains_key(t) && (!values.arith@.contains_key(t) || (exists|x: TermId|
            #[trigger] e.j.bv.contains(x) && x < s0.len() && computes_bits(s0[x as int].op))) ==> num(
            eval(s, i, m[t] as int),
        ) == values.bits@[t].value() as real,
        values.bits@.contains_key(t) && (exists|v: Var| #[trigger]
            e.j.constraint.contains_key(v) && (e.j.constraint[v] matches Constraint::Eq(l, _) && l
                < s0.len() && s0[l as int].sort < sorts.len() && sorts[s0[l as int].sort as int]
                == SortKind::BitVec(width))) ==> num(eval(s, i, m[t] as int))
            == values.bits@[t].value() as real,
        !values.bits@.contains_key(t) && values.arith@.contains_key(t) && values.arith@[t].den == 1
            && 0 <= values.arith@[t].num < vstd::arithmetic::power2::pow2(width as nat) ==> num(
            eval(s, i, m[t] as int),
        ) == values.arith@[t].num as real,
        !values.bits@.contains_key(t) && !values.arith@.contains_key(t) ==> num(
            eval(s, i, m[t] as int),
        ) == 0real,
{
    let vars = choose|vars: Seq<Var>|
        #[trigger] ascending(vars) && vars.to_set() == e.j.constraint.dom() && forall|t: TermId|
            model_value(
                s,
                sorts,
                e,
                values,
                vars,
                bits_count(s0, sorts, e),
                t,
                #[trigger] entry(m, t),
            );
    lemma_vars(vars, e);
    lemma_pin_is_true(s, sorts, e, values.sat@, vars, vars.len() as int, t);
    assert(model_value(s, sorts, e, values, vars, bits_count(s0, sorts, e), t, entry(m, t)));
    lemma_eval(s, i, m[t]);
    if values.arith@.contains_key(t) && values.arith@[t].den == 1 && 0 <= values.arith@[t].num
        < vstd::arithmetic::power2::pow2(width as nat) {
        let n = values.arith@[t].num as int;
        let p = vstd::arithmetic::power2::pow2(width as nat) as int;
        assert(n / 1 == n);
        assert(crate::numbers::trunc_quot(n, 1) == n);
        vstd::arithmetic::div_mod::lemma_small_mod(n as nat, p as nat);
    }
}

/// A model gives values to nothing else than numbers, bit vectors, formulas with
/// a variable, and sides of true equations.
pub proof fn models_hold_nothing_else(
    s0: Seq<TermView>,
    s: Seq<TermView>,
    sorts: Seq<SortKind>,
    e: GoalView,
    values: &EngineValues,
    m: Map<TermId, TermId>,
    t: TermId,
)
    requires
        model_built(s0, s, sorts, e, values, m),
        m.contains_key(t),
    ensures
        e.j.arith.contains(t) || e.j.bv.contains(t) || !no_formula(e, values.sat@, t)
            || !free_of_equations(e, values.sat@, t),
{
    let vars = choose|vars: Seq<Var>|
        #[trigger] ascending(vars) && vars.to_set() == e.j.constraint.dom() && forall|t: TermId|
            model_value(
                s,
                sorts,
                e,
                values,
                vars,
                bits_count(s0, sorts, e),
                t,
                #[trigger] entry(m, t),
            );
    lemma_vars(vars, e);
    lemma_pin_is_true(s, sorts, e, values.sat@, vars, vars.len() as int, t);
    assert(model_value(s, sorts, e, values, vars, bits_count(s0, sorts, e), t, entry(m, t)));
}

/// The constant may also stand on the left side of the equation.
pub proof fn values_on_the_left_are_stated(
    s0: Seq<TermView>,
    s: Seq<TermView>,
    sorts: Seq<SortKind>,
    e: GoalView,
    values: &EngineValues,
    m: Map<TermId, TermId>,
    t: TermId,
    v: Var,
    c: TermId,
)
    requires
        model_built(s0, s, sorts, e, values, m),
        e.j.arith.contains(t) || e.j.bv.contains(t) || (t < s.len() && (s[t as int].op == Op::Apply
            || (s[t as int].op == Op::Var && s[t as int].sort < sorts.len()
            && sorts[s[t as int].sort as int] == SortKind::String))),
        e.j.constraint.contains_key(v),
        e.j.constraint[v] == Constraint::Eq(c, t),
        v < values.sat@.len() && values.sat@[v as int] == Some(true),
        c < s.len(),
        s[c as int].op == Op::RealConst || s[c as int].op == Op::StringLit || (s[c as int].op
            == Op::IntConst && int_literal(s, c) is Some),
        !e.j.arith.contains(c) && !e.j.bv.contains(c),
    ensures
        m.contains_key(t),
        exists|w: Var| #[trigger] truly_equated(e, values.sat@, w, t, m[t]),
{
    let vars = choose|vars: Seq<Var>|
        #[trigger] ascending(vars) && vars.to_set() == e.j.constraint.dom() && forall|t: TermId|
            model_value(
                s,
                sorts,
                e,
                values,
                vars,
                bits_count(s0, sorts, e),
                t,
                #[trigger] entry(m, t),
            );
    lemma_vars(vars, e);
    assert(vars.to_set().contains(v));
    let k = choose|k: int| 0 <= k < vars.len() && vars[k] == v;
    lemma_pin_is_found(s, sorts, e, values.sat@, vars, vars.len() as int, t, k, c);
    lemma_pin_is_true(s, sorts, e, values.sat@, vars, vars.len() as int, t);
    assert(model_value(s, sorts, e, values, vars, bits_count(s0, sorts, e), t, entry(m, t)));
}

/// What the engine reports for a term, 0 where it reports nothing.
pub open spec fn reported(values: &EngineValues, t: TermId) -> real {
    if values.arith@.contains_key(t) {
        values.arith@[t].value()
    } else {
        0real
    }
}

/// The linear sum over the values that the engine reports.
pub open spec fn reported_sum(values: &EngineValues, terms: Seq<(TermId, Rat)>) -> real
    decreases terms.len(),
{
    if terms.len() == 0 {
        0real
    } else {
        reported_sum(values, terms.drop_last()) + terms.last().1.value() * reported(
            values,
            terms.last().0,
        )
    }
}

/// The linear sum over the values that the model gives.
pub open spec fn modelled_sum(
    s: Seq<TermView>,
    i: Interp,
    m: Map<TermId, TermId>,
    terms: Seq<(TermId, Rat)>,
) -> real
    decreases terms.len(),
{
    if terms.len() == 0 {
        0real
    } else {
        modelled_sum(s, i, m, terms.drop_last()) + terms.last().1.value() * num(
            eval(s, i, m[terms.last().0] as int),
        )
    }
}

/// A linear sum has one value over what the engine reports and over the model: so a
/// linear constraint that is true of the engine's values is true of the model's.
pub proof fn linear_sums_agree(
    s0: Seq<TermView>,
    s: Seq<TermView>,
    sorts: Seq<SortKind>,
    e: GoalView,
    values: &EngineValues,
    m: Map<TermId, TermId>,
    i: Interp,
    terms: Seq<(TermId, Rat)>,
)
    requires
        terms_wf(s),
        model_built(s0, s, sorts, e, values, m),
        forall|k: int|
            0 <= k < terms.len() ==> {
                let t = (#[trigger] terms[k]).0;
                &&& e.j.arith.contains(t) && t < s.len()
                &&& free_of_equations(e, values.sat@, t) && no_formula(e, values.sat@, t)
                &&& values.arith@.contains_key(t) ==> values.arith@[t].wf() && (s[t as int].sort
                    == INT_SORT ==> values.arith@[t].den == 1)
            },
    ensures
        modelled_sum(s, i, m, terms) == reported_sum(values, terms),
    decreases terms.len(),
{
    if terms.len() > 0 {
        let front = terms.drop_last();
        assert forall|k: int| 0 <= k < front.len() implies {
            let t = (#[trigger] front[k]).0;
            &&& e.j.arith.contains(t) && t < s.len()
            &&& free_of_equations(e, values.sat@, t) && no_formula(e, values.sat@, t)
            &&& values.arith@.contains_key(t) ==> values.arith@[t].wf() && (s[t as int].sort
                == INT_SORT ==> values.arith@[t].den == 1)
        } by {
            assert(front[k] == terms[k]);
        }
        linear_sums_agree(s0, s, sorts, e, values, m, i, front);
        let t = terms[terms.len() - 1].0;
        assert(e.j.arith.contains(t));
        arithmetic_values_are_exact(s0, s, sorts, e, values, m, i, t);
    }
}

} // verus!
