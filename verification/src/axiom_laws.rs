//! What the clauses and values that a check adds amount to.

use crate::aliases::is_var;
use crate::asserted::{
    asserts, describes, literal_integer, pinned, pinned_between, AssertedQuantifier,
};
use crate::assertion::{lists_quantifiers, with_clause};
use crate::axioms::{
    canonical, constant_atoms, constant_lits, constant_tied, enumerated, enumeration,
    equated_variable, one_variable, or_leaves, or_leaves_below, order_atoms, split_pair, tied,
    ties_apply, trichotomy,
};
use crate::descent::{descends, leads_to, lemma_visits_step, visits, Descent};
use crate::encode::{clause_sat, encoded, good, lit_val, sat_all, Assignment};
use crate::instances::{
    instance_step, instance_taken, instance_through, instances_taken, instances_used, last_entry,
    lemma_taken, lemma_through, lemmas_taken, texts_installed, validity_parts, values_installed,
    BigRatio, InstanceKind,
};
use crate::ite_table::int_literal;
use crate::model_splits::differs;
use crate::numbers::{fits, trunc_quot};
use crate::semantics::{eval, lemma_eval, num, Interp};
use crate::state::{goal_inv, lemma_means_extend, means, Constraint, GoalView, Lit, Var};
use crate::string_laws::conjunct;
use crate::strings::literal_text;
use crate::terms::{
    extends, node_below, numeric_sort, terms_wf, Op, TermId, TermStore, TermView, FALSE_TERM,
    INT_SORT, TRUE_TERM,
};
use crate::walk::subterm;
use vstd::prelude::*;

verus! {

/// Under an assignment that satisfies the clauses, two numbers that were split are
/// equal, or one is less than the other: one of the three atoms is true.
pub proof fn split_pairs_are_ordered(
    s: Seq<TermView>,
    e: GoalView,
    g: Assignment,
    a: TermId,
    b: TermId,
)
    requires
        sat_all(g, e.clauses),
        split_pair(s, e, a, b),
        numeric_sort(s[a as int].sort),
        a != b,
    ensures
        exists|t: TermId, l: Lit| #[trigger]
            means(s, e.term_of, l, t) && lit_val(g, l) && t < s.len() && s[t as int].args == seq![
                a,
                b,
            ] && (s[t as int].op == Op::Eq || s[t as int].op == Op::Lt || s[t as int].op
                == Op::Gt),
{
    let k = choose|k: int|
        0 <= k < e.clauses.len() && trichotomy(s, e, a, b, #[trigger] e.clauses[k]);
    let c = e.clauses[k];
    let (eq, lt, gt) = choose|eq: TermId, lt: TermId, gt: TermId| #[trigger]
        order_atoms(s, a, b, eq, lt, gt) && means(s, e.term_of, c[0], eq)
            && crate::axioms::encoded_as(s, e, c[1], lt) && crate::axioms::encoded_as(s, e, c[2], gt);
    assert(clause_sat(g, c));
    let j = choose|j: int| 0 <= j < c.len() && lit_val(g, #[trigger] c[j]);
    if j == 0 {
        assert(means(s, e.term_of, c[0], eq));
    } else if j == 1 {
        assert(means(s, e.term_of, c[1], lt));
    } else {
        assert(means(s, e.term_of, c[2], gt));
    }
}

/// Under an assignment that satisfies the clauses, the equation with a constant is
/// true just where both bounds are.
pub proof fn tied_bounds_decide_equations(
    g: Assignment,
    clauses: Seq<Seq<Lit>>,
    eq: Lit,
    le: Lit,
    ge: Lit,
)
    requires
        sat_all(g, clauses),
        tied(clauses, eq, le, ge),
    ensures
        lit_val(g, eq) == (lit_val(g, le) && lit_val(g, ge)),
{
    let x = seq![eq.negated(), le];
    let y = seq![eq.negated(), ge];
    let z = seq![eq, le.negated(), ge.negated()];
    assert(clause_sat(g, clauses[clauses.index_of(x)]));
    assert(clause_sat(g, clauses[clauses.index_of(y)]));
    assert(clause_sat(g, clauses[clauses.index_of(z)]));
    let i = choose|i: int| 0 <= i < x.len() && lit_val(g, #[trigger] x[i]);
    let j = choose|j: int| 0 <= j < y.len() && lit_val(g, #[trigger] y[j]);
    let k = choose|k: int| 0 <= k < z.len() && lit_val(g, #[trigger] z[k]);
    assert(x[0] == eq.negated() && x[1] == le);
    assert(y[0] == eq.negated() && y[1] == ge);
    assert(z[0] == eq && z[1] == le.negated() && z[2] == ge.negated());
}

/// The walks for disequalities and for equations come to every conjunct, and below
/// negations, conjunctions and disjunctions to everything.
pub proof fn walks_reach_connectives(s: Seq<TermView>, d: Descent, t: TermId, y: TermId, k: int)
    requires
        terms_wf(s),
        t < s.len(),
        visits(s, d, t, y),
        y < s.len(),
        0 <= k < s[y as int].args.len(),
        d == Descent::Disequalities || d == Descent::Equations,
        s[y as int].op == Op::Not || s[y as int].op == Op::And || s[y as int].op == Op::Or || (
        s[y as int].op == Op::Implies && k == 1) || (s[y as int].op == Op::Ite && k >= 1),
    ensures
        visits(s, d, t, s[y as int].args[k]),
{
    assert(leads_to(s, d, y, s[y as int].args[k]));
    lemma_visits_step(s, d, t, y, s[y as int].args[k]);
}

/// The walk for conjuncts comes to every conjunct and to nothing else.
pub proof fn walks_reach_conjuncts(s: Seq<TermView>, t: TermId, x: TermId)
    requires
        terms_wf(s),
        t < s.len(),
    ensures
        visits(s, Descent::Conjuncts, t, x) <==> conjunct(s, t, x),
    decreases t,
{
    assert(node_below(s, t as int));
    let args = s[t as int].args;
    assert forall|k: int| 0 <= k < args.len() implies (#[trigger] args[k]) < t && (visits(
        s,
        Descent::Conjuncts,
        args[k],
        x,
    ) <==> conjunct(s, args[k], x)) by {
        walks_reach_conjuncts(s, args[k], x);
    }
    if t != x {
        if visits(s, Descent::Conjuncts, t, x) {
            let k = choose|k: int|
                0 <= k < args.len() && descends(Descent::Conjuncts, s[t as int].op, k) && (
                #[trigger] s[t as int].args[k]) < t && visits(
                    s,
                    Descent::Conjuncts,
                    s[t as int].args[k],
                    x,
                );
            assert(conjunct(s, args[k], x));
        }
        if conjunct(s, t, x) {
            let k = choose|k: int|
                0 <= k < args.len() && #[trigger] s[t as int].args[k] < t && conjunct(
                    s,
                    s[t as int].args[k],
                    x,
                );
            assert(visits(s, Descent::Conjuncts, args[k], x));
        }
    }
}

/// A conjunct that equates an integer term with a literal gives the term its value.
pub proof fn stated_integers_are_read(
    s: Seq<TermView>,
    given: Seq<TermId>,
    k: int,
    e: TermId,
    t: TermId,
    c: TermId,
    v: int,
)
    requires
        terms_wf(s),
        0 <= k < given.len(),
        given[k] < s.len(),
        conjunct(s, given[k], e),
        e < s.len() && s[e as int].op == Op::Eq,
        s[e as int].args == seq![t, c] || s[e as int].args == seq![c, t],
        s[t as int].sort == INT_SORT,
        literal_integer(s, t) is None,
        literal_integer(s, c) == Some(v),
    ensures
        pinned_between(s, given, 0, given.len() as int, t, v),
{
    walks_reach_conjuncts(s, given[k], e);
    assert(pinned(s, e) == Some((t, v)));
}

/// An assertion asserts its conjuncts; and the negation of a disjunction, of an
/// implication or of a negation what these say.
pub proof fn assertions_assert_their_parts(s: Seq<TermView>, t: TermId, x: TermId, k: int)
    requires
        terms_wf(s),
        t < s.len(),
    ensures
        conjunct(s, t, x) ==> asserts(s, t, true, x, true),
        s[t as int].op == Op::Not ==> {
            let y = s[s[t as int].args[0] as int];
            &&& 0 <= k < y.args.len() && y.op == Op::Or ==> asserts(s, t, true, y.args[k], false)
            &&& 0 <= k < y.args.len() && y.op == Op::Implies ==> asserts(
                s,
                t,
                true,
                y.args[k],
                k == 0,
            )
            &&& k == 0 && y.op == Op::Not ==> asserts(s, t, true, y.args[k], true)
            &&& asserts(s, t, true, s[t as int].args[0], false)
        },
    decreases t,
{
    assert(node_below(s, t as int));
    let args = s[t as int].args;
    if conjunct(s, t, x) && t != x {
        let j = choose|j: int|
            0 <= j < args.len() && #[trigger] s[t as int].args[j] < t && conjunct(
                s,
                s[t as int].args[j],
                x,
            );
        assertions_assert_their_parts(s, args[j], x, 0);
        assert(asserts(s, s[t as int].args[j], true, x, true));
    }
    if s[t as int].op == Op::Not {
        let z = args[0];
        assert(node_below(s, z as int));
        assert(asserts(s, z, false, z, false));
        assert(s[t as int].args[0] < t);
        let y = s[z as int];
        if 0 <= k < y.args.len() {
            assert(s[z as int].args[k] < z);
            if y.op == Op::Or {
                assert(asserts(s, y.args[k], false, y.args[k], false));
                assert(asserts(s, z, false, y.args[k], false));
            }
            if y.op == Op::Implies {
                assert(asserts(s, y.args[k], k == 0, y.args[k], k == 0));
                assert(asserts(s, z, false, y.args[k], k == 0));
            }
            if y.op == Op::Not {
                assert(asserts(s, y.args[k], true, y.args[k], true));
                assert(asserts(s, z, false, y.args[k], true));
            }
        }
    }
}

proof fn lemma_flat_leaves(s: Seq<TermView>, t: TermId, n: int)
    requires
        terms_wf(s),
        t < s.len(),
        0 <= n <= s[t as int].args.len(),
        forall|k: int| 0 <= k < s[t as int].args.len() ==> s[(#[trigger] s[t as int].args[k]) as int].op
            != Op::Or,
    ensures
        or_leaves_below(s, t, n) == s[t as int].args.take(n),
    decreases n,
{
    let args = s[t as int].args;
    if n > 0 {
        assert(node_below(s, t as int));
        assert(args[n - 1] < t);
        lemma_flat_leaves(s, t, n - 1);
        assert(s[args[n - 1] as int].op != Op::Or);
        assert(or_leaves(s, args[n - 1]) == seq![args[n - 1]]);
        assert(or_leaves_below(s, t, n) == or_leaves_below(s, t, n - 1) + or_leaves(
            s,
            args[n - 1],
        ));
        assert(args.take(n) =~= args.take(n - 1) + seq![args[n - 1]]);
    } else {
        assert(or_leaves_below(s, t, 0) == Seq::<TermId>::empty());
        assert(args.take(0) =~= Seq::<TermId>::empty());
    }
}

/// A disjunction of two to 64 equations of one variable with values enumerates its
/// values.
pub proof fn enumerations_are_recognised(s: Seq<TermView>, t: TermId, v: TermId)
    requires
        terms_wf(s),
        t < s.len(),
        s[t as int].op == Op::Or,
        2 <= s[t as int].args.len() <= 64,
        is_var(s, v),
        forall|k: int|
            0 <= k < s[t as int].args.len() ==> {
                let q = s[(#[trigger] s[t as int].args[k]) as int];
                q.op == Op::Eq && ((q.args[0] == v) || (q.args[1] == v && !is_var(s, q.args[0])))
            },
    ensures
        enumeration(s, t),
        or_leaves(s, t) == s[t as int].args,
{
    let args = s[t as int].args;
    assert(node_below(s, t as int));
    lemma_flat_leaves(s, t, args.len() as int);
    assert(args.take(args.len() as int) =~= args);
    assert forall|j: int| 0 <= j < args.len() implies equated_variable(s, #[trigger] args[j])
        == Some(v) by {
        assert(args[j] < t);
    }
    assert(equated_variable(s, args[0]) == Some(v));
    assert(one_variable(s, args));
}

proof fn lemma_last_entry<V>(list: Seq<(TermId, V)>, t: TermId, k: int, n: int)
    requires
        0 <= k < n <= list.len(),
        list[k].0 == t,
        forall|j: int| k < j < n ==> (#[trigger] list[j]).0 != t,
    ensures
        last_entry(list, t, n) == Some(k),
    decreases n,
{
    if k < n - 1 {
        assert(list[n - 1].0 != t);
        lemma_last_entry(list, t, k, n - 1);
    }
}

/// A value that the nonlinear solver gives a term is the term's value in the model:
/// an integer for an integer term, and a rational of words for another.
pub proof fn installed_values_are_exact(
    s: Seq<TermView>,
    i: Interp,
    list: Seq<(TermId, BigRatio)>,
    m: Map<TermId, TermId>,
    k: int,
)
    requires
        terms_wf(s),
        values_installed(s, list, list.len() as int, m),
        0 <= k < list.len(),
        forall|j: int| k < j < list.len() ==> (#[trigger] list[j]).0 != list[k].0,
        list[k].0 < s.len(),
        list[k].1.wf(),
    ensures
        ({
            let t = list[k].0;
            let (a, b) = (list[k].1.num.value(), list[k].1.den.value());
            &&& m.contains_key(t) && m[t] < s.len()
            &&& s[t as int].sort == INT_SORT && b == 1 ==> num(eval(s, i, m[t] as int)) == a as real
            &&& s[t as int].sort != INT_SORT && fits(a) && fits(b) ==> num(
                eval(s, i, m[t] as int),
            ) == a as real / b as real
        }),
{
    let t = list[k].0;
    lemma_last_entry(list, t, k, list.len() as int);
    assert(last_entry(list, t, list.len() as int) == Some(k));
    assert(m.contains_key(t));
    let v = m[t];
    assert(crate::instances::value_literal(
        s,
        crate::instances::integral(s, t),
        list[k].1.num.value(),
        list[k].1.den.value(),
        v,
    ));
    lemma_eval(s, i, v);
    let a = list[k].1.num.value();
    assert(a / 1 == a && (-a) / 1 == -a);
    assert(trunc_quot(a, 1) == a);
}

/// A text that the string solver gives a term is the text of the term's value.
pub proof fn installed_texts_are_exact(
    store: &TermStore,
    list: Seq<(TermId, String)>,
    m: Map<TermId, TermId>,
    k: int,
)
    requires
        texts_installed(store, list, list.len() as int, m),
        0 <= k < list.len(),
        forall|j: int| k < j < list.len() ==> (#[trigger] list[j]).0 != list[k].0,
    ensures
        m.contains_key(list[k].0),
        literal_text(store.terms(), store.names@, m[list[k].0]) == Some(list[k].1@),
{
    lemma_last_entry(list, list[k].0, k, list.len() as int);
    assert(last_entry(list, list[k].0, list.len() as int) == Some(k));
    assert(m.contains_key(list[k].0));
}

/// A unit clause says that the term holds.
pub open spec fn made_clause(s: Seq<TermView>, e: GoalView, t: TermId) -> bool {
    exists|k: int, l: Lit|
        0 <= k < e.clauses.len() && e.clauses[k] == seq![l] && #[trigger] means(
            s,
            e.term_of,
            l,
            t,
        ) && #[trigger] lit_clause(e.clauses, k, l)
}

pub open spec fn lit_clause(clauses: Seq<Seq<Lit>>, k: int, l: Lit) -> bool {
    clauses[k] == seq![l]
}

/// Terms, variables and clauses were only added to.
pub open spec fn added_to(s0: Seq<TermView>, e0: GoalView, s1: Seq<TermView>, e1: GoalView) -> bool {
    &&& goal_inv(s0, e0) && goal_inv(s1, e1)
    &&& extends(s0, s1)
    &&& e0.term_of.len() <= e1.term_of.len()
    &&& forall|v: int| 0 <= v < e0.term_of.len() ==> #[trigger] e1.term_of[v] == e0.term_of[v]
    &&& e0.clauses.len() <= e1.clauses.len()
    &&& forall|k: int| 0 <= k < e0.clauses.len() ==> #[trigger] e1.clauses[k] == e0.clauses[k]
}

proof fn lemma_clause_stays(
    s0: Seq<TermView>,
    e0: GoalView,
    s1: Seq<TermView>,
    e1: GoalView,
    t: TermId,
)
    requires
        made_clause(s0, e0, t),
        t < s0.len(),
        added_to(s0, e0, s1, e1),
    ensures
        made_clause(s1, e1, t),
{
    let (k, l) = choose|k: int, l: Lit|
        0 <= k < e0.clauses.len() && e0.clauses[k] == seq![l] && #[trigger] means(
            s0,
            e0.term_of,
            l,
            t,
        ) && #[trigger] lit_clause(e0.clauses, k, l);
    lemma_means_extend(s0, e0.term_of, s1, e1.term_of, l, t);
    assert(lit_clause(e1.clauses, k, l));
}

proof fn lemma_instance_made(
    s0: Seq<TermView>,
    e0: GoalView,
    s1: Seq<TermView>,
    e1: GoalView,
    t: TermId,
    equations: bool,
)
    requires
        goal_inv(s0, e0),
        t < s0.len(),
        instance_taken(s0, e0, s1, e1, t, equations),
    ensures
        added_to(s0, e0, s1, e1),
        made_clause(s1, e1, t),
{
    let (sm, em, l) = choose|sm: Seq<TermView>, em: GoalView, l: Lit| #[trigger]
        instance_through(s0, e0, sm, em, l, s1, e1, t, equations);
    let mid = with_clause(em, seq![l]);
    assert(encoded(s0, e0, sm, em, t, l, 0));
    assert(good(sm, mid, s1, e1));
    assert(means(sm, em.term_of, l, t));
    lemma_means_extend(sm, em.term_of, s1, e1.term_of, l, t);
    let k = em.clauses.len() as int;
    assert(mid.clauses[k] == seq![l]);
    assert(e1.clauses[k] == mid.clauses[k]);
    assert(lit_clause(e1.clauses, k, l));
    assert forall|j: int| 0 <= j < e0.clauses.len() implies #[trigger] e1.clauses[j]
        == e0.clauses[j] by {
        assert(em.clauses[j] == e0.clauses[j]);
        assert(mid.clauses[j] == em.clauses[j]);
    }
    assert forall|v: int| 0 <= v < e0.term_of.len() implies #[trigger] e1.term_of[v]
        == e0.term_of[v] by {
        assert(em.term_of[v] == e0.term_of[v]);
        assert(mid.term_of[v] == em.term_of[v]);
    }
    assert forall|x: int| 0 <= x < s0.len() implies #[trigger] s1[x] == s0[x] by {
        assert(sm[x] == s0[x]);
    }
}

/// Instances are asserted: for each that was dealt with there is a clause that says
/// that it holds, but for those that are the constant `true` over finite domains.
pub proof fn instances_become_clauses(
    s0: Seq<TermView>,
    e0: GoalView,
    list: Seq<TermId>,
    n: int,
    s1: Seq<TermView>,
    e1: GoalView,
    kind: InstanceKind,
    k: int,
)
    requires
        goal_inv(s0, e0),
        0 <= n <= list.len(),
        forall|j: int| 0 <= j < n ==> (#[trigger] list[j]) < s0.len() && list[j] != FALSE_TERM,
        instances_taken(s0, e0, list, n, s1, e1, kind),
    ensures
        added_to(s0, e0, s1, e1),
        0 <= k < n && list[k] != TRUE_TERM ==> made_clause(s1, e1, list[k]),
    decreases n,
{
    if n > 0 {
        let (s, e) = choose|s: Seq<TermView>, e: GoalView|
            instances_taken(s0, e0, list, n - 1, s, e, kind) && #[trigger] instance_step(
                s,
                e,
                s1,
                e1,
                list[n - 1],
                kind,
            );
        instances_become_clauses(s0, e0, list, n - 1, s, e, kind, k);
        let t = list[n - 1];
        assert(t < s0.len());
        if !(kind == InstanceKind::Finite && t == TRUE_TERM) {
            lemma_instance_made(s, e, s1, e1, t, kind == InstanceKind::General);
            lemma_added_trans(s0, e0, s, e, s1, e1);
        }
        if 0 <= k < n - 1 && list[k] != TRUE_TERM {
            assert(list[k] < s0.len());
            if !(kind == InstanceKind::Finite && t == TRUE_TERM) {
                lemma_clause_stays(s, e, s1, e1, list[k]);
            }
        }
    }
}

proof fn lemma_added_trans(
    s0: Seq<TermView>,
    e0: GoalView,
    s1: Seq<TermView>,
    e1: GoalView,
    s2: Seq<TermView>,
    e2: GoalView,
)
    requires
        added_to(s0, e0, s1, e1),
        added_to(s1, e1, s2, e2),
    ensures
        added_to(s0, e0, s2, e2),
{
    assert forall|j: int| 0 <= j < e0.clauses.len() implies #[trigger] e2.clauses[j]
        == e0.clauses[j] by {
        assert(e1.clauses[j] == e0.clauses[j]);
    }
    assert forall|v: int| 0 <= v < e0.term_of.len() implies #[trigger] e2.term_of[v]
        == e0.term_of[v] by {
        assert(e1.term_of[v] == e0.term_of[v]);
    }
    assert forall|x: int| 0 <= x < s0.len() implies #[trigger] s2[x] == s0[x] by {
        assert(s1[x] == s0[x]);
    }
}

proof fn lemma_lemma_made(
    s0: Seq<TermView>,
    e0: GoalView,
    s1: Seq<TermView>,
    e1: GoalView,
    t: TermId,
)
    requires
        goal_inv(s0, e0),
        t < s0.len(),
        lemma_taken(s0, e0, s1, e1, t),
    ensures
        added_to(s0, e0, s1, e1),
        made_clause(s1, e1, t),
{
    let (em, l) = choose|em: GoalView, l: Lit| #[trigger] lemma_through(s0, e0, em, l, s1, e1, t);
    assert(encoded(s0, e0, s1, em, t, l, 0));
    assert(means(s1, em.term_of, l, t));
    let k = em.clauses.len() as int;
    assert(e1.clauses[k] == seq![l]);
    assert(lit_clause(e1.clauses, k, l));
    assert(means(s1, e1.term_of, l, t));
    assert(l.var < em.term_of.len());
    assert forall|j: int| 0 <= j < e0.clauses.len() implies #[trigger] e1.clauses[j]
        == e0.clauses[j] by {
        assert(em.clauses[j] == e0.clauses[j]);
    }
    assert forall|j: int| 0 <= j < e1.clauses.len() implies crate::state::lits_within(
        #[trigger] e1.clauses[j],
        e1.term_of.len() as int,
    ) by {
        if j < k {
            assert(e1.clauses[j] == em.clauses[j]);
        }
    }
    assert(goal_inv(s1, e1));
}

/// Lemmas are asserted: for each that was taken there is a clause that says that it
/// holds.
pub proof fn lemmas_become_clauses(
    s0: Seq<TermView>,
    e0: GoalView,
    list: Seq<TermId>,
    n: int,
    s1: Seq<TermView>,
    e1: GoalView,
    k: int,
)
    requires
        goal_inv(s0, e0),
        0 <= n <= list.len(),
        forall|j: int| 0 <= j < n ==> (#[trigger] list[j]) < s0.len(),
        lemmas_taken(s0, e0, list, n, s1, e1),
    ensures
        added_to(s0, e0, s1, e1),
        0 <= k < n ==> made_clause(s1, e1, list[k]),
    decreases n,
{
    if n > 0 {
        let (s, e) = choose|s: Seq<TermView>, e: GoalView|
            lemmas_taken(s0, e0, list, n - 1, s, e) && #[trigger] lemma_taken(
                s,
                e,
                s1,
                e1,
                list[n - 1],
            );
        lemmas_become_clauses(s0, e0, list, n - 1, s, e, k);
        assert(list[n - 1] < s0.len());
        lemma_lemma_made(s, e, s1, e1, list[n - 1]);
        lemma_added_trans(s0, e0, s, e, s1, e1);
        if 0 <= k < n - 1 {
            assert(list[k] < s0.len());
            lemma_clause_stays(s, e, s1, e1, list[k]);
        }
    }
}

/// A term is looked into for validity just where it is `true`, a universal formula
/// or a conjunction: by nothing, by its body, by all its parts.
pub proof fn validity_looks_at_all_parts(node: TermView)
    ensures
        node.op == Op::True ==> validity_parts(node) == Some(Seq::<TermId>::empty()),
        node.op == Op::And ==> validity_parts(node) == Some(node.args),
        node.op == Op::Forall && node.args.len() > 0 ==> validity_parts(node) is Some
            && validity_parts(node)->0.len() == 1 && validity_parts(node)->0[0] == node.args[0],
        node.op == Op::False || node.op == Op::Or || node.op == Op::Exists || node.op == Op::Var
            ==> validity_parts(node) is None,
{
}

/// A number that is tied to a constant is equal to it, under an assignment that
/// satisfies the clauses, just where both bounds are true.
pub proof fn tied_numbers_take_their_values(
    s: Seq<TermView>,
    e: GoalView,
    g: Assignment,
    t: TermId,
    n: i64,
)
    requires
        sat_all(g, e.clauses),
        constant_tied(s, e, t, n),
    ensures
        exists|c: TermId, x: TermId, y: TermId, z: TermId, eq: Lit, le: Lit, ge: Lit|
            #![trigger means(s, e.term_of, eq, x), means(s, e.term_of, le, y), means(s, e.term_of, ge, z), int_literal(s, c)]
            int_literal(s, c) == Some(n) && means(s, e.term_of, eq, x) && means(
                s,
                e.term_of,
                le,
                y,
            ) && means(s, e.term_of, ge, z) && s[x as int].op == Op::Eq && s[y as int].op == Op::Le
                && s[z as int].op == Op::Ge && s[x as int].args == seq![t, c] && s[y as int].args
                == seq![t, c] && s[z as int].args == seq![t, c] && lit_val(g, eq) == (lit_val(g, le)
                && lit_val(g, ge)),
{
    let (eq, le, ge) = choose|eq: Lit, le: Lit, ge: Lit| #[trigger]
        tied(e.clauses, eq, le, ge) && constant_lits(s, e, t, n, eq, le, ge);
    let (c, x, y, z) = choose|c: TermId, x: TermId, y: TermId, z: TermId| #[trigger]
        constant_atoms(s, t, c, x, y, z) && int_literal(s, c) == Some(n)
            && crate::axioms::encoded_as(s, e, eq, x) && crate::axioms::encoded_as(s, e, le, y)
            && crate::axioms::encoded_as(s, e, ge, z);
    tied_bounds_decide_equations(g, e.clauses, eq, le, ge);
    assert(means(s, e.term_of, eq, x) && means(s, e.term_of, le, y) && means(s, e.term_of, ge, z));
}

/// Numbers are tied to constants without quantifiers and up to 4096 pairs.
pub proof fn ties_are_bounded(e: GoalView, terms: int, consts: int)
    ensures
        ties_apply(e, terms, consts) <==> !e.quantified && terms * consts <= 4096,
{
}

/// A pair is one and the same in both orders.
pub proof fn pairs_have_one_order(a: TermId, b: TermId)
    ensures
        canonical(a, b) == canonical(b, a),
        canonical(a, b) == (a, b) || canonical(a, b) == (b, a),
        canonical(a, b).0 <= canonical(a, b).1,
{
}

/// An equation of numbers that the model makes false is one to be split.
pub proof fn false_equations_are_split(
    s: Seq<TermView>,
    e: GoalView,
    model: Seq<Option<bool>>,
    v: Var,
    a: TermId,
    b: TermId,
)
    requires
        e.j.constraint.contains_key(v),
        e.j.constraint[v] == Constraint::Eq(a, b),
        v < model.len(),
    ensures
        differs(s, e, model, v, a, b) <==> numeric_sort(s[a as int].sort) && model[v as int]
            == Some(false),
{
}

/// All instances are dealt with, unless one that is the constant `false` refutes the
/// assertions.
pub proof fn all_instances_are_used(list: Seq<TermId>, n: int, kind: InstanceKind)
    requires
        instances_used(list, n, kind),
        kind == InstanceKind::Finite || !list.contains(FALSE_TERM),
    ensures
        n == list.len(),
{
}

/// A quantified formula among the conjuncts of an assertion is found, and told from
/// the other kind.
pub proof fn asserted_quantifiers_are_found(
    s: Seq<TermView>,
    t: TermId,
    found: Seq<AssertedQuantifier>,
    x: TermId,
)
    requires
        terms_wf(s),
        t < s.len() && x < s.len(),
        lists_quantifiers(s, t, found),
        conjunct(s, t, x),
        s[x as int].op == Op::Forall || s[x as int].op == Op::Exists,
    ensures
        exists|k: int|
            0 <= k < found.len() && (#[trigger] found[k]).term == x && found[k].universal == (
            s[x as int].op == Op::Forall),
{
    assertions_assert_their_parts(s, t, x, 0);
    let k = choose|k: int| 0 <= k < found.len() && (#[trigger] found[k]).term == x;
    assert(describes(s, found[k]));
}

/// The variables of the equations of an enumeration within an assertion are decided
/// early.
pub proof fn enumerated_values_are_decided_early(
    s: Seq<TermView>,
    var_of: Map<TermId, Var>,
    given: Seq<TermId>,
    k: int,
    t: TermId,
    v: TermId,
    j: int,
)
    requires
        terms_wf(s),
        0 <= k < given.len(),
        subterm(s, given[k], t),
        t < s.len(),
        s[t as int].op == Op::Or,
        2 <= s[t as int].args.len() <= 64,
        is_var(s, v),
        forall|k: int|
            0 <= k < s[t as int].args.len() ==> {
                let q = s[(#[trigger] s[t as int].args[k]) as int];
                q.op == Op::Eq && ((q.args[0] == v) || (q.args[1] == v && !is_var(s, q.args[0])))
            },
        0 <= j < s[t as int].args.len(),
        var_of.contains_key(s[t as int].args[j]),
    ensures
        enumerated(s, var_of, given, given.len() as int, var_of[s[t as int].args[j]]),
{
    enumerations_are_recognised(s, t, v);
    let y = s[t as int].args[j];
    assert(or_leaves(s, t).contains(y));
    assert(subterm(s, given[k], t) && var_of.contains_key(y));
}

} // verus!
