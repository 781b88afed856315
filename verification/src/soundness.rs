//! What the rewriting of assertions keeps.

use crate::aliases::{aliases_true, proper_aliases};
use crate::ite_table::{
    chosen_tables, flattening, index_const, is_table, spine, spine_case, spine_from,
    table_flattening_is_sound, table_flattening_preserves_models, EqIteTable, MIN_TABLE_CASES,
};
use crate::rewrite::{
    argument_definitions_are_sound, argument_definitions_preserve_models, argument_kind, avoids,
    defined_by_equations, defining, ite_elimination_is_sound, ite_elimination_preserves_models,
    ites_eliminated, lemma_defining, lemma_eqv_equal, lemma_replaced_subterm, lists_replaced,
    replaced_arg, symbols_of, value_ite, well_sorted, ArgKind, Replacing,
};
use crate::semantics::{eval, holds, lemma_extend, Interp};
use crate::solver::{
    arguments_replaced, ites_replaced, names_folded, nests_folded, stages_ok, tables_replaced,
    Stages,
};
use crate::tables::TableState;
use crate::terms::{extends, node_below, numeric_sort, terms_wf, Op, TermId, TermView};
use crate::walk::{lemma_subst_eval, map_ok, quantifier_free, subterm};
use crate::zero_one::{nests_keep_their_value, zero_one_valued, FOLD_ROUNDS};
use vstd::prelude::*;

verus! {

/// Integer literals are numbers.
pub open spec fn literals_numeric(s: Seq<TermView>) -> bool {
    forall|t: int|
        0 <= t < s.len() && (#[trigger] s[t]).op == Op::IntConst ==> numeric_sort(s[t].sort)
}

/// The forms of the stages have no quantifiers, names have the sorts of what
/// they name, and integer literals are numbers.
pub open spec fn stages_plain(st: Stages) -> bool {
    &&& forall|k: int| 0 <= k < 7 ==> quantifier_free(st.stores[6], #[trigger] st.forms[k])
    &&& map_ok(st.stores[0], st.tables[0].unit_eq_rep@)
    &&& literals_numeric(st.stores[6])
}

proof fn lemma_free_back(a: Seq<TermView>, b: Seq<TermView>, t: TermId)
    requires
        terms_wf(a),
        extends(a, b),
        t < a.len(),
        quantifier_free(b, t),
    ensures
        quantifier_free(a, t),
    decreases t,
{
    assert(node_below(a, t as int));
    assert(b[t as int] == a[t as int]);
    assert forall|k: int| 0 <= k < a[t as int].args.len() && a[t as int].args[k] < t implies
        quantifier_free(a, #[trigger] a[t as int].args[k]) by {
        assert(quantifier_free(b, b[t as int].args[k]));
        lemma_free_back(a, b, a[t as int].args[k]);
    }
}

proof fn lemma_sorted_back(a: Seq<TermView>, b: Seq<TermView>, i: Interp)
    requires
        terms_wf(a),
        terms_wf(b),
        extends(a, b),
        well_sorted(b, i),
    ensures
        well_sorted(a, i),
{
    assert forall|t: TermId| t < a.len() implies {
        &&& numeric_sort(a[t as int].sort) ==> #[trigger] eval(a, i, t as int) is Num
        &&& a[t as int].sort == crate::terms::BOOL_SORT ==> eval(a, i, t as int) is Bool
    } by {
        lemma_extend(a, b, i, t);
        assert(b[t as int] == a[t as int]);
        assert(eval(b, i, t as int) == eval(a, i, t as int));
    }
}

/// A spine keeps its index.
proof fn lemma_spine_index(
    s: Seq<TermView>,
    t: TermId,
    x: TermId,
    cases: Seq<(i64, TermId)>,
    nodes: Seq<TermId>,
)
    ensures
        spine_from(s, t, Some(x), cases, nodes).0 == Some(x),
    decreases t,
{
    if spine_case(s, t, Some(x), cases) && s[t as int].args[2] < t {
        let (y, k) = index_const(s, s[t as int].args[0])->0;
        lemma_spine_index(
            s,
            s[t as int].args[2],
            y,
            cases.push((k, s[t as int].args[1])),
            nodes.push(t),
        );
    }
}

/// The index of a table is a number.
proof fn lemma_index_numeric(s0: Seq<TermView>, s: Seq<TermView>, term: TermId, ts: Seq<EqIteTable>)
    requires
        terms_wf(s0),
        terms_wf(s),
        extends(s0, s),
        literals_numeric(s),
        chosen_tables(s0, term, ts),
    ensures
        forall|b: int|
            0 <= b < ts.len() ==> numeric_sort(s[(#[trigger] ts[b]).index as int].sort),
{
    assert forall|b: int| 0 <= b < ts.len() implies numeric_sort(
        s[(#[trigger] ts[b]).index as int].sort,
    ) by {
        let t = ts[b].root;
        let none = Seq::<(i64, TermId)>::empty();
        assert(is_table(s0, ts[b]));
        assert(spine(s0, t).1.len() > 0);
        assert(spine_case(s0, t, None, none) && s0[t as int].args[2] < t);
        let cond = s0[t as int].args[0];
        let (x, k) = index_const(s0, cond)->0;
        lemma_spine_index(
            s0,
            s0[t as int].args[2],
            x,
            none.push((k, s0[t as int].args[1])),
            Seq::<TermId>::empty().push(t),
        );
        assert(ts[b].index == x);
        assert(node_below(s0, cond as int));
        let (l, r) = (s0[cond as int].args[0], s0[cond as int].args[1]);
        assert(s[l as int] == s0[l as int]);
        assert(s[r as int] == s0[r as int]);
    }
}

proof fn lemma_arguments_sound(
    s0: Seq<TermView>,
    s: Seq<TermView>,
    kind: ArgKind,
    t: TermId,
    r: TermId,
    i: Interp,
)
    requires
        terms_wf(s),
        t < s.len(),
        quantifier_free(s, t),
        well_sorted(s, i),
        arguments_replaced(s0, s, kind, t, r),
        holds(s, i, r),
    ensures
        holds(s, i, t),
{
    reveal(arguments_replaced);
    if r != t {
        let (m, ks) = choose|m: Map<TermId, TermId>, ks: Seq<TermId>|
            lists_replaced(s0, kind, t, ks) && #[trigger] defined_by_equations(s, kind, m, ks, t, r);
        argument_definitions_are_sound(s, i, kind, m, ks, t, r);
    }
}

proof fn lemma_ites_sound(
    s0: Seq<TermView>,
    a: &TableState,
    s: Seq<TermView>,
    b: &TableState,
    t: TermId,
    r: TermId,
    i: Interp,
)
    requires
        terms_wf(s),
        t < s.len(),
        quantifier_free(s, t),
        well_sorted(s, i),
        ites_replaced(s0, a, s, b, t, r),
        holds(s, i, r),
    ensures
        holds(s, i, t),
{
    reveal(ites_replaced);
    if r != t {
        let (m, ks) = choose|m: Map<TermId, TermId>, ks: Seq<TermId>| #[trigger]
            ites_eliminated(s, m, ks, t, r);
        ite_elimination_is_sound(s, i, m, ks, t, r);
    }
}

proof fn lemma_tables_sound(
    s0: Seq<TermView>,
    a: &TableState,
    s: Seq<TermView>,
    b: &TableState,
    t: TermId,
    r: TermId,
    i: Interp,
)
    requires
        terms_wf(s0),
        terms_wf(s),
        extends(s0, s),
        t < s.len(),
        quantifier_free(s, t),
        well_sorted(s, i),
        literals_numeric(s),
        tables_replaced(s0, a, s, b, t, r),
        holds(s, i, r),
    ensures
        holds(s, i, t),
{
    reveal(tables_replaced);
    if r != t {
        let (m, ts, sides) = choose|m: Map<TermId, TermId>, ts: Seq<EqIteTable>, sides: Seq<TermId>|
         #[trigger]
            flattening(s0, a, s, b, m, ts, sides, t, r);
        lemma_index_numeric(s0, s, t, ts);
        table_flattening_is_sound(s, i, m, ts, sides, t, r);
    }
}

proof fn lemma_truth(a: Seq<TermView>, b: Seq<TermView>, i: Interp, t: TermId)
    requires
        terms_wf(a),
        terms_wf(b),
        extends(a, b),
        t < a.len(),
    ensures
        holds(a, i, t) == holds(b, i, t),
{
    lemma_extend(a, b, i, t);
}

/// Rewriting an assertion adds no solutions: a well-sorted interpretation that
/// satisfies what an assertion is rewritten to satisfies the assertion, where
/// aliases have the values of what they name and the terms that count as 0 or 1
/// are.
pub proof fn rewriting_is_sound(st: Stages, i: Interp)
    requires
        stages_ok(st),
        stages_plain(st),
        well_sorted(st.stores[6], i),
        aliases_true(st.stores[6], i, st.tables[0].unit_eq_rep@),
        zero_one_valued(st.stores[3], i, st.tables[2].zero_one_terms@),
        holds(st.stores[6], i, st.forms[6]),
    ensures
        holds(st.stores[0], i, st.forms[0]),
{
    let s = st.stores;
    let f = st.forms;
    assert forall|k: int| 0 <= k < 7 implies well_sorted(#[trigger] s[k], i) by {
        assert(extends(s[k], s[6]));
        lemma_sorted_back(s[k], s[6], i);
    }
    assert forall|k: int, n: int| 0 <= k <= n < 7 implies #[trigger] f[k] < s[n].len()
        && quantifier_free(#[trigger] s[n], f[k]) by {
        assert(extends(s[k], s[n]) && extends(s[n], s[6]));
        assert(f[k] < s[k].len());
        lemma_free_back(s[n], s[6], f[k]);
    }
    assert(f[5] < s[6].len() && quantifier_free(s[6], f[5]));
    lemma_arguments_sound(s[5], s[6], ArgKind::Numeric, f[5], f[6], i);
    assert(extends(s[5], s[6]));
    lemma_truth(s[5], s[6], i, f[5]);
    assert(f[4] < s[5].len() && quantifier_free(s[5], f[4]));
    lemma_arguments_sound(s[4], s[5], ArgKind::Bool, f[4], f[5], i);
    assert(extends(s[4], s[5]));
    lemma_truth(s[4], s[5], i, f[4]);
    assert(f[3] < s[4].len() && quantifier_free(s[4], f[3]));
    lemma_ites_sound(s[3], &st.tables[3], s[4], &st.tables[4], f[3], f[4], i);
    assert(extends(s[3], s[4]));
    lemma_truth(s[3], s[4], i, f[3]);
    assert(f[2] < s[3].len() && quantifier_free(s[3], f[2]));
    lemma_nests_kept(s[2], &st.tables[2], s[3], &st.tables[3], f[2], f[3], i);
    assert(extends(s[2], s[3]));
    lemma_truth(s[2], s[3], i, f[2]);
    assert(f[1] < s[2].len() && quantifier_free(s[2], f[1]));
    assert(extends(s[1], s[2]) && extends(s[2], s[6]));
    assert(literals_numeric(s[2])) by {
        assert forall|t: int| 0 <= t < s[2].len() && (#[trigger] s[2][t]).op == Op::IntConst implies
            numeric_sort(s[2][t].sort) by {
            assert(s[6][t] == s[2][t]);
        }
    }
    lemma_tables_sound(s[1], &st.tables[1], s[2], &st.tables[2], f[1], f[2], i);
    lemma_truth(s[1], s[2], i, f[1]);
    assert(f[0] < s[1].len() && quantifier_free(s[1], f[0]));
    assert(extends(s[0], s[1]) && extends(s[1], s[6]));
    let reps = st.tables[0].unit_eq_rep@;
    crate::walk::lemma_map_ok_extend(s[0], s[1], reps);
    assert(aliases_true(s[1], i, reps)) by {
        assert forall|k: TermId| #[trigger] reps.contains_key(k) implies crate::semantics::eqv(
            s[1][k as int].sort,
            eval(s[1], i, k as int),
            eval(s[1], i, reps[k] as int),
        ) by {
            lemma_extend(s[1], s[6], i, k);
            lemma_extend(s[1], s[6], i, reps[k]);
            assert(s[6][k as int] == s[1][k as int]);
        }
    }
    lemma_names_kept(&st.tables[0], s[0], s[1], f[0], f[1], i);
    lemma_truth(s[0], s[1], i, f[0]);
}

/// The interpretation that gives the variables which the stages introduce the
/// values of what they replace.
pub open spec fn rewriting_interp(st: Stages, i: Interp) -> Interp {
    let tables = defining(st.stores[1], i, Replacing::Tables);
    let ites = defining(st.stores[3], tables, Replacing::Ites);
    let bools = defining(st.stores[4], ites, Replacing::BoolArgs);
    defining(st.stores[5], bools, Replacing::NumArgs)
}

/// No form holds variables of the kind that its stage introduces.
pub open spec fn stages_fresh(st: Stages) -> bool {
    &&& avoids(st.stores[1], symbols_of(Replacing::Tables), st.forms[1])
    &&& avoids(st.stores[3], symbols_of(Replacing::Ites), st.forms[3])
    &&& avoids(st.stores[4], symbols_of(Replacing::BoolArgs), st.forms[4])
    &&& avoids(st.stores[5], symbols_of(Replacing::NumArgs), st.forms[5])
}

proof fn lemma_unchanged(s: Seq<TermView>, i: Interp, kind: Replacing, t: TermId)
    requires
        terms_wf(s),
        t < s.len(),
        avoids(s, symbols_of(kind), t),
    ensures
        holds(s, defining(s, i, kind), t) == holds(s, i, t),
{
    lemma_defining(s, i, kind, t);
}

proof fn lemma_arguments_kept(
    s0: Seq<TermView>,
    s: Seq<TermView>,
    kind: ArgKind,
    t: TermId,
    r: TermId,
    i: Interp,
)
    requires
        terms_wf(s0),
        terms_wf(s),
        extends(s0, s),
        t < s0.len(),
        quantifier_free(s0, t),
        avoids(s0, symbols_of(argument_kind(kind)), t),
        arguments_replaced(s0, s, kind, t, r),
    ensures
        holds(s, defining(s0, i, argument_kind(kind)), r) == holds(s0, i, t),
{
    reveal(arguments_replaced);
    if (kind == ArgKind::Bool || quantifier_free(s0, t)) && exists|k: TermId| #[trigger]
        replaced_arg(s0, kind, t, k) {
        let (m, ks) = choose|m: Map<TermId, TermId>, ks: Seq<TermId>|
            lists_replaced(s0, kind, t, ks) && #[trigger] defined_by_equations(s, kind, m, ks, t, r);
        assert forall|k: TermId| #[trigger] ks.contains(k) implies subterm(s0, t, k) by {
            assert(replaced_arg(s0, kind, t, k));
            lemma_replaced_subterm(s0, kind, t, k);
        }
        argument_definitions_preserve_models(s0, s, i, kind, m, ks, t, r);
    } else {
        lemma_unchanged(s0, i, argument_kind(kind), t);
    }
}

proof fn lemma_ites_kept(
    s0: Seq<TermView>,
    a: &TableState,
    s: Seq<TermView>,
    b: &TableState,
    t: TermId,
    r: TermId,
    i: Interp,
)
    requires
        terms_wf(s0),
        terms_wf(s),
        extends(s0, s),
        t < s0.len(),
        quantifier_free(s0, t),
        avoids(s0, symbols_of(Replacing::Ites), t),
        ites_replaced(s0, a, s, b, t, r),
    ensures
        holds(s, defining(s0, i, Replacing::Ites), r) == holds(s0, i, t),
{
    reveal(ites_replaced);
    if exists|k: TermId| #[trigger] subterm(s0, t, k) && value_ite(s0, k) {
        let (m, ks) = choose|m: Map<TermId, TermId>, ks: Seq<TermId>| #[trigger]
            ites_eliminated(s, m, ks, t, r);
        ite_elimination_preserves_models(s0, s, i, m, ks, t, r);
    } else {
        lemma_unchanged(s0, i, Replacing::Ites, t);
    }
}

proof fn lemma_tables_kept(
    s0: Seq<TermView>,
    a: &TableState,
    s: Seq<TermView>,
    b: &TableState,
    t: TermId,
    r: TermId,
    i: Interp,
)
    requires
        terms_wf(s0),
        terms_wf(s),
        extends(s0, s),
        t < s0.len(),
        quantifier_free(s0, t),
        literals_numeric(s),
        avoids(s0, symbols_of(Replacing::Tables), t),
        tables_replaced(s0, a, s, b, t, r),
    ensures
        holds(s, defining(s0, i, Replacing::Tables), r) == holds(s0, i, t),
{
    reveal(tables_replaced);
    if exists|x: TermId|
        subterm(s0, t, x) && (#[trigger] spine(s0, x)).1.len() >= MIN_TABLE_CASES {
        let (m, ts, sides) = choose|m: Map<TermId, TermId>, ts: Seq<EqIteTable>, sides: Seq<TermId>|
         #[trigger]
            flattening(s0, a, s, b, m, ts, sides, t, r);
        lemma_index_numeric(s0, s, t, ts);
        table_flattening_preserves_models(s0, s, i, m, ts, sides, t, r);
    } else {
        lemma_unchanged(s0, i, Replacing::Tables, t);
    }
}

proof fn lemma_nests_kept(
    s0: Seq<TermView>,
    a: &TableState,
    s: Seq<TermView>,
    b: &TableState,
    t: TermId,
    r: TermId,
    i: Interp,
)
    requires
        terms_wf(s),
        t < s.len(),
        quantifier_free(s, t),
        nests_folded(s0, a, s, b, t, r),
        zero_one_valued(s, i, a.zero_one_terms@),
    ensures
        holds(s, i, r) == holds(s, i, t),
{
    reveal(nests_folded);
    if a.zero_one_terms@ != Set::<TermId>::empty() {
        nests_keep_their_value(
            s,
            i,
            FOLD_ROUNDS as int,
            t,
            a.zero_one_terms@,
            r,
            b.zero_one_terms@,
        );
    }
}

proof fn lemma_names_kept(
    tables: &TableState,
    s0: Seq<TermView>,
    s: Seq<TermView>,
    t: TermId,
    r: TermId,
    i: Interp,
)
    requires
        terms_wf(s),
        t < s.len(),
        quantifier_free(s, t),
        well_sorted(s, i),
        map_ok(s, tables.unit_eq_rep@),
        aliases_true(s, i, tables.unit_eq_rep@),
        names_folded(tables, s0, s, t, r),
    ensures
        holds(s, i, r) == holds(s, i, t),
{
    reveal(names_folded);
    if tables.table_index_terms@ != Set::<TermId>::empty() {
        let m = proper_aliases(tables.unit_eq_rep@);
        assert(map_ok(s, m)) by {
            assert forall|k: TermId| #[trigger] m.contains_key(k) implies k < s.len() && m[k]
                < s.len() && s[m[k] as int].sort == s[k as int].sort by {
                assert(tables.unit_eq_rep@.contains_key(k));
            }
        }
        assert forall|k: TermId| #[trigger] m.contains_key(k) implies eval(s, i, k as int) == eval(
            s,
            i,
            m[k] as int,
        ) by {
            assert(tables.unit_eq_rep@.contains_key(k));
            lemma_eqv_equal(s, i, k, m[k]);
        }
        lemma_subst_eval(s, i, m, t, r);
    }
}

/// Rewriting an assertion keeps its solutions: an interpretation, extended to
/// the variables that the stages introduce by the values of what they replace,
/// gives what the assertion is rewritten to the value that the assertion has.
pub proof fn rewriting_preserves_models(st: Stages, i: Interp)
    requires
        stages_ok(st),
        stages_plain(st),
        stages_fresh(st),
        well_sorted(st.stores[1], i),
        aliases_true(st.stores[1], i, st.tables[0].unit_eq_rep@),
        zero_one_valued(
            st.stores[3],
            defining(st.stores[1], i, Replacing::Tables),
            st.tables[2].zero_one_terms@,
        ),
    ensures
        holds(st.stores[6], rewriting_interp(st, i), st.forms[6]) == holds(
            st.stores[0],
            i,
            st.forms[0],
        ),
{
    let s = st.stores;
    let f = st.forms;
    assert forall|k: int, n: int| 0 <= k <= n < 7 implies #[trigger] f[k] < s[n].len()
        && quantifier_free(#[trigger] s[n], f[k]) by {
        assert(extends(s[k], s[n]) && extends(s[n], s[6]));
        assert(f[k] < s[k].len());
        lemma_free_back(s[n], s[6], f[k]);
    }
    assert(extends(s[0], s[1]));
    let reps = st.tables[0].unit_eq_rep@;
    crate::walk::lemma_map_ok_extend(s[0], s[1], reps);
    assert(f[0] < s[1].len() && quantifier_free(s[1], f[0]));
    lemma_truth(s[0], s[1], i, f[0]);
    lemma_names_kept(&st.tables[0], s[0], s[1], f[0], f[1], i);
    assert(extends(s[1], s[2]) && extends(s[2], s[6]));
    assert(literals_numeric(s[2])) by {
        assert forall|t: int| 0 <= t < s[2].len() && (#[trigger] s[2][t]).op == Op::IntConst implies
            numeric_sort(s[2][t].sort) by {
            assert(s[6][t] == s[2][t]);
        }
    }
    assert(f[1] < s[1].len() && quantifier_free(s[1], f[1]));
    lemma_tables_kept(s[1], &st.tables[1], s[2], &st.tables[2], f[1], f[2], i);
    let d2 = defining(s[1], i, Replacing::Tables);
    assert(extends(s[2], s[3]));
    lemma_truth(s[2], s[3], d2, f[2]);
    assert(f[2] < s[3].len() && quantifier_free(s[3], f[2]));
    lemma_nests_kept(s[2], &st.tables[2], s[3], &st.tables[3], f[2], f[3], d2);
    assert(extends(s[3], s[4]));
    assert(f[3] < s[3].len() && quantifier_free(s[3], f[3]));
    lemma_ites_kept(s[3], &st.tables[3], s[4], &st.tables[4], f[3], f[4], d2);
    let d4 = defining(s[3], d2, Replacing::Ites);
    assert(extends(s[4], s[5]));
    assert(f[4] < s[4].len() && quantifier_free(s[4], f[4]));
    lemma_arguments_kept(s[4], s[5], ArgKind::Bool, f[4], f[5], d4);
    let d5 = defining(s[4], d4, Replacing::BoolArgs);
    assert(extends(s[5], s[6]));
    assert(f[5] < s[5].len() && quantifier_free(s[5], f[5]));
    lemma_arguments_kept(s[5], s[6], ArgKind::Numeric, f[5], f[6], d5);
}

} // verus!
