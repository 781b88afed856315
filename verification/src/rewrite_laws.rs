//! What rewriting leaves no trace of.

use crate::aliases::{aliases_noted, aliases_noted_from, is_var};
use crate::constants::{chain_end, constant_binding};
use crate::constructors::is_equation;
use crate::ite_table::{index_const, int_literal, spine, spine_case, spine_from, MIN_TABLE_CASES};
use crate::purify_arith::{
    arith_position, array_structural, pure_arith, purification_is_complete, purified,
};
use crate::rewrite::{
    defined_by_equations, ite_sides, ite_sides_by, ites_eliminated, lists_replaced,
    lists_value_ites, replaced_arg, replaces, tables_carried, value_ite, ArgKind,
};
use crate::solver::{arguments_replaced, ites_replaced, rewritten, stages_ok, Stages};
use crate::string_laws::conjunct;
use crate::tables::TableState;
use crate::terms::{
    extends, node_below, numeric_sort, terms_wf, Op, SortKind, TermId, TermView, BOOL_SORT,
    TRUE_TERM,
};
use crate::walk::{lemma_reach_step, map_ok, quantifier_free, reach, subst, subterm};
use crate::zero_one::ite_folded;
use vstd::prelude::*;

verus! {

/// No conditional below the term is anything but a formula.
pub open spec fn without_value_ites(s: Seq<TermView>, t: TermId) -> bool {
    forall|x: TermId| #[trigger] subterm(s, t, x) ==> !(s[x as int].op == Op::Ite
        && s[x as int].sort != BOOL_SORT)
}

proof fn lemma_clear_node(s: Seq<TermView>, t: TermId)
    requires
        terms_wf(s),
        t < s.len(),
        !(s[t as int].op == Op::Ite && s[t as int].sort != BOOL_SORT),
        forall|k: int|
            0 <= k < s[t as int].args.len() ==> without_value_ites(s, #[trigger] s[t as int].args[k]),
    ensures
        without_value_ites(s, t),
{
    assert forall|x: TermId| #[trigger] subterm(s, t, x) implies !(s[x as int].op == Op::Ite
        && s[x as int].sort != BOOL_SORT) by {
        if x != t {
            let k = choose|k: int|
                0 <= k < s[t as int].args.len() && (#[trigger] s[t as int].args[k]) < t && reach(
                    s,
                    Map::empty(),
                    s[t as int].args[k],
                    x,
                );
            assert(subterm(s, s[t as int].args[k], x));
        }
    }
}

proof fn lemma_image_clear(
    s: Seq<TermView>,
    m: Map<TermId, TermId>,
    t: TermId,
    r: TermId,
)
    requires
        terms_wf(s),
        t < s.len() && r < s.len(),
        subst(s, m, t, r),
        forall|k: TermId| #[trigger] subterm(s, t, k) && value_ite(s, k) ==> m.contains_key(k),
        forall|k: TermId| #[trigger]
            m.contains_key(k) ==> m[k] < s.len() && s[m[k] as int].op == Op::Var
                && s[m[k] as int].args.len() == 0,
    ensures
        without_value_ites(s, r),
    decreases t,
{
    if !m.contains_key(t) {
        assert(subterm(s, t, t));
        assert(node_below(s, t as int));
        assert(node_below(s, r as int));
        assert forall|k: int| 0 <= k < s[r as int].args.len() implies without_value_ites(
            s,
            #[trigger] s[r as int].args[k],
        ) by {
            let y = s[t as int].args[k];
            assert(y < t);
            assert(subst(s, m, y, s[r as int].args[k]));
            assert forall|x: TermId| #[trigger] subterm(s, y, x) && value_ite(s, x) implies
                m.contains_key(x) by {
                assert(reach(s, Map::empty(), s[t as int].args[k], x));
                assert(subterm(s, t, x));
            }
            lemma_image_clear(s, m, y, s[r as int].args[k]);
        }
    }
    lemma_clear_node(s, r);
}

proof fn lemma_equation_clear(s: Seq<TermView>, a: TermId, b: TermId, e: TermId)
    requires
        terms_wf(s),
        e < s.len(),
        is_equation(s, a, b, e),
        without_value_ites(s, a),
        without_value_ites(s, b),
    ensures
        without_value_ites(s, e),
{
    if a == b {
        assert(s[TRUE_TERM as int].op == Op::True);
        assert(node_below(s, TRUE_TERM as int));
    }
    lemma_clear_node(s, e);
}

/// Where conditionals were eliminated, none is left in the result that is no
/// formula: neither in the assertion nor in what was added to it.
#[verifier::rlimit(40)]
pub proof fn ite_elimination_is_complete(
    s: Seq<TermView>,
    m: Map<TermId, TermId>,
    ks: Seq<TermId>,
    term: TermId,
    r: TermId,
)
    requires
        terms_wf(s),
        term < s.len(),
        ites_eliminated(s, m, ks, term, r),
    ensures
        without_value_ites(s, r),
{
    let parts = s[r as int].args;
    assert(node_below(s, r as int));
    assert forall|k: TermId| #[trigger] subterm(s, term, k) && value_ite(s, k) implies
        m.contains_key(k) by {
        assert(ks.contains(k));
    }
    assert forall|k: int| 0 <= k < parts.len() implies without_value_ites(
        s,
        #[trigger] s[r as int].args[k],
    ) by {
        if k == 0 {
            lemma_image_clear(s, m, term, parts[0]);
        } else {
            let j = (k - 1) / 2;
            let first = parts[1 + 2 * j];
            let second = parts[2 + 2 * j];
            assert(k == 1 + 2 * j || k == 2 + 2 * j);
            assert(ite_sides(s, m, ks[j], first, second));
            lemma_sides_clear(s, m, ks, term, ks[j], first, second);
        }
    }
    lemma_clear_node(s, r);
}

proof fn lemma_sides_clear(
    s: Seq<TermView>,
    m: Map<TermId, TermId>,
    ks: Seq<TermId>,
    term: TermId,
    k: TermId,
    p: TermId,
    q: TermId,
)
    requires
        terms_wf(s),
        term < s.len(),
        lists_value_ites(s, term, ks),
        replaces(s, m, ks, |k: TermId| crate::terms::Symbol::IteResult(k)),
        ks.contains(k),
        ite_sides(s, m, k, p, q),
    ensures
        without_value_ites(s, p),
        without_value_ites(s, q),
{
    let (c, a, b, ea, eb, nc) = choose|
        c: TermId,
        a: TermId,
        b: TermId,
        ea: TermId,
        eb: TermId,
        nc: TermId,
    | #[trigger] ite_sides_by(s, m, k, p, q, c, a, b, ea, eb, nc);
    let args = s[k as int].args;
    assert(subterm(s, term, k) && value_ite(s, k));
    assert(node_below(s, k as int));
    assert(m.contains_key(k));
    assert forall|n: int, x: TermId|
        0 <= n < args.len() && #[trigger] subterm(s, args[n], x) && value_ite(s, x) implies
        m.contains_key(x) by {
        crate::walk::lemma_reach_le(s, Map::empty(), args[n], x);
        lemma_reach_trans(s, term, k, n, x);
        assert(ks.contains(x));
    }
    assert(args.len() == 3);
    lemma_image_clear(s, m, args[0], c);
    lemma_image_clear(s, m, args[1], a);
    lemma_image_clear(s, m, args[2], b);
    lemma_clear_node(s, m[k]);
    lemma_equation_clear(s, m[k], a, ea);
    lemma_equation_clear(s, m[k], b, eb);
    lemma_clear_node(s, nc);
    lemma_clear_node(s, p);
    lemma_clear_node(s, q);
}

proof fn lemma_reach_trans(s: Seq<TermView>, term: TermId, k: TermId, n: int, x: TermId)
    requires
        terms_wf(s),
        term < s.len(),
        subterm(s, term, k),
        0 <= n < s[k as int].args.len(),
        subterm(s, s[k as int].args[n], x),
    ensures
        subterm(s, term, x),
    decreases s[k as int].args[n],
{
    crate::walk::lemma_reach_le(s, Map::empty(), term, k);
    lemma_reach_step(s, Map::empty(), term, k, n);
    let y = s[k as int].args[n];
    assert(node_below(s, k as int));
    if x != y {
        let j = choose|j: int|
            0 <= j < s[y as int].args.len() && (#[trigger] s[y as int].args[j]) < y && reach(
                s,
                Map::empty(),
                s[y as int].args[j],
                x,
            );
        assert(subterm(s, s[y as int].args[j], x));
        lemma_reach_trans(s, term, y, j, x);
    }
}

/// The assertion with its arguments replaced, before the equations that are added.
pub open spec fn replaced_body(s: Seq<TermView>, r: TermId) -> TermId {
    s[r as int].args[0]
}

proof fn lemma_origin(
    s: Seq<TermView>,
    m: Map<TermId, TermId>,
    t: TermId,
    r: TermId,
    x: TermId,
)
    requires
        terms_wf(s),
        t < s.len() && r < s.len(),
        subst(s, m, t, r),
        subterm(s, r, x),
        forall|k: TermId| #[trigger]
            m.contains_key(k) ==> m[k] < s.len() && s[m[k] as int].op == Op::Var
                && s[m[k] as int].args.len() == 0,
    ensures
        s[x as int].op == Op::Var || exists|p: TermId| #[trigger]
            subterm(s, t, p) && p < s.len() && !m.contains_key(p) && subst(s, m, p, x),
    decreases t,
{
    if m.contains_key(t) {
        assert(x == r);
    } else if x == r {
        assert(subterm(s, t, t));
    } else {
        let k = choose|k: int|
            0 <= k < s[r as int].args.len() && (#[trigger] s[r as int].args[k]) < r && reach(
                s,
                Map::empty(),
                s[r as int].args[k],
                x,
            );
        let y = s[t as int].args[k];
        assert(node_below(s, t as int));
        assert(node_below(s, r as int));
        assert(y < t);
        assert(subst(s, m, y, s[r as int].args[k]));
        lemma_origin(s, m, y, s[r as int].args[k], x);
        if s[x as int].op != Op::Var {
            let p = choose|p: TermId| #[trigger]
                subterm(s, y, p) && p < s.len() && !m.contains_key(p) && subst(s, m, p, x);
            assert(reach(s, Map::empty(), s[t as int].args[k], p));
            assert(subterm(s, t, p));
        }
    }
}

/// Where Boolean arguments were replaced, every function of the assertion is left
/// with variables and applications for its Boolean arguments; where numeric ones
/// were, with numbers that arithmetic knows as they are, or with constants that
/// are coefficients.
pub proof fn arguments_are_plain(
    s: Seq<TermView>,
    kind: ArgKind,
    m: Map<TermId, TermId>,
    ks: Seq<TermId>,
    term: TermId,
    r: TermId,
    p: TermId,
    n: int,
)
    requires
        terms_wf(s),
        term < s.len(),
        lists_replaced(s, kind, term, ks),
        defined_by_equations(s, kind, m, ks, term, r),
        subterm(s, replaced_body(s, r), p),
        p < s.len() && s[p as int].op == Op::Apply,
        0 <= n < s[p as int].args.len(),
    ensures
        ({
            let a = s[s[p as int].args[n] as int];
            &&& kind == ArgKind::Bool && a.sort == BOOL_SORT ==> a.op == Op::Var || a.op
                == Op::Apply
            &&& kind == ArgKind::Numeric && numeric_sort(a.sort) ==> match a.op {
                Op::Var | Op::Apply | Op::Select | Op::Ite | Op::Div | Op::Mod
                | Op::DtSelector => true,
                Op::IntConst | Op::RealConst => true,
                _ => false,
            }
            &&& kind == ArgKind::Numeric && (a.op == Op::IntConst || a.op == Op::RealConst)
                && numeric_sort(a.sort) ==> exists|q: TermId, c: TermId| #[trigger]
                subterm(s, term, q) && s[q as int].op == Op::Mul && #[trigger] s[q as int].args.contains(
                    c,
                ) && s[c as int].op == a.op && s[c as int].data == a.data
        }),
{
    let body = replaced_body(s, r);
    assert(node_below(s, r as int));
    lemma_origin(s, m, term, body, p);
    let o = choose|o: TermId| #[trigger]
        subterm(s, term, o) && o < s.len() && !m.contains_key(o) && subst(s, m, o, p);
    let k = s[o as int].args[n];
    assert(node_below(s, o as int));
    assert(k < o);
    assert(subst(s, m, k, s[p as int].args[n]));
    assert(s[o as int].args.contains(k));
    assert(crate::rewrite::function_arg(s, term, k));
    if !m.contains_key(k) {
        assert(!ks.contains(k));
        assert(!replaced_arg(s, kind, term, k));
    } else {
        assert(ks.contains(k));
    }
}

/// A nest of conditionals that looks the index up: each compares it with one of
/// the constants, in turn.
pub open spec fn looks_up(s: Seq<TermView>, t: TermId, index: TermId, keys: Seq<i64>) -> bool
    decreases keys.len(),
{
    keys.len() > 0 ==> {
        &&& t < s.len() && s[t as int].op == Op::Ite && s[t as int].sort != BOOL_SORT
        &&& s[t as int].args[2] < t
        &&& compares_with(s, s[t as int].args[0], index, keys[0])
        &&& looks_up(s, s[t as int].args[2], index, keys.drop_first())
    }
}

/// The condition is the equation of the index and the constant, in either order.
pub open spec fn compares_with(s: Seq<TermView>, c: TermId, index: TermId, k: i64) -> bool {
    &&& c < s.len() && s[c as int].op == Op::Eq
    &&& exists|lit: TermId| #[trigger]
        int_literal(s, lit) == Some(k) && (s[c as int].args == seq![index, lit] || s[c as int].args
            == seq![lit, index])
}

proof fn lemma_spine_goes_on(
    s: Seq<TermView>,
    t: TermId,
    index: TermId,
    keys: Seq<i64>,
    first: Option<TermId>,
    cases: Seq<(i64, TermId)>,
    nodes: Seq<TermId>,
)
    requires
        looks_up(s, t, index, keys),
        int_literal(s, index) is None,
        keys.no_duplicates(),
        first matches Some(p) ==> p == index,
        forall|j: int, k: int|
            0 <= j < cases.len() && 0 <= k < keys.len() ==> (#[trigger] cases[j]).0
                != #[trigger] keys[k],
    ensures
        spine_from(s, t, first, cases, nodes).1.len() >= cases.len() + keys.len(),
    decreases t,
{
    let (_, found, _, _) = spine_from(s, t, first, cases, nodes);
    if keys.len() > 0 {
        let c = s[t as int].args[0];
        let lit = choose|lit: TermId| #[trigger]
            int_literal(s, lit) == Some(keys[0]) && (s[c as int].args == seq![index, lit]
                || s[c as int].args == seq![lit, index]);
        assert(index_const(s, c) == Some((index, keys[0])));
        let more = cases.push((keys[0], s[t as int].args[1]));
        let rest = keys.drop_first();
        assert forall|j: int, k: int| 0 <= j < more.len() && 0 <= k < rest.len() implies (
        #[trigger] more[j]).0 != #[trigger] rest[k] by {
            assert(rest[k] == keys[k + 1]);
            if j < cases.len() {
                assert(more[j] == cases[j]);
            }
        }
        assert(rest.no_duplicates());
        lemma_spine_goes_on(
            s,
            s[t as int].args[2],
            index,
            rest,
            Some(index),
            more,
            nodes.push(t),
        );
    } else {
        lemma_spine_grows(s, t, first, cases, nodes);
    }
}

proof fn lemma_spine_grows(
    s: Seq<TermView>,
    t: TermId,
    first: Option<TermId>,
    cases: Seq<(i64, TermId)>,
    nodes: Seq<TermId>,
)
    ensures
        spine_from(s, t, first, cases, nodes).1.len() >= cases.len(),
    decreases t,
{
    if spine_case(s, t, first, cases) && s[t as int].args[2] < t {
        let (x, k) = index_const(s, s[t as int].args[0])->0;
        lemma_spine_grows(
            s,
            s[t as int].args[2],
            Some(x),
            cases.push((k, s[t as int].args[1])),
            nodes.push(t),
        );
    }
}

/// A nest that looks an index up under four different constants or more counts as
/// a table, with an entry for each of the constants at least.
pub proof fn lookups_are_tables(s: Seq<TermView>, t: TermId, index: TermId, keys: Seq<i64>)
    requires
        looks_up(s, t, index, keys),
        int_literal(s, index) is None,
        keys.no_duplicates(),
        keys.len() >= 4,
    ensures
        spine(s, t).1.len() >= keys.len(),
        spine(s, t).1.len() >= MIN_TABLE_CASES,
{
    lemma_spine_goes_on(s, t, index, keys, None, Seq::empty(), Seq::empty());
}

/// Folding undoes conditionals over terms that are 0 or 1: the greater of two, the
/// absolute value of a difference, the test whether one is positive, and branches
/// that are one term.
pub proof fn zero_one_conditionals_fold(
    s: Seq<TermView>,
    z: Set<TermId>,
    c: TermId,
    th: TermId,
    el: TermId,
    out: TermId,
    z2: Set<TermId>,
    x: TermId,
)
    requires
        ite_folded(s, z, c, th, el, out, z2),
        c < s.len() && th < s.len() && el < s.len() && x < s.len(),
    ensures
        th == el ==> out == th,
        th != el && z.contains(th) && z.contains(el) && s[c as int].op == Op::Gt && s[c as int].args
            == seq![th, el] && int_literal(s, el) is None ==> s[out as int].op == Op::Sub
            && z2.contains(out),
        th != el && z.contains(th) && s[c as int].op == Op::Gt && s[c as int].args == seq![th, el]
            && int_literal(s, el) == Some(0i64) ==> out == th,
        s[c as int].op == Op::Gt && s[c as int].args.len() == 2 && s[c as int].args[0] == x
            && int_literal(s, s[c as int].args[1]) == Some(0i64) && int_literal(s, th) == Some(1i64)
            && int_literal(s, el) == Some(0i64) && z.contains(x) && s[x as int].sort
            == s[th as int].sort && x != th ==> out == x,
        th != el && s[c as int].op == Op::Lt && s[c as int].args.len() == 2 && s[c as int].args[0]
            == el && int_literal(s, s[c as int].args[1]) == Some(0i64) && s[th as int].op == Op::Neg
            && s[th as int].args == seq![el] && s[el as int].op == Op::Sub && z.contains(
            s[el as int].args[0],
        ) && z.contains(s[el as int].args[1]) ==> s[out as int].op == Op::Mul
            && s[out as int].args == seq![el, el] && z2.contains(out),
        z.subset_of(z2),
{
}

/// A term that a conjunct equates with a variable of its sort has a name; so has
/// the variable.
pub proof fn equated_terms_have_names(
    s: Seq<TermView>,
    reps: Map<TermId, TermId>,
    t: TermId,
    e: TermId,
    x: TermId,
    y: TermId,
)
    requires
        terms_wf(s),
        t < s.len(),
        conjunct(s, t, e),
        e < s.len() && s[e as int].op == Op::Eq,
        s[e as int].args == seq![x, y] || s[e as int].args == seq![y, x],
        is_var(s, x),
        s[x as int].sort == s[y as int].sort,
    ensures
        aliases_noted(s, reps, t).contains_key(x),
        aliases_noted(s, reps, t).contains_key(y),
    decreases t,
{
    if t != e {
        let args = s[t as int].args;
        assert(node_below(s, t as int));
        let k = choose|k: int|
            0 <= k < args.len() && #[trigger] args[k] < t && conjunct(s, args[k], e);
        equated_terms_have_names(s, aliases_noted_from(s, reps, t, k + 1), args[k], e, x, y);
        lemma_names_from(s, reps, t, 0, k);
    }
}

proof fn lemma_names_stay(s: Seq<TermView>, reps: Map<TermId, TermId>, t: TermId)
    ensures
        reps.dom().subset_of(aliases_noted(s, reps, t).dom()),
    decreases t, s[t as int].args.len() + 2,
{
    if t < s.len() && s[t as int].op == Op::And {
        lemma_names_stay_from(s, reps, t, 0);
    }
}

proof fn lemma_names_stay_from(s: Seq<TermView>, reps: Map<TermId, TermId>, t: TermId, k: int)
    ensures
        reps.dom().subset_of(aliases_noted_from(s, reps, t, k).dom()),
    decreases t, s[t as int].args.len() - k + 1,
{
    if 0 <= k < s[t as int].args.len() && s[t as int].args[k] < t {
        lemma_names_stay_from(s, reps, t, k + 1);
        lemma_names_stay(s, aliases_noted_from(s, reps, t, k + 1), s[t as int].args[k]);
    }
}

proof fn lemma_names_from(s: Seq<TermView>, reps: Map<TermId, TermId>, t: TermId, j: int, k: int)
    requires
        terms_wf(s),
        t < s.len(),
        0 <= j <= k < s[t as int].args.len(),
    ensures
        aliases_noted_from(s, reps, t, k).dom().subset_of(
            aliases_noted_from(s, reps, t, j).dom(),
        ),
    decreases k - j,
{
    if j < k {
        assert(node_below(s, t as int));
        assert(s[t as int].args[j] < t);
        lemma_names_from(s, reps, t, j + 1, k);
        lemma_names_stay(s, aliases_noted_from(s, reps, t, j + 1), s[t as int].args[j]);
    }
}

proof fn lemma_clear_extend(a: Seq<TermView>, b: Seq<TermView>, t: TermId)
    requires
        terms_wf(a),
        terms_wf(b),
        extends(a, b),
        t < a.len(),
        without_value_ites(a, t),
    ensures
        without_value_ites(b, t),
    decreases t,
{
    assert(node_below(a, t as int));
    assert(b[t as int] == a[t as int]);
    assert(subterm(a, t, t));
    assert forall|k: int| 0 <= k < b[t as int].args.len() implies without_value_ites(
        b,
        #[trigger] b[t as int].args[k],
    ) by {
        let y = a[t as int].args[k];
        assert(y < t);
        assert forall|x: TermId| #[trigger] subterm(a, y, x) implies !(a[x as int].op == Op::Ite
            && a[x as int].sort != BOOL_SORT) by {
            assert(reach(a, Map::empty(), a[t as int].args[k], x));
            assert(subterm(a, t, x));
        }
        lemma_clear_extend(a, b, y);
    }
    lemma_clear_node(b, t);
}

proof fn lemma_clear_part(s: Seq<TermView>, t: TermId, x: TermId)
    requires
        terms_wf(s),
        t < s.len(),
        without_value_ites(s, t),
        subterm(s, t, x),
    ensures
        without_value_ites(s, x),
{
    assert forall|y: TermId| #[trigger] subterm(s, x, y) implies !(s[y as int].op == Op::Ite
        && s[y as int].sort != BOOL_SORT) by {
        if y == x {
        } else {
            let k = choose|k: int|
                0 <= k < s[x as int].args.len() && (#[trigger] s[x as int].args[k]) < x && reach(
                    s,
                    Map::empty(),
                    s[x as int].args[k],
                    y,
                );
            assert(subterm(s, s[x as int].args[k], y));
            lemma_reach_trans(s, t, x, k, y);
        }
    }
}

proof fn lemma_arguments_clear(
    s0: Seq<TermView>,
    s: Seq<TermView>,
    kind: ArgKind,
    m: Map<TermId, TermId>,
    ks: Seq<TermId>,
    term: TermId,
    r: TermId,
)
    requires
        terms_wf(s0) && terms_wf(s),
        extends(s0, s),
        term < s0.len(),
        lists_replaced(s0, kind, term, ks),
        defined_by_equations(s, kind, m, ks, term, r),
        without_value_ites(s0, term),
    ensures
        without_value_ites(s, r),
{
    let parts = s[r as int].args;
    lemma_clear_extend(s0, s, term);
    assert(node_below(s, r as int));
    assert forall|k: int| 0 <= k < parts.len() implies without_value_ites(
        s,
        #[trigger] s[r as int].args[k],
    ) by {
        if k == 0 {
            lemma_image_clear(s, m, term, parts[0]);
        } else {
            let x = ks[k - 1];
            assert(ks.contains(x));
            assert(replaced_arg(s0, kind, term, x));
            let p = choose|p: TermId| #[trigger]
                subterm(s0, term, p) && s0[p as int].op == Op::Apply && s0[p as int].args.contains(
                    x,
                );
            crate::walk::lemma_reach_le(s0, Map::empty(), term, p);
            let j = s0[p as int].args.index_of(x);
            lemma_reach_step(s0, Map::empty(), term, p, j);
            lemma_clear_part(s0, term, x);
            crate::walk::lemma_reach_le(s0, Map::empty(), term, x);
            lemma_clear_extend(s0, s, x);
            assert(m.contains_key(x));
            lemma_clear_node(s, m[x]);
            assert(parts[1 + (k - 1)] < s.len());
            lemma_equation_clear(s, m[x], x, parts[k]);
        }
    }
    lemma_clear_node(s, r);
}

proof fn lemma_argument_stage(
    s0: Seq<TermView>,
    s1: Seq<TermView>,
    kind: ArgKind,
    t: TermId,
    r: TermId,
)
    requires
        terms_wf(s0) && terms_wf(s1),
        extends(s0, s1),
        t < s0.len(),
        arguments_replaced(s0, s1, kind, t, r),
        without_value_ites(s0, t),
    ensures
        without_value_ites(s1, r),
{
    reveal(arguments_replaced);
    if (kind == ArgKind::Bool || quantifier_free(s0, t)) && exists|k: TermId| #[trigger]
        replaced_arg(s0, kind, t, k) {
        let (m, ks) = choose|m: Map<TermId, TermId>, ks: Seq<TermId>|
            lists_replaced(s0, kind, t, ks) && #[trigger] defined_by_equations(
                s1,
                kind,
                m,
                ks,
                t,
                r,
            );
        lemma_arguments_clear(s0, s1, kind, m, ks, t, r);
    }
}

/// Whatever an assertion is rewritten to has no conditional that is not a formula:
/// arithmetic and congruence closure see none.
pub proof fn rewriting_leaves_no_value_ites(
    s0: Seq<TermView>,
    a: &TableState,
    s1: Seq<TermView>,
    b: &TableState,
    t: TermId,
    r: TermId,
)
    requires
        rewritten(s0, a, s1, b, t, r),
    ensures
        without_value_ites(s1, r),
{
    let st = choose|st: Stages| #[trigger]
        stages_ok(st) && st.stores[0] == s0 && st.stores[6] == s1 && st.tables[0] == *a
            && st.tables[4] == *b && st.forms[0] == t && st.forms[6] == r;
    let (x, y) = (st.stores[3], st.stores[4]);
    let (p, q) = (st.forms[3], st.forms[4]);
    assert(terms_wf(st.stores[3]) && terms_wf(st.stores[4]) && terms_wf(st.stores[5]) && terms_wf(
        st.stores[6],
    ));
    assert(extends(st.stores[3], st.stores[4]) && extends(st.stores[4], st.stores[5]) && extends(
        st.stores[5],
        st.stores[6],
    ));
    assert(without_value_ites(y, q)) by {
        reveal(ites_replaced);
        if exists|k: TermId| #[trigger] subterm(x, p, k) && value_ite(x, k) {
            let (m, ks) = choose|m: Map<TermId, TermId>, ks: Seq<TermId>| #[trigger]
                ites_eliminated(y, m, ks, p, q) && tables_carried(
                    y,
                    m,
                    ks,
                    &st.tables[3],
                    &st.tables[4],
                );
            ite_elimination_is_complete(y, m, ks, p, q);
        } else {
            assert forall|k: TermId| #[trigger] subterm(x, p, k) implies !(x[k as int].op == Op::Ite
                && x[k as int].sort != BOOL_SORT) by {
                crate::walk::lemma_reach_le(x, Map::empty(), p, k);
                assert(!value_ite(x, k));
            }
        }
    }
    lemma_argument_stage(y, st.stores[5], ArgKind::Bool, q, st.forms[5]);
    lemma_argument_stage(st.stores[5], s1, ArgKind::Numeric, st.forms[5], r);
}

/// Variables that are replaced by constants, or by other variables that stay, are
/// gone from the result.
pub proof fn replaced_variables_are_gone(
    s: Seq<TermView>,
    m: Map<TermId, TermId>,
    t: TermId,
    r: TermId,
    x: TermId,
)
    requires
        terms_wf(s),
        t < s.len() && r < s.len(),
        subst(s, m, t, r),
        forall|k: TermId| #[trigger]
            m.contains_key(k) ==> k < s.len() && s[k as int].op == Op::Var && m[k] < s.len()
                && s[m[k] as int].args.len() == 0 && !m.contains_key(m[k]),
        subterm(s, r, x),
    ensures
        !m.contains_key(x),
    decreases t,
{
    if m.contains_key(t) {
        assert(x == r);
    } else if x != r {
        let k = choose|k: int|
            0 <= k < s[r as int].args.len() && (#[trigger] s[r as int].args[k]) < r && reach(
                s,
                Map::empty(),
                s[r as int].args[k],
                x,
            );
        assert(node_below(s, t as int));
        assert(node_below(s, r as int));
        let y = s[t as int].args[k];
        assert(y < t);
        assert(subst(s, m, y, s[r as int].args[k]));
        replaced_variables_are_gone(s, m, y, s[r as int].args[k], x);
    } else if m.contains_key(r) {
        assert(s[t as int].op == Op::Var);
        assert(node_below(s, t as int));
        assert(s[t as int].args.len() == 0 && s[r as int].args.len() == 0);
        assert(s[r as int].args =~= s[t as int].args);
    }
}

/// An assertion is about arrays alone just where each of its conjuncts that is no
/// conjunction equates arrays.
pub proof fn array_assertions_equate_arrays(
    s: Seq<TermView>,
    sorts: Seq<SortKind>,
    t: TermId,
)
    requires
        terms_wf(s),
        t < s.len(),
    ensures
        array_structural(s, sorts, t) <==> forall|x: TermId| #[trigger]
            conjunct(s, t, x) ==> equates_arrays(s, sorts, x) || s[x as int].op == Op::And,
    decreases t,
{
    assert(node_below(s, t as int));
    assert(conjunct(s, t, t));
    let args = s[t as int].args;
    assert forall|k: int| 0 <= k < args.len() implies (#[trigger] args[k]) < t && (
    array_structural(s, sorts, args[k]) <==> forall|x: TermId| #[trigger]
        conjunct(s, args[k], x) ==> equates_arrays(s, sorts, x) || s[x as int].op == Op::And) by {
        array_assertions_equate_arrays(s, sorts, args[k]);
    }
    if s[t as int].op == Op::And {
        if array_structural(s, sorts, t) {
            assert forall|x: TermId| #[trigger] conjunct(s, t, x) implies equates_arrays(
                s,
                sorts,
                x,
            ) || s[x as int].op == Op::And by {
                if x != t {
                    let k = choose|k: int|
                        0 <= k < args.len() && #[trigger] s[t as int].args[k] < t && conjunct(
                            s,
                            s[t as int].args[k],
                            x,
                        );
                    assert(array_structural(s, sorts, args[k]));
                    assert(conjunct(s, args[k], x));
                }
            }
        }
        if forall|x: TermId| #[trigger]
            conjunct(s, t, x) ==> equates_arrays(s, sorts, x) || s[x as int].op == Op::And {
            assert forall|k: int| 0 <= k < args.len() && args[k] < t implies array_structural(
                s,
                sorts,
                #[trigger] s[t as int].args[k],
            ) by {
                assert forall|x: TermId| #[trigger] conjunct(s, args[k], x) implies equates_arrays(
                    s,
                    sorts,
                    x,
                ) || s[x as int].op == Op::And by {
                    assert(conjunct(s, s[t as int].args[k], x));
                    assert(conjunct(s, t, x));
                }
            }
        }
    }
}

/// The term is an equation with an array on a side.
pub open spec fn equates_arrays(s: Seq<TermView>, sorts: Seq<SortKind>, x: TermId) -> bool {
    s[x as int].op == Op::Eq && exists|k: int|
        0 <= k < 2 && {
            let sort = s[(#[trigger] s[x as int].args[k]) as int].sort;
            sort < sorts.len() && sorts[sort as int] is Array
        }
}

/// An equation of a string variable or a floating-point variable with a literal
/// binds the variable, whichever side it is on.
pub proof fn literal_equations_bind(
    s: Seq<TermView>,
    sorts: Seq<SortKind>,
    e: TermId,
    v: TermId,
    c: TermId,
)
    requires
        e < s.len() && s[e as int].op == Op::Eq,
        s[e as int].args == seq![v, c] || s[e as int].args == seq![c, v],
        is_var(s, v),
        c < s.len() && (s[c as int].op == Op::StringLit || s[c as int].op == Op::FpLit
            || s[c as int].op == Op::FpConst),
        s[v as int].sort == s[c as int].sort,
        s[v as int].sort < sorts.len() && (sorts[s[v as int].sort as int] == SortKind::String
            || sorts[s[v as int].sort as int] is FloatingPoint),
    ensures
        constant_binding(s, sorts, e) == Some((v, c)),
{
}

/// Where the chain of replacements leads after `n` steps, or where it stops before.
pub open spec fn stepped(m: Map<TermId, TermId>, t: TermId, n: nat) -> TermId
    decreases n,
{
    if n == 0 {
        t
    } else {
        let r = stepped(m, t, (n - 1) as nat);
        if m.contains_key(r) {
            m[r]
        } else {
            r
        }
    }
}

/// A chain of replacements is followed to its end: what it leads to is replaced no
/// further, unless the steps ran out, and then they were all taken.
pub proof fn chains_are_followed(m: Map<TermId, TermId>, t: TermId, n: nat)
    ensures
        ({
            let r = chain_end(m, t, n as int);
            &&& r == stepped(m, t, n)
            &&& !m.contains_key(r) || m[r] == r || forall|k: nat|
                k < n ==> m.contains_key(#[trigger] stepped(m, t, k))
        }),
    decreases n,
{
    if n > 0 && m.contains_key(t) && m[t] != t {
        chains_are_followed(m, m[t], (n - 1) as nat);
        lemma_step_first(m, t, n);
        let r = chain_end(m, t, n as int);
        assert(r == chain_end(m, m[t], n - 1));
        if m.contains_key(r) && m[r] != r {
            assert forall|k: nat| k < n implies m.contains_key(#[trigger] stepped(m, t, k)) by {
                if k > 0 {
                    lemma_step_first(m, t, k);
                    assert(m.contains_key(stepped(m, m[t], (k - 1) as nat)));
                }
            }
        }
    } else if n > 0 {
        lemma_stays(m, t, n);
    }
}

proof fn lemma_step_first(m: Map<TermId, TermId>, t: TermId, n: nat)
    requires
        n > 0,
        m.contains_key(t),
    ensures
        stepped(m, t, n) == stepped(m, m[t], (n - 1) as nat),
    decreases n,
{
    if n > 1 {
        lemma_step_first(m, t, (n - 1) as nat);
    } else {
        assert(stepped(m, t, 0) == t);
    }
}

proof fn lemma_stays(m: Map<TermId, TermId>, t: TermId, n: nat)
    requires
        !(m.contains_key(t) && m[t] != t),
    ensures
        stepped(m, t, n) == t,
    decreases n,
{
    if n > 0 {
        lemma_stays(m, t, (n - 1) as nat);
    }
}

/// `x` is the number `t`, or one that it is a sum, a difference, a product or an
/// opposite of.
pub open spec fn summed_of(s: Seq<TermView>, t: TermId, x: TermId) -> bool
    decreases t,
{
    t == x || ((s[t as int].op == Op::Neg || s[t as int].op == Op::Add || s[t as int].op == Op::Sub
        || s[t as int].op == Op::Mul) && exists|k: int|
        0 <= k < s[t as int].args.len() && (#[trigger] s[t as int].args[k]) < t && summed_of(
            s,
            s[t as int].args[k],
            x,
        ))
}

/// The term is one that arithmetic knows: a numeral, a variable, an operation of
/// arithmetic, or a conditional.
pub open spec fn arithmetic_head(op: Op) -> bool {
    match op {
        Op::IntConst | Op::RealConst | Op::Var | Op::Neg | Op::Add | Op::Sub | Op::Mul | Op::Div
        | Op::Mod | Op::Ite | Op::Let => true,
        _ => false,
    }
}

proof fn lemma_pure_sum(s: Seq<TermView>, sorts: Seq<SortKind>, t: TermId, x: TermId)
    requires
        terms_wf(s),
        t < s.len(),
        pure_arith(s, sorts, t, true),
        summed_of(s, t, x),
    ensures
        numeric_sort(s[x as int].sort) ==> arithmetic_head(s[x as int].op),
    decreases t,
{
    if t != x {
        assert(node_below(s, t as int));
        let k = choose|k: int|
            0 <= k < s[t as int].args.len() && (#[trigger] s[t as int].args[k]) < t && summed_of(
                s,
                s[t as int].args[k],
                x,
            );
        assert(pure_arith(s, sorts, s[t as int].args[k], arith_position(s, t, true, k)));
        lemma_pure_sum(s, sorts, s[t as int].args[k], x);
    }
}

/// After purification a comparison compares numbers that arithmetic knows: no
/// application of a function and no read of an array is left on its sides, nor in
/// the sums and products that these are.
pub proof fn purified_comparisons_are_arithmetic(
    s: Seq<TermView>,
    sorts: Seq<SortKind>,
    m: Map<TermId, TermId>,
    t: TermId,
    r: TermId,
    k: int,
    x: TermId,
)
    requires
        terms_wf(s),
        map_ok(s, m),
        forall|k: TermId| #[trigger] m.contains_key(k) ==> s[m[k] as int].op == Op::Var,
        t < s.len() && r < s.len(),
        purified(s, sorts, m, t, false, r),
        s[r as int].op == Op::Lt || s[r as int].op == Op::Le || s[r as int].op == Op::Gt
            || s[r as int].op == Op::Ge,
        0 <= k < s[r as int].args.len(),
        summed_of(s, s[r as int].args[k], x),
    ensures
        numeric_sort(s[x as int].sort) ==> arithmetic_head(s[x as int].op),
{
    purification_is_complete(s, sorts, m, t, false, r);
    assert(node_below(s, r as int));
    assert(s[r as int].args[k] < r);
    assert(pure_arith(s, sorts, s[r as int].args[k], arith_position(s, r, false, k)));
    lemma_pure_sum(s, sorts, s[r as int].args[k], x);
}

/// A formula is free of quantifiers just where no quantified formula is below it.
pub proof fn quantifier_free_formulas_have_no_quantifiers(s: Seq<TermView>, t: TermId)
    requires
        terms_wf(s),
        t < s.len(),
    ensures
        quantifier_free(s, t) <==> forall|x: TermId| #[trigger]
            subterm(s, t, x) ==> s[x as int].op != Op::Forall && s[x as int].op != Op::Exists,
    decreases t,
{
    assert(node_below(s, t as int));
    assert(subterm(s, t, t));
    let args = s[t as int].args;
    assert forall|k: int| 0 <= k < args.len() implies (#[trigger] args[k]) < t && (quantifier_free(
        s,
        args[k],
    ) <==> forall|x: TermId| #[trigger]
        subterm(s, args[k], x) ==> s[x as int].op != Op::Forall && s[x as int].op != Op::Exists) by {
        quantifier_free_formulas_have_no_quantifiers(s, args[k]);
    }
    if quantifier_free(s, t) {
        assert forall|x: TermId| #[trigger] subterm(s, t, x) implies s[x as int].op != Op::Forall
            && s[x as int].op != Op::Exists by {
            if x != t {
                let k = choose|k: int|
                    0 <= k < s[t as int].args.len() && (#[trigger] s[t as int].args[k]) < t
                        && reach(s, Map::empty(), s[t as int].args[k], x);
                assert(quantifier_free(s, args[k]));
                assert(subterm(s, args[k], x));
            }
        }
    }
    if forall|x: TermId| #[trigger]
        subterm(s, t, x) ==> s[x as int].op != Op::Forall && s[x as int].op != Op::Exists {
        assert forall|k: int| 0 <= k < args.len() && args[k] < t implies quantifier_free(
            s,
            #[trigger] s[t as int].args[k],
        ) by {
            assert forall|x: TermId| #[trigger] subterm(s, args[k], x) implies s[x as int].op
                != Op::Forall && s[x as int].op != Op::Exists by {
                assert(reach(s, Map::empty(), s[t as int].args[k], x));
                assert(subterm(s, t, x));
            }
        }
    }
}

} // verus!
