//! Replacing terms by variables with definitions.
//!
//! Three passes run over an assertion before it is encoded.  Conditionals that
//! are no formulas, compound Boolean arguments of functions, and constant or
//! compound numeric arguments of functions each give way to a variable; what
//! the variable stands for is stated beside the rewritten assertion.

use crate::collections::{
    map_get, map_insert, map_new, set_contains, set_insert, set_new, set_sorted_items,
};
use crate::constructors::{grew, is_equation, lemma_eq_holds, plain_node, var_node};
use crate::semantics::{
    eqv, eval, eval_args, holds, is_true, lemma_eval, lemma_extend, opaque_term, Interp,
};
use crate::tables::{
    indices_rebound, keys_rebound, lemma_indices_rebound_extend, lemma_keys_rebound_extend,
    lemma_rebound_extend, rebound, TableState,
};
use crate::terms::{
    extends, is_numeric_sort, node_at, node_below, numeric_sort, terms_wf, Op, SortId, Symbol,
    TermId, TermStore, TermView, BOOL_SORT,
};
use crate::walk::{
    collect_subterms, lemma_map_ok_extend, lemma_reach_le, lemma_reach_step, lemma_subst_eval,
    lemma_subst_extend, lemma_subst_sort, lists_reach, map_ok, quantifier_free, subst, substitute,
    subterm,
};
use rustc_hash::{FxHashMap, FxHashSet};
use vstd::prelude::*;

verus! {

/// No variable below `t` has one of the symbols.
pub open spec fn avoids(s: Seq<TermView>, bad: spec_fn(Symbol) -> bool, t: TermId) -> bool
    decreases t,
{
    &&& s[t as int].op == Op::Var ==> !bad(s[t as int].data->Sym_0)
    &&& forall|k: int|
        0 <= k < s[t as int].args.len() && s[t as int].args[k] < t ==> avoids(
            s,
            bad,
            #[trigger] s[t as int].args[k],
        )
}

/// Interpretations that differ on other symbols only give a term one value.
pub proof fn lemma_avoids(
    s: Seq<TermView>,
    bad: spec_fn(Symbol) -> bool,
    i: Interp,
    j: Interp,
    t: TermId,
)
    requires
        terms_wf(s),
        t < s.len(),
        avoids(s, bad, t),
        i.fun == j.fun,
        i.opaque == j.opaque,
        forall|sym: Symbol, sort: SortId|
            !bad(sym) ==> #[trigger] (i.var)(sym, sort) == (j.var)(sym, sort),
    ensures
        eval(s, i, t as int) == eval(s, j, t as int),
    decreases t,
{
    if !opaque_term(s, t as int) {
        assert(node_below(s, t as int));
        let node = s[t as int];
        assert forall|k: int| 0 <= k < node.args.len() implies eval(s, i, #[trigger] node.args[k] as int)
            == eval(s, j, node.args[k] as int) by {
            lemma_avoids(s, bad, i, j, node.args[k]);
        }
        lemma_eval(s, i, t);
        lemma_eval(s, j, t);
        assert(eval_args(s, i, node.args) =~= eval_args(s, j, node.args));
    }
}

pub proof fn lemma_avoids_below(
    s: Seq<TermView>,
    bad: spec_fn(Symbol) -> bool,
    t: TermId,
    x: TermId,
)
    requires
        terms_wf(s),
        t < s.len(),
        avoids(s, bad, t),
        subterm(s, t, x),
    ensures
        avoids(s, bad, x),
    decreases t,
{
    assert(node_below(s, t as int));
    if x != t {
        let k = choose|k: int|
            0 <= k < s[t as int].args.len() && (#[trigger] s[t as int].args[k]) < t && subterm(
                s,
                s[t as int].args[k],
                x,
            );
        lemma_avoids_below(s, bad, s[t as int].args[k], x);
    }
}

pub proof fn lemma_quantifier_free_below(s: Seq<TermView>, t: TermId, x: TermId)
    requires
        terms_wf(s),
        t < s.len(),
        quantifier_free(s, t),
        subterm(s, t, x),
    ensures
        quantifier_free(s, x),
    decreases t,
{
    assert(node_below(s, t as int));
    if x != t {
        let k = choose|k: int|
            0 <= k < s[t as int].args.len() && (#[trigger] s[t as int].args[k]) < t && subterm(
                s,
                s[t as int].args[k],
                x,
            );
        lemma_quantifier_free_below(s, s[t as int].args[k], x);
    }
}

/// Terms of a numeric sort have numbers for values, formulas truth values.
pub open spec fn well_sorted(s: Seq<TermView>, i: Interp) -> bool {
    forall|t: TermId|
        t < s.len() ==> {
            &&& numeric_sort(s[t as int].sort) ==> #[trigger] eval(s, i, t as int) is Num
            &&& s[t as int].sort == BOOL_SORT ==> eval(s, i, t as int) is Bool
        }
}

/// The kinds of variables that replace terms.
pub enum Replacing {
    Tables,
    Ites,
    BoolArgs,
    NumArgs,
}

/// The symbol is that of a variable of the kind.
pub open spec fn replaces_by(kind: Replacing, sym: Symbol) -> bool {
    match kind {
        Replacing::Tables => sym is TableResult,
        Replacing::Ites => sym is IteResult,
        Replacing::BoolArgs => sym is BoolArg,
        Replacing::NumArgs => sym is NumArg,
    }
}

pub open spec fn symbols_of(kind: Replacing) -> spec_fn(Symbol) -> bool {
    |sym: Symbol| replaces_by(kind, sym)
}

/// The interpretation that gives each variable of the kind the value that the
/// term it replaces has in `i`.
pub open spec fn defining(s: Seq<TermView>, i: Interp, kind: Replacing) -> Interp {
    Interp {
        var: |sym: Symbol, sort: SortId|
            if replaces_by(kind, sym) {
                match sym {
                    Symbol::IteResult(t) | Symbol::BoolArg(t) | Symbol::NumArg(t)
                    | Symbol::TableResult(t, _) => eval(s, i, t as int),
                    _ => (i.var)(sym, sort),
                }
            } else {
                (i.var)(sym, sort)
            },
        fun: i.fun,
        opaque: i.opaque,
    }
}

/// A formula without variables of the kind has the same value in [`defining`].
pub proof fn lemma_defining(s: Seq<TermView>, i: Interp, kind: Replacing, t: TermId)
    requires
        terms_wf(s),
        t < s.len(),
        avoids(s, symbols_of(kind), t),
    ensures
        eval(s, defining(s, i, kind), t as int) == eval(s, i, t as int),
{
    lemma_avoids(s, symbols_of(kind), i, defining(s, i, kind), t);
}

/// A replaced term and its variable have one value in [`defining`], also in a
/// longer store.
pub(crate) proof fn lemma_defining_var(
    s: Seq<TermView>,
    s1: Seq<TermView>,
    i: Interp,
    kind: Replacing,
    k: TermId,
    v: TermId,
    sym: Symbol,
)
    requires
        terms_wf(s),
        terms_wf(s1),
        extends(s, s1),
        k < s.len(),
        avoids(s, symbols_of(kind), k),
        node_at(s1, v, var_node(sym, s[k as int].sort)),
        replaces_by(kind, sym),
        sym == Symbol::IteResult(k) || sym == Symbol::BoolArg(k) || sym == Symbol::NumArg(k) || (
        sym is TableResult && sym->TableResult_0 == k),
    ensures
        eval(s1, defining(s, i, kind), k as int) == eval(s1, defining(s, i, kind), v as int),
{
    let d = defining(s, i, kind);
    lemma_defining(s, i, kind, k);
    lemma_extend(s, s1, d, k);
    lemma_eval(s1, d, v);
}

/// What a conjunction of a list means.
pub proof fn lemma_and_holds(s: Seq<TermView>, i: Interp, r: TermId, parts: Seq<TermId>)
    requires
        terms_wf(s),
        node_at(s, r, plain_node(Op::And, parts, BOOL_SORT)),
    ensures
        holds(s, i, r) == forall|k: int| 0 <= k < parts.len() ==> holds(s, i, #[trigger] parts[k]),
{
    lemma_eval(s, i, r);
    let vals = eval_args(s, i, parts);
    if forall|k: int| 0 <= k < parts.len() ==> holds(s, i, #[trigger] parts[k]) {
        assert forall|k: int| 0 <= k < vals.len() implies is_true(#[trigger] vals[k]) by {
            assert(holds(s, i, parts[k]));
        }
    } else {
        let k = choose|k: int| 0 <= k < parts.len() && !holds(s, i, #[trigger] parts[k]);
        assert(!is_true(vals[k]));
    }
}

pub proof fn lemma_implies_holds(s: Seq<TermView>, i: Interp, r: TermId, a: TermId, b: TermId)
    requires
        terms_wf(s),
        node_at(s, r, plain_node(Op::Implies, seq![a, b], BOOL_SORT)),
    ensures
        holds(s, i, r) == (holds(s, i, a) ==> holds(s, i, b)),
{
    lemma_eval(s, i, r);
    let vals = eval_args(s, i, seq![a, b]);
    assert(vals[0] == eval(s, i, a as int));
    assert(vals[1] == eval(s, i, b as int));
}

pub proof fn lemma_not_holds(s: Seq<TermView>, i: Interp, r: TermId, a: TermId)
    requires
        terms_wf(s),
        node_at(s, r, plain_node(Op::Not, seq![a], BOOL_SORT)),
    ensures
        holds(s, i, r) == !holds(s, i, a),
{
    lemma_eval(s, i, r);
    let vals = eval_args(s, i, seq![a]);
    assert(vals[0] == eval(s, i, a as int));
}

/// Well-sorted values that are equal in their sort are equal.
pub proof fn lemma_eqv_equal(s: Seq<TermView>, i: Interp, a: TermId, b: TermId)
    requires
        well_sorted(s, i),
        a < s.len(),
        b < s.len(),
        s[a as int].sort == s[b as int].sort,
        eqv(s[a as int].sort, eval(s, i, a as int), eval(s, i, b as int)),
    ensures
        eval(s, i, a as int) == eval(s, i, b as int),
{
    let sort = s[a as int].sort;
    if numeric_sort(sort) {
        assert(eval(s, i, a as int) is Num);
        assert(eval(s, i, b as int) is Num);
    }
    if sort == BOOL_SORT {
        assert(eval(s, i, a as int) is Bool);
        assert(eval(s, i, b as int) is Bool);
    }
}

/// Conditionals that are no formulas.
pub open spec fn value_ite(s: Seq<TermView>, t: TermId) -> bool {
    t < s.len() && s[t as int].op == Op::Ite && s[t as int].sort != BOOL_SORT
}

/// `p` says that the variable equals the first branch where the condition
/// holds, `q` that it equals the second where it does not.
pub open spec fn ite_sides(
    s: Seq<TermView>,
    m: Map<TermId, TermId>,
    k: TermId,
    p: TermId,
    q: TermId,
) -> bool {
    exists|c: TermId, a: TermId, b: TermId, ea: TermId, eb: TermId, nc: TermId| #[trigger]
        ite_sides_by(s, m, k, p, q, c, a, b, ea, eb, nc)
}

pub open spec fn ite_sides_by(
    s: Seq<TermView>,
    m: Map<TermId, TermId>,
    k: TermId,
    p: TermId,
    q: TermId,
    c: TermId,
    a: TermId,
    b: TermId,
    ea: TermId,
    eb: TermId,
    nc: TermId,
) -> bool {
    let args = s[k as int].args;
    &&& c < s.len() && a < s.len() && b < s.len() && ea < s.len() && eb < s.len() && nc < s.len()
    &&& subst(s, m, args[0], c)
    &&& subst(s, m, args[1], a)
    &&& subst(s, m, args[2], b)
    &&& is_equation(s, m[k], a, ea)
    &&& is_equation(s, m[k], b, eb)
    &&& node_at(s, nc, plain_node(Op::Not, seq![c], BOOL_SORT))
    &&& node_at(s, p, plain_node(Op::Implies, seq![c, ea], BOOL_SORT))
    &&& node_at(s, q, plain_node(Op::Implies, seq![nc, eb], BOOL_SORT))
}

proof fn lemma_ite_sides_extend(
    s: Seq<TermView>,
    s1: Seq<TermView>,
    m: Map<TermId, TermId>,
    k: TermId,
    p: TermId,
    q: TermId,
)
    requires
        terms_wf(s),
        extends(s, s1),
        value_ite(s, k),
        ite_sides(s, m, k, p, q),
    ensures
        ite_sides(s1, m, k, p, q),
{
    let (c, a, b, ea, eb, nc) = choose|
        c: TermId,
        a: TermId,
        b: TermId,
        ea: TermId,
        eb: TermId,
        nc: TermId,
    | #[trigger]
        ite_sides_by(s, m, k, p, q, c, a, b, ea, eb, nc);
    assert(node_below(s, k as int));
    let args = s[k as int].args;
    assert(s1[k as int] == s[k as int]);
    lemma_subst_extend(s, s1, m, args[0], c);
    lemma_subst_extend(s, s1, m, args[1], a);
    lemma_subst_extend(s, s1, m, args[2], b);
    assert(s1[ea as int] == s[ea as int]);
    assert(s1[eb as int] == s[eb as int]);
    assert(s1[nc as int] == s[nc as int]);
    assert(s1[p as int] == s[p as int]);
    assert(s1[q as int] == s[q as int]);
    assert(ite_sides_by(s1, m, k, p, q, c, a, b, ea, eb, nc));
}

/// Every conditional below `term` that is no formula, in ascending order.
pub open spec fn lists_value_ites(s: Seq<TermView>, term: TermId, ks: Seq<TermId>) -> bool {
    &&& forall|i: int, j: int| 0 <= i < j < ks.len() ==> ks[i] < ks[j]
    &&& forall|k: TermId| #[trigger]
        ks.contains(k) <==> subterm(s, term, k) && value_ite(s, k)
}

/// `m` replaces each listed term by its variable.
pub open spec fn replaces(
    s: Seq<TermView>,
    m: Map<TermId, TermId>,
    ks: Seq<TermId>,
    symbol: spec_fn(TermId) -> Symbol,
) -> bool {
    &&& forall|k: TermId| #[trigger] m.contains_key(k) <==> ks.contains(k)
    &&& forall|k: TermId| #[trigger]
        m.contains_key(k) ==> k < s.len() && node_at(
            s,
            m[k],
            var_node(symbol(k), s[k as int].sort),
        )
}

/// `r` is the assertion `term` without conditionals that are no formulas: the
/// image of `term`, and the two side conditions of each conditional.
pub open spec fn ites_eliminated(
    s: Seq<TermView>,
    m: Map<TermId, TermId>,
    ks: Seq<TermId>,
    term: TermId,
    r: TermId,
) -> bool {
    let parts = s[r as int].args;
    &&& ks.len() > 0
    &&& lists_value_ites(s, term, ks)
    &&& replaces(s, m, ks, |k: TermId| Symbol::IteResult(k))
    &&& node_at(s, r, plain_node(Op::And, parts, BOOL_SORT))
    &&& parts.len() == 1 + 2 * ks.len()
    &&& parts[0] < s.len() && subst(s, m, term, parts[0])
    &&& forall|j: int|
        0 <= j < ks.len() ==> ite_sides(s, m, #[trigger] ks[j], parts[1 + 2 * j], parts[2 + 2 * j])
}

/// Where variables have the values of the conditionals they replace, the side
/// conditions hold and the assertion keeps its value.
proof fn lemma_ite_sides_hold(
    s: Seq<TermView>,
    i: Interp,
    m: Map<TermId, TermId>,
    k: TermId,
    p: TermId,
    q: TermId,
)
    requires
        terms_wf(s),
        map_ok(s, m),
        value_ite(s, k),
        m.contains_key(k),
        quantifier_free(s, k),
        ite_sides(s, m, k, p, q),
        forall|x: TermId| #[trigger]
            m.contains_key(x) && x < k ==> eval(s, i, x as int) == eval(s, i, m[x] as int),
    ensures
        holds(s, i, p) && holds(s, i, q) <==> eqv(
            s[k as int].sort,
            eval(s, i, m[k] as int),
            eval(s, i, k as int),
        ),
{
    let (c, a, b, ea, eb, nc) = choose|
        c: TermId,
        a: TermId,
        b: TermId,
        ea: TermId,
        eb: TermId,
        nc: TermId,
    | #[trigger]
        ite_sides_by(s, m, k, p, q, c, a, b, ea, eb, nc);
    assert(node_below(s, k as int));
    let args = s[k as int].args;
    assert forall|j: int| 0 <= j < 3 implies quantifier_free(s, #[trigger] args[j]) by {}
    assert forall|j: int, x: TermId|
        0 <= j < 3 && m.contains_key(x) && #[trigger] subterm(s, args[j], x) implies eval(
        s,
        i,
        x as int,
    ) == eval(s, i, m[x] as int) by {
        lemma_reach_le(s, Map::empty(), args[j], x);
    }
    lemma_subst_eval(s, i, m, args[0], c);
    lemma_subst_eval(s, i, m, args[1], a);
    lemma_subst_eval(s, i, m, args[2], b);
    lemma_subst_sort(s, m, args[1], a);
    lemma_subst_sort(s, m, args[2], b);
    lemma_eq_holds(s, m[k], a, ea);
    lemma_eq_holds(s, m[k], b, eb);
    lemma_not_holds(s, i, nc, c);
    lemma_implies_holds(s, i, p, c, ea);
    lemma_implies_holds(s, i, q, nc, eb);
    lemma_eval(s, i, k);
    let vals = eval_args(s, i, args);
    assert(vals[0] == eval(s, i, args[0] as int));
    assert(vals[1] == eval(s, i, args[1] as int));
    assert(vals[2] == eval(s, i, args[2] as int));
    assert(holds(s, i, ea) == eqv(
        s[m[k] as int].sort,
        eval(s, i, m[k] as int),
        eval(s, i, a as int),
    ));
    assert(holds(s, i, eb) == eqv(
        s[m[k] as int].sort,
        eval(s, i, m[k] as int),
        eval(s, i, b as int),
    ));
}

/// Eliminating conditionals keeps satisfiability: an interpretation of the
/// assertion, extended to the new variables by the values of the conditionals
/// they replace, gives the result the value that the assertion has.
pub proof fn ite_elimination_preserves_models(
    s0: Seq<TermView>,
    s: Seq<TermView>,
    i: Interp,
    m: Map<TermId, TermId>,
    ks: Seq<TermId>,
    term: TermId,
    r: TermId,
)
    requires
        terms_wf(s0),
        terms_wf(s),
        extends(s0, s),
        term < s0.len(),
        quantifier_free(s0, term),
        avoids(s0, symbols_of(Replacing::Ites), term),
        ites_eliminated(s, m, ks, term, r),
    ensures
        holds(s, defining(s0, i, Replacing::Ites), r) == holds(s0, i, term),
{
    let d = defining(s0, i, Replacing::Ites);
    let parts = s[r as int].args;
    lemma_same_walk(s0, s, term);
    lemma_replaces_ok(s, m, ks, |k: TermId| Symbol::IteResult(k));
    assert forall|k: TermId| #[trigger] m.contains_key(k) implies eval(s, d, k as int) == eval(
        s,
        d,
        m[k] as int,
    ) && k < s0.len() by {
        assert(ks.contains(k));
        lemma_reach_le(s, Map::empty(), term, k);
        lemma_subterm_back(s0, s, term, k);
        lemma_avoids_below(s0, symbols_of(Replacing::Ites), term, k);
        assert(s[k as int] == s0[k as int]);
        lemma_defining_var(s0, s, i, Replacing::Ites, k, m[k], Symbol::IteResult(k));
    }
    lemma_subst_eval(s, d, m, term, parts[0]);
    lemma_extend(s0, s, d, term);
    lemma_defining(s0, i, Replacing::Ites, term);
    lemma_and_holds(s, d, r, parts);
    if holds(s0, i, term) {
        assert forall|n: int| 0 <= n < parts.len() implies holds(s, d, #[trigger] parts[n]) by {
            if n > 0 {
                let j = (n - 1) / 2;
                let k = ks[j];
                assert(ks.contains(k));
                assert(m.contains_key(k));
                lemma_quantifier_free_below(s, term, k);
                lemma_ite_sides_hold(s, d, m, k, parts[1 + 2 * j], parts[2 + 2 * j]);
                assert(n == 1 + 2 * j || n == 2 + 2 * j);
            }
        }
    } else {
        assert(!holds(s, d, parts[0]));
    }
}

/// Eliminating conditionals adds no solutions: a well-sorted interpretation
/// that satisfies the result satisfies the assertion.
pub proof fn ite_elimination_is_sound(
    s: Seq<TermView>,
    i: Interp,
    m: Map<TermId, TermId>,
    ks: Seq<TermId>,
    term: TermId,
    r: TermId,
)
    requires
        terms_wf(s),
        term < s.len(),
        quantifier_free(s, term),
        well_sorted(s, i),
        ites_eliminated(s, m, ks, term, r),
        holds(s, i, r),
    ensures
        holds(s, i, term),
{
    let parts = s[r as int].args;
    lemma_replaces_ok(s, m, ks, |k: TermId| Symbol::IteResult(k));
    lemma_and_holds(s, i, r, parts);
    assert forall|k: TermId| #[trigger] m.contains_key(k) implies eval(s, i, k as int) == eval(
        s,
        i,
        m[k] as int,
    ) by {
        lemma_side_conditions_define(s, i, m, ks, term, r, k);
    }
    lemma_subst_eval(s, i, m, term, parts[0]);
    assert(holds(s, i, parts[0]));
}

/// The side conditions give each variable the value of its conditional, from
/// the innermost conditional outwards.
proof fn lemma_side_conditions_define(
    s: Seq<TermView>,
    i: Interp,
    m: Map<TermId, TermId>,
    ks: Seq<TermId>,
    term: TermId,
    r: TermId,
    k: TermId,
)
    requires
        terms_wf(s),
        term < s.len(),
        quantifier_free(s, term),
        well_sorted(s, i),
        map_ok(s, m),
        ites_eliminated(s, m, ks, term, r),
        forall|n: int|
            0 <= n < s[r as int].args.len() ==> holds(s, i, #[trigger] s[r as int].args[n]),
        m.contains_key(k),
    ensures
        eval(s, i, k as int) == eval(s, i, m[k] as int),
    decreases k,
{
    let parts = s[r as int].args;
    assert(ks.contains(k));
    let j = choose|j: int| 0 <= j < ks.len() && ks[j] == k;
    assert forall|x: TermId| #[trigger] m.contains_key(x) && x < k implies eval(s, i, x as int)
        == eval(s, i, m[x] as int) by {
        lemma_side_conditions_define(s, i, m, ks, term, r, x);
    }
    lemma_quantifier_free_below(s, term, k);
    assert(ite_sides(s, m, ks[j], parts[1 + 2 * j], parts[2 + 2 * j]));
    lemma_ite_sides_hold(s, i, m, k, parts[1 + 2 * j], parts[2 + 2 * j]);
    assert(holds(s, i, parts[1 + 2 * j]));
    assert(holds(s, i, parts[2 + 2 * j]));
    lemma_eqv_equal(s, i, m[k], k);
}

proof fn lemma_replaces_ok(
    s: Seq<TermView>,
    m: Map<TermId, TermId>,
    ks: Seq<TermId>,
    symbol: spec_fn(TermId) -> Symbol,
)
    requires
        replaces(s, m, ks, symbol),
    ensures
        map_ok(s, m),
{
}

/// A walk below a term of the shorter store is the same in the longer one.
pub(crate) proof fn lemma_same_walk(a: Seq<TermView>, b: Seq<TermView>, t: TermId)
    requires
        terms_wf(a),
        extends(a, b),
        t < a.len(),
    ensures
        quantifier_free(a, t) == quantifier_free(b, t),
    decreases t,
{
    assert(node_below(a, t as int));
    assert(b[t as int] == a[t as int]);
    assert forall|k: int| 0 <= k < a[t as int].args.len() implies quantifier_free(
        a,
        #[trigger] a[t as int].args[k],
    ) == quantifier_free(b, a[t as int].args[k]) by {
        lemma_same_walk(a, b, a[t as int].args[k]);
    }
}

pub(crate) proof fn lemma_subterm_back(a: Seq<TermView>, b: Seq<TermView>, t: TermId, x: TermId)
    requires
        terms_wf(a),
        extends(a, b),
        t < a.len(),
    ensures
        subterm(a, t, x) == subterm(b, t, x),
    decreases t,
{
    assert(node_below(a, t as int));
    assert(b[t as int] == a[t as int]);
    let args = a[t as int].args;
    assert forall|k: int| 0 <= k < args.len() implies subterm(a, #[trigger] args[k], x) == subterm(
        b,
        args[k],
        x,
    ) by {
        lemma_subterm_back(a, b, args[k], x);
    }
    if subterm(a, t, x) && x != t {
        let k = choose|k: int|
            0 <= k < args.len() && (#[trigger] args[k]) < t && subterm(a, args[k], x);
        assert(subterm(b, args[k], x));
    }
    if subterm(b, t, x) && x != t {
        let k = choose|k: int|
            0 <= k < args.len() && (#[trigger] args[k]) < t && subterm(b, args[k], x);
        assert(subterm(a, args[k], x));
    }
}

/// What a pass that replaces terms by variables leaves of the table state.
pub open spec fn only_aliases_change(a: &TableState, b: &TableState) -> bool {
    *b == (TableState {
        unit_eq_rep: b.unit_eq_rep,
        table_index_terms: b.table_index_terms,
        table_index_keys: b.table_index_keys,
        ite_result_terms: b.ite_result_terms,
        ..*a
    })
}

/// Names, keys and indices were carried over to the terms they turn into, and
/// the variables of the listed conditionals were recorded.
pub open spec fn tables_carried(
    s: Seq<TermView>,
    m: Map<TermId, TermId>,
    ks: Seq<TermId>,
    a: &TableState,
    b: &TableState,
) -> bool {
    &&& rebound(s, m, a.unit_eq_rep@, b.unit_eq_rep@)
    &&& keys_rebound(s, m, a.table_index_keys@, b.table_index_keys@)
    &&& indices_rebound(
        s,
        m,
        a.table_index_keys@,
        a.table_index_terms@,
        b.table_index_terms@,
    )
    &&& forall|t: TermId| #[trigger]
        b.ite_result_terms@.contains(t) <==> a.ite_result_terms@.contains(t) || exists|j: int|
            0 <= j < ks.len() && m[#[trigger] ks[j]] == t
}

/// Gives each listed conditional its variable.
fn name_ites(tables: &mut TableState, store: &mut TermStore, ks: &Vec<TermId>) -> (map: FxHashMap<
    TermId,
    TermId,
>)
    requires
        old(store).wf(),
        old(tables).wf(old(store).terms()),
        forall|j: int| 0 <= j < ks@.len() ==> (#[trigger] ks@[j]) < old(store).terms().len(),
        forall|i: int, j: int| 0 <= i < j < ks@.len() ==> ks@[i] < ks@[j],
    ensures
        grew(old(store), final(store)),
        final(tables).wf(final(store).terms()),
        *final(tables) == (TableState {
            ite_result_terms: final(tables).ite_result_terms,
            ..*old(tables)
        }),
        replaces(final(store).terms(), map@, ks@, |k: TermId| Symbol::IteResult(k)),
        forall|t: TermId| #[trigger]
            final(tables).ite_result_terms@.contains(t) <==> old(tables).ite_result_terms@.contains(t)
                || exists|j: int| 0 <= j < ks@.len() && map@[#[trigger] ks@[j]] == t,
{
    let ghost s0 = store.terms();
    let ghost symbol = |k: TermId| Symbol::IteResult(k);
    let mut map: FxHashMap<TermId, TermId> = map_new();
    let mut n: usize = 0;
    proof {
        assert(ks@.take(0) =~= Seq::empty());
    }
    while n < ks.len()
        invariant
            n <= ks.len(),
            s0 == old(store).terms(),
            terms_wf(s0),
            old(tables).wf(s0),
            symbol == (|k: TermId| Symbol::IteResult(k)),
            grew(old(store), store),
            tables.wf(store.terms()),
            *tables == (TableState { ite_result_terms: tables.ite_result_terms, ..*old(tables) }),
            forall|j: int| 0 <= j < ks@.len() ==> (#[trigger] ks@[j]) < s0.len(),
            forall|i: int, j: int| 0 <= i < j < ks@.len() ==> ks@[i] < ks@[j],
            replaces(store.terms(), map@, ks@.take(n as int), symbol),
            forall|t: TermId| #[trigger]
                tables.ite_result_terms@.contains(t) <==> old(tables).ite_result_terms@.contains(t)
                    || exists|j: int|
                    0 <= j < n && map@[#[trigger] ks@[j]] == t,
        decreases ks.len() - n,
    {
        let k: TermId = ks[n];
        let ghost s1 = store.terms();
        let ghost before = map@;
        let ghost set0 = tables.ite_result_terms@;
        assert(s1[k as int] == s0[k as int]);
        let sort = store.nodes[k].sort;
        let v = store.mk_var(Symbol::IteResult(k), sort);
        let ghost s2 = store.terms();
        map_insert(&mut map, k, v);
        set_insert(&mut tables.ite_result_terms, v);
        proof {
            let pre = ks@.take(n as int);
            let all = ks@.take(n + 1);
            assert forall|x: TermId| #[trigger] all.contains(x) <==> pre.contains(x) || x == k by {
                if pre.contains(x) {
                    let j = choose|j: int| 0 <= j < pre.len() && pre[j] == x;
                    assert(all[j] == x);
                }
                assert(all[n as int] == k);
                if all.contains(x) {
                    let j = choose|j: int| 0 <= j < all.len() && all[j] == x;
                    if j < n {
                        assert(pre[j] == x);
                    }
                }
            }
            assert forall|x: TermId| #[trigger] map@.contains_key(x) implies x < s2.len() && node_at(
                s2,
                map@[x],
                var_node(symbol(x), s2[x as int].sort),
            ) by {
                assert(s2[x as int] == s1[x as int]);
                if x != k {
                    assert(before.contains_key(x));
                    assert(s2[before[x] as int] == s1[before[x] as int]);
                }
            }
            assert forall|j: int| 0 <= j < n implies map@[#[trigger] ks@[j]] == before[ks@[j]] by {
                assert(ks@[j] < ks@[n as int]);
            }
            assert forall|t: TermId| #[trigger]
                tables.ite_result_terms@.contains(t) <==> old(tables).ite_result_terms@.contains(t)
                || exists|j: int|
                0 <= j < n + 1 && map@[#[trigger] ks@[j]] == t by {
                if set0.contains(t) && !old(tables).ite_result_terms@.contains(t) {
                    let j = choose|j: int| 0 <= j < n && before[#[trigger] ks@[j]] == t;
                    assert(map@[ks@[j]] == t);
                }
                if exists|j: int| 0 <= j < n + 1 && map@[#[trigger] ks@[j]] == t {
                    let j = choose|j: int| 0 <= j < n + 1 && map@[#[trigger] ks@[j]] == t;
                    if j < n {
                        assert(before[ks@[j]] == t);
                    }
                }
                if t == v {
                    assert(map@[ks@[n as int]] == t);
                }
            }
            old(tables).lemma_wf_extend(s0, s2);
        }
        n = n + 1;
    }
    assert(ks@.take(ks@.len() as int) =~= ks@);
    map
}

/// The side conditions of one conditional.
fn build_ite_sides(store: &mut TermStore, map: &FxHashMap<TermId, TermId>, k: TermId, v: TermId) -> (r: (
    TermId,
    TermId,
))
    requires
        old(store).wf(),
        value_ite(old(store).terms(), k),
        map_ok(old(store).terms(), map@),
        map@.contains_key(k),
        v == map@[k],
    ensures
        grew(old(store), final(store)),
        r.0 < final(store).terms().len(),
        r.1 < final(store).terms().len(),
        ite_sides(final(store).terms(), map@, k, r.0, r.1),
{
    let ghost m = map@;
    let ghost s0 = store.terms();
    assert(node_below(s0, k as int));
    let c: TermId = store.nodes[k].args[0];
    let a: TermId = store.nodes[k].args[1];
    let b: TermId = store.nodes[k].args[2];
    let c_sub = substitute(store, c, map);
    let ghost s1 = store.terms();
    proof {
        lemma_map_ok_extend(s0, s1, m);
    }
    let a_sub = substitute(store, a, map);
    let ghost s2 = store.terms();
    proof {
        lemma_map_ok_extend(s0, s2, m);
    }
    let b_sub = substitute(store, b, map);
    let ghost s3 = store.terms();
    proof {
        lemma_map_ok_extend(s0, s3, m);
        assert(s3[k as int] == s0[k as int]);
        assert(s3[a as int] == s0[a as int]);
        assert(s3[b as int] == s0[b as int]);
        lemma_subst_extend(s2, s3, m, a, a_sub);
        lemma_subst_sort(s3, m, a, a_sub);
        lemma_subst_sort(s3, m, b, b_sub);
    }
    let ea = store.mk_eq(v, a_sub);
    let ghost s4 = store.terms();
    proof {
        assert(s4[v as int] == s3[v as int]);
        assert(s4[b_sub as int] == s3[b_sub as int]);
    }
    let eb = store.mk_eq(v, b_sub);
    let ghost s5 = store.terms();
    let nc = store.mk_not(c_sub);
    let ghost s6 = store.terms();
    let p = store.mk_implies(c_sub, ea);
    let ghost s7 = store.terms();
    let q = store.mk_implies(nc, eb);
    let ghost s8 = store.terms();
    proof {
        assert(s8[k as int] == s0[k as int]);
        lemma_subst_extend(s1, s8, m, c, c_sub);
        lemma_subst_extend(s3, s8, m, a, a_sub);
        lemma_subst_extend(s3, s8, m, b, b_sub);
        assert(s8[ea as int] == s4[ea as int]);
        assert(s8[eb as int] == s5[eb as int]);
        assert(s8[nc as int] == s6[nc as int]);
        assert(s8[p as int] == s7[p as int]);
        assert(ite_sides_by(s8, m, k, p, q, c_sub, a_sub, b_sub, ea, eb, nc));
    }
    (p, q)
}

/// Replaces every conditional that is no formula by a variable, and states
/// beside the rewritten assertion which branch the variable equals.
///
/// The conditionals may stand anywhere in the assertion.  An assertion without
/// any is returned as it is.
pub fn eliminate_nonbool_ite(tables: &mut TableState, store: &mut TermStore, term: TermId) -> (r:
    TermId)
    requires
        old(store).wf(),
        old(tables).wf(old(store).terms()),
        term < old(store).terms().len(),
    ensures
        grew(old(store), final(store)),
        final(tables).wf(final(store).terms()),
        r < final(store).terms().len(),
        only_aliases_change(old(tables), final(tables)),
        if exists|k: TermId| #[trigger]
            subterm(old(store).terms(), term, k) && value_ite(old(store).terms(), k) {
            exists|m: Map<TermId, TermId>, ks: Seq<TermId>| #[trigger]
                ites_eliminated(final(store).terms(), m, ks, term, r) && tables_carried(
                    final(store).terms(),
                    m,
                    ks,
                    old(tables),
                    final(tables),
                )
        } else {
            r == term && *final(store) == *old(store) && *final(tables) == *old(tables)
        },
{
    let ghost s0 = store.terms();
    let list = collect_subterms(store, term);
    let mut ks: Vec<TermId> = Vec::new();
    let mut n: usize = 0;
    while n < list.len()
        invariant
            n <= list.len(),
            store.wf(),
            s0 == store.terms(),
            term < s0.len(),
            lists_reach(list@, s0, Map::empty(), term),
            forall|i: int, j: int| 0 <= i < j < ks@.len() ==> ks@[i] < ks@[j],
            forall|k: TermId| #[trigger]
                ks@.contains(k) <==> list@.take(n as int).contains(k) && value_ite(s0, k),
        decreases list.len() - n,
    {
        let st: TermId = list[n];
        let ghost before = ks@;
        let ghost pre = list@.take(n as int);
        let ghost all = list@.take(n + 1);
        proof {
            assert(list@.contains(st));
            lemma_reach_le(s0, Map::empty(), term, st);
            assert forall|x: TermId| #[trigger] all.contains(x) <==> pre.contains(x) || x == st by {
                if pre.contains(x) {
                    let j = choose|j: int| 0 <= j < pre.len() && pre[j] == x;
                    assert(all[j] == x);
                }
                assert(all[n as int] == st);
                if all.contains(x) {
                    let j = choose|j: int| 0 <= j < all.len() && all[j] == x;
                    if j < n {
                        assert(pre[j] == x);
                    }
                }
            }
            assert forall|j: int| 0 <= j < before.len() implies before[j] < st by {
                assert(before.contains(before[j]));
                let l = choose|l: int| 0 <= l < pre.len() && pre[l] == before[j];
                assert(list@[l] < list@[n as int]);
            }
        }
        if store.nodes[st].op == Op::Ite && store.nodes[st].sort != BOOL_SORT {
            ks.push(st);
            proof {
                assert forall|k: TermId| #[trigger] ks@.contains(k) <==> before.contains(k) || k == st by {
                    if before.contains(k) {
                        let j = choose|j: int| 0 <= j < before.len() && before[j] == k;
                        assert(ks@[j] == k);
                    }
                    assert(ks@[before.len() as int] == st);
                    if ks@.contains(k) {
                        let j = choose|j: int| 0 <= j < ks@.len() && ks@[j] == k;
                        if j < before.len() {
                            assert(before[j] == k);
                        }
                    }
                }
            }
        }
        n = n + 1;
    }
    proof {
        assert(list@.take(list@.len() as int) =~= list@);
        assert(lists_value_ites(s0, term, ks@));
    }
    if ks.len() == 0 {
        proof {
            assert forall|k: TermId| !(#[trigger] subterm(s0, term, k) && value_ite(s0, k)) by {
                assert(!ks@.contains(k));
            }
        }
        return term;
    }
    proof {
        assert(ks@.contains(ks@[0]));
        assert forall|j: int| 0 <= j < ks@.len() implies (#[trigger] ks@[j]) < s0.len() by {
            assert(ks@.contains(ks@[j]));
        }
    }
    let map = name_ites(tables, store, &ks);
    let ghost m = map@;
    let ghost symbol = |k: TermId| Symbol::IteResult(k);
    let ghost s1 = store.terms();
    proof {
        lemma_replaces_ok(s1, m, ks@, symbol);
    }
    let mut sides: Vec<TermId> = Vec::new();
    let mut n: usize = 0;
    while n < ks.len()
        invariant
            n <= ks.len(),
            terms_wf(s1),
            m == map@,
            grew(old(store), store),
            extends(s1, store.terms()),
            s0 == old(store).terms(),
            terms_wf(s0),
            map_ok(s1, m),
            replaces(s1, m, ks@, symbol),
            lists_value_ites(s0, term, ks@),
            sides@.len() == 2 * n,
            forall|j: int|
                0 <= j < sides@.len() ==> (#[trigger] sides@[j]) < store.terms().len(),
            forall|j: int|
                0 <= j < n ==> ite_sides(
                    store.terms(),
                    m,
                    #[trigger] ks@[j],
                    sides@[2 * j],
                    sides@[2 * j + 1],
                ),
        decreases ks.len() - n,
    {
        let k: TermId = ks[n];
        let ghost s2 = store.terms();
        proof {
            assert(ks@.contains(k));
            assert(m.contains_key(k));
            assert(s2[k as int] == s0[k as int]);
            lemma_map_ok_extend(s1, s2, m);
        }
        let v: TermId = match map_get(&map, k) {
            Some(v) => *v,
            None => k,
        };
        let (p, q) = build_ite_sides(store, &map, k, v);
        let ghost before = sides@;
        sides.push(p);
        sides.push(q);
        proof {
            let s3 = store.terms();
            assert forall|j: int| 0 <= j < n + 1 implies ite_sides(
                s3,
                m,
                #[trigger] ks@[j],
                sides@[2 * j],
                sides@[2 * j + 1],
            ) by {
                if j < n {
                    assert(ks@.contains(ks@[j]));
                    assert(s2[ks@[j] as int] == s0[ks@[j] as int]);
                    assert(ite_sides(s2, m, ks@[j], before[2 * j], before[2 * j + 1]));
                    lemma_ite_sides_extend(s2, s3, m, ks@[j], before[2 * j], before[2 * j + 1]);
                }
            }
        }
        n = n + 1;
    }
    let ghost s4 = store.terms();
    let ghost t4 = *tables;
    proof {
        lemma_map_ok_extend(s1, s4, m);
        tables.lemma_wf_extend(s1, s4);
    }
    tables.rebind_aliases_through_map(store, &map);
    let ghost t5 = *tables;
    let ghost s5 = store.terms();
    proof {
        lemma_map_ok_extend(s1, s5, m);
    }
    tables.rebind_table_indices_through_map(store, &map);
    let ghost s6 = store.terms();
    proof {
        lemma_map_ok_extend(s1, s6, m);
    }
    let rewritten = substitute(store, term, &map);
    let ghost s7 = store.terms();
    let mut parts: Vec<TermId> = Vec::new();
    parts.push(rewritten);
    let mut n: usize = 0;
    while n < sides.len()
        invariant
            n <= sides.len(),
            parts@.len() == n + 1,
            parts@[0] == rewritten,
            forall|j: int| 0 <= j < n ==> #[trigger] parts@[j + 1] == sides@[j],
        decreases sides.len() - n,
    {
        parts.push(sides[n]);
        n = n + 1;
    }
    proof {
        assert forall|j: int| 0 <= j < parts@.len() implies (#[trigger] parts@[j]) < s7.len() by {
            if j > 0 {
                assert(parts@[(j - 1) + 1] == sides@[j - 1]);
            }
        }
    }
    let r = store.mk_and(parts);
    proof {
        let s8 = store.terms();
        assert(extends(s4, s8));
        assert(s8[r as int] == plain_node(Op::And, parts@, BOOL_SORT));
        tables.lemma_wf_extend(s6, s8);
        t4.lemma_wf_extend(s4, s5);
        t4.lemma_wf_extend(s4, s6);
        lemma_rebound_extend(s5, s8, m, t4.unit_eq_rep@, t5.unit_eq_rep@);
        lemma_keys_rebound_extend(s6, s8, m, t4.table_index_keys@, tables.table_index_keys@);
        lemma_indices_rebound_extend(
            s6,
            s8,
            m,
            t4.table_index_keys@,
            t4.table_index_terms@,
            tables.table_index_terms@,
        );
        assert(tables_carried(s8, m, ks@, old(tables), tables));
        lemma_subst_extend(s7, s8, m, term, rewritten);
        assert forall|k: TermId| #[trigger] ks@.contains(k) <==> subterm(s8, term, k) && value_ite(
            s8,
            k,
        ) by {
            lemma_subterm_back(s0, s8, term, k);
            if subterm(s8, term, k) {
                lemma_reach_le(s8, Map::empty(), term, k);
                assert(s8[k as int] == s0[k as int]);
            }
        }
        assert(lists_value_ites(s8, term, ks@));
        assert forall|k: TermId| #[trigger] m.contains_key(k) implies k < s8.len() && node_at(
            s8,
            m[k],
            var_node(symbol(k), s8[k as int].sort),
        ) by {
            assert(s8[k as int] == s1[k as int]);
            assert(s8[m[k] as int] == s1[m[k] as int]);
        }
        assert(replaces(s8, m, ks@, symbol));
        assert forall|j: int| 0 <= j < ks@.len() implies ite_sides(
            s8,
            m,
            #[trigger] ks@[j],
            parts@[1 + 2 * j],
            parts@[2 + 2 * j],
        ) by {
            assert(parts@[2 * j + 1] == sides@[2 * j]);
            assert(parts@[(2 * j + 1) + 1] == sides@[2 * j + 1]);
            assert(ks@.contains(ks@[j]));
            assert(s4[ks@[j] as int] == s0[ks@[j] as int]);
            lemma_ite_sides_extend(s4, s8, m, ks@[j], sides@[2 * j], sides@[2 * j + 1]);
        }
        assert(ites_eliminated(s8, m, ks@, term, r));
        assert(subterm(s0, term, ks@[0]) && value_ite(s0, ks@[0])) by {
            assert(ks@.contains(ks@[0]));
        }
    }
    r
}

/// Which arguments of functions are replaced.
#[derive(Clone, Copy, PartialEq, Eq, Debug, Structural)]
pub enum ArgKind {
    Bool,
    Numeric,
}

/// The symbol of the variable that replaces an argument.
pub open spec fn arg_symbol(kind: ArgKind, k: TermId) -> Symbol {
    match kind {
        ArgKind::Bool => Symbol::BoolArg(k),
        ArgKind::Numeric => Symbol::NumArg(k),
    }
}

/// `r` is the assertion `term` with the listed terms replaced, and an equation
/// between each variable and what it replaces.
pub open spec fn defined_by_equations(
    s: Seq<TermView>,
    kind: ArgKind,
    m: Map<TermId, TermId>,
    ks: Seq<TermId>,
    term: TermId,
    r: TermId,
) -> bool {
    let parts = s[r as int].args;
    &&& replaces(s, m, ks, |k: TermId| arg_symbol(kind, k))
    &&& node_at(s, r, plain_node(Op::And, parts, BOOL_SORT))
    &&& parts.len() == 1 + ks.len()
    &&& parts[0] < s.len() && subst(s, m, term, parts[0])
    &&& forall|j: int|
        0 <= j < ks.len() ==> is_equation(s, m[#[trigger] ks[j]], ks[j], parts[1 + j])
}

/// The kind of variables that replace arguments.
pub open spec fn argument_kind(kind: ArgKind) -> Replacing {
    match kind {
        ArgKind::Bool => Replacing::BoolArgs,
        ArgKind::Numeric => Replacing::NumArgs,
    }
}

/// Replacing arguments keeps satisfiability: an interpretation of the
/// assertion, extended to the new variables by the values of the terms they
/// replace, gives the result the value that the assertion has.
pub proof fn argument_definitions_preserve_models(
    s0: Seq<TermView>,
    s: Seq<TermView>,
    i: Interp,
    kind: ArgKind,
    m: Map<TermId, TermId>,
    ks: Seq<TermId>,
    term: TermId,
    r: TermId,
)
    requires
        terms_wf(s0),
        terms_wf(s),
        extends(s0, s),
        term < s0.len(),
        quantifier_free(s0, term),
        avoids(s0, symbols_of(argument_kind(kind)), term),
        forall|k: TermId| #[trigger] ks.contains(k) ==> subterm(s0, term, k),
        defined_by_equations(s, kind, m, ks, term, r),
    ensures
        holds(s, defining(s0, i, argument_kind(kind)), r) == holds(s0, i, term),
{
    let d = defining(s0, i, argument_kind(kind));
    let parts = s[r as int].args;
    lemma_same_walk(s0, s, term);
    lemma_replaces_ok(s, m, ks, |k: TermId| arg_symbol(kind, k));
    assert forall|k: TermId| #[trigger] m.contains_key(k) implies eval(s, d, k as int) == eval(
        s,
        d,
        m[k] as int,
    ) by {
        assert(ks.contains(k));
        lemma_reach_le(s0, Map::empty(), term, k);
        lemma_avoids_below(s0, symbols_of(argument_kind(kind)), term, k);
        assert(s[k as int] == s0[k as int]);
        lemma_defining_var(s0, s, i, argument_kind(kind), k, m[k], arg_symbol(kind, k));
    }
    lemma_subst_eval(s, d, m, term, parts[0]);
    lemma_extend(s0, s, d, term);
    lemma_defining(s0, i, argument_kind(kind), term);
    lemma_and_holds(s, d, r, parts);
    if holds(s0, i, term) {
        assert forall|n: int| 0 <= n < parts.len() implies holds(s, d, #[trigger] parts[n]) by {
            if n > 0 {
                let k = ks[n - 1];
                assert(ks.contains(k));
                assert(m.contains_key(k));
                assert(is_equation(s, m[ks[n - 1]], ks[n - 1], parts[1 + (n - 1)]));
                lemma_eq_holds(s, m[k], k, parts[n]);
            }
        }
    } else {
        assert(!holds(s, d, parts[0]));
    }
}

/// Replacing arguments adds no solutions: a well-sorted interpretation that
/// satisfies the result satisfies the assertion.
pub proof fn argument_definitions_are_sound(
    s: Seq<TermView>,
    i: Interp,
    kind: ArgKind,
    m: Map<TermId, TermId>,
    ks: Seq<TermId>,
    term: TermId,
    r: TermId,
)
    requires
        terms_wf(s),
        term < s.len(),
        quantifier_free(s, term),
        well_sorted(s, i),
        defined_by_equations(s, kind, m, ks, term, r),
        holds(s, i, r),
    ensures
        holds(s, i, term),
{
    let parts = s[r as int].args;
    lemma_replaces_ok(s, m, ks, |k: TermId| arg_symbol(kind, k));
    lemma_and_holds(s, i, r, parts);
    assert forall|k: TermId| #[trigger] m.contains_key(k) implies eval(s, i, k as int) == eval(
        s,
        i,
        m[k] as int,
    ) by {
        assert(ks.contains(k));
        let j = choose|j: int| 0 <= j < ks.len() && ks[j] == k;
        assert(is_equation(s, m[ks[j]], ks[j], parts[1 + j]));
        lemma_eq_holds(s, m[k], k, parts[1 + j]);
        assert(holds(s, i, parts[1 + j]));
        lemma_eqv_equal(s, i, m[k], k);
    }
    lemma_subst_eval(s, i, m, term, parts[0]);
    assert(holds(s, i, parts[0]));
}

/// Replaces the listed terms by variables and states what they stand for.
fn define_arguments(store: &mut TermStore, term: TermId, ks: &Vec<TermId>, kind: ArgKind) -> (r: (
    TermId,
    Ghost<Map<TermId, TermId>>,
))
    requires
        old(store).wf(),
        term < old(store).terms().len(),
        forall|j: int| 0 <= j < ks@.len() ==> (#[trigger] ks@[j]) < old(store).terms().len(),
        forall|i: int, j: int| 0 <= i < j < ks@.len() ==> ks@[i] < ks@[j],
    ensures
        grew(old(store), final(store)),
        r.0 < final(store).terms().len(),
        defined_by_equations(final(store).terms(), kind, r.1@, ks@, term, r.0),
{
    let ghost s0 = store.terms();
    let ghost symbol = |k: TermId| arg_symbol(kind, k);
    let mut map: FxHashMap<TermId, TermId> = map_new();
    let mut vars: Vec<TermId> = Vec::new();
    let mut n: usize = 0;
    proof {
        assert(ks@.take(0) =~= Seq::empty());
    }
    while n < ks.len()
        invariant
            n <= ks.len(),
            s0 == old(store).terms(),
            terms_wf(s0),
            symbol == (|k: TermId| arg_symbol(kind, k)),
            grew(old(store), store),
            forall|j: int| 0 <= j < ks@.len() ==> (#[trigger] ks@[j]) < s0.len(),
            forall|i: int, j: int| 0 <= i < j < ks@.len() ==> ks@[i] < ks@[j],
            replaces(store.terms(), map@, ks@.take(n as int), symbol),
            vars@.len() == n,
            forall|j: int| 0 <= j < n ==> vars@[j] == map@[#[trigger] ks@[j]],
        decreases ks.len() - n,
    {
        let k: TermId = ks[n];
        let ghost s1 = store.terms();
        let ghost before = map@;
        assert(s1[k as int] == s0[k as int]);
        let sort = store.nodes[k].sort;
        let sym = match kind {
            ArgKind::Bool => Symbol::BoolArg(k),
            ArgKind::Numeric => Symbol::NumArg(k),
        };
        let v = store.mk_var(sym, sort);
        let ghost s2 = store.terms();
        map_insert(&mut map, k, v);
        vars.push(v);
        proof {
            let pre = ks@.take(n as int);
            let all = ks@.take(n + 1);
            assert forall|x: TermId| #[trigger] all.contains(x) <==> pre.contains(x) || x == k by {
                if pre.contains(x) {
                    let j = choose|j: int| 0 <= j < pre.len() && pre[j] == x;
                    assert(all[j] == x);
                }
                assert(all[n as int] == k);
                if all.contains(x) {
                    let j = choose|j: int| 0 <= j < all.len() && all[j] == x;
                    if j < n {
                        assert(pre[j] == x);
                    }
                }
            }
            assert forall|x: TermId| #[trigger] map@.contains_key(x) implies x < s2.len() && node_at(
                s2,
                map@[x],
                var_node(symbol(x), s2[x as int].sort),
            ) by {
                assert(s2[x as int] == s1[x as int]);
                if x != k {
                    assert(before.contains_key(x));
                    assert(s2[before[x] as int] == s1[before[x] as int]);
                }
            }
            assert forall|j: int| 0 <= j < n + 1 implies vars@[j] == map@[#[trigger] ks@[j]] by {
                if j < n {
                    assert(ks@[j] < ks@[n as int]);
                }
            }
        }
        n = n + 1;
    }
    assert(ks@.take(ks@.len() as int) =~= ks@);
    let ghost m = map@;
    let ghost s1 = store.terms();
    proof {
        lemma_replaces_ok(s1, m, ks@, symbol);
    }
    let mut sides: Vec<TermId> = Vec::new();
    let mut n: usize = 0;
    while n < ks.len()
        invariant
            n <= ks.len(),
            terms_wf(s1),
            grew(old(store), store),
            extends(s1, store.terms()),
            map_ok(s1, m),
            replaces(s1, m, ks@, symbol),
            vars@.len() == ks@.len(),
            forall|j: int| 0 <= j < ks@.len() ==> vars@[j] == m[#[trigger] ks@[j]],
            sides@.len() == n,
            forall|j: int| 0 <= j < n ==> (#[trigger] sides@[j]) < store.terms().len(),
            forall|j: int|
                0 <= j < n ==> is_equation(store.terms(), m[#[trigger] ks@[j]], ks@[j], sides@[j]),
        decreases ks.len() - n,
    {
        let k: TermId = ks[n];
        let ghost s2 = store.terms();
        proof {
            assert(ks@.contains(k));
            assert(m.contains_key(k));
            assert(vars@[n as int] == m[ks@[n as int]]);
            assert(s2[k as int] == s1[k as int]);
            assert(s2[m[k] as int] == s1[m[k] as int]);
        }
        let eq = store.mk_eq(vars[n], k);
        let ghost before = sides@;
        sides.push(eq);
        proof {
            let s3 = store.terms();
            assert forall|j: int| 0 <= j < n + 1 implies is_equation(
                s3,
                m[#[trigger] ks@[j]],
                ks@[j],
                sides@[j],
            ) by {
                if j < n {
                    assert(is_equation(s2, m[ks@[j]], ks@[j], before[j]));
                    assert(s3[before[j] as int] == s2[before[j] as int]);
                }
            }
        }
        n = n + 1;
    }
    let ghost s4 = store.terms();
    proof {
        lemma_map_ok_extend(s1, s4, m);
    }
    let rewritten = substitute(store, term, &map);
    let ghost s5 = store.terms();
    let mut parts: Vec<TermId> = Vec::new();
    parts.push(rewritten);
    let mut n: usize = 0;
    while n < sides.len()
        invariant
            n <= sides.len(),
            parts@.len() == n + 1,
            parts@[0] == rewritten,
            forall|j: int| 0 <= j < n ==> #[trigger] parts@[j + 1] == sides@[j],
        decreases sides.len() - n,
    {
        parts.push(sides[n]);
        n = n + 1;
    }
    proof {
        assert forall|j: int| 0 <= j < parts@.len() implies (#[trigger] parts@[j]) < s5.len() by {
            if j > 0 {
                assert(parts@[(j - 1) + 1] == sides@[j - 1]);
            }
        }
    }
    let r = store.mk_and(parts);
    proof {
        let s6 = store.terms();
        assert(s6[r as int] == plain_node(Op::And, parts@, BOOL_SORT));
        lemma_subst_extend(s5, s6, m, term, rewritten);
        assert forall|k: TermId| #[trigger] m.contains_key(k) implies k < s6.len() && node_at(
            s6,
            m[k],
            var_node(symbol(k), s6[k as int].sort),
        ) by {
            assert(s6[k as int] == s1[k as int]);
            assert(s6[m[k] as int] == s1[m[k] as int]);
        }
        assert forall|j: int| 0 <= j < ks@.len() implies is_equation(
            s6,
            m[#[trigger] ks@[j]],
            ks@[j],
            parts@[1 + j],
        ) by {
            assert(parts@[j + 1] == sides@[j]);
            assert(is_equation(s4, m[ks@[j]], ks@[j], sides@[j]));
            assert(s6[sides@[j] as int] == s4[sides@[j] as int]);
        }
    }
    (r, Ghost(m))
}

/// An argument of a function that is a formula but no variable or application.
pub open spec fn compound_bool_arg(s: Seq<TermView>, k: TermId) -> bool {
    &&& k < s.len()
    &&& s[k as int].sort == BOOL_SORT
    &&& s[k as int].op != Op::Var
    &&& s[k as int].op != Op::Apply
}

/// A constant that is a factor of some product below `term`.
pub open spec fn coefficient_const(s: Seq<TermView>, term: TermId, k: TermId) -> bool {
    &&& k < s.len()
    &&& s[k as int].op == Op::IntConst || s[k as int].op == Op::RealConst
    &&& exists|p: TermId| #[trigger]
        subterm(s, term, p) && s[p as int].op == Op::Mul && s[p as int].args.contains(k)
}

/// An argument of a function that is a constant or a compound number.  A
/// constant that is also a coefficient stays, since replacing it would make
/// products nonlinear.
pub open spec fn compound_num_arg(s: Seq<TermView>, term: TermId, k: TermId) -> bool {
    &&& k < s.len()
    &&& numeric_sort(s[k as int].sort)
    &&& !shared_op(s[k as int].op)
    &&& !coefficient_const(s, term, k)
}

/// Numeric terms that arithmetic knows as they are.
pub open spec fn shared_op(op: Op) -> bool {
    op == Op::Var || op == Op::Apply || op == Op::Select || op == Op::Ite || op == Op::Div || op
        == Op::Mod || op == Op::DtSelector
}

/// `k` is an argument of a function application below `term`.
pub open spec fn function_arg(s: Seq<TermView>, term: TermId, k: TermId) -> bool {
    exists|p: TermId| #[trigger]
        subterm(s, term, p) && s[p as int].op == Op::Apply && s[p as int].args.contains(k)
}

/// Which function arguments below `term` are replaced.
pub open spec fn replaced_arg(s: Seq<TermView>, kind: ArgKind, term: TermId, k: TermId) -> bool {
    function_arg(s, term, k) && match kind {
        ArgKind::Bool => compound_bool_arg(s, k),
        ArgKind::Numeric => compound_num_arg(s, term, k),
    }
}

/// `ks` lists what is replaced, in ascending order.
pub open spec fn lists_replaced(
    s: Seq<TermView>,
    kind: ArgKind,
    term: TermId,
    ks: Seq<TermId>,
) -> bool {
    &&& forall|i: int, j: int| 0 <= i < j < ks.len() ==> ks[i] < ks[j]
    &&& forall|k: TermId| #[trigger] ks.contains(k) <==> replaced_arg(s, kind, term, k)
}

/// The constants that are factors of products below a term.
fn coefficient_consts(store: &TermStore, term: TermId, list: &Vec<TermId>) -> (set: FxHashSet<
    TermId,
>)
    requires
        store.wf(),
        term < store.terms().len(),
        lists_reach(list@, store.terms(), Map::empty(), term),
    ensures
        forall|k: TermId| #[trigger]
            set@.contains(k) <==> coefficient_const(store.terms(), term, k),
{
    let ghost s = store.terms();
    let mut set: FxHashSet<TermId> = set_new();
    let mut n: usize = 0;
    while n < list.len()
        invariant
            n <= list.len(),
            store.wf(),
            s == store.terms(),
            term < s.len(),
            lists_reach(list@, s, Map::empty(), term),
            forall|k: TermId| #[trigger] set@.contains(k) ==> coefficient_const(s, term, k),
            forall|j: int, l: int|
                0 <= j < n && s[list@[j] as int].op == Op::Mul && 0 <= l
                    < s[list@[j] as int].args.len() ==> const_in(
                    s,
                    set@,
                    #[trigger] s[list@[j] as int].args[l],
                ),
        decreases list.len() - n,
    {
        let st: TermId = list[n];
        proof {
            assert(list@.contains(st));
            lemma_reach_le(s, Map::empty(), term, st);
            assert(node_below(s, st as int));
        }
        if store.nodes[st].op == Op::Mul {
            let mut l: usize = 0;
            while l < store.nodes[st].args.len()
                invariant
                    n < list.len(),
                    st == list@[n as int],
                    store.wf(),
                    s == store.terms(),
                    term < s.len(),
                    st < s.len(),
                    subterm(s, term, st),
                    s[st as int].op == Op::Mul,
                    node_below(s, st as int),
                    l <= s[st as int].args.len(),
                    forall|k: TermId| #[trigger] set@.contains(k) ==> coefficient_const(s, term, k),
                    forall|j: int, i: int|
                        0 <= j < n && s[list@[j] as int].op == Op::Mul && 0 <= i
                            < s[list@[j] as int].args.len() ==> const_in(
                            s,
                            set@,
                            #[trigger] s[list@[j] as int].args[i],
                        ),
                    forall|i: int|
                        0 <= i < l ==> const_in(s, set@, #[trigger] s[st as int].args[i]),
                decreases s[st as int].args.len() - l,
            {
                let a: TermId = store.nodes[st].args[l];
                assert(a == s[st as int].args[l as int]);
                let op = store.nodes[a].op;
                if op == Op::IntConst || op == Op::RealConst {
                    set_insert(&mut set, a);
                    proof {
                        assert(s[st as int].args.contains(a));
                        assert(subterm(s, term, st) && s[st as int].op == Op::Mul);
                        assert(coefficient_const(s, term, a));
                    }
                }
                l = l + 1;
            }
        }
        n = n + 1;
    }
    proof {
        assert forall|k: TermId| coefficient_const(s, term, k) implies #[trigger] set@.contains(k) by {
            let p = choose|p: TermId| #[trigger]
                subterm(s, term, p) && s[p as int].op == Op::Mul && s[p as int].args.contains(k);
            assert(list@.contains(p));
            let j = choose|j: int| 0 <= j < list@.len() && list@[j] == p;
            let l = choose|l: int| 0 <= l < s[p as int].args.len() && s[p as int].args[l] == k;
            assert(const_in(s, set@, s[list@[j] as int].args[l]));
        }
    }
    set
}

/// A constant is in the set.
spec fn const_in(s: Seq<TermView>, set: Set<TermId>, k: TermId) -> bool {
    s[k as int].op == Op::IntConst || s[k as int].op == Op::RealConst ==> set.contains(k)
}

/// Whether a function argument is replaced.
fn is_replaced(store: &TermStore, kind: ArgKind, coefficients: &FxHashSet<TermId>, k: TermId, Ghost(
    term,
): Ghost<TermId>) -> (b: bool)
    requires
        store.wf(),
        k < store.terms().len(),
        kind == ArgKind::Numeric ==> forall|x: TermId| #[trigger]
            coefficients@.contains(x) <==> coefficient_const(store.terms(), term, x),
    ensures
        b == match kind {
            ArgKind::Bool => compound_bool_arg(store.terms(), k),
            ArgKind::Numeric => compound_num_arg(store.terms(), term, k),
        },
{
    let op = store.nodes[k].op;
    let sort = store.nodes[k].sort;
    match kind {
        ArgKind::Bool => sort == BOOL_SORT && op != Op::Var && op != Op::Apply,
        ArgKind::Numeric => is_numeric_sort(sort) && !(op == Op::Var || op == Op::Apply || op
            == Op::Select || op == Op::Ite || op == Op::Div || op == Op::Mod || op
            == Op::DtSelector) && !set_contains(coefficients, k),
    }
}

/// The function arguments to replace, in ascending order.
fn list_replaced(store: &TermStore, kind: ArgKind, term: TermId, list: &Vec<TermId>) -> (ks: Vec<
    TermId,
>)
    requires
        store.wf(),
        term < store.terms().len(),
        lists_reach(list@, store.terms(), Map::empty(), term),
    ensures
        lists_replaced(store.terms(), kind, term, ks@),
{
    let ghost s = store.terms();
    let coefficients = if kind == ArgKind::Numeric {
        coefficient_consts(store, term, list)
    } else {
        set_new()
    };
    let mut set: FxHashSet<TermId> = set_new();
    let mut n: usize = 0;
    while n < list.len()
        invariant
            n <= list.len(),
            store.wf(),
            s == store.terms(),
            term < s.len(),
            lists_reach(list@, s, Map::empty(), term),
            kind == ArgKind::Numeric ==> forall|x: TermId| #[trigger]
                coefficients@.contains(x) <==> coefficient_const(s, term, x),
            forall|k: TermId| #[trigger] set@.contains(k) ==> replaced_arg(s, kind, term, k),
            forall|j: int, l: int|
                0 <= j < n && s[list@[j] as int].op == Op::Apply && 0 <= l
                    < s[list@[j] as int].args.len() && replaced_arg(
                    s,
                    kind,
                    term,
                    #[trigger] s[list@[j] as int].args[l],
                ) ==> set@.contains(s[list@[j] as int].args[l]),
        decreases list.len() - n,
    {
        let st: TermId = list[n];
        proof {
            assert(list@.contains(st));
            lemma_reach_le(s, Map::empty(), term, st);
            assert(node_below(s, st as int));
        }
        if store.nodes[st].op == Op::Apply {
            let mut l: usize = 0;
            while l < store.nodes[st].args.len()
                invariant
                    n < list.len(),
                    st == list@[n as int],
                    store.wf(),
                    s == store.terms(),
                    term < s.len(),
                    st < s.len(),
                    subterm(s, term, st),
                    s[st as int].op == Op::Apply,
                    node_below(s, st as int),
                    l <= s[st as int].args.len(),
                    kind == ArgKind::Numeric ==> forall|x: TermId| #[trigger]
                        coefficients@.contains(x) <==> coefficient_const(s, term, x),
                    forall|k: TermId| #[trigger]
                        set@.contains(k) ==> replaced_arg(s, kind, term, k),
                    forall|j: int, i: int|
                        0 <= j < n && s[list@[j] as int].op == Op::Apply && 0 <= i
                            < s[list@[j] as int].args.len() && replaced_arg(
                            s,
                            kind,
                            term,
                            #[trigger] s[list@[j] as int].args[i],
                        ) ==> set@.contains(s[list@[j] as int].args[i]),
                    forall|i: int|
                        0 <= i < l && replaced_arg(s, kind, term, #[trigger] s[st as int].args[i])
                            ==> set@.contains(s[st as int].args[i]),
                decreases s[st as int].args.len() - l,
            {
                let a: TermId = store.nodes[st].args[l];
                assert(a == s[st as int].args[l as int]);
                if is_replaced(store, kind, &coefficients, a, Ghost(term)) {
                    set_insert(&mut set, a);
                    proof {
                        assert(s[st as int].args.contains(a));
                        assert(subterm(s, term, st) && s[st as int].op == Op::Apply);
                        assert(function_arg(s, term, a));
                    }
                }
                l = l + 1;
            }
        }
        n = n + 1;
    }
    let ks = set_sorted_items(&set);
    proof {
        assert forall|k: TermId| #[trigger] ks@.contains(k) <==> replaced_arg(s, kind, term, k) by {
            assert(ks@.contains(k) <==> ks@.to_set().contains(k));
            if replaced_arg(s, kind, term, k) {
                let p = choose|p: TermId| #[trigger]
                    subterm(s, term, p) && s[p as int].op == Op::Apply && s[p as int].args.contains(
                        k,
                    );
                assert(list@.contains(p));
                let j = choose|j: int| 0 <= j < list@.len() && list@[j] == p;
                let l = choose|l: int| 0 <= l < s[p as int].args.len() && s[p as int].args[l] == k;
                assert(replaced_arg(s, kind, term, s[list@[j] as int].args[l]));
            }
        }
    }
    ks
}

/// Replaces formulas among the arguments of functions by Boolean variables, and
/// states beside the rewritten assertion that they are equivalent.
///
/// Variables and applications stay.  An assertion without such arguments is
/// returned as it is.
pub fn abstract_compound_bool_args(store: &mut TermStore, term: TermId) -> (r: TermId)
    requires
        old(store).wf(),
        term < old(store).terms().len(),
    ensures
        grew(old(store), final(store)),
        r < final(store).terms().len(),
        if exists|k: TermId| #[trigger]
            replaced_arg(old(store).terms(), ArgKind::Bool, term, k) {
            exists|m: Map<TermId, TermId>, ks: Seq<TermId>|
                lists_replaced(old(store).terms(), ArgKind::Bool, term, ks) && #[trigger]
                defined_by_equations(final(store).terms(), ArgKind::Bool, m, ks, term, r)
        } else {
            r == term && *final(store) == *old(store)
        },
{
    let ghost s0 = store.terms();
    let list = collect_subterms(store, term);
    let ks = list_replaced(store, ArgKind::Bool, term, &list);
    if ks.len() == 0 {
        proof {
            assert forall|k: TermId| !(#[trigger] replaced_arg(s0, ArgKind::Bool, term, k)) by {
                assert(!ks@.contains(k));
            }
        }
        return term;
    }
    proof {
        assert forall|j: int| 0 <= j < ks@.len() implies (#[trigger] ks@[j]) < s0.len() by {
            assert(ks@.contains(ks@[j]));
        }
        assert(ks@.contains(ks@[0]));
    }
    let (r, m) = define_arguments(store, term, &ks, ArgKind::Bool);
    assert(defined_by_equations(store.terms(), ArgKind::Bool, m@, ks@, term, r));
    r
}

/// Whether a quantified formula occurs among the subterms.
pub(crate) fn any_quantifier(store: &TermStore, term: TermId, list: &Vec<TermId>) -> (b: bool)
    requires
        store.wf(),
        term < store.terms().len(),
        lists_reach(list@, store.terms(), Map::empty(), term),
    ensures
        b == !quantifier_free(store.terms(), term),
{
    let ghost s = store.terms();
    let mut n: usize = 0;
    while n < list.len()
        invariant
            n <= list.len(),
            store.wf(),
            s == store.terms(),
            term < s.len(),
            lists_reach(list@, s, Map::empty(), term),
            forall|j: int|
                0 <= j < n ==> s[#[trigger] list@[j] as int].op != Op::Forall && s[list@[j] as int].op
                    != Op::Exists,
        decreases list.len() - n,
    {
        let st: TermId = list[n];
        proof {
            assert(list@.contains(st));
            lemma_reach_le(s, Map::empty(), term, st);
        }
        let op = store.nodes[st].op;
        if op == Op::Forall || op == Op::Exists {
            proof {
                if quantifier_free(s, term) {
                    lemma_quantifier_free_below(s, term, st);
                }
            }
            return true;
        }
        n = n + 1;
    }
    proof {
        assert forall|x: TermId| #[trigger] subterm(s, term, x) implies s[x as int].op != Op::Forall
            && s[x as int].op != Op::Exists by {
            assert(list@.contains(x));
            let j = choose|j: int| 0 <= j < list@.len() && list@[j] == x;
            assert(s[list@[j] as int].op != Op::Forall);
        }
        lemma_no_quantifier(s, term, term);
    }
    false
}

proof fn lemma_no_quantifier(s: Seq<TermView>, term: TermId, t: TermId)
    requires
        terms_wf(s),
        term < s.len(),
        subterm(s, term, t),
        forall|x: TermId| #[trigger]
            subterm(s, term, x) ==> s[x as int].op != Op::Forall && s[x as int].op != Op::Exists,
    ensures
        quantifier_free(s, t),
    decreases t,
{
    lemma_reach_le(s, Map::empty(), term, t);
    assert(node_below(s, t as int));
    assert forall|k: int| 0 <= k < s[t as int].args.len() implies quantifier_free(
        s,
        #[trigger] s[t as int].args[k],
    ) by {
        lemma_reach_step(s, Map::empty(), term, t, k);
        lemma_no_quantifier(s, term, s[t as int].args[k]);
    }
}

/// Replaces constants and compound numbers among the arguments of functions by
/// variables, and states beside the rewritten assertion that they are equal.
///
/// An assertion with a quantifier is returned as it is, since the variables
/// would escape its scope; so is one without such arguments.
pub fn purify_numeric_uf_args(store: &mut TermStore, term: TermId) -> (r: TermId)
    requires
        old(store).wf(),
        term < old(store).terms().len(),
    ensures
        grew(old(store), final(store)),
        r < final(store).terms().len(),
        if quantifier_free(old(store).terms(), term) && exists|k: TermId| #[trigger]
            replaced_arg(old(store).terms(), ArgKind::Numeric, term, k) {
            exists|m: Map<TermId, TermId>, ks: Seq<TermId>|
                lists_replaced(old(store).terms(), ArgKind::Numeric, term, ks) && #[trigger]
                defined_by_equations(final(store).terms(), ArgKind::Numeric, m, ks, term, r)
        } else {
            r == term && *final(store) == *old(store)
        },
{
    let ghost s0 = store.terms();
    let list = collect_subterms(store, term);
    if any_quantifier(store, term, &list) {
        return term;
    }
    let ks = list_replaced(store, ArgKind::Numeric, term, &list);
    if ks.len() == 0 {
        proof {
            assert forall|k: TermId| !(#[trigger] replaced_arg(s0, ArgKind::Numeric, term, k)) by {
                assert(!ks@.contains(k));
            }
        }
        return term;
    }
    proof {
        assert forall|j: int| 0 <= j < ks@.len() implies (#[trigger] ks@[j]) < s0.len() by {
            assert(ks@.contains(ks@[j]));
        }
        assert(ks@.contains(ks@[0]));
    }
    let (r, m) = define_arguments(store, term, &ks, ArgKind::Numeric);
    assert(defined_by_equations(store.terms(), ArgKind::Numeric, m@, ks@, term, r));
    r
}

/// What is replaced is a subterm.
pub(crate) proof fn lemma_replaced_subterm(s: Seq<TermView>, kind: ArgKind, term: TermId, k: TermId)
    requires
        terms_wf(s),
        term < s.len(),
        replaced_arg(s, kind, term, k),
    ensures
        subterm(s, term, k),
{
    let p = choose|p: TermId| #[trigger]
        subterm(s, term, p) && s[p as int].op == Op::Apply && s[p as int].args.contains(k);
    let j = choose|j: int| 0 <= j < s[p as int].args.len() && s[p as int].args[j] == k;
    lemma_reach_step(s, Map::empty(), term, p, j);
}

} // verus!
