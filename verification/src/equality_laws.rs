//! Which equations the equality graph has edges for.

use crate::chordal::{fill, missing, missing_below, missing_with};
use crate::equality_graph::{
    assertion_atoms, edge_var, eq_atoms, eq_atoms_below, equates, equation_graph, pure_equality,
};
use crate::state::Var;
use crate::terms::{node_below, terms_wf, Op, TermId, TermView, BOOL_SORT};
use vstd::prelude::*;

verus! {

/// `x` is the formula `t`, or one that it is built of by negations, conjunctions
/// and disjunctions.
pub open spec fn combined_of(s: Seq<TermView>, t: TermId, x: TermId) -> bool
    decreases t,
{
    t == x || (t < s.len() && (s[t as int].op == Op::Not || s[t as int].op == Op::And
        || s[t as int].op == Op::Or) && exists|k: int|
        0 <= k < s[t as int].args.len() && (#[trigger] s[t as int].args[k]) < t && combined_of(
            s,
            s[t as int].args[k],
            x,
        ))
}

proof fn lemma_atoms_below(s: Seq<TermView>, t: TermId, n: int, k: int, x: TermId)
    requires
        terms_wf(s),
        t < s.len(),
        0 <= k < n <= s[t as int].args.len(),
        eq_atoms(s, s[t as int].args[k]).contains(x),
    ensures
        eq_atoms_below(s, t, n).contains(x),
    decreases n,
{
    assert(node_below(s, t as int));
    assert(s[t as int].args[n - 1] < t);
    let front = eq_atoms_below(s, t, n - 1);
    let last = eq_atoms(s, s[t as int].args[n - 1]);
    if k < n - 1 {
        lemma_atoms_below(s, t, n - 1, k, x);
        assert((front + last)[front.index_of(x)] == x);
    } else {
        assert((front + last)[front.len() + last.index_of(x)] == x);
    }
}

proof fn lemma_atoms(s: Seq<TermView>, t: TermId, x: TermId)
    requires
        terms_wf(s),
        t < s.len() && x < s.len(),
        combined_of(s, t, x),
        s[x as int].op == Op::Eq,
    ensures
        eq_atoms(s, t).contains(x),
    decreases t,
{
    if t == x {
        assert(eq_atoms(s, t)[0] == x);
    } else {
        let k = choose|k: int|
            0 <= k < s[t as int].args.len() && (#[trigger] s[t as int].args[k]) < t && combined_of(
                s,
                s[t as int].args[k],
                x,
            );
        lemma_atoms(s, s[t as int].args[k], x);
        lemma_atoms_below(s, t, s[t as int].args.len() as int, k, x);
    }
}

proof fn lemma_assertion_atoms(s: Seq<TermView>, given: Seq<TermId>, n: int, k: int, x: TermId)
    requires
        0 <= k < n <= given.len(),
        eq_atoms(s, given[k]).contains(x),
    ensures
        assertion_atoms(s, given, n).contains(x),
    decreases n,
{
    let front = assertion_atoms(s, given, n - 1);
    let last = eq_atoms(s, given[n - 1]);
    if k < n - 1 {
        lemma_assertion_atoms(s, given, n - 1, k, x);
        assert((front + last)[front.index_of(x)] == x);
    } else {
        assert((front + last)[front.len() + last.index_of(x)] == x);
    }
}

proof fn lemma_edge(
    s: Seq<TermView>,
    var_of: Map<TermId, Var>,
    atoms: Seq<TermId>,
    a: TermId,
    b: TermId,
    k: int,
)
    requires
        0 <= k < atoms.len(),
        a != b,
        equates(s, atoms[k], a, b),
    ensures
        edge_var(s, var_of, atoms, a, b) is Some,
    decreases atoms.len(),
{
    if !equates(s, atoms.last(), a, b) {
        assert(atoms.drop_last()[k] == atoms[k]);
        lemma_edge(s, var_of, atoms.drop_last(), a, b, k);
    }
}

/// Each equation that an assertion is built of is an edge of the graph between its
/// two sides, in both directions.
pub proof fn equations_are_edges(
    s: Seq<TermView>,
    var_of: Map<TermId, Var>,
    given: Seq<TermId>,
    verts: Seq<TermId>,
    n: int,
    e: TermId,
    x: int,
    y: int,
)
    requires
        terms_wf(s),
        0 <= n < given.len(),
        given[n] < s.len() && e < s.len(),
        combined_of(s, given[n], e),
        s[e as int].op == Op::Eq && s[e as int].sort == BOOL_SORT,
        0 <= x < verts.len() && 0 <= y < verts.len(),
        verts[x] != verts[y],
        s[e as int].args == seq![verts[x], verts[y]],
    ensures
        ({
            let atoms = assertion_atoms(s, given, given.len() as int);
            &&& atoms.contains(e)
            &&& equation_graph(s, var_of, atoms, verts)[x][y]
            &&& equation_graph(s, var_of, atoms, verts)[y][x]
        }),
{
    let atoms = assertion_atoms(s, given, given.len() as int);
    lemma_atoms(s, given[n], e);
    lemma_assertion_atoms(s, given, given.len() as int, n, e);
    let k = atoms.index_of(e);
    lemma_edge(s, var_of, atoms, verts[x], verts[y], k);
    lemma_edge(s, var_of, atoms, verts[y], verts[x], k);
}

proof fn lemma_missing_with(
    a: Seq<Seq<bool>>,
    removed: Seq<bool>,
    v: int,
    u: int,
    k: int,
)
    ensures
        missing_with(a, removed, v, u, k) == 0 <==> forall|w: int|
            u < w < k ==> !#[trigger] missing(a, removed, v, u, w),
    decreases k - u,
{
    if k > u + 1 {
        lemma_missing_with(a, removed, v, u, k - 1);
        if missing_with(a, removed, v, u, k) == 0 {
            assert forall|w: int| u < w < k implies !#[trigger] missing(a, removed, v, u, w) by {
                if w < k - 1 {
                    assert(!missing(a, removed, v, u, w));
                }
            }
        }
    }
}

proof fn lemma_missing_below(a: Seq<Seq<bool>>, removed: Seq<bool>, v: int, k: int)
    ensures
        missing_below(a, removed, v, k) == 0 <==> forall|u: int, w: int|
            0 <= u < k && u < w < a.len() ==> !#[trigger] missing(a, removed, v, u, w),
    decreases k,
{
    if k > 0 {
        lemma_missing_below(a, removed, v, k - 1);
        lemma_missing_with(a, removed, v, k - 1, a.len() as int);
        if missing_below(a, removed, v, k) == 0 {
            assert forall|u: int, w: int| 0 <= u < k && u < w < a.len() implies !#[trigger] missing(
                a,
                removed,
                v,
                u,
                w,
            ) by {
                if u < k - 1 {
                    assert(!missing(a, removed, v, u, w));
                }
            }
        }
    }
}

/// Eliminating a vertex costs nothing just where its neighbours that are left are
/// neighbours of each other.
pub proof fn simplicial_vertices_cost_nothing(a: Seq<Seq<bool>>, removed: Seq<bool>, v: int)
    ensures
        fill(a, removed, v) == 0 <==> forall|u: int, w: int|
            0 <= u < w < a.len() && a[v][u] && !removed[u] && a[v][w] && !removed[w]
                ==> #[trigger] a[u][w],
{
    lemma_missing_below(a, removed, v, a.len() as int);
    if forall|u: int, w: int|
        0 <= u < w < a.len() && a[v][u] && !removed[u] && a[v][w] && !removed[w]
            ==> #[trigger] a[u][w] {
        assert forall|u: int, w: int| 0 <= u < a.len() && u < w < a.len() implies !#[trigger] missing(
            a,
            removed,
            v,
            u,
            w,
        ) by {
            if a[v][u] && !removed[u] && a[v][w] && !removed[w] {
                assert(a[u][w]);
            }
        }
    }
    if fill(a, removed, v) == 0 {
        assert forall|u: int, w: int|
            0 <= u < w < a.len() && a[v][u] && !removed[u] && a[v][w] && !removed[w] implies
            #[trigger] a[u][w] by {
            assert(!missing(a, removed, v, u, w));
        }
    }
}

/// A formula is one of equations alone just where every formula that it is built of
/// by negations, conjunctions and disjunctions is one of these, a truth value, or an
/// equation of two variables that has a propositional variable.
pub proof fn pure_formulas_have_pure_parts(
    s: Seq<TermView>,
    var_of: Map<TermId, Var>,
    t: TermId,
)
    requires
        terms_wf(s),
        t < s.len(),
    ensures
        pure_equality(s, var_of, t) <==> forall|x: TermId| #[trigger]
            combined_of(s, t, x) ==> pure_part(s, var_of, x),
    decreases t,
{
    assert(node_below(s, t as int));
    assert(combined_of(s, t, t));
    let args = s[t as int].args;
    let joins = s[t as int].op == Op::Not || s[t as int].op == Op::And || s[t as int].op == Op::Or;
    assert forall|k: int| 0 <= k < args.len() implies (#[trigger] args[k]) < t && (pure_equality(
        s,
        var_of,
        args[k],
    ) <==> forall|x: TermId| #[trigger]
        combined_of(s, args[k], x) ==> pure_part(s, var_of, x)) by {
        pure_formulas_have_pure_parts(s, var_of, args[k]);
    }
    if joins {
        if pure_equality(s, var_of, t) {
            assert forall|x: TermId| #[trigger] combined_of(s, t, x) implies pure_part(
                s,
                var_of,
                x,
            ) by {
                if x != t {
                    let k = choose|k: int|
                        0 <= k < args.len() && (#[trigger] s[t as int].args[k]) < t && combined_of(
                            s,
                            s[t as int].args[k],
                            x,
                        );
                    assert(pure_equality(s, var_of, args[k]));
                    assert(combined_of(s, args[k], x));
                }
            }
        }
        if forall|x: TermId| #[trigger] combined_of(s, t, x) ==> pure_part(s, var_of, x) {
            assert forall|k: int| 0 <= k < args.len() implies (#[trigger] s[t as int].args[k]) < t
                && pure_equality(s, var_of, s[t as int].args[k]) by {
                assert forall|x: TermId| #[trigger] combined_of(s, args[k], x) implies pure_part(
                    s,
                    var_of,
                    x,
                ) by {
                    assert(combined_of(s, s[t as int].args[k], x));
                    assert(combined_of(s, t, x));
                }
            }
        }
    }
}

/// A connective, a truth value, or an equation of two variables with a propositional
/// variable.
pub open spec fn pure_part(s: Seq<TermView>, var_of: Map<TermId, Var>, x: TermId) -> bool {
    &&& x < s.len()
    &&& match s[x as int].op {
        Op::Not | Op::And | Op::Or | Op::True | Op::False => true,
        Op::Eq => s[s[x as int].args[0] as int].op == Op::Var && s[s[x as int].args[1] as int].op
            == Op::Var && var_of.contains_key(x) && s[x as int].args[0] < s.len()
            && s[x as int].args[1] < s.len(),
        _ => false,
    }
}

} // verus!
