//! Equality logic by transitivity clauses.
//!
//! A formula that combines equations between variables only is decided by its
//! propositional skeleton together with the transitivity of equality.  The
//! graph of the equations is made chordal, with a fresh variable for each chord,
//! and each triangle gets the clauses that make two of its edges imply the
//! third.

use crate::aliases::is_var;
use crate::chordal::{
    after, cheapest_first, chordalize, graph, ints, permutation, rows, square, triangles_are_enough,
    triangles_closed, true_path, Truth,
};
use crate::collections::{map_get, set_insert, set_new, set_sorted_items};
use crate::constructors::grew;
use crate::encode::{clause_sat, lit_val, sat_all, Assignment};
use crate::semantics::{arg_sorts, eqv, eval, eval_args, holds, lemma_eval, Interp};
use crate::state::{
    clause_true, goal_inv, lemma_step_grow, lemma_step_trans, lit_true, step, valid_clause,
    GoalState, GoalView, Lit, Var,
};
use crate::terms::{comparable, node_below, terms_wf, Op, TermId, TermStore, TermView, BOOL_SORT};
use rustc_hash::{FxHashMap, FxHashSet};
use vstd::prelude::*;

verus! {

/// The formula combines equations between variables that have propositional
/// variables, and nothing else.
pub open spec fn pure_equality(s: Seq<TermView>, var_of: Map<TermId, Var>, t: TermId) -> bool
    decreases t,
{
    &&& t < s.len()
    &&& match s[t as int].op {
        Op::True | Op::False => true,
        Op::Not | Op::And | Op::Or => forall|k: int|
            0 <= k < s[t as int].args.len() ==> (#[trigger] s[t as int].args[k]) < t
                && pure_equality(s, var_of, s[t as int].args[k]),
        Op::Eq => is_var(s, s[t as int].args[0]) && is_var(s, s[t as int].args[1])
            && var_of.contains_key(t),
        _ => false,
    }
}

/// The equations of such a formula, from left to right.
pub open spec fn eq_atoms(s: Seq<TermView>, t: TermId) -> Seq<TermId>
    decreases t, 1int, 0int,
{
    if t < s.len() && s[t as int].op == Op::Eq {
        seq![t]
    } else if t < s.len() && (s[t as int].op == Op::Not || s[t as int].op == Op::And
        || s[t as int].op == Op::Or) {
        eq_atoms_below(s, t, s[t as int].args.len() as int)
    } else {
        Seq::empty()
    }
}

pub open spec fn eq_atoms_below(s: Seq<TermView>, t: TermId, n: int) -> Seq<TermId>
    decreases t, 0int, n,
{
    if n <= 0 || n > s[t as int].args.len() || s[t as int].args[n - 1] >= t {
        Seq::empty()
    } else {
        eq_atoms_below(s, t, n - 1) + eq_atoms(s, s[t as int].args[n - 1])
    }
}

/// Lists the equations of a formula; gives whether it is pure.
fn collect_eq_edges(
    store: &TermStore,
    vars: &FxHashMap<TermId, Var>,
    term: TermId,
    atoms: &mut Vec<TermId>,
) -> (pure: bool)
    requires
        store.wf(),
    ensures
        pure == pure_equality(store.terms(), vars@, term),
        pure ==> final(atoms)@ == old(atoms)@ + eq_atoms(store.terms(), term),
    decreases term,
{
    let ghost s = store.terms();
    let ghost first = atoms@;
    let node = match store.get(term) {
        None => {
            return false;
        },
        Some(node) => node,
    };
    assert(node_below(s, term as int));
    match node.op {
        Op::True | Op::False => {
            assert(atoms@ =~= first + eq_atoms(s, term));
            true
        },
        Op::Not | Op::And | Op::Or => {
            let mut k: usize = 0;
            assert(atoms@ =~= first + eq_atoms_below(s, term, 0));
            while k < node.args.len()
                invariant
                    k <= node.args.len(),
                    store.wf(),
                    s == store.terms(),
                    term < s.len(),
                    node_below(s, term as int),
                    node.args@ == s[term as int].args,
                    s[term as int].op == Op::Not || s[term as int].op == Op::And || s[term as int].op
                        == Op::Or,
                    atoms@ == first + eq_atoms_below(s, term, k as int),
                    forall|j: int|
                        0 <= j < k ==> pure_equality(s, vars@, #[trigger] s[term as int].args[j]),
                decreases node.args.len() - k,
            {
                assert(s[term as int].args[k as int] < term);
                if !collect_eq_edges(store, vars, node.args[k], atoms) {
                    assert(!pure_equality(s, vars@, s[term as int].args[k as int]));
                    return false;
                }
                assert(atoms@ =~= first + eq_atoms_below(s, term, k + 1));
                k = k + 1;
            }
            true
        },
        Op::Eq => {
            let known = match map_get(vars, term) {
                Some(_) => true,
                None => false,
            };
            if known && crate::strings::is_string_variable(store, node.args[0])
                && crate::strings::is_string_variable(store, node.args[1]) {
                atoms.push(term);
                assert(atoms@ =~= first + eq_atoms(s, term));
                true
            } else {
                false
            }
        },
        _ => false,
    }
}

/// The atom is an equation between `a` and `b`.
pub open spec fn equates(s: Seq<TermView>, e: TermId, a: TermId, b: TermId) -> bool {
    &&& e < s.len()
    &&& s[e as int].op == Op::Eq
    &&& s[e as int].sort == BOOL_SORT
    &&& s[e as int].args.len() == 2
    &&& (s[e as int].args[0] == a && s[e as int].args[1] == b) || (s[e as int].args[0] == b
        && s[e as int].args[1] == a)
}

/// The variable of the last atom that equates `a` and `b`.
pub open spec fn edge_var(
    s: Seq<TermView>,
    var_of: Map<TermId, Var>,
    atoms: Seq<TermId>,
    a: TermId,
    b: TermId,
) -> Option<Var>
    decreases atoms.len(),
{
    if atoms.len() == 0 || a == b {
        None
    } else if equates(s, atoms.last(), a, b) {
        Some(var_of[atoms.last()])
    } else {
        edge_var(s, var_of, atoms.drop_last(), a, b)
    }
}

/// The graph of the equations.
pub open spec fn equation_graph(
    s: Seq<TermView>,
    var_of: Map<TermId, Var>,
    atoms: Seq<TermId>,
    verts: Seq<TermId>,
) -> Seq<Seq<bool>> {
    Seq::new(
        verts.len(),
        |x: int|
            Seq::new(
                verts.len(),
                |y: int| edge_var(s, var_of, atoms, verts[x], verts[y]) is Some,
            ),
    )
}

pub open spec fn cells(m: Seq<Vec<Option<Var>>>) -> Seq<Seq<Option<Var>>> {
    Seq::new(m.len(), |x: int| m[x]@)
}

/// Each edge has a variable, whose term equates its ends.
pub open spec fn edges_named(
    s: Seq<TermView>,
    term_of: Seq<TermId>,
    verts: Seq<TermId>,
    adj: Seq<Seq<bool>>,
    vars: Seq<Seq<Option<Var>>>,
) -> bool {
    forall|x: int, y: int|
        0 <= x < verts.len() && 0 <= y < verts.len() && #[trigger] adj[x][y] ==> match vars[x][y] {
            Some(v) => v < term_of.len() && equates(s, term_of[v as int], verts[x], verts[y])
                && vars[y][x] == Some(v),
            None => false,
        }
}

/// `a` and `b` imply `c`.
pub open spec fn transitivity(a: Var, b: Var, c: Var) -> Seq<Lit> {
    seq![
        Lit { var: a, positive: false },
        Lit { var: b, positive: false },
        Lit { var: c, positive: true },
    ]
}

pub open spec fn triangle(adj: Seq<Seq<bool>>, x: int, y: int, z: int) -> bool {
    0 <= x < y && y < z < adj.len() && adj[x][y] && adj[x][z] && adj[y][z]
}

/// The clauses of a triangle are there.
pub open spec fn triangle_clauses(
    clauses: Seq<Seq<Lit>>,
    vars: Seq<Seq<Option<Var>>>,
    x: int,
    y: int,
    z: int,
) -> bool {
    let (p, q, r) = (vars[x][y]->0, vars[x][z]->0, vars[y][z]->0);
    &&& clauses.contains(transitivity(p, q, r))
    &&& clauses.contains(transitivity(p, r, q))
    &&& clauses.contains(transitivity(q, r, p))
}

/// The vertices are the sides of the atoms, each once.
pub open spec fn sides_listed(s: Seq<TermView>, atoms: Seq<TermId>, verts: Seq<TermId>) -> bool {
    &&& forall|x: int, y: int| 0 <= x < y < verts.len() ==> verts[x] < verts[y]
    &&& forall|t: TermId| #[trigger]
        verts.contains(t) <==> exists|k: int|
            0 <= k < atoms.len() && (s[(#[trigger] atoms[k]) as int].args[0] == t
                || s[atoms[k] as int].args[1] == t)
}

/// The three clauses of a triangle.
pub open spec fn triangle_list(vars: Seq<Seq<Option<Var>>>, x: int, y: int, z: int) -> Seq<
    Seq<Lit>,
> {
    let (p, q, r) = (vars[x][y]->0, vars[x][z]->0, vars[y][z]->0);
    seq![transitivity(p, q, r), transitivity(p, r, q), transitivity(q, r, p)]
}

/// The clauses of the triangles over an edge with a third vertex between `y`
/// and `z`.
pub open spec fn edge_clauses(
    adj: Seq<Seq<bool>>,
    vars: Seq<Seq<Option<Var>>>,
    x: int,
    y: int,
    z: int,
) -> Seq<Seq<Lit>>
    decreases z - y,
{
    if z <= y + 1 {
        Seq::empty()
    } else {
        edge_clauses(adj, vars, x, y, z - 1) + if triangle(adj, x, y, z - 1) {
            triangle_list(vars, x, y, z - 1)
        } else {
            Seq::empty()
        }
    }
}

/// The clauses of the triangles with the first vertex `x` and the second between
/// `x` and `y`.
pub open spec fn vertex_clauses(
    adj: Seq<Seq<bool>>,
    vars: Seq<Seq<Option<Var>>>,
    x: int,
    y: int,
) -> Seq<Seq<Lit>>
    decreases y - x,
{
    if y <= x + 1 {
        Seq::empty()
    } else {
        vertex_clauses(adj, vars, x, y - 1) + edge_clauses(adj, vars, x, y - 1, adj.len() as int)
    }
}

/// The clauses of the triangles whose first vertex is before `x`, triangle by
/// triangle.
pub open spec fn graph_clauses(
    adj: Seq<Seq<bool>>,
    vars: Seq<Seq<Option<Var>>>,
    x: int,
) -> Seq<Seq<Lit>>
    decreases x,
{
    if x <= 0 {
        Seq::empty()
    } else {
        graph_clauses(adj, vars, x - 1) + vertex_clauses(adj, vars, x - 1, adj.len() as int)
    }
}

/// Each variable from the `from`-th on is that of an edge of the chordal graph
/// that had none.
pub open spec fn only_chords(
    from: int,
    upto: int,
    had: Seq<Seq<Option<Var>>>,
    adj: Seq<Seq<bool>>,
    vars: Seq<Seq<Option<Var>>>,
) -> bool {
    forall|v: Var| from <= v < upto ==> #[trigger] names_chord(had, adj, vars, v)
}

pub open spec fn names_chord(
    had: Seq<Seq<Option<Var>>>,
    adj: Seq<Seq<bool>>,
    vars: Seq<Seq<Option<Var>>>,
    v: Var,
) -> bool {
    exists|x: int, y: int|
        0 <= x < y && y < adj.len() && adj[x][y] && had[x][y] is None && #[trigger] vars[x][y]
            == Some(v)
}

/// The variables of the equations.
pub open spec fn equation_vars(
    s: Seq<TermView>,
    var_of: Map<TermId, Var>,
    atoms: Seq<TermId>,
    verts: Seq<TermId>,
) -> Seq<Seq<Option<Var>>> {
    Seq::new(
        verts.len(),
        |x: int|
            Seq::new(
                verts.len(),
                |y: int| edge_var(s, var_of, atoms, verts[x], verts[y]),
            ),
    )
}

/// The clauses decide the equations: the chordal graph of the equations has a
/// variable for each edge, and the clauses added are those of its triangles.
/// The variables added are those of edges that no equation gives.
pub open spec fn transitivity_added(
    s0: Seq<TermView>,
    e0: GoalView,
    atoms: Seq<TermId>,
    s: Seq<TermView>,
    e: GoalView,
    verts: Seq<TermId>,
    vars: Seq<Seq<Option<Var>>>,
    order: Seq<int>,
) -> bool {
    let a = equation_graph(s0, e0.j.var_of, atoms, verts);
    let adj = after(a, order, order.len() as int);
    &&& sides_listed(s0, atoms, verts)
    &&& graph(a, verts.len() as int)
    &&& permutation(order, verts.len() as int)
    &&& cheapest_first(a, order)
    &&& edges_named(s, e.term_of, verts, adj, vars)
    &&& forall|x: int, y: int|
        0 <= x < verts.len() && 0 <= y < verts.len() && #[trigger] a[x][y] ==> vars[x][y]
            == edge_var(s0, e0.j.var_of, atoms, verts[x], verts[y])
    &&& forall|x: int, y: int, z: int| #[trigger]
        triangle(adj, x, y, z) ==> triangle_clauses(e.clauses, vars, x, y, z)
    &&& e.clauses == e0.clauses + graph_clauses(adj, vars, verts.len() as int)
    &&& only_chords(
        e0.term_of.len() as int,
        e.term_of.len() as int,
        equation_vars(s0, e0.j.var_of, atoms, verts),
        adj,
        vars,
    )
}

/// Two edges of a triangle of equations imply the third.
proof fn lemma_transitivity(
    s: Seq<TermView>,
    term_of: Seq<TermId>,
    i: Interp,
    ta: TermId,
    tb: TermId,
    tc: TermId,
    p: Var,
    q: Var,
    r: Var,
)
    requires
        terms_wf(s),
        p < term_of.len(),
        q < term_of.len(),
        r < term_of.len(),
        equates(s, term_of[p as int], ta, tb),
        equates(s, term_of[q as int], tb, tc),
        equates(s, term_of[r as int], ta, tc),
    ensures
        clause_true(s, i, term_of, transitivity(p, q, r)),
{
    lemma_equates(s, i, term_of[p as int], ta, tb);
    lemma_equates(s, i, term_of[q as int], tb, tc);
    lemma_equates(s, i, term_of[r as int], ta, tc);
    let c = transitivity(p, q, r);
    assert(c[0].var == p && !c[0].positive);
    assert(c[1].var == q && !c[1].positive);
    assert(c[2].var == r && c[2].positive);
    assert(lit_true(s, i, term_of, c[0]) || lit_true(s, i, term_of, c[1]) || lit_true(
        s,
        i,
        term_of,
        c[2],
    ));
}

proof fn lemma_equates(s: Seq<TermView>, i: Interp, e: TermId, a: TermId, b: TermId)
    requires
        terms_wf(s),
        equates(s, e, a, b),
    ensures
        a < s.len(),
        b < s.len(),
        comparable(s[a as int].sort, s[b as int].sort),
        holds(s, i, e) == eqv(s[a as int].sort, eval(s, i, a as int), eval(s, i, b as int)),
{
    assert(node_below(s, e as int));
    lemma_eval(s, i, e);
    let vals = eval_args(s, i, s[e as int].args);
    let (l, r) = (s[e as int].args[0], s[e as int].args[1]);
    assert(vals[0] == eval(s, i, l as int) && vals[1] == eval(s, i, r as int));
    assert(arg_sorts(s, s[e as int])[0] == s[l as int].sort);
}

/// The truth of edges under an assignment.
pub open spec fn edge_truth(asg: Assignment, vars: Seq<Seq<Option<Var>>>) -> Truth {
    |x: int, y: int|
        if x <= y {
            asg(vars[x][y]->0)
        } else {
            asg(vars[y][x]->0)
        }
}

/// The clauses are complete for equality: under an assignment that satisfies
/// them, an edge whose ends are joined by true edges is true, so no true
/// equations contradict a false one.
pub proof fn transitivity_clauses_are_complete(
    s0: Seq<TermView>,
    e0: GoalView,
    atoms: Seq<TermId>,
    s: Seq<TermView>,
    e: GoalView,
    verts: Seq<TermId>,
    vars: Seq<Seq<Option<Var>>>,
    order: Seq<int>,
    asg: Assignment,
    path: Seq<int>,
)
    requires
        transitivity_added(s0, e0, atoms, s, e, verts, vars, order),
        sat_all(asg, e.clauses),
        true_path(
            after(equation_graph(s0, e0.j.var_of, atoms, verts), order, order.len() as int),
            edge_truth(asg, vars),
            path,
        ),
        after(equation_graph(s0, e0.j.var_of, atoms, verts), order, order.len() as int)[path[0]][path.last()],
    ensures
        edge_truth(asg, vars)(path[0], path.last()),
{
    let a = equation_graph(s0, e0.j.var_of, atoms, verts);
    let n = verts.len() as int;
    let adj = after(a, order, order.len() as int);
    let truth = edge_truth(asg, vars);
    crate::chordal::elimination_is_chordal(a, order);
    crate::chordal::lemma_after_graph(a, order, order.len() as int);
    lemma_truth_closed(asg, e.clauses, adj, vars);
    triangles_are_enough(adj, order, truth, path);
}

proof fn lemma_truth_closed(
    asg: Assignment,
    clauses: Seq<Seq<Lit>>,
    adj: Seq<Seq<bool>>,
    vars: Seq<Seq<Option<Var>>>,
)
    requires
        sat_all(asg, clauses),
        graph(adj, adj.len() as int),
        forall|x: int, y: int, z: int| #[trigger]
            triangle(adj, x, y, z) ==> triangle_clauses(clauses, vars, x, y, z),
    ensures
        triangles_closed(adj, edge_truth(asg, vars)),
{
    let truth = edge_truth(asg, vars);
    let n = adj.len() as int;
    assert forall|x: int, y: int, z: int|
        0 <= x < n && 0 <= y < n && 0 <= z < n && adj[x][y] && adj[y][z] && adj[x][z]
            && #[trigger] truth(x, y) && #[trigger] truth(y, z) implies truth(x, z) by {
        assert(!adj[x][x] && !adj[y][y] && !adj[z][z]);
        assert(adj[x][y] == adj[y][x] && adj[y][z] == adj[z][y] && adj[x][z] == adj[z][x]);
        if x < y && y < z {
            assert(triangle(adj, x, y, z));
            lemma_triangle_sat(asg, clauses, adj, vars, x, y, z);
        } else if x < z && z < y {
            assert(triangle(adj, x, z, y));
            lemma_triangle_sat(asg, clauses, adj, vars, x, z, y);
        } else if y < x && x < z {
            assert(triangle(adj, y, x, z));
            lemma_triangle_sat(asg, clauses, adj, vars, y, x, z);
        } else if y < z && z < x {
            assert(triangle(adj, y, z, x));
            lemma_triangle_sat(asg, clauses, adj, vars, y, z, x);
        } else if z < x && x < y {
            assert(triangle(adj, z, x, y));
            lemma_triangle_sat(asg, clauses, adj, vars, z, x, y);
        } else {
            assert(triangle(adj, z, y, x));
            lemma_triangle_sat(asg, clauses, adj, vars, z, y, x);
        }
    }
}

proof fn lemma_triangle_sat(
    asg: Assignment,
    clauses: Seq<Seq<Lit>>,
    adj: Seq<Seq<bool>>,
    vars: Seq<Seq<Option<Var>>>,
    x: int,
    y: int,
    z: int,
)
    requires
        sat_all(asg, clauses),
        triangle(adj, x, y, z),
        triangle_clauses(clauses, vars, x, y, z),
    ensures
        ({
            let (p, q, r) = (vars[x][y]->0, vars[x][z]->0, vars[y][z]->0);
            &&& asg(p) && asg(q) ==> asg(r)
            &&& asg(p) && asg(r) ==> asg(q)
            &&& asg(q) && asg(r) ==> asg(p)
        }),
{
    let (p, q, r) = (vars[x][y]->0, vars[x][z]->0, vars[y][z]->0);
    lemma_clause_sat(asg, clauses, p, q, r);
    lemma_clause_sat(asg, clauses, p, r, q);
    lemma_clause_sat(asg, clauses, q, r, p);
}

proof fn lemma_clause_sat(asg: Assignment, clauses: Seq<Seq<Lit>>, a: Var, b: Var, c: Var)
    requires
        sat_all(asg, clauses),
        clauses.contains(transitivity(a, b, c)),
    ensures
        asg(a) && asg(b) ==> asg(c),
{
    let cl = transitivity(a, b, c);
    let k = choose|k: int| 0 <= k < clauses.len() && clauses[k] == cl;
    assert(clause_sat(asg, clauses[k]));
    let j = choose|j: int| 0 <= j < cl.len() && lit_val(asg, #[trigger] cl[j]);
    assert(cl[0].var == a && cl[1].var == b && cl[2].var == c);
    assert(j == 0 || j == 1 || j == 2);
}

/// The atoms are equations that have variables.
pub open spec fn atoms_ok(s: Seq<TermView>, e: GoalView, atoms: Seq<TermId>) -> bool {
    forall|k: int|
        0 <= k < atoms.len() ==> {
            let t = #[trigger] atoms[k];
            &&& t < s.len()
            &&& equates(s, t, s[t as int].args[0], s[t as int].args[1])
            &&& e.j.var_of.contains_key(t)
        }
}

proof fn lemma_atoms_ok(s: Seq<TermView>, e: GoalView, t: TermId)
    requires
        terms_wf(s),
        pure_equality(s, e.j.var_of, t),
    ensures
        atoms_ok(s, e, eq_atoms(s, t)),
    decreases t, 1int, 0int,
{
    assert(node_below(s, t as int));
    if s[t as int].op == Op::Not || s[t as int].op == Op::And || s[t as int].op == Op::Or {
        lemma_atoms_ok_below(s, e, t, s[t as int].args.len() as int);
    }
}

proof fn lemma_atoms_ok_below(s: Seq<TermView>, e: GoalView, t: TermId, n: int)
    requires
        terms_wf(s),
        pure_equality(s, e.j.var_of, t),
        s[t as int].op == Op::Not || s[t as int].op == Op::And || s[t as int].op == Op::Or,
        0 <= n <= s[t as int].args.len(),
    ensures
        atoms_ok(s, e, eq_atoms_below(s, t, n)),
    decreases t, 0int, n,
{
    if n > 0 {
        lemma_atoms_ok_below(s, e, t, n - 1);
        assert(s[t as int].args[n - 1] < t);
        lemma_atoms_ok(s, e, s[t as int].args[n - 1]);
        let a = eq_atoms_below(s, t, n - 1);
        let b = eq_atoms(s, s[t as int].args[n - 1]);
        assert forall|k: int| 0 <= k < (a + b).len() implies {
            let t = #[trigger] (a + b)[k];
            &&& t < s.len()
            &&& equates(s, t, s[t as int].args[0], s[t as int].args[1])
            &&& e.j.var_of.contains_key(t)
        } by {
            if k < a.len() {
                assert((a + b)[k] == a[k]);
            } else {
                assert((a + b)[k] == b[k - a.len()]);
            }
        }
    }
}

/// The atoms of the first `n` assertions.
pub open spec fn assertion_atoms(s: Seq<TermView>, assertions: Seq<TermId>, n: int) -> Seq<TermId>
    decreases n,
{
    if n <= 0 {
        Seq::empty()
    } else {
        assertion_atoms(s, assertions, n - 1) + eq_atoms(s, assertions[n - 1])
    }
}

/// The sides of the atoms, ascending.
fn list_sides(store: &TermStore, Ghost(e): Ghost<GoalView>, atoms: &Vec<TermId>) -> (verts: Vec<
    TermId,
>)
    requires
        store.wf(),
        atoms_ok(store.terms(), e, atoms@),
    ensures
        sides_listed(store.terms(), atoms@, verts@),
{
    let ghost s = store.terms();
    let mut sides: FxHashSet<TermId> = set_new();
    let mut n: usize = 0;
    while n < atoms.len()
        invariant
            n <= atoms.len(),
            store.wf(),
            s == store.terms(),
            atoms_ok(s, e, atoms@),
            forall|t: TermId| #[trigger]
                sides@.contains(t) <==> exists|k: int|
                    0 <= k < n && (s[(#[trigger] atoms@[k]) as int].args[0] == t
                        || s[atoms@[k] as int].args[1] == t),
        decreases atoms.len() - n,
    {
        let ghost before = sides@;
        let e1: TermId = atoms[n];
        assert(atoms@[n as int] < s.len());
        let a: TermId = store.nodes[e1].args[0];
        let b: TermId = store.nodes[e1].args[1];
        set_insert(&mut sides, a);
        set_insert(&mut sides, b);
        proof {
            assert forall|t: TermId| #[trigger] sides@.contains(t) <==> exists|k: int|
                0 <= k < n + 1 && (s[(#[trigger] atoms@[k]) as int].args[0] == t
                    || s[atoms@[k] as int].args[1] == t) by {
                assert(sides@.contains(t) <==> before.contains(t) || t == a || t == b);
                if t == a || t == b {
                    assert(s[atoms@[n as int] as int].args[0] == t || s[atoms@[n as int] as int].args[1]
                        == t);
                }
            }
        }
        n = n + 1;
    }
    let verts = set_sorted_items(&sides);
    proof {
        assert forall|t: TermId| #[trigger] verts@.contains(t) <==> exists|k: int|
            0 <= k < atoms@.len() && (s[(#[trigger] atoms@[k]) as int].args[0] == t
                || s[atoms@[k] as int].args[1] == t) by {
            assert(verts@.contains(t) <==> verts@.to_set().contains(t));
        }
    }
    verts
}

fn position(verts: &Vec<TermId>, t: TermId) -> (p: usize)
    requires
        verts@.contains(t),
    ensures
        p < verts@.len(),
        verts@[p as int] == t,
{
    let mut p: usize = 0;
    while p < verts.len()
        invariant
            p <= verts.len(),
            verts@.contains(t),
            forall|k: int| 0 <= k < p ==> verts@[k] != t,
        decreases verts.len() - p,
    {
        if verts[p] == t {
            return p;
        }
        p = p + 1;
    }
    assert(false);
    0
}

fn set_var(m: &mut Vec<Vec<Option<Var>>>, x: usize, y: usize, v: Var)
    requires
        var_square(cells(old(m)@), old(m)@.len() as int),
        x < old(m)@.len(),
        y < old(m)@.len(),
    ensures
        final(m)@.len() == old(m)@.len(),
        var_square(cells(final(m)@), old(m)@.len() as int),
        forall|p: int, q: int|
            0 <= p < old(m)@.len() && 0 <= q < old(m)@.len() ==> #[trigger] cells(final(m)@)[p][q]
                == (if (p == x && q == y) || (p == y && q == x) {
                Some(v)
            } else {
                cells(old(m)@)[p][q]
            }),
{
    let ghost c0 = cells(m@);
    assert(c0[x as int] == m@[x as int]@ && c0[y as int] == m@[y as int]@);
    let row = &mut m[x];
    row.set(y, Some(v));
    let ghost c1 = cells(m@);
    proof {
        assert(c1 =~= c0.update(x as int, c0[x as int].update(y as int, Some(v))));
        assert(c1[y as int] == m@[y as int]@);
        assert(c1[y as int].len() == c0.len()) by {
            assert(c0[y as int].len() == c0.len());
        }
    }
    let other = &mut m[y];
    other.set(x, Some(v));
    proof {
        let c2 = cells(m@);
        assert(c2 =~= c1.update(y as int, c1[y as int].update(x as int, Some(v))));
        assert forall|p: int| 0 <= p < c0.len() implies (#[trigger] c2[p]).len() == c0.len() by {
            assert(c0[p].len() == c0.len());
        }
        assert forall|p: int, q: int| 0 <= p < c0.len() && 0 <= q < c0.len() implies #[trigger] c2[p][q]
            == (if (p == x && q == y) || (p == y && q == x) {
            Some(v)
        } else {
            c0[p][q]
        }) by {
            assert(c0[p].len() == c0.len());
            assert(c1[p].len() == c0.len());
        }
    }
}

pub open spec fn var_square(m: Seq<Seq<Option<Var>>>, n: int) -> bool {
    m.len() == n && forall|v: int| 0 <= v < n ==> (#[trigger] m[v]).len() == n
}

/// The variables of the edges of the equation graph.
fn edge_matrix(
    store: &TermStore,
    vars: &FxHashMap<TermId, Var>,
    Ghost(e): Ghost<GoalView>,
    atoms: &Vec<TermId>,
    verts: &Vec<TermId>,
) -> (m: Vec<Vec<Option<Var>>>)
    requires
        store.wf(),
        vars@ == e.j.var_of,
        atoms_ok(store.terms(), e, atoms@),
        sides_listed(store.terms(), atoms@, verts@),
    ensures
        var_square(cells(m@), verts@.len() as int),
        forall|x: int, y: int|
            0 <= x < verts@.len() && 0 <= y < verts@.len() ==> #[trigger] cells(m@)[x][y]
                == edge_var(store.terms(), vars@, atoms@, verts@[x], verts@[y]),
{
    let ghost s = store.terms();
    let size: usize = verts.len();
    let mut m: Vec<Vec<Option<Var>>> = Vec::new();
    while m.len() < size
        invariant
            m@.len() <= size,
            forall|x: int| 0 <= x < m@.len() ==> (#[trigger] m@[x])@.len() == size,
            forall|x: int, y: int|
                0 <= x < m@.len() && 0 <= y < size ==> (#[trigger] m@[x]@[y]) is None,
        decreases size - m.len(),
    {
        let mut row: Vec<Option<Var>> = Vec::new();
        while row.len() < size
            invariant
                row@.len() <= size,
                forall|y: int| 0 <= y < row@.len() ==> (#[trigger] row@[y]) is None,
            decreases size - row.len(),
        {
            row.push(None);
        }
        m.push(row);
    }
    proof {
        assert(var_square(cells(m@), size as int));
        assert(atoms@.take(0).len() == 0);
        assert forall|x: int, y: int| 0 <= x < size && 0 <= y < size implies #[trigger] cells(
            m@,
        )[x][y] == edge_var(s, vars@, atoms@.take(0), verts@[x], verts@[y]) by {
            assert(m@[x]@[y] is None);
        }
    }
    let mut n: usize = 0;
    while n < atoms.len()
        invariant
            n <= atoms.len(),
            store.wf(),
            s == store.terms(),
            vars@ == e.j.var_of,
            atoms_ok(s, e, atoms@),
            sides_listed(s, atoms@, verts@),
            size == verts@.len(),
            var_square(cells(m@), size as int),
            m@.len() == size,
            forall|x: int, y: int|
                0 <= x < size && 0 <= y < size ==> #[trigger] cells(m@)[x][y] == edge_var(
                    s,
                    vars@,
                    atoms@.take(n as int),
                    verts@[x],
                    verts@[y],
                ),
        decreases atoms.len() - n,
    {
        let ghost c1 = cells(m@);
        let t: TermId = atoms[n];
        assert(atoms@[n as int] < s.len());
        let a: TermId = store.nodes[t].args[0];
        let b: TermId = store.nodes[t].args[1];
        proof {
            assert(s[atoms@[n as int] as int].args[0] == a && s[atoms@[n as int] as int].args[1]
                == b);
            assert(verts@.contains(a));
            assert(verts@.contains(b));
        }
        if a != b {
            let x = position(verts, a);
            let y = position(verts, b);
            if let Some(v) = map_get(vars, t) {
                set_var(&mut m, x, y, *v);
            }
            proof {
                let c2 = cells(m@);
                lemma_edge_step(s, vars@, atoms@, n as int, verts@, c1, c2, x as int, y as int);
            }
        } else {
            proof {
                let more = atoms@.take(n + 1);
                assert(more.drop_last() =~= atoms@.take(n as int));
                assert(more.last() == t);
                assert forall|p: int, q: int| 0 <= p < size && 0 <= q < size implies #[trigger] c1[p][q]
                    == edge_var(s, vars@, more, verts@[p], verts@[q]) by {
                    assert(c1[p][q] == edge_var(
                        s,
                        vars@,
                        atoms@.take(n as int),
                        verts@[p],
                        verts@[q],
                    ));
                }
            }
        }
        n = n + 1;
    }
    assert(atoms@.take(atoms@.len() as int) =~= atoms@);
    m
}

proof fn lemma_edge_step(
    s: Seq<TermView>,
    var_of: Map<TermId, Var>,
    atoms: Seq<TermId>,
    n: int,
    verts: Seq<TermId>,
    c1: Seq<Seq<Option<Var>>>,
    c2: Seq<Seq<Option<Var>>>,
    x: int,
    y: int,
)
    requires
        0 <= n < atoms.len(),
        0 <= x < verts.len(),
        0 <= y < verts.len(),
        verts[x] != verts[y],
        equates(s, atoms[n], verts[x], verts[y]),
        forall|p: int, q: int| 0 <= p < q < verts.len() ==> verts[p] < verts[q],
        forall|p: int, q: int|
            0 <= p < verts.len() && 0 <= q < verts.len() ==> #[trigger] c1[p][q] == edge_var(
                s,
                var_of,
                atoms.take(n),
                verts[p],
                verts[q],
            ),
        forall|p: int, q: int|
            0 <= p < verts.len() && 0 <= q < verts.len() ==> #[trigger] c2[p][q] == (if (p == x && q
                == y) || (p == y && q == x) {
                Some(var_of[atoms[n]])
            } else {
                c1[p][q]
            }),
    ensures
        forall|p: int, q: int|
            0 <= p < verts.len() && 0 <= q < verts.len() ==> #[trigger] c2[p][q] == edge_var(
                s,
                var_of,
                atoms.take(n + 1),
                verts[p],
                verts[q],
            ),
{
    let more = atoms.take(n + 1);
    assert(more.drop_last() =~= atoms.take(n));
    assert(more.last() == atoms[n]);
    assert forall|p: int, q: int| 0 <= p < verts.len() && 0 <= q < verts.len() implies #[trigger] c2[p][q]
        == edge_var(s, var_of, more, verts[p], verts[q]) by {
        assert(c1[p][q] == edge_var(s, var_of, atoms.take(n), verts[p], verts[q]));
        if verts[p] != verts[q] && equates(s, atoms[n], verts[p], verts[q]) {
            if verts[p] == verts[x] {
                assert(p == x);
                assert(verts[q] == verts[y]);
                assert(q == y);
            } else {
                assert(verts[p] == verts[y] && verts[q] == verts[x]);
                assert(p == y && q == x);
            }
        }
    }
}

proof fn lemma_edge_var(
    s: Seq<TermView>,
    e: GoalView,
    atoms: Seq<TermId>,
    a: TermId,
    b: TermId,
)
    requires
        goal_inv(s, e),
        atoms_ok(s, e, atoms),
    ensures
        edge_var(s, e.j.var_of, atoms, a, b) == edge_var(s, e.j.var_of, atoms, b, a),
        edge_var(s, e.j.var_of, atoms, a, b) matches Some(v) ==> a != b && v < e.term_of.len()
            && equates(s, e.term_of[v as int], a, b),
    decreases atoms.len(),
{
    if atoms.len() > 0 {
        let rest = atoms.drop_last();
        assert forall|k: int| 0 <= k < rest.len() implies {
            let t = #[trigger] rest[k];
            &&& t < s.len()
            &&& equates(s, t, s[t as int].args[0], s[t as int].args[1])
            &&& e.j.var_of.contains_key(t)
        } by {
            assert(rest[k] == atoms[k]);
        }
        lemma_edge_var(s, e, rest, a, b);
        let last = atoms[atoms.len() - 1];
        assert(e.j.var_of.contains_key(last));
    }
}

/// The variables give a graph.
proof fn lemma_equation_graph(
    s: Seq<TermView>,
    e: GoalView,
    atoms: Seq<TermId>,
    verts: Seq<TermId>,
)
    requires
        goal_inv(s, e),
        atoms_ok(s, e, atoms),
    ensures
        graph(equation_graph(s, e.j.var_of, atoms, verts), verts.len() as int),
{
    let a = equation_graph(s, e.j.var_of, atoms, verts);
    assert forall|x: int, y: int| 0 <= x < a.len() && 0 <= y < a.len() implies #[trigger] a[x][y]
        == a[y][x] by {
        lemma_edge_var(s, e, atoms, verts[x], verts[y]);
    }
    assert forall|x: int| 0 <= x < a.len() implies !(#[trigger] a[x])[x] by {
        lemma_edge_var(s, e, atoms, verts[x], verts[x]);
    }
}

/// The ends of each edge have one sort.
pub open spec fn sorts_match(s: Seq<TermView>, verts: Seq<TermId>, adj: Seq<Seq<bool>>) -> bool {
    forall|x: int, y: int|
        0 <= x < verts.len() && 0 <= y < verts.len() && #[trigger] adj[x][y]
            ==> comparable(s[verts[x] as int].sort, s[verts[y] as int].sort)
}

proof fn lemma_sorts_after(
    s: Seq<TermView>,
    verts: Seq<TermId>,
    a: Seq<Seq<bool>>,
    order: Seq<int>,
    k: int,
)
    requires
        graph(a, verts.len() as int),
        permutation(order, verts.len() as int),
        0 <= k <= order.len(),
        sorts_match(s, verts, a),
    ensures
        sorts_match(s, verts, after(a, order, k)),
    decreases k,
{
    if k > 0 {
        lemma_sorts_after(s, verts, a, order, k - 1);
        crate::chordal::lemma_after_graph(a, order, k - 1);
        let b = after(a, order, k - 1);
        let v = order[k - 1];
        let f = after(a, order, k);
        assert forall|x: int, y: int|
            0 <= x < verts.len() && 0 <= y < verts.len() && #[trigger] f[x][y] implies comparable(s[verts[x] as int].sort, s[verts[y] as int].sort) by {
            if !b[x][y] {
                assert(b[v][x] && b[v][y]);
            }
        }
    }
}

fn adjacency(m: &Vec<Vec<Option<Var>>>) -> (a: Vec<Vec<bool>>)
    requires
        var_square(cells(m@), m@.len() as int),
    ensures
        a@.len() == m@.len(),
        rows(a@) == Seq::new(
            m@.len(),
            |x: int| Seq::new(m@.len(), |y: int| cells(m@)[x][y] is Some),
        ),
{
    let n: usize = m.len();
    let mut a: Vec<Vec<bool>> = Vec::new();
    while a.len() < n
        invariant
            n == m@.len(),
            a@.len() <= n,
            var_square(cells(m@), n as int),
            forall|x: int| 0 <= x < a@.len() ==> (#[trigger] a@[x])@.len() == n,
            forall|x: int, y: int|
                0 <= x < a@.len() && 0 <= y < n ==> #[trigger] a@[x]@[y] == (cells(m@)[x][y] is Some),
        decreases n - a.len(),
    {
        let k: usize = a.len();
        let mut row: Vec<bool> = Vec::new();
        assert(cells(m@)[k as int] == m@[k as int]@);
        while row.len() < n
            invariant
                n == m@.len(),
                k < n,
                row@.len() <= n,
                cells(m@)[k as int] == m@[k as int]@,
                cells(m@)[k as int].len() == n,
                forall|y: int|
                    0 <= y < row@.len() ==> #[trigger] row@[y] == (cells(m@)[k as int][y] is Some),
            decreases n - row.len(),
        {
            let y: usize = row.len();
            row.push(m[k][y].is_some());
        }
        a.push(row);
    }
    proof {
        let goal = Seq::new(
            m@.len(),
            |x: int| Seq::new(m@.len(), |y: int| cells(m@)[x][y] is Some),
        );
        assert forall|x: int| 0 <= x < n implies #[trigger] rows(a@)[x] == goal[x] by {
            assert(a@[x]@.len() == n);
            assert forall|y: int| 0 <= y < n implies rows(a@)[x][y] == goal[x][y] by {
                assert(a@[x]@[y] == (cells(m@)[x][y] is Some));
            }
            assert(rows(a@)[x] =~= goal[x]);
        }
        assert(rows(a@) =~= goal);
    }
    a
}

/// Variables of cells stand for the equations of their ends.
pub open spec fn cells_named(
    s: Seq<TermView>,
    term_of: Seq<TermId>,
    verts: Seq<TermId>,
    c: Seq<Seq<Option<Var>>>,
) -> bool {
    forall|x: int, y: int|
        0 <= x < verts.len() && 0 <= y < verts.len() && #[trigger] c[x][y] is Some ==> c[x][y]->0
            < term_of.len() && equates(s, term_of[c[x][y]->0 as int], verts[x], verts[y]) && c[y][x]
            == c[x][y]
}

proof fn lemma_cells_extend(
    s0: Seq<TermView>,
    e0: GoalView,
    s1: Seq<TermView>,
    e1: GoalView,
    verts: Seq<TermId>,
    c: Seq<Seq<Option<Var>>>,
)
    requires
        step(s0, e0, s1, e1),
        cells_named(s0, e0.term_of, verts, c),
    ensures
        cells_named(s1, e1.term_of, verts, c),
{
    assert forall|x: int, y: int|
        0 <= x < verts.len() && 0 <= y < verts.len() && #[trigger] c[x][y] is Some implies c[x][y]->0
        < e1.term_of.len() && equates(s1, e1.term_of[c[x][y]->0 as int], verts[x], verts[y])
        && c[y][x] == c[x][y] by {
        let v = c[x][y]->0;
        assert(e1.term_of[v as int] == e0.term_of[v as int]);
        assert(s1[e0.term_of[v as int] as int] == s0[e0.term_of[v as int] as int]);
    }
}

/// The cells of edges among the pairs before row `x` and column `y` have
/// variables.
pub open spec fn edges_filled(
    adj: Seq<Seq<bool>>,
    c: Seq<Seq<Option<Var>>>,
    x: int,
    y: int,
) -> bool {
    forall|p: int, q: int|
        0 <= p < adj.len() && 0 <= q < adj.len() && #[trigger] adj[p][q]
            && crate::chordal::visited(x, y, p, q) ==> c[p][q] is Some
}

/// Variables that were there stay.
pub open spec fn cells_kept(c0: Seq<Seq<Option<Var>>>, c1: Seq<Seq<Option<Var>>>, n: int) -> bool {
    forall|p: int, q: int|
        0 <= p < n && 0 <= q < n && c0[p][q] is Some ==> #[trigger] c1[p][q] == c0[p][q]
}

/// The edge had no variable, and `v` is its variable now.
pub open spec fn named_cell(
    adj: Seq<Seq<bool>>,
    c0: Seq<Seq<Option<Var>>>,
    c1: Seq<Seq<Option<Var>>>,
    x: int,
    y: int,
    v: Var,
) -> bool {
    adj[x][y] && c0[x][y] is None && c1[x][y] == Some(v)
}

impl GoalState {
    /// Gives the chord between two vertices a variable, if it needs one.
    fn name_chord(
        &mut self,
        store: &mut TermStore,
        verts: &Vec<TermId>,
        adj: &Vec<Vec<bool>>,
        m: &mut Vec<Vec<Option<Var>>>,
        x: usize,
        y: usize,
    )
        requires
            goal_inv(old(store).terms(), old(self)@),
            forall|k: int| 0 <= k < verts@.len() ==> (#[trigger] verts@[k]) < old(store).terms().len(),
            graph(rows(adj@), verts@.len() as int),
            adj@.len() == verts@.len(),
            old(m)@.len() == verts@.len(),
            var_square(cells(old(m)@), verts@.len() as int),
            sorts_match(old(store).terms(), verts@, rows(adj@)),
            cells_named(old(store).terms(), old(self)@.term_of, verts@, cells(old(m)@)),
            forall|p: int, q: int| 0 <= p < q < verts@.len() ==> verts@[p] < verts@[q],
            x < y < verts@.len(),
        ensures
            grew(old(store), final(store)),
            step(old(store).terms(), old(self)@, final(store).terms(), final(self)@),
            final(m)@.len() == verts@.len(),
            var_square(cells(final(m)@), verts@.len() as int),
            cells_named(final(store).terms(), final(self)@.term_of, verts@, cells(final(m)@)),
            cells_kept(cells(old(m)@), cells(final(m)@), verts@.len() as int),
            rows(adj@)[x as int][y as int] ==> cells(final(m)@)[x as int][y as int] is Some
                && cells(final(m)@)[y as int][x as int] is Some,
            final(self)@.clauses == old(self)@.clauses,
            old(self)@.term_of.len() <= final(self)@.term_of.len(),
            forall|v: Var|
                old(self)@.term_of.len() <= v < final(self)@.term_of.len() ==> #[trigger] named_cell(
                    rows(adj@),
                    cells(old(m)@),
                    cells(final(m)@),
                    x as int,
                    y as int,
                    v,
                ),
    {
        let ghost s0 = store.terms();
        let ghost e0 = self@;
        let ghost c0 = cells(m@);
        proof {
            lemma_step_grow(s0, s0, e0);
            assert(c0[x as int] == m@[x as int]@);
            assert(rows(adj@)[x as int] == adj@[x as int]@);
        }
        if !adj[x][y] || m[x][y].is_some() {
            return;
        }
        let (a, b) = (verts[x], verts[y]);
        assert(verts@[x as int] < s0.len() && verts@[y as int] < s0.len());
        assert(rows(adj@)[x as int][y as int]);
        let eq = store.mk_eq(a, b);
        let ghost s1 = store.terms();
        proof {
            lemma_step_grow(s0, s1, e0);
        }
        let v = self.get_or_create_var(Ghost(s1), eq);
        set_var(m, x, y, v);
        proof {
            let e1 = self@;
            lemma_step_trans(s0, e0, s1, e0, s1, e1);
            lemma_cells_extend(s0, e0, s1, e1, verts@, c0);
            let c1 = cells(m@);
            assert(verts@[x as int] < verts@[y as int]);
            assert(s1[eq as int].args == seq![a, b]);
            assert(equates(s1, eq, a, b));
            assert forall|p: int, q: int|
                0 <= p < verts@.len() && 0 <= q < verts@.len() && #[trigger] c1[p][q] is Some implies c1[p][q]->0
                < e1.term_of.len() && equates(
                s1,
                e1.term_of[c1[p][q]->0 as int],
                verts@[p],
                verts@[q],
            ) && c1[q][p] == c1[p][q] by {
                if !((p == x && q == y) || (p == y && q == x)) {
                    assert(c0[p][q] is Some);
                }
            }
            assert forall|p: int, q: int|
                0 <= p < verts@.len() && 0 <= q < verts@.len() && c0[p][q] is Some implies #[trigger] c1[p][q]
                == c0[p][q] by {
                if p == y && q == x {
                    assert(c0[p][q] is Some);
                    assert(c0[q][p] == c0[p][q]);
                }
            }
        }
    }

    /// Gives every chord a variable.
    fn name_chords(
        &mut self,
        store: &mut TermStore,
        verts: &Vec<TermId>,
        adj: &Vec<Vec<bool>>,
        m: &mut Vec<Vec<Option<Var>>>,
    )
        requires
            goal_inv(old(store).terms(), old(self)@),
            forall|k: int| 0 <= k < verts@.len() ==> (#[trigger] verts@[k]) < old(store).terms().len(),
            graph(rows(adj@), verts@.len() as int),
            adj@.len() == verts@.len(),
            old(m)@.len() == verts@.len(),
            var_square(cells(old(m)@), verts@.len() as int),
            sorts_match(old(store).terms(), verts@, rows(adj@)),
            cells_named(old(store).terms(), old(self)@.term_of, verts@, cells(old(m)@)),
            forall|p: int, q: int| 0 <= p < q < verts@.len() ==> verts@[p] < verts@[q],
        ensures
            grew(old(store), final(store)),
            step(old(store).terms(), old(self)@, final(store).terms(), final(self)@),
            final(m)@.len() == verts@.len(),
            var_square(cells(final(m)@), verts@.len() as int),
            cells_named(final(store).terms(), final(self)@.term_of, verts@, cells(final(m)@)),
            cells_kept(cells(old(m)@), cells(final(m)@), verts@.len() as int),
            edges_filled(rows(adj@), cells(final(m)@), verts@.len() as int, 0),
            final(self)@.clauses == old(self)@.clauses,
            only_chords(
                old(self)@.term_of.len() as int,
                final(self)@.term_of.len() as int,
                cells(old(m)@),
                rows(adj@),
                cells(final(m)@),
            ),
    {
        let ghost s0 = store.terms();
        let ghost e0 = self@;
        let ghost c0 = cells(m@);
        let ghost a = rows(adj@);
        let n: usize = verts.len();
        let mut x: usize = 0;
        proof {
            lemma_step_grow(s0, s0, e0);
        }
        while x < n
            invariant
                x <= n,
                n == verts@.len(),
                s0 == old(store).terms(),
                e0 == old(self)@,
                goal_inv(s0, e0),
                c0 == cells(old(m)@),
                a == rows(adj@),
                forall|k: int| 0 <= k < n ==> (#[trigger] verts@[k]) < s0.len(),
                graph(a, n as int),
                adj@.len() == n,
                m@.len() == n,
                var_square(cells(m@), n as int),
                sorts_match(s0, verts@, a),
                cells_named(store.terms(), self@.term_of, verts@, cells(m@)),
                forall|p: int, q: int| 0 <= p < q < n ==> verts@[p] < verts@[q],
                grew(old(store), store),
                step(s0, e0, store.terms(), self@),
                cells_kept(c0, cells(m@), n as int),
                self@.clauses == e0.clauses,
                only_chords(
                    e0.term_of.len() as int,
                    self@.term_of.len() as int,
                    c0,
                    a,
                    cells(m@),
                ),
                edges_filled(a, cells(m@), x as int, 0),
            decreases n - x,
        {
            let mut y: usize = x + 1;
            proof {
                assert forall|p: int, q: int|
                    0 <= p < a.len() && 0 <= q < a.len() && #[trigger] a[p][q]
                        && crate::chordal::visited(x as int, x + 1, p, q) implies cells(m@)[p][q]
                    is Some by {
                    assert(!a[p][p]);
                }
            }
            while y < n
                invariant
                    x < y <= n,
                    n == verts@.len(),
                    s0 == old(store).terms(),
                    e0 == old(self)@,
                    goal_inv(s0, e0),
                    c0 == cells(old(m)@),
                    a == rows(adj@),
                    forall|k: int| 0 <= k < n ==> (#[trigger] verts@[k]) < s0.len(),
                    graph(a, n as int),
                    adj@.len() == n,
                    m@.len() == n,
                    var_square(cells(m@), n as int),
                    sorts_match(s0, verts@, a),
                    cells_named(store.terms(), self@.term_of, verts@, cells(m@)),
                    forall|p: int, q: int| 0 <= p < q < n ==> verts@[p] < verts@[q],
                    grew(old(store), store),
                    step(s0, e0, store.terms(), self@),
                    cells_kept(c0, cells(m@), n as int),
                    self@.clauses == e0.clauses,
                    only_chords(
                        e0.term_of.len() as int,
                        self@.term_of.len() as int,
                        c0,
                        a,
                        cells(m@),
                    ),
                    edges_filled(a, cells(m@), x as int, y as int),
                decreases n - y,
            {
                let ghost s1 = store.terms();
                let ghost e1 = self@;
                let ghost c1 = cells(m@);
                proof {
                    assert forall|p: int, q: int|
                        0 <= p < verts@.len() && 0 <= q < verts@.len() && #[trigger] a[p][q] implies comparable(s1[verts@[p] as int].sort, s1[verts@[q] as int].sort) by {
                        assert(verts@[p] < s0.len() && verts@[q] < s0.len());
                        assert(s1[verts@[p] as int] == s0[verts@[p] as int]);
                        assert(s1[verts@[q] as int] == s0[verts@[q] as int]);
                    }
                }
                self.name_chord(store, verts, adj, m, x, y);
                proof {
                    let c2 = cells(m@);
                    lemma_step_trans(s0, e0, s1, e1, store.terms(), self@);
                    assert forall|p: int, q: int|
                        0 <= p < a.len() && 0 <= q < a.len() && #[trigger] a[p][q]
                            && crate::chordal::visited(x as int, y + 1, p, q) implies c2[p][q] is Some by {
                        if crate::chordal::visited(x as int, y as int, p, q) {
                            assert(c1[p][q] is Some);
                            assert(c2[p][q] == c1[p][q]);
                        } else {
                            assert(a[p][q] == a[q][p]);
                        }
                    }
                    assert forall|p: int, q: int|
                        0 <= p < n && 0 <= q < n && c0[p][q] is Some implies #[trigger] c2[p][q]
                        == c0[p][q] by {
                        assert(c1[p][q] == c0[p][q]);
                    }
                    assert forall|v: Var|
                        e0.term_of.len() <= v < self@.term_of.len() implies #[trigger] names_chord(
                        c0,
                        a,
                        c2,
                        v,
                    ) by {
                        if v < e1.term_of.len() {
                            assert(names_chord(c0, a, c1, v));
                            let (p, q) = choose|p: int, q: int|
                                0 <= p < q && q < a.len() && a[p][q] && c0[p][q] is None
                                    && #[trigger] c1[p][q] == Some(v);
                            assert(c2[p][q] == c1[p][q]);
                        } else {
                            assert(named_cell(a, c1, c2, x as int, y as int, v));
                            if c0[x as int][y as int] is Some {
                                assert(c1[x as int][y as int] == c0[x as int][y as int]);
                            }
                            assert(c2[x as int][y as int] == Some(v));
                        }
                    }
                }
                y = y + 1;
            }
            proof {
                assert forall|p: int, q: int|
                    0 <= p < a.len() && 0 <= q < a.len() && #[trigger] a[p][q]
                        && crate::chordal::visited(x + 1, 0, p, q) implies cells(m@)[p][q] is Some by {
                    assert(crate::chordal::visited(x as int, n as int, p, q));
                }
            }
            x = x + 1;
        }
    }

    /// Says that two equations imply a third.
    fn add_transitivity(&mut self, Ghost(s): Ghost<Seq<TermView>>, a: Var, b: Var, c: Var)
        requires
            goal_inv(s, old(self)@),
            valid_clause(s, old(self)@.term_of, transitivity(a, b, c)),
        ensures
            step(s, old(self)@, s, final(self)@),
            final(self)@ == (GoalView {
                clauses: old(self)@.clauses.push(transitivity(a, b, c)),
                ..old(self)@
            }),
    {
        let mut clause: Vec<Lit> = Vec::new();
        clause.push(Lit::neg(a));
        clause.push(Lit::neg(b));
        clause.push(Lit::pos(c));
        assert(clause@ =~= transitivity(a, b, c));
        self.add_valid(Ghost(s), clause);
    }

    /// Adds the clauses of a triangle.
    fn add_triangle(
        &mut self,
        Ghost(s): Ghost<Seq<TermView>>,
        Ghost(verts): Ghost<Seq<TermId>>,
        m: &Vec<Vec<Option<Var>>>,
        x: usize,
        y: usize,
        z: usize,
    )
        requires
            goal_inv(s, old(self)@),
            m@.len() == verts.len(),
            var_square(cells(m@), verts.len() as int),
            cells_named(s, old(self)@.term_of, verts, cells(m@)),
            x < y < z < verts.len(),
            cells(m@)[x as int][y as int] is Some,
            cells(m@)[x as int][z as int] is Some,
            cells(m@)[y as int][z as int] is Some,
        ensures
            step(s, old(self)@, s, final(self)@),
            final(self)@ == (GoalView { clauses: final(self)@.clauses, ..old(self)@ }),
            triangle_clauses(
                final(self)@.clauses,
                cells(m@),
                x as int,
                y as int,
                z as int,
            ),
            final(self)@.clauses == old(self)@.clauses + triangle_list(
                cells(m@),
                x as int,
                y as int,
                z as int,
            ),
    {
        let ghost c = cells(m@);
        let ghost e0 = self@;
        proof {
            assert(c[x as int] == m@[x as int]@ && c[y as int] == m@[y as int]@);
            lemma_step_grow(s, s, e0);
        }
        if let (Some(p), Some(q), Some(r)) = (m[x][y], m[x][z], m[y][z]) {
            let ghost (tx, ty, tz) = (verts[x as int], verts[y as int], verts[z as int]);
            proof {
                assert(c[x as int][y as int] == Some(p) && c[x as int][z as int] == Some(q)
                    && c[y as int][z as int] == Some(r));
                assert(equates(s, e0.term_of[p as int], tx, ty));
                assert(equates(s, e0.term_of[q as int], tx, tz));
                assert(equates(s, e0.term_of[r as int], ty, tz));
                lemma_valid_triangle(s, e0.term_of, ty, tx, tz, p, q, r);
                lemma_valid_triangle(s, e0.term_of, tx, ty, tz, p, r, q);
                lemma_valid_triangle(s, e0.term_of, tx, tz, ty, q, r, p);
            }
            self.add_transitivity(Ghost(s), p, q, r);
            let ghost e1 = self@;
            self.add_transitivity(Ghost(s), p, r, q);
            let ghost e2 = self@;
            self.add_transitivity(Ghost(s), q, r, p);
            proof {
                let e3 = self@;
                lemma_step_trans(s, e0, s, e1, s, e2);
                lemma_step_trans(s, e0, s, e2, s, e3);
                let k = e0.clauses.len() as int;
                assert(e3.clauses[k] == transitivity(p, q, r));
                assert(e3.clauses[k + 1] == transitivity(p, r, q));
                assert(e3.clauses[k + 2] == transitivity(q, r, p));
                assert(e3.clauses =~= e0.clauses + triangle_list(c, x as int, y as int, z as int));
            }
        }
    }

    /// Adds the clauses of the triangles with a given edge and a later third
    /// vertex.
    fn add_triangles_at(
        &mut self,
        Ghost(s): Ghost<Seq<TermView>>,
        Ghost(verts): Ghost<Seq<TermId>>,
        adj: &Vec<Vec<bool>>,
        m: &Vec<Vec<Option<Var>>>,
        x: usize,
        y: usize,
    )
        requires
            goal_inv(s, old(self)@),
            m@.len() == verts.len(),
            adj@.len() == verts.len(),
            square(rows(adj@), verts.len() as int),
            var_square(cells(m@), verts.len() as int),
            cells_named(s, old(self)@.term_of, verts, cells(m@)),
            edges_filled(rows(adj@), cells(m@), verts.len() as int, 0),
            x < y < verts.len(),
        ensures
            step(s, old(self)@, s, final(self)@),
            final(self)@ == (GoalView { clauses: final(self)@.clauses, ..old(self)@ }),
            forall|z: int| #[trigger]
                triangle(rows(adj@), x as int, y as int, z) ==> triangle_clauses(
                    final(self)@.clauses,
                    cells(m@),
                    x as int,
                    y as int,
                    z,
                ),
            final(self)@.clauses == old(self)@.clauses + edge_clauses(
                rows(adj@),
                cells(m@),
                x as int,
                y as int,
                adj@.len() as int,
            ),
    {
        let ghost e0 = self@;
        let ghost a = rows(adj@);
        let ghost c = cells(m@);
        let n: usize = adj.len();
        let mut z: usize = y + 1;
        proof {
            lemma_step_grow(s, s, e0);
            assert(a[x as int] == adj@[x as int]@ && a[y as int] == adj@[y as int]@);
            assert(self@.clauses =~= e0.clauses + edge_clauses(a, c, x as int, y as int, z as int));
        }
        while z < n
            invariant
                x < y < z <= n,
                n == verts.len(),
                goal_inv(s, e0),
                m@.len() == n,
                adj@.len() == n,
                a == rows(adj@),
                c == cells(m@),
                a[x as int] == adj@[x as int]@,
                a[y as int] == adj@[y as int]@,
                square(a, n as int),
                var_square(c, n as int),
                cells_named(s, e0.term_of, verts, c),
                edges_filled(a, c, n as int, 0),
                step(s, e0, s, self@),
                self@ == (GoalView { clauses: self@.clauses, ..e0 }),
                self@.clauses == e0.clauses + edge_clauses(a, c, x as int, y as int, z as int),
                forall|w: int|
                    w < z && #[trigger] triangle(a, x as int, y as int, w) ==> triangle_clauses(
                        self@.clauses,
                        c,
                        x as int,
                        y as int,
                        w,
                    ),
            decreases n - z,
        {
            let ghost e1 = self@;
            if adj[x][y] && adj[x][z] && adj[y][z] {
                proof {
                    assert(a[x as int][y as int] && a[x as int][z as int] && a[y as int][z as int]);
                }
                self.add_triangle(Ghost(s), Ghost(verts), m, x, y, z);
                proof {
                    lemma_step_trans(s, e0, s, e1, s, self@);
                    assert forall|w: int|
                        w < z + 1 && #[trigger] triangle(a, x as int, y as int, w) implies triangle_clauses(
                        self@.clauses,
                        c,
                        x as int,
                        y as int,
                        w,
                    ) by {
                        if w < z {
                            lemma_triangle_kept(e1.clauses, self@.clauses, c, x as int, y as int, w);
                        }
                    }
                }
            }
            assert(self@.clauses =~= e0.clauses + edge_clauses(a, c, x as int, y as int, z + 1));
            z = z + 1;
        }
    }

    /// Adds the clauses of all triangles.
    fn add_triangles(
        &mut self,
        Ghost(s): Ghost<Seq<TermView>>,
        Ghost(verts): Ghost<Seq<TermId>>,
        adj: &Vec<Vec<bool>>,
        m: &Vec<Vec<Option<Var>>>,
    )
        requires
            goal_inv(s, old(self)@),
            m@.len() == verts.len(),
            adj@.len() == verts.len(),
            square(rows(adj@), verts.len() as int),
            var_square(cells(m@), verts.len() as int),
            cells_named(s, old(self)@.term_of, verts, cells(m@)),
            edges_filled(rows(adj@), cells(m@), verts.len() as int, 0),
        ensures
            step(s, old(self)@, s, final(self)@),
            final(self)@ == (GoalView { clauses: final(self)@.clauses, ..old(self)@ }),
            forall|x: int, y: int, z: int| #[trigger]
                triangle(rows(adj@), x, y, z) ==> triangle_clauses(
                    final(self)@.clauses,
                    cells(m@),
                    x,
                    y,
                    z,
                ),
            final(self)@.clauses == old(self)@.clauses + graph_clauses(
                rows(adj@),
                cells(m@),
                adj@.len() as int,
            ),
    {
        let ghost e0 = self@;
        let ghost a = rows(adj@);
        let ghost c = cells(m@);
        let n: usize = adj.len();
        let mut x: usize = 0;
        proof {
            lemma_step_grow(s, s, e0);
            assert(self@.clauses =~= e0.clauses + graph_clauses(a, c, 0));
        }
        while x < n
            invariant
                x <= n,
                n == verts.len(),
                goal_inv(s, e0),
                m@.len() == n,
                adj@.len() == n,
                a == rows(adj@),
                c == cells(m@),
                square(a, n as int),
                var_square(c, n as int),
                cells_named(s, e0.term_of, verts, c),
                edges_filled(a, c, n as int, 0),
                step(s, e0, s, self@),
                self@ == (GoalView { clauses: self@.clauses, ..e0 }),
                self@.clauses == e0.clauses + graph_clauses(a, c, x as int),
                forall|p: int, q: int, w: int|
                    p < x && #[trigger] triangle(a, p, q, w) ==> triangle_clauses(
                        self@.clauses,
                        c,
                        p,
                        q,
                        w,
                    ),
            decreases n - x,
        {
            let mut y: usize = x + 1;
            let ghost base = self@.clauses;
            assert(self@.clauses =~= base + vertex_clauses(a, c, x as int, y as int));
            while y < n
                invariant
                    x < y <= n,
                    n == verts.len(),
                    goal_inv(s, e0),
                    m@.len() == n,
                    adj@.len() == n,
                    a == rows(adj@),
                    c == cells(m@),
                    square(a, n as int),
                    var_square(c, n as int),
                    cells_named(s, e0.term_of, verts, c),
                    edges_filled(a, c, n as int, 0),
                    step(s, e0, s, self@),
                    self@ == (GoalView { clauses: self@.clauses, ..e0 }),
                    self@.clauses == base + vertex_clauses(a, c, x as int, y as int),
                    forall|p: int, q: int, w: int|
                        (p < x || (p == x && q < y)) && #[trigger] triangle(a, p, q, w)
                            ==> triangle_clauses(self@.clauses, c, p, q, w),
                decreases n - y,
            {
                let ghost e1 = self@;
                self.add_triangles_at(Ghost(s), Ghost(verts), adj, m, x, y);
                proof {
                    lemma_step_trans(s, e0, s, e1, s, self@);
                    assert forall|p: int, q: int, w: int|
                        (p < x || (p == x && q < y + 1)) && #[trigger] triangle(
                            a,
                            p,
                            q,
                            w,
                        ) implies triangle_clauses(self@.clauses, c, p, q, w) by {
                        if p < x || q < y {
                            lemma_triangle_kept(e1.clauses, self@.clauses, c, p, q, w);
                        }
                    }
                    assert(self@.clauses =~= base + vertex_clauses(a, c, x as int, y + 1));
                }
                y = y + 1;
            }
            assert(self@.clauses =~= e0.clauses + graph_clauses(a, c, x + 1));
            x = x + 1;
        }
    }

    /// Adds the transitivity of equality, where the assertions combine
    /// equations between variables and nothing else; gives whether they do.
    pub fn equality_transitivity_preprocess(&mut self, store: &mut TermStore) -> (applies: bool)
        requires
            goal_inv(old(store).terms(), old(self)@),
        ensures
            grew(old(store), final(store)),
            step(old(store).terms(), old(self)@, final(store).terms(), final(self)@),
            ({
                let s0 = old(store).terms();
                let e0 = old(self)@;
                let given = e0.j.assertions;
                let atoms = assertion_atoms(s0, given, given.len() as int);
                &&& applies == (!e0.quantified && !e0.arrays && (forall|k: int|
                    0 <= k < given.len() ==> pure_equality(
                        s0,
                        e0.j.var_of,
                        #[trigger] given[k],
                    )) && atoms.len() > 0)
                &&& !applies ==> final(self)@ == e0 && final(store).terms() == s0
                &&& applies ==> exists|
                    verts: Seq<TermId>,
                    vars: Seq<Seq<Option<Var>>>,
                    order: Seq<int>,
                | #[trigger]
                    transitivity_added(
                        s0,
                        e0,
                        atoms,
                        final(store).terms(),
                        final(self)@,
                        verts,
                        vars,
                        order,
                    )
            }),
    {
        let ghost s0 = store.terms();
        let ghost e0 = self@;
        let ghost given = e0.j.assertions;
        proof {
            lemma_step_grow(s0, s0, e0);
        }
        if self.has_quantifiers || self.has_array_ops {
            return false;
        }
        let mut atoms: Vec<TermId> = Vec::new();
        let mut n: usize = 0;
        assert(atoms@ =~= assertion_atoms(s0, given, 0));
        while n < self.assertions.len()
            invariant
                n <= self.assertions.len(),
                store.wf(),
                s0 == store.terms(),
                s0 == old(store).terms(),
                e0 == self@,
                e0 == old(self)@,
                given == self.assertions@,
                given == e0.j.assertions,
                self.term_to_var@ == e0.j.var_of,
                step(s0, e0, s0, e0),
                atoms@ == assertion_atoms(s0, given, n as int),
                atoms_ok(s0, e0, atoms@),
                forall|k: int|
                    0 <= k < n ==> pure_equality(s0, e0.j.var_of, #[trigger] given[k]),
            decreases self.assertions.len() - n,
        {
            let ghost before = atoms@;
            if !collect_eq_edges(store, &self.term_to_var, self.assertions[n], &mut atoms) {
                assert(!pure_equality(s0, e0.j.var_of, given[n as int]));
                return false;
            }
            proof {
                let t = given[n as int];
                lemma_atoms_ok(s0, e0, t);
                let b = eq_atoms(s0, t);
                assert forall|k: int| 0 <= k < atoms@.len() implies {
                    let t = #[trigger] atoms@[k];
                    &&& t < s0.len()
                    &&& equates(s0, t, s0[t as int].args[0], s0[t as int].args[1])
                    &&& e0.j.var_of.contains_key(t)
                } by {
                    if k < before.len() {
                        assert(atoms@[k] == before[k]);
                    } else {
                        assert(atoms@[k] == b[k - before.len()]);
                    }
                }
            }
            n = n + 1;
        }
        if atoms.len() == 0 {
            return false;
        }
        let verts = list_sides(store, Ghost(e0), &atoms);
        let mut m = edge_matrix(store, &self.term_to_var, Ghost(e0), &atoms, &verts);
        let ghost c0 = cells(m@);
        let ghost a0 = equation_graph(s0, e0.j.var_of, atoms@, verts@);
        let mut adj = adjacency(&m);
        proof {
            lemma_equation_graph(s0, e0, atoms@, verts@);
            assert forall|x: int| 0 <= x < verts@.len() implies #[trigger] rows(adj@)[x] == a0[x] by {
                assert(rows(adj@)[x] =~= a0[x]);
            }
            assert(rows(adj@) =~= a0);
            assert forall|x: int, y: int|
                0 <= x < verts@.len() && 0 <= y < verts@.len() && #[trigger] c0[x][y] is Some implies c0[x][y]->0
                < e0.term_of.len() && equates(
                s0,
                e0.term_of[c0[x][y]->0 as int],
                verts@[x],
                verts@[y],
            ) && c0[y][x] == c0[x][y] by {
                lemma_edge_var(s0, e0, atoms@, verts@[x], verts@[y]);
                assert(c0[y][x] == edge_var(s0, e0.j.var_of, atoms@, verts@[y], verts@[x]));
            }
            assert forall|k: int| 0 <= k < verts@.len() implies (#[trigger] verts@[k]) < s0.len() by {
                assert(verts@.contains(verts@[k]));
                let j = choose|j: int|
                    0 <= j < atoms@.len() && (s0[(#[trigger] atoms@[j]) as int].args[0] == verts@[k]
                        || s0[atoms@[j] as int].args[1] == verts@[k]);
                assert(atoms@[j] < s0.len());
                assert(node_below(s0, atoms@[j] as int));
            }
            assert forall|x: int, y: int|
                0 <= x < verts@.len() && 0 <= y < verts@.len() && #[trigger] a0[x][y] implies comparable(s0[verts@[x] as int].sort, s0[verts@[y] as int].sort) by {
                lemma_edge_var(s0, e0, atoms@, verts@[x], verts@[y]);
                let v = edge_var(s0, e0.j.var_of, atoms@, verts@[x], verts@[y])->0;
                assert(node_below(s0, e0.term_of[v as int] as int));
            }
        }
        let order = chordalize(&mut adj);
        let ghost o = ints(order@);
        let ghost full = rows(adj@);
        proof {
            lemma_sorts_after(s0, verts@, a0, o, o.len() as int);
        }
        self.name_chords(store, &verts, &adj, &mut m);
        let ghost s1 = store.terms();
        let ghost e1 = self@;
        let ghost c1 = cells(m@);
        self.add_triangles(Ghost(s1), Ghost(verts@), &adj, &m);
        proof {
            let e2 = self@;
            lemma_step_trans(s0, e0, s1, e1, s1, e2);
            assert(full == after(a0, o, o.len() as int));
            assert forall|x: int, y: int|
                0 <= x < verts@.len() && 0 <= y < verts@.len() && #[trigger] full[x][y] implies match c1[x][y] {
                Some(v) => v < e2.term_of.len() && equates(
                    s1,
                    e2.term_of[v as int],
                    verts@[x],
                    verts@[y],
                ) && c1[y][x] == Some(v),
                None => false,
            } by {
                assert(crate::chordal::visited(verts@.len() as int, 0, x, y));
                assert(c1[x][y] is Some);
            }
            assert forall|x: int, y: int|
                0 <= x < verts@.len() && 0 <= y < verts@.len() && #[trigger] a0[x][y] implies c1[x][y]
                == edge_var(s0, e0.j.var_of, atoms@, verts@[x], verts@[y]) by {
                assert(c0[x][y] is Some);
                assert(c1[x][y] == c0[x][y]);
            }
            assert(c0 =~= equation_vars(s0, e0.j.var_of, atoms@, verts@)) by {
                assert forall|x: int| 0 <= x < c0.len() implies #[trigger] c0[x] == equation_vars(
                    s0,
                    e0.j.var_of,
                    atoms@,
                    verts@,
                )[x] by {
                    assert(c0[x] =~= equation_vars(s0, e0.j.var_of, atoms@, verts@)[x]);
                }
            }
            assert(transitivity_added(s0, e0, atoms@, s1, e2, verts@, c1, o));
        }
        true
    }
}

proof fn lemma_triangle_kept(
    a: Seq<Seq<Lit>>,
    b: Seq<Seq<Lit>>,
    c: Seq<Seq<Option<Var>>>,
    x: int,
    y: int,
    z: int,
)
    requires
        a.len() <= b.len(),
        forall|k: int| 0 <= k < a.len() ==> #[trigger] b[k] == a[k],
        triangle_clauses(a, c, x, y, z),
    ensures
        triangle_clauses(b, c, x, y, z),
{
    let (p, q, r) = (c[x][y]->0, c[x][z]->0, c[y][z]->0);
    crate::domains::lemma_contains_grow(a, b, transitivity(p, q, r));
    crate::domains::lemma_contains_grow(a, b, transitivity(p, r, q));
    crate::domains::lemma_contains_grow(a, b, transitivity(q, r, p));
}

proof fn lemma_valid_triangle(
    s: Seq<TermView>,
    term_of: Seq<TermId>,
    ta: TermId,
    tb: TermId,
    tc: TermId,
    p: Var,
    q: Var,
    r: Var,
)
    requires
        terms_wf(s),
        p < term_of.len(),
        q < term_of.len(),
        r < term_of.len(),
        equates(s, term_of[p as int], ta, tb),
        equates(s, term_of[q as int], tb, tc),
        equates(s, term_of[r as int], ta, tc),
    ensures
        valid_clause(s, term_of, transitivity(p, q, r)),
{
    assert forall|i: Interp| #[trigger] clause_true(s, i, term_of, transitivity(p, q, r)) by {
        lemma_transitivity(s, term_of, i, ta, tb, tc, p, q, r);
    }
}

} // verus!
