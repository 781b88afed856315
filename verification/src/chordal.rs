//! Making graphs chordal.
//!
//! Vertices are eliminated one after the other, each time one whose neighbours
//! lack the fewest edges among each other; the missing edges are added.  The
//! result has no cycle of four or more vertices without a chord.

use vstd::prelude::*;

verus! {

/// A matrix with `n` rows and columns.
pub open spec fn square(a: Seq<Seq<bool>>, n: int) -> bool {
    a.len() == n && forall|v: int| 0 <= v < n ==> (#[trigger] a[v]).len() == n
}

pub open spec fn symmetric(a: Seq<Seq<bool>>) -> bool {
    forall|u: int, v: int| 0 <= u < a.len() && 0 <= v < a.len() ==> #[trigger] a[u][v] == a[v][u]
}

pub open spec fn loopless(a: Seq<Seq<bool>>) -> bool {
    forall|v: int| 0 <= v < a.len() ==> !(#[trigger] a[v])[v]
}

/// A graph with `n` vertices.
pub open spec fn graph(a: Seq<Seq<bool>>, n: int) -> bool {
    square(a, n) && symmetric(a) && loopless(a)
}

pub open spec fn rows(a: Seq<Vec<bool>>) -> Seq<Seq<bool>> {
    Seq::new(a.len(), |v: int| a[v]@)
}

/// `u` is a neighbour of `v` that is not removed.
pub open spec fn live_neighbour(a: Seq<Seq<bool>>, removed: Seq<bool>, v: int, u: int) -> bool {
    a[v][u] && !removed[u]
}

/// Two neighbours of `v` that are not neighbours of each other.
pub open spec fn missing(a: Seq<Seq<bool>>, removed: Seq<bool>, v: int, u: int, w: int) -> bool {
    live_neighbour(a, removed, v, u) && live_neighbour(a, removed, v, w) && !a[u][w]
}

/// How many of the vertices between `u` and `k` are missing from the
/// neighbours of `u`.
pub open spec fn missing_with(a: Seq<Seq<bool>>, removed: Seq<bool>, v: int, u: int, k: int) -> nat
    decreases k - u,
{
    if k <= u + 1 {
        0
    } else {
        missing_with(a, removed, v, u, k - 1) + if missing(a, removed, v, u, k - 1) {
            1nat
        } else {
            0nat
        }
    }
}

/// How many edges the neighbours of `v` below `k` lack.
pub open spec fn missing_below(a: Seq<Seq<bool>>, removed: Seq<bool>, v: int, k: int) -> nat
    decreases k,
{
    if k <= 0 {
        0
    } else {
        missing_below(a, removed, v, k - 1) + missing_with(a, removed, v, k - 1, a.len() as int)
    }
}

/// How many edges eliminating `v` adds.
pub open spec fn fill(a: Seq<Seq<bool>>, removed: Seq<bool>, v: int) -> nat {
    missing_below(a, removed, v, a.len() as int)
}

/// The first of the vertices whose elimination adds the fewest edges.
pub open spec fn cheapest(a: Seq<Seq<bool>>, removed: Seq<bool>, v: int) -> bool {
    &&& 0 <= v < a.len()
    &&& !removed[v]
    &&& forall|u: int|
        0 <= u < a.len() && !removed[u] ==> fill(a, removed, v) < fill(a, removed, u) || (fill(
            a,
            removed,
            v,
        ) == #[trigger] fill(a, removed, u) && v <= u)
}

/// The graph with the neighbours of `v` made neighbours of each other.
pub open spec fn joined_around(a: Seq<Seq<bool>>, removed: Seq<bool>, v: int) -> Seq<Seq<bool>> {
    Seq::new(
        a.len(),
        |x: int|
            Seq::new(
                a.len(),
                |y: int|
                    a[x][y] || (x != y && live_neighbour(a, removed, v, x) && live_neighbour(
                        a,
                        removed,
                        v,
                        y,
                    )),
            ),
    )
}

/// The vertices removed after the first `k` of the order.
pub open spec fn gone(n: int, order: Seq<int>, k: int) -> Seq<bool> {
    Seq::new(n as nat, |x: int| order.take(k).contains(x))
}

/// The graph after eliminating the first `k` of the order.
pub open spec fn after(a: Seq<Seq<bool>>, order: Seq<int>, k: int) -> Seq<Seq<bool>>
    decreases k,
{
    if k <= 0 {
        a
    } else {
        joined_around(
            after(a, order, k - 1),
            gone(a.len() as int, order, k - 1),
            order[k - 1],
        )
    }
}

/// The order names each vertex once.
pub open spec fn permutation(order: Seq<int>, n: int) -> bool {
    &&& order.len() == n
    &&& forall|k: int| 0 <= k < n ==> 0 <= #[trigger] order[k] < n
    &&& forall|j: int, k: int| 0 <= j < k < n ==> order[j] != order[k]
    &&& forall|v: int| 0 <= v < n ==> #[trigger] order.contains(v)
}

/// Each vertex was the cheapest when it was eliminated.
pub open spec fn cheapest_first(a: Seq<Seq<bool>>, order: Seq<int>) -> bool {
    forall|k: int|
        0 <= k < order.len() ==> cheapest(
            after(a, order, k),
            gone(a.len() as int, order, k),
            #[trigger] order[k],
        )
}

pub open spec fn ints(order: Seq<usize>) -> Seq<int> {
    Seq::new(order.len(), |k: int| order[k] as int)
}

fn count_missing(a: &Vec<Vec<bool>>, removed: &Vec<bool>, v: usize) -> (count: u128)
    requires
        square(rows(a@), a@.len() as int),
        removed@.len() == a@.len(),
        v < a@.len(),
    ensures
        count == fill(rows(a@), removed@, v as int),
{
    let n: usize = a.len();
    let ghost m = rows(a@);
    let mut count: u128 = 0;
    let mut u: usize = 0;
    while u < n
        invariant
            u <= n,
            n == a@.len(),
            m == rows(a@),
            square(m, n as int),
            removed@.len() == n,
            v < n,
            count == missing_below(m, removed@, v as int, u as int),
            count <= u * n,
        decreases n - u,
    {
        let ghost base = count;
        let mut w: usize = u + 1;
        assert(m[v as int] == a@[v as int]@ && m[u as int] == a@[u as int]@);
        while w < n
            invariant
                u < w <= n,
                n == a@.len(),
                m == rows(a@),
                m[v as int] == a@[v as int]@,
                m[u as int] == a@[u as int]@,
                square(m, n as int),
                removed@.len() == n,
                v < n,
                u < n,
                base <= u * n,
                count == base + missing_with(m, removed@, v as int, u as int, w as int),
                missing_with(m, removed@, v as int, u as int, w as int) <= w - u - 1,
            decreases n - w,
        {
            proof {
                assert(u * n + n <= 0xffff_ffff_ffff_ffff * 0x1_0000_0000_0000_0000)
                    by (nonlinear_arith)
                    requires
                        u < n,
                        n <= 0xffff_ffff_ffff_ffff,
                ;
            }
            if a[v][u] && !removed[u] && a[v][w] && !removed[w] && !a[u][w] {
                count = count + 1;
            }
            w = w + 1;
        }
        proof {
            assert((u + 1) * n == u * n + n) by (nonlinear_arith);
        }
        u = u + 1;
    }
    count
}

/// The cheapest of the vertices that are left.
fn choose_cheapest(a: &Vec<Vec<bool>>, removed: &Vec<bool>) -> (r: Option<usize>)
    requires
        square(rows(a@), a@.len() as int),
        removed@.len() == a@.len(),
    ensures
        match r {
            Some(v) => cheapest(rows(a@), removed@, v as int),
            None => forall|v: int| 0 <= v < a@.len() ==> #[trigger] removed@[v],
        },
{
    let ghost m = rows(a@);
    let mut best: Option<usize> = None;
    let mut least: u128 = 0;
    let mut v: usize = 0;
    while v < a.len()
        invariant
            v <= a.len(),
            m == rows(a@),
            square(m, a@.len() as int),
            removed@.len() == a@.len(),
            match best {
                Some(b) => {
                    &&& b < v
                    &&& !removed@[b as int]
                    &&& least == fill(m, removed@, b as int)
                    &&& forall|u: int|
                        0 <= u < v && !removed@[u] ==> least < fill(m, removed@, u) || (least
                            == #[trigger] fill(m, removed@, u) && b <= u)
                },
                None => forall|u: int| 0 <= u < v ==> #[trigger] removed@[u],
            },
        decreases a.len() - v,
    {
        if !removed[v] {
            let f = count_missing(a, removed, v);
            let better = match best {
                Some(_) => f < least,
                None => true,
            };
            if better {
                best = Some(v);
                least = f;
            }
        }
        v = v + 1;
    }
    best
}

fn set_cell(a: &mut Vec<Vec<bool>>, u: usize, w: usize)
    requires
        square(rows(old(a)@), old(a)@.len() as int),
        u < old(a)@.len(),
        w < old(a)@.len(),
    ensures
        final(a)@.len() == old(a)@.len(),
        rows(final(a)@) == rows(old(a)@).update(
            u as int,
            rows(old(a)@)[u as int].update(w as int, true),
        ),
{
    let ghost before = rows(a@);
    assert(before[u as int] == a@[u as int]@);
    let row = &mut a[u];
    row.set(w, true);
    assert(rows(a@) =~= before.update(u as int, before[u as int].update(w as int, true)));
}

/// The pair is one of the first `u` rows and, in row `u`, of the first `w`
/// columns, or mirrors such a pair.
pub open spec fn visited(u: int, w: int, x: int, y: int) -> bool {
    let (lo, hi) = if x < y {
        (x, y)
    } else {
        (y, x)
    };
    lo < u || (lo == u && hi < w)
}

/// Makes the neighbours of a vertex neighbours of each other.
fn join_around(a: &mut Vec<Vec<bool>>, removed: &Vec<bool>, v: usize)
    requires
        graph(rows(old(a)@), old(a)@.len() as int),
        removed@.len() == old(a)@.len(),
        v < old(a)@.len(),
    ensures
        final(a)@.len() == old(a)@.len(),
        rows(final(a)@) == joined_around(rows(old(a)@), removed@, v as int),
{
    let n: usize = a.len();
    let ghost m0 = rows(a@);
    let live = crate::collections::copy_words(&a[v]);
    assert(m0[v as int] == live@);
    let mut u: usize = 0;
    while u < n
        invariant
            u <= n,
            n == a@.len(),
            graph(m0, n as int),
            square(rows(a@), n as int),
            live@ == m0[v as int],
            v < n,
            removed@.len() == n,
            forall|x: int, y: int|
                0 <= x < n && 0 <= y < n ==> #[trigger] rows(a@)[x][y] == (m0[x][y] || (x != y
                    && visited(u as int, 0, x, y) && live_neighbour(m0, removed@, v as int, x)
                    && live_neighbour(m0, removed@, v as int, y))),
        decreases n - u,
    {
        if live[u] && !removed[u] {
            let mut w: usize = u + 1;
            while w < n
                invariant
                    u < w <= n,
                    n == a@.len(),
                    graph(m0, n as int),
                    square(rows(a@), n as int),
                    live@ == m0[v as int],
                    v < n,
                    u < n,
                    live@[u as int] && !removed@[u as int],
                    removed@.len() == n,
                    forall|x: int, y: int|
                        0 <= x < n && 0 <= y < n ==> #[trigger] rows(a@)[x][y] == (m0[x][y] || (x
                            != y && visited(u as int, w as int, x, y) && live_neighbour(
                            m0,
                            removed@,
                            v as int,
                            x,
                        ) && live_neighbour(m0, removed@, v as int, y))),
                decreases n - w,
            {
                let ghost m1 = rows(a@);
                if live[w] && !removed[w] {
                    set_cell(a, u, w);
                    let ghost m2 = rows(a@);
                    proof {
                        assert(square(m2, n as int)) by {
                            assert forall|x: int| 0 <= x < n implies (#[trigger] m2[x]).len() == n by {
                                assert(m1[x].len() == n);
                            }
                        }
                    }
                    set_cell(a, w, u);
                    proof {
                        let m3 = rows(a@);
                        assert(square(m3, n as int)) by {
                            assert forall|x: int| 0 <= x < n implies (#[trigger] m3[x]).len() == n by {
                                assert(m2[x].len() == n);
                            }
                        }
                        assert forall|x: int, y: int| 0 <= x < n && 0 <= y < n implies #[trigger] m3[x][y]
                            == (m1[x][y] || (x == u && y == w) || (x == w && y == u)) by {
                            assert(m1[x].len() == n && m2[x].len() == n);
                        }
                    }
                }
                proof {
                    let m3 = rows(a@);
                    assert forall|x: int, y: int| 0 <= x < n && 0 <= y < n implies #[trigger] m3[x][y]
                        == (m0[x][y] || (x != y && visited(u as int, w + 1, x, y)
                        && live_neighbour(m0, removed@, v as int, x) && live_neighbour(
                        m0,
                        removed@,
                        v as int,
                        y,
                    ))) by {
                        assert(m1[x][y] == (m0[x][y] || (x != y && visited(u as int, w as int, x, y)
                            && live_neighbour(m0, removed@, v as int, x) && live_neighbour(
                            m0,
                            removed@,
                            v as int,
                            y,
                        ))));
                    }
                }
                w = w + 1;
            }
        }
        u = u + 1;
    }
    proof {
        let m = rows(a@);
        let goal = joined_around(m0, removed@, v as int);
        assert forall|x: int| 0 <= x < n implies #[trigger] m[x] == goal[x] by {
            assert(m[x].len() == n);
            assert forall|y: int| 0 <= y < n implies m[x][y] == goal[x][y] by {}
            assert(m[x] =~= goal[x]);
        }
        assert(m =~= goal);
    }
}

proof fn lemma_joined_graph(a: Seq<Seq<bool>>, removed: Seq<bool>, v: int)
    requires
        graph(a, a.len() as int),
        removed.len() == a.len(),
        0 <= v < a.len(),
    ensures
        graph(joined_around(a, removed, v), a.len() as int),
{
    let b = joined_around(a, removed, v);
    assert forall|x: int| 0 <= x < b.len() implies (#[trigger] b[x]).len() == b.len() && !b[x][x] by {
        assert(!a[x][x]);
    }
    assert forall|x: int, y: int| 0 <= x < b.len() && 0 <= y < b.len() implies #[trigger] b[x][y]
        == b[y][x] by {
        assert(a[x][y] == a[y][x]);
    }
}

pub(crate) proof fn lemma_after_graph(a: Seq<Seq<bool>>, order: Seq<int>, k: int)
    requires
        graph(a, a.len() as int),
        k <= order.len(),
        forall|j: int| 0 <= j < order.len() ==> 0 <= #[trigger] order[j] < a.len(),
    ensures
        graph(after(a, order, k), a.len() as int),
    decreases k,
{
    if k > 0 {
        lemma_after_graph(a, order, k - 1);
        assert(0 <= order[k - 1] < a.len());
        lemma_joined_graph(
            after(a, order, k - 1),
            gone(a.len() as int, order, k - 1),
            order[k - 1],
        );
    }
}

/// The history does not depend on what comes later.
proof fn lemma_after_prefix(a: Seq<Seq<bool>>, order: Seq<int>, longer: Seq<int>, k: int)
    requires
        0 <= k <= order.len() <= longer.len(),
        longer.take(order.len() as int) == order,
    ensures
        after(a, order, k) == after(a, longer, k),
        gone(a.len() as int, order, k) == gone(a.len() as int, longer, k),
    decreases k,
{
    assert(order.take(k) =~= longer.take(k));
    if k > 0 {
        lemma_after_prefix(a, order, longer, k - 1);
        assert(longer[k - 1] == longer.take(order.len() as int)[k - 1]);
    }
}

proof fn lemma_gone_push(n: int, order: Seq<int>, v: int)
    requires
        0 <= v < n,
    ensures
        gone(n, order.push(v), order.len() as int + 1) == gone(n, order, order.len() as int).update(
            v,
            true,
        ),
{
    let more = order.push(v);
    let a = gone(n, more, order.len() as int + 1);
    let b = gone(n, order, order.len() as int).update(v, true);
    assert(more.take(order.len() as int + 1) =~= more);
    assert(order.take(order.len() as int) =~= order);
    assert forall|x: int| 0 <= x < n implies a[x] == b[x] by {
        if order.contains(x) {
            let j = choose|j: int| 0 <= j < order.len() && order[j] == x;
            assert(more[j] == x);
        }
        assert(more[order.len() as int] == v);
    }
    assert(a =~= b);
}

/// Makes a graph chordal.  Gives the order in which the vertices were
/// eliminated.
pub fn chordalize(a: &mut Vec<Vec<bool>>) -> (order: Vec<usize>)
    requires
        graph(rows(old(a)@), old(a)@.len() as int),
    ensures
        final(a)@.len() == old(a)@.len(),
        graph(rows(final(a)@), old(a)@.len() as int),
        permutation(ints(order@), old(a)@.len() as int),
        cheapest_first(rows(old(a)@), ints(order@)),
        rows(final(a)@) == after(rows(old(a)@), ints(order@), old(a)@.len() as int),
{
    let n: usize = a.len();
    let ghost m0 = rows(a@);
    let mut removed: Vec<bool> = Vec::new();
    let mut fill_k: usize = 0;
    while fill_k < n
        invariant
            fill_k <= n,
            removed@.len() == fill_k,
            forall|x: int| 0 <= x < fill_k ==> !#[trigger] removed@[x],
        decreases n - fill_k,
    {
        removed.push(false);
        fill_k = fill_k + 1;
    }
    let mut order: Vec<usize> = Vec::new();
    proof {
        assert(ints(order@).take(0).len() == 0);
        assert(removed@ =~= gone(n as int, ints(order@), 0));
    }
    while order.len() < n
        invariant
            order@.len() <= n,
            n == a@.len(),
            m0.len() == n,
            graph(m0, n as int),
            removed@ == gone(n as int, ints(order@), order@.len() as int),
            rows(a@) == after(m0, ints(order@), order@.len() as int),
            graph(rows(a@), n as int),
            forall|k: int| 0 <= k < order@.len() ==> 0 <= #[trigger] ints(order@)[k] < n,
            forall|j: int, k: int|
                0 <= j < k < order@.len() ==> ints(order@)[j] != ints(order@)[k],
            forall|k: int|
                0 <= k < order@.len() ==> cheapest(
                    after(m0, ints(order@), k),
                    gone(n as int, ints(order@), k),
                    #[trigger] ints(order@)[k],
                ),
        decreases n - order.len(),
    {
        let ghost o1 = ints(order@);
        let ghost m1 = rows(a@);
        let ghost gone1 = removed@;
        match choose_cheapest(a, &removed) {
            None => {
                proof {
                    lemma_some_left(n as int, o1);
                }
                assert(false);
                return order;
            },
            Some(v) => {
                join_around(a, &removed, v);
                removed.set(v, true);
                order.push(v);
                proof {
                    let o2 = ints(order@);
                    assert(o2 =~= o1.push(v as int));
                    assert(o2.take(o1.len() as int) =~= o1);
                    lemma_gone_push(n as int, o1, v as int);
                    lemma_after_prefix(m0, o1, o2, o1.len() as int);
                    lemma_joined_graph(m1, gone1, v as int);
                    assert(!o1.contains(v as int)) by {
                        assert(o1.take(o1.len() as int) =~= o1);
                    }
                    assert forall|j: int, k: int| 0 <= j < k < o2.len() implies o2[j] != o2[k] by {
                        if k == o1.len() {
                            assert(o1[j] == o2[j]);
                            assert(o1.contains(o1[j]));
                        } else {
                            assert(o1[j] == o2[j] && o1[k] == o2[k]);
                        }
                    }
                    assert forall|k: int| 0 <= k < o2.len() implies cheapest(
                        after(m0, o2, k),
                        gone(n as int, o2, k),
                        #[trigger] o2[k],
                    ) by {
                        lemma_after_prefix(m0, o1, o2, if k < o1.len() { k } else { o1.len() as int });
                        if k < o1.len() {
                            assert(o1[k] == o2[k]);
                        }
                    }
                }
            },
        }
    }
    proof {
        lemma_all_named(n as int, ints(order@));
    }
    order
}

/// Fewer distinct vertices than there are leave one out.
proof fn lemma_some_left(n: int, order: Seq<int>)
    requires
        0 <= order.len() < n,
    ensures
        exists|v: int| 0 <= v < n && !#[trigger] gone(n, order, order.len() as int)[v],
{
    let g = gone(n, order, order.len() as int);
    assert(order.take(order.len() as int) =~= order);
    if forall|v: int| 0 <= v < n ==> #[trigger] g[v] {
        let all = vstd::set_lib::set_int_range(0, n);
        vstd::set_lib::lemma_int_range(0, n);
        assert forall|v: int| all.contains(v) implies order.to_set().contains(v) by {
            assert(g[v]);
            assert(order.contains(v));
        }
        vstd::seq_lib::seq_to_set_is_finite(order);
        order.lemma_cardinality_of_set();
        vstd::set_lib::lemma_len_subset(all, order.to_set());
    }
}

/// As many distinct vertices as there are name each.
proof fn lemma_all_named(n: int, order: Seq<int>)
    requires
        order.len() == n,
        forall|k: int| 0 <= k < n ==> 0 <= #[trigger] order[k] < n,
        forall|j: int, k: int| 0 <= j < k < n ==> order[j] != order[k],
    ensures
        forall|v: int| 0 <= v < n ==> #[trigger] order.contains(v),
{
    let all = vstd::set_lib::set_int_range(0, n);
    vstd::set_lib::lemma_int_range(0, n);
    vstd::seq_lib::seq_to_set_is_finite(order);
    order.unique_seq_to_set();
    assert(order.to_set().subset_of(all)) by {
        assert forall|v: int| order.to_set().contains(v) implies all.contains(v) by {
            let k = choose|k: int| 0 <= k < order.len() && order[k] == v;
            assert(0 <= order[k] < n);
        }
    }
    vstd::set_lib::lemma_subset_equality(order.to_set(), all);
    assert forall|v: int| 0 <= v < n implies #[trigger] order.contains(v) by {
        assert(order.to_set().contains(v));
    }
}

/// The later neighbours of each vertex of the order are neighbours of each
/// other.
pub open spec fn chordal(a: Seq<Seq<bool>>, order: Seq<int>) -> bool {
    forall|i: int, j: int, k: int|
        0 <= i < j < order.len() && i < k < order.len() && j != k && #[trigger] a[order[i]][order[j]]
            && #[trigger] a[order[i]][order[k]] ==> a[order[j]][order[k]]
}

/// Edges stay.
proof fn lemma_edges_stay(a: Seq<Seq<bool>>, order: Seq<int>, j: int, k: int, x: int, y: int)
    requires
        graph(a, a.len() as int),
        permutation(order, a.len() as int),
        0 <= j <= k <= order.len(),
        0 <= x < a.len(),
        0 <= y < a.len(),
        after(a, order, j)[x][y],
    ensures
        after(a, order, k)[x][y],
    decreases k,
{
    if j < k {
        lemma_edges_stay(a, order, j, k - 1, x, y);
        lemma_after_graph(a, order, k - 1);
    }
}

/// A vertex that is gone gets no further edges.
proof fn lemma_edges_fixed(a: Seq<Seq<bool>>, order: Seq<int>, i: int, k: int, y: int)
    requires
        graph(a, a.len() as int),
        permutation(order, a.len() as int),
        0 <= i < k <= order.len(),
        0 <= y < a.len(),
        after(a, order, k)[order[i]][y],
    ensures
        after(a, order, i)[order[i]][y],
    decreases k,
{
    let x = order[i];
    assert(0 <= x < a.len());
    lemma_after_graph(a, order, k - 1);
    let b = after(a, order, k - 1);
    let g = gone(a.len() as int, order, k - 1);
    assert(0 <= order[k - 1] < a.len());
    if i < k - 1 {
        assert(g[x]) by {
            assert(order.take(k - 1)[i] == x);
        }
        assert(b[x][y]);
        lemma_edges_fixed(a, order, i, k - 1, y);
    } else {
        assert(!b[x][x]);
    }
}

/// Elimination makes a graph chordal: whatever the order, the later neighbours
/// of each vertex are neighbours of each other in the result.
pub proof fn elimination_is_chordal(a: Seq<Seq<bool>>, order: Seq<int>)
    requires
        graph(a, a.len() as int),
        permutation(order, a.len() as int),
    ensures
        chordal(after(a, order, order.len() as int), order),
        forall|x: int, y: int|
            0 <= x < a.len() && 0 <= y < a.len() && #[trigger] a[x][y] ==> after(
                a,
                order,
                order.len() as int,
            )[x][y],
{
    let n = order.len() as int;
    let f = after(a, order, n);
    assert forall|i: int, j: int, k: int|
        0 <= i < j < order.len() && i < k < order.len() && j != k
            && #[trigger] f[order[i]][order[j]]
            && #[trigger] f[order[i]][order[k]] implies f[order[j]][order[k]] by {
        let (v, u, w) = (order[i], order[j], order[k]);
        assert(0 <= v < n && 0 <= u < n && 0 <= w < n);
        lemma_edges_fixed(a, order, i, n, u);
        lemma_edges_fixed(a, order, i, n, w);
        let b = after(a, order, i);
        let g = gone(a.len() as int, order, i);
        lemma_after_graph(a, order, i);
        assert(!g[u]) by {
            if order.take(i).contains(u) {
                let p = choose|p: int| 0 <= p < i && order.take(i)[p] == u;
                assert(order[p] == u);
            }
        }
        assert(!g[w]) by {
            if order.take(i).contains(w) {
                let p = choose|p: int| 0 <= p < i && order.take(i)[p] == w;
                assert(order[p] == w);
            }
        }
        assert(u != w);
        assert(after(a, order, i + 1)[u][w]);
        lemma_edges_stay(a, order, i + 1, n, u, w);
    }
    assert forall|x: int, y: int|
        0 <= x < a.len() && 0 <= y < a.len() && #[trigger] a[x][y] implies f[x][y] by {
        lemma_edges_stay(a, order, 0, n, x, y);
    }
}

/// Which edges are true.
pub type Truth = spec_fn(int, int) -> bool;

/// No triangle has exactly two true edges.
pub open spec fn triangles_closed(a: Seq<Seq<bool>>, truth: Truth) -> bool {
    &&& forall|x: int, y: int| #[trigger] truth(x, y) == truth(y, x)
    &&& forall|x: int, y: int, z: int|
        0 <= x < a.len() && 0 <= y < a.len() && 0 <= z < a.len() && a[x][y] && a[y][z] && a[x][z]
            && #[trigger] truth(x, y) && #[trigger] truth(y, z) ==> truth(x, z)
}

/// A path along true edges.
pub open spec fn true_path(a: Seq<Seq<bool>>, truth: Truth, path: Seq<int>) -> bool {
    &&& path.len() >= 1
    &&& forall|k: int| 0 <= k < path.len() ==> 0 <= #[trigger] path[k] < a.len()
    &&& forall|k: int|
        0 <= k < path.len() - 1 ==> true_edge(a, truth, #[trigger] path[k], path[k + 1])
}

pub open spec fn true_edge(a: Seq<Seq<bool>>, truth: Truth, x: int, y: int) -> bool {
    a[x][y] && truth(x, y)
}

/// The place of a vertex in the order.
pub open spec fn place(order: Seq<int>, v: int) -> int {
    choose|k: int| 0 <= k < order.len() && order[k] == v
}

proof fn lemma_place(order: Seq<int>, n: int, v: int)
    requires
        permutation(order, n),
        0 <= v < n,
    ensures
        0 <= place(order, v) < n,
        order[place(order, v)] == v,
{
    assert(order.contains(v));
    let k = choose|k: int| 0 <= k < order.len() && order[k] == v;
    assert(order[k] == v);
}

/// Later neighbours of one vertex are neighbours.
proof fn lemma_later_neighbours(a: Seq<Seq<bool>>, order: Seq<int>, v: int, u: int, w: int)
    requires
        graph(a, a.len() as int),
        permutation(order, a.len() as int),
        chordal(a, order),
        0 <= v < a.len(),
        0 <= u < a.len(),
        0 <= w < a.len(),
        u != w,
        a[v][u],
        a[v][w],
        place(order, v) <= place(order, u),
        place(order, v) <= place(order, w),
    ensures
        a[u][w],
{
    let n = a.len() as int;
    lemma_place(order, n, v);
    lemma_place(order, n, u);
    lemma_place(order, n, w);
    assert(!a[v][v]);
    let (i, j, k) = (place(order, v), place(order, u), place(order, w));
    assert(a[order[i]][order[j]] && a[order[i]][order[k]]);
}

/// The first position of the path whose vertex was eliminated first.
proof fn lemma_earliest(order: Seq<int>, path: Seq<int>) -> (m: int)
    requires
        path.len() >= 1,
    ensures
        0 <= m < path.len(),
        forall|k: int| 0 <= k < path.len() ==> place(order, path[m]) <= #[trigger] place(order, path[k]),
    decreases path.len(),
{
    if path.len() == 1 {
        0
    } else {
        let rest = path.drop_last();
        let m = lemma_earliest(order, rest);
        let last = path.len() - 1;
        assert forall|k: int| 0 <= k < rest.len() implies place(order, path[m]) <= #[trigger] place(
            order,
            path[k],
        ) by {
            assert(rest[k] == path[k] && rest[m] == path[m]);
            assert(place(order, rest[m]) <= place(order, rest[k]));
        }
        if place(order, path[last]) < place(order, path[m]) {
            last
        } else {
            m
        }
    }
}

/// Cutting a piece out of a path whose ends meet.
proof fn lemma_cut(a: Seq<Seq<bool>>, truth: Truth, path: Seq<int>, p: int, q: int)
    requires
        true_path(a, truth, path),
        0 <= p < q <= path.len(),
        q < path.len() ==> true_edge(a, truth, path[p], path[q]),
    ensures
        true_path(a, truth, path.take(p + 1) + path.skip(q)),
{
    let cut = path.take(p + 1) + path.skip(q);
    assert forall|k: int| 0 <= k < cut.len() implies 0 <= #[trigger] cut[k] < a.len() by {
        if k <= p {
            assert(cut[k] == path[k]);
        } else {
            assert(cut[k] == path[k - p - 1 + q]);
        }
    }
    assert forall|k: int| 0 <= k < cut.len() - 1 implies true_edge(
        a,
        truth,
        #[trigger] cut[k],
        cut[k + 1],
    ) by {
        if k < p {
            assert(cut[k] == path[k] && cut[k + 1] == path[k + 1]);
            assert(true_edge(a, truth, path[k], path[k + 1]));
        } else if k == p {
            assert(cut[k] == path[p] && cut[k + 1] == path[q]);
        } else {
            let j = k - p - 1 + q;
            assert(cut[k] == path[j] && cut[k + 1] == path[j + 1]);
            assert(true_edge(a, truth, path[j], path[j + 1]));
        }
    }
}

/// On a chordal graph closed triangles are enough: where a path of true edges
/// joins the ends of an edge, that edge is true.
pub proof fn triangles_are_enough(
    a: Seq<Seq<bool>>,
    order: Seq<int>,
    truth: Truth,
    path: Seq<int>,
)
    requires
        graph(a, a.len() as int),
        permutation(order, a.len() as int),
        chordal(a, order),
        triangles_closed(a, truth),
        true_path(a, truth, path),
        a[path[0]][path.last()],
    ensures
        truth(path[0], path.last()),
    decreases path.len(),
{
    let n = path.len() as int;
    let x = path[0];
    let y = path[n - 1];
    assert(0 <= path[0] < a.len() && 0 <= path[n - 1] < a.len());
    assert(!a[x][x]);
    if n == 2 {
        assert(true_edge(a, truth, path[0], path[1]));
    } else {
        let m = lemma_earliest(order, path);
        if m == 0 {
            let u = path[1];
            assert(0 <= path[1] < a.len());
            assert(true_edge(a, truth, path[0], path[1]));
            if u != y {
                assert(place(order, path[m]) <= place(order, path[1]));
                assert(place(order, path[m]) <= place(order, path[n - 1]));
                lemma_later_neighbours(a, order, x, u, y);
                let tail = path.skip(1);
                lemma_skip(a, truth, path, 1);
                assert(tail[0] == u && tail.last() == y);
                triangles_are_enough(a, order, truth, tail);
                assert(truth(x, u) && truth(u, y));
            }
        } else if m == n - 1 {
            let u = path[n - 2];
            assert(0 <= path[n - 2] < a.len());
            assert(true_edge(a, truth, path[n - 2], path[n - 2 + 1]));
            assert(a[u][y] == a[y][u] && a[x][y] == a[y][x]);
            if u != x {
                assert(place(order, path[m]) <= place(order, path[n - 2]));
                assert(place(order, path[m]) <= place(order, path[0]));
                lemma_later_neighbours(a, order, y, u, x);
                let front = path.take(n - 1);
                lemma_take(a, truth, path, n - 1);
                assert(front[0] == x && front.last() == u);
                assert(a[x][u] == a[u][x]);
                triangles_are_enough(a, order, truth, front);
                assert(truth(x, u) && truth(u, y));
            } else {
                assert(truth(u, y));
            }
        } else {
            let v = path[m];
            let u = path[m - 1];
            let w = path[m + 1];
            assert(0 <= path[m] < a.len() && 0 <= path[m - 1] < a.len() && 0 <= path[m + 1]
                < a.len());
            assert(true_edge(a, truth, path[m - 1], path[m - 1 + 1]));
            assert(true_edge(a, truth, path[m], path[m + 1]));
            assert(a[u][v] == a[v][u]);
            if u == w {
                if m + 2 < n {
                    assert(true_edge(a, truth, path[m + 1], path[m + 1 + 1]));
                }
                lemma_cut(a, truth, path, m - 1, m + 2);
                let cut = path.take(m) + path.skip(m + 2);
                assert(cut[0] == x);
                if m + 2 < n {
                    assert(cut.last() == y);
                } else {
                    assert(cut.last() == u);
                    assert(y == w);
                }
                if cut.len() == 1 {
                    assert(x == y);
                } else {
                    triangles_are_enough(a, order, truth, cut);
                }
            } else {
                assert(place(order, path[m]) <= place(order, path[m - 1]));
                assert(place(order, path[m]) <= place(order, path[m + 1]));
                lemma_later_neighbours(a, order, v, u, w);
                assert(truth(u, v) && truth(v, w));
                assert(true_edge(a, truth, u, w));
                lemma_cut(a, truth, path, m - 1, m + 1);
                let cut = path.take(m) + path.skip(m + 1);
                assert(cut[0] == x && cut.last() == y);
                triangles_are_enough(a, order, truth, cut);
            }
        }
    }
}

proof fn lemma_skip(a: Seq<Seq<bool>>, truth: Truth, path: Seq<int>, k: int)
    requires
        true_path(a, truth, path),
        0 <= k < path.len(),
    ensures
        true_path(a, truth, path.skip(k)),
{
    let tail = path.skip(k);
    assert forall|j: int| 0 <= j < tail.len() implies 0 <= #[trigger] tail[j] < a.len() by {
        assert(tail[j] == path[j + k]);
    }
    assert forall|j: int| 0 <= j < tail.len() - 1 implies true_edge(
        a,
        truth,
        #[trigger] tail[j],
        tail[j + 1],
    ) by {
        assert(true_edge(a, truth, path[j + k], path[j + k + 1]));
    }
}

proof fn lemma_take(a: Seq<Seq<bool>>, truth: Truth, path: Seq<int>, k: int)
    requires
        true_path(a, truth, path),
        0 < k <= path.len(),
    ensures
        true_path(a, truth, path.take(k)),
{
    let front = path.take(k);
    assert forall|j: int| 0 <= j < front.len() implies 0 <= #[trigger] front[j] < a.len() by {
        assert(front[j] == path[j]);
    }
    assert forall|j: int| 0 <= j < front.len() - 1 implies true_edge(
        a,
        truth,
        #[trigger] front[j],
        front[j + 1],
    ) by {
        assert(true_edge(a, truth, path[j], path[j + 1]));
    }
}

} // verus!
