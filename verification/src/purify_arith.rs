//! Arithmetic purification.
//!
//! Under arithmetic operators and comparisons, every numeric term whose head is
//! no arithmetic constructor gives way to a fresh variable, and an equation
//! between the two is stated beside the assertion.  The arithmetic engine then
//! sees polynomials over variables only.

use crate::collections::{copy_words, map_get, map_insert, map_new};
use crate::constructors::{grew, is_equation, lemma_eq_holds, plain_node, var_node};
use crate::rewrite::{avoids, lemma_and_holds, lemma_avoids, lemma_eqv_equal, well_sorted};
use crate::semantics::{
    arg_sorts, eqv, eval, eval_args, holds, lemma_eval, lemma_extend, op_value, Interp, Value,
};
use crate::terms::{
    extends, is_numeric_sort, node_at, node_below, node_ok, numeric_sort, same_ids, sorts_ok,
    terms_wf, Op, SortId, SortKind, Symbol, TermId, TermStore, TermView, BOOL_SORT,
};
use crate::walk::map_ok;
use rustc_hash::FxHashMap;
use vstd::prelude::*;

verus! {

pub open spec fn array_sort(sorts: Seq<SortKind>, sort: SortId) -> bool {
    sort < sorts.len() && sorts[sort as int] is Array
}

fn is_array_sort(store: &TermStore, sort: SortId) -> (b: bool)
    ensures
        b == array_sort(store.sorts@, sort),
{
    if sort < store.sorts.len() {
        match store.sorts[sort] {
            SortKind::Array { .. } => true,
            _ => false,
        }
    } else {
        false
    }
}

/// Heads of arithmetic terms.  A conditional counts, so that tables stay
/// visible to the Boolean layer; its branches are arithmetic again.
pub open spec fn arith_constructor(op: Op) -> bool {
    match op {
        Op::IntConst | Op::RealConst | Op::Var | Op::Neg | Op::Add | Op::Sub | Op::Mul | Op::Div
        | Op::Mod | Op::Ite | Op::Let => true,
        _ => false,
    }
}

fn is_arith_constructor(op: Op) -> (b: bool)
    ensures
        b == arith_constructor(op),
{
    match op {
        Op::IntConst | Op::RealConst | Op::Var | Op::Neg | Op::Add | Op::Sub | Op::Mul | Op::Div
        | Op::Mod | Op::Ite | Op::Let => true,
        _ => false,
    }
}

/// A numeric term in an arithmetic context that is no arithmetic term.
pub open spec fn foreign(s: Seq<TermView>, t: TermId, under: bool) -> bool {
    under && numeric_sort(s[t as int].sort) && !arith_constructor(s[t as int].op)
}

/// Heads below which purification continues.  Equations of arrays stay as they
/// are.
pub open spec fn descends(s: Seq<TermView>, sorts: Seq<SortKind>, t: TermId) -> bool {
    let args = s[t as int].args;
    match s[t as int].op {
        Op::Neg | Op::Add | Op::Mul | Op::Sub | Op::Div | Op::Mod | Op::Ite | Op::Lt | Op::Le
        | Op::Gt | Op::Ge | Op::Not | Op::And | Op::Or | Op::Xor | Op::Implies | Op::Distinct => true,
        Op::Eq => !array_sort(sorts, s[args[0] as int].sort) && !array_sort(
            sorts,
            s[args[1] as int].sort,
        ),
        _ => false,
    }
}

/// Whether the `k`-th argument stands in an arithmetic context.
pub open spec fn arith_position(s: Seq<TermView>, t: TermId, under: bool, k: int) -> bool {
    let args = s[t as int].args;
    match s[t as int].op {
        Op::Neg | Op::Add | Op::Mul | Op::Sub | Op::Div | Op::Mod | Op::Lt | Op::Le | Op::Gt
        | Op::Ge => true,
        Op::Ite => k > 0 && (under || numeric_sort(s[t as int].sort)),
        Op::Eq => numeric_sort(s[args[0] as int].sort) || numeric_sort(s[args[1] as int].sort),
        Op::Distinct => numeric_sort(s[args[k] as int].sort),
        _ => false,
    }
}

/// `r` is `t` with other arguments; an equation of one term with itself is
/// `true`.
pub open spec fn rebuilt(s: Seq<TermView>, t: TermId, args: Seq<TermId>, r: TermId) -> bool {
    let node = s[t as int];
    if args == node.args {
        r == t
    } else if node.op == Op::Eq {
        is_equation(s, args[0], args[1], r)
    } else {
        node_at(s, r, TermView { args, ..node })
    }
}

/// `r` is the purified `t`, with foreign terms replaced as `m` says.
pub open spec fn purified(
    s: Seq<TermView>,
    sorts: Seq<SortKind>,
    m: Map<TermId, TermId>,
    t: TermId,
    under: bool,
    r: TermId,
) -> bool
    decreases t,
{
    if foreign(s, t, under) {
        m.contains_key(t) && r == m[t]
    } else if s[t as int].op == Op::Let {
        s[t as int].args[0] < t && purified(s, sorts, m, s[t as int].args[0], under, r)
    } else if descends(s, sorts, t) {
        exists|args: Seq<TermId>| #[trigger]
            rebuilt(s, t, args, r) && args.len() == s[t as int].args.len() && forall|k: int|
                0 <= k < args.len() ==> (#[trigger] args[k]) < s.len() && s[t as int].args[k] < t
                    && purified(
                    s,
                    sorts,
                    m,
                    s[t as int].args[k],
                    arith_position(s, t, under, k),
                    args[k],
                )
    } else {
        r == t
    }
}

/// `x` is a foreign term that purifying `t` meets.
pub open spec fn meets(
    s: Seq<TermView>,
    sorts: Seq<SortKind>,
    t: TermId,
    under: bool,
    x: TermId,
) -> bool
    decreases t,
{
    if foreign(s, t, under) {
        x == t
    } else if s[t as int].op == Op::Let {
        exists|k: int|
            0 <= k < s[t as int].args.len() && (#[trigger] s[t as int].args[k]) < t && meets(
                s,
                sorts,
                s[t as int].args[k],
                under,
                x,
            )
    } else if descends(s, sorts, t) {
        exists|k: int|
            0 <= k < s[t as int].args.len() && (#[trigger] s[t as int].args[k]) < t && meets(
                s,
                sorts,
                s[t as int].args[k],
                arith_position(s, t, under, k),
                x,
            )
    } else {
        false
    }
}

/// Every arithmetic context below `t` holds arithmetic terms only.
pub open spec fn pure_arith(s: Seq<TermView>, sorts: Seq<SortKind>, t: TermId, under: bool) -> bool
    decreases t,
{
    &&& !foreign(s, t, under)
    &&& descends(s, sorts, t) ==> forall|k: int|
        0 <= k < s[t as int].args.len() && s[t as int].args[k] < t ==> pure_arith(
            s,
            sorts,
            #[trigger] s[t as int].args[k],
            arith_position(s, t, under, k),
        )
}

/// Foreign terms and their variables, shared by all assertions of a solver.
pub struct PurifyState {
    /// The foreign term behind each fresh variable, by the variable's number.
    pub origins: Vec<TermId>,
    /// The variable of each foreign term.
    pub foreign_to_fresh: FxHashMap<TermId, TermId>,
}

impl PurifyState {
    pub open spec fn wf(&self, s: Seq<TermView>) -> bool {
        let m = self.foreign_to_fresh@;
        &&& forall|n: int|
            0 <= n < self.origins@.len() ==> m.contains_key(#[trigger] self.origins@[n])
                && self.origins@[n] < s.len() && node_at(
                s,
                m[self.origins@[n]],
                var_node(Symbol::Purified(n as usize), s[self.origins@[n] as int].sort),
            )
        &&& forall|x: TermId| #[trigger] m.contains_key(x) ==> self.origins@.contains(x)
        &&& self.origins@.no_duplicates()
    }

    pub fn new() -> (r: PurifyState)
        ensures
            forall|s: Seq<TermView>| #[trigger] r.wf(s),
            r.origins@.len() == 0,
    {
        PurifyState { origins: Vec::new(), foreign_to_fresh: map_new() }
    }

    pub proof fn lemma_wf_extend(&self, a: Seq<TermView>, b: Seq<TermView>)
        requires
            self.wf(a),
            extends(a, b),
        ensures
            self.wf(b),
            map_ok(b, self.foreign_to_fresh@),
    {
        let m = self.foreign_to_fresh@;
        assert forall|n: int| 0 <= n < self.origins@.len() implies m.contains_key(
            #[trigger] self.origins@[n],
        ) && self.origins@[n] < b.len() && node_at(
            b,
            m[self.origins@[n]],
            var_node(Symbol::Purified(n as usize), b[self.origins@[n] as int].sort),
        ) by {
            assert(b[self.origins@[n] as int] == a[self.origins@[n] as int]);
            assert(b[m[self.origins@[n]] as int] == a[m[self.origins@[n]] as int]);
        }
        assert forall|x: TermId| #[trigger] m.contains_key(x) implies x < b.len() && m[x] < b.len()
            && b[m[x] as int].sort == b[x as int].sort by {
            assert(self.origins@.contains(x));
            let n = choose|n: int| 0 <= n < self.origins@.len() && self.origins@[n] == x;
            assert(m.contains_key(self.origins@[n]));
        }
    }
}

/// The state only learns further foreign terms.
pub open spec fn learns(a: &PurifyState, b: &PurifyState) -> bool {
    &&& a.origins@.len() <= b.origins@.len()
    &&& b.origins@.take(a.origins@.len() as int) == a.origins@
    &&& forall|x: TermId| #[trigger]
        a.foreign_to_fresh@.contains_key(x) ==> b.foreign_to_fresh@.contains_key(x)
            && b.foreign_to_fresh@[x] == a.foreign_to_fresh@[x]
}

proof fn lemma_learns_trans(a: &PurifyState, b: &PurifyState, c: &PurifyState)
    requires
        learns(a, b),
        learns(b, c),
    ensures
        learns(a, c),
{
    assert(c.origins@.take(a.origins@.len() as int) =~= c.origins@.take(
        b.origins@.len() as int,
    ).take(a.origins@.len() as int));
    assert forall|x: TermId| #[trigger] a.foreign_to_fresh@.contains_key(x) implies
        c.foreign_to_fresh@.contains_key(x) && c.foreign_to_fresh@[x] == a.foreign_to_fresh@[x] by {
        assert(b.foreign_to_fresh@.contains_key(x));
    }
}

/// What has been purified stays so in a longer store and a wiser state.
proof fn lemma_purified_extend(
    a: Seq<TermView>,
    b: Seq<TermView>,
    sorts: Seq<SortKind>,
    m: Map<TermId, TermId>,
    n: Map<TermId, TermId>,
    t: TermId,
    under: bool,
    r: TermId,
)
    requires
        terms_wf(a),
        terms_wf(b),
        extends(a, b),
        t < a.len(),
        r < a.len(),
        purified(a, sorts, m, t, under, r),
        forall|x: TermId| #[trigger] m.contains_key(x) ==> n.contains_key(x) && n[x] == m[x],
    ensures
        purified(b, sorts, n, t, under, r),
    decreases t,
{
    assert(node_below(a, t as int));
    assert(b[t as int] == a[t as int]);
    lemma_context_extend(a, b, sorts, t, under);
    let node = a[t as int];
    if foreign(a, t, under) {
    } else if node.op == Op::Let {
        lemma_purified_extend(a, b, sorts, m, n, node.args[0], under, r);
    } else if descends(a, sorts, t) {
        let args = choose|args: Seq<TermId>| #[trigger]
            rebuilt(a, t, args, r) && args.len() == node.args.len() && forall|k: int|
                0 <= k < args.len() ==> (#[trigger] args[k]) < a.len() && node.args[k] < t
                    && purified(
                    a,
                    sorts,
                    m,
                    node.args[k],
                    arith_position(a, t, under, k),
                    args[k],
                );
        assert(b[r as int] == a[r as int]);
        assert(rebuilt(b, t, args, r));
        assert forall|k: int| 0 <= k < args.len() implies (#[trigger] args[k]) < b.len()
            && node.args[k] < t && purified(
            b,
            sorts,
            n,
            node.args[k],
            arith_position(b, t, under, k),
            args[k],
        ) by {
            lemma_purified_extend(
                a,
                b,
                sorts,
                m,
                n,
                node.args[k],
                arith_position(a, t, under, k),
                args[k],
            );
            assert(arith_position(a, t, under, k) == arith_position(b, t, under, k));
        }
    }
}

proof fn lemma_context_extend(
    a: Seq<TermView>,
    b: Seq<TermView>,
    sorts: Seq<SortKind>,
    t: TermId,
    under: bool,
)
    requires
        terms_wf(a),
        extends(a, b),
        t < a.len(),
    ensures
        foreign(a, t, under) == foreign(b, t, under),
        descends(a, sorts, t) == descends(b, sorts, t),
        forall|k: int|
            0 <= k < a[t as int].args.len() ==> #[trigger] arith_position(a, t, under, k)
                == arith_position(b, t, under, k),
{
    assert(node_below(a, t as int));
    assert(b[t as int] == a[t as int]);
    let args = a[t as int].args;
    assert forall|k: int| 0 <= k < args.len() implies b[#[trigger] args[k] as int] == a[args[k] as int] by {}
    if a[t as int].op == Op::Eq {
        assert(b[args[0] as int] == a[args[0] as int]);
        assert(b[args[1] as int] == a[args[1] as int]);
    }
    assert forall|k: int| 0 <= k < args.len() implies #[trigger] arith_position(a, t, under, k)
        == arith_position(b, t, under, k) by {
        assert(b[args[k] as int] == a[args[k] as int]);
    }
}

/// Purified terms keep their sort.
proof fn lemma_purified_sort(
    s: Seq<TermView>,
    sorts: Seq<SortKind>,
    m: Map<TermId, TermId>,
    t: TermId,
    under: bool,
    r: TermId,
)
    requires
        terms_wf(s),
        map_ok(s, m),
        t < s.len(),
        purified(s, sorts, m, t, under, r),
    ensures
        s[r as int].sort == s[t as int].sort,
    decreases t,
{
    assert(node_below(s, t as int));
    if !foreign(s, t, under) && s[t as int].op == Op::Let {
        lemma_purified_sort(s, sorts, m, s[t as int].args[0], under, r);
    }
}

/// What purifying assertions has met so far: the pairs of variables and the
/// foreign terms they stand for, each once.
pub open spec fn interface_ok(
    interface: Seq<(TermId, TermId)>,
    m: Map<TermId, TermId>,
    met: spec_fn(TermId) -> bool,
) -> bool {
    &&& forall|n: int|
        0 <= n < interface.len() ==> {
            let p = #[trigger] interface[n];
            m.contains_key(p.1) && m[p.1] == p.0 && met(p.1)
        }
    &&& forall|x: TermId| #[trigger] met(x) ==> m.contains_key(x) && interface.contains((m[x], x))
    &&& interface.no_duplicates()
}

/// The list `b` begins with the list `a`.
pub open spec fn continues(a: Seq<(TermId, TermId)>, b: Seq<(TermId, TermId)>) -> bool {
    a.len() <= b.len() && b.take(a.len() as int) == a
}

fn has_pair(list: &Vec<(TermId, TermId)>, a: TermId, b: TermId) -> (r: bool)
    ensures
        r == list@.contains((a, b)),
{
    let mut n: usize = 0;
    while n < list.len()
        invariant
            n <= list.len(),
            forall|j: int| 0 <= j < n ==> #[trigger] list@[j] != (a, b),
        decreases list.len() - n,
    {
        if list[n].0 == a && list[n].1 == b {
            assert(list@[n as int] == (a, b));
            return true;
        }
        n = n + 1;
    }
    false
}

/// The listed pairs are pairs of the state, each once.
pub open spec fn pairs_ok(interface: Seq<(TermId, TermId)>, m: Map<TermId, TermId>) -> bool {
    &&& forall|n: int|
        0 <= n < interface.len() ==> m.contains_key((#[trigger] interface[n]).1)
            && m[interface[n].1] == interface[n].0
    &&& interface.no_duplicates()
}

/// What allocating the variable `r` for a foreign term does: the state learns
/// the pair, it is listed where it was not, and `r` is a variable of the sort.
pub open spec fn allocated(
    a: &PurifyState,
    listed: Seq<(TermId, TermId)>,
    foreign: TermId,
    sort: SortId,
    s: Seq<TermView>,
    b: &PurifyState,
    after: Seq<(TermId, TermId)>,
    r: TermId,
) -> bool {
    &&& b.wf(s)
    &&& learns(a, b)
    &&& r < s.len()
    &&& s[r as int].op == Op::Var
    &&& s[r as int].sort == sort
    &&& b.foreign_to_fresh@.contains_key(foreign)
    &&& b.foreign_to_fresh@[foreign] == r
    &&& pairs_ok(after, b.foreign_to_fresh@)
    &&& after == (if listed.contains((r, foreign)) {
        listed
    } else {
        listed.push((r, foreign))
    })
}

/// The variable of a foreign term, created where there is none yet.  The pair
/// is listed once, after those listed before.
pub fn allocate_fresh(
    foreign: TermId,
    sort: SortId,
    store: &mut TermStore,
    state: &mut PurifyState,
    interface: &mut Vec<(TermId, TermId)>,
) -> (r: TermId)
    requires
        old(store).wf(),
        old(state).wf(old(store).terms()),
        foreign < old(store).terms().len(),
        sort == old(store).terms()[foreign as int].sort,
        pairs_ok(old(interface)@, old(state).foreign_to_fresh@),
    ensures
        grew(old(store), final(store)),
        allocated(
            old(state),
            old(interface)@,
            foreign,
            sort,
            final(store).terms(),
            final(state),
            final(interface)@,
            r,
        ),
{
    let ghost m = state.foreign_to_fresh@;
    let ghost list = interface@;
    let ghost met = |x: TermId| m.contains_key(x) && list.contains((m[x], x));
    assert(interface_ok(interface@, m, met)) by {
        assert forall|n: int| 0 <= n < list.len() implies {
            let p = #[trigger] list[n];
            m.contains_key(p.1) && m[p.1] == p.0 && met(p.1)
        } by {
            assert(list.contains(list[n]));
        }
    }
    allocate(foreign, sort, store, state, interface, Ghost(met))
}

/// [`allocate_fresh`], with the foreign terms that were met.
fn allocate(
    foreign: TermId,
    sort: SortId,
    store: &mut TermStore,
    state: &mut PurifyState,
    interface: &mut Vec<(TermId, TermId)>,
    Ghost(met): Ghost<spec_fn(TermId) -> bool>,
) -> (r: TermId)
    requires
        old(store).wf(),
        old(state).wf(old(store).terms()),
        foreign < old(store).terms().len(),
        sort == old(store).terms()[foreign as int].sort,
        interface_ok(old(interface)@, old(state).foreign_to_fresh@, met),
    ensures
        grew(old(store), final(store)),
        final(state).wf(final(store).terms()),
        learns(old(state), final(state)),
        r < final(store).terms().len(),
        final(state).foreign_to_fresh@.contains_key(foreign),
        final(state).foreign_to_fresh@[foreign] == r,
        final(store).terms()[r as int].op == Op::Var,
        final(store).terms()[r as int].sort == sort,
        final(interface)@ == (if old(interface)@.contains((r, foreign)) {
            old(interface)@
        } else {
            old(interface)@.push((r, foreign))
        }),
        interface_ok(
            final(interface)@,
            final(state).foreign_to_fresh@,
            |x: TermId| met(x) || x == foreign,
        ),
{
    let ghost s0 = store.terms();
    let ghost m0 = state.foreign_to_fresh@;
    let ghost list0 = interface@;
    let ghost more = |x: TermId| met(x) || x == foreign;
    proof {
        state.lemma_wf_extend(s0, s0);
        assert(state.origins@.take(state.origins@.len() as int) =~= state.origins@);
    }
    if let Some(f) = map_get(&state.foreign_to_fresh, foreign) {
        let f: TermId = *f;
        proof {
            let n = choose|n: int| 0 <= n < state.origins@.len() && state.origins@[n] == foreign;
            assert(state.origins@.contains(foreign));
            assert(m0.contains_key(state.origins@[n]));
            assert(s0[f as int] == var_node(Symbol::Purified(n as usize), sort));
        }
        if has_pair(interface, f, foreign) {
            proof {
                let n = choose|n: int| 0 <= n < list0.len() && list0[n] == (f, foreign);
                assert(m0.contains_key(list0[n].1));
                lemma_interface_same(list0, m0, met, more);
            }
            return f;
        }
        interface.push((f, foreign));
        proof {
            lemma_interface_push(list0, m0, m0, met, foreign);
        }
        return f;
    }
    let n: usize = state.origins.len();
    let f = store.mk_var(Symbol::Purified(n), sort);
    let ghost s1 = store.terms();
    proof {
        state.lemma_wf_extend(s0, s1);
    }
    let ghost before = state.origins@;
    state.origins.push(foreign);
    map_insert(&mut state.foreign_to_fresh, foreign, f);
    interface.push((f, foreign));
    proof {
        let m1 = state.foreign_to_fresh@;
        let after = state.origins@;
        assert(!before.contains(foreign)) by {
            if before.contains(foreign) {
                let k = choose|k: int| 0 <= k < before.len() && before[k] == foreign;
                assert(m0.contains_key(before[k]));
            }
        }
        assert forall|k: int| 0 <= k < after.len() implies m1.contains_key(#[trigger] after[k])
            && after[k] < s1.len() && node_at(
            s1,
            m1[after[k]],
            var_node(Symbol::Purified(k as usize), s1[after[k] as int].sort),
        ) by {
            if k < before.len() {
                assert(before[k] != foreign) by {
                    assert(before.contains(before[k]));
                }
                assert(m0.contains_key(before[k]));
            } else {
                assert(s1[foreign as int] == s0[foreign as int]);
            }
        }
        assert forall|x: TermId| #[trigger] m1.contains_key(x) implies after.contains(x) by {
            if x == foreign {
                assert(after[before.len() as int] == x);
            } else {
                assert(before.contains(x));
                let k = choose|k: int| 0 <= k < before.len() && before[k] == x;
                assert(after[k] == x);
            }
        }
        assert(after.no_duplicates()) by {
            assert forall|j: int, k: int| 0 <= j < after.len() && 0 <= k < after.len() && j != k implies after[j]
                != after[k] by {
                if j < before.len() {
                    assert(before.contains(before[j]));
                }
                if k < before.len() {
                    assert(before.contains(before[k]));
                }
            }
        }
        assert(after.take(before.len() as int) =~= before);
        lemma_interface_push(list0, m0, m1, met, foreign);
        assert(!list0.contains((f, foreign))) by {
            if list0.contains((f, foreign)) {
                let k = choose|k: int| 0 <= k < list0.len() && list0[k] == (f, foreign);
                assert(m0.contains_key(list0[k].1));
            }
        }
    }
    f
}

proof fn lemma_continues_trans(
    a: Seq<(TermId, TermId)>,
    b: Seq<(TermId, TermId)>,
    c: Seq<(TermId, TermId)>,
)
    requires
        continues(a, b),
        continues(b, c),
    ensures
        continues(a, c),
{
    assert(c.take(a.len() as int) =~= c.take(b.len() as int).take(a.len() as int));
}

proof fn lemma_interface_push(
    list: Seq<(TermId, TermId)>,
    m0: Map<TermId, TermId>,
    m1: Map<TermId, TermId>,
    met: spec_fn(TermId) -> bool,
    x: TermId,
)
    requires
        interface_ok(list, m0, met),
        forall|y: TermId| #[trigger] m0.contains_key(y) ==> m1.contains_key(y) && m1[y] == m0[y],
        m1.contains_key(x),
        !list.contains((m1[x], x)),
    ensures
        interface_ok(list.push((m1[x], x)), m1, |y: TermId| met(y) || y == x),
{
    let after = list.push((m1[x], x));
    let more = |y: TermId| met(y) || y == x;
    assert forall|n: int| 0 <= n < after.len() implies {
        let p = #[trigger] after[n];
        m1.contains_key(p.1) && m1[p.1] == p.0 && more(p.1)
    } by {
        if n < list.len() {
            assert(after[n] == list[n]);
            assert(m0.contains_key(list[n].1));
        }
    }
    assert forall|y: TermId| #[trigger] more(y) implies m1.contains_key(y) && after.contains(
        (m1[y], y),
    ) by {
        if y == x {
            assert(after[list.len() as int] == (m1[x], x));
        } else {
            assert(met(y));
            assert(m0.contains_key(y));
            assert(list.contains((m0[y], y)));
            let n = choose|n: int| 0 <= n < list.len() && list[n] == (m0[y], y);
            assert(after[n] == (m1[y], y));
        }
    }
    assert forall|j: int, k: int| 0 <= j < after.len() && 0 <= k < after.len() && j != k implies after[j]
        != after[k] by {
        if j < list.len() && k < list.len() {
            assert(list[j] != list[k]);
        } else if j < list.len() {
            assert(list.contains(list[j]));
        } else {
            assert(list.contains(list[k]));
        }
    }
}

proof fn lemma_interface_same(
    list: Seq<(TermId, TermId)>,
    m: Map<TermId, TermId>,
    a: spec_fn(TermId) -> bool,
    b: spec_fn(TermId) -> bool,
)
    requires
        interface_ok(list, m, a),
        forall|x: TermId| #[trigger] a(x) == b(x),
    ensures
        interface_ok(list, m, b),
{
    assert forall|n: int| 0 <= n < list.len() implies {
        let p = #[trigger] list[n];
        m.contains_key(p.1) && m[p.1] == p.0 && b(p.1)
    } by {
        assert(a(list[n].1) == b(list[n].1));
    }
    assert forall|x: TermId| #[trigger] b(x) implies m.contains_key(x) && list.contains((m[x], x)) by {
        assert(a(x) == b(x));
    }
}

/// Foreign terms met below the arguments from the `m`-th up to the `n`-th.
spec fn meets_range(
    s: Seq<TermView>,
    sorts: Seq<SortKind>,
    t: TermId,
    under: bool,
    m: int,
    n: int,
    x: TermId,
) -> bool {
    exists|k: int|
        m <= k < n && (#[trigger] s[t as int].args[k]) < t && meets(
            s,
            sorts,
            s[t as int].args[k],
            if s[t as int].op == Op::Let {
                under
            } else {
                arith_position(s, t, under, k)
            },
            x,
        )
}

proof fn lemma_meets_extend(
    a: Seq<TermView>,
    b: Seq<TermView>,
    sorts: Seq<SortKind>,
    t: TermId,
    under: bool,
    x: TermId,
)
    requires
        terms_wf(a),
        extends(a, b),
        t < a.len(),
    ensures
        meets(a, sorts, t, under, x) == meets(b, sorts, t, under, x),
    decreases t,
{
    assert(node_below(a, t as int));
    assert(b[t as int] == a[t as int]);
    lemma_context_extend(a, b, sorts, t, under);
    let args = a[t as int].args;
    assert forall|k: int| 0 <= k < args.len() implies meets(
        a,
        sorts,
        #[trigger] args[k],
        arith_position(a, t, under, k),
        x,
    ) == meets(b, sorts, args[k], arith_position(b, t, under, k), x) && meets(
        a,
        sorts,
        args[k],
        under,
        x,
    ) == meets(b, sorts, args[k], under, x) by {
        lemma_meets_extend(a, b, sorts, args[k], arith_position(a, t, under, k), x);
        lemma_meets_extend(a, b, sorts, args[k], under, x);
        assert(arith_position(a, t, under, k) == arith_position(b, t, under, k));
    }
    if meets(a, sorts, t, under, x) && !foreign(a, t, under) {
        if a[t as int].op == Op::Let {
            let k = choose|k: int|
                0 <= k < args.len() && (#[trigger] args[k]) < t && meets(
                    a,
                    sorts,
                    args[k],
                    under,
                    x,
                );
            assert(meets(b, sorts, b[t as int].args[k], under, x));
        } else {
            let k = choose|k: int|
                0 <= k < args.len() && (#[trigger] args[k]) < t && meets(
                    a,
                    sorts,
                    args[k],
                    arith_position(a, t, under, k),
                    x,
                );
            assert(meets(b, sorts, b[t as int].args[k], arith_position(b, t, under, k), x));
        }
    }
    if meets(b, sorts, t, under, x) && !foreign(b, t, under) {
        if a[t as int].op == Op::Let {
            let k = choose|k: int|
                0 <= k < args.len() && (#[trigger] b[t as int].args[k]) < t && meets(
                    b,
                    sorts,
                    b[t as int].args[k],
                    under,
                    x,
                );
            assert(meets(a, sorts, args[k], under, x));
        } else {
            let k = choose|k: int|
                0 <= k < args.len() && (#[trigger] b[t as int].args[k]) < t && meets(
                    b,
                    sorts,
                    b[t as int].args[k],
                    arith_position(b, t, under, k),
                    x,
                );
            assert(meets(a, sorts, args[k], arith_position(a, t, under, k), x));
        }
    }
}

/// Whether an argument stands in an arithmetic context.
fn is_arith_position(store: &TermStore, t: TermId, under: bool, k: usize) -> (b: bool)
    requires
        store.wf(),
        t < store.terms().len(),
        k < store.terms()[t as int].args.len(),
    ensures
        b == arith_position(store.terms(), t, under, k as int),
{
    assert(node_below(store.terms(), t as int));
    let node = &store.nodes[t];
    assert(node@ == store.terms()[t as int]);
    match node.op {
        Op::Neg | Op::Add | Op::Mul | Op::Sub | Op::Div | Op::Mod | Op::Lt | Op::Le | Op::Gt
        | Op::Ge => true,
        Op::Ite => k > 0 && (under || is_numeric_sort(node.sort)),
        Op::Eq => is_numeric_sort(store.nodes[node.args[0]].sort) || is_numeric_sort(
            store.nodes[node.args[1]].sort,
        ),
        Op::Distinct => is_numeric_sort(store.nodes[node.args[k]].sort),
        _ => false,
    }
}

fn does_descend(store: &TermStore, t: TermId) -> (b: bool)
    requires
        store.wf(),
        t < store.terms().len(),
    ensures
        b == descends(store.terms(), store.sorts@, t),
{
    assert(node_below(store.terms(), t as int));
    let node = &store.nodes[t];
    assert(node@ == store.terms()[t as int]);
    match node.op {
        Op::Neg | Op::Add | Op::Mul | Op::Sub | Op::Div | Op::Mod | Op::Ite | Op::Lt | Op::Le
        | Op::Gt | Op::Ge | Op::Not | Op::And | Op::Or | Op::Xor | Op::Implies | Op::Distinct => true,
        Op::Eq => !is_array_sort(store, store.nodes[node.args[0]].sort) && !is_array_sort(
            store,
            store.nodes[node.args[1]].sort,
        ),
        _ => false,
    }
}

/// A term with other arguments of the same sorts.
fn rebuild(store: &mut TermStore, t: TermId, args: Vec<TermId>) -> (r: TermId)
    requires
        old(store).wf(),
        t < old(store).terms().len(),
        args@.len() == old(store).terms()[t as int].args.len(),
        forall|k: int|
            0 <= k < args@.len() ==> (#[trigger] args@[k]) < old(store).terms().len()
                && old(store).terms()[args@[k] as int].sort
                == old(store).terms()[old(store).terms()[t as int].args[k] as int].sort,
    ensures
        grew(old(store), final(store)),
        r < final(store).terms().len(),
        rebuilt(final(store).terms(), t, args@, r),
{
    let ghost s0 = store.terms();
    assert(node_below(s0, t as int));
    if same_ids(&args, &store.nodes[t].args) {
        return t;
    }
    let op = store.nodes[t].op;
    if op == Op::Eq {
        let r = store.mk_eq(args[0], args[1]);
        assert(store.terms()[t as int] == s0[t as int]);
        return r;
    }
    let sort = store.nodes[t].sort;
    let data = store.nodes[t].data.duplicate();
    proof {
        assert(args@.len() > 0) by {
            if args@.len() == 0 {
                assert(args@ =~= s0[t as int].args);
            }
        }
        let node = TermView { op, args: args@, data: data@, sort };
        assert(sorts_ok(s0, node));
        assert(node_ok(s0, node));
    }
    let r = store.intern(op, args, data, sort);
    assert(store.terms()[t as int] == s0[t as int]);
    r
}

proof fn lemma_meets_next(
    s: Seq<TermView>,
    sorts: Seq<SortKind>,
    t: TermId,
    under: bool,
    m: int,
    n: int,
    x: TermId,
)
    requires
        terms_wf(s),
        t < s.len(),
        0 <= m <= n < s[t as int].args.len(),
    ensures
        meets_range(s, sorts, t, under, m, n + 1, x) == (meets_range(s, sorts, t, under, m, n, x)
            || meets(
            s,
            sorts,
            s[t as int].args[n],
            if s[t as int].op == Op::Let {
                under
            } else {
                arith_position(s, t, under, n)
            },
            x,
        )),
{
    assert(node_below(s, t as int));
    let args = s[t as int].args;
    assert(args[n] < t);
    if meets_range(s, sorts, t, under, m, n, x) {
        let k = choose|k: int|
            m <= k < n && (#[trigger] args[k]) < t && meets(
                s,
                sorts,
                args[k],
                if s[t as int].op == Op::Let {
                    under
                } else {
                    arith_position(s, t, under, k)
                },
                x,
            );
        assert(m <= k < n + 1 && args[k] < t);
    }
    if meets_range(s, sorts, t, under, m, n + 1, x) {
        let k = choose|k: int|
            m <= k < n + 1 && (#[trigger] args[k]) < t && meets(
                s,
                sorts,
                args[k],
                if s[t as int].op == Op::Let {
                    under
                } else {
                    arith_position(s, t, under, k)
                },
                x,
            );
        if k < n {
            assert(m <= k < n && args[k] < t);
        }
    }
}

/// Purifies a term in or outside an arithmetic context.
#[verifier::rlimit(60)]
fn purify_rec(
    term: TermId,
    store: &mut TermStore,
    state: &mut PurifyState,
    interface: &mut Vec<(TermId, TermId)>,
    under: bool,
    Ghost(met): Ghost<spec_fn(TermId) -> bool>,
) -> (r: TermId)
    requires
        old(store).wf(),
        old(state).wf(old(store).terms()),
        term < old(store).terms().len(),
        interface_ok(old(interface)@, old(state).foreign_to_fresh@, met),
    ensures
        grew(old(store), final(store)),
        final(state).wf(final(store).terms()),
        learns(old(state), final(state)),
        r < final(store).terms().len(),
        purified(
            final(store).terms(),
            final(store).sorts@,
            final(state).foreign_to_fresh@,
            term,
            under,
            r,
        ),
        interface_ok(
            final(interface)@,
            final(state).foreign_to_fresh@,
            |x: TermId| met(x) || meets(old(store).terms(), old(store).sorts@, term, under, x),
        ),
        continues(old(interface)@, final(interface)@),
    decreases term,
{
    let ghost s0 = store.terms();
    let ghost sorts = store.sorts@;
    let ghost more = |x: TermId| met(x) || meets(s0, sorts, term, under, x);
    assert(node_below(s0, term as int));
    assert(interface@.take(interface@.len() as int) =~= interface@);
    let op = store.nodes[term].op;
    let sort = store.nodes[term].sort;
    if under && is_numeric_sort(sort) && !is_arith_constructor(op) {
        let ghost list0 = interface@;
        let r = allocate(term, sort, store, state, interface, Ghost(met));
        proof {
            assert(interface@.take(list0.len() as int) =~= list0);
            lemma_context_extend(s0, store.terms(), sorts, term, under);
            let a = |x: TermId| met(x) || x == term;
            assert forall|x: TermId| #[trigger] a(x) == more(x) by {}
            lemma_interface_same(interface@, state.foreign_to_fresh@, a, more);
        }
        return r;
    }
    let is_let = op == Op::Let;
    if !is_let && !does_descend(store, term) {
        proof {
            assert(state.origins@.take(state.origins@.len() as int) =~= state.origins@);
            assert forall|x: TermId| #[trigger] met(x) == more(x) by {}
            lemma_interface_same(interface@, state.foreign_to_fresh@, met, more);
        }
        return term;
    }
    let args = copy_words(&store.nodes[term].args);
    assert(args@ == s0[term as int].args);
    let first: usize = if is_let { 1 } else { 0 };
    let mut images: Vec<TermId> = Vec::new();
    let mut k: usize = first;
    proof {
        assert(state.origins@.take(state.origins@.len() as int) =~= state.origins@);
        let now = |x: TermId| met(x) || meets_range(s0, sorts, term, under, first as int, k as int, x);
        assert forall|x: TermId| #[trigger] met(x) == now(x) by {}
        lemma_interface_same(interface@, state.foreign_to_fresh@, met, now);
    }
    while k < args.len()
        invariant
            first <= k <= args.len(),
            first == (if is_let { 1int } else { 0int }),
            is_let == (s0[term as int].op == Op::Let),
            s0 == old(store).terms(),
            sorts == old(store).sorts@,
            terms_wf(s0),
            term < s0.len(),
            node_below(s0, term as int),
            args@ == s0[term as int].args,
            grew(old(store), store),
            state.wf(store.terms()),
            learns(old(state), state),
            images@.len() == k - first,
            continues(old(interface)@, interface@),
            forall|j: int|
                0 <= j < images@.len() ==> (#[trigger] images@[j]) < store.terms().len()
                    && purified(
                    store.terms(),
                    sorts,
                    state.foreign_to_fresh@,
                    args@[j + first],
                    if is_let {
                        under
                    } else {
                        arith_position(s0, term, under, j + first)
                    },
                    images@[j],
                ),
            interface_ok(
                interface@,
                state.foreign_to_fresh@,
                |x: TermId|
                    met(x) || meets_range(s0, sorts, term, under, first as int, k as int, x),
            ),
        decreases args.len() - k,
    {
        let ghost s1 = store.terms();
        let ghost st1 = *state;
        let ghost list1 = interface@;
        let ghost now = |x: TermId|
            met(x) || meets_range(s0, sorts, term, under, first as int, k as int, x);
        proof {
            lemma_context_extend(s0, s1, sorts, term, under);
            assert(s1[term as int] == s0[term as int]);
        }
        let ctx = if is_let {
            under
        } else {
            is_arith_position(store, term, under, k)
        };
        let a: TermId = args[k];
        assert(a == s0[term as int].args[k as int]);
        let image = purify_rec(a, store, state, interface, ctx, Ghost(now));
        proof {
            let s2 = store.terms();
            lemma_learns_trans(old(state), &st1, state);
            lemma_continues_trans(old(interface)@, list1, interface@);
            assert forall|j: int| 0 <= j < images@.len() implies (#[trigger] images@[j]) < s2.len()
                && purified(
                s2,
                sorts,
                state.foreign_to_fresh@,
                args@[j + first],
                if is_let {
                    under
                } else {
                    arith_position(s0, term, under, j + first)
                },
                images@[j],
            ) by {
                lemma_purified_extend(
                    s1,
                    s2,
                    sorts,
                    st1.foreign_to_fresh@,
                    state.foreign_to_fresh@,
                    args@[j + first],
                    if is_let {
                        under
                    } else {
                        arith_position(s0, term, under, j + first)
                    },
                    images@[j],
                );
            }
            let joined = |x: TermId| now(x) || meets(s1, sorts, a, ctx, x);
            let next = |x: TermId|
                met(x) || meets_range(s0, sorts, term, under, first as int, k + 1, x);
            assert forall|x: TermId| #[trigger] joined(x) == next(x) by {
                lemma_meets_next(s0, sorts, term, under, first as int, k as int, x);
                lemma_meets_extend(s0, s1, sorts, a, ctx, x);
            }
            lemma_interface_same(interface@, state.foreign_to_fresh@, joined, next);
        }
        images.push(image);
        k = k + 1;
    }
    let ghost s1 = store.terms();
    let ghost st1 = *state;
    if is_let {
        let ghost now = |x: TermId|
            met(x) || meets_range(s0, sorts, term, under, 1, args@.len() as int, x);
        let ghost list1 = interface@;
        let body: TermId = args[0];
        let r = purify_rec(body, store, state, interface, under, Ghost(now));
        proof {
            let s2 = store.terms();
            lemma_learns_trans(old(state), &st1, state);
            lemma_continues_trans(old(interface)@, list1, interface@);
            assert(s2[term as int] == s0[term as int]);
            lemma_context_extend(s0, s2, sorts, term, under);
            let joined = |x: TermId| now(x) || meets(s1, sorts, body, under, x);
            assert forall|x: TermId| #[trigger] joined(x) == more(x) by {
                lemma_meets_extend(s0, s1, sorts, body, under, x);
                lemma_meets_let(s0, sorts, term, under, x);
            }
            lemma_interface_same(interface@, state.foreign_to_fresh@, joined, more);
        }
        return r;
    }
    proof {
        state.lemma_wf_extend(s1, s1);
        assert(s1[term as int] == s0[term as int]);
        assert forall|j: int| 0 <= j < images@.len() implies (#[trigger] images@[j]) < s1.len()
            && s1[images@[j] as int].sort == s1[s1[term as int].args[j] as int].sort by {
            lemma_purified_sort(
                s1,
                sorts,
                state.foreign_to_fresh@,
                args@[j],
                arith_position(s0, term, under, j),
                images@[j],
            );
        }
    }
    let r = rebuild(store, term, images);
    proof {
        let s2 = store.terms();
        let m = state.foreign_to_fresh@;
        state.lemma_wf_extend(s1, s2);
        assert(s2[term as int] == s0[term as int]);
        lemma_context_extend(s0, s2, sorts, term, under);
        assert forall|j: int| 0 <= j < images@.len() implies (#[trigger] images@[j]) < s2.len()
            && s2[term as int].args[j] < term && purified(
            s2,
            sorts,
            m,
            s2[term as int].args[j],
            arith_position(s2, term, under, j),
            images@[j],
        ) by {
            assert(arith_position(s0, term, under, j) == arith_position(s2, term, under, j));
            lemma_purified_extend(
                s1,
                s2,
                sorts,
                m,
                m,
                args@[j],
                arith_position(s0, term, under, j),
                images@[j],
            );
        }
        assert(rebuilt(s2, term, images@, r));
        assert(purified(s2, sorts, m, term, under, r));
        let now = |x: TermId| met(x) || meets_range(s0, sorts, term, under, 0, args@.len() as int, x);
        assert forall|x: TermId| #[trigger] now(x) == more(x) by {
            lemma_meets_all(s0, sorts, term, under, x);
        }
        lemma_interface_same(interface@, m, now, more);
    }
    r
}

proof fn lemma_meets_let(
    s: Seq<TermView>,
    sorts: Seq<SortKind>,
    t: TermId,
    under: bool,
    x: TermId,
)
    requires
        terms_wf(s),
        t < s.len(),
        s[t as int].op == Op::Let,
        !foreign(s, t, under),
    ensures
        meets(s, sorts, t, under, x) == (meets_range(
            s,
            sorts,
            t,
            under,
            1,
            s[t as int].args.len() as int,
            x,
        ) || meets(s, sorts, s[t as int].args[0], under, x)),
{
    assert(node_below(s, t as int));
    let args = s[t as int].args;
    assert(args[0] < t);
    if meets(s, sorts, t, under, x) {
        let k = choose|k: int|
            0 <= k < args.len() && (#[trigger] args[k]) < t && meets(s, sorts, args[k], under, x);
        if k > 0 {
            assert(1 <= k < args.len() && args[k] < t);
        }
    }
    if meets_range(s, sorts, t, under, 1, args.len() as int, x) {
        let k = choose|k: int|
            1 <= k < args.len() && (#[trigger] args[k]) < t && meets(s, sorts, args[k], under, x);
        assert(0 <= k < args.len() && args[k] < t);
    }
}

proof fn lemma_meets_all(
    s: Seq<TermView>,
    sorts: Seq<SortKind>,
    t: TermId,
    under: bool,
    x: TermId,
)
    requires
        terms_wf(s),
        t < s.len(),
        s[t as int].op != Op::Let,
        descends(s, sorts, t),
        !foreign(s, t, under),
    ensures
        meets(s, sorts, t, under, x) == meets_range(
            s,
            sorts,
            t,
            under,
            0,
            s[t as int].args.len() as int,
            x,
        ),
{
    let args = s[t as int].args;
    if meets(s, sorts, t, under, x) {
        let k = choose|k: int|
            0 <= k < args.len() && (#[trigger] args[k]) < t && meets(
                s,
                sorts,
                args[k],
                arith_position(s, t, under, k),
                x,
            );
        assert(0 <= k < args.len() && args[k] < t);
    }
}

/// Result of purifying one assertion.
pub struct PurifyResult {
    /// The assertion with pure arithmetic, and the interface equations beside
    /// it.
    pub term: TermId,
    /// The fresh variables with the foreign terms they stand for.
    pub interface: Vec<(TermId, TermId)>,
}

/// `r` is the purified assertion `image` with the interface equations conjoined
/// to it; alone where there are none.
pub open spec fn with_interface(
    s: Seq<TermView>,
    image: TermId,
    interface: Seq<(TermId, TermId)>,
    r: TermId,
) -> bool {
    if interface.len() == 0 {
        r == image
    } else {
        let parts = s[r as int].args;
        &&& node_at(s, r, plain_node(Op::And, parts, BOOL_SORT))
        &&& parts.len() == 1 + interface.len()
        &&& parts[0] == image
        &&& forall|n: int|
            0 <= n < interface.len() ==> is_equation(
                s,
                (#[trigger] interface[n]).0,
                interface[n].1,
                parts[1 + n],
            )
    }
}

/// What purifying the assertion `term` gives.
pub open spec fn assertion_purified(
    s: Seq<TermView>,
    sorts: Seq<SortKind>,
    m: Map<TermId, TermId>,
    term: TermId,
    result: TermId,
    interface: Seq<(TermId, TermId)>,
) -> bool {
    &&& interface_ok(interface, m, |x: TermId| meets(s, sorts, term, false, x))
    &&& exists|image: TermId| #[trigger]
        purified(s, sorts, m, term, false, image) && image < s.len() && with_interface(
            s,
            image,
            interface,
            result,
        )
}

/// Purifies an assertion.
pub fn purify_assertion(term: TermId, store: &mut TermStore, state: &mut PurifyState) -> (r:
    PurifyResult)
    requires
        old(store).wf(),
        old(state).wf(old(store).terms()),
        term < old(store).terms().len(),
    ensures
        grew(old(store), final(store)),
        final(state).wf(final(store).terms()),
        learns(old(state), final(state)),
        r.term < final(store).terms().len(),
        assertion_purified(
            final(store).terms(),
            final(store).sorts@,
            final(state).foreign_to_fresh@,
            term,
            r.term,
            r.interface@,
        ),
{
    let ghost s0 = store.terms();
    let ghost sorts = store.sorts@;
    let ghost nothing = |x: TermId| false;
    let mut interface: Vec<(TermId, TermId)> = Vec::new();
    let image = purify_rec(term, store, state, &mut interface, false, Ghost(nothing));
    let ghost s1 = store.terms();
    let ghost m = state.foreign_to_fresh@;
    if interface.len() == 0 {
        proof {
            lemma_interface_final(s0, s1, sorts, m, term, interface@, nothing);
        }
        return PurifyResult { term: image, interface };
    }
    let mut parts: Vec<TermId> = Vec::new();
    parts.push(image);
    let mut n: usize = 0;
    proof {
        state.lemma_wf_extend(s1, s1);
    }
    while n < interface.len()
        invariant
            n <= interface.len(),
            grew(old(store), store),
            extends(s1, store.terms()),
            terms_wf(s1),
            map_ok(s1, m),
            image < s1.len(),
            interface_ok(
                interface@,
                m,
                |x: TermId| nothing(x) || meets(s0, sorts, term, false, x),
            ),
            parts@.len() == n + 1,
            parts@[0] == image,
            forall|j: int| 0 <= j < parts@.len() ==> (#[trigger] parts@[j]) < store.terms().len(),
            forall|j: int|
                0 <= j < n ==> is_equation(
                    store.terms(),
                    (#[trigger] interface@[j]).0,
                    interface@[j].1,
                    parts@[1 + j],
                ),
        decreases interface.len() - n,
    {
        let (fresh, orig) = interface[n];
        let ghost s2 = store.terms();
        let ghost before = parts@;
        proof {
            assert(m.contains_key(interface@[n as int].1));
            assert(s2[fresh as int] == s1[fresh as int]);
            assert(s2[orig as int] == s1[orig as int]);
        }
        let eq = store.mk_eq(fresh, orig);
        parts.push(eq);
        proof {
            let s3 = store.terms();
            assert forall|j: int| 0 <= j < n + 1 implies is_equation(
                s3,
                (#[trigger] interface@[j]).0,
                interface@[j].1,
                parts@[1 + j],
            ) by {
                if j < n {
                    assert(is_equation(s2, interface@[j].0, interface@[j].1, before[1 + j]));
                    assert(s3[before[1 + j] as int] == s2[before[1 + j] as int]);
                }
            }
        }
        n = n + 1;
    }
    let ghost s4 = store.terms();
    let r = store.mk_and(parts);
    proof {
        let s5 = store.terms();
        state.lemma_wf_extend(s1, s5);
        lemma_purified_extend(s1, s5, sorts, m, m, term, false, image);
        lemma_interface_final(s0, s5, sorts, m, term, interface@, nothing);
        assert(s5[r as int] == plain_node(Op::And, parts@, BOOL_SORT));
        assert forall|j: int| 0 <= j < interface@.len() implies is_equation(
            s5,
            (#[trigger] interface@[j]).0,
            interface@[j].1,
            parts@[1 + j],
        ) by {
            assert(is_equation(s4, interface@[j].0, interface@[j].1, parts@[1 + j]));
            assert(s5[parts@[1 + j] as int] == s4[parts@[1 + j] as int]);
        }
        assert(with_interface(s5, image, interface@, r));
    }
    PurifyResult { term: r, interface }
}

proof fn lemma_interface_final(
    s0: Seq<TermView>,
    s: Seq<TermView>,
    sorts: Seq<SortKind>,
    m: Map<TermId, TermId>,
    term: TermId,
    interface: Seq<(TermId, TermId)>,
    nothing: spec_fn(TermId) -> bool,
)
    requires
        terms_wf(s0),
        extends(s0, s),
        term < s0.len(),
        forall|x: TermId| !(#[trigger] nothing(x)),
        interface_ok(interface, m, |x: TermId| nothing(x) || meets(s0, sorts, term, false, x)),
    ensures
        interface_ok(interface, m, |x: TermId| meets(s, sorts, term, false, x)),
{
    let a = |x: TermId| nothing(x) || meets(s0, sorts, term, false, x);
    let b = |x: TermId| meets(s, sorts, term, false, x);
    assert forall|x: TermId| #[trigger] a(x) == b(x) by {
        lemma_meets_extend(s0, s, sorts, term, false, x);
    }
    lemma_interface_same(interface, m, a, b);
}

/// Purified terms have the values of the terms they came from, where the fresh
/// variables have the values of the foreign terms.
proof fn lemma_purified_eval(
    s: Seq<TermView>,
    sorts: Seq<SortKind>,
    i: Interp,
    m: Map<TermId, TermId>,
    t: TermId,
    under: bool,
    r: TermId,
)
    requires
        terms_wf(s),
        map_ok(s, m),
        t < s.len(),
        r < s.len(),
        purified(s, sorts, m, t, under, r),
        forall|k: TermId| #[trigger]
            meets(s, sorts, t, under, k) ==> eval(s, i, k as int) == eval(s, i, m[k] as int),
    ensures
        eval(s, i, t as int) == eval(s, i, r as int),
    decreases t,
{
    assert(node_below(s, t as int));
    let node = s[t as int];
    if foreign(s, t, under) {
        assert(meets(s, sorts, t, under, t));
    } else if node.op == Op::Let {
        let body = node.args[0];
        assert forall|k: TermId| #[trigger] meets(s, sorts, body, under, k) implies eval(
            s,
            i,
            k as int,
        ) == eval(s, i, m[k] as int) by {
            lemma_meets_let(s, sorts, t, under, k);
            assert(meets(s, sorts, t, under, k));
        }
        lemma_purified_eval(s, sorts, i, m, body, under, r);
        lemma_eval(s, i, t);
        assert(eval_args(s, i, node.args)[0] == eval(s, i, body as int));
    } else if descends(s, sorts, t) {
        let args = choose|args: Seq<TermId>| #[trigger]
            rebuilt(s, t, args, r) && args.len() == node.args.len() && forall|k: int|
                0 <= k < args.len() ==> (#[trigger] args[k]) < s.len() && node.args[k] < t
                    && purified(
                    s,
                    sorts,
                    m,
                    node.args[k],
                    arith_position(s, t, under, k),
                    args[k],
                );
        assert forall|k: int| 0 <= k < args.len() implies eval(s, i, node.args[k] as int) == eval(
            s,
            i,
            #[trigger] args[k] as int,
        ) && s[node.args[k] as int].sort == s[args[k] as int].sort by {
            let ctx = arith_position(s, t, under, k);
            assert forall|x: TermId| #[trigger] meets(s, sorts, node.args[k], ctx, x) implies eval(
                s,
                i,
                x as int,
            ) == eval(s, i, m[x] as int) by {
                assert(meets(s, sorts, t, under, x));
            }
            lemma_purified_eval(s, sorts, i, m, node.args[k], ctx, args[k]);
            lemma_purified_sort(s, sorts, m, node.args[k], ctx, args[k]);
        }
        lemma_eval(s, i, t);
        let vals = eval_args(s, i, node.args);
        assert(vals =~= eval_args(s, i, args));
        if args != node.args {
            if node.op == Op::Eq {
                lemma_eq_holds(s, args[0], args[1], r);
                assert(holds(s, i, r) == eqv(
                    s[args[0] as int].sort,
                    eval(s, i, args[0] as int),
                    eval(s, i, args[1] as int),
                ));
                assert(vals[0] == eval(s, i, args[0] as int));
                assert(vals[1] == eval(s, i, args[1] as int));
                lemma_eval(s, i, r);
            } else {
                lemma_eval(s, i, r);
                assert(arg_sorts(s, node) =~= arg_sorts(s, s[r as int]));
                lemma_same_head(i, node, s[r as int], arg_sorts(s, node), vals);
            }
        }
    }
}

proof fn lemma_same_head(
    i: Interp,
    a: TermView,
    b: TermView,
    ss: Seq<SortId>,
    vals: Seq<Value>,
)
    requires
        a.op == b.op,
        a.data == b.data,
        a.sort == b.sort,
    ensures
        op_value(i, a, ss, vals) == op_value(i, b, ss, vals),
{
}

/// Purification adds no solutions: a well-sorted interpretation that satisfies
/// the purified assertion satisfies the assertion.
pub proof fn purification_is_sound(
    s: Seq<TermView>,
    sorts: Seq<SortKind>,
    i: Interp,
    m: Map<TermId, TermId>,
    term: TermId,
    result: TermId,
    interface: Seq<(TermId, TermId)>,
)
    requires
        terms_wf(s),
        map_ok(s, m),
        term < s.len(),
        well_sorted(s, i),
        assertion_purified(s, sorts, m, term, result, interface),
        holds(s, i, result),
    ensures
        holds(s, i, term),
{
    let image = choose|image: TermId| #[trigger]
        purified(s, sorts, m, term, false, image) && image < s.len() && with_interface(
            s,
            image,
            interface,
            result,
        );
    let met = |x: TermId| meets(s, sorts, term, false, x);
    if interface.len() > 0 {
        lemma_and_holds(s, i, result, s[result as int].args);
        assert(holds(s, i, s[result as int].args[0]));
    }
    assert forall|k: TermId| #[trigger] meets(s, sorts, term, false, k) implies eval(s, i, k as int)
        == eval(s, i, m[k] as int) by {
        assert(met(k));
        assert(interface.contains((m[k], k)));
        let n = choose|n: int| 0 <= n < interface.len() && interface[n] == (m[k], k);
        let parts = s[result as int].args;
        assert(is_equation(s, interface[n].0, interface[n].1, parts[1 + n]));
        lemma_eq_holds(s, m[k], k, parts[1 + n]);
        assert(holds(s, i, parts[1 + n]));
        lemma_eqv_equal(s, i, m[k], k);
    }
    lemma_purified_eval(s, sorts, i, m, term, false, image);
}

/// The interpretation that gives each fresh variable the value of its foreign
/// term in `i`.
pub open spec fn interface_interp(s: Seq<TermView>, i: Interp, origins: Seq<TermId>) -> Interp {
    Interp {
        var: |sym: Symbol, sort: SortId|
            match sym {
                Symbol::Purified(n) => if n < origins.len() {
                    eval(s, i, origins[n as int] as int)
                } else {
                    (i.var)(sym, sort)
                },
                _ => (i.var)(sym, sort),
            },
        fun: i.fun,
        opaque: i.opaque,
    }
}

/// Purification keeps satisfiability: an interpretation of the assertion,
/// extended to the fresh variables by the values of the foreign terms, gives
/// the purified assertion the value that the assertion has.
pub proof fn purification_preserves_models(
    s0: Seq<TermView>,
    s: Seq<TermView>,
    sorts: Seq<SortKind>,
    i: Interp,
    state: &PurifyState,
    term: TermId,
    result: TermId,
    interface: Seq<(TermId, TermId)>,
)
    requires
        terms_wf(s0),
        terms_wf(s),
        extends(s0, s),
        term < s0.len(),
        state.wf(s),
        forall|n: int|
            0 <= n < state.origins@.len() ==> (#[trigger] state.origins@[n]) < s0.len() && avoids(
                s0,
                |sym: Symbol| sym is Purified,
                state.origins@[n],
            ),
        avoids(s0, |sym: Symbol| sym is Purified, term),
        assertion_purified(s, sorts, state.foreign_to_fresh@, term, result, interface),
    ensures
        holds(s, interface_interp(s0, i, state.origins@), result) == holds(s0, i, term),
{
    let m = state.foreign_to_fresh@;
    let origins = state.origins@;
    let d = interface_interp(s0, i, origins);
    let fresh = |sym: Symbol| sym is Purified;
    state.lemma_wf_extend(s, s);
    assert forall|k: TermId| #[trigger] m.contains_key(k) implies eval(s, d, k as int) == eval(
        s,
        d,
        m[k] as int,
    ) by {
        assert(origins.contains(k));
        let n = choose|n: int| 0 <= n < origins.len() && origins[n] == k;
        assert(m.contains_key(origins[n]));
        assert(n < state.origins.len() <= usize::MAX);
        lemma_avoids(s0, fresh, i, d, k);
        lemma_extend(s0, s, d, k);
        lemma_eval(s, d, m[k]);
    }
    let image = choose|image: TermId| #[trigger]
        purified(s, sorts, m, term, false, image) && image < s.len() && with_interface(
            s,
            image,
            interface,
            result,
        );
    let met = |x: TermId| meets(s, sorts, term, false, x);
    assert forall|k: TermId| #[trigger] meets(s, sorts, term, false, k) implies eval(s, d, k as int)
        == eval(s, d, m[k] as int) by {
        assert(met(k));
    }
    lemma_purified_eval(s, sorts, d, m, term, false, image);
    lemma_avoids(s0, fresh, i, d, term);
    lemma_extend(s0, s, d, term);
    if interface.len() > 0 {
        let parts = s[result as int].args;
        lemma_and_holds(s, d, result, parts);
        if holds(s0, i, term) {
            assert forall|n: int| 0 <= n < parts.len() implies holds(s, d, #[trigger] parts[n]) by {
                if n > 0 {
                    let p = interface[n - 1];
                    assert(m.contains_key(p.1) && m[p.1] == p.0);
                    assert(is_equation(s, interface[n - 1].0, interface[n - 1].1, parts[1 + (n - 1)]));
                    lemma_eq_holds(s, p.0, p.1, parts[n]);
                }
            }
        } else {
            assert(!holds(s, d, parts[0]));
        }
    }
}

/// After purification every arithmetic context of the assertion is pure.
pub proof fn purification_is_complete(
    s: Seq<TermView>,
    sorts: Seq<SortKind>,
    m: Map<TermId, TermId>,
    t: TermId,
    under: bool,
    r: TermId,
)
    requires
        terms_wf(s),
        map_ok(s, m),
        forall|k: TermId| #[trigger] m.contains_key(k) ==> s[m[k] as int].op == Op::Var,
        t < s.len(),
        r < s.len(),
        purified(s, sorts, m, t, under, r),
    ensures
        pure_arith(s, sorts, r, under),
    decreases t,
{
    assert(node_below(s, t as int));
    let node = s[t as int];
    if foreign(s, t, under) {
    } else if node.op == Op::Let {
        purification_is_complete(s, sorts, m, node.args[0], under, r);
    } else if descends(s, sorts, t) {
        let args = choose|args: Seq<TermId>| #[trigger]
            rebuilt(s, t, args, r) && args.len() == node.args.len() && forall|k: int|
                0 <= k < args.len() ==> (#[trigger] args[k]) < s.len() && node.args[k] < t
                    && purified(
                    s,
                    sorts,
                    m,
                    node.args[k],
                    arith_position(s, t, under, k),
                    args[k],
                );
        assert(node_below(s, r as int));
        lemma_purified_sort(s, sorts, m, t, under, r);
        assert forall|k: int| 0 <= k < args.len() implies pure_arith(
            s,
            sorts,
            #[trigger] args[k],
            arith_position(s, t, under, k),
        ) && s[args[k] as int].sort == s[node.args[k] as int].sort by {
            purification_is_complete(
                s,
                sorts,
                m,
                node.args[k],
                arith_position(s, t, under, k),
                args[k],
            );
            lemma_purified_sort(
                s,
                sorts,
                m,
                node.args[k],
                arith_position(s, t, under, k),
                args[k],
            );
        }
        if s[r as int].op != Op::True {
            assert(s[r as int].args =~= args);
            assert forall|k: int| 0 <= k < args.len() implies arith_position(s, r, under, k)
                == arith_position(s, t, under, k) && pure_arith(
                s,
                sorts,
                #[trigger] s[r as int].args[k],
                arith_position(s, r, under, k),
            ) by {
                assert(s[args[k] as int].sort == s[node.args[k] as int].sort);
                if node.op == Op::Eq {
                    assert(s[args[0] as int].sort == s[node.args[0] as int].sort);
                    assert(s[args[1] as int].sort == s[node.args[1] as int].sort);
                }
                assert(pure_arith(s, sorts, args[k], arith_position(s, t, under, k)));
            }
        }
    }
}

/// The assertion states equations of arrays only.
pub open spec fn array_structural(s: Seq<TermView>, sorts: Seq<SortKind>, t: TermId) -> bool
    decreases t,
{
    let node = s[t as int];
    match node.op {
        Op::Eq => array_sort(sorts, s[node.args[0] as int].sort) || array_sort(
            sorts,
            s[node.args[1] as int].sort,
        ),
        Op::And => forall|k: int|
            0 <= k < node.args.len() && node.args[k] < t ==> array_structural(
                s,
                sorts,
                #[trigger] node.args[k],
            ),
        _ => false,
    }
}

/// Whether an assertion states equations of arrays only.
pub fn is_array_structural_assertion(term: TermId, store: &TermStore) -> (b: bool)
    requires
        store.wf(),
    ensures
        b == (term < store.terms().len() && array_structural(store.terms(), store.sorts@, term)),
    decreases term,
{
    let node = match store.get(term) {
        None => {
            return false;
        },
        Some(node) => node,
    };
    assert(node_below(store.terms(), term as int));
    match node.op {
        Op::Eq => is_array_sort(store, store.nodes[node.args[0]].sort) || is_array_sort(
            store,
            store.nodes[node.args[1]].sort,
        ),
        Op::And => {
            let mut k: usize = 0;
            while k < node.args.len()
                invariant
                    k <= node.args.len(),
                    store.wf(),
                    term < store.terms().len(),
                    node@ == store.terms()[term as int],
                    node_below(store.terms(), term as int),
                    store.terms()[term as int].op == Op::And,
                    forall|j: int|
                        0 <= j < k ==> array_structural(
                            store.terms(),
                            store.sorts@,
                            #[trigger] node.args@[j],
                        ),
                decreases node.args.len() - k,
            {
                assert(store.terms()[term as int].args[k as int] < term);
                if !is_array_structural_assertion(node.args[k], store) {
                    return false;
                }
                k = k + 1;
            }
            true
        },
        _ => false,
    }
}

pub open spec fn var_like(s: Seq<TermView>, t: TermId) -> bool {
    t < s.len() && s[t as int].op == Op::Var
}

fn is_var_like(store: &TermStore, t: TermId) -> (b: bool)
    ensures
        b == var_like(store.terms(), t),
{
    match store.get(t) {
        Some(node) => node.op == Op::Var,
        None => false,
    }
}

/// A numeric term that is no arithmetic term.
pub open spec fn foreign_numeric(s: Seq<TermView>, t: TermId) -> bool {
    t < s.len() && numeric_sort(s[t as int].sort) && !arith_constructor(s[t as int].op)
}

fn is_foreign_numeric(store: &TermStore, t: TermId) -> (b: bool)
    ensures
        b == foreign_numeric(store.terms(), t),
{
    match store.get(t) {
        Some(node) => is_numeric_sort(node.sort) && !is_arith_constructor(node.op),
        None => false,
    }
}

/// Whether a formula equates a variable with a foreign numeric term.
pub fn is_interface_equality(term: TermId, store: &TermStore) -> (b: bool)
    requires
        store.wf(),
    ensures
        b == ({
            let s = store.terms();
            let args = s[term as int].args;
            term < s.len() && s[term as int].op == Op::Eq && (var_like(s, args[0])
                && foreign_numeric(s, args[1]) || var_like(s, args[1]) && foreign_numeric(
                s,
                args[0],
            ))
        }),
{
    let node = match store.get(term) {
        None => {
            return false;
        },
        Some(node) => node,
    };
    assert(node_below(store.terms(), term as int));
    if node.op != Op::Eq {
        return false;
    }
    let a: TermId = node.args[0];
    let b: TermId = node.args[1];
    is_var_like(store, a) && is_foreign_numeric(store, b) || is_var_like(store, b)
        && is_foreign_numeric(store, a)
}

/// Two foreign terms have one variable exactly where they are one term: `r` is
/// the variable of `a` in a state, `q` that of `b` in the same state or a later
/// one.
pub proof fn fresh_variables_tell_terms_apart(
    first: &PurifyState,
    later: &PurifyState,
    s: Seq<TermView>,
    a: TermId,
    r: TermId,
    b: TermId,
    q: TermId,
)
    requires
        later.wf(s),
        learns(first, later),
        first.foreign_to_fresh@.contains_key(a),
        first.foreign_to_fresh@[a] == r,
        later.foreign_to_fresh@.contains_key(b),
        later.foreign_to_fresh@[b] == q,
    ensures
        r == q <==> a == b,
{
    let m = later.foreign_to_fresh@;
    assert(m.contains_key(a) && m[a] == r);
    let j = choose|j: int| 0 <= j < later.origins@.len() && later.origins@[j] == a;
    let k = choose|k: int| 0 <= k < later.origins@.len() && later.origins@[k] == b;
    assert(later.origins@.contains(a) && later.origins@.contains(b));
    assert(m.contains_key(later.origins@[j]) && m.contains_key(later.origins@[k]));
    if r == q {
        assert(later.origins.len() == later.origins@.len());
        let x = var_node(Symbol::Purified(j as usize), s[a as int].sort);
        let y = var_node(Symbol::Purified(k as usize), s[b as int].sort);
        assert(x.data == y.data);
        assert(j == k);
    }
}

/// Two allocations from one state, the second at the same time or later and for
/// the same or another list: the variables are one exactly where the foreign
/// terms are.  Each pair is listed exactly once, and what was listed before stays
/// where it was.
pub proof fn allocations_tell_terms_apart(
    a0: &PurifyState,
    list0: Seq<(TermId, TermId)>,
    x: TermId,
    sort_x: SortId,
    s1: Seq<TermView>,
    a1: &PurifyState,
    list1: Seq<(TermId, TermId)>,
    r: TermId,
    b0: &PurifyState,
    list2: Seq<(TermId, TermId)>,
    y: TermId,
    sort_y: SortId,
    s2: Seq<TermView>,
    b1: &PurifyState,
    list3: Seq<(TermId, TermId)>,
    q: TermId,
)
    requires
        allocated(a0, list0, x, sort_x, s1, a1, list1, r),
        learns(a1, b0),
        allocated(b0, list2, y, sort_y, s2, b1, list3, q),
    ensures
        r == q <==> x == y,
        s1[r as int].op == Op::Var && s1[r as int].sort == sort_x,
        list1.contains((r, x)),
        forall|j: int, k: int|
            0 <= j < list1.len() && 0 <= k < list1.len() && list1[j] == (r, x) && list1[k] == (r, x)
                ==> j == k,
        continues(list0, list1),
        continues(list2, list3),
{
    lemma_learns_trans(a1, b0, b1);
    fresh_variables_tell_terms_apart(a1, b1, s2, x, r, y, q);
    assert(list0.push((r, x)).take(list0.len() as int) =~= list0);
    assert(list0.take(list0.len() as int) =~= list0);
    assert(list0.push((r, x))[list0.len() as int] == (r, x));
    assert(list2.push((q, y)).take(list2.len() as int) =~= list2);
    assert(list2.take(list2.len() as int) =~= list2);
}

} // verus!
