//! Lookup tables written as conditionals.
//!
//! Generated problems encode finite maps as right spines
//! `(ite (= x 1) v1 (ite (= x 2) v2 .. default))`.  A long spine becomes one
//! variable with an implication per entry, nests over 0/1 tables become
//! arithmetic, and indices with small ranges are split into cases.

use crate::collections::{
    copy_words, map_get, map_insert, map_new, set_contains, set_insert, set_new,
};
use crate::constructors::{
    grew, is_equation, is_implication, is_negation, lemma_eq_holds, plain_node, var_node,
};
use crate::int_case_split::{lemma_value_equation, mk_value_equation, value_equation};
use crate::numbers::{fits, signed_value};
use crate::rewrite::{
    avoids, defining, lemma_and_holds, lemma_avoids_below, lemma_defining, lemma_defining_var,
    lemma_eqv_equal, lemma_implies_holds, lemma_not_holds, lemma_quantifier_free_below,
    lemma_same_walk, lemma_subterm_back, symbols_of, well_sorted, Replacing,
};
use crate::semantics::{eqv, eval, eval_args, holds, lemma_eval, lemma_extend, num, Interp, Value};
use crate::tables::{
    ascending_keys, indices_rebound, insert_key, keys_at, keys_rebound,
    lemma_indices_rebound_extend, lemma_keys_rebound_extend, lemma_rebound_extend, rebound,
    TableState,
};
use crate::terms::{
    extends, node_at, node_below, numeric_sort, terms_wf, Data, DataView, Op, SortId, Symbol,
    TermId, TermStore, TermView, BOOL_SORT,
};
use crate::walk::{
    collect_subterms, lemma_map_ok_extend, lemma_reach_le, lemma_subst_eval, lemma_subst_extend,
    lists_reach, map_ok, quantifier_free, subst, substitute, subterm,
};
use rustc_hash::{FxHashMap, FxHashSet};
use vstd::prelude::*;

verus! {

/// The shortest spine that counts as a table.
pub const MIN_TABLE_CASES: usize = 4;

/// The widest index domain that is split into cases.
pub const MAX_EAGER_TABLE_DOMAIN: i64 = 64;

/// The value of an integer literal that fits in 64 bits.
pub open spec fn int_literal(s: Seq<TermView>, t: TermId) -> Option<i64> {
    if t < s.len() && s[t as int].op == Op::IntConst {
        match s[t as int].data {
            DataView::Int(neg, d) => if fits(signed_value(neg, d)) {
                Some(signed_value(neg, d) as i64)
            } else {
                None
            },
            _ => None,
        }
    } else {
        None
    }
}

pub fn int_const_val(term: TermId, store: &TermStore) -> (r: Option<i64>)
    ensures
        r == int_literal(store.terms(), term),
{
    match store.get(term) {
        None => None,
        Some(node) => {
            if node.op != Op::IntConst {
                return None;
            }
            match &node.data {
                Data::Int(n) => n.to_i64(),
                _ => None,
            }
        },
    }
}

/// The index and the constant of a condition `(= index constant)`.
pub open spec fn index_const(s: Seq<TermView>, cond: TermId) -> Option<(TermId, i64)> {
    if cond < s.len() && s[cond as int].op == Op::Eq {
        let a = s[cond as int].args[0];
        let b = s[cond as int].args[1];
        match int_literal(s, a) {
            Some(k) => Some((b, k)),
            None => match int_literal(s, b) {
                Some(k) => Some((a, k)),
                None => None,
            },
        }
    } else {
        None
    }
}

pub fn eq_index_const(cond: TermId, store: &TermStore) -> (r: Option<(TermId, i64)>)
    requires
        store.wf(),
    ensures
        r == index_const(store.terms(), cond),
{
    let node = match store.get(cond) {
        None => {
            return None;
        },
        Some(node) => node,
    };
    assert(node_below(store.terms(), cond as int));
    if node.op != Op::Eq {
        return None;
    }
    let a: TermId = node.args[0];
    let b: TermId = node.args[1];
    if let Some(k) = int_const_val(a, store) {
        return Some((b, k));
    }
    if let Some(k) = int_const_val(b, store) {
        return Some((a, k));
    }
    None
}

/// A lookup table: `root` is the entry for the first constant that the index
/// equals, and the default where it equals none.
pub struct EqIteTable {
    pub root: TermId,
    pub index: TermId,
    pub cases: Vec<(i64, TermId)>,
    pub default: TermId,
    pub spine: Vec<TermId>,
}

/// Whether the spine goes on at `t`: a conditional that is no formula, which
/// compares the index of the spine with a constant not met yet.
pub open spec fn spine_case(
    s: Seq<TermView>,
    t: TermId,
    index: Option<TermId>,
    cases: Seq<(i64, TermId)>,
) -> bool {
    &&& t < s.len()
    &&& s[t as int].sort != BOOL_SORT
    &&& s[t as int].op == Op::Ite
    &&& index_const(s, s[t as int].args[0]) matches Some((x, k)) && (index matches Some(p) ==> p
        == x) && forall|j: int| 0 <= j < cases.len() ==> (#[trigger] cases[j]).0 != k
}

/// The entries, the conditionals and the default of the spine at `t`, after the
/// entries `cases` of the spine so far.
pub open spec fn spine_from(
    s: Seq<TermView>,
    t: TermId,
    index: Option<TermId>,
    cases: Seq<(i64, TermId)>,
    nodes: Seq<TermId>,
) -> (Option<TermId>, Seq<(i64, TermId)>, Seq<TermId>, TermId)
    decreases t,
{
    if spine_case(s, t, index, cases) && s[t as int].args[2] < t {
        let (x, k) = index_const(s, s[t as int].args[0])->0;
        spine_from(
            s,
            s[t as int].args[2],
            Some(x),
            cases.push((k, s[t as int].args[1])),
            nodes.push(t),
        )
    } else {
        (index, cases, nodes, t)
    }
}

/// The whole spine at `t`.
pub open spec fn spine(s: Seq<TermView>, t: TermId) -> (
    Option<TermId>,
    Seq<(i64, TermId)>,
    Seq<TermId>,
    TermId,
) {
    spine_from(s, t, None, Seq::empty(), Seq::empty())
}

/// The table is the one at its root.
pub open spec fn is_table(s: Seq<TermView>, table: EqIteTable) -> bool {
    &&& table.cases@.len() >= MIN_TABLE_CASES
    &&& spine(s, table.root) == (
        Some(table.index),
        table.cases@,
        table.spine@,
        table.default,
    )
}

fn has_key(cases: &Vec<(i64, TermId)>, k: i64) -> (b: bool)
    ensures
        b == exists|j: int| 0 <= j < cases@.len() && (#[trigger] cases@[j]).0 == k,
{
    let mut n: usize = 0;
    while n < cases.len()
        invariant
            n <= cases.len(),
            forall|j: int| 0 <= j < n ==> (#[trigger] cases@[j]).0 != k,
        decreases cases.len() - n,
    {
        if cases[n].0 == k {
            assert(cases@[n as int].0 == k);
            return true;
        }
        n = n + 1;
    }
    false
}

/// The table at a term, where its spine is long enough.
pub fn match_eq_ite_table(term: TermId, store: &TermStore) -> (r: Option<EqIteTable>)
    requires
        store.wf(),
    ensures
        match r {
            Some(t) => t.root == term && is_table(store.terms(), t),
            None => spine(store.terms(), term).1.len() < MIN_TABLE_CASES,
        },
{
    let ghost s = store.terms();
    let mut index: Option<TermId> = None;
    let mut cases: Vec<(i64, TermId)> = Vec::new();
    let mut nodes: Vec<TermId> = Vec::new();
    let mut cur: TermId = term;
    proof {
        assert(cases@ =~= Seq::empty());
        assert(nodes@ =~= Seq::empty());
    }
    loop
        invariant
            store.wf(),
            s == store.terms(),
            spine(s, term) == spine_from(s, cur, index, cases@, nodes@),
        ensures
            spine(s, term) == (index, cases@, nodes@, cur),
        decreases cur,
    {
        let node = match store.get(cur) {
            None => {
                break;
            },
            Some(node) => node,
        };
        assert(node_below(s, cur as int));
        if node.sort == BOOL_SORT || node.op != Op::Ite {
            break;
        }
        let (x, k) = match eq_index_const(node.args[0], store) {
            None => {
                break;
            },
            Some(p) => p,
        };
        if let Some(prev) = index {
            if prev != x {
                break;
            }
        }
        if has_key(&cases, k) {
            break;
        }
        assert(spine_case(s, cur, index, cases@)) by {
            assert forall|j: int| 0 <= j < cases@.len() implies (#[trigger] cases@[j]).0 != k by {}
        }
        index = Some(x);
        nodes.push(cur);
        cases.push((k, node.args[1]));
        cur = node.args[2];
    }
    if cases.len() < MIN_TABLE_CASES {
        return None;
    }
    match index {
        None => {
            proof {
                lemma_spine_index(s, term, None, Seq::empty(), Seq::empty());
            }
            None
        },
        Some(x) => Some(
            EqIteTable { root: term, index: x, cases, default: cur, spine: nodes },
        ),
    }
}

proof fn lemma_spine_index(
    s: Seq<TermView>,
    t: TermId,
    index: Option<TermId>,
    cases: Seq<(i64, TermId)>,
    nodes: Seq<TermId>,
)
    ensures
        ({
            let r = spine_from(s, t, index, cases, nodes);
            r.0 is None ==> r.1 == cases
        }),
    decreases t,
{
    if spine_case(s, t, index, cases) && s[t as int].args[2] < t {
        let (x, k) = index_const(s, s[t as int].args[0])->0;
        lemma_spine_index(
            s,
            s[t as int].args[2],
            Some(x),
            cases.push((k, s[t as int].args[1])),
            nodes.push(t),
        );
        lemma_spine_keeps_index(
            s,
            s[t as int].args[2],
            x,
            cases.push((k, s[t as int].args[1])),
            nodes.push(t),
        );
    }
}

proof fn lemma_spine_keeps_index(
    s: Seq<TermView>,
    t: TermId,
    x: TermId,
    cases: Seq<(i64, TermId)>,
    nodes: Seq<TermId>,
)
    ensures
        spine_from(s, t, Some(x), cases, nodes).0 == Some(x),
    decreases t,
{
    if spine_case(s, t, Some(x), cases) && s[t as int].args[2] < t {
        let (y, k) = index_const(s, s[t as int].args[0])->0;
        lemma_spine_keeps_index(
            s,
            s[t as int].args[2],
            y,
            cases.push((k, s[t as int].args[1])),
            nodes.push(t),
        );
    }
}

/// The entry for the first constant that equals `v`, or the default.
pub open spec fn lookup(
    s: Seq<TermView>,
    i: Interp,
    v: real,
    cases: Seq<(i64, TermId)>,
    default: TermId,
) -> Value
    decreases cases.len(),
{
    if cases.len() == 0 {
        eval(s, i, default as int)
    } else if v == cases[0].0 as real {
        eval(s, i, cases[0].1 as int)
    } else {
        lookup(s, i, v, cases.drop_first(), default)
    }
}

/// A condition that compares an index with a constant says that they are equal.
proof fn lemma_index_const(s: Seq<TermView>, i: Interp, cond: TermId)
    requires
        terms_wf(s),
        index_const(s, cond) is Some,
        ({
            let (x, _) = index_const(s, cond)->0;
            numeric_sort(s[x as int].sort)
        }),
    ensures
        ({
            let (x, k) = index_const(s, cond)->0;
            &&& x < cond
            &&& subterm(s, cond, x)
            &&& holds(s, i, cond) == (num(eval(s, i, x as int)) == k as real)
        }),
{
    assert(node_below(s, cond as int));
    let (x, k) = index_const(s, cond)->0;
    let args = s[cond as int].args;
    let (a, b) = (args[0], args[1]);
    assert(args[0] < cond && args[1] < cond);
    assert(subterm(s, a, a) && subterm(s, b, b));
    assert(subterm(s, cond, args[0]) && subterm(s, cond, args[1]));
    lemma_eval(s, i, cond);
    let vals = eval_args(s, i, args);
    assert(vals[0] == eval(s, i, a as int));
    assert(vals[1] == eval(s, i, b as int));
    if int_literal(s, a) is Some {
        lemma_eval(s, i, a);
    } else {
        lemma_eval(s, i, b);
    }
}

/// The parts of a spine: entries after those given, all below `t`.
proof fn lemma_spine(
    s: Seq<TermView>,
    i: Interp,
    t: TermId,
    index: Option<TermId>,
    cases: Seq<(i64, TermId)>,
    nodes: Seq<TermId>,
)
    requires
        terms_wf(s),
        t < s.len(),
        ({
            let r = spine_from(s, t, index, cases, nodes);
            r.0 matches Some(x) ==> numeric_sort(s[x as int].sort)
        }),
        forall|j: int, k: int|
            0 <= j < k < cases.len() ==> (#[trigger] cases[j]).0 != (#[trigger] cases[k]).0,
    ensures
        ({
            let (x, all, ns, default) = spine_from(s, t, index, cases, nodes);
            &&& cases.len() <= all.len()
            &&& all.take(cases.len() as int) == cases
            &&& ns.len() - nodes.len() == all.len() - cases.len()
            &&& default < s.len() && default <= t && subterm(s, t, default)
            &&& all.len() > cases.len() ==> x is Some && default < t && x->0 < t && subterm(
                s,
                t,
                x->0,
            )
            &&& forall|j: int|
                cases.len() <= j < all.len() ==> (#[trigger] all[j]).1 < t && subterm(
                    s,
                    t,
                    all[j].1,
                ) && s[all[j].1 as int].sort == s[t as int].sort
            &&& s[default as int].sort == s[t as int].sort
            &&& forall|j: int, k: int|
                0 <= j < k < all.len() ==> (#[trigger] all[j]).0 != (#[trigger] all[k]).0
            &&& all.len() > cases.len() ==> eval(s, i, t as int) == lookup(
                s,
                i,
                num(eval(s, i, x->0 as int)),
                all.skip(cases.len() as int),
                default,
            )
        }),
    decreases t,
{
    assert(node_below(s, t as int));
    if spine_case(s, t, index, cases) && s[t as int].args[2] < t {
        let (x, k) = index_const(s, s[t as int].args[0])->0;
        let (c, a, e) = (s[t as int].args[0], s[t as int].args[1], s[t as int].args[2]);
        let more = cases.push((k, a));
        assert(a < t && c < t && e < t);
        assert(s[e as int].sort == s[t as int].sort);
        lemma_spine_keeps_index(s, e, x, more, nodes.push(t));
        lemma_spine(s, i, e, Some(x), more, nodes.push(t));
        let (x2, all, ns, default) = spine_from(s, e, Some(x), more, nodes.push(t));
        assert(all.take(cases.len() as int) =~= all.take(more.len() as int).take(
            cases.len() as int,
        ));
        assert(more.take(cases.len() as int) =~= cases);
        assert(all[cases.len() as int] == all.take(more.len() as int)[cases.len() as int]);
        assert(all[cases.len() as int] == (k, a));
        lemma_index_const(s, i, c);
        assert(subterm(s, a, a));
        assert(subterm(s, t, s[t as int].args[1]));
        assert(subterm(s, t, x)) by {
            assert(s[t as int].args[0] < t && subterm(s, s[t as int].args[0], x));
        }
        assert forall|j: int| cases.len() <= j < all.len() implies (#[trigger] all[j]).1 < t
            && subterm(s, t, all[j].1) && s[all[j].1 as int].sort == s[t as int].sort by {
            if j > cases.len() {
                assert(s[t as int].args[2] < t && subterm(s, s[t as int].args[2], all[j].1));
            }
        }
        assert(subterm(s, t, default)) by {
            assert(s[t as int].args[2] < t && subterm(s, s[t as int].args[2], default));
        }
        lemma_eval(s, i, t);
        let vals = eval_args(s, i, s[t as int].args);
        assert(vals[0] == eval(s, i, c as int));
        assert(vals[1] == eval(s, i, a as int));
        assert(vals[2] == eval(s, i, e as int));
        let rest = all.skip(cases.len() as int);
        assert(rest[0] == (k, a));
        assert(rest.drop_first() =~= all.skip(more.len() as int));
        if all.len() == more.len() {
            assert(all.skip(more.len() as int).len() == 0);
            lemma_spine_end(s, e, Some(x), more, nodes.push(t));
        }
    } else {
        assert(cases.take(cases.len() as int) =~= cases);
    }
}

/// A spine without further entries ends where it is.
proof fn lemma_spine_end(
    s: Seq<TermView>,
    t: TermId,
    index: Option<TermId>,
    cases: Seq<(i64, TermId)>,
    nodes: Seq<TermId>,
)
    requires
        spine_from(s, t, index, cases, nodes).1.len() == cases.len(),
    ensures
        spine_from(s, t, index, cases, nodes).3 == t,
{
    if spine_case(s, t, index, cases) && s[t as int].args[2] < t {
        let (x, k) = index_const(s, s[t as int].args[0])->0;
        lemma_spine_grows(
            s,
            s[t as int].args[2],
            Some(x),
            cases.push((k, s[t as int].args[1])),
            nodes.push(t),
        );
    }
}

proof fn lemma_spine_grows(
    s: Seq<TermView>,
    t: TermId,
    index: Option<TermId>,
    cases: Seq<(i64, TermId)>,
    nodes: Seq<TermId>,
)
    ensures
        spine_from(s, t, index, cases, nodes).1.len() >= cases.len(),
    decreases t,
{
    if spine_case(s, t, index, cases) && s[t as int].args[2] < t {
        let (x, k) = index_const(s, s[t as int].args[0])->0;
        lemma_spine_grows(
            s,
            s[t as int].args[2],
            Some(x),
            cases.push((k, s[t as int].args[1])),
            nodes.push(t),
        );
    }
}

/// What looking up gives: the entry of the constant that equals the value, the
/// default where there is none.
proof fn lemma_lookup(
    s: Seq<TermView>,
    i: Interp,
    v: real,
    cases: Seq<(i64, TermId)>,
    default: TermId,
)
    requires
        forall|j: int, k: int|
            0 <= j < k < cases.len() ==> (#[trigger] cases[j]).0 != (#[trigger] cases[k]).0,
    ensures
        forall|j: int|
            0 <= j < cases.len() && v == (#[trigger] cases[j]).0 as real ==> lookup(
                s,
                i,
                v,
                cases,
                default,
            ) == eval(s, i, cases[j].1 as int),
        (forall|j: int| 0 <= j < cases.len() ==> v != (#[trigger] cases[j]).0 as real) ==> lookup(
            s,
            i,
            v,
            cases,
            default,
        ) == eval(s, i, default as int),
    decreases cases.len(),
{
    if cases.len() > 0 {
        let rest = cases.drop_first();
        assert forall|j: int, k: int| 0 <= j < k < rest.len() implies (#[trigger] rest[j]).0 != (
        #[trigger] rest[k]).0 by {
            assert(cases[j + 1].0 != cases[k + 1].0);
        }
        lemma_lookup(s, i, v, rest, default);
        assert forall|j: int| 0 <= j < cases.len() && v == (#[trigger] cases[j]).0 as real implies lookup(
            s,
            i,
            v,
            cases,
            default,
        ) == eval(s, i, cases[j].1 as int) by {
            if j > 0 {
                assert(rest[j - 1] == cases[j]);
                assert(cases[0].0 != cases[j].0);
            }
        }
        if forall|j: int| 0 <= j < cases.len() ==> v != (#[trigger] cases[j]).0 as real {
            assert(v != cases[0].0 as real);
            assert forall|j: int| 0 <= j < rest.len() implies v != (#[trigger] rest[j]).0 as real by {
                assert(rest[j] == cases[j + 1]);
            }
        }
    }
}

/// A table's value is its entry for the value of the index.
pub proof fn table_is_a_lookup(s: Seq<TermView>, i: Interp, table: EqIteTable)
    requires
        terms_wf(s),
        table.root < s.len(),
        is_table(s, table),
        numeric_sort(s[table.index as int].sort),
    ensures
        ({
            let v = num(eval(s, i, table.index as int));
            &&& table.index < table.root && table.default < table.root
            &&& subterm(s, table.root, table.index) && subterm(s, table.root, table.default)
            &&& s[table.default as int].sort == s[table.root as int].sort
            &&& forall|j: int|
                0 <= j < table.cases@.len() ==> (#[trigger] table.cases@[j]).1 < table.root
                    && subterm(s, table.root, table.cases@[j].1)
                    && s[table.cases@[j].1 as int].sort == s[table.root as int].sort
            &&& forall|j: int|
                0 <= j < table.cases@.len() && v == (#[trigger] table.cases@[j]).0 as real ==> eval(
                    s,
                    i,
                    table.root as int,
                ) == eval(s, i, table.cases@[j].1 as int)
            &&& (forall|j: int|
                0 <= j < table.cases@.len() ==> v != (#[trigger] table.cases@[j]).0 as real)
                ==> eval(s, i, table.root as int) == eval(s, i, table.default as int)
        }),
{
    lemma_spine(s, i, table.root, None, Seq::empty(), Seq::empty());
    assert(table.cases@.skip(0) =~= table.cases@);
    lemma_lookup(
        s,
        i,
        num(eval(s, i, table.index as int)),
        table.cases@,
        table.default,
    );
}

/// `e` says that the table's index equals the `j`-th constant.
pub open spec fn case_condition(s: Seq<TermView>, table: EqIteTable, j: int, e: TermId) -> bool {
    exists|lit: TermId| #[trigger] value_equation(s, table.index, table.cases@[j].0, lit, e)
}

/// `side` says that the result is the `j`-th entry where the index equals the
/// `j`-th constant.
pub open spec fn case_side(
    s: Seq<TermView>,
    table: EqIteTable,
    r: TermId,
    j: int,
    side: TermId,
) -> bool {
    exists|e: TermId, f: TermId| #[trigger]
        is_implication(s, side, e, f) && case_condition(
            s,
            table,
            j,
            e,
        ) && f < s.len() && is_equation(s, r, table.cases@[j].1, f)
}

/// `side` says that the result is the default where the index equals none of
/// the constants.
pub open spec fn default_side(s: Seq<TermView>, table: EqIteTable, r: TermId, side: TermId) -> bool {
    exists|none: TermId, f: TermId| #[trigger]
        is_implication(s, side, none, f) && no_case(
            s,
            table,
            none,
        ) && f < s.len() && is_equation(s, r, table.default, f)
}

/// `none` says that the index equals none of the constants.
pub open spec fn no_case(s: Seq<TermView>, table: EqIteTable, none: TermId) -> bool {
    let nots = s[none as int].args;
    &&& node_at(s, none, plain_node(Op::And, nots, BOOL_SORT))
    &&& nots.len() == table.cases@.len()
    &&& forall|j: int| 0 <= j < nots.len() ==> #[trigger] not_case(s, table, j, nots[j])
}

pub open spec fn not_case(s: Seq<TermView>, table: EqIteTable, j: int, n: TermId) -> bool {
    exists|e: TermId| #[trigger]
        is_negation(s, n, e) && case_condition(s, table, j, e)
}

/// What a case side means.
proof fn lemma_case_side(
    s: Seq<TermView>,
    i: Interp,
    table: EqIteTable,
    r: TermId,
    j: int,
    side: TermId,
)
    requires
        terms_wf(s),
        table.root < s.len(),
        r < s.len(),
        s[r as int].sort == s[table.root as int].sort,
        is_table(s, table),
        numeric_sort(s[table.index as int].sort),
        0 <= j < table.cases@.len(),
        case_side(s, table, r, j, side),
    ensures
        holds(s, i, side) == (num(eval(s, i, table.index as int)) == table.cases@[j].0 as real
            ==> eqv(
            s[r as int].sort,
            eval(s, i, r as int),
            eval(s, i, table.cases@[j].1 as int),
        )),
{
    table_is_a_lookup(s, i, table);
    let (e, f) = choose|e: TermId, f: TermId| #[trigger]
        is_implication(s, side, e, f) && case_condition(
            s,
            table,
            j,
            e,
        ) && f < s.len() && is_equation(s, r, table.cases@[j].1, f);
    let lit = choose|lit: TermId| #[trigger]
        value_equation(s, table.index, table.cases@[j].0, lit, e);
    lemma_value_equation(s, i, table.index, table.cases@[j].0, lit, e);
    lemma_eq_holds(s, r, table.cases@[j].1, f);
    lemma_implies_holds(s, i, side, e, f);
    assert(holds(s, i, f) == eqv(
        s[r as int].sort,
        eval(s, i, r as int),
        eval(s, i, table.cases@[j].1 as int),
    ));
}

/// What the default side means.
proof fn lemma_default_side(
    s: Seq<TermView>,
    i: Interp,
    table: EqIteTable,
    r: TermId,
    side: TermId,
)
    requires
        terms_wf(s),
        table.root < s.len(),
        r < s.len(),
        s[r as int].sort == s[table.root as int].sort,
        is_table(s, table),
        numeric_sort(s[table.index as int].sort),
        default_side(s, table, r, side),
    ensures
        holds(s, i, side) == ((forall|j: int|
            0 <= j < table.cases@.len() ==> num(eval(s, i, table.index as int)) != (
            #[trigger] table.cases@[j]).0 as real) ==> eqv(
            s[r as int].sort,
            eval(s, i, r as int),
            eval(s, i, table.default as int),
        )),
{
    table_is_a_lookup(s, i, table);
    let v = num(eval(s, i, table.index as int));
    let (none, f) = choose|none: TermId, f: TermId| #[trigger]
        is_implication(s, side, none, f) && no_case(
            s,
            table,
            none,
        ) && f < s.len() && is_equation(s, r, table.default, f);
    let nots = s[none as int].args;
    lemma_and_holds(s, i, none, nots);
    lemma_eq_holds(s, r, table.default, f);
    lemma_implies_holds(s, i, side, none, f);
    assert(holds(s, i, f) == eqv(
        s[r as int].sort,
        eval(s, i, r as int),
        eval(s, i, table.default as int),
    ));
    assert forall|j: int| 0 <= j < nots.len() implies holds(s, i, #[trigger] nots[j]) == (v
        != table.cases@[j].0 as real) by {
        assert(not_case(s, table, j, nots[j]));
        let e = choose|e: TermId| #[trigger]
            is_negation(s, nots[j], e) && case_condition(
                s,
                table,
                j,
                e,
            );
        let lit = choose|lit: TermId| #[trigger]
            value_equation(s, table.index, table.cases@[j].0, lit, e);
        lemma_value_equation(s, i, table.index, table.cases@[j].0, lit, e);
        lemma_not_holds(s, i, nots[j], e);
    }
    if holds(s, i, none) {
        assert forall|j: int| 0 <= j < table.cases@.len() implies v != (
        #[trigger] table.cases@[j]).0 as real by {
            assert(holds(s, i, nots[j]));
        }
    } else {
        let j = choose|j: int| 0 <= j < nots.len() && !holds(s, i, #[trigger] nots[j]);
        assert(v == table.cases@[j].0 as real);
    }
}

/// `side` is one of the side conditions of the table with the result `r`.
pub open spec fn table_side(s: Seq<TermView>, table: EqIteTable, r: TermId, side: TermId) -> bool {
    default_side(s, table, r, side) || exists|j: int|
        0 <= j < table.cases@.len() && #[trigger] case_side(s, table, r, j, side)
}

/// Everything below a side condition is a condition or equation of it, the
/// result, a literal, or below the table.
proof fn lemma_side_below(
    s: Seq<TermView>,
    table: EqIteTable,
    r: TermId,
    side: TermId,
    x: TermId,
)
    requires
        terms_wf(s),
        table.root < s.len(),
        is_table(s, table),
        numeric_sort(s[table.index as int].sort),
        s[r as int].op == Op::Var,
        r < s.len(),
        table_side(s, table, r, side),
        subterm(s, side, x),
        s[x as int].op == Op::Ite,
    ensures
        x < table.root,
        subterm(s, table.root, x),
{
    table_is_a_lookup(s, arbitrary(), table);
    if default_side(s, table, r, side) {
        let (none, f) = choose|none: TermId, f: TermId| #[trigger]
            is_implication(s, side, none, f) && no_case(
                s,
                table,
                none,
            ) && f < s.len() && is_equation(s, r, table.default, f);
        assert(s[side as int].args =~= seq![none, f]);
        if subterm(s, f, x) {
            lemma_equation_below(s, table, r, table.default, f, x);
        } else {
            let nots = s[none as int].args;
            assert(subterm(s, none, x));
            let j = choose|j: int|
                0 <= j < nots.len() && (#[trigger] nots[j]) < none && subterm(s, nots[j], x);
            assert(not_case(s, table, j, nots[j]));
            let e = choose|e: TermId| #[trigger]
                is_negation(s, nots[j], e) && case_condition(
                    s,
                    table,
                    j,
                    e,
                );
            assert(s[nots[j] as int].args =~= seq![e]);
            lemma_condition_below(s, table, j, e, x);
        }
    } else {
        let j = choose|j: int|
            0 <= j < table.cases@.len() && #[trigger] case_side(s, table, r, j, side);
        let (e, f) = choose|e: TermId, f: TermId| #[trigger]
            is_implication(s, side, e, f) && case_condition(
                s,
                table,
                j,
                e,
            ) && f < s.len() && is_equation(s, r, table.cases@[j].1, f);
        assert(s[side as int].args =~= seq![e, f]);
        if subterm(s, f, x) {
            lemma_equation_below(s, table, r, table.cases@[j].1, f, x);
        } else {
            lemma_condition_below(s, table, j, e, x);
        }
    }
}

proof fn lemma_equation_below(
    s: Seq<TermView>,
    table: EqIteTable,
    r: TermId,
    y: TermId,
    f: TermId,
    x: TermId,
)
    requires
        terms_wf(s),
        table.root < s.len(),
        s[r as int].op == Op::Var,
        r < s.len(),
        y < table.root,
        subterm(s, table.root, y),
        is_equation(s, r, y, f),
        subterm(s, f, x),
        s[x as int].op == Op::Ite,
    ensures
        x < table.root,
        subterm(s, table.root, x),
{
    if r == y {
        assert(s[f as int].args.len() == 0) by {
            assert(node_below(s, f as int));
        }
    } else {
        assert(s[f as int].args =~= seq![r, y]);
        assert(node_below(s, r as int));
        assert(s[r as int].args.len() == 0);
        lemma_below_pair(s, f, r, y, x);
        assert(subterm(s, y, x));
        lemma_reach_le(s, Map::empty(), y, x);
        lemma_subterm_trans(s, table.root, y, x);
    }
}

proof fn lemma_condition_below(s: Seq<TermView>, table: EqIteTable, j: int, e: TermId, x: TermId)
    requires
        terms_wf(s),
        table.root < s.len(),
        table.index < table.root,
        subterm(s, table.root, table.index),
        case_condition(s, table, j, e),
        subterm(s, e, x),
        s[x as int].op == Op::Ite,
    ensures
        x < table.root,
        subterm(s, table.root, x),
{
    let lit = choose|lit: TermId| #[trigger]
        value_equation(s, table.index, table.cases@[j].0, lit, e);
    assert(node_below(s, lit as int));
    assert(node_below(s, e as int));
    if table.index == lit {
        assert(s[e as int].args.len() == 0);
    } else {
        assert(s[e as int].args =~= seq![table.index, lit]);
        assert(s[lit as int].args.len() == 0);
        lemma_below_pair(s, e, table.index, lit, x);
        assert(subterm(s, table.index, x));
        lemma_reach_le(s, Map::empty(), table.index, x);
        lemma_subterm_trans(s, table.root, table.index, x);
    }
}

proof fn lemma_below_pair(s: Seq<TermView>, t: TermId, a: TermId, b: TermId, x: TermId)
    requires
        subterm(s, t, x),
        x != t,
        s[t as int].args == seq![a, b],
    ensures
        subterm(s, a, x) || subterm(s, b, x),
{
    let k = choose|k: int|
        0 <= k < s[t as int].args.len() && (#[trigger] s[t as int].args[k]) < t && subterm(
            s,
            s[t as int].args[k],
            x,
        );
    assert(k == 0 || k == 1);
}

pub(crate) proof fn lemma_subterm_trans(s: Seq<TermView>, t: TermId, y: TermId, x: TermId)
    requires
        terms_wf(s),
        t < s.len(),
        subterm(s, t, y),
        subterm(s, y, x),
    ensures
        subterm(s, t, x),
    decreases t,
{
    if y != t {
        assert(node_below(s, t as int));
        let k = choose|k: int|
            0 <= k < s[t as int].args.len() && (#[trigger] s[t as int].args[k]) < t && subterm(
                s,
                s[t as int].args[k],
                y,
            );
        lemma_subterm_trans(s, s[t as int].args[k], y, x);
    }
}

/// A side condition of a table without quantifiers has none.
proof fn lemma_side_quantifier_free(
    s: Seq<TermView>,
    table: EqIteTable,
    r: TermId,
    side: TermId,
)
    requires
        terms_wf(s),
        table.root < s.len(),
        is_table(s, table),
        numeric_sort(s[table.index as int].sort),
        s[r as int].op == Op::Var,
        r < s.len(),
        quantifier_free(s, table.root),
        table_side(s, table, r, side),
    ensures
        quantifier_free(s, side),
{
    table_is_a_lookup(s, arbitrary(), table);
    lemma_quantifier_free_below(s, table.root, table.index);
    lemma_quantifier_free_below(s, table.root, table.default);
    assert(node_below(s, r as int));
    assert(quantifier_free(s, r));
    assert forall|j: int, e: TermId| #[trigger] case_condition(s, table, j, e) implies quantifier_free(
        s,
        e,
    ) by {
        let lit = choose|lit: TermId| #[trigger]
            value_equation(s, table.index, table.cases@[j].0, lit, e);
        assert(node_below(s, lit as int));
        assert(node_below(s, e as int));
        assert(s[lit as int].args.len() == 0);
        assert(quantifier_free(s, lit));
        if table.index != lit {
            assert(s[e as int].args =~= seq![table.index, lit]);
        }
    }
    if default_side(s, table, r, side) {
        let (none, f) = choose|none: TermId, f: TermId| #[trigger]
            is_implication(s, side, none, f) && no_case(
                s,
                table,
                none,
            ) && f < s.len() && is_equation(s, r, table.default, f);
        assert(s[side as int].args =~= seq![none, f]);
        let nots = s[none as int].args;
        assert forall|j: int| 0 <= j < nots.len() implies quantifier_free(s, #[trigger] nots[j]) by {
            assert(not_case(s, table, j, nots[j]));
            let e = choose|e: TermId| #[trigger]
                is_negation(s, nots[j], e) && case_condition(
                    s,
                    table,
                    j,
                    e,
                );
            assert(s[nots[j] as int].args =~= seq![e]);
        }
        assert(quantifier_free(s, none));
        lemma_equation_quantifier_free(s, r, table.default, f);
    } else {
        let j = choose|j: int|
            0 <= j < table.cases@.len() && #[trigger] case_side(s, table, r, j, side);
        let (e, f) = choose|e: TermId, f: TermId| #[trigger]
            is_implication(s, side, e, f) && case_condition(
                s,
                table,
                j,
                e,
            ) && f < s.len() && is_equation(s, r, table.cases@[j].1, f);
        assert(s[side as int].args =~= seq![e, f]);
        lemma_quantifier_free_below(s, table.root, table.cases@[j].1);
        lemma_equation_quantifier_free(s, r, table.cases@[j].1, f);
    }
}

proof fn lemma_equation_quantifier_free(s: Seq<TermView>, a: TermId, b: TermId, f: TermId)
    requires
        terms_wf(s),
        quantifier_free(s, a),
        quantifier_free(s, b),
        is_equation(s, a, b, f),
    ensures
        quantifier_free(s, f),
{
    assert(node_below(s, f as int));
    if a != b {
        assert(s[f as int].args =~= seq![a, b]);
    } else {
        assert(s[f as int].args.len() == 0);
    }
}

/// Some listed condition is the `j`-th case side of the table.
#[verifier::opaque]
pub open spec fn has_case_side(
    s: Seq<TermView>,
    table: EqIteTable,
    r: TermId,
    j: int,
    sides: Seq<TermId>,
) -> bool {
    exists|n: int| 0 <= n < sides.len() && case_side(s, table, r, j, #[trigger] sides[n])
}

/// Some listed condition is the default side of the table.
#[verifier::opaque]
pub open spec fn has_default_side(
    s: Seq<TermView>,
    table: EqIteTable,
    r: TermId,
    sides: Seq<TermId>,
) -> bool {
    exists|n: int| 0 <= n < sides.len() && default_side(s, table, r, #[trigger] sides[n])
}

/// The condition belongs to one of the tables.
#[verifier::opaque]
pub open spec fn some_table_side(
    s: Seq<TermView>,
    m: Map<TermId, TermId>,
    ts: Seq<EqIteTable>,
    side: TermId,
) -> bool {
    exists|a: int|
        0 <= a < ts.len() && table_side(s, #[trigger] ts[a], m[ts[a].root], side)
}

/// The table stands below `term`, and `m` replaces it by the `a`-th result
/// variable.
pub open spec fn table_replaced(
    s: Seq<TermView>,
    m: Map<TermId, TermId>,
    table: EqIteTable,
    a: int,
    term: TermId,
) -> bool {
    &&& is_table(s, table)
    &&& table.root < s.len()
    &&& subterm(s, term, table.root)
    &&& m.contains_key(table.root)
    &&& node_at(
        s,
        m[table.root],
        var_node(Symbol::TableResult(table.root, a as usize), s[table.root as int].sort),
    )
}

/// The tables are replaced, and the conditions list all their sides.
#[verifier::opaque]
pub open spec fn tables_listed(
    s: Seq<TermView>,
    m: Map<TermId, TermId>,
    ts: Seq<EqIteTable>,
    sides: Seq<TermId>,
    term: TermId,
) -> bool {
    &&& forall|a: int| 0 <= a < ts.len() ==> table_replaced(s, m, #[trigger] ts[a], a, term)
    &&& forall|k: TermId| #[trigger]
        m.contains_key(k) ==> exists|a: int| 0 <= a < ts.len() && (#[trigger] ts[a]).root == k
    &&& forall|a: int, b: int|
        0 <= a < b < ts.len() ==> (#[trigger] ts[a]).root != (#[trigger] ts[b]).root
    &&& forall|n: int|
        0 <= n < sides.len() ==> (#[trigger] sides[n]) < s.len() && some_table_side(
            s,
            m,
            ts,
            sides[n],
        )
    &&& forall|a: int, j: int|
        0 <= a < ts.len() && 0 <= j < ts[a].cases@.len() ==> #[trigger] has_case_side(
            s,
            ts[a],
            m[ts[a].root],
            j,
            sides,
        )
    &&& forall|a: int|
        0 <= a < ts.len() ==> has_default_side(s, #[trigger] ts[a], m[ts[a].root], sides)
}

proof fn lemma_listed_table(
    s: Seq<TermView>,
    m: Map<TermId, TermId>,
    ts: Seq<EqIteTable>,
    sides: Seq<TermId>,
    term: TermId,
    a: int,
)
    requires
        tables_listed(s, m, ts, sides, term),
        0 <= a < ts.len(),
    ensures
        table_replaced(s, m, ts[a], a, term),
{
    reveal(tables_listed);
}

proof fn lemma_listed_key(
    s: Seq<TermView>,
    m: Map<TermId, TermId>,
    ts: Seq<EqIteTable>,
    sides: Seq<TermId>,
    term: TermId,
    k: TermId,
) -> (a: int)
    requires
        tables_listed(s, m, ts, sides, term),
        m.contains_key(k),
    ensures
        0 <= a < ts.len(),
        ts[a].root == k,
{
    reveal(tables_listed);
    choose|a: int| 0 <= a < ts.len() && (#[trigger] ts[a]).root == k
}

proof fn lemma_listed_side(
    s: Seq<TermView>,
    m: Map<TermId, TermId>,
    ts: Seq<EqIteTable>,
    sides: Seq<TermId>,
    term: TermId,
    n: int,
) -> (a: int)
    requires
        tables_listed(s, m, ts, sides, term),
        0 <= n < sides.len(),
    ensures
        0 <= a < ts.len(),
        sides[n] < s.len(),
        table_side(s, ts[a], m[ts[a].root], sides[n]),
{
    reveal(tables_listed);
    assert(some_table_side(s, m, ts, sides[n]));
    reveal(some_table_side);
    choose|a: int| 0 <= a < ts.len() && table_side(s, #[trigger] ts[a], m[ts[a].root], sides[n])
}

proof fn lemma_listed_case(
    s: Seq<TermView>,
    m: Map<TermId, TermId>,
    ts: Seq<EqIteTable>,
    sides: Seq<TermId>,
    term: TermId,
    a: int,
    j: int,
) -> (n: int)
    requires
        tables_listed(s, m, ts, sides, term),
        0 <= a < ts.len(),
        0 <= j < ts[a].cases@.len(),
    ensures
        0 <= n < sides.len(),
        sides[n] < s.len(),
        case_side(s, ts[a], m[ts[a].root], j, sides[n]),
        table_side(s, ts[a], m[ts[a].root], sides[n]),
{
    assert(has_case_side(s, ts[a], m[ts[a].root], j, sides) && forall|n: int|
        0 <= n < sides.len() ==> (#[trigger] sides[n]) < s.len()) by {
        reveal(tables_listed);
    }
    reveal(has_case_side);
    choose|n: int|
        0 <= n < sides.len() && case_side(s, ts[a], m[ts[a].root], j, #[trigger] sides[n])
}

proof fn lemma_listed_default(
    s: Seq<TermView>,
    m: Map<TermId, TermId>,
    ts: Seq<EqIteTable>,
    sides: Seq<TermId>,
    term: TermId,
    a: int,
) -> (n: int)
    requires
        tables_listed(s, m, ts, sides, term),
        0 <= a < ts.len(),
    ensures
        0 <= n < sides.len(),
        sides[n] < s.len(),
        default_side(s, ts[a], m[ts[a].root], sides[n]),
        table_side(s, ts[a], m[ts[a].root], sides[n]),
{
    assert(has_default_side(s, ts[a], m[ts[a].root], sides) && forall|n: int|
        0 <= n < sides.len() ==> (#[trigger] sides[n]) < s.len()) by {
        reveal(tables_listed);
    }
    reveal(has_default_side);
    choose|n: int|
        0 <= n < sides.len() && default_side(s, ts[a], m[ts[a].root], #[trigger] sides[n])
}

/// `r` is the assertion `term` with the tables replaced, and their side
/// conditions, rewritten likewise.
pub open spec fn tables_flattened(
    s: Seq<TermView>,
    m: Map<TermId, TermId>,
    ts: Seq<EqIteTable>,
    sides: Seq<TermId>,
    term: TermId,
    r: TermId,
) -> bool {
    let parts = s[r as int].args;
    &&& ts.len() > 0
    &&& tables_listed(s, m, ts, sides, term)
    &&& node_at(s, r, plain_node(Op::And, parts, BOOL_SORT))
    &&& parts.len() == 1 + sides.len()
    &&& parts[0] < s.len() && subst(s, m, term, parts[0])
    &&& forall|n: int|
        0 <= n < sides.len() ==> subst(s, m, #[trigger] sides[n], parts[1 + n])
}

proof fn lemma_table_root(s: Seq<TermView>, table: EqIteTable)
    requires
        is_table(s, table),
    ensures
        s[table.root as int].op == Op::Ite,
        s[table.root as int].sort != BOOL_SORT,
{
    let cases = Seq::<(i64, TermId)>::empty();
    if !(spine_case(s, table.root, None, cases) && s[table.root as int].args[2] < table.root) {
        assert(spine(s, table.root).1 == cases);
    }
}

proof fn lemma_tables_map_ok(
    s: Seq<TermView>,
    m: Map<TermId, TermId>,
    ts: Seq<EqIteTable>,
    sides: Seq<TermId>,
    term: TermId,
)
    requires
        tables_listed(s, m, ts, sides, term),
    ensures
        map_ok(s, m),
        forall|k: TermId| #[trigger] m.contains_key(k) ==> s[k as int].op == Op::Ite,
{
    assert forall|k: TermId| #[trigger] m.contains_key(k) implies k < s.len() && m[k] < s.len()
        && s[m[k] as int].sort == s[k as int].sort && s[k as int].op == Op::Ite by {
        let a = lemma_listed_key(s, m, ts, sides, term, k);
        lemma_listed_table(s, m, ts, sides, term, a);
        lemma_table_root(s, ts[a]);
    }
}

/// The rewritten side conditions say what the side conditions say, where the
/// tables below have been replaced by equals.
proof fn lemma_side_image(
    s: Seq<TermView>,
    i: Interp,
    m: Map<TermId, TermId>,
    table: EqIteTable,
    r: TermId,
    side: TermId,
    image: TermId,
)
    requires
        terms_wf(s),
        map_ok(s, m),
        forall|k: TermId| #[trigger] m.contains_key(k) ==> s[k as int].op == Op::Ite,
        table.root < s.len(),
        is_table(s, table),
        numeric_sort(s[table.index as int].sort),
        quantifier_free(s, table.root),
        r < s.len(),
        s[r as int].op == Op::Var,
        side < s.len(),
        table_side(s, table, r, side),
        subst(s, m, side, image),
        forall|k: TermId| #[trigger]
            m.contains_key(k) && k < table.root ==> eval(s, i, k as int) == eval(
                s,
                i,
                m[k] as int,
            ),
    ensures
        holds(s, i, image) == holds(s, i, side),
{
    lemma_side_quantifier_free(s, table, r, side);
    assert forall|k: TermId| #[trigger] m.contains_key(k) && subterm(s, side, k) implies eval(
        s,
        i,
        k as int,
    ) == eval(s, i, m[k] as int) by {
        lemma_side_below(s, table, r, side, k);
    }
    lemma_subst_eval(s, i, m, side, image);
}

/// The side conditions give each result the value of its table, from the
/// innermost table outwards.
proof fn lemma_sides_define(
    s: Seq<TermView>,
    i: Interp,
    m: Map<TermId, TermId>,
    ts: Seq<EqIteTable>,
    sides: Seq<TermId>,
    term: TermId,
    r: TermId,
    a: int,
)
    requires
        terms_wf(s),
        term < s.len(),
        quantifier_free(s, term),
        well_sorted(s, i),
        tables_flattened(s, m, ts, sides, term, r),
        forall|b: int|
            0 <= b < ts.len() ==> numeric_sort(s[(#[trigger] ts[b]).index as int].sort),
        forall|n: int|
            0 <= n < s[r as int].args.len() ==> holds(s, i, #[trigger] s[r as int].args[n]),
        0 <= a < ts.len(),
    ensures
        eval(s, i, ts[a].root as int) == eval(s, i, m[ts[a].root] as int),
    decreases ts[a].root,
{
    let table = ts[a];
    let parts = s[r as int].args;
    lemma_listed_table(s, m, ts, sides, term, a);
    let v = m[table.root];
    lemma_tables_map_ok(s, m, ts, sides, term);
    assert forall|k: TermId| #[trigger] m.contains_key(k) && k < table.root implies eval(
        s,
        i,
        k as int,
    ) == eval(s, i, m[k] as int) by {
        let b = lemma_listed_key(s, m, ts, sides, term, k);
        lemma_sides_define(s, i, m, ts, sides, term, r, b);
    }
    lemma_quantifier_free_below(s, term, table.root);
    table_is_a_lookup(s, i, table);
    let x = num(eval(s, i, table.index as int));
    if exists|j: int| 0 <= j < table.cases@.len() && x == (#[trigger] table.cases@[j]).0 as real {
        let j = choose|j: int|
            0 <= j < table.cases@.len() && x == (#[trigger] table.cases@[j]).0 as real;
        let n = lemma_listed_case(s, m, ts, sides, term, a, j);
        assert(subst(s, m, sides[n], parts[1 + n]));
        lemma_side_image(s, i, m, table, v, sides[n], parts[1 + n]);
        lemma_case_side(s, i, table, v, j, sides[n]);
        assert(holds(s, i, parts[1 + n]));
    } else {
        let n = lemma_listed_default(s, m, ts, sides, term, a);
        assert(subst(s, m, sides[n], parts[1 + n]));
        lemma_side_image(s, i, m, table, v, sides[n], parts[1 + n]);
        lemma_default_side(s, i, table, v, sides[n]);
        assert(holds(s, i, parts[1 + n]));
    }
    lemma_eqv_equal(s, i, v, table.root);
}

/// Flattening tables adds no solutions: a well-sorted interpretation that
/// satisfies the result satisfies the assertion.
pub proof fn table_flattening_is_sound(
    s: Seq<TermView>,
    i: Interp,
    m: Map<TermId, TermId>,
    ts: Seq<EqIteTable>,
    sides: Seq<TermId>,
    term: TermId,
    r: TermId,
)
    requires
        terms_wf(s),
        term < s.len(),
        quantifier_free(s, term),
        well_sorted(s, i),
        tables_flattened(s, m, ts, sides, term, r),
        forall|b: int|
            0 <= b < ts.len() ==> numeric_sort(s[(#[trigger] ts[b]).index as int].sort),
        holds(s, i, r),
    ensures
        holds(s, i, term),
{
    let parts = s[r as int].args;
    lemma_tables_map_ok(s, m, ts, sides, term);
    lemma_and_holds(s, i, r, parts);
    assert forall|k: TermId| #[trigger] m.contains_key(k) implies eval(s, i, k as int) == eval(
        s,
        i,
        m[k] as int,
    ) by {
        let b = lemma_listed_key(s, m, ts, sides, term, k);
        lemma_sides_define(s, i, m, ts, sides, term, r, b);
    }
    lemma_subst_eval(s, i, m, term, parts[0]);
    assert(holds(s, i, parts[0]));
}

/// Flattening tables keeps satisfiability: an interpretation of the assertion,
/// extended to the result variables by the values of the tables, gives the
/// result the value that the assertion has.
pub proof fn table_flattening_preserves_models(
    s0: Seq<TermView>,
    s: Seq<TermView>,
    i: Interp,
    m: Map<TermId, TermId>,
    ts: Seq<EqIteTable>,
    sides: Seq<TermId>,
    term: TermId,
    r: TermId,
)
    requires
        terms_wf(s0),
        terms_wf(s),
        extends(s0, s),
        term < s0.len(),
        quantifier_free(s0, term),
        avoids(s0, symbols_of(Replacing::Tables), term),
        tables_flattened(s, m, ts, sides, term, r),
        forall|b: int|
            0 <= b < ts.len() ==> numeric_sort(s[(#[trigger] ts[b]).index as int].sort),
    ensures
        holds(s, defining(s0, i, Replacing::Tables), r) == holds(s0, i, term),
{
    let d = defining(s0, i, Replacing::Tables);
    let parts = s[r as int].args;
    lemma_same_walk(s0, s, term);
    lemma_tables_map_ok(s, m, ts, sides, term);
    assert forall|k: TermId| #[trigger] m.contains_key(k) implies eval(s, d, k as int) == eval(
        s,
        d,
        m[k] as int,
    ) by {
        let a = lemma_listed_key(s, m, ts, sides, term, k);
        lemma_listed_table(s, m, ts, sides, term, a);
        lemma_reach_le(s, Map::empty(), term, k);
        lemma_subterm_back(s0, s, term, k);
        lemma_avoids_below(s0, symbols_of(Replacing::Tables), term, k);
        assert(s[k as int] == s0[k as int]);
        lemma_defining_var(s0, s, i, Replacing::Tables, k, m[k], Symbol::TableResult(k, a as usize));
    }
    lemma_subst_eval(s, d, m, term, parts[0]);
    lemma_extend(s0, s, d, term);
    lemma_defining(s0, i, Replacing::Tables, term);
    lemma_and_holds(s, d, r, parts);
    if holds(s0, i, term) {
        assert forall|n: int| 0 <= n < parts.len() implies holds(s, d, #[trigger] parts[n]) by {
            if n > 0 {
                let side = sides[n - 1];
                assert(subst(s, m, sides[n - 1], parts[1 + (n - 1)]));
                let a = lemma_listed_side(s, m, ts, sides, term, n - 1);
                let table = ts[a];
                lemma_listed_table(s, m, ts, sides, term, a);
                let v = m[table.root];
                lemma_quantifier_free_below(s, term, table.root);
                lemma_side_image(s, d, m, table, v, side, parts[n]);
                table_is_a_lookup(s, d, table);
                if default_side(s, table, v, side) {
                    lemma_default_side(s, d, table, v, side);
                } else {
                    let j = choose|j: int|
                        0 <= j < table.cases@.len() && #[trigger] case_side(s, table, v, j, side);
                    lemma_case_side(s, d, table, v, j, side);
                }
            }
        }
    } else {
        assert(!holds(s, d, parts[0]));
    }
}

/// Where the parts of a spine stand.
proof fn lemma_spine_parts(
    s: Seq<TermView>,
    t: TermId,
    index: Option<TermId>,
    cases: Seq<(i64, TermId)>,
    nodes: Seq<TermId>,
)
    requires
        terms_wf(s),
        t < s.len(),
        index matches Some(x) ==> x < s.len(),
        forall|j: int| 0 <= j < cases.len() ==> (#[trigger] cases[j]).1 < s.len(),
    ensures
        ({
            let (x, all, ns, default) = spine_from(s, t, index, cases, nodes);
            &&& default < s.len()
            &&& s[default as int].sort == s[t as int].sort
            &&& x matches Some(y) ==> y < s.len()
            &&& cases.len() <= all.len()
            &&& nodes.len() <= ns.len()
            &&& all.take(cases.len() as int) == cases
            &&& ns.take(nodes.len() as int) == nodes
            &&& ns.len() - nodes.len() == all.len() - cases.len()
            &&& all.len() > cases.len() ==> ns[nodes.len() as int] == t
            &&& forall|j: int| 0 <= j < all.len() ==> (#[trigger] all[j]).1 < s.len()
            &&& forall|j: int|
                cases.len() <= j < all.len() ==> s[(#[trigger] all[j]).1 as int].sort
                    == s[t as int].sort
        }),
    decreases t,
{
    assert(node_below(s, t as int));
    if spine_case(s, t, index, cases) && s[t as int].args[2] < t {
        let (x, k) = index_const(s, s[t as int].args[0])->0;
        let (c, a, e) = (s[t as int].args[0], s[t as int].args[1], s[t as int].args[2]);
        assert(node_below(s, c as int));
        let more = cases.push((k, a));
        let further = nodes.push(t);
        lemma_spine_parts(s, e, Some(x), more, further);
        let (x2, all, ns, default) = spine_from(s, e, Some(x), more, further);
        assert(all.take(cases.len() as int) =~= all.take(more.len() as int).take(
            cases.len() as int,
        ));
        assert(more.take(cases.len() as int) =~= cases);
        assert(ns.take(nodes.len() as int) =~= ns.take(further.len() as int).take(
            nodes.len() as int,
        ));
        assert(further.take(nodes.len() as int) =~= nodes);
        assert(all[cases.len() as int] == all.take(more.len() as int)[cases.len() as int]);
        assert(ns[nodes.len() as int] == ns.take(further.len() as int)[nodes.len() as int]);
    } else {
        assert(cases.take(cases.len() as int) =~= cases);
        assert(nodes.take(nodes.len() as int) =~= nodes);
    }
}

proof fn lemma_table_parts(s: Seq<TermView>, table: EqIteTable)
    requires
        terms_wf(s),
        table.root < s.len(),
        is_table(s, table),
    ensures
        table.index < s.len(),
        table.default < s.len(),
        s[table.default as int].sort == s[table.root as int].sort,
        table.spine@.len() == table.cases@.len(),
        table.spine@[0] == table.root,
        forall|j: int|
            0 <= j < table.cases@.len() ==> (#[trigger] table.cases@[j]).1 < s.len()
                && s[table.cases@[j].1 as int].sort == s[table.root as int].sort,
{
    lemma_spine_parts(s, table.root, None, Seq::empty(), Seq::empty());
}

proof fn lemma_spine_extend(
    a: Seq<TermView>,
    b: Seq<TermView>,
    t: TermId,
    index: Option<TermId>,
    cases: Seq<(i64, TermId)>,
    nodes: Seq<TermId>,
)
    requires
        terms_wf(a),
        extends(a, b),
        t < a.len(),
    ensures
        spine_from(a, t, index, cases, nodes) == spine_from(b, t, index, cases, nodes),
    decreases t,
{
    assert(node_below(a, t as int));
    assert(b[t as int] == a[t as int]);
    if a[t as int].op == Op::Ite {
        let c = a[t as int].args[0];
        assert(node_below(a, c as int));
        assert(b[c as int] == a[c as int]);
        if a[c as int].op == Op::Eq {
            let (p, q) = (a[c as int].args[0], a[c as int].args[1]);
            assert(b[p as int] == a[p as int]);
            assert(b[q as int] == a[q as int]);
        }
        assert(index_const(a, c) == index_const(b, c));
        assert(spine_case(a, t, index, cases) == spine_case(b, t, index, cases));
        if spine_case(a, t, index, cases) && a[t as int].args[2] < t {
            let (x, k) = index_const(a, c)->0;
            lemma_spine_extend(
                a,
                b,
                a[t as int].args[2],
                Some(x),
                cases.push((k, a[t as int].args[1])),
                nodes.push(t),
            );
        }
    }
}

proof fn lemma_case_side_extend(
    a: Seq<TermView>,
    b: Seq<TermView>,
    table: EqIteTable,
    r: TermId,
    j: int,
    side: TermId,
)
    requires
        extends(a, b),
        case_side(a, table, r, j, side),
    ensures
        case_side(b, table, r, j, side),
{
    let (e, f) = choose|e: TermId, f: TermId| #[trigger]
        is_implication(a, side, e, f) && case_condition(
            a,
            table,
            j,
            e,
        ) && f < a.len() && is_equation(a, r, table.cases@[j].1, f);
    lemma_condition_extend(a, b, table, j, e);
    assert(is_implication(b, side, e, f));
}

proof fn lemma_condition_extend(
    a: Seq<TermView>,
    b: Seq<TermView>,
    table: EqIteTable,
    j: int,
    e: TermId,
)
    requires
        extends(a, b),
        case_condition(a, table, j, e),
    ensures
        case_condition(b, table, j, e),
{
    let lit = choose|lit: TermId| #[trigger]
        value_equation(a, table.index, table.cases@[j].0, lit, e);
    assert(value_equation(b, table.index, table.cases@[j].0, lit, e));
}

proof fn lemma_default_side_extend(
    a: Seq<TermView>,
    b: Seq<TermView>,
    table: EqIteTable,
    r: TermId,
    side: TermId,
)
    requires
        extends(a, b),
        default_side(a, table, r, side),
    ensures
        default_side(b, table, r, side),
{
    let (none, f) = choose|none: TermId, f: TermId| #[trigger]
        is_implication(a, side, none, f) && no_case(
            a,
            table,
            none,
        ) && f < a.len() && is_equation(a, r, table.default, f);
    let nots = a[none as int].args;
    assert forall|j: int| 0 <= j < nots.len() implies #[trigger] not_case(b, table, j, nots[j]) by {
        assert(not_case(a, table, j, nots[j]));
        let e = choose|e: TermId| #[trigger]
            is_negation(a, nots[j], e) && case_condition(a, table, j, e);
        lemma_condition_extend(a, b, table, j, e);
        assert(is_negation(b, nots[j], e));
    }
    assert(is_implication(b, side, none, f));
}

/// Adds the side conditions of a table: one per entry, then the default's.
fn push_table_sides(
    store: &mut TermStore,
    table: &EqIteTable,
    r: TermId,
    sides: &mut Vec<TermId>,
)
    requires
        old(store).wf(),
        table.root < old(store).terms().len(),
        is_table(old(store).terms(), *table),
        r < old(store).terms().len(),
        old(store).terms()[r as int].sort == old(store).terms()[table.root as int].sort,
    ensures
        grew(old(store), final(store)),
        final(sides)@.len() == old(sides)@.len() + table.cases@.len() + 1,
        final(sides)@.take(old(sides)@.len() as int) == old(sides)@,
        forall|n: int|
            old(sides)@.len() <= n < final(sides)@.len() ==> (#[trigger] final(sides)@[n])
                < final(store).terms().len(),
        forall|j: int|
            0 <= j < table.cases@.len() ==> #[trigger] case_side(
                final(store).terms(),
                *table,
                r,
                j,
                final(sides)@[old(sides)@.len() + j],
            ),
        default_side(final(store).terms(), *table, r, final(sides)@.last()),
{
    let ghost s0 = store.terms();
    let ghost first = sides@;
    let mut nots: Vec<TermId> = Vec::new();
    let mut j: usize = 0;
    proof {
        lemma_table_parts(s0, *table);
        assert(sides@.take(first.len() as int) =~= first);
    }
    while j < table.cases.len()
        invariant
            j <= table.cases.len(),
            s0 == old(store).terms(),
            terms_wf(s0),
            grew(old(store), store),
            table.root < s0.len(),
            table.index < s0.len(),
            r < s0.len(),
            s0[r as int].sort == s0[table.root as int].sort,
            forall|n: int|
                0 <= n < table.cases@.len() ==> (#[trigger] table.cases@[n]).1 < s0.len()
                    && s0[table.cases@[n].1 as int].sort == s0[table.root as int].sort,
            sides@.len() == first.len() + j,
            sides@.take(first.len() as int) == first,
            nots@.len() == j,
            forall|n: int|
                first.len() <= n < sides@.len() ==> (#[trigger] sides@[n]) < store.terms().len(),
            forall|n: int|
                0 <= n < j ==> #[trigger] case_side(
                    store.terms(),
                    *table,
                    r,
                    n,
                    sides@[first.len() + n],
                ),
            forall|n: int| 0 <= n < j ==> (#[trigger] nots@[n]) < store.terms().len(),
            forall|n: int| 0 <= n < j ==> #[trigger] not_case(store.terms(), *table, n, nots@[n]),
        decreases table.cases.len() - j,
    {
        let ghost s1 = store.terms();
        let (k, entry) = table.cases[j];
        assert(table.cases@[j as int].1 < s0.len());
        let (eq_index, lit) = mk_value_equation(store, table.index, k);
        let ghost s2 = store.terms();
        assert(case_condition(s2, *table, j as int, eq_index));
        assert(s2[r as int] == s0[r as int] && s2[entry as int] == s0[entry as int]);
        let eq_result = store.mk_eq(r, entry);
        let ghost s3 = store.terms();
        let side = store.mk_implies(eq_index, eq_result);
        let ghost s4 = store.terms();
        let not = store.mk_not(eq_index);
        let ghost before = sides@;
        let ghost nots_before = nots@;
        sides.push(side);
        nots.push(not);
        proof {
            let s5 = store.terms();
            lemma_condition_extend(s2, s4, *table, j as int, eq_index);
            assert(is_implication(s4, side, eq_index, eq_result));
            assert(case_side(s4, *table, r, j as int, side));
            lemma_condition_extend(s4, s5, *table, j as int, eq_index);
            assert(is_negation(s5, not, eq_index));
            assert(not_case(s5, *table, j as int, not));
            assert(sides@.take(first.len() as int) =~= before.take(first.len() as int));
            assert forall|n: int| 0 <= n < j + 1 implies #[trigger] case_side(
                s5,
                *table,
                r,
                n,
                sides@[first.len() + n],
            ) by {
                if n < j {
                    assert(case_side(s1, *table, r, n, before[first.len() + n]));
                    lemma_case_side_extend(s1, s5, *table, r, n, before[first.len() + n]);
                } else {
                    lemma_case_side_extend(s4, s5, *table, r, n, side);
                }
            }
            assert forall|n: int| 0 <= n < j + 1 implies #[trigger] not_case(
                s5,
                *table,
                n,
                nots@[n],
            ) by {
                if n < j {
                    assert(not_case(s1, *table, n, nots_before[n]));
                    lemma_not_case_extend(s1, s5, *table, n, nots_before[n]);
                }
            }
        }
        j = j + 1;
    }
    let ghost s1 = store.terms();
    let ghost listed = nots@;
    let none = store.mk_and(nots);
    let ghost s2 = store.terms();
    assert(s2[r as int] == s0[r as int] && s2[table.default as int] == s0[table.default as int]);
    let eq_default = store.mk_eq(r, table.default);
    let ghost s3 = store.terms();
    let side = store.mk_implies(none, eq_default);
    let ghost before = sides@;
    sides.push(side);
    proof {
        let s4 = store.terms();
        assert(s4[none as int].args == listed);
        assert forall|n: int| 0 <= n < listed.len() implies #[trigger] not_case(
            s4,
            *table,
            n,
            listed[n],
        ) by {
            lemma_not_case_extend(s1, s4, *table, n, listed[n]);
        }
        assert(no_case(s4, *table, none));
        assert(is_implication(s4, side, none, eq_default));
        assert(default_side(s4, *table, r, side));
        assert(sides@.take(first.len() as int) =~= before.take(first.len() as int));
        assert forall|n: int| 0 <= n < table.cases@.len() implies #[trigger] case_side(
            s4,
            *table,
            r,
            n,
            sides@[first.len() + n],
        ) by {
            assert(case_side(s1, *table, r, n, before[first.len() + n]));
            lemma_case_side_extend(s1, s4, *table, r, n, before[first.len() + n]);
        }
    }
}

proof fn lemma_not_case_extend(
    a: Seq<TermView>,
    b: Seq<TermView>,
    table: EqIteTable,
    j: int,
    n: TermId,
)
    requires
        extends(a, b),
        not_case(a, table, j, n),
    ensures
        not_case(b, table, j, n),
{
    let e = choose|e: TermId| #[trigger] is_negation(a, n, e) && case_condition(a, table, j, e);
    lemma_condition_extend(a, b, table, j, e);
    assert(is_negation(b, n, e));
}

/// The magnitude of a word, which wraps where it does not fit.
pub open spec fn word_magnitude(v: i64) -> i64 {
    if v == i64::MIN {
        v
    } else if v < 0 {
        (-v) as i64
    } else {
        v
    }
}

/// The sum, held to the range of a word.
pub open spec fn saturated(x: int) -> i64 {
    if x > i64::MAX {
        i64::MAX
    } else if x < i64::MIN {
        i64::MIN
    } else {
        x as i64
    }
}

pub(crate) fn saturating_sum(a: i64, b: i64) -> (r: i64)
    ensures
        r == saturated(a + b),
{
    match a.checked_add(b) {
        Some(c) => c,
        None => {
            if b < 0 {
                i64::MIN
            } else {
                i64::MAX
            }
        },
    }
}

/// The weight listed for a constant, 0 where there is none.
pub open spec fn weight_in(list: Seq<(i64, i64)>, k: i64) -> i64
    decreases list.len(),
{
    if list.len() == 0 {
        0
    } else if list[0].0 == k {
        list[0].1
    } else {
        weight_in(list.drop_first(), k)
    }
}

/// The weight of a constant at an index.
pub open spec fn weight_at(scores: Map<TermId, Vec<(i64, i64)>>, t: TermId, k: i64) -> i64 {
    if scores.contains_key(t) {
        weight_in(scores[t]@, k)
    } else {
        0
    }
}

proof fn lemma_weight_in(list: Seq<(i64, i64)>, n: int, k: i64)
    requires
        0 <= n <= list.len(),
        forall|j: int| 0 <= j < n ==> (#[trigger] list[j]).0 != k,
    ensures
        weight_in(list, k) == weight_in(list.skip(n), k),
    decreases n,
{
    if n == 0 {
        assert(list.skip(0) =~= list);
    } else {
        let rest = list.drop_first();
        assert forall|j: int| 0 <= j < n - 1 implies (#[trigger] rest[j]).0 != k by {
            assert(list[j + 1].0 != k);
        }
        assert(list[0].0 != k);
        lemma_weight_in(rest, n - 1, k);
        assert(rest.skip(n - 1) =~= list.skip(n));
    }
}

proof fn lemma_weight_update(list: Seq<(i64, i64)>, n: int, w: i64, k: i64)
    requires
        0 <= n < list.len(),
        forall|j: int| 0 <= j < n ==> (#[trigger] list[j]).0 != list[n].0,
    ensures
        weight_in(list.update(n, (list[n].0, w)), k) == (if k == list[n].0 {
            w
        } else {
            weight_in(list, k)
        }),
    decreases n,
{
    let changed = list.update(n, (list[n].0, w));
    if n == 0 {
        assert(changed.drop_first() =~= list.drop_first());
    } else {
        let rest = list.drop_first();
        assert forall|j: int| 0 <= j < n - 1 implies (#[trigger] rest[j]).0 != rest[n - 1].0 by {
            assert(list[j + 1].0 != list[n].0);
        }
        assert(list[0].0 != list[n].0);
        lemma_weight_update(rest, n - 1, w, k);
        assert(changed.drop_first() =~= rest.update(n - 1, (rest[n - 1].0, w)));
    }
}

proof fn lemma_weight_push(list: Seq<(i64, i64)>, item: (i64, i64), k: i64)
    requires
        forall|j: int| 0 <= j < list.len() ==> (#[trigger] list[j]).0 != item.0,
    ensures
        weight_in(list.push(item), k) == (if k == item.0 {
            item.1
        } else {
            weight_in(list, k)
        }),
    decreases list.len(),
{
    let more = list.push(item);
    if list.len() == 0 {
        assert(more.drop_first().len() == 0);
        assert(weight_in(more.drop_first(), k) == 0);
    } else {
        let rest = list.drop_first();
        assert forall|j: int| 0 <= j < rest.len() implies (#[trigger] rest[j]).0 != item.0 by {
            assert(list[j + 1].0 != item.0);
        }
        assert(list[0].0 != item.0);
        lemma_weight_push(rest, item, k);
        assert(more.drop_first() =~= rest.push(item));
    }
}

/// Adds to the weight of a constant at an index.
fn add_weight(scores: &mut FxHashMap<TermId, Vec<(i64, i64)>>, t: TermId, k: i64, w: i64)
    ensures
        forall|x: TermId, y: i64| #[trigger]
            weight_at(final(scores)@, x, y) == (if x == t && y == k {
                saturated(weight_at(old(scores)@, x, y) + w)
            } else {
                weight_at(old(scores)@, x, y)
            }),
{
    let mut list: Vec<(i64, i64)> = match map_get(scores, t) {
        Some(v) => copy_words(v),
        None => Vec::new(),
    };
    let ghost first = list@;
    proof {
        assert forall|y: i64| weight_in(first, y) == #[trigger] weight_at(scores@, t, y) by {}
    }
    let mut n: usize = 0;
    while n < list.len() && list[n].0 != k
        invariant
            n <= list.len(),
            list@ == first,
            forall|j: int| 0 <= j < n ==> (#[trigger] first[j]).0 != k,
        decreases list.len() - n,
    {
        n = n + 1;
    }
    proof {
        lemma_weight_in(first, n as int, k);
    }
    if n < list.len() {
        let sum = saturating_sum(list[n].1, w);
        list.set(n, (k, sum));
        proof {
            assert(list@ =~= first.update(n as int, (first[n as int].0, sum)));
            assert forall|y: i64| #[trigger]
                weight_in(list@, y) == (if y == k {
                    sum
                } else {
                    weight_in(first, y)
                }) by {
                lemma_weight_update(first, n as int, sum, y);
            }
        }
    } else {
        list.push((k, w));
        proof {
            assert(first.skip(n as int).len() == 0);
            assert forall|y: i64| #[trigger]
                weight_in(list@, y) == (if y == k {
                    w
                } else {
                    weight_in(first, y)
                }) by {
                lemma_weight_push(first, (k, w), y);
            }
        }
    }
    map_insert(scores, t, list);
}

/// The weight of `k` at `x` after the first `n` entries of a table have been
/// counted, for its index and for the name of its index.
pub open spec fn weight_after(
    s: Seq<TermView>,
    base: i64,
    rep: TermId,
    table: EqIteTable,
    n: int,
    x: TermId,
    k: i64,
) -> i64
    decreases n,
{
    if n <= 0 {
        base
    } else {
        let w = weight_after(s, base, rep, table, n - 1, x, k);
        match int_literal(s, table.cases@[n - 1].1) {
            Some(v) => if table.cases@[n - 1].0 == k {
                let w1 = if x == rep {
                    saturated(w + word_magnitude(v))
                } else {
                    w
                };
                if x == table.index {
                    saturated(w1 + word_magnitude(v))
                } else {
                    w1
                }
            } else {
                w
            },
            None => w,
        }
    }
}

/// The constant is one of the table's.
pub open spec fn table_key(table: EqIteTable, k: i64) -> bool {
    exists|j: int| 0 <= j < table.cases@.len() && (#[trigger] table.cases@[j]).0 == k
}

/// The literal 0 or 1.
pub open spec fn binary_literal(s: Seq<TermView>, t: TermId) -> bool {
    int_literal(s, t) == Some(0i64) || int_literal(s, t) == Some(1i64)
}

/// All entries of the table are 0 or 1.
pub open spec fn binary_table(s: Seq<TermView>, table: EqIteTable) -> bool {
    &&& forall|j: int|
        0 <= j < table.cases@.len() ==> binary_literal(s, (#[trigger] table.cases@[j]).1)
    &&& binary_literal(s, table.default)
}

/// The name of a term, or the term itself where it has none.
pub open spec fn named(reps: Map<TermId, TermId>, t: TermId) -> TermId {
    if reps.contains_key(t) {
        reps[t]
    } else {
        t
    }
}

fn is_binary_literal(store: &TermStore, t: TermId) -> (b: bool)
    ensures
        b == binary_literal(store.terms(), t),
{
    match int_const_val(t, store) {
        Some(v) => v == 0 || v == 1,
        None => false,
    }
}

fn is_binary_table(store: &TermStore, table: &EqIteTable) -> (b: bool)
    ensures
        b == binary_table(store.terms(), *table),
{
    let mut j: usize = 0;
    while j < table.cases.len()
        invariant
            j <= table.cases.len(),
            forall|n: int|
                0 <= n < j ==> binary_literal(store.terms(), (#[trigger] table.cases@[n]).1),
        decreases table.cases.len() - j,
    {
        if !is_binary_literal(store, table.cases[j].1) {
            assert(!binary_literal(store.terms(), table.cases@[j as int].1));
            return false;
        }
        j = j + 1;
    }
    is_binary_literal(store, table.default)
}

/// What recording a table with result `r` changes.
pub open spec fn table_noted(
    s: Seq<TermView>,
    before: &TableState,
    after: &TableState,
    table: EqIteTable,
    r: TermId,
) -> bool {
    let rep = named(before.unit_eq_rep@, table.index);
    &&& after.unit_eq_rep == before.unit_eq_rep
    &&& after.table_index_domain_eqs == before.table_index_domain_eqs
    &&& after.case_split_terms == before.case_split_terms
    &&& after.ite_result_terms@ == before.ite_result_terms@.insert(r)
    &&& after.table_index_terms@ == before.table_index_terms@.insert(table.index)
    &&& forall|t: TermId, y: i64| #[trigger]
        keys_at(after.table_index_keys@, t).contains(y) <==> keys_at(
            before.table_index_keys@,
            t,
        ).contains(y) || (t == table.index && table_key(table, y))
    &&& forall|x: TermId, y: i64| #[trigger]
        weight_at(after.table_index_key_score@, x, y) == weight_after(
            s,
            weight_at(before.table_index_key_score@, x, y),
            rep,
            table,
            table.cases@.len() as int,
            x,
            y,
        )
    &&& after.zero_one_terms@ == (if binary_table(s, table) {
        before.zero_one_terms@.insert(r)
    } else {
        before.zero_one_terms@
    })
    &&& after.binary_table_results@ == (if binary_table(s, table) {
        before.binary_table_results@.insert(r)
    } else {
        before.binary_table_results@
    })
}

impl TableState {
    /// Adds the constants of a table to the keys of its index.
    fn add_table_keys(&mut self, table: &EqIteTable)
        requires
            forall|t: TermId| #[trigger]
                old(self).table_index_keys@.contains_key(t) ==> ascending_keys(
                    old(self).table_index_keys@[t]@,
                ),
        ensures
            *final(self) == (TableState {
                table_index_keys: final(self).table_index_keys,
                ..*old(self)
            }),
            final(self).table_index_keys@.dom() == old(self).table_index_keys@.dom().insert(
                table.index,
            ),
            forall|t: TermId| #[trigger]
                final(self).table_index_keys@.contains_key(t) ==> ascending_keys(
                    final(self).table_index_keys@[t]@,
                ),
            forall|t: TermId, y: i64| #[trigger]
                keys_at(final(self).table_index_keys@, t).contains(y) <==> keys_at(
                    old(self).table_index_keys@,
                    t,
                ).contains(y) || (t == table.index && table_key(*table, y)),
    {
        let mut keys: Vec<i64> = match map_get(&self.table_index_keys, table.index) {
            Some(v) => copy_words(v),
            None => Vec::new(),
        };
        let ghost first = keys@;
        assert(first == keys_at(self.table_index_keys@, table.index));
        let mut j: usize = 0;
        while j < table.cases.len()
            invariant
                j <= table.cases.len(),
                ascending_keys(keys@),
                forall|y: i64| #[trigger]
                    keys@.contains(y) <==> first.contains(y) || exists|n: int|
                        0 <= n < j && (#[trigger] table.cases@[n]).0 == y,
            decreases table.cases.len() - j,
        {
            let ghost before = keys@;
            insert_key(&mut keys, table.cases[j].0);
            proof {
                let item = table.cases@[j as int];
                assert forall|y: i64| #[trigger]
                    keys@.contains(y) <==> first.contains(y) || exists|n: int|
                        0 <= n < j + 1 && (#[trigger] table.cases@[n]).0 == y by {
                    assert(keys@.contains(y) <==> before.contains(y) || y == item.0);
                    if y == item.0 {
                        assert(table.cases@[j as int].0 == y);
                    }
                }
            }
            j = j + 1;
        }
        map_insert(&mut self.table_index_keys, table.index, keys);
        assert(self.table_index_keys@.dom() =~= old(self).table_index_keys@.dom().insert(
            table.index,
        ));
    }

    /// Adds the constant entries of a table to the weights of its index.
    fn add_table_weights(&mut self, store: &TermStore, table: &EqIteTable)
        ensures
            *final(self) == (TableState {
                table_index_key_score: final(self).table_index_key_score,
                ..*old(self)
            }),
            forall|x: TermId, y: i64| #[trigger]
                weight_at(final(self).table_index_key_score@, x, y) == weight_after(
                    store.terms(),
                    weight_at(old(self).table_index_key_score@, x, y),
                    named(old(self).unit_eq_rep@, table.index),
                    *table,
                    table.cases@.len() as int,
                    x,
                    y,
                ),
    {
        let ghost s = store.terms();
        let ghost first = self.table_index_key_score@;
        let rep: TermId = match map_get(&self.unit_eq_rep, table.index) {
            Some(x) => *x,
            None => table.index,
        };
        let mut j: usize = 0;
        while j < table.cases.len()
            invariant
                j <= table.cases.len(),
                s == store.terms(),
                first == old(self).table_index_key_score@,
                rep == named(old(self).unit_eq_rep@, table.index),
                *self == (TableState {
                    table_index_key_score: self.table_index_key_score,
                    ..*old(self)
                }),
                forall|x: TermId, y: i64| #[trigger]
                    weight_at(self.table_index_key_score@, x, y) == weight_after(
                        s,
                        weight_at(first, x, y),
                        rep,
                        *table,
                        j as int,
                        x,
                        y,
                    ),
            decreases table.cases.len() - j,
        {
            let (k, entry) = table.cases[j];
            match int_const_val(entry, store) {
                Some(v) => {
                    let w: i64 = if v == i64::MIN {
                        v
                    } else if v < 0 {
                        -v
                    } else {
                        v
                    };
                    add_weight(&mut self.table_index_key_score, rep, k, w);
                    add_weight(&mut self.table_index_key_score, table.index, k, w);
                },
                None => {},
            }
            j = j + 1;
        }
    }

    /// Records a table and its result.
    fn note_table(&mut self, store: &TermStore, table: &EqIteTable, r: TermId)
        requires
            store.wf(),
            old(self).wf(store.terms()),
            table.root < store.terms().len(),
            is_table(store.terms(), *table),
            r < store.terms().len(),
        ensures
            final(self).wf(store.terms()),
            table_noted(store.terms(), old(self), final(self), *table, r),
    {
        proof {
            lemma_table_parts(store.terms(), *table);
        }
        set_insert(&mut self.ite_result_terms, r);
        set_insert(&mut self.table_index_terms, table.index);
        self.add_table_keys(table);
        self.add_table_weights(store, table);
        if is_binary_table(store, table) {
            set_insert(&mut self.zero_one_terms, r);
            set_insert(&mut self.binary_table_results, r);
        }
        proof {
            let s = store.terms();
            assert forall|t: TermId| #[trigger]
                self.table_index_keys@.contains_key(t) implies t < s.len() && ascending_keys(
                self.table_index_keys@[t]@,
            ) && self.table_index_terms@.contains(t) by {
                assert(self.table_index_keys@.dom().contains(t));
            }
        }
    }
}

/// The order in which tables are taken: more entries first, then the earlier
/// root.
pub open spec fn ranks_before(a: EqIteTable, b: EqIteTable) -> bool {
    a.cases@.len() > b.cases@.len() || (a.cases@.len() == b.cases@.len() && a.root < b.root)
}

/// The node lies on the spine of one of the tables.
pub open spec fn on_spine(ts: Seq<EqIteTable>, x: TermId) -> bool {
    exists|a: int| 0 <= a < ts.len() && (#[trigger] ts[a]).spine@.contains(x)
}

/// The tables of `term` that are taken: in rank order, none whose root lies on
/// the spine of an earlier one, and each table of `term` on some spine.
pub open spec fn chosen_tables(s: Seq<TermView>, term: TermId, ts: Seq<EqIteTable>) -> bool {
    &&& forall|a: int|
        0 <= a < ts.len() ==> is_table(s, #[trigger] ts[a]) && subterm(s, term, ts[a].root)
    &&& forall|a: int, b: int|
        0 <= a < b < ts.len() ==> ranks_before(#[trigger] ts[a], #[trigger] ts[b])
            && !ts[a].spine@.contains(ts[b].root)
    &&& forall|x: TermId|
        subterm(s, term, x) && (#[trigger] spine(s, x)).1.len() >= MIN_TABLE_CASES ==> on_spine(
            ts,
            x,
        )
}

/// Inserts a table at its rank, after those with as many entries.
fn place_table(list: &mut Vec<EqIteTable>, table: EqIteTable)
    requires
        forall|a: int, b: int|
            0 <= a < b < old(list)@.len() ==> ranks_before(
                #[trigger] old(list)@[a],
                #[trigger] old(list)@[b],
            ),
        forall|a: int| 0 <= a < old(list)@.len() ==> (#[trigger] old(list)@[a]).root < table.root,
    ensures
        forall|a: int, b: int|
            0 <= a < b < final(list)@.len() ==> ranks_before(
                #[trigger] final(list)@[a],
                #[trigger] final(list)@[b],
            ),
        exists|p: int|
            0 <= p <= old(list)@.len() && final(list)@ == #[trigger] old(list)@.insert(p, table),
{
    let ghost first = list@;
    let mut p: usize = 0;
    while p < list.len() && list[p].cases.len() >= table.cases.len()
        invariant
            p <= list.len(),
            list@ == first,
            forall|a: int|
                0 <= a < p ==> (#[trigger] first[a]).cases@.len() >= table.cases@.len(),
        decreases list.len() - p,
    {
        p = p + 1;
    }
    let ghost item = table;
    list.insert(p, table);
    proof {
        assert(list@ =~= first.insert(p as int, item));
        assert forall|a: int, b: int| 0 <= a < b < list@.len() implies ranks_before(
            #[trigger] list@[a],
            #[trigger] list@[b],
        ) by {
            let x = if a < p { a } else { a - 1 };
            let y = if b < p { b } else { b - 1 };
            if a == p {
                assert(first[y] == list@[b]);
                if p < y {
                    assert(ranks_before(first[p as int], first[y]));
                }
            } else if b == p {
                assert(first[x] == list@[a]);
                assert(first[x].root < item.root);
            } else {
                assert(first[x] == list@[a] && first[y] == list@[b]);
            }
        }
    }
}

/// The tables of a term by rank.
fn ranked_tables(store: &TermStore, term: TermId) -> (list: Vec<EqIteTable>)
    requires
        store.wf(),
        term < store.terms().len(),
    ensures
        forall|a: int|
            0 <= a < list@.len() ==> is_table(store.terms(), #[trigger] list@[a]) && subterm(
                store.terms(),
                term,
                list@[a].root,
            ),
        forall|a: int, b: int|
            0 <= a < b < list@.len() ==> ranks_before(#[trigger] list@[a], #[trigger] list@[b]),
        forall|x: TermId|
            subterm(store.terms(), term, x) && (#[trigger] spine(store.terms(), x)).1.len()
                >= MIN_TABLE_CASES ==> exists|a: int|
                0 <= a < list@.len() && (#[trigger] list@[a]).root == x,
{
    let ghost s = store.terms();
    let subterms = collect_subterms(store, term);
    let mut list: Vec<EqIteTable> = Vec::new();
    let mut n: usize = 0;
    while n < subterms.len()
        invariant
            n <= subterms.len(),
            store.wf(),
            s == store.terms(),
            lists_reach(subterms@, s, Map::empty(), term),
            forall|a: int|
                0 <= a < list@.len() ==> is_table(s, #[trigger] list@[a]) && subterm(
                    s,
                    term,
                    list@[a].root,
                ) && (n < subterms@.len() ==> list@[a].root < subterms@[n as int]),
            forall|a: int, b: int|
                0 <= a < b < list@.len() ==> ranks_before(
                    #[trigger] list@[a],
                    #[trigger] list@[b],
                ),
            forall|m: int|
                0 <= m < n && spine(s, #[trigger] subterms@[m]).1.len() >= MIN_TABLE_CASES
                    ==> exists|a: int|
                    0 <= a < list@.len() && (#[trigger] list@[a]).root == subterms@[m],
        decreases subterms.len() - n,
    {
        let ghost before = list@;
        let x: TermId = subterms[n];
        assert(subterms@.contains(x));
        if let Some(table) = match_eq_ite_table(x, store) {
            let ghost item = table;
            place_table(&mut list, table);
            proof {
                let p = choose|p: int|
                    0 <= p <= before.len() && list@ == #[trigger] before.insert(p, item);
                assert forall|a: int| 0 <= a < list@.len() implies is_table(
                    s,
                    #[trigger] list@[a],
                ) && subterm(s, term, list@[a].root) && list@[a].root <= x by {
                    if a != p {
                        let q = if a < p { a } else { a - 1 };
                        assert(list@[a] == before[q]);
                    }
                }
                assert forall|m: int|
                    0 <= m < n + 1 && spine(s, #[trigger] subterms@[m]).1.len()
                        >= MIN_TABLE_CASES implies exists|a: int|
                    0 <= a < list@.len() && (#[trigger] list@[a]).root == subterms@[m] by {
                    if m == n {
                        assert(list@[p].root == subterms@[m]);
                    } else {
                        let q = choose|q: int|
                            0 <= q < before.len() && (#[trigger] before[q]).root == subterms@[m];
                        let a = if q < p { q } else { q + 1 };
                        assert(list@[a] == before[q]);
                    }
                }
            }
        }
        n = n + 1;
    }
    proof {
        assert forall|x: TermId|
            subterm(s, term, x) && (#[trigger] spine(s, x)).1.len()
                >= MIN_TABLE_CASES implies exists|a: int|
            0 <= a < list@.len() && (#[trigger] list@[a]).root == x by {
            assert(subterms@.contains(x));
            let m = choose|m: int| 0 <= m < subterms@.len() && subterms@[m] == x;
            assert(spine(s, subterms@[m]).1.len() >= MIN_TABLE_CASES);
        }
    }
    list
}

/// The tables of a term that are flattened.
fn maximal_tables(store: &TermStore, term: TermId) -> (chosen: Vec<EqIteTable>)
    requires
        store.wf(),
        term < store.terms().len(),
    ensures
        chosen_tables(store.terms(), term, chosen@),
{
    let ghost s = store.terms();
    let mut ranked = ranked_tables(store, term);
    let ghost all = ranked@;
    let ghost mut done: int = 0;
    let mut covered: FxHashSet<TermId> = set_new();
    let mut chosen: Vec<EqIteTable> = Vec::new();
    assert(all.skip(0) =~= all);
    while ranked.len() > 0
        invariant
            0 <= done <= all.len(),
            ranked@ == all.skip(done),
            terms_wf(s),
            term < s.len(),
            forall|a: int|
                0 <= a < all.len() ==> is_table(s, #[trigger] all[a]) && subterm(
                    s,
                    term,
                    all[a].root,
                ),
            forall|a: int, b: int|
                0 <= a < b < all.len() ==> ranks_before(#[trigger] all[a], #[trigger] all[b]),
            forall|a: int|
                0 <= a < chosen@.len() ==> exists|p: int|
                    0 <= p < done && #[trigger] all[p] == #[trigger] chosen@[a],
            forall|a: int, b: int|
                0 <= a < b < chosen@.len() ==> ranks_before(
                    #[trigger] chosen@[a],
                    #[trigger] chosen@[b],
                ) && !chosen@[a].spine@.contains(chosen@[b].root),
            forall|x: TermId| #[trigger] covered@.contains(x) <==> on_spine(chosen@, x),
            forall|p: int| 0 <= p < done ==> on_spine(chosen@, (#[trigger] all[p]).root),
        decreases ranked.len(),
    {
        let ghost before = chosen@;
        let table = ranked.remove(0);
        assert(table == all[done]);
        assert(all.skip(done).remove(0) =~= all.skip(done + 1));
        if set_contains(&covered, table.root) {
            proof {
                assert forall|a: int| 0 <= a < chosen@.len() implies exists|p: int|
                    0 <= p < done + 1 && #[trigger] all[p] == #[trigger] chosen@[a] by {
                    let p = choose|p: int|
                        0 <= p < done && #[trigger] all[p] == #[trigger] chosen@[a];
                    assert(all[p] == chosen@[a]);
                }
                done = done + 1;
            }
            continue;
        }
        let ghost base = covered@;
        let mut n: usize = 0;
        while n < table.spine.len()
            invariant
                n <= table.spine.len(),
                forall|x: TermId| #[trigger]
                    covered@.contains(x) <==> base.contains(x) || exists|k: int|
                        0 <= k < n && #[trigger] table.spine@[k] == x,
            decreases table.spine.len() - n,
        {
            let ghost so_far = covered@;
            let y: TermId = table.spine[n];
            set_insert(&mut covered, y);
            proof {
                assert forall|x: TermId| #[trigger]
                    covered@.contains(x) <==> base.contains(x) || exists|k: int|
                        0 <= k < n + 1 && #[trigger] table.spine@[k] == x by {
                    assert(covered@.contains(x) <==> so_far.contains(x) || x == y);
                    if x == y {
                        assert(table.spine@[n as int] == x);
                    }
                }
            }
            n = n + 1;
        }
        let ghost item = table;
        chosen.push(table);
        proof {
            assert(chosen@ == before.push(item));
            lemma_reach_le(s, Map::empty(), term, item.root);
            lemma_table_parts(s, item);
            assert forall|a: int| 0 <= a < chosen@.len() implies exists|p: int|
                0 <= p < done + 1 && #[trigger] all[p] == #[trigger] chosen@[a] by {
                if a < before.len() {
                    let p = choose|p: int|
                        0 <= p < done && #[trigger] all[p] == #[trigger] before[a];
                    assert(all[p] == chosen@[a]);
                } else {
                    assert(all[done] == chosen@[a]);
                }
            }
            assert forall|a: int, b: int| 0 <= a < b < chosen@.len() implies ranks_before(
                #[trigger] chosen@[a],
                #[trigger] chosen@[b],
            ) && !chosen@[a].spine@.contains(chosen@[b].root) by {
                if b == before.len() {
                    let p = choose|p: int|
                        0 <= p < done && #[trigger] all[p] == #[trigger] before[a];
                    assert(ranks_before(all[p], all[done]));
                    if before[a].spine@.contains(item.root) {
                        assert(on_spine(before, item.root));
                    }
                } else {
                    assert(ranks_before(before[a], before[b]));
                }
            }
            lemma_on_spine_push(before, item);
            assert forall|x: TermId| #[trigger] covered@.contains(x) <==> on_spine(
                chosen@,
                x,
            ) by {
                assert(base.contains(x) <==> on_spine(before, x));
            }
            assert(item.spine@.contains(item.root)) by {
                assert(item.spine@[0] == item.root);
            }
            assert forall|p: int| 0 <= p < done + 1 implies on_spine(
                chosen@,
                (#[trigger] all[p]).root,
            ) by {
                if p < done {
                    assert(on_spine(before, all[p].root));
                }
            }
            done = done + 1;
        }
    }
    proof {
        assert(all.skip(done).len() == 0);
        assert forall|x: TermId|
            subterm(s, term, x) && (#[trigger] spine(s, x)).1.len()
                >= MIN_TABLE_CASES implies on_spine(chosen@, x) by {
            let a = choose|a: int| 0 <= a < all.len() && (#[trigger] all[a]).root == x;
            assert(on_spine(chosen@, all[a].root));
        }
        assert forall|a: int| 0 <= a < chosen@.len() implies is_table(s, #[trigger] chosen@[a])
            && subterm(s, term, chosen@[a].root) by {
            let p = choose|p: int| 0 <= p < done && #[trigger] all[p] == #[trigger] chosen@[a];
            assert(is_table(s, all[p]));
        }
    }
    chosen
}

proof fn lemma_on_spine_push(ts: Seq<EqIteTable>, item: EqIteTable)
    ensures
        forall|x: TermId| #[trigger]
            on_spine(ts.push(item), x) <==> on_spine(ts, x) || item.spine@.contains(x),
{
    let more = ts.push(item);
    assert forall|x: TermId| #[trigger] on_spine(more, x) <==> on_spine(ts, x)
        || item.spine@.contains(x) by {
        if on_spine(ts, x) {
            let a = choose|a: int| 0 <= a < ts.len() && (#[trigger] ts[a]).spine@.contains(x);
            assert(more[a].spine@.contains(x));
        }
        if item.spine@.contains(x) {
            assert(more[ts.len() as int].spine@.contains(x));
        }
        if on_spine(more, x) {
            let a = choose|a: int| 0 <= a < more.len() && (#[trigger] more[a]).spine@.contains(x);
            if a < ts.len() {
                assert(ts[a].spine@.contains(x));
            }
        }
    }
}

/// The weight of `k` at `x` after the first `n` tables.
pub open spec fn tables_weight(
    s: Seq<TermView>,
    base: i64,
    reps: Map<TermId, TermId>,
    ts: Seq<EqIteTable>,
    n: int,
    x: TermId,
    k: i64,
) -> i64
    decreases n,
{
    if n <= 0 {
        base
    } else {
        weight_after(
            s,
            tables_weight(s, base, reps, ts, n - 1, x, k),
            named(reps, ts[n - 1].index),
            ts[n - 1],
            ts[n - 1].cases@.len() as int,
            x,
            k,
        )
    }
}

/// One of the first `n` tables has the index `t` and the constant `k`.
pub open spec fn key_of_tables(ts: Seq<EqIteTable>, n: int, t: TermId, k: i64) -> bool {
    exists|a: int| 0 <= a < n && (#[trigger] ts[a]).index == t && table_key(ts[a], k)
}

/// The variable stands for one of the first `n` tables.
pub open spec fn result_of_tables(
    m: Map<TermId, TermId>,
    ts: Seq<EqIteTable>,
    n: int,
    x: TermId,
) -> bool {
    exists|a: int| 0 <= a < n && m[(#[trigger] ts[a]).root] == x
}

/// The variable stands for one of the first `n` tables, whose entries are 0
/// and 1.
pub open spec fn binary_result(
    s: Seq<TermView>,
    m: Map<TermId, TermId>,
    ts: Seq<EqIteTable>,
    n: int,
    x: TermId,
) -> bool {
    exists|a: int| 0 <= a < n && m[(#[trigger] ts[a]).root] == x && binary_table(s, ts[a])
}

/// What recording the first `n` tables changes.
pub open spec fn tables_noted(
    s: Seq<TermView>,
    before: &TableState,
    after: &TableState,
    m: Map<TermId, TermId>,
    ts: Seq<EqIteTable>,
    n: int,
) -> bool {
    &&& after.unit_eq_rep == before.unit_eq_rep
    &&& after.table_index_domain_eqs == before.table_index_domain_eqs
    &&& after.case_split_terms == before.case_split_terms
    &&& forall|x: TermId| #[trigger]
        after.ite_result_terms@.contains(x) <==> before.ite_result_terms@.contains(x)
            || result_of_tables(m, ts, n, x)
    &&& forall|x: TermId| #[trigger]
        after.table_index_terms@.contains(x) <==> before.table_index_terms@.contains(x)
            || exists|a: int| 0 <= a < n && (#[trigger] ts[a]).index == x
    &&& forall|t: TermId, y: i64| #[trigger]
        keys_at(after.table_index_keys@, t).contains(y) <==> keys_at(
            before.table_index_keys@,
            t,
        ).contains(y) || key_of_tables(ts, n, t, y)
    &&& forall|x: TermId, y: i64| #[trigger]
        weight_at(after.table_index_key_score@, x, y) == tables_weight(
            s,
            weight_at(before.table_index_key_score@, x, y),
            before.unit_eq_rep@,
            ts,
            n,
            x,
            y,
        )
    &&& forall|x: TermId| #[trigger]
        after.zero_one_terms@.contains(x) <==> before.zero_one_terms@.contains(x) || binary_result(
            s,
            m,
            ts,
            n,
            x,
        )
    &&& forall|x: TermId| #[trigger]
        after.binary_table_results@.contains(x) <==> before.binary_table_results@.contains(x)
            || binary_result(s, m, ts, n, x)
}

/// What flattening changes: the tables taken are recorded, and names and keys
/// are carried over to the terms they turn into.
pub open spec fn flattening(
    s0: Seq<TermView>,
    before: &TableState,
    s: Seq<TermView>,
    after: &TableState,
    m: Map<TermId, TermId>,
    ts: Seq<EqIteTable>,
    sides: Seq<TermId>,
    term: TermId,
    r: TermId,
) -> bool {
    &&& chosen_tables(s0, term, ts)
    &&& tables_flattened(s, m, ts, sides, term, r)
    &&& rebound(s, m, before.unit_eq_rep@, after.unit_eq_rep@)
    &&& exists|noted: TableState|
        tables_noted(s, before, &noted, m, ts, ts.len() as int) && #[trigger] keys_rebound(
            s,
            m,
            noted.table_index_keys@,
            after.table_index_keys@,
        ) && indices_rebound(
            s,
            m,
            noted.table_index_keys@,
            noted.table_index_terms@,
            after.table_index_terms@,
        ) && *after == (TableState {
            unit_eq_rep: after.unit_eq_rep,
            table_index_terms: after.table_index_terms,
            table_index_keys: after.table_index_keys,
            ..noted
        })
}

proof fn lemma_literal_extend(a: Seq<TermView>, b: Seq<TermView>, t: TermId)
    requires
        extends(a, b),
        t < a.len(),
    ensures
        int_literal(a, t) == int_literal(b, t),
{
    assert(b[t as int] == a[t as int]);
}

proof fn lemma_weight_extend(
    a: Seq<TermView>,
    b: Seq<TermView>,
    base: i64,
    rep: TermId,
    table: EqIteTable,
    n: int,
    x: TermId,
    k: i64,
)
    requires
        extends(a, b),
        n <= table.cases@.len(),
        forall|j: int| 0 <= j < table.cases@.len() ==> (#[trigger] table.cases@[j]).1 < a.len(),
    ensures
        weight_after(a, base, rep, table, n, x, k) == weight_after(b, base, rep, table, n, x, k),
    decreases n,
{
    if n > 0 {
        lemma_weight_extend(a, b, base, rep, table, n - 1, x, k);
        assert(table.cases@[n - 1].1 < a.len());
        lemma_literal_extend(a, b, table.cases@[n - 1].1);
    }
}

proof fn lemma_tables_weight_extend(
    a: Seq<TermView>,
    b: Seq<TermView>,
    base: i64,
    reps: Map<TermId, TermId>,
    ts: Seq<EqIteTable>,
    n: int,
    x: TermId,
    k: i64,
)
    requires
        extends(a, b),
        n <= ts.len(),
        forall|c: int, j: int|
            0 <= c < ts.len() && 0 <= j < ts[c].cases@.len() ==> (
            #[trigger] ts[c].cases@[j]).1 < a.len(),
    ensures
        tables_weight(a, base, reps, ts, n, x, k) == tables_weight(b, base, reps, ts, n, x, k),
    decreases n,
{
    if n > 0 {
        lemma_tables_weight_extend(a, b, base, reps, ts, n - 1, x, k);
        let table = ts[n - 1];
        assert forall|j: int| 0 <= j < table.cases@.len() implies (#[trigger] table.cases@[j]).1
            < a.len() by {
            assert(ts[n - 1].cases@[j].1 < a.len());
        }
        lemma_weight_extend(
            a,
            b,
            tables_weight(a, base, reps, ts, n - 1, x, k),
            named(reps, table.index),
            table,
            table.cases@.len() as int,
            x,
            k,
        );
    }
}

proof fn lemma_binary_extend(a: Seq<TermView>, b: Seq<TermView>, table: EqIteTable)
    requires
        extends(a, b),
        table.default < a.len(),
        forall|j: int| 0 <= j < table.cases@.len() ==> (#[trigger] table.cases@[j]).1 < a.len(),
    ensures
        binary_table(a, table) == binary_table(b, table),
{
    lemma_literal_extend(a, b, table.default);
    assert forall|j: int| 0 <= j < table.cases@.len() implies int_literal(
        a,
        (#[trigger] table.cases@[j]).1,
    ) == int_literal(b, table.cases@[j].1) by {
        lemma_literal_extend(a, b, table.cases@[j].1);
    }
    if binary_table(a, table) {
        assert forall|j: int| 0 <= j < table.cases@.len() implies binary_literal(
            b,
            (#[trigger] table.cases@[j]).1,
        ) by {
            assert(binary_literal(a, table.cases@[j].1));
        }
    }
    if binary_table(b, table) {
        assert forall|j: int| 0 <= j < table.cases@.len() implies binary_literal(
            a,
            (#[trigger] table.cases@[j]).1,
        ) by {
            assert(binary_literal(b, table.cases@[j].1));
        }
    }
}

/// The entries of all tables are terms.
pub open spec fn tables_within(s: Seq<TermView>, ts: Seq<EqIteTable>) -> bool {
    &&& forall|a: int| 0 <= a < ts.len() ==> (#[trigger] ts[a]).default < s.len()
    &&& forall|c: int, j: int|
        0 <= c < ts.len() && 0 <= j < ts[c].cases@.len() ==> (#[trigger] ts[c].cases@[j]).1
            < s.len()
}

proof fn lemma_noted_extend(
    a: Seq<TermView>,
    b: Seq<TermView>,
    before: &TableState,
    after: &TableState,
    m: Map<TermId, TermId>,
    ts: Seq<EqIteTable>,
    n: int,
)
    requires
        extends(a, b),
        0 <= n <= ts.len(),
        tables_within(a, ts),
        tables_noted(a, before, after, m, ts, n),
    ensures
        tables_noted(b, before, after, m, ts, n),
{
    assert forall|c: int| 0 <= c < ts.len() implies binary_table(a, #[trigger] ts[c])
        == binary_table(b, ts[c]) by {
        let table = ts[c];
        assert forall|j: int| 0 <= j < table.cases@.len() implies (#[trigger] table.cases@[j]).1
            < a.len() by {
            assert(ts[c].cases@[j].1 < a.len());
        }
        lemma_binary_extend(a, b, ts[c]);
    }
    assert forall|x: TermId| #[trigger] binary_result(b, m, ts, n, x) <==> binary_result(
        a,
        m,
        ts,
        n,
        x,
    ) by {}
    assert forall|x: TermId, y: i64| #[trigger]
        weight_at(after.table_index_key_score@, x, y) == tables_weight(
            b,
            weight_at(before.table_index_key_score@, x, y),
            before.unit_eq_rep@,
            ts,
            n,
            x,
            y,
        ) by {
        lemma_tables_weight_extend(
            a,
            b,
            weight_at(before.table_index_key_score@, x, y),
            before.unit_eq_rep@,
            ts,
            n,
            x,
            y,
        );
    }
}

proof fn lemma_noted_step(
    s: Seq<TermView>,
    before: &TableState,
    mid: &TableState,
    after: &TableState,
    m: Map<TermId, TermId>,
    ts: Seq<EqIteTable>,
    n: int,
    r: TermId,
)
    requires
        0 <= n < ts.len(),
        tables_noted(s, before, mid, m, ts, n),
        table_noted(s, mid, after, ts[n], r),
        forall|a: int| 0 <= a < n ==> (#[trigger] ts[a]).root != ts[n].root,
    ensures
        tables_noted(s, before, after, m.insert(ts[n].root, r), ts, n + 1),
{
    let m2 = m.insert(ts[n].root, r);
    assert forall|x: TermId| #[trigger] result_of_tables(m2, ts, n + 1, x) <==> result_of_tables(
        m,
        ts,
        n,
        x,
    ) || x == r by {
        if result_of_tables(m, ts, n, x) {
            let a = choose|a: int| 0 <= a < n && m[(#[trigger] ts[a]).root] == x;
            assert(m2[ts[a].root] == x);
        }
        assert(m2[ts[n].root] == r);
        if result_of_tables(m2, ts, n + 1, x) {
            let a = choose|a: int| 0 <= a < n + 1 && m2[(#[trigger] ts[a]).root] == x;
            if a < n {
                assert(m[ts[a].root] == x);
            }
        }
    }
    assert forall|x: TermId| #[trigger] binary_result(s, m2, ts, n + 1, x) <==> binary_result(
        s,
        m,
        ts,
        n,
        x,
    ) || (x == r && binary_table(s, ts[n])) by {
        if binary_result(s, m, ts, n, x) {
            let a = choose|a: int|
                0 <= a < n && m[(#[trigger] ts[a]).root] == x && binary_table(s, ts[a]);
            assert(m2[ts[a].root] == x);
        }
        assert(m2[ts[n].root] == r);
        if binary_result(s, m2, ts, n + 1, x) {
            let a = choose|a: int|
                0 <= a < n + 1 && m2[(#[trigger] ts[a]).root] == x && binary_table(s, ts[a]);
            if a < n {
                assert(m[ts[a].root] == x);
            }
        }
    }
    assert forall|t: TermId, y: i64| #[trigger] key_of_tables(ts, n + 1, t, y) <==> key_of_tables(
        ts,
        n,
        t,
        y,
    ) || (t == ts[n].index && table_key(ts[n], y)) by {}
    assert forall|x: TermId| #[trigger]
        after.table_index_terms@.contains(x) <==> before.table_index_terms@.contains(x)
            || exists|a: int| 0 <= a < n + 1 && (#[trigger] ts[a]).index == x by {
        if x == ts[n].index {
            assert(ts[n].index == x);
        }
        assert(mid.table_index_terms@.contains(x) <==> before.table_index_terms@.contains(x)
            || exists|a: int| 0 <= a < n && (#[trigger] ts[a]).index == x);
    }
    assert forall|t: TermId, y: i64| #[trigger]
        keys_at(after.table_index_keys@, t).contains(y) <==> keys_at(
            before.table_index_keys@,
            t,
        ).contains(y) || key_of_tables(ts, n + 1, t, y) by {
        assert(keys_at(mid.table_index_keys@, t).contains(y) <==> keys_at(
            before.table_index_keys@,
            t,
        ).contains(y) || key_of_tables(ts, n, t, y));
    }
    assert forall|x: TermId, y: i64| #[trigger]
        weight_at(after.table_index_key_score@, x, y) == tables_weight(
            s,
            weight_at(before.table_index_key_score@, x, y),
            before.unit_eq_rep@,
            ts,
            n + 1,
            x,
            y,
        ) by {
        assert(weight_at(mid.table_index_key_score@, x, y) == tables_weight(
            s,
            weight_at(before.table_index_key_score@, x, y),
            before.unit_eq_rep@,
            ts,
            n,
            x,
            y,
        ));
    }
}

/// Listing one more table.
proof fn lemma_listed_step(
    s: Seq<TermView>,
    m: Map<TermId, TermId>,
    ts: Seq<EqIteTable>,
    n: int,
    r: TermId,
    sides: Seq<TermId>,
    more: Seq<TermId>,
    term: TermId,
)
    requires
        0 <= n < ts.len(),
        tables_listed(s, m, ts.take(n), sides, term),
        table_replaced(s, m.insert(ts[n].root, r), ts[n], n, term),
        forall|c: int| 0 <= c < n ==> (#[trigger] ts[c]).root != ts[n].root,
        more.len() == sides.len() + ts[n].cases@.len() + 1,
        more.take(sides.len() as int) == sides,
        forall|k: int| sides.len() <= k < more.len() ==> (#[trigger] more[k]) < s.len(),
        forall|j: int|
            0 <= j < ts[n].cases@.len() ==> #[trigger] case_side(
                s,
                ts[n],
                r,
                j,
                more[sides.len() + j],
            ),
        default_side(s, ts[n], r, more.last()),
    ensures
        tables_listed(s, m.insert(ts[n].root, r), ts.take(n + 1), more, term),
{
    let m2 = m.insert(ts[n].root, r);
    let xs = ts.take(n);
    let ys = ts.take(n + 1);
    assert(xs.len() == n && ys.len() == n + 1);
    assert forall|c: int| 0 <= c < n implies #[trigger] ys[c] == ts[c] && xs[c] == ts[c] && m2[ts[c].root]
        == m[ts[c].root] by {
        assert(ts[c].root != ts[n].root);
    }
    assert(ys[n] == ts[n]);
    assert forall|c: int| 0 <= c < ys.len() implies table_replaced(
        s,
        m2,
        #[trigger] ys[c],
        c,
        term,
    ) by {
        if c < n {
            lemma_listed_table(s, m, xs, sides, term, c);
        }
    }
    assert forall|k: TermId| #[trigger] m2.contains_key(k) implies exists|c: int|
        0 <= c < ys.len() && (#[trigger] ys[c]).root == k by {
        if k == ts[n].root {
            assert(ys[n].root == k);
        } else {
            let c = lemma_listed_key(s, m, xs, sides, term, k);
            assert(ys[c] == xs[c]);
        }
    }
    assert forall|c: int, d: int| 0 <= c < d < ys.len() implies (#[trigger] ys[c]).root != (
    #[trigger] ys[d]).root by {
        if d < n {
            lemma_listed_distinct(s, m, xs, sides, term, c, d);
        }
    }
    lemma_listed_step_sides(s, m, ts, n, r, sides, more, term);
    lemma_make_listed(s, m2, ys, more, term);
}

proof fn lemma_listed_distinct(
    s: Seq<TermView>,
    m: Map<TermId, TermId>,
    ts: Seq<EqIteTable>,
    sides: Seq<TermId>,
    term: TermId,
    c: int,
    d: int,
)
    requires
        tables_listed(s, m, ts, sides, term),
        0 <= c < d < ts.len(),
    ensures
        ts[c].root != ts[d].root,
{
    reveal(tables_listed);
}

proof fn lemma_make_listed(
    s: Seq<TermView>,
    m: Map<TermId, TermId>,
    ts: Seq<EqIteTable>,
    sides: Seq<TermId>,
    term: TermId,
)
    requires
        forall|a: int| 0 <= a < ts.len() ==> table_replaced(s, m, #[trigger] ts[a], a, term),
        forall|k: TermId| #[trigger]
            m.contains_key(k) ==> exists|a: int| 0 <= a < ts.len() && (#[trigger] ts[a]).root == k,
        forall|a: int, b: int|
            0 <= a < b < ts.len() ==> (#[trigger] ts[a]).root != (#[trigger] ts[b]).root,
        forall|n: int|
            0 <= n < sides.len() ==> (#[trigger] sides[n]) < s.len() && some_table_side(
                s,
                m,
                ts,
                sides[n],
            ),
        forall|a: int, j: int|
            0 <= a < ts.len() && 0 <= j < ts[a].cases@.len() ==> #[trigger] has_case_side(
                s,
                ts[a],
                m[ts[a].root],
                j,
                sides,
            ),
        forall|a: int|
            0 <= a < ts.len() ==> has_default_side(s, #[trigger] ts[a], m[ts[a].root], sides),
    ensures
        tables_listed(s, m, ts, sides, term),
{
    reveal(tables_listed);
}

proof fn lemma_listed_step_sides(
    s: Seq<TermView>,
    m: Map<TermId, TermId>,
    ts: Seq<EqIteTable>,
    n: int,
    r: TermId,
    sides: Seq<TermId>,
    more: Seq<TermId>,
    term: TermId,
)
    requires
        0 <= n < ts.len(),
        tables_listed(s, m, ts.take(n), sides, term),
        forall|c: int| 0 <= c < n ==> (#[trigger] ts[c]).root != ts[n].root,
        more.len() == sides.len() + ts[n].cases@.len() + 1,
        more.take(sides.len() as int) == sides,
        forall|k: int| sides.len() <= k < more.len() ==> (#[trigger] more[k]) < s.len(),
        forall|j: int|
            0 <= j < ts[n].cases@.len() ==> #[trigger] case_side(
                s,
                ts[n],
                r,
                j,
                more[sides.len() + j],
            ),
        default_side(s, ts[n], r, more.last()),
    ensures
        ({
            let m2 = m.insert(ts[n].root, r);
            let ys = ts.take(n + 1);
            &&& forall|k: int|
                0 <= k < more.len() ==> (#[trigger] more[k]) < s.len() && some_table_side(
                    s,
                    m2,
                    ys,
                    more[k],
                )
            &&& forall|c: int, j: int|
                0 <= c < ys.len() && 0 <= j < ys[c].cases@.len() ==> #[trigger] has_case_side(
                    s,
                    ys[c],
                    m2[ys[c].root],
                    j,
                    more,
                )
            &&& forall|c: int|
                0 <= c < ys.len() ==> has_default_side(s, #[trigger] ys[c], m2[ys[c].root], more)
        }),
{
    let m2 = m.insert(ts[n].root, r);
    let xs = ts.take(n);
    let ys = ts.take(n + 1);
    assert(xs.len() == n && ys.len() == n + 1);
    assert(ys[n] == ts[n]);
    assert forall|c: int| 0 <= c < n implies #[trigger] ys[c] == ts[c] && xs[c] == ts[c] && m2[ts[c].root]
        == m[ts[c].root] by {
        assert(ts[c].root != ts[n].root);
    }
    assert forall|k: int| 0 <= k < sides.len() implies #[trigger] more[k] == sides[k] by {
        assert(more[k] == more.take(sides.len() as int)[k]);
    }
    assert forall|k: int| 0 <= k < more.len() implies (#[trigger] more[k]) < s.len()
        && some_table_side(s, m2, ys, more[k]) by {
        if k < sides.len() {
            let c = lemma_listed_side(s, m, xs, sides, term, k);
            assert(ys[c] == ts[c]);
            assert(table_side(s, ys[c], m2[ys[c].root], more[k]));
            reveal(some_table_side);
        } else {
            if k < more.len() - 1 {
                let j = k - sides.len();
                assert(case_side(s, ts[n], r, j, more[sides.len() + j]));
            }
            assert(table_side(s, ys[n], m2[ys[n].root], more[k]));
            reveal(some_table_side);
        }
    }
    assert forall|c: int, j: int|
        0 <= c < ys.len() && 0 <= j < ys[c].cases@.len() implies #[trigger] has_case_side(
        s,
        ys[c],
        m2[ys[c].root],
        j,
        more,
    ) by {
        if c < n {
            assert(ys[c] == ts[c]);
            let k = lemma_listed_case(s, m, xs, sides, term, c, j);
            assert(case_side(s, ys[c], m2[ys[c].root], j, more[k]));
            reveal(has_case_side);
        } else {
            assert(case_side(s, ts[n], r, j, more[sides.len() + j]));
            reveal(has_case_side);
        }
    }
    assert forall|c: int| 0 <= c < ys.len() implies has_default_side(
        s,
        #[trigger] ys[c],
        m2[ys[c].root],
        more,
    ) by {
        if c < n {
            assert(ys[c] == ts[c]);
            let k = lemma_listed_default(s, m, xs, sides, term, c);
            assert(default_side(s, ys[c], m2[ys[c].root], more[k]));
            reveal(has_default_side);
        } else {
            assert(default_side(s, ts[n], r, more[more.len() - 1]));
            reveal(has_default_side);
        }
    }
}

proof fn lemma_table_side_extend(
    a: Seq<TermView>,
    b: Seq<TermView>,
    table: EqIteTable,
    r: TermId,
    side: TermId,
)
    requires
        extends(a, b),
        table_side(a, table, r, side),
    ensures
        table_side(b, table, r, side),
{
    if default_side(a, table, r, side) {
        lemma_default_side_extend(a, b, table, r, side);
    } else {
        let j = choose|j: int|
            0 <= j < table.cases@.len() && #[trigger] case_side(a, table, r, j, side);
        lemma_case_side_extend(a, b, table, r, j, side);
    }
}

proof fn lemma_listed_extend(
    a: Seq<TermView>,
    b: Seq<TermView>,
    m: Map<TermId, TermId>,
    ts: Seq<EqIteTable>,
    sides: Seq<TermId>,
    term: TermId,
)
    requires
        terms_wf(a),
        extends(a, b),
        term < a.len(),
        tables_listed(a, m, ts, sides, term),
    ensures
        tables_listed(b, m, ts, sides, term),
{
    assert forall|c: int| 0 <= c < ts.len() implies table_replaced(
        b,
        m,
        #[trigger] ts[c],
        c,
        term,
    ) by {
        lemma_listed_table(a, m, ts, sides, term, c);
        lemma_spine_extend(a, b, ts[c].root, None, Seq::empty(), Seq::empty());
        lemma_subterm_back(a, b, term, ts[c].root);
    }
    assert forall|k: TermId| #[trigger] m.contains_key(k) implies exists|c: int|
        0 <= c < ts.len() && (#[trigger] ts[c]).root == k by {
        let c = lemma_listed_key(a, m, ts, sides, term, k);
        assert(ts[c].root == k);
    }
    assert forall|k: int| 0 <= k < sides.len() implies (#[trigger] sides[k]) < b.len()
        && some_table_side(b, m, ts, sides[k]) by {
        let c = lemma_listed_side(a, m, ts, sides, term, k);
        lemma_table_side_extend(a, b, ts[c], m[ts[c].root], sides[k]);
        reveal(some_table_side);
    }
    assert forall|c: int, j: int|
        0 <= c < ts.len() && 0 <= j < ts[c].cases@.len() implies #[trigger] has_case_side(
        b,
        ts[c],
        m[ts[c].root],
        j,
        sides,
    ) by {
        let k = lemma_listed_case(a, m, ts, sides, term, c, j);
        lemma_case_side_extend(a, b, ts[c], m[ts[c].root], j, sides[k]);
        reveal(has_case_side);
    }
    assert forall|c: int| 0 <= c < ts.len() implies has_default_side(
        b,
        #[trigger] ts[c],
        m[ts[c].root],
        sides,
    ) by {
        let k = lemma_listed_default(a, m, ts, sides, term, c);
        lemma_default_side_extend(a, b, ts[c], m[ts[c].root], sides[k]);
        reveal(has_default_side);
    }
    reveal(tables_listed);
}

impl TableState {
    /// Introduces a result with its side conditions for each of the tables.
    fn introduce_results(
        &mut self,
        store: &mut TermStore,
        term: TermId,
        chosen: &Vec<EqIteTable>,
    ) -> (r: (FxHashMap<TermId, TermId>, Vec<TermId>))
        requires
            old(store).wf(),
            old(self).wf(old(store).terms()),
            term < old(store).terms().len(),
            chosen_tables(old(store).terms(), term, chosen@),
        ensures
            grew(old(store), final(store)),
            final(self).wf(final(store).terms()),
            tables_within(final(store).terms(), chosen@),
            tables_listed(final(store).terms(), r.0@, chosen@, r.1@, term),
            tables_noted(
                final(store).terms(),
                old(self),
                final(self),
                r.0@,
                chosen@,
                chosen@.len() as int,
            ),
    {
        let ghost s0 = store.terms();
        let ghost ts = chosen@;
        let mut map: FxHashMap<TermId, TermId> = map_new();
        let mut sides: Vec<TermId> = Vec::new();
        let mut n: usize = 0;
        proof {
            assert forall|a: int| 0 <= a < ts.len() implies (#[trigger] ts[a]).root < s0.len() by {
                lemma_reach_le(s0, Map::empty(), term, ts[a].root);
            }
            assert forall|a: int| 0 <= a < ts.len() implies (#[trigger] ts[a]).default
                < s0.len() by {
                lemma_table_parts(s0, ts[a]);
            }
            assert forall|c: int, j: int|
                0 <= c < ts.len() && 0 <= j < ts[c].cases@.len() implies (
            #[trigger] ts[c].cases@[j]).1 < s0.len() by {
                lemma_table_parts(s0, ts[c]);
            }
            assert(ts.take(0).len() == 0);
            assert(tables_listed(s0, map@, ts.take(0), sides@, term)) by {
                reveal(tables_listed);
            }
        }
        while n < chosen.len()
            invariant
                n <= chosen.len(),
                ts == chosen@,
                s0 == old(store).terms(),
                terms_wf(s0),
                term < s0.len(),
                grew(old(store), store),
                self.wf(store.terms()),
                chosen_tables(s0, term, ts),
                tables_within(s0, ts),
                forall|a: int| 0 <= a < ts.len() ==> (#[trigger] ts[a]).root < s0.len(),
                tables_listed(store.terms(), map@, ts.take(n as int), sides@, term),
                tables_noted(store.terms(), old(self), self, map@, ts, n as int),
            decreases chosen.len() - n,
        {
            let ghost s1 = store.terms();
            let ghost mid = *self;
            let ghost m1 = map@;
            let ghost sides1 = sides@;
            let table = &chosen[n];
            let root: TermId = table.root;
            assert(ts[n as int].root < s0.len());
            let sort: SortId = store.nodes[root].sort;
            assert(s1[root as int] == s0[root as int]);
            let r = store.mk_var(Symbol::TableResult(root, n), sort);
            let ghost s2 = store.terms();
            proof {
                assert(is_table(s0, ts[n as int]));
                lemma_spine_extend(s0, s2, root, None, Seq::empty(), Seq::empty());
                assert(is_table(s2, ts[n as int]));
                self.lemma_wf_extend(s1, s2);
                assert(s2[root as int] == s0[root as int]);
            }
            self.note_table(store, table, r);
            map_insert(&mut map, root, r);
            push_table_sides(store, table, r, &mut sides);
            proof {
                let s3 = store.terms();
                self.lemma_wf_extend(s2, s3);
                assert forall|c: int| 0 <= c < n implies (#[trigger] ts[c]).root
                    != ts[n as int].root by {
                    lemma_table_parts(s0, ts[c]);
                    assert(!ts[c].spine@.contains(ts[n as int].root));
                    assert(ts[c].spine@[0] == ts[c].root);
                }
                lemma_within_extend(s0, s1, ts);
                lemma_noted_extend(s1, s2, old(self), &mid, m1, ts, n as int);
                lemma_noted_step(s2, old(self), &mid, self, m1, ts, n as int, r);
                lemma_within_extend(s0, s2, ts);
                lemma_noted_extend(s2, s3, old(self), self, map@, ts, n + 1);
                assert(table_replaced(s3, map@, ts[n as int], n as int, term)) by {
                    lemma_spine_extend(s0, s3, root, None, Seq::empty(), Seq::empty());
                    lemma_subterm_back(s0, s3, term, root);
                    assert(s3[root as int] == s0[root as int]);
                    assert(s3[r as int] == s2[r as int]);
                }
                lemma_listed_extend(s1, s3, m1, ts.take(n as int), sides1, term);
                lemma_listed_step(s3, m1, ts, n as int, r, sides1, sides@, term);
            }
            n = n + 1;
        }
        proof {
            assert(ts.take(ts.len() as int) =~= ts);
            lemma_within_extend(s0, store.terms(), ts);
        }
        (map, sides)
    }

    /// Replaces the lookup tables of an assertion by result variables, and adds
    /// the conditions that define them.
    pub fn flatten_eq_ite_tables(&mut self, store: &mut TermStore, term: TermId) -> (r: TermId)
        requires
            old(store).wf(),
            old(self).wf(old(store).terms()),
            term < old(store).terms().len(),
        ensures
            grew(old(store), final(store)),
            final(self).wf(final(store).terms()),
            r < final(store).terms().len(),
            (forall|x: TermId|
                subterm(old(store).terms(), term, x) ==> (#[trigger] spine(
                    old(store).terms(),
                    x,
                )).1.len() < MIN_TABLE_CASES) ==> r == term && *final(self) == *old(self)
                && final(store).terms() == old(store).terms(),
            (exists|x: TermId|
                subterm(old(store).terms(), term, x) && (#[trigger] spine(
                    old(store).terms(),
                    x,
                )).1.len() >= MIN_TABLE_CASES) ==> exists|
                m: Map<TermId, TermId>,
                ts: Seq<EqIteTable>,
                sides: Seq<TermId>,
            | #[trigger]
                flattening(
                    old(store).terms(),
                    old(self),
                    final(store).terms(),
                    final(self),
                    m,
                    ts,
                    sides,
                    term,
                    r,
                ),
    {
        let ghost s0 = store.terms();
        let chosen = maximal_tables(store, term);
        let ghost ts = chosen@;
        if chosen.len() == 0 {
            return term;
        }
        proof {
            assert(is_table(s0, ts[0]) && subterm(s0, term, ts[0].root));
            assert(spine(s0, ts[0].root).1.len() >= MIN_TABLE_CASES);
        }
        let (map, sides) = self.introduce_results(store, term, &chosen);
        let ghost s1 = store.terms();
        let ghost m = map@;
        let ghost noted = *self;
        proof {
            lemma_tables_map_ok(s1, m, ts, sides@, term);
        }
        self.rebind_aliases_through_map(store, &map);
        let ghost s2 = store.terms();
        let ghost aliased = *self;
        proof {
            lemma_map_ok_extend(s1, s2, m);
        }
        self.rebind_table_indices_through_map(store, &map);
        let ghost s3 = store.terms();
        let ghost rekeyed = *self;
        proof {
            lemma_map_ok_extend(s2, s3, m);
        }
        let rewritten = substitute(store, term, &map);
        let ghost s4 = store.terms();
        let mut parts: Vec<TermId> = Vec::new();
        parts.push(rewritten);
        let mut n: usize = 0;
        proof {
            lemma_map_ok_extend(s3, s4, m);
            assert forall|k: int| 0 <= k < sides@.len() implies (#[trigger] sides@[k])
                < s1.len() by {
                let a = lemma_listed_side(s1, m, ts, sides@, term, k);
            }
        }
        while n < sides.len()
            invariant
                n <= sides.len(),
                m == map@,
                extends(s1, s4),
                terms_wf(s4),
                extends(s4, store.terms()),
                store.wf(),
                store.same_tables(old(store)),
                term < s4.len(),
                map_ok(store.terms(), m),
                forall|k: int| 0 <= k < sides@.len() ==> (#[trigger] sides@[k]) < s1.len(),
                parts@.len() == n + 1,
                parts@[0] == rewritten,
                rewritten < s4.len(),
                subst(s4, m, term, rewritten),
                forall|k: int| 0 <= k < parts@.len() ==> (#[trigger] parts@[k])
                    < store.terms().len(),
                forall|k: int|
                    0 <= k < n ==> subst(store.terms(), m, #[trigger] sides@[k], parts@[1 + k]),
            decreases sides.len() - n,
        {
            let ghost a = store.terms();
            let ghost parts1 = parts@;
            assert(sides@[n as int] < s1.len());
            let image = substitute(store, sides[n], &map);
            parts.push(image);
            proof {
                let b = store.terms();
                lemma_map_ok_extend(a, b, m);
                assert forall|k: int| 0 <= k < n + 1 implies subst(
                    b,
                    m,
                    #[trigger] sides@[k],
                    parts@[1 + k],
                ) by {
                    if k < n {
                        assert(parts@[1 + k] == parts1[1 + k]);
                        lemma_subst_extend(a, b, m, sides@[k], parts1[1 + k]);
                    }
                }
                assert forall|k: int| 0 <= k < parts@.len() implies (#[trigger] parts@[k])
                    < b.len() by {
                    if k < parts1.len() {
                        assert(parts@[k] == parts1[k]);
                    }
                }
            }
            n = n + 1;
        }
        let ghost s5 = store.terms();
        let ghost listed = parts@;
        let r = store.mk_and(parts);
        proof {
            let s6 = store.terms();
            assert(s6[r as int].args == listed);
            lemma_subst_extend(s4, s6, m, term, rewritten);
            assert forall|k: int| 0 <= k < sides@.len() implies subst(
                s6,
                m,
                #[trigger] sides@[k],
                listed[1 + k],
            ) by {
                assert(listed[1 + k] < s5.len());
                lemma_subst_extend(s5, s6, m, sides@[k], listed[1 + k]);
            }
            lemma_listed_extend(s1, s6, m, ts, sides@, term);
            assert(tables_flattened(s6, m, ts, sides@, term, r));
            lemma_noted_extend(s1, s6, old(self), &noted, m, ts, ts.len() as int);
            lemma_map_ok_extend(s0, s2, old(self).unit_eq_rep@);
            lemma_rebound_extend(s2, s6, m, old(self).unit_eq_rep@, aliased.unit_eq_rep@);
            noted.lemma_wf_extend(s1, s3);
            lemma_keys_rebound_extend(
                s3,
                s6,
                m,
                noted.table_index_keys@,
                rekeyed.table_index_keys@,
            );
            self.lemma_wf_extend(s3, s6);
            lemma_indices_rebound_extend(
                s3,
                s6,
                m,
                noted.table_index_keys@,
                noted.table_index_terms@,
                rekeyed.table_index_terms@,
            );
            assert(keys_rebound(s6, m, noted.table_index_keys@, self.table_index_keys@));
            assert(*self == (TableState {
                unit_eq_rep: self.unit_eq_rep,
                table_index_terms: self.table_index_terms,
                table_index_keys: self.table_index_keys,
                ..noted
            }));
            assert(flattening(s0, old(self), s6, self, m, ts, sides@, term, r));
        }
        r
    }
}

proof fn lemma_within_extend(a: Seq<TermView>, b: Seq<TermView>, ts: Seq<EqIteTable>)
    requires
        extends(a, b),
        tables_within(a, ts),
    ensures
        tables_within(b, ts),
{
    assert forall|c: int, j: int|
        0 <= c < ts.len() && 0 <= j < ts[c].cases@.len() implies (#[trigger] ts[c].cases@[j]).1
        < b.len() by {
        assert(ts[c].cases@[j].1 < a.len());
    }
}

} // verus!
