//! Models and unsatisfiable cores.
//!
//! A model assigns value terms to terms.  Values come from the propositional
//! assignment, from true equations with constants, and from the arithmetic and
//! bit-vector engines, in this order of precedence.

use crate::collections::{
    ascending, map_get, map_insert, map_new, map_sorted_keys, set_sorted_items,
};
use crate::constructors::{grew, int_node};
use crate::ite_table::int_literal;
use crate::numbers::{signed_value, trunc_quot, BigNum, Rat};
use crate::state::{Constraint, GoalState, GoalView, NamedAssertion, Var};
use crate::terms::{
    extends, node_at, Data, DataView, Op, SortId, SortKind, TermId, TermStore, TermView, FALSE_TERM,
    INT_SORT, REAL_SORT, TRUE_TERM,
};
use rustc_hash::FxHashMap;
use vstd::arithmetic::power2::pow2;
use vstd::prelude::*;

verus! {

/// The width of bit vectors whose sort does not tell.
pub const DEFAULT_WIDTH: u32 = 64;

/// Values of terms.
pub struct Model {
    pub assignments: FxHashMap<TermId, TermId>,
}

impl Model {
    pub fn new() -> (m: Model)
        ensures
            m.assignments@.dom() == Set::<TermId>::empty(),
    {
        Model { assignments: map_new() }
    }

    pub fn get(&self, t: TermId) -> (r: Option<TermId>)
        ensures
            r == (if self.assignments@.contains_key(t) {
                Some(self.assignments@[t])
            } else {
                None
            }),
    {
        match map_get(&self.assignments, t) {
            Some(v) => Some(*v),
            None => None,
        }
    }

    pub fn set(&mut self, t: TermId, value: TermId)
        ensures
            final(self).assignments@ == old(self).assignments@.insert(t, value),
    {
        map_insert(&mut self.assignments, t, value);
    }
}

/// What the engines say of variables and terms.
pub struct EngineValues {
    /// Truth values of propositional variables.
    pub sat: Vec<Option<bool>>,
    /// Values of arithmetic terms.
    pub arith: FxHashMap<TermId, Rat>,
    /// Values of bit-vector terms.
    pub bits: FxHashMap<TermId, BigNum>,
}

impl EngineValues {
    /// The rationals are in lowest terms.
    pub open spec fn wf(&self) -> bool {
        forall|t: TermId| #[trigger] self.arith@.contains_key(t) ==> self.arith@[t].wf()
    }
}

/// The truth value of a variable.
pub open spec fn truth_of(sat: Seq<Option<bool>>, v: Var) -> Option<bool> {
    if v < sat.len() {
        sat[v as int]
    } else {
        None
    }
}

fn truth_at(sat: &Vec<Option<bool>>, v: Var) -> (r: Option<bool>)
    ensures
        r == truth_of(sat@, v),
{
    if v < sat.len() {
        sat[v]
    } else {
        None
    }
}

/// Terms whose value a true equation may tell.
pub open spec fn valued(s: Seq<TermView>, sorts: Seq<SortKind>, e: GoalView, t: TermId) -> bool {
    ||| e.j.arith.contains(t)
    ||| e.j.bv.contains(t)
    ||| t < s.len() && s[t as int].op == Op::Apply
    ||| t < s.len() && s[t as int].op == Op::Var && s[t as int].sort < sorts.len()
        && sorts[s[t as int].sort as int] == SortKind::String
}

/// Constants that may stand as values.
pub open spec fn value_constant(s: Seq<TermView>, t: TermId) -> bool {
    &&& t < s.len()
    &&& match s[t as int].op {
        Op::IntConst => int_literal(s, t) is Some,
        Op::RealConst | Op::StringLit => true,
        Op::BitVecConst => match s[t as int].data {
            DataView::Bits(negative, digits, w) => 0 <= signed_value(negative, digits)
                <= u64::MAX,
            _ => false,
        },
        _ => false,
    }
}

/// The term and the value that an equation pins it to.
pub open spec fn pin_of(
    s: Seq<TermView>,
    sorts: Seq<SortKind>,
    e: GoalView,
    c: Constraint,
) -> Option<(TermId, TermId)> {
    match c {
        Constraint::Eq(l, r) => {
            let pair = if valued(s, sorts, e, l) {
                Some((l, r))
            } else if valued(s, sorts, e, r) {
                Some((r, l))
            } else {
                None
            };
            match pair {
                Some((t, v)) => if value_constant(s, v) {
                    Some((t, v))
                } else {
                    None
                },
                None => None,
            }
        },
        _ => None,
    }
}

/// The value that the last true equation among the first `n` variables pins a
/// term to.
pub open spec fn pinned_value(
    s: Seq<TermView>,
    sorts: Seq<SortKind>,
    e: GoalView,
    sat: Seq<Option<bool>>,
    vars: Seq<Var>,
    n: int,
    t: TermId,
) -> Option<TermId>
    decreases n,
{
    if n <= 0 {
        None
    } else {
        let v = vars[n - 1];
        match pin_of(s, sorts, e, e.j.constraint[v]) {
            Some((x, c)) => if x == t && truth_of(sat, v) == Some(true) {
                Some(c)
            } else {
                pinned_value(s, sorts, e, sat, vars, n - 1, t)
            },
            None => pinned_value(s, sorts, e, sat, vars, n - 1, t),
        }
    }
}

/// The truth value that the assignment gives a term.
pub open spec fn boolean_value(e: GoalView, sat: Seq<Option<bool>>, t: TermId) -> Option<TermId> {
    if e.j.var_of.contains_key(t) {
        match truth_of(sat, e.j.var_of[t]) {
            Some(b) => Some(
                if b {
                    TRUE_TERM
                } else {
                    FALSE_TERM
                },
            ),
            None => None,
        }
    } else {
        None
    }
}

/// `v` is the numeral for an arithmetic term: of the integer sort, the
/// numerator; of another, the number; 0 where the engine gives none.
pub open spec fn arith_numeral(
    s: Seq<TermView>,
    t: TermId,
    value: Option<Rat>,
    v: TermId,
) -> bool {
    let r = match value {
        Some(r) => r,
        None => Rat { num: 0, den: 1 },
    };
    if t < s.len() && s[t as int].sort != INT_SORT {
        node_at(
            s,
            v,
            TermView {
                op: Op::RealConst,
                args: Seq::empty(),
                data: DataView::Real(r),
                sort: REAL_SORT,
            },
        )
    } else {
        node_at(s, v, int_node(r.num))
    }
}

/// The width of a bit-vector term.
pub open spec fn bit_width(s: Seq<TermView>, sorts: Seq<SortKind>, t: TermId) -> u32 {
    if t < s.len() && s[t as int].sort < sorts.len() {
        match sorts[s[t as int].sort as int] {
            SortKind::BitVec(w) => w,
            _ => DEFAULT_WIDTH,
        }
    } else {
        DEFAULT_WIDTH
    }
}

/// Head symbols that the bit-vector engine gives their meaning bit by bit.
pub open spec fn structural_bv(op: Op) -> bool {
    match op {
        Op::BvNot | Op::BvAnd | Op::BvOr | Op::BvXor | Op::BvAdd | Op::BvSub | Op::BvMul
        | Op::BvUdiv | Op::BvSdiv | Op::BvUrem | Op::BvSrem | Op::BvShl | Op::BvLshr | Op::BvAshr
        | Op::BvConcat | Op::BvExtract => true,
        _ => false,
    }
}

pub fn is_structural_bv_op(op: Op) -> (b: bool)
    ensures
        b == structural_bv(op),
{
    match op {
        Op::BvNot | Op::BvAnd | Op::BvOr | Op::BvXor | Op::BvAdd | Op::BvSub | Op::BvMul
        | Op::BvUdiv | Op::BvSdiv | Op::BvUrem | Op::BvSrem | Op::BvShl | Op::BvLshr | Op::BvAshr
        | Op::BvConcat | Op::BvExtract => true,
        _ => false,
    }
}

pub open spec fn bv_sorted(s: Seq<TermView>, sorts: Seq<SortKind>, t: TermId) -> bool {
    t < s.len() && s[t as int].sort < sorts.len() && sorts[s[t as int].sort as int] is BitVec
}

/// The bit-vector engine's values count: there is bit-vector structure, or an
/// equation of bit vectors.
pub open spec fn bits_count(s: Seq<TermView>, sorts: Seq<SortKind>, e: GoalView) -> bool {
    ||| exists|t: TermId| #[trigger]
        e.j.bv.contains(t) && t < s.len() && structural_bv(s[t as int].op)
    ||| exists|v: Var| #[trigger]
        e.j.constraint.contains_key(v) && equates_bits(s, sorts, e.j.constraint[v])
}

pub open spec fn equates_bits(s: Seq<TermView>, sorts: Seq<SortKind>, c: Constraint) -> bool {
    match c {
        Constraint::Eq(l, r) => bv_sorted(s, sorts, l) || bv_sorted(s, sorts, r),
        _ => false,
    }
}

/// The number that the bits of a term are: of the engine whose values count, or
/// of the other, or 0; a number of the arithmetic engine modulo the range.
pub open spec fn bits_value(
    authoritative: bool,
    bits: Option<int>,
    arith: Option<Rat>,
    width: u32,
) -> int {
    let reduced = match arith {
        Some(r) => Some(
            trunc_quot(r.num as int, r.den as int) % pow2(width as nat) as int,
        ),
        None => None,
    };
    let (first, second) = if authoritative {
        (bits, reduced)
    } else {
        (reduced, bits)
    };
    match first {
        Some(v) => v,
        None => match second {
            Some(v) => v,
            None => 0,
        },
    }
}

/// `v` is the literal of the value, of the width and sort of the term.
pub open spec fn bits_literal(
    s: Seq<TermView>,
    sorts: Seq<SortKind>,
    t: TermId,
    value: int,
    v: TermId,
) -> bool {
    &&& v < s.len()
    &&& s[v as int].op == Op::BitVecConst
    &&& s[v as int].args.len() == 0
    &&& s[v as int].sort == (if t < s.len() {
        s[t as int].sort
    } else {
        INT_SORT
    })
    &&& match s[v as int].data {
        DataView::Bits(negative, digits, w) => w == bit_width(s, sorts, t) && signed_value(
            negative,
            digits,
        ) == value,
        _ => false,
    }
}

pub open spec fn arith_value(values: &EngineValues, t: TermId) -> Option<Rat> {
    if values.arith@.contains_key(t) {
        Some(values.arith@[t])
    } else {
        None
    }
}

pub open spec fn bit_value(values: &EngineValues, t: TermId) -> Option<int> {
    if values.bits@.contains_key(t) {
        Some(values.bits@[t].value())
    } else {
        None
    }
}

/// The value of a term in the model.
pub open spec fn model_value(
    s: Seq<TermView>,
    sorts: Seq<SortKind>,
    e: GoalView,
    values: &EngineValues,
    vars: Seq<Var>,
    authoritative: bool,
    t: TermId,
    value: Option<TermId>,
) -> bool {
    match pinned_value(s, sorts, e, values.sat@, vars, vars.len() as int, t) {
        Some(c) => value == Some(c),
        None => match boolean_value(e, values.sat@, t) {
            Some(b) => value == Some(b),
            None => if e.j.arith.contains(t) {
                value matches Some(v) && arith_numeral(s, t, arith_value(values, t), v)
            } else if e.j.bv.contains(t) {
                value matches Some(v) && bits_literal(
                    s,
                    sorts,
                    t,
                    bits_value(
                        authoritative,
                        bit_value(values, t),
                        arith_value(values, t),
                        bit_width(s, sorts, t),
                    ),
                    v,
                )
            } else {
                value is None
            },
        },
    }
}

pub open spec fn entry(m: Map<TermId, TermId>, t: TermId) -> Option<TermId> {
    if m.contains_key(t) {
        Some(m[t])
    } else {
        None
    }
}

/// The model holds what the assignment and the engines say.
pub open spec fn model_built(
    s0: Seq<TermView>,
    s: Seq<TermView>,
    sorts: Seq<SortKind>,
    e: GoalView,
    values: &EngineValues,
    m: Map<TermId, TermId>,
) -> bool {
    exists|vars: Seq<Var>|
        #[trigger] ascending(vars) && vars.to_set() == e.j.constraint.dom() && forall|t: TermId|
            model_value(
                s,
                sorts,
                e,
                values,
                vars,
                bits_count(s0, sorts, e),
                t,
                #[trigger] entry(m, t),
            )
}

/// What the equations and the assignment say of a term.
pub open spec fn told_value(
    s: Seq<TermView>,
    sorts: Seq<SortKind>,
    e: GoalView,
    sat: Seq<Option<bool>>,
    vars: Seq<Var>,
    n: int,
    t: TermId,
) -> Option<TermId> {
    match pinned_value(s, sorts, e, sat, vars, n, t) {
        Some(c) => Some(c),
        None => boolean_value(e, sat, t),
    }
}

fn is_valued(store: &TermStore, goal: &GoalState, t: TermId) -> (b: bool)
    ensures
        b == valued(store.terms(), store.sorts@, goal@, t),
{
    if crate::collections::set_contains(&goal.arith_terms, t) || crate::collections::set_contains(
        &goal.bv_terms,
        t,
    ) {
        return true;
    }
    match store.get(t) {
        None => false,
        Some(node) => match node.op {
            Op::Apply => true,
            Op::Var => node.sort < store.sorts.len() && store.sorts[node.sort] == SortKind::String,
            _ => false,
        },
    }
}

fn is_value_constant(store: &TermStore, t: TermId) -> (b: bool)
    ensures
        b == value_constant(store.terms(), t),
{
    match store.get(t) {
        None => false,
        Some(node) => match node.op {
            Op::IntConst => crate::ite_table::int_const_val(t, store).is_some(),
            Op::RealConst | Op::StringLit => true,
            Op::BitVecConst => match &node.data {
                Data::Bits(n, _) => n.fits_u64(),
                _ => false,
            },
            _ => false,
        },
    }
}

fn read_pin(store: &TermStore, goal: &GoalState, c: &Constraint) -> (r: Option<(TermId, TermId)>)
    ensures
        r == pin_of(store.terms(), store.sorts@, goal@, *c),
{
    match c {
        Constraint::Eq(l, r) => {
            let (t, v) = if is_valued(store, goal, *l) {
                (*l, *r)
            } else if is_valued(store, goal, *r) {
                (*r, *l)
            } else {
                return None;
            };
            if is_value_constant(store, v) {
                Some((t, v))
            } else {
                None
            }
        },
        _ => None,
    }
}

/// Sets the truth values of terms.
fn set_booleans(goal: &GoalState, sat: &Vec<Option<bool>>) -> (m: Model)
    ensures
        forall|t: TermId| #[trigger] entry(m.assignments@, t) == boolean_value(goal@, sat@, t),
{
    let ghost e = goal@;
    let terms = map_sorted_keys(&goal.term_to_var);
    let mut m = Model::new();
    let mut n: usize = 0;
    proof {
        assert forall|t: TermId| #[trigger] entry(m.assignments@, t) is None by {
            assert(!m.assignments@.dom().contains(t));
        }
    }
    while n < terms.len()
        invariant
            n <= terms.len(),
            e == goal@,
            terms@.to_set() == e.j.var_of.dom(),
            forall|t: TermId| #[trigger]
                entry(m.assignments@, t) == (if terms@.take(n as int).contains(t) {
                    boolean_value(e, sat@, t)
                } else {
                    None
                }),
        decreases terms.len() - n,
    {
        let t: TermId = terms[n];
        let ghost before = m.assignments@;
        proof {
            assert(terms@.contains(t));
            assert(terms@.to_set().contains(t));
            let a = terms@.take(n as int);
            assert(terms@.take(n + 1) =~= a.push(t));
            crate::domains::lemma_push_contains(a, t);
        }
        if let Some(v) = map_get(&goal.term_to_var, t) {
            if let Some(b) = truth_at(sat, *v) {
                m.set(
                    t,
                    if b {
                        TRUE_TERM
                    } else {
                        FALSE_TERM
                    },
                );
            }
        }
        proof {
            assert forall|x: TermId| #[trigger] entry(m.assignments@, x) == (if terms@.take(
                n + 1,
            ).contains(x) {
                boolean_value(e, sat@, x)
            } else {
                None
            }) by {
                assert(entry(before, x) == (if terms@.take(n as int).contains(x) {
                    boolean_value(e, sat@, x)
                } else {
                    None
                }));
            }
        }
        n = n + 1;
    }
    proof {
        assert(terms@.take(terms@.len() as int) =~= terms@);
        assert forall|t: TermId| #[trigger] entry(m.assignments@, t) == boolean_value(e, sat@, t) by {
            if e.j.var_of.contains_key(t) {
                assert(terms@.to_set().contains(t));
            }
        }
    }
    m
}

/// Sets what true equations with constants tell.
fn set_pinned(
    store: &TermStore,
    goal: &GoalState,
    sat: &Vec<Option<bool>>,
    vars: &Vec<Var>,
    m: &mut Model,
)
    requires
        vars@.to_set() == goal@.j.constraint.dom(),
        forall|t: TermId| #[trigger]
            entry(old(m).assignments@, t) == boolean_value(goal@, sat@, t),
    ensures
        forall|t: TermId| #[trigger]
            entry(final(m).assignments@, t) == told_value(
                store.terms(),
                store.sorts@,
                goal@,
                sat@,
                vars@,
                vars@.len() as int,
                t,
            ),
{
    let ghost s = store.terms();
    let ghost sorts = store.sorts@;
    let ghost e = goal@;
    let mut n: usize = 0;
    while n < vars.len()
        invariant
            n <= vars.len(),
            s == store.terms(),
            sorts == store.sorts@,
            e == goal@,
            vars@.to_set() == e.j.constraint.dom(),
            forall|t: TermId| #[trigger]
                entry(m.assignments@, t) == told_value(s, sorts, e, sat@, vars@, n as int, t),
        decreases vars.len() - n,
    {
        let v: Var = vars[n];
        let ghost before = m.assignments@;
        proof {
            assert(vars@.contains(v));
            assert(vars@.to_set().contains(v));
            assert(e.j.constraint.contains_key(v));
        }
        if truth_at(sat, v) == Some(true) {
            if let Some(c) = map_get(&goal.var_to_constraint, v) {
                if let Some((t, value)) = read_pin(store, goal, c) {
                    m.set(t, value);
                }
            }
        }
        proof {
            assert forall|t: TermId| #[trigger] entry(m.assignments@, t) == told_value(
                s,
                sorts,
                e,
                sat@,
                vars@,
                n + 1,
                t,
            ) by {
                assert(entry(before, t) == told_value(s, sorts, e, sat@, vars@, n as int, t));
            }
        }
        n = n + 1;
    }
}

impl TermStore {
    /// The literal of a rational.
    pub fn mk_real(&mut self, r: Rat) -> (v: TermId)
        requires
            old(self).wf(),
            r.wf(),
        ensures
            grew(old(self), final(self)),
            node_at(
                final(self).terms(),
                v,
                (TermView {
                    op: Op::RealConst,
                    args: Seq::empty(),
                    data: DataView::Real(r),
                    sort: REAL_SORT,
                }),
            ),
    {
        let args: Vec<TermId> = Vec::new();
        assert(args@ =~= Seq::<TermId>::empty());
        self.intern(Op::RealConst, args, Data::Real(r), REAL_SORT)
    }

    /// The literal of a bit vector.
    pub fn mk_bitvec(&mut self, value: BigNum, width: u32, sort: SortId) -> (v: TermId)
        requires
            old(self).wf(),
        ensures
            grew(old(self), final(self)),
            v < final(self).terms().len(),
            final(self).terms()[v as int].op == Op::BitVecConst,
            final(self).terms()[v as int].args.len() == 0,
            final(self).terms()[v as int].sort == sort,
            final(self).terms()[v as int].data == DataView::Bits(
                value.negative,
                value.digits@,
                width,
            ),
    {
        let args: Vec<TermId> = Vec::new();
        assert(args@ =~= Seq::<TermId>::empty());
        self.intern(Op::BitVecConst, args, Data::Bits(value, width), sort)
    }
}

/// The numeral for an arithmetic term.
fn mk_arith_value(store: &mut TermStore, t: TermId, value: Option<Rat>) -> (v: TermId)
    requires
        old(store).wf(),
        t < old(store).terms().len(),
        value matches Some(r) ==> r.wf(),
    ensures
        grew(old(store), final(store)),
        arith_numeral(final(store).terms(), t, value, v),
{
    let ghost s0 = store.terms();
    let r = match value {
        Some(r) => r,
        None => Rat::zero(),
    };
    if store.nodes[t].sort == INT_SORT {
        let v = store.mk_int(r.num);
        assert(store.terms()[t as int] == s0[t as int]);
        v
    } else {
        let v = store.mk_real(r);
        assert(store.terms()[t as int] == s0[t as int]);
        v
    }
}

fn width_of(store: &TermStore, t: TermId) -> (w: u32)
    ensures
        w == bit_width(store.terms(), store.sorts@, t),
{
    match store.get(t) {
        None => DEFAULT_WIDTH,
        Some(node) => if node.sort < store.sorts.len() {
            match store.sorts[node.sort] {
                SortKind::BitVec(w) => w,
                _ => DEFAULT_WIDTH,
            }
        } else {
            DEFAULT_WIDTH
        },
    }
}

/// The integer part of a rational, towards zero.
fn integer_part(r: Rat) -> (q: i64)
    requires
        r.wf(),
    ensures
        q == trunc_quot(r.num as int, r.den as int),
{
    let n: i128 = r.num as i128;
    let d: i128 = r.den as i128;
    let ghost m = crate::numbers::magnitude(r.num as int) as int;
    proof {
        assert(0 <= m / d as int <= m) by (nonlinear_arith)
            requires
                m >= 0,
                d >= 1,
        ;
    }
    if n >= 0 {
        (n / d) as i64
    } else {
        let q: i128 = (-n) / d;
        (-q) as i64
    }
}

/// The literal for a bit-vector term.
fn mk_bits_value(
    store: &mut TermStore,
    values: &EngineValues,
    authoritative: bool,
    t: TermId,
) -> (v: TermId)
    requires
        old(store).wf(),
        t < old(store).terms().len(),
        values.wf(),
    ensures
        grew(old(store), final(store)),
        bits_literal(
            final(store).terms(),
            final(store).sorts@,
            t,
            bits_value(
                authoritative,
                bit_value(values, t),
                arith_value(values, t),
                bit_width(final(store).terms(), final(store).sorts@, t),
            ),
            v,
        ),
{
    let ghost s0 = store.terms();
    let width = width_of(store, t);
    let sort: SortId = store.nodes[t].sort;
    let bits: Option<BigNum> = match map_get(&values.bits, t) {
        Some(n) => Some(n.duplicate()),
        None => None,
    };
    let reduced: Option<BigNum> = match map_get(&values.arith, t) {
        Some(r) => {
            let whole = BigNum::from_i64(integer_part(*r));
            Some(whole.low_bits(width))
        },
        None => None,
    };
    let chosen = if authoritative {
        match bits {
            Some(n) => Some(n),
            None => reduced,
        }
    } else {
        match reduced {
            Some(n) => Some(n),
            None => bits,
        }
    };
    let value = match chosen {
        Some(n) => n,
        None => BigNum::from_i64(0),
    };
    let v = store.mk_bitvec(value, width, sort);
    assert(store.terms()[t as int] == s0[t as int]);
    v
}

fn find_structural_bits(store: &TermStore, goal: &GoalState) -> (b: bool)
    ensures
        b == exists|t: TermId| #[trigger]
            goal@.j.bv.contains(t) && t < store.terms().len() && structural_bv(
                store.terms()[t as int].op,
            ),
{
    let ghost s = store.terms();
    let terms = set_sorted_items(&goal.bv_terms);
    let mut n: usize = 0;
    while n < terms.len()
        invariant
            n <= terms.len(),
            s == store.terms(),
            terms@.to_set() == goal@.j.bv,
            forall|k: int|
                0 <= k < n ==> !((#[trigger] terms@[k]) < s.len() && structural_bv(
                    s[terms@[k] as int].op,
                )),
        decreases terms.len() - n,
    {
        let t: TermId = terms[n];
        proof {
            assert(terms@.contains(t));
            assert(terms@.to_set().contains(t));
        }
        if let Some(node) = store.get(t) {
            if is_structural_bv_op(node.op) {
                return true;
            }
        }
        n = n + 1;
    }
    proof {
        assert forall|t: TermId| #[trigger] goal@.j.bv.contains(t) && t < s.len() implies !structural_bv(
            s[t as int].op,
        ) by {
            assert(terms@.to_set().contains(t));
            let k = choose|k: int| 0 <= k < terms@.len() && terms@[k] == t;
            assert(terms@[k] == t);
        }
    }
    false
}

fn is_bv_sorted(store: &TermStore, t: TermId) -> (b: bool)
    ensures
        b == bv_sorted(store.terms(), store.sorts@, t),
{
    match store.get(t) {
        None => false,
        Some(node) => if node.sort < store.sorts.len() {
            match store.sorts[node.sort] {
                SortKind::BitVec(_) => true,
                _ => false,
            }
        } else {
            false
        },
    }
}

/// Whether the bit-vector engine's values count.
pub fn bv_solver_is_authoritative(store: &TermStore, goal: &GoalState) -> (b: bool)
    ensures
        b == bits_count(store.terms(), store.sorts@, goal@),
{
    let ghost s = store.terms();
    let ghost sorts = store.sorts@;
    let ghost e = goal@;
    if find_structural_bits(store, goal) {
        return true;
    }
    let vars = map_sorted_keys(&goal.var_to_constraint);
    let mut n: usize = 0;
    while n < vars.len()
        invariant
            n <= vars.len(),
            s == store.terms(),
            sorts == store.sorts@,
            e == goal@,
            vars@.to_set() == e.j.constraint.dom(),
            forall|k: int|
                0 <= k < n ==> !equates_bits(s, sorts, e.j.constraint[#[trigger] vars@[k]]),
        decreases vars.len() - n,
    {
        let v: Var = vars[n];
        proof {
            assert(vars@.contains(v));
            assert(vars@.to_set().contains(v));
            assert(e.j.constraint.contains_key(v));
        }
        if let Some(Constraint::Eq(l, r)) = map_get(&goal.var_to_constraint, v) {
            if is_bv_sorted(store, *l) || is_bv_sorted(store, *r) {
                assert(equates_bits(s, sorts, e.j.constraint[v]));
                return true;
            }
        }
        n = n + 1;
    }
    proof {
        assert forall|v: Var| #[trigger] e.j.constraint.contains_key(v) implies !equates_bits(
            s,
            sorts,
            e.j.constraint[v],
        ) by {
            assert(vars@.to_set().contains(v));
            let k = choose|k: int| 0 <= k < vars@.len() && vars@[k] == v;
            assert(vars@[k] == v);
        }
    }
    false
}

proof fn lemma_pin_extend(
    a: Seq<TermView>,
    b: Seq<TermView>,
    sorts: Seq<SortKind>,
    e: GoalView,
    c: Constraint,
)
    requires
        extends(a, b),
        c matches Constraint::Eq(l, r) ==> l < a.len() && r < a.len(),
    ensures
        pin_of(a, sorts, e, c) == pin_of(b, sorts, e, c),
{
    if let Constraint::Eq(l, r) = c {
        assert(b[l as int] == a[l as int] && b[r as int] == a[r as int]);
    }
}

/// The sides of equations are terms.
pub open spec fn sides_within(s: Seq<TermView>, e: GoalView) -> bool {
    forall|v: Var| #[trigger]
        e.j.constraint.contains_key(v) ==> match e.j.constraint[v] {
            Constraint::Eq(l, r) => l < s.len() && r < s.len(),
            _ => true,
        }
}

proof fn lemma_sides_within(s: Seq<TermView>, e: GoalView)
    requires
        crate::state::goal_inv(s, e),
    ensures
        sides_within(s, e),
{
    assert forall|v: Var| #[trigger] e.j.constraint.contains_key(v) implies match e.j.constraint[v] {
        Constraint::Eq(l, r) => l < s.len() && r < s.len(),
        _ => true,
    } by {
        let t = e.term_of[v as int];
        assert(crate::state::constraint_ok(s[t as int], t, e.j.constraint[v]));
        assert(crate::terms::node_below(s, t as int));
        if let Constraint::Eq(l, r) = e.j.constraint[v] {
            assert(s[t as int].args[0] == l && s[t as int].args[1] == r);
        }
    }
}

proof fn lemma_told_extend(
    a: Seq<TermView>,
    b: Seq<TermView>,
    sorts: Seq<SortKind>,
    e: GoalView,
    sat: Seq<Option<bool>>,
    vars: Seq<Var>,
    n: int,
    t: TermId,
)
    requires
        extends(a, b),
        sides_within(a, e),
        n <= vars.len(),
        forall|k: int| 0 <= k < vars.len() ==> e.j.constraint.contains_key(#[trigger] vars[k]),
    ensures
        pinned_value(a, sorts, e, sat, vars, n, t) == pinned_value(b, sorts, e, sat, vars, n, t),
    decreases n,
{
    if n > 0 {
        lemma_told_extend(a, b, sorts, e, sat, vars, n - 1, t);
        assert(e.j.constraint.contains_key(vars[n - 1]));
        lemma_pin_extend(a, b, sorts, e, e.j.constraint[vars[n - 1]]);
    }
}

/// The value of a term, where the first `k` arithmetic terms and the first `j`
/// bit-vector terms have been valued.
spec fn partial_value(
    s0: Seq<TermView>,
    s: Seq<TermView>,
    sorts: Seq<SortKind>,
    e: GoalView,
    values: &EngineValues,
    vars: Seq<Var>,
    authoritative: bool,
    arith: Seq<TermId>,
    bv: Seq<TermId>,
    t: TermId,
    value: Option<TermId>,
) -> bool {
    match told_value(s0, sorts, e, values.sat@, vars, vars.len() as int, t) {
        Some(c) => value == Some(c),
        None => if arith.contains(t) {
            value matches Some(v) && arith_numeral(s, t, arith_value(values, t), v)
        } else if bv.contains(t) {
            value matches Some(v) && bits_literal(
                s,
                sorts,
                t,
                bits_value(
                    authoritative,
                    bit_value(values, t),
                    arith_value(values, t),
                    bit_width(s, sorts, t),
                ),
                v,
            )
        } else {
            value is None
        },
    }
}

proof fn lemma_partial_extend(
    s0: Seq<TermView>,
    a: Seq<TermView>,
    b: Seq<TermView>,
    sorts: Seq<SortKind>,
    e: GoalView,
    values: &EngineValues,
    vars: Seq<Var>,
    authoritative: bool,
    arith: Seq<TermId>,
    bv: Seq<TermId>,
    t: TermId,
    value: Option<TermId>,
)
    requires
        extends(a, b),
        arith.contains(t) || bv.contains(t) ==> t < a.len(),
        partial_value(s0, a, sorts, e, values, vars, authoritative, arith, bv, t, value),
    ensures
        partial_value(s0, b, sorts, e, values, vars, authoritative, arith, bv, t, value),
{
    if t < a.len() {
        assert(b[t as int] == a[t as int]);
    }
    if value is Some && value->0 < a.len() {
        assert(b[value->0 as int] == a[value->0 as int]);
    }
}

impl GoalState {
    /// Values the terms of a list that have no value yet.
    fn value_arith(
        &self,
        store: &mut TermStore,
        values: &EngineValues,
        Ghost(s0): Ghost<Seq<TermView>>,
        Ghost(vars): Ghost<Seq<Var>>,
        Ghost(authoritative): Ghost<bool>,
        terms: &Vec<TermId>,
        m: &mut Model,
    )
        requires
            old(store).wf(),
            values.wf(),
            forall|k: int| 0 <= k < terms@.len() ==> (#[trigger] terms@[k]) < old(store).terms().len(),
            forall|t: TermId|
                partial_value(
                    s0,
                    old(store).terms(),
                    old(store).sorts@,
                    self@,
                    values,
                    vars,
                    authoritative,
                    Seq::empty(),
                    Seq::empty(),
                    t,
                    #[trigger] entry(old(m).assignments@, t),
                ),
        ensures
            grew(old(store), final(store)),
            forall|t: TermId|
                partial_value(
                    s0,
                    final(store).terms(),
                    final(store).sorts@,
                    self@,
                    values,
                    vars,
                    authoritative,
                    terms@,
                    Seq::empty(),
                    t,
                    #[trigger] entry(final(m).assignments@, t),
                ),
    {
        let ghost e = self@;
        let ghost sorts = store.sorts@;
        let ghost none = Seq::<TermId>::empty();
        let mut n: usize = 0;
        assert(terms@.take(0) =~= none);
        while n < terms.len()
            invariant
                n <= terms.len(),
                e == self@,
                sorts == old(store).sorts@,
                none == Seq::<TermId>::empty(),
                values.wf(),
                grew(old(store), store),
                forall|k: int|
                    0 <= k < terms@.len() ==> (#[trigger] terms@[k]) < old(store).terms().len(),
                forall|t: TermId|
                    partial_value(
                        s0,
                        store.terms(),
                        sorts,
                        e,
                        values,
                        vars,
                        authoritative,
                        terms@.take(n as int),
                        none,
                        t,
                        #[trigger] entry(m.assignments@, t),
                    ),
            decreases terms.len() - n,
        {
            let t: TermId = terms[n];
            let ghost s1 = store.terms();
            let ghost before = m.assignments@;
            let ghost a = terms@.take(n as int);
            proof {
                assert(terms@[n as int] < old(store).terms().len());
                assert(terms@.take(n + 1) =~= a.push(t));
                crate::domains::lemma_push_contains(a, t);
                assert(partial_value(
                    s0,
                    s1,
                    sorts,
                    e,
                    values,
                    vars,
                    authoritative,
                    a,
                    none,
                    t,
                    entry(before, t),
                ));
            }
            if m.get(t).is_none() {
                let given: Option<Rat> = match map_get(&values.arith, t) {
                    Some(r) => Some(*r),
                    None => None,
                };
                let v = mk_arith_value(store, t, given);
                m.set(t, v);
            }
            proof {
                let s2 = store.terms();
                assert forall|x: TermId| partial_value(
                    s0,
                    s2,
                    sorts,
                    e,
                    values,
                    vars,
                    authoritative,
                    terms@.take(n + 1),
                    none,
                    x,
                    #[trigger] entry(m.assignments@, x),
                ) by {
                    assert(partial_value(
                        s0,
                        s1,
                        sorts,
                        e,
                        values,
                        vars,
                        authoritative,
                        a,
                        none,
                        x,
                        entry(before, x),
                    ));
                    if a.contains(x) {
                        let k = choose|k: int| 0 <= k < a.len() && a[k] == x;
                        assert(terms@[k] == x);
                    }
                    lemma_partial_extend(
                        s0,
                        s1,
                        s2,
                        sorts,
                        e,
                        values,
                        vars,
                        authoritative,
                        a,
                        none,
                        x,
                        entry(before, x),
                    );
                }
            }
            n = n + 1;
        }
        assert(terms@.take(terms@.len() as int) =~= terms@);
    }

    fn value_bits(
        &self,
        store: &mut TermStore,
        values: &EngineValues,
        Ghost(s0): Ghost<Seq<TermView>>,
        Ghost(vars): Ghost<Seq<Var>>,
        Ghost(arith): Ghost<Seq<TermId>>,
        authoritative: bool,
        terms: &Vec<TermId>,
        m: &mut Model,
    )
        requires
            old(store).wf(),
            values.wf(),
            forall|k: int| 0 <= k < terms@.len() ==> (#[trigger] terms@[k]) < old(store).terms().len(),
            forall|k: int| 0 <= k < arith.len() ==> (#[trigger] arith[k]) < old(store).terms().len(),
            forall|t: TermId|
                partial_value(
                    s0,
                    old(store).terms(),
                    old(store).sorts@,
                    self@,
                    values,
                    vars,
                    authoritative,
                    arith,
                    Seq::empty(),
                    t,
                    #[trigger] entry(old(m).assignments@, t),
                ),
        ensures
            grew(old(store), final(store)),
            forall|t: TermId|
                partial_value(
                    s0,
                    final(store).terms(),
                    final(store).sorts@,
                    self@,
                    values,
                    vars,
                    authoritative,
                    arith,
                    terms@,
                    t,
                    #[trigger] entry(final(m).assignments@, t),
                ),
    {
        let ghost e = self@;
        let ghost sorts = store.sorts@;
        let mut n: usize = 0;
        assert(terms@.take(0) =~= Seq::<TermId>::empty());
        while n < terms.len()
            invariant
                n <= terms.len(),
                e == self@,
                sorts == old(store).sorts@,
                values.wf(),
                grew(old(store), store),
                forall|k: int|
                    0 <= k < terms@.len() ==> (#[trigger] terms@[k]) < old(store).terms().len(),
                forall|k: int|
                    0 <= k < arith.len() ==> (#[trigger] arith[k]) < old(store).terms().len(),
                forall|t: TermId|
                    partial_value(
                        s0,
                        store.terms(),
                        sorts,
                        e,
                        values,
                        vars,
                        authoritative,
                        arith,
                        terms@.take(n as int),
                        t,
                        #[trigger] entry(m.assignments@, t),
                    ),
            decreases terms.len() - n,
        {
            let t: TermId = terms[n];
            let ghost s1 = store.terms();
            let ghost before = m.assignments@;
            let ghost a = terms@.take(n as int);
            proof {
                assert(terms@[n as int] < old(store).terms().len());
                assert(terms@.take(n + 1) =~= a.push(t));
                crate::domains::lemma_push_contains(a, t);
                assert(partial_value(
                    s0,
                    s1,
                    sorts,
                    e,
                    values,
                    vars,
                    authoritative,
                    arith,
                    a,
                    t,
                    entry(before, t),
                ));
            }
            if m.get(t).is_none() {
                let v = mk_bits_value(store, values, authoritative, t);
                m.set(t, v);
            }
            proof {
                let s2 = store.terms();
                assert forall|x: TermId| partial_value(
                    s0,
                    s2,
                    sorts,
                    e,
                    values,
                    vars,
                    authoritative,
                    arith,
                    terms@.take(n + 1),
                    x,
                    #[trigger] entry(m.assignments@, x),
                ) by {
                    assert(partial_value(
                        s0,
                        s1,
                        sorts,
                        e,
                        values,
                        vars,
                        authoritative,
                        arith,
                        a,
                        x,
                        entry(before, x),
                    ));
                    if a.contains(x) {
                        let k = choose|k: int| 0 <= k < a.len() && a[k] == x;
                        assert(terms@[k] == x);
                    }
                    if arith.contains(x) {
                        let k = choose|k: int| 0 <= k < arith.len() && arith[k] == x;
                        assert(arith[k] == x);
                    }
                    lemma_partial_extend(
                        s0,
                        s1,
                        s2,
                        sorts,
                        e,
                        values,
                        vars,
                        authoritative,
                        arith,
                        a,
                        x,
                        entry(before, x),
                    );
                }
            }
            n = n + 1;
        }
        assert(terms@.take(terms@.len() as int) =~= terms@);
    }

    /// Builds a model from what the assignment and the engines say.
    pub fn build_model(&self, store: &mut TermStore, values: &EngineValues) -> (m: Model)
        requires
            crate::state::goal_inv(old(store).terms(), self@),
            values.wf(),
        ensures
            grew(old(store), final(store)),
            model_built(
                old(store).terms(),
                final(store).terms(),
                final(store).sorts@,
                self@,
                values,
                m.assignments@,
            ),
    {
        let ghost s0 = store.terms();
        let ghost sorts = store.sorts@;
        let ghost e = self@;
        let mut m = set_booleans(self, &values.sat);
        let vars = map_sorted_keys(&self.var_to_constraint);
        set_pinned(store, self, &values.sat, &vars, &mut m);
        let authoritative = bv_solver_is_authoritative(store, self);
        let arith = set_sorted_items(&self.arith_terms);
        let bits = set_sorted_items(&self.bv_terms);
        proof {
            lemma_listed_within(arith@, e.j.arith, s0.len() as int);
            lemma_listed_within(bits@, e.j.bv, s0.len() as int);
        }
        self.value_arith(
            store,
            values,
            Ghost(s0),
            Ghost(vars@),
            Ghost(authoritative),
            &arith,
            &mut m,
        );
        self.value_bits(
            store,
            values,
            Ghost(s0),
            Ghost(vars@),
            Ghost(arith@),
            authoritative,
            &bits,
            &mut m,
        );
        proof {
            let s2 = store.terms();
            lemma_sides_within(s0, e);
            assert forall|k: int| 0 <= k < vars@.len() implies e.j.constraint.contains_key(
                #[trigger] vars@[k],
            ) by {
                assert(vars@.contains(vars@[k]));
                assert(vars@.to_set().contains(vars@[k]));
            }
            assert forall|t: TermId| model_value(
                s2,
                sorts,
                e,
                values,
                vars@,
                authoritative,
                t,
                #[trigger] entry(m.assignments@, t),
            ) by {
                lemma_told_extend(
                    s0,
                    s2,
                    sorts,
                    e,
                    values.sat@,
                    vars@,
                    vars@.len() as int,
                    t,
                );
                assert(arith@.to_set().contains(t) <==> arith@.contains(t));
                assert(bits@.to_set().contains(t) <==> bits@.contains(t));
                assert(partial_value(
                    s0,
                    s2,
                    sorts,
                    e,
                    values,
                    vars@,
                    authoritative,
                    arith@,
                    bits@,
                    t,
                    entry(m.assignments@, t),
                ));
            }
            assert(ascending(vars@));
        }
        m
    }
}

proof fn lemma_listed_within(list: Seq<TermId>, set: Set<TermId>, n: int)
    requires
        list.to_set() == set,
        forall|t: TermId| #[trigger] set.contains(t) ==> t < n,
    ensures
        forall|k: int| 0 <= k < list.len() ==> (#[trigger] list[k]) < n,
{
    assert forall|k: int| 0 <= k < list.len() implies (#[trigger] list[k]) < n by {
        assert(list.contains(list[k]));
        assert(list.to_set().contains(list[k]));
    }
}

/// An unsatisfiable set of assertions, by place and by name.
pub struct UnsatCore {
    pub indices: Vec<usize>,
    pub names: Vec<String>,
}

pub open spec fn texts(names: Seq<String>) -> Seq<Seq<char>> {
    Seq::new(names.len(), |k: int| names[k]@)
}

/// The names among the first `n` entries.
pub open spec fn given_names(named: Seq<NamedAssertion>, n: int) -> Seq<Seq<char>>
    decreases n,
{
    if n <= 0 {
        Seq::empty()
    } else {
        match named[n - 1].name {
            Some(x) => given_names(named, n - 1).push(x@),
            None => given_names(named, n - 1),
        }
    }
}

pub(crate) fn copy_name(name: &String) -> (r: String)
    ensures
        r@ == name@,
{
    let c = crate::text::chars_of(name.as_str());
    let r = crate::text::string_of(&c, 0, c.len());
    assert(c@.subrange(0, c@.len() as int) =~= c@);
    r
}

/// The entry for the assertion at `index`.
pub open spec fn entry_at(named: Seq<NamedAssertion>, index: int, k: int) -> bool {
    &&& 0 <= k < named.len()
    &&& named[k].index == index
    &&& forall|j: int| 0 <= j < k ==> (#[trigger] named[j]).index != index
}

/// The name of the assertion at `index`, of the first entry for it.
pub open spec fn name_at(named: Seq<NamedAssertion>, index: int, n: int) -> Option<Seq<char>>
    decreases n,
{
    if n <= 0 {
        None
    } else if exists|j: int| 0 <= j < n - 1 && (#[trigger] named[j]).index == index {
        name_at(named, index, n - 1)
    } else if named[n - 1].index == index {
        match named[n - 1].name {
            Some(x) => Some(x@),
            None => None,
        }
    } else {
        None
    }
}

/// The places of the assertions that are `false`, among the first `n`.
pub open spec fn false_places(assertions: Seq<TermId>, n: int) -> Seq<usize>
    decreases n,
{
    if n <= 0 {
        Seq::empty()
    } else if assertions[n - 1] == FALSE_TERM {
        false_places(assertions, n - 1).push((n - 1) as usize)
    } else {
        false_places(assertions, n - 1)
    }
}

/// The names of the assertions that are `false`, among the first `n`.
pub open spec fn false_names(
    assertions: Seq<TermId>,
    named: Seq<NamedAssertion>,
    n: int,
) -> Seq<Seq<char>>
    decreases n,
{
    if n <= 0 {
        Seq::empty()
    } else if assertions[n - 1] == FALSE_TERM {
        match name_at(named, n - 1, named.len() as int) {
            Some(x) => false_names(assertions, named, n - 1).push(x),
            None => false_names(assertions, named, n - 1),
        }
    } else {
        false_names(assertions, named, n - 1)
    }
}

pub(crate) fn find_name(named: &Vec<NamedAssertion>, index: usize) -> (r: Option<String>)
    ensures
        match r {
            Some(x) => name_at(named@, index as int, named@.len() as int) == Some(x@),
            None => name_at(named@, index as int, named@.len() as int) is None,
        },
{
    let mut k: usize = 0;
    while k < named.len()
        invariant
            k <= named.len(),
            forall|j: int| 0 <= j < k ==> (#[trigger] named@[j]).index != index,
        decreases named.len() - k,
    {
        if named[k].index == index {
            proof {
                lemma_name_found(named@, index as int, k as int, named@.len() as int);
            }
            return match &named[k].name {
                Some(x) => Some(copy_name(x)),
                None => None,
            };
        }
        k = k + 1;
    }
    proof {
        lemma_no_name(named@, index as int, named@.len() as int);
    }
    None
}

proof fn lemma_name_found(named: Seq<NamedAssertion>, index: int, k: int, n: int)
    requires
        entry_at(named, index, k),
        k < n <= named.len(),
    ensures
        name_at(named, index, n) == (match named[k].name {
            Some(x) => Some(x@),
            None => None,
        }),
    decreases n,
{
    if n - 1 > k {
        assert(named[k].index == index);
        lemma_name_found(named, index, k, n - 1);
    }
}

proof fn lemma_no_name(named: Seq<NamedAssertion>, index: int, n: int)
    requires
        n <= named.len(),
        forall|j: int| 0 <= j < named.len() ==> (#[trigger] named[j]).index != index,
    ensures
        name_at(named, index, n) is None,
    decreases n,
{
    if n > 0 {
        assert(named[n - 1].index != index);
        lemma_no_name(named, index, n - 1);
    }
}

impl UnsatCore {
    pub fn new() -> (c: UnsatCore)
        ensures
            c.indices@.len() == 0,
            c.names@.len() == 0,
    {
        UnsatCore { indices: Vec::new(), names: Vec::new() }
    }

    pub fn is_empty(&self) -> (b: bool)
        ensures
            b == (self.indices@.len() == 0),
    {
        self.indices.len() == 0
    }
}

impl GoalState {
    /// The core of a goal with an assertion that is `false`: those assertions.
    pub fn build_unsat_core_trivial_false(&self) -> (core: UnsatCore)
        ensures
            core.indices@ == false_places(
                self@.j.assertions,
                self@.j.assertions.len() as int,
            ),
            texts(core.names@) == false_names(
                self@.j.assertions,
                self@.j.named,
                self@.j.assertions.len() as int,
            ),
    {
        let ghost given = self@.j.assertions;
        let ghost named = self@.j.named;
        let mut core = UnsatCore::new();
        let mut n: usize = 0;
        assert(core.indices@ =~= false_places(given, 0));
        assert(texts(core.names@) =~= false_names(given, named, 0));
        while n < self.assertions.len()
            invariant
                n <= self.assertions.len(),
                given == self.assertions@,
                named == self.named_assertions@,
                core.indices@ == false_places(given, n as int),
                texts(core.names@) == false_names(given, named, n as int),
            decreases self.assertions.len() - n,
        {
            let ghost before = core.names@;
            if self.assertions[n] == FALSE_TERM {
                core.indices.push(n);
                if let Some(x) = find_name(&self.named_assertions, n) {
                    let ghost text = x@;
                    core.names.push(x);
                    assert(texts(core.names@) =~= texts(before).push(text));
                }
            }
            n = n + 1;
        }
        core
    }

    /// The core that is known without further search: all assertions.
    pub fn build_unsat_core(&self) -> (core: UnsatCore)
        ensures
            core.indices@ == Seq::new(
                self@.j.named.len(),
                |k: int| self@.j.named[k].index,
            ),
            texts(core.names@) == given_names(self@.j.named, self@.j.named.len() as int),
    {
        let ghost named = self@.j.named;
        let mut core = UnsatCore::new();
        let mut n: usize = 0;
        assert(texts(core.names@) =~= given_names(named, 0));
        while n < self.named_assertions.len()
            invariant
                n <= self.named_assertions.len(),
                named == self.named_assertions@,
                core.indices@.len() == n,
                forall|k: int| 0 <= k < n ==> #[trigger] core.indices@[k] == named[k].index,
                texts(core.names@) == given_names(named, n as int),
            decreases self.named_assertions.len() - n,
        {
            let ghost before = core.names@;
            core.indices.push(self.named_assertions[n].index);
            if let Some(x) = &self.named_assertions[n].name {
                core.names.push(copy_name(x));
                assert(texts(core.names@) =~= texts(before).push(x@));
            }
            n = n + 1;
        }
        assert(core.indices@ =~= Seq::new(named.len(), |k: int| named[k].index));
        core
    }
}

} // verus!
