//! Hash-consed terms.
//!
//! A [`TermStore`] is a list of nodes, each of which refers to earlier nodes
//! only, so a term is a position in the list and every walk towards the leaves
//! ends.  Positions 0 and 1 hold the two Boolean constants.

use crate::numbers::{BigNum, Rat};
use vstd::prelude::*;

verus! {

/// Position of a term in its store.
pub type TermId = usize;

/// Position of a sort in its store.
pub type SortId = usize;

/// Position of a string in the store's name table.
pub type NameId = usize;

pub const TRUE_TERM: TermId = 0;

pub const FALSE_TERM: TermId = 1;

pub const BOOL_SORT: SortId = 0;

pub const INT_SORT: SortId = 1;

pub const REAL_SORT: SortId = 2;

pub const STRING_SORT: SortId = 3;

/// Head symbols.
#[derive(Clone, Copy, PartialEq, Eq, Debug, Structural)]
pub enum Op {
    True,
    False,
    Var,
    Not,
    And,
    Or,
    Xor,
    Implies,
    Ite,
    Eq,
    Distinct,
    Let,
    IntConst,
    RealConst,
    BitVecConst,
    Neg,
    Add,
    Sub,
    Mul,
    Div,
    Mod,
    Lt,
    Le,
    Gt,
    Ge,
    BvConcat,
    BvExtract,
    BvNot,
    BvAnd,
    BvOr,
    BvXor,
    BvAdd,
    BvSub,
    BvMul,
    BvShl,
    BvLshr,
    BvAshr,
    BvUdiv,
    BvSdiv,
    BvUrem,
    BvSrem,
    BvUlt,
    BvUle,
    BvSlt,
    BvSle,
    Select,
    Store,
    Apply,
    Forall,
    Exists,
    StringLit,
    StrConcat,
    StrLen,
    StrSubstr,
    StrAt,
    StrReplace,
    StrReplaceAll,
    StrReplaceRe,
    StrReplaceReAll,
    StrToInt,
    IntToStr,
    StrToCode,
    StrFromCode,
    StrInRe,
    StrContains,
    StrPrefixOf,
    StrSuffixOf,
    StrLt,
    StrLe,
    StrIndexOf,
    FpLit,
    FpConst,
    FpOp,
    FpPredicate,
    FpConversion,
    DtConstructor,
    DtTester,
    DtSelector,
    Match,
}

/// The symbol of a variable.
///
/// Besides the symbols a user declares there are those that the rewriting
/// passes introduce, each named after the term it stands for.
#[derive(Clone, Copy, PartialEq, Eq, Debug, Structural)]
pub enum Symbol {
    /// A declared symbol, by its place in the name table.
    User(NameId),
    /// The value of a conditional term.
    IteResult(TermId),
    /// A compound Boolean argument of a function.
    BoolArg(TermId),
    /// A constant or compound numeric argument of a function.
    NumArg(TermId),
    /// The value of a lookup table, by the table's root and its place among the
    /// tables that were flattened together.
    TableResult(TermId, usize),
    /// A foreign term in an arithmetic context.
    Purified(usize),
}

/// What a node holds besides its arguments.
#[derive(Debug)]
pub enum Data {
    Plain,
    /// The symbol of a variable.
    Sym(Symbol),
    /// An integer literal.
    Int(BigNum),
    /// A rational literal.
    Real(Rat),
    /// A bit-vector literal and its width.
    Bits(BigNum, u32),
    /// A function, constructor or tester name, or the text of a string literal.
    Name(NameId),
    /// Bound variables with their sorts.
    Bound(Vec<(NameId, SortId)>),
    /// The two indices of an indexed operator.
    Indexed(usize, usize),
}

/// Mathematical content of a [`Data`].
pub enum DataView {
    Plain,
    Sym(Symbol),
    Int(bool, Seq<u32>),
    Real(Rat),
    Bits(bool, Seq<u32>, u32),
    Name(NameId),
    Bound(Seq<(NameId, SortId)>),
    Indexed(usize, usize),
}

impl View for Data {
    type V = DataView;

    open spec fn view(&self) -> DataView {
        match self {
            Data::Plain => DataView::Plain,
            Data::Sym(s) => DataView::Sym(*s),
            Data::Int(n) => DataView::Int(n.negative, n.digits@),
            Data::Real(r) => DataView::Real(*r),
            Data::Bits(n, w) => DataView::Bits(n.negative, n.digits@, *w),
            Data::Name(n) => DataView::Name(*n),
            Data::Bound(vars) => DataView::Bound(vars@),
            Data::Indexed(i, j) => DataView::Indexed(*i, *j),
        }
    }
}

/// A node: head symbol, arguments, further content, and sort.
#[derive(Debug)]
pub struct Term {
    pub op: Op,
    pub args: Vec<TermId>,
    pub data: Data,
    pub sort: SortId,
}

/// Mathematical content of a [`Term`].
pub struct TermView {
    pub op: Op,
    pub args: Seq<TermId>,
    pub data: DataView,
    pub sort: SortId,
}

impl View for Term {
    type V = TermView;

    open spec fn view(&self) -> TermView {
        TermView { op: self.op, args: self.args@, data: self.data@, sort: self.sort }
    }
}

/// What a sort is.
#[derive(Clone, Copy, PartialEq, Eq, Debug, Structural)]
pub enum SortKind {
    Bool,
    Int,
    Real,
    String,
    BitVec(u32),
    Array { domain: SortId, range: SortId },
    FloatingPoint { eb: u32, sb: u32 },
    Uninterpreted(NameId),
    Datatype(NameId),
    /// A sort parameter of a polymorphic declaration.
    Parameter(NameId),
    /// A declared sort constructor applied to arguments.
    Parametric(NameId),
}

/// Terms, sorts and names.
pub struct TermStore {
    pub nodes: Vec<Term>,
    pub sorts: Vec<SortKind>,
    pub names: Vec<String>,
}

/// The numbers of arguments that a head symbol takes.
pub open spec fn arity_ok(op: Op, n: int) -> bool {
    match op {
        Op::True | Op::False | Op::Var | Op::IntConst | Op::RealConst | Op::BitVecConst
        | Op::StringLit => n == 0,
        Op::Not | Op::Neg | Op::StrLen => n == 1,
        Op::Xor | Op::Implies | Op::Eq | Op::Sub | Op::Div | Op::Mod | Op::Lt | Op::Le | Op::Gt
        | Op::Ge | Op::BvUlt | Op::BvUle | Op::BvSlt | Op::BvSle | Op::Select | Op::StrConcat => n
            == 2,
        Op::Ite | Op::Store | Op::StrReplaceAll => n == 3,
        Op::Let | Op::Forall | Op::Exists => n >= 1,
        _ => true,
    }
}

/// The content that a head symbol goes with.
pub open spec fn data_ok(op: Op, data: DataView) -> bool {
    match op {
        Op::True | Op::False => data is Plain,
        Op::Var => data is Sym,
        Op::IntConst => data is Int,
        Op::RealConst => data matches DataView::Real(r) && r.wf(),
        Op::BitVecConst => data is Bits,
        Op::StringLit | Op::Apply => data is Name,
        Op::Forall | Op::Exists | Op::Let => data is Bound,
        _ => true,
    }
}

/// An equation is a formula, and equated terms have one sort; so have the branches of a conditional and the
/// conditional itself, and so have a `let` and its body.
pub open spec fn sorts_ok(s: Seq<TermView>, node: TermView) -> bool {
    match node.op {
        Op::Eq => node.sort == BOOL_SORT && comparable(
            s[node.args[0] as int].sort,
            s[node.args[1] as int].sort,
        ),
        Op::Distinct => forall|j: int, k: int|
            0 <= j < k < node.args.len() ==> s[#[trigger] node.args[j] as int].sort
                == s[#[trigger] node.args[k] as int].sort,
        Op::Ite => s[node.args[1] as int].sort == node.sort && s[node.args[2] as int].sort
            == node.sort,
        Op::Let => s[node.args[0] as int].sort == node.sort,
        _ => true,
    }
}

/// A node that may stand at the end of `s`.
pub open spec fn node_ok(s: Seq<TermView>, node: TermView) -> bool {
    &&& forall|k: int| 0 <= k < node.args.len() ==> (#[trigger] node.args[k]) < s.len()
    &&& arity_ok(node.op, node.args.len() as int)
    &&& data_ok(node.op, node.data)
    &&& sorts_ok(s, node)
}

/// Every node refers to earlier nodes only and is built as its head symbol
/// asks, and the Boolean constants stand at their places and nowhere else.
pub open spec fn terms_wf(s: Seq<TermView>) -> bool {
    &&& s.len() >= 2
    &&& s[TRUE_TERM as int].sort == BOOL_SORT
    &&& s[FALSE_TERM as int].sort == BOOL_SORT
    &&& forall|t: int| 0 <= t < s.len() ==> (#[trigger] s[t].op == Op::True <==> t == TRUE_TERM)
    &&& forall|t: int| 0 <= t < s.len() ==> (#[trigger] s[t].op == Op::False <==> t == FALSE_TERM)
    &&& forall|t: int| 0 <= t < s.len() ==> #[trigger] node_below(s, t)
}

/// The node at `t` refers to nodes before `t` only and is built as its head
/// symbol asks.
pub open spec fn node_below(s: Seq<TermView>, t: int) -> bool {
    &&& forall|k: int| 0 <= k < s[t].args.len() ==> (#[trigger] s[t].args[k]) < t
    &&& arity_ok(s[t].op, s[t].args.len() as int)
    &&& data_ok(s[t].op, s[t].data)
    &&& sorts_ok(s, s[t])
}

/// `b` continues `a`.
pub open spec fn extends(a: Seq<TermView>, b: Seq<TermView>) -> bool {
    &&& a.len() <= b.len()
    &&& forall|t: int| 0 <= t < a.len() ==> #[trigger] b[t] == a[t]
}

/// A node with an equal content is at position `t`.
pub open spec fn node_at(s: Seq<TermView>, t: TermId, node: TermView) -> bool {
    t < s.len() && s[t as int] == node
}

/// Terms of the two sorts may be equated: the sorts are the same, or both are
/// sorts of numbers.
pub open spec fn comparable(a: SortId, b: SortId) -> bool {
    a == b || (numeric_sort(a) && numeric_sort(b))
}

pub open spec fn numeric_sort(sort: SortId) -> bool {
    sort == INT_SORT || sort == REAL_SORT
}

pub fn is_numeric_sort(sort: SortId) -> (b: bool)
    ensures
        b == numeric_sort(sort),
{
    sort == INT_SORT || sort == REAL_SORT
}

pub fn are_comparable(a: SortId, b: SortId) -> (r: bool)
    ensures
        r == comparable(a, b),
{
    a == b || (is_numeric_sort(a) && is_numeric_sort(b))
}

fn same_bound(a: &Vec<(NameId, SortId)>, b: &Vec<(NameId, SortId)>) -> (r: bool)
    ensures
        r == (a@ == b@),
{
    if a.len() != b.len() {
        return false;
    }
    let mut i: usize = 0;
    while i < a.len()
        invariant
            i <= a.len(),
            a.len() == b.len(),
            forall|j: int| 0 <= j < i ==> a@[j] == b@[j],
        decreases a.len() - i,
    {
        if a[i].0 != b[i].0 || a[i].1 != b[i].1 {
            return false;
        }
        i = i + 1;
    }
    assert(a@ =~= b@);
    true
}

/// Equality of two argument lists.
pub fn same_ids(a: &Vec<TermId>, b: &Vec<TermId>) -> (r: bool)
    ensures
        r == (a@ == b@),
{
    if a.len() != b.len() {
        return false;
    }
    let mut i: usize = 0;
    while i < a.len()
        invariant
            i <= a.len(),
            a.len() == b.len(),
            forall|j: int| 0 <= j < i ==> a@[j] == b@[j],
        decreases a.len() - i,
    {
        if a[i] != b[i] {
            return false;
        }
        i = i + 1;
    }
    assert(a@ =~= b@);
    true
}

impl Data {
    pub fn same(&self, other: &Data) -> (r: bool)
        ensures
            r == (self@ == other@),
    {
        match (self, other) {
            (Data::Plain, Data::Plain) => true,
            (Data::Sym(a), Data::Sym(b)) => *a == *b,
            (Data::Int(a), Data::Int(b)) => a.same(b),
            (Data::Real(a), Data::Real(b)) => *a == *b,
            (Data::Bits(a, v), Data::Bits(b, w)) => *v == *w && a.same(b),
            (Data::Name(a), Data::Name(b)) => *a == *b,
            (Data::Bound(a), Data::Bound(b)) => same_bound(a, b),
            (Data::Indexed(a, b), Data::Indexed(c, d)) => *a == *c && *b == *d,
            _ => false,
        }
    }

    pub fn duplicate(&self) -> (r: Data)
        ensures
            r@ == self@,
    {
        match self {
            Data::Plain => Data::Plain,
            Data::Sym(s) => Data::Sym(*s),
            Data::Int(n) => Data::Int(n.duplicate()),
            Data::Real(r) => Data::Real(*r),
            Data::Bits(n, w) => Data::Bits(n.duplicate(), *w),
            Data::Name(n) => Data::Name(*n),
            Data::Bound(vars) => Data::Bound(crate::collections::copy_words(vars)),
            Data::Indexed(i, j) => Data::Indexed(*i, *j),
        }
    }
}

impl TermStore {
    /// The nodes.
    pub open spec fn terms(&self) -> Seq<TermView> {
        Seq::new(self.nodes@.len(), |t: int| self.nodes@[t]@)
    }

    pub open spec fn wf(&self) -> bool {
        terms_wf(self.terms())
    }

    /// Same sorts and names.
    pub open spec fn same_tables(&self, other: &TermStore) -> bool {
        self.sorts@ == other.sorts@ && self.names@ == other.names@
    }

    /// A store with the Boolean constants and the built-in sorts.
    pub fn new() -> (r: TermStore)
        ensures
            r.wf(),
            r.terms().len() == 2,
            r.sorts@ == seq![SortKind::Bool, SortKind::Int, SortKind::Real, SortKind::String],
            r.names@.len() == 0,
    {
        let mut nodes: Vec<Term> = Vec::new();
        nodes.push(Term { op: Op::True, args: Vec::new(), data: Data::Plain, sort: BOOL_SORT });
        nodes.push(Term { op: Op::False, args: Vec::new(), data: Data::Plain, sort: BOOL_SORT });
        let mut sorts: Vec<SortKind> = Vec::new();
        sorts.push(SortKind::Bool);
        sorts.push(SortKind::Int);
        sorts.push(SortKind::Real);
        sorts.push(SortKind::String);
        let r = TermStore { nodes, sorts, names: Vec::new() };
        proof {
            let s = r.terms();
            assert(node_below(s, 0));
            assert(node_below(s, 1));
        }
        r
    }

    /// The node at `t`, if there is one.
    pub fn get(&self, t: TermId) -> (r: Option<&Term>)
        ensures
            r is Some <==> t < self.terms().len(),
            r matches Some(node) ==> node@ == self.terms()[t as int],
    {
        if t < self.nodes.len() {
            Some(&self.nodes[t])
        } else {
            None
        }
    }

    fn find(&self, op: Op, args: &Vec<TermId>, data: &Data, sort: SortId) -> (r: Option<TermId>)
        ensures
            ({
                let node = TermView { op, args: args@, data: data@, sort };
                match r {
                    Some(t) => node_at(self.terms(), t, node) && forall|u: int|
                        0 <= u < t ==> #[trigger] self.terms()[u] != node,
                    None => forall|u: int|
                        0 <= u < self.terms().len() ==> #[trigger] self.terms()[u] != node,
                }
            }),
    {
        let ghost node = TermView { op, args: args@, data: data@, sort };
        let mut t: usize = 0;
        while t < self.nodes.len()
            invariant
                t <= self.nodes.len(),
                node == (TermView { op, args: args@, data: data@, sort }),
                forall|u: int| 0 <= u < t ==> #[trigger] self.terms()[u] != node,
            decreases self.nodes.len() - t,
        {
            let n = &self.nodes[t];
            assert(self.terms()[t as int] == n@);
            if n.op == op && n.sort == sort && same_ids(&n.args, args) && n.data.same(data) {
                return Some(t);
            }
            t = t + 1;
        }
        None
    }

    /// The position of the node with the given content, which is added at the
    /// end where it is not there yet.
    pub fn intern(&mut self, op: Op, args: Vec<TermId>, data: Data, sort: SortId) -> (r: TermId)
        requires
            old(self).wf(),
            op != Op::True,
            op != Op::False,
            node_ok(old(self).terms(), TermView { op, args: args@, data: data@, sort }),
        ensures
            final(self).wf(),
            final(self).same_tables(old(self)),
            interned(
                old(self).terms(),
                final(self).terms(),
                TermView { op, args: args@, data: data@, sort },
                r,
            ),
    {
        let ghost node = TermView { op, args: args@, data: data@, sort };
        let ghost before = self.terms();
        if let Some(t) = self.find(op, &args, &data, sort) {
            return t;
        }
        let t: usize = self.nodes.len();
        self.nodes.push(Term { op, args, data, sort });
        proof {
            let after = self.terms();
            assert(after =~= before.push(node));
            assert forall|u: int| 0 <= u < after.len() implies #[trigger] node_below(after, u) by {
                if u < before.len() {
                    assert(node_below(before, u));
                }
            }
        }
        t
    }
}

/// Adding `node` to `a` gives `b` and the position `t`: the first position that
/// already holds it, or else the end.
pub open spec fn interned(
    a: Seq<TermView>,
    b: Seq<TermView>,
    node: TermView,
    t: TermId,
) -> bool {
    ||| {
        &&& b == a
        &&& node_at(a, t, node)
        &&& forall|u: int| 0 <= u < t ==> #[trigger] a[u] != node
    }
    ||| {
        &&& b == a.push(node)
        &&& t == a.len()
        &&& forall|u: int| 0 <= u < a.len() ==> #[trigger] a[u] != node
    }
}

} // verus!
