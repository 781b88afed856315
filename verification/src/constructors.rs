//! Building terms.
//!
//! Each constructor states the node that stands at the returned position and
//! that the store only grew; its doc comment gives the meaning, which
//! [`crate::semantics::lemma_eval`] derives from the node.

use crate::numbers::{magnitude, word_digits, BigNum};
use crate::semantics::{eqv, eval, holds, lemma_eval};
use crate::terms::{
    comparable, extends, interned, node_at, node_ok, terms_wf, Data, DataView, Op, SortId, Symbol,
    TermId, TermStore, TermView, BOOL_SORT, INT_SORT, TRUE_TERM,
};
use vstd::prelude::*;

verus! {

/// The later store continues the earlier one: terms keep their positions, and
/// sorts and names are the same.
pub open spec fn grew(a: &TermStore, b: &TermStore) -> bool {
    &&& b.wf()
    &&& extends(a.terms(), b.terms())
    &&& b.same_tables(a)
}

pub open spec fn plain_node(op: Op, args: Seq<TermId>, sort: SortId) -> TermView {
    TermView { op, args, data: DataView::Plain, sort }
}

pub open spec fn int_node(n: i64) -> TermView {
    TermView {
        op: Op::IntConst,
        args: Seq::empty(),
        data: DataView::Int(n < 0, word_digits(magnitude(n as int))),
        sort: INT_SORT,
    }
}

pub open spec fn var_node(symbol: Symbol, sort: SortId) -> TermView {
    TermView { op: Op::Var, args: Seq::empty(), data: DataView::Sym(symbol), sort }
}

/// What equating `a` and `b` adds: nothing for one and the same term, which
/// equals itself.
pub open spec fn eq_built(
    before: Seq<TermView>,
    after: Seq<TermView>,
    a: TermId,
    b: TermId,
    r: TermId,
) -> bool {
    if a == b {
        r == TRUE_TERM && after == before
    } else {
        interned(before, after, plain_node(Op::Eq, seq![a, b], BOOL_SORT), r)
    }
}

/// `eq` is the equation of `a` and `b`, or `true` where they are one term.
pub open spec fn is_equation(s: Seq<TermView>, a: TermId, b: TermId, eq: TermId) -> bool {
    if a == b {
        eq == TRUE_TERM
    } else {
        node_at(s, eq, plain_node(Op::Eq, seq![a, b], BOOL_SORT))
    }
}

/// `t` is `(=> a b)`.
pub open spec fn is_implication(s: Seq<TermView>, t: TermId, a: TermId, b: TermId) -> bool {
    node_at(s, t, plain_node(Op::Implies, seq![a, b], BOOL_SORT))
}

/// `t` is `(not a)`.
pub open spec fn is_negation(s: Seq<TermView>, t: TermId, a: TermId) -> bool {
    node_at(s, t, plain_node(Op::Not, seq![a], BOOL_SORT))
}

/// The node of an equation between `a` and `b`.
pub proof fn lemma_eq_holds(s: Seq<TermView>, a: TermId, b: TermId, r: TermId)
    requires
        terms_wf(s),
        a < s.len(),
        b < s.len(),
        is_equation(s, a, b, r),
    ensures
        forall|i: crate::semantics::Interp| #[trigger]
            holds(s, i, r) == eqv(s[a as int].sort, eval(s, i, a as int), eval(s, i, b as int)),
{
    assert forall|i: crate::semantics::Interp| #[trigger] holds(s, i, r) == eqv(
        s[a as int].sort,
        eval(s, i, a as int),
        eval(s, i, b as int),
    ) by {
        lemma_eval(s, i, r);
    }
}

impl TermStore {
    fn mk_plain(&mut self, op: Op, args: Vec<TermId>, sort: SortId) -> (r: TermId)
        requires
            old(self).wf(),
            op != Op::True,
            op != Op::False,
            node_ok(old(self).terms(), plain_node(op, args@, sort)),
        ensures
            grew(old(self), final(self)),
            interned(old(self).terms(), final(self).terms(), plain_node(op, args@, sort), r),
            node_at(final(self).terms(), r, plain_node(op, args@, sort)),
    {
        self.intern(op, args, Data::Plain, sort)
    }

    /// `(= a b)`.
    pub fn mk_eq(&mut self, a: TermId, b: TermId) -> (r: TermId)
        requires
            old(self).wf(),
            a < old(self).terms().len(),
            b < old(self).terms().len(),
            comparable(old(self).terms()[a as int].sort, old(self).terms()[b as int].sort),
        ensures
            grew(old(self), final(self)),
            eq_built(old(self).terms(), final(self).terms(), a, b, r),
            r < final(self).terms().len(),
            forall|i: crate::semantics::Interp| #[trigger]
                holds(final(self).terms(), i, r) == eqv(
                    old(self).terms()[a as int].sort,
                    eval(final(self).terms(), i, a as int),
                    eval(final(self).terms(), i, b as int),
                ),
    {
        if a == b {
            proof {
                lemma_eq_holds(self.terms(), a, b, TRUE_TERM);
            }
            return TRUE_TERM;
        }
        let mut args: Vec<TermId> = Vec::new();
        args.push(a);
        args.push(b);
        assert(args@ =~= seq![a, b]);
        let r = self.mk_plain(Op::Eq, args, BOOL_SORT);
        proof {
            lemma_eq_holds(self.terms(), a, b, r);
        }
        r
    }

    /// `(not a)`.
    pub fn mk_not(&mut self, a: TermId) -> (r: TermId)
        requires
            old(self).wf(),
            a < old(self).terms().len(),
        ensures
            grew(old(self), final(self)),
            interned(
                old(self).terms(),
                final(self).terms(),
                plain_node(Op::Not, seq![a], BOOL_SORT),
                r,
            ),
            r < final(self).terms().len(),
    {
        let mut args: Vec<TermId> = Vec::new();
        args.push(a);
        assert(args@ =~= seq![a]);
        self.mk_plain(Op::Not, args, BOOL_SORT)
    }

    /// `(- a)`.
    pub fn mk_neg(&mut self, a: TermId) -> (r: TermId)
        requires
            old(self).wf(),
            a < old(self).terms().len(),
        ensures
            grew(old(self), final(self)),
            interned(
                old(self).terms(),
                final(self).terms(),
                plain_node(Op::Neg, seq![a], old(self).terms()[a as int].sort),
                r,
            ),
            r < final(self).terms().len(),
    {
        let mut args: Vec<TermId> = Vec::new();
        args.push(a);
        assert(args@ =~= seq![a]);
        let sort: SortId = self.nodes[a].sort;
        self.mk_plain(Op::Neg, args, sort)
    }

    /// `(and args..)`.
    pub fn mk_and(&mut self, args: Vec<TermId>) -> (r: TermId)
        requires
            old(self).wf(),
            forall|k: int| 0 <= k < args@.len() ==> (#[trigger] args@[k]) < old(self).terms().len(),
        ensures
            grew(old(self), final(self)),
            interned(
                old(self).terms(),
                final(self).terms(),
                plain_node(Op::And, args@, BOOL_SORT),
                r,
            ),
            r < final(self).terms().len(),
    {
        self.mk_plain(Op::And, args, BOOL_SORT)
    }

    /// `(or args..)`.
    pub fn mk_or(&mut self, args: Vec<TermId>) -> (r: TermId)
        requires
            old(self).wf(),
            forall|k: int| 0 <= k < args@.len() ==> (#[trigger] args@[k]) < old(self).terms().len(),
        ensures
            grew(old(self), final(self)),
            interned(
                old(self).terms(),
                final(self).terms(),
                plain_node(Op::Or, args@, BOOL_SORT),
                r,
            ),
            r < final(self).terms().len(),
    {
        self.mk_plain(Op::Or, args, BOOL_SORT)
    }

    /// `(xor a b)`.
    pub fn mk_xor(&mut self, a: TermId, b: TermId) -> (r: TermId)
        requires
            old(self).wf(),
            a < old(self).terms().len(),
            b < old(self).terms().len(),
        ensures
            grew(old(self), final(self)),
            interned(
                old(self).terms(),
                final(self).terms(),
                plain_node(Op::Xor, seq![a, b], BOOL_SORT),
                r,
            ),
            r < final(self).terms().len(),
    {
        let mut args: Vec<TermId> = Vec::new();
        args.push(a);
        args.push(b);
        assert(args@ =~= seq![a, b]);
        self.mk_plain(Op::Xor, args, BOOL_SORT)
    }

    /// `(=> a b)`.
    pub fn mk_implies(&mut self, a: TermId, b: TermId) -> (r: TermId)
        requires
            old(self).wf(),
            a < old(self).terms().len(),
            b < old(self).terms().len(),
        ensures
            grew(old(self), final(self)),
            interned(
                old(self).terms(),
                final(self).terms(),
                plain_node(Op::Implies, seq![a, b], BOOL_SORT),
                r,
            ),
            r < final(self).terms().len(),
    {
        let mut args: Vec<TermId> = Vec::new();
        args.push(a);
        args.push(b);
        assert(args@ =~= seq![a, b]);
        self.mk_plain(Op::Implies, args, BOOL_SORT)
    }

    /// `(< a b)`.
    pub fn mk_lt(&mut self, a: TermId, b: TermId) -> (r: TermId)
        requires
            old(self).wf(),
            a < old(self).terms().len(),
            b < old(self).terms().len(),
        ensures
            grew(old(self), final(self)),
            interned(
                old(self).terms(),
                final(self).terms(),
                plain_node(Op::Lt, seq![a, b], BOOL_SORT),
                r,
            ),
            r < final(self).terms().len(),
    {
        let mut args: Vec<TermId> = Vec::new();
        args.push(a);
        args.push(b);
        assert(args@ =~= seq![a, b]);
        self.mk_plain(Op::Lt, args, BOOL_SORT)
    }

    /// `(<= a b)`.
    pub fn mk_le(&mut self, a: TermId, b: TermId) -> (r: TermId)
        requires
            old(self).wf(),
            a < old(self).terms().len(),
            b < old(self).terms().len(),
        ensures
            grew(old(self), final(self)),
            interned(
                old(self).terms(),
                final(self).terms(),
                plain_node(Op::Le, seq![a, b], BOOL_SORT),
                r,
            ),
            r < final(self).terms().len(),
    {
        let mut args: Vec<TermId> = Vec::new();
        args.push(a);
        args.push(b);
        assert(args@ =~= seq![a, b]);
        self.mk_plain(Op::Le, args, BOOL_SORT)
    }

    /// `(> a b)`.
    pub fn mk_gt(&mut self, a: TermId, b: TermId) -> (r: TermId)
        requires
            old(self).wf(),
            a < old(self).terms().len(),
            b < old(self).terms().len(),
        ensures
            grew(old(self), final(self)),
            interned(
                old(self).terms(),
                final(self).terms(),
                plain_node(Op::Gt, seq![a, b], BOOL_SORT),
                r,
            ),
            r < final(self).terms().len(),
    {
        let mut args: Vec<TermId> = Vec::new();
        args.push(a);
        args.push(b);
        assert(args@ =~= seq![a, b]);
        self.mk_plain(Op::Gt, args, BOOL_SORT)
    }

    /// `(>= a b)`.
    pub fn mk_ge(&mut self, a: TermId, b: TermId) -> (r: TermId)
        requires
            old(self).wf(),
            a < old(self).terms().len(),
            b < old(self).terms().len(),
        ensures
            grew(old(self), final(self)),
            interned(
                old(self).terms(),
                final(self).terms(),
                plain_node(Op::Ge, seq![a, b], BOOL_SORT),
                r,
            ),
            r < final(self).terms().len(),
    {
        let mut args: Vec<TermId> = Vec::new();
        args.push(a);
        args.push(b);
        assert(args@ =~= seq![a, b]);
        self.mk_plain(Op::Ge, args, BOOL_SORT)
    }

    /// `(- a b)`.
    pub fn mk_sub(&mut self, a: TermId, b: TermId) -> (r: TermId)
        requires
            old(self).wf(),
            a < old(self).terms().len(),
            b < old(self).terms().len(),
        ensures
            grew(old(self), final(self)),
            interned(
                old(self).terms(),
                final(self).terms(),
                plain_node(Op::Sub, seq![a, b], old(self).terms()[a as int].sort),
                r,
            ),
            r < final(self).terms().len(),
    {
        let mut args: Vec<TermId> = Vec::new();
        args.push(a);
        args.push(b);
        assert(args@ =~= seq![a, b]);
        let sort: SortId = self.nodes[a].sort;
        self.mk_plain(Op::Sub, args, sort)
    }

    /// `(div a b)`.
    pub fn mk_div(&mut self, a: TermId, b: TermId) -> (r: TermId)
        requires
            old(self).wf(),
            a < old(self).terms().len(),
            b < old(self).terms().len(),
        ensures
            grew(old(self), final(self)),
            interned(
                old(self).terms(),
                final(self).terms(),
                plain_node(Op::Div, seq![a, b], old(self).terms()[a as int].sort),
                r,
            ),
            r < final(self).terms().len(),
    {
        let mut args: Vec<TermId> = Vec::new();
        args.push(a);
        args.push(b);
        assert(args@ =~= seq![a, b]);
        let sort: SortId = self.nodes[a].sort;
        self.mk_plain(Op::Div, args, sort)
    }

    /// `(mod a b)`.
    pub fn mk_mod(&mut self, a: TermId, b: TermId) -> (r: TermId)
        requires
            old(self).wf(),
            a < old(self).terms().len(),
            b < old(self).terms().len(),
        ensures
            grew(old(self), final(self)),
            interned(
                old(self).terms(),
                final(self).terms(),
                plain_node(Op::Mod, seq![a, b], old(self).terms()[a as int].sort),
                r,
            ),
            r < final(self).terms().len(),
    {
        let mut args: Vec<TermId> = Vec::new();
        args.push(a);
        args.push(b);
        assert(args@ =~= seq![a, b]);
        let sort: SortId = self.nodes[a].sort;
        self.mk_plain(Op::Mod, args, sort)
    }

    /// `(+ args..)` of a numeric sort.
    pub fn mk_add(&mut self, args: Vec<TermId>, sort: SortId) -> (r: TermId)
        requires
            old(self).wf(),
            forall|k: int| 0 <= k < args@.len() ==> (#[trigger] args@[k]) < old(self).terms().len(),
        ensures
            grew(old(self), final(self)),
            interned(
                old(self).terms(),
                final(self).terms(),
                plain_node(Op::Add, args@, sort),
                r,
            ),
            r < final(self).terms().len(),
    {
        self.mk_plain(Op::Add, args, sort)
    }

    /// `(* args..)` of a numeric sort.
    pub fn mk_mul(&mut self, args: Vec<TermId>, sort: SortId) -> (r: TermId)
        requires
            old(self).wf(),
            forall|k: int| 0 <= k < args@.len() ==> (#[trigger] args@[k]) < old(self).terms().len(),
        ensures
            grew(old(self), final(self)),
            interned(
                old(self).terms(),
                final(self).terms(),
                plain_node(Op::Mul, args@, sort),
                r,
            ),
            r < final(self).terms().len(),
    {
        self.mk_plain(Op::Mul, args, sort)
    }

    /// `(distinct args..)`.
    pub fn mk_distinct(&mut self, args: Vec<TermId>) -> (r: TermId)
        requires
            old(self).wf(),
            node_ok(old(self).terms(), plain_node(Op::Distinct, args@, BOOL_SORT)),
        ensures
            grew(old(self), final(self)),
            interned(
                old(self).terms(),
                final(self).terms(),
                plain_node(Op::Distinct, args@, BOOL_SORT),
                r,
            ),
            r < final(self).terms().len(),
    {
        self.mk_plain(Op::Distinct, args, BOOL_SORT)
    }

    /// `(ite c a b)`.
    pub fn mk_ite(&mut self, c: TermId, a: TermId, b: TermId) -> (r: TermId)
        requires
            old(self).wf(),
            c < old(self).terms().len(),
            a < old(self).terms().len(),
            b < old(self).terms().len(),
            old(self).terms()[a as int].sort == old(self).terms()[b as int].sort,
        ensures
            grew(old(self), final(self)),
            interned(
                old(self).terms(),
                final(self).terms(),
                plain_node(Op::Ite, seq![c, a, b], old(self).terms()[a as int].sort),
                r,
            ),
            r < final(self).terms().len(),
    {
        let mut args: Vec<TermId> = Vec::new();
        args.push(c);
        args.push(a);
        args.push(b);
        assert(args@ =~= seq![c, a, b]);
        let sort: SortId = self.nodes[a].sort;
        self.mk_plain(Op::Ite, args, sort)
    }

    /// The integer literal `n`.
    pub fn mk_int(&mut self, n: i64) -> (r: TermId)
        requires
            old(self).wf(),
        ensures
            grew(old(self), final(self)),
            interned(old(self).terms(), final(self).terms(), int_node(n), r),
            r < final(self).terms().len(),
    {
        let args: Vec<TermId> = Vec::new();
        assert(args@ =~= Seq::<TermId>::empty());
        self.intern(Op::IntConst, args, Data::Int(BigNum::from_i64(n)), INT_SORT)
    }

    /// The variable with the given symbol and sort.
    pub fn mk_var(&mut self, symbol: Symbol, sort: SortId) -> (r: TermId)
        requires
            old(self).wf(),
        ensures
            grew(old(self), final(self)),
            interned(old(self).terms(), final(self).terms(), var_node(symbol, sort), r),
            r < final(self).terms().len(),
    {
        let args: Vec<TermId> = Vec::new();
        assert(args@ =~= Seq::<TermId>::empty());
        self.intern(Op::Var, args, Data::Sym(symbol), sort)
    }
}

} // verus!
