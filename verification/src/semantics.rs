//! What terms mean.
//!
//! An [`Interp`] gives values to the variables, to the function symbols that
//! carry no fixed meaning here, and to quantified formulas; [`eval`] extends it
//! to every term.  Arithmetic is exact, over the real numbers.

use crate::numbers::signed_value;
use crate::terms::{
    extends, node_below, numeric_sort, terms_wf, DataView, Op, SortId, Symbol, TermId, TermView,
    BOOL_SORT,
};
use vstd::prelude::*;

verus! {

/// The value of a term.
pub enum Value {
    Bool(bool),
    Num(real),
    Other(int),
}

/// Meaning of the symbols that have no fixed one.
pub struct Interp {
    /// Variables, by symbol and sort.
    pub var: spec_fn(Symbol, SortId) -> Value,
    /// Everything else that is applied to arguments.
    pub fun: spec_fn(Op, DataView, SortId, Seq<Value>) -> Value,
    /// Quantified formulas, and positions beyond the end of the store.
    pub opaque: spec_fn(TermId) -> Value,
}

pub open spec fn is_true(v: Value) -> bool {
    v == Value::Bool(true)
}

/// The number that a numeric value is.
pub open spec fn num(v: Value) -> real {
    match v {
        Value::Num(r) => r,
        _ => 0real,
    }
}

/// Equality of two values of one sort.
pub open spec fn eqv(sort: SortId, a: Value, b: Value) -> bool {
    if sort == BOOL_SORT {
        is_true(a) == is_true(b)
    } else if numeric_sort(sort) {
        num(a) == num(b)
    } else {
        a == b
    }
}

pub open spec fn sum_of(vals: Seq<Value>) -> real
    decreases vals.len(),
{
    if vals.len() == 0 {
        0real
    } else {
        sum_of(vals.drop_last()) + num(vals.last())
    }
}

pub open spec fn product_of(vals: Seq<Value>) -> real
    decreases vals.len(),
{
    if vals.len() == 0 {
        1real
    } else {
        product_of(vals.drop_last()) * num(vals.last())
    }
}

/// The value of a node whose arguments have the sorts `ss` and the values
/// `vals`.
pub open spec fn op_value(i: Interp, node: TermView, ss: Seq<SortId>, vals: Seq<Value>) -> Value {
    match node.op {
        Op::True => Value::Bool(true),
        Op::False => Value::Bool(false),
        Op::Var => (i.var)(node.data->Sym_0, node.sort),
        Op::Not => Value::Bool(!is_true(vals[0])),
        Op::And => Value::Bool(forall|k: int| 0 <= k < vals.len() ==> is_true(#[trigger] vals[k])),
        Op::Or => Value::Bool(exists|k: int| 0 <= k < vals.len() && is_true(#[trigger] vals[k])),
        Op::Xor => Value::Bool(is_true(vals[0]) != is_true(vals[1])),
        Op::Implies => Value::Bool(is_true(vals[0]) ==> is_true(vals[1])),
        Op::Ite => if is_true(vals[0]) {
            vals[1]
        } else {
            vals[2]
        },
        Op::Eq => Value::Bool(eqv(ss[0], vals[0], vals[1])),
        Op::Distinct => Value::Bool(
            forall|j: int, k: int|
                0 <= j < k < vals.len() ==> !eqv(ss[j], #[trigger] vals[j], #[trigger] vals[k]),
        ),
        Op::Let => vals[0],
        Op::IntConst => Value::Num(signed_value(node.data->Int_0, node.data->Int_1) as real),
        Op::BitVecConst => Value::Num(signed_value(node.data->Bits_0, node.data->Bits_1) as real),
        Op::RealConst => Value::Num(node.data->Real_0.value()),
        Op::Neg => Value::Num(-num(vals[0])),
        Op::Add => Value::Num(sum_of(vals)),
        Op::Sub => Value::Num(num(vals[0]) - num(vals[1])),
        Op::Mul => Value::Num(product_of(vals)),
        Op::Lt | Op::BvUlt => Value::Bool(num(vals[0]) < num(vals[1])),
        Op::Le | Op::BvUle => Value::Bool(num(vals[0]) <= num(vals[1])),
        Op::Gt => Value::Bool(num(vals[0]) > num(vals[1])),
        Op::Ge => Value::Bool(num(vals[0]) >= num(vals[1])),
        _ => (i.fun)(node.op, node.data, node.sort, vals),
    }
}

/// Positions whose value an interpretation gives outright.
pub open spec fn opaque_term(s: Seq<TermView>, t: int) -> bool {
    !(0 <= t < s.len()) || s[t].op == Op::Forall || s[t].op == Op::Exists
}

/// Sorts of the arguments of a node.
pub open spec fn arg_sorts(s: Seq<TermView>, node: TermView) -> Seq<SortId> {
    Seq::new(node.args.len(), |k: int| s[node.args[k] as int].sort)
}

/// The value of the term at `t`.
pub open spec fn eval(s: Seq<TermView>, i: Interp, t: int) -> Value
    decreases t, 1int,
{
    if opaque_term(s, t) {
        (i.opaque)(t as usize)
    } else {
        op_value(i, s[t], arg_sorts(s, s[t]), vals_below(s, i, t))
    }
}

/// Values of the arguments of the node at `t`.
pub open spec fn vals_below(s: Seq<TermView>, i: Interp, t: int) -> Seq<Value>
    decreases t, 0int,
{
    Seq::new(
        s[t].args.len(),
        |k: int|
            if 0 <= s[t].args[k] < t {
                eval(s, i, s[t].args[k] as int)
            } else {
                Value::Other(0)
            },
    )
}

/// The formula at `t` is true.
pub open spec fn holds(s: Seq<TermView>, i: Interp, t: TermId) -> bool {
    is_true(eval(s, i, t as int))
}

/// The interpretation satisfies the assertions.
pub open spec fn all_hold(s: Seq<TermView>, i: Interp, assertions: Seq<TermId>) -> bool {
    forall|k: int|
        0 <= k < assertions.len() ==> (#[trigger] assertions[k]) < s.len() && holds(
            s,
            i,
            assertions[k],
        )
}

/// Values of a list of terms.
pub open spec fn eval_args(s: Seq<TermView>, i: Interp, args: Seq<TermId>) -> Seq<Value> {
    Seq::new(args.len(), |k: int| eval(s, i, args[k] as int))
}

/// The value of a node is that of its head symbol on the values of its
/// arguments.
pub proof fn lemma_eval(s: Seq<TermView>, i: Interp, t: TermId)
    requires
        terms_wf(s),
        !opaque_term(s, t as int),
    ensures
        eval(s, i, t as int) == op_value(
            i,
            s[t as int],
            arg_sorts(s, s[t as int]),
            eval_args(s, i, s[t as int].args),
        ),
{
    assert(node_below(s, t as int));
    assert(vals_below(s, i, t as int) =~= eval_args(s, i, s[t as int].args));
}

/// A longer store gives the terms that were there the values they had.
pub proof fn lemma_extend(a: Seq<TermView>, b: Seq<TermView>, i: Interp, t: TermId)
    requires
        terms_wf(a),
        terms_wf(b),
        extends(a, b),
        t < a.len(),
    ensures
        eval(a, i, t as int) == eval(b, i, t as int),
    decreases t,
{
    assert(b[t as int] == a[t as int]);
    if !opaque_term(a, t as int) {
        let node = a[t as int];
        assert(node_below(a, t as int));
        assert forall|k: int| 0 <= k < node.args.len() implies eval(a, i, #[trigger] node.args[k] as int)
            == eval(b, i, node.args[k] as int) by {
            lemma_extend(a, b, i, node.args[k]);
        }
        lemma_eval(a, i, t);
        lemma_eval(b, i, t);
        assert(eval_args(a, i, node.args) =~= eval_args(b, i, node.args));
        assert(arg_sorts(a, node) =~= arg_sorts(b, node));
    }
}

} // verus!
