//! Linear forms of arithmetic terms.
//!
//! [`extract_linear_terms`] folds a term into a list of atoms with coefficients
//! and a constant.  A product is linear when at most one factor is not a
//! constant.  Conditionals, integer division and remainder, and applications of
//! a numeric sort are atoms.  A constant or an intermediate result that leaves
//! the 64-bit range makes the term count as not linear.

use crate::collections::{
    ascending, coeffs, coeffs_get, coeffs_len, coeffs_new, coeffs_push, map_get, map_insert,
    map_new, map_sorted_keys, CoeffVec,
};
use crate::numbers::{
    fits, lemma_rat_add, lemma_rat_mul, lemma_rat_neg, rat_add, rat_mul, rat_neg, signed_value, Rat,
};
use crate::semantics::{
    eval, eval_args, lemma_eval, lemma_extend, num, product_of, sum_of, Interp, Value,
};
use crate::terms::{
    extends, is_numeric_sort, node_below, numeric_sort, terms_wf, Data, DataView, Op, TermId,
    TermStore, TermView, INT_SORT,
};
use rustc_hash::FxHashMap;
use vstd::prelude::*;

verus! {

/// A sum of atoms with coefficients, and a constant.
pub struct Lin {
    pub terms: Seq<(TermId, Rat)>,
    pub constant: Rat,
}

pub open spec fn rat_zero() -> Rat {
    Rat { num: 0, den: 1 }
}

pub open spec fn rat_one() -> Rat {
    Rat { num: 1, den: 1 }
}

pub open spec fn rat_minus_one() -> Rat {
    Rat { num: (-1int) as i64, den: 1 }
}

pub open spec fn lin_empty() -> Lin {
    Lin { terms: Seq::empty(), constant: rat_zero() }
}

pub open spec fn push_term(acc: Lin, x: TermId, c: Rat) -> Lin {
    Lin { terms: acc.terms.push((x, c)), constant: acc.constant }
}

pub open spec fn add_const(acc: Lin, c: Rat) -> Option<Lin> {
    match rat_add(acc.constant, c) {
        Some(k) => Some(Lin { terms: acc.terms, constant: k }),
        None => None,
    }
}

pub open spec fn add_scaled(acc: Lin, sc: Rat, c: Rat) -> Option<Lin> {
    match rat_mul(sc, c) {
        Some(p) => add_const(acc, p),
        None => None,
    }
}

/// Terms that enter a linear form as they are.
pub open spec fn linear_atom(node: TermView) -> bool {
    match node.op {
        Op::Var => true,
        Op::Apply | Op::Select | Op::DtSelector | Op::Ite => numeric_sort(node.sort),
        Op::Div | Op::Mod => node.sort == INT_SORT,
        _ => false,
    }
}

/// The literal that a constant node holds, where it fits in 64 bits.
pub open spec fn literal(node: TermView) -> Option<Rat> {
    match node.data {
        DataView::Int(neg, d) => if fits(signed_value(neg, d)) {
            Some(Rat { num: signed_value(neg, d) as i64, den: 1 })
        } else {
            None
        },
        DataView::Bits(neg, d, _) => if fits(signed_value(neg, d)) {
            Some(Rat { num: signed_value(neg, d) as i64, den: 1 })
        } else {
            None
        },
        DataView::Real(r) => Some(r),
        _ => None,
    }
}

/// What a finished factor does to a product: a constant joins the constant
/// factor, a single atom without a constant becomes the variable factor, and
/// anything else, or a second atom, makes the product nonlinear.
pub open spec fn classify(factor: Lin, cp: Rat, vf: Option<(TermId, Rat)>) -> Option<
    (Rat, Option<(TermId, Rat)>),
> {
    if factor.terms.len() == 0 {
        match rat_mul(cp, factor.constant) {
            Some(p) => Some((p, vf)),
            None => None,
        }
    } else if factor.terms.len() == 1 && factor.constant.num == 0 {
        if vf is Some {
            None
        } else {
            Some((cp, Some(factor.terms[0])))
        }
    } else {
        None
    }
}

/// What a product with the given factors contributes at scale `sc`.
pub open spec fn finish_product(
    sc: Rat,
    cp: Rat,
    vf: Option<(TermId, Rat)>,
    parent: Lin,
) -> Option<Lin> {
    match rat_mul(sc, cp) {
        None => None,
        Some(scale) => match vf {
            None => add_const(parent, scale),
            Some((v, c)) => match rat_mul(scale, c) {
                None => None,
                Some(x) => Some(push_term(parent, v, x)),
            },
        },
    }
}

/// `acc` with `sc` times the term at `t` folded in, where that is linear.
pub open spec fn lin(s: Seq<TermView>, t: int, sc: Rat, acc: Lin) -> Option<Lin>
    decreases t, 1int, 0int,
{
    if !(0 <= t < s.len()) || !node_below(s, t) {
        None
    } else {
        let node = s[t];
        match node.op {
            Op::IntConst | Op::RealConst | Op::BitVecConst => match literal(node) {
                Some(c) => add_scaled(acc, sc, c),
                None => None,
            },
            Op::Add => lin_sum(s, t, 0, sc, acc),
            Op::Sub => match rat_neg(sc) {
                None => None,
                Some(n) => match lin(s, node.args[0] as int, sc, acc) {
                    None => None,
                    Some(l) => lin(s, node.args[1] as int, n, l),
                },
            },
            Op::Neg => match rat_neg(sc) {
                None => None,
                Some(n) => lin(s, node.args[0] as int, n, acc),
            },
            Op::Mul => lin_product(s, t, 0, rat_one(), None, sc, acc),
            _ => if linear_atom(node) {
                Some(push_term(acc, t as usize, sc))
            } else {
                None
            },
        }
    }
}

/// Folds in the arguments of the sum at `t` from the `k`-th on.
pub open spec fn lin_sum(s: Seq<TermView>, t: int, k: int, sc: Rat, acc: Lin) -> Option<Lin>
    decreases t, 0int, s[t].args.len() - k,
{
    if !(0 <= k < s[t].args.len()) || !node_below(s, t) || t < 0 {
        Some(acc)
    } else {
        match lin(s, s[t].args[k] as int, sc, acc) {
            None => None,
            Some(l) => lin_sum(s, t, k + 1, sc, l),
        }
    }
}

/// Folds in the product at `t`, whose factors before the `k`-th gave the
/// constant factor `cp` and the variable factor `vf`.
pub open spec fn lin_product(
    s: Seq<TermView>,
    t: int,
    k: int,
    cp: Rat,
    vf: Option<(TermId, Rat)>,
    sc: Rat,
    parent: Lin,
) -> Option<Lin>
    decreases t, 0int, s[t].args.len() - k,
{
    if !(0 <= k < s[t].args.len()) || !node_below(s, t) || t < 0 {
        finish_product(sc, cp, vf, parent)
    } else {
        match lin(s, s[t].args[k] as int, rat_one(), lin_empty()) {
            None => None,
            Some(f) => match classify(f, cp, vf) {
                None => None,
                Some((cp2, vf2)) => lin_product(s, t, k + 1, cp2, vf2, sc, parent),
            },
        }
    }
}

/// One accumulation context: the atoms and the constant of the expression that
/// is being walked.
struct Level {
    terms: CoeffVec,
    constant: Rat,
}

/// A product whose factors are being walked one by one.  `next` is the next
/// factor to walk; the one before it, if any, has just been folded into the
/// current level.  The level of the product's context waits in `parent`.
struct MulFrame {
    term: TermId,
    next: usize,
    const_product: Rat,
    var_factor: Option<(TermId, Rat)>,
    scale: Rat,
    parent: Level,
}

enum Work {
    Visit(TermId, Rat),
    Mul(MulFrame),
}

impl View for Level {
    type V = Lin;

    closed spec fn view(&self) -> Lin {
        Lin { terms: coeffs(self.terms), constant: self.constant }
    }
}

/// What is left to do for one entry of the work stack, from the level `cur`.
spec fn item_run(s: Seq<TermView>, item: Work, cur: Lin) -> Option<Lin> {
    match item {
        Work::Visit(t, sc) => lin(s, t as int, sc, cur),
        Work::Mul(f) => {
            let state = if f.next > 0 {
                classify(cur, f.const_product, f.var_factor)
            } else {
                Some((f.const_product, f.var_factor))
            };
            match state {
                None => None,
                Some((cp, vf)) => lin_product(
                    s,
                    f.term as int,
                    f.next as int,
                    cp,
                    vf,
                    f.scale,
                    f.parent@,
                ),
            }
        },
    }
}

/// The level that working off the stack gives.
spec fn run(s: Seq<TermView>, work: Seq<Work>, cur: Lin) -> Option<Lin>
    decreases work.len(),
{
    if work.len() == 0 {
        Some(cur)
    } else {
        match item_run(s, work.last(), cur) {
            None => None,
            Some(l) => run(s, work.drop_last(), l),
        }
    }
}

spec fn lin_ok(l: Lin) -> bool {
    &&& l.constant.wf()
    &&& forall|k: int| 0 <= k < l.terms.len() ==> (#[trigger] l.terms[k]).1.wf()
}

spec fn item_ok(s: Seq<TermView>, item: Work) -> bool {
    match item {
        Work::Visit(_, sc) => sc.wf(),
        Work::Mul(f) => {
            &&& f.term < s.len()
            &&& s[f.term as int].op == Op::Mul
            &&& f.next <= s[f.term as int].args.len()
            &&& f.const_product.wf()
            &&& f.var_factor matches Some(p) ==> p.1.wf()
            &&& f.scale.wf()
            &&& lin_ok(f.parent@)
        },
    }
}

/// The number of steps that a term takes at most.
spec fn steps(s: Seq<TermView>, t: int) -> nat
    decreases t, 1int, 0int,
{
    if !(0 <= t < s.len()) || !node_below(s, t) {
        1
    } else {
        2 + steps_from(s, t, 0)
    }
}

spec fn steps_from(s: Seq<TermView>, t: int, k: int) -> nat
    decreases t, 0int, s[t].args.len() - k,
{
    if !(0 <= k < s[t].args.len()) || !node_below(s, t) || t < 0 {
        0
    } else {
        1 + steps(s, s[t].args[k] as int) + steps_from(s, t, k + 1)
    }
}

spec fn item_steps(s: Seq<TermView>, item: Work) -> nat {
    match item {
        Work::Visit(t, _) => steps(s, t as int),
        Work::Mul(f) => 1 + steps_from(s, f.term as int, f.next as int),
    }
}

spec fn total_steps(s: Seq<TermView>, work: Seq<Work>) -> nat
    decreases work.len(),
{
    if work.len() == 0 {
        0
    } else {
        total_steps(s, work.drop_last()) + item_steps(s, work.last())
    }
}

proof fn lemma_steps(s: Seq<TermView>, t: int)
    requires
        0 <= t < s.len(),
        node_below(s, t),
    ensures
        s[t].args.len() >= 1 ==> steps(s, t) > steps(s, s[t].args[0] as int),
        s[t].args.len() >= 2 ==> steps(s, t) > steps(s, s[t].args[0] as int) + steps(
            s,
            s[t].args[1] as int,
        ),
{
    if s[t].args.len() >= 1 {
        assert(steps_from(s, t, 0) == 1 + steps(s, s[t].args[0] as int) + steps_from(s, t, 1));
    }
    if s[t].args.len() >= 2 {
        assert(steps_from(s, t, 1) == 1 + steps(s, s[t].args[1] as int) + steps_from(s, t, 2));
    }
}

proof fn lemma_push_item(s: Seq<TermView>, work: Seq<Work>, item: Work)
    ensures
        total_steps(s, work.push(item)) == total_steps(s, work) + item_steps(s, item),
        forall|cur: Lin| #[trigger] run(s, work.push(item), cur) == match item_run(s, item, cur) {
            None => None,
            Some(l) => run(s, work, l),
        },
{
    assert(work.push(item).drop_last() =~= work);
    assert(work.push(item).last() == item);
}

/// Pushes the arguments of the sum at `t`, last first.
fn push_addends(store: &TermStore, t: TermId, sc: Rat, work: &mut Vec<Work>)
    requires
        store.wf(),
        t < store.terms().len(),
        store.terms()[t as int].op == Op::Add,
        sc.wf(),
        forall|k: int| 0 <= k < old(work)@.len() ==> item_ok(store.terms(), #[trigger] old(work)@[k]),
    ensures
        forall|k: int|
            0 <= k < final(work)@.len() ==> item_ok(store.terms(), #[trigger] final(work)@[k]),
        total_steps(store.terms(), final(work)@) < total_steps(store.terms(), old(work)@) + steps(
            store.terms(),
            t as int,
        ),
        forall|cur: Lin| #[trigger]
            run(store.terms(), final(work)@, cur) == match lin_sum(
                store.terms(),
                t as int,
                0,
                sc,
                cur,
            ) {
                None => None,
                Some(l) => run(store.terms(), old(work)@, l),
            },
{
    let ghost s = store.terms();
    let ghost rest = work@;
    let args = &store.nodes[t].args;
    assert(args@ == s[t as int].args);
    let mut j: usize = args.len();
    assert(node_below(s, t as int));
    while j > 0
        invariant
            j <= args.len(),
            args@ == s[t as int].args,
            s == store.terms(),
            node_below(s, t as int),
            t < s.len(),
            sc.wf(),
            forall|k: int| 0 <= k < work@.len() ==> item_ok(s, #[trigger] work@[k]),
            total_steps(s, work@) <= total_steps(s, rest) + steps_from(s, t as int, j as int),
            forall|cur: Lin| #[trigger]
                run(s, work@, cur) == match lin_sum(s, t as int, j as int, sc, cur) {
                    None => None,
                    Some(l) => run(s, rest, l),
                },
        decreases j,
    {
        j = j - 1;
        let ghost before = work@;
        work.push(Work::Visit(args[j], sc));
        proof {
            lemma_push_item(s, before, Work::Visit(args@[j as int], sc));
        }
    }
}

impl Level {
    fn new() -> (r: Level)
        ensures
            r@ == lin_empty(),
            lin_ok(r@),
    {
        let r = Level { terms: coeffs_new(), constant: Rat::zero() };
        assert(coeffs(r.terms) =~= Seq::empty());
        r
    }

    fn add_constant(&mut self, c: Rat) -> (ok: bool)
        requires
            lin_ok(old(self)@),
            c.wf(),
        ensures
            ok == (add_const(old(self)@, c) is Some),
            ok ==> final(self)@ == add_const(old(self)@, c)->0 && lin_ok(final(self)@),
    {
        match self.constant.checked_add(c) {
            None => false,
            Some(k) => {
                self.constant = k;
                true
            },
        }
    }

    fn add_scaled_constant(&mut self, sc: Rat, c: Rat) -> (ok: bool)
        requires
            lin_ok(old(self)@),
            sc.wf(),
            c.wf(),
        ensures
            ok == (add_scaled(old(self)@, sc, c) is Some),
            ok ==> final(self)@ == add_scaled(old(self)@, sc, c)->0 && lin_ok(final(self)@),
    {
        match sc.checked_mul(c) {
            None => false,
            Some(p) => self.add_constant(p),
        }
    }

    fn push(&mut self, x: TermId, c: Rat)
        requires
            lin_ok(old(self)@),
            c.wf(),
        ensures
            final(self)@ == push_term(old(self)@, x, c),
            lin_ok(final(self)@),
    {
        let ghost before = self@.terms;
        coeffs_push(&mut self.terms, (x, c));
        proof {
            let after = self@.terms;
            assert forall|k: int| 0 <= k < after.len() implies (#[trigger] after[k]).1.wf() by {
                if k < before.len() {
                    assert(before[k].1.wf());
                }
            }
        }
    }
}

/// The value of a literal node, where it fits in 64 bits.
fn literal_value(store: &TermStore, t: TermId) -> (r: Option<Rat>)
    requires
        store.wf(),
        t < store.terms().len(),
        store.terms()[t as int].op == Op::RealConst ==> store.terms()[t as int].data is Real,
    ensures
        r == literal(store.terms()[t as int]),
        store.terms()[t as int].op == Op::IntConst || store.terms()[t as int].op == Op::RealConst
            || store.terms()[t as int].op == Op::BitVecConst ==> (r matches Some(v) ==> v.wf()),
{
    assert(node_below(store.terms(), t as int));
    match &store.nodes[t].data {
        Data::Int(n) => match n.to_i64() {
            Some(v) => Some(Rat::from_integer(v)),
            None => None,
        },
        Data::Bits(n, _) => match n.to_i64() {
            Some(v) => Some(Rat::from_integer(v)),
            None => None,
        },
        Data::Real(r) => Some(*r),
        _ => None,
    }
}

fn is_linear_atom(op: Op, sort: usize) -> (b: bool)
    ensures
        forall|node: TermView| node.op == op && node.sort == sort ==> b == #[trigger] linear_atom(
            node,
        ),
{
    match op {
        Op::Var => true,
        Op::Apply | Op::Select | Op::DtSelector | Op::Ite => is_numeric_sort(sort),
        Op::Div | Op::Mod => sort == INT_SORT,
        _ => false,
    }
}

/// Folds `scale` times a term into a list of atoms and a constant.
///
/// Gives nothing, and leaves the list and the constant alone, where the term is
/// not linear.  The walk keeps its own stack, so its depth is not that of the
/// term.
#[verifier::rlimit(40)]
pub fn extract_linear_terms(
    store: &TermStore,
    term: TermId,
    scale: Rat,
    terms: &mut CoeffVec,
    constant: &mut Rat,
) -> (r: Option<()>)
    requires
        store.wf(),
        scale.wf(),
        old(constant).wf(),
    ensures
        ({
            let l = lin(store.terms(), term as int, scale, lin_empty());
            match r {
                Some(_) => {
                    &&& l is Some
                    &&& rat_add(*old(constant), l->0.constant) == Some(*final(constant))
                    &&& final(constant).wf()
                    &&& coeffs(*final(terms)) == coeffs(*old(terms)) + l->0.terms
                    &&& forall|k: int|
                        0 <= k < l->0.terms.len() ==> (#[trigger] l->0.terms[k]).1.wf()
                },
                None => {
                    &&& l is None || rat_add(*old(constant), l->0.constant) is None
                    &&& coeffs(*final(terms)) == coeffs(*old(terms))
                    &&& *final(constant) == *old(constant)
                },
            }
        }),
{
    let ghost s = store.terms();
    let ghost target = lin(s, term as int, scale, lin_empty());
    let mut cur = Level::new();
    let mut work: Vec<Work> = Vec::new();
    proof {
        lemma_push_item(s, work@, Work::Visit(term, scale));
    }
    work.push(Work::Visit(term, scale));
    loop
        invariant
            store.wf(),
            s == store.terms(),
            target == lin(s, term as int, scale, lin_empty()),
            run(s, work@, cur@) == target,
            lin_ok(cur@),
            forall|k: int| 0 <= k < work@.len() ==> item_ok(s, #[trigger] work@[k]),
            coeffs(*terms) == coeffs(*old(terms)),
            *constant == *old(constant),
            constant.wf(),
        ensures
            target == Some(cur@),
        decreases total_steps(s, work@),
    {
        let ghost before = work@;
        let ghost level = cur@;
        let item = match work.pop() {
            None => {
                break;
            },
            Some(item) => item,
        };
        proof {
            assert(before.last() == item);
            assert(before.drop_last() =~= work@);
            assert(item_ok(s, before[before.len() - 1]));
            assert(total_steps(s, before) == total_steps(s, work@) + item_steps(s, item));
            assert forall|k: int| 0 <= k < work@.len() implies item_ok(s, #[trigger] work@[k]) by {
                assert(item_ok(s, before[k]));
            }
        }
        match item {
            Work::Visit(id, sc) => {
                let node = match store.get(id) {
                    None => {
                        return None;
                    },
                    Some(node) => node,
                };
                assert(node_below(s, id as int));
                match node.op {
                    Op::IntConst | Op::RealConst | Op::BitVecConst => {
                        let c = match literal_value(store, id) {
                            None => {
                                return None;
                            },
                            Some(c) => c,
                        };
                        if !cur.add_scaled_constant(sc, c) {
                            return None;
                        }
                    },
                    Op::Add => {
                        push_addends(store, id, sc, &mut work);
                    },
                    Op::Sub => {
                        let n = match sc.checked_neg() {
                            None => {
                                return None;
                            },
                            Some(n) => n,
                        };
                        let ghost rest = work@;
                        work.push(Work::Visit(node.args[1], n));
                        let ghost mid = work@;
                        work.push(Work::Visit(node.args[0], sc));
                        proof {
                            lemma_push_item(s, rest, Work::Visit(node.args@[1], n));
                            lemma_push_item(s, mid, Work::Visit(node.args@[0], sc));
                            lemma_steps(s, id as int);
                        }
                    },
                    Op::Neg => {
                        let n = match sc.checked_neg() {
                            None => {
                                return None;
                            },
                            Some(n) => n,
                        };
                        let ghost rest = work@;
                        work.push(Work::Visit(node.args[0], n));
                        proof {
                            lemma_push_item(s, rest, Work::Visit(node.args@[0], n));
                            lemma_steps(s, id as int);
                        }
                    },
                    Op::Mul => {
                        let ghost rest = work@;
                        let frame = MulFrame {
                            term: id,
                            next: 0,
                            const_product: Rat::one(),
                            var_factor: None,
                            scale: sc,
                            parent: cur,
                        };
                        cur = Level::new();
                        proof {
                            lemma_push_item(s, rest, Work::Mul(frame));
                        }
                        work.push(Work::Mul(frame));
                    },
                    _ => {
                        if !is_linear_atom(node.op, node.sort) {
                            return None;
                        }
                        cur.push(id, sc);
                    },
                }
            },
            Work::Mul(frame) => {
                let MulFrame { term: product, next, const_product, var_factor, scale: sc, parent } =
                    frame;
                let mut cp: Rat = const_product;
                let mut vf: Option<(TermId, Rat)> = var_factor;
                if next > 0 {
                    let n: usize = coeffs_len(&cur.terms);
                    if n == 0 {
                        cp = match const_product.checked_mul(cur.constant) {
                            None => {
                                return None;
                            },
                            Some(p) => p,
                        };
                    } else if n == 1 && cur.constant.is_zero() {
                        if var_factor.is_some() {
                            return None;
                        }
                        assert(cur@.terms[0].1.wf());
                        vf = Some(coeffs_get(&cur.terms, 0));
                    } else {
                        return None;
                    }
                }
                assert(node_below(s, product as int));
                let args = &store.nodes[product].args;
                assert(args@ == s[product as int].args);
                if next < args.len() {
                    let ghost rest = work@;
                    let again = MulFrame {
                        term: product,
                        next: next + 1,
                        const_product: cp,
                        var_factor: vf,
                        scale: sc,
                        parent,
                    };
                    proof {
                        lemma_push_item(s, rest, Work::Mul(again));
                        lemma_push_item(
                            s,
                            rest.push(Work::Mul(again)),
                            Work::Visit(args@[next as int], rat_one()),
                        );
                    }
                    work.push(Work::Mul(again));
                    work.push(Work::Visit(args[next], Rat::one()));
                    cur = Level::new();
                } else {
                    let product_scale = match sc.checked_mul(cp) {
                        None => {
                            return None;
                        },
                        Some(p) => p,
                    };
                    cur = parent;
                    match vf {
                        Some((v, c)) => {
                            let x = match product_scale.checked_mul(c) {
                                None => {
                                    return None;
                                },
                                Some(x) => x,
                            };
                            cur.push(v, x);
                        },
                        None => {
                            if !cur.add_constant(product_scale) {
                                return None;
                            }
                        },
                    }
                }
            },
        }
    }
    let total = match constant.checked_add(cur.constant) {
        None => {
            return None;
        },
        Some(total) => total,
    };
    let n: usize = coeffs_len(&cur.terms);
    let mut k: usize = 0;
    while k < n
        invariant
            k <= n,
            n == cur@.terms.len(),
            coeffs(*terms) == coeffs(*old(terms)) + cur@.terms.take(k as int),
        decreases n - k,
    {
        proof {
            assert(cur@.terms.take(k + 1) =~= cur@.terms.take(k as int).push(cur@.terms[k as int]));
        }
        coeffs_push(terms, coeffs_get(&cur.terms, k));
        k = k + 1;
    }
    assert(cur@.terms.take(n as int) =~= cur@.terms);
    *constant = total;
    Some(())
}

/// The value of a list of atoms with coefficients.
pub open spec fn terms_value(s: Seq<TermView>, i: Interp, terms: Seq<(TermId, Rat)>) -> real
    decreases terms.len(),
{
    if terms.len() == 0 {
        0real
    } else {
        terms_value(s, i, terms.drop_last()) + terms.last().1.value() * num(
            eval(s, i, terms.last().0 as int),
        )
    }
}

/// The value of a linear form.
pub open spec fn lin_value(s: Seq<TermView>, i: Interp, l: Lin) -> real {
    terms_value(s, i, l.terms) + l.constant.value()
}

/// Every denominator is positive.
pub open spec fn lin_pos(l: Lin) -> bool {
    &&& l.constant.den > 0
    &&& forall|k: int| 0 <= k < l.terms.len() ==> (#[trigger] l.terms[k]).1.den > 0
}

proof fn lemma_push_value(s: Seq<TermView>, i: Interp, acc: Lin, x: TermId, c: Rat)
    requires
        lin_pos(acc),
        c.den > 0,
    ensures
        lin_pos(push_term(acc, x, c)),
        lin_value(s, i, push_term(acc, x, c)) == lin_value(s, i, acc) + c.value() * num(
            eval(s, i, x as int),
        ),
{
    let r = push_term(acc, x, c);
    assert(r.terms.drop_last() =~= acc.terms);
    assert forall|k: int| 0 <= k < r.terms.len() implies (#[trigger] r.terms[k]).1.den > 0 by {
        if k < acc.terms.len() {
            assert(acc.terms[k].1.den > 0);
        }
    }
}

proof fn lemma_literal(s: Seq<TermView>, i: Interp, t: TermId)
    requires
        terms_wf(s),
        t < s.len(),
        s[t as int].op == Op::IntConst || s[t as int].op == Op::RealConst || s[t as int].op
            == Op::BitVecConst,
        literal(s[t as int]) is Some,
    ensures
        literal(s[t as int])->0.den > 0,
        literal(s[t as int])->0.value() == num(eval(s, i, t as int)),
{
    assert(node_below(s, t as int));
    lemma_eval(s, i, t);
    let c = literal(s[t as int])->0;
    let x = c.num as real;
    assert(x / 1real == x) by (nonlinear_arith);
}

/// A linear form has the value of the term it was read from.
pub proof fn lemma_lin(s: Seq<TermView>, i: Interp, t: TermId, sc: Rat, acc: Lin)
    requires
        terms_wf(s),
        sc.den > 0,
        lin_pos(acc),
        lin(s, t as int, sc, acc) is Some,
    ensures
        lin_pos(lin(s, t as int, sc, acc)->0),
        lin_value(s, i, lin(s, t as int, sc, acc)->0) == lin_value(s, i, acc) + sc.value() * num(
            eval(s, i, t as int),
        ),
    decreases t, 1int, 0int,
{
    let node = s[t as int];
    let r = lin(s, t as int, sc, acc)->0;
    let v = num(eval(s, i, t as int));
    let f = sc.value();
    match node.op {
        Op::IntConst | Op::RealConst | Op::BitVecConst => {
            lemma_literal(s, i, t);
            lemma_rat_mul(sc, literal(node)->0);
            lemma_rat_add(acc.constant, rat_mul(sc, literal(node)->0)->0);
        },
        Op::Add => {
            lemma_eval(s, i, t);
            let vals = eval_args(s, i, node.args);
            assert(vals.take(0) =~= Seq::<Value>::empty());
            assert(f * 0real == 0real) by (nonlinear_arith);
            lemma_lin_sum(s, i, t, 0, sc, acc, acc);
        },
        Op::Sub => {
            lemma_eval(s, i, t);
            let vals = eval_args(s, i, node.args);
            let n = rat_neg(sc)->0;
            let l = lin(s, node.args[0] as int, sc, acc)->0;
            lemma_rat_neg(sc);
            lemma_lin(s, i, node.args[0], sc, acc);
            lemma_lin(s, i, node.args[1], n, l);
            let (a, b) = (num(vals[0]), num(vals[1]));
            assert(f * a + (-f) * b == f * (a - b)) by (nonlinear_arith);
        },
        Op::Neg => {
            lemma_eval(s, i, t);
            let vals = eval_args(s, i, node.args);
            let n = rat_neg(sc)->0;
            lemma_rat_neg(sc);
            lemma_lin(s, i, node.args[0], n, acc);
            let a = num(vals[0]);
            assert((-f) * a == f * (-a)) by (nonlinear_arith);
        },
        Op::Mul => {
            lemma_eval(s, i, t);
            let vals = eval_args(s, i, node.args);
            assert(vals.take(0) =~= Seq::<Value>::empty());
            let one = 1int as real;
            assert(one / one == 1real) by (nonlinear_arith)
                requires
                    one == 1real,
            ;
            lemma_lin_product(s, i, t, 0, rat_one(), None, sc, acc);
        },
        _ => {
            lemma_push_value(s, i, acc, t, sc);
        },
    }
}

proof fn lemma_lin_sum(
    s: Seq<TermView>,
    i: Interp,
    t: TermId,
    k: int,
    sc: Rat,
    start: Lin,
    acc: Lin,
)
    requires
        terms_wf(s),
        t < s.len(),
        s[t as int].op == Op::Add,
        sc.den > 0,
        lin_pos(acc),
        0 <= k <= s[t as int].args.len(),
        lin_value(s, i, acc) == lin_value(s, i, start) + sc.value() * sum_of(
            eval_args(s, i, s[t as int].args).take(k),
        ),
        lin_sum(s, t as int, k, sc, acc) is Some,
    ensures
        lin_pos(lin_sum(s, t as int, k, sc, acc)->0),
        lin_value(s, i, lin_sum(s, t as int, k, sc, acc)->0) == lin_value(s, i, start) + sc.value()
            * sum_of(eval_args(s, i, s[t as int].args)),
    decreases t, 0int, s[t as int].args.len() - k,
{
    let args = s[t as int].args;
    let vals = eval_args(s, i, args);
    assert(node_below(s, t as int));
    if k < args.len() {
        let l = lin(s, args[k] as int, sc, acc)->0;
        lemma_lin(s, i, args[k], sc, acc);
        assert(vals.take(k + 1).drop_last() =~= vals.take(k));
        assert(vals.take(k + 1).last() == vals[k]);
        let (f, a, b) = (sc.value(), sum_of(vals.take(k)), num(vals[k]));
        assert(f * a + f * b == f * (a + b)) by (nonlinear_arith);
        lemma_lin_sum(s, i, t, k + 1, sc, start, l);
    } else {
        assert(vals.take(k) =~= vals);
    }
}

/// The value of the factors that have been read.
spec fn factors_value(s: Seq<TermView>, i: Interp, cp: Rat, vf: Option<(TermId, Rat)>) -> real {
    match vf {
        None => cp.value(),
        Some((v, c)) => cp.value() * (c.value() * num(eval(s, i, v as int))),
    }
}

proof fn lemma_lin_product(
    s: Seq<TermView>,
    i: Interp,
    t: TermId,
    k: int,
    cp: Rat,
    vf: Option<(TermId, Rat)>,
    sc: Rat,
    parent: Lin,
)
    requires
        terms_wf(s),
        t < s.len(),
        s[t as int].op == Op::Mul,
        sc.den > 0,
        cp.den > 0,
        vf matches Some(p) ==> p.1.den > 0,
        lin_pos(parent),
        0 <= k <= s[t as int].args.len(),
        factors_value(s, i, cp, vf) == product_of(eval_args(s, i, s[t as int].args).take(k)),
        lin_product(s, t as int, k, cp, vf, sc, parent) is Some,
    ensures
        lin_pos(lin_product(s, t as int, k, cp, vf, sc, parent)->0),
        lin_value(s, i, lin_product(s, t as int, k, cp, vf, sc, parent)->0) == lin_value(
            s,
            i,
            parent,
        ) + sc.value() * product_of(eval_args(s, i, s[t as int].args)),
    decreases t, 0int, s[t as int].args.len() - k,
{
    let args = s[t as int].args;
    let vals = eval_args(s, i, args);
    assert(node_below(s, t as int));
    if k < args.len() {
        let f = lin(s, args[k] as int, rat_one(), lin_empty())->0;
        let one = 1int as real;
        let zero = 0int as real;
        assert(one / one == 1real && zero / one == 0real) by (nonlinear_arith)
            requires
                one == 1real,
                zero == 0real,
        ;
        lemma_lin(s, i, args[k], rat_one(), lin_empty());
        let x = num(vals[k]);
        assert(lin_value(s, i, f) == x) by {
            assert(1real * x == x) by (nonlinear_arith);
        }
        let (cp2, vf2) = classify(f, cp, vf)->0;
        assert(vals.take(k + 1).drop_last() =~= vals.take(k));
        assert(vals.take(k + 1).last() == vals[k]);
        if f.terms.len() == 0 {
            lemma_rat_mul(cp, f.constant);
            match vf {
                None => {},
                Some((v, c)) => {
                    let (a, b) = (cp.value(), c.value() * num(eval(s, i, v as int)));
                    assert((a * x) * b == (a * b) * x) by (nonlinear_arith);
                },
            }
        } else {
            assert(f.terms[0].1.den > 0);
            assert(f.terms.drop_last() =~= Seq::<(TermId, Rat)>::empty());
            assert(f.terms.last() == f.terms[0]);
            let d = f.constant.den as real;
            assert(zero / d == 0real) by (nonlinear_arith)
                requires
                    zero == 0real,
                    d > 0real,
            ;
        }
        lemma_lin_product(s, i, t, k + 1, cp2, vf2, sc, parent);
    } else {
        assert(vals.take(k) =~= vals);
        lemma_rat_mul(sc, cp);
        let scale = rat_mul(sc, cp)->0;
        match vf {
            None => {
                lemma_rat_add(parent.constant, scale);
            },
            Some((v, c)) => {
                lemma_rat_mul(scale, c);
                lemma_push_value(s, i, parent, v, rat_mul(scale, c)->0);
                let (a, b, d, e) = (sc.value(), cp.value(), c.value(), num(eval(s, i, v as int)));
                assert(((a * b) * d) * e == a * (b * (d * e))) by (nonlinear_arith);
            },
        }
    }
}

/// The relation that a comparison states between a sum and a constant.
#[derive(Clone, Copy, PartialEq, Eq, Debug, Structural)]
pub enum ArithConstraintType {
    Lt,
    Le,
    Gt,
    Ge,
}

/// A comparison as a sum of atoms, with the constant on the other side.
pub struct ParsedArithConstraint {
    pub terms: CoeffVec,
    pub constant: Rat,
    pub constraint_type: ArithConstraintType,
    pub reason_term: TermId,
}

/// Mathematical content of a [`ParsedArithConstraint`].
pub struct ParsedView {
    pub terms: Seq<(TermId, Rat)>,
    pub constant: Rat,
    pub constraint_type: ArithConstraintType,
    pub reason_term: TermId,
}

impl View for ParsedArithConstraint {
    type V = ParsedView;

    open spec fn view(&self) -> ParsedView {
        ParsedView {
            terms: coeffs(self.terms),
            constant: self.constant,
            constraint_type: self.constraint_type,
            reason_term: self.reason_term,
        }
    }
}

impl ParsedArithConstraint {
    pub fn duplicate(&self) -> (r: ParsedArithConstraint)
        ensures
            r@ == self@,
    {
        let mut terms = coeffs_new();
        let n: usize = coeffs_len(&self.terms);
        let mut k: usize = 0;
        while k < n
            invariant
                k <= n,
                n == coeffs(self.terms).len(),
                coeffs(terms) =~= coeffs(self.terms).take(k as int),
            decreases n - k,
        {
            coeffs_push(&mut terms, coeffs_get(&self.terms, k));
            k = k + 1;
        }
        assert(coeffs(self.terms).take(n as int) =~= coeffs(self.terms));
        ParsedArithConstraint {
            terms,
            constant: self.constant,
            constraint_type: self.constraint_type,
            reason_term: self.reason_term,
        }
    }
}

/// The coefficient of each atom when the coefficients of its occurrences are
/// added up in order, where no sum overflows.
pub open spec fn combine(terms: Seq<(TermId, Rat)>) -> Option<Map<TermId, Rat>>
    decreases terms.len(),
{
    if terms.len() == 0 {
        Some(Map::empty())
    } else {
        match combine(terms.drop_last()) {
            None => None,
            Some(m) => {
                let (x, c) = terms.last();
                let had = if m.contains_key(x) {
                    m[x]
                } else {
                    rat_zero()
                };
                match rat_add(had, c) {
                    None => None,
                    Some(r) => Some(m.insert(x, r)),
                }
            },
        }
    }
}

/// `list` gives the nonzero entries of `m` in ascending order of the atoms.
pub open spec fn nonzero_listing(list: Seq<(TermId, Rat)>, m: Map<TermId, Rat>) -> bool {
    &&& forall|j: int, k: int| 0 <= j < k < list.len() ==> list[j].0 < list[k].0
    &&& forall|k: int|
        0 <= k < list.len() ==> m.contains_key((#[trigger] list[k]).0) && m[list[k].0] == list[k].1
            && list[k].1.num != 0
    &&& forall|x: TermId| #[trigger]
        m.contains_key(x) && m[x].num != 0 ==> list.contains((x, m[x]))
}

/// The atoms with their coefficients, and the constant, of `lhs - rhs`.
pub open spec fn difference(s: Seq<TermView>, lhs: TermId, rhs: TermId) -> Option<
    (Map<TermId, Rat>, Rat),
> {
    match lin(s, lhs as int, rat_one(), lin_empty()) {
        None => None,
        Some(a) => match rat_add(rat_zero(), a.constant) {
            None => None,
            Some(ca) => match lin(s, rhs as int, rat_minus_one(), lin_empty()) {
                None => None,
                Some(b) => match rat_add(ca, b.constant) {
                    None => None,
                    Some(c) => match combine(a.terms + b.terms) {
                        None => None,
                        Some(m) => Some((m, c)),
                    },
                },
            },
        },
    }
}

/// What a comparison of `lhs` with `rhs` is read as: the difference with its
/// constant moved to the other side, where that is linear.
pub open spec fn parses_as(
    s: Seq<TermView>,
    lhs: TermId,
    rhs: TermId,
    parsed: Option<ParsedView>,
) -> bool {
    match difference(s, lhs, rhs) {
        None => parsed is None,
        Some((m, c)) => match rat_neg(c) {
            None => parsed is None,
            Some(k) => parsed matches Some(p) && p.constant == k && nonzero_listing(p.terms, m),
        },
    }
}

/// The real coefficient of `x`, occurrences added up.
spec fn coefficient(terms: Seq<(TermId, Rat)>, x: TermId) -> real
    decreases terms.len(),
{
    if terms.len() == 0 {
        0real
    } else {
        coefficient(terms.drop_last(), x) + if terms.last().0 == x {
            terms.last().1.value()
        } else {
            0real
        }
    }
}

/// The sum over `keys` of coefficient times value.
spec fn keyed_value(
    s: Seq<TermView>,
    i: Interp,
    terms: Seq<(TermId, Rat)>,
    keys: Seq<TermId>,
) -> real
    decreases keys.len(),
{
    if keys.len() == 0 {
        0real
    } else {
        keyed_value(s, i, terms, keys.drop_last()) + coefficient(terms, keys.last()) * num(
            eval(s, i, keys.last() as int),
        )
    }
}

proof fn lemma_keyed_push(
    s: Seq<TermView>,
    i: Interp,
    terms: Seq<(TermId, Rat)>,
    x: TermId,
    c: Rat,
    keys: Seq<TermId>,
)
    requires
        keys.no_duplicates(),
    ensures
        keyed_value(s, i, terms.push((x, c)), keys) == keyed_value(s, i, terms, keys) + if keys.contains(x) {
            c.value() * num(eval(s, i, x as int))
        } else {
            0real
        },
    decreases keys.len(),
{
    let more = terms.push((x, c));
    assert(more.drop_last() =~= terms);
    if keys.len() > 0 {
        let pre = keys.drop_last();
        let y = keys.last();
        lemma_keyed_push(s, i, terms, x, c, pre);
        let (a, b, v) = (coefficient(terms, y), c.value(), num(eval(s, i, y as int)));
        assert((a + b) * v == a * v + b * v) by (nonlinear_arith);
        assert(keys[keys.len() - 1] == y);
        if y == x {
            assert(!pre.contains(x)) by {
                if pre.contains(x) {
                    let j = choose|j: int| 0 <= j < pre.len() && pre[j] == x;
                    assert(keys[j] == x);
                }
            }
        } else {
            assert(keys.contains(x) <==> pre.contains(x)) by {
                if keys.contains(x) {
                    let j = choose|j: int| 0 <= j < keys.len() && keys[j] == x;
                    assert(pre[j] == x);
                }
                if pre.contains(x) {
                    let j = choose|j: int| 0 <= j < pre.len() && pre[j] == x;
                    assert(keys[j] == x);
                }
            }
        }
    }
}

/// Grouping occurrences does not change the value.
proof fn lemma_keyed(s: Seq<TermView>, i: Interp, terms: Seq<(TermId, Rat)>, keys: Seq<TermId>)
    requires
        keys.no_duplicates(),
        forall|k: int| 0 <= k < terms.len() ==> keys.contains((#[trigger] terms[k]).0),
    ensures
        keyed_value(s, i, terms, keys) == terms_value(s, i, terms),
    decreases terms.len(),
{
    if terms.len() == 0 {
        lemma_keyed_empty(s, i, terms, keys);
    } else {
        let pre = terms.drop_last();
        let (x, c) = terms.last();
        assert forall|k: int| 0 <= k < pre.len() implies keys.contains((#[trigger] pre[k]).0) by {
            assert(pre[k] == terms[k]);
        }
        lemma_keyed(s, i, pre, keys);
        lemma_keyed_push(s, i, pre, x, c, keys);
        assert(pre.push((x, c)) =~= terms);
        assert(keys.contains(terms[terms.len() - 1].0));
    }
}

proof fn lemma_keyed_empty(s: Seq<TermView>, i: Interp, terms: Seq<(TermId, Rat)>, keys: Seq<TermId>)
    requires
        terms.len() == 0,
    ensures
        keyed_value(s, i, terms, keys) == 0real,
    decreases keys.len(),
{
    if keys.len() > 0 {
        lemma_keyed_empty(s, i, terms, keys.drop_last());
        let v = num(eval(s, i, keys.last() as int));
        assert(0real * v == 0real) by (nonlinear_arith);
    }
}

proof fn lemma_combine(terms: Seq<(TermId, Rat)>)
    requires
        combine(terms) is Some,
        forall|k: int| 0 <= k < terms.len() ==> (#[trigger] terms[k]).1.den > 0,
    ensures
        forall|k: int|
            0 <= k < terms.len() ==> combine(terms)->0.contains_key((#[trigger] terms[k]).0),
        forall|x: TermId| #[trigger]
            combine(terms)->0.contains_key(x) ==> combine(terms)->0[x].den > 0
                && combine(terms)->0[x].value() == coefficient(terms, x),
        forall|x: TermId|
            !combine(terms)->0.contains_key(x) ==> #[trigger] coefficient(terms, x) == 0real,
    decreases terms.len(),
{
    if terms.len() > 0 {
        let pre = terms.drop_last();
        let (x, c) = terms.last();
        assert forall|k: int| 0 <= k < pre.len() implies (#[trigger] pre[k]).1.den > 0 by {
            assert(pre[k] == terms[k]);
        }
        lemma_combine(pre);
        let m = combine(pre)->0;
        let had = if m.contains_key(x) {
            m[x]
        } else {
            rat_zero()
        };
        assert(terms[terms.len() - 1].1.den > 0);
        let zero = 0int as real;
        let one = 1int as real;
        assert(zero / one == 0real) by (nonlinear_arith)
            requires
                zero == 0real,
                one == 1real,
        ;
        assert(had.value() == coefficient(pre, x));
        lemma_rat_add(had, c);
        assert forall|y: TermId| !combine(terms)->0.contains_key(y) implies #[trigger] coefficient(
            terms,
            y,
        ) == 0real by {
            assert(!m.contains_key(y));
            assert(coefficient(pre, y) == 0real);
        }
        assert forall|k: int| 0 <= k < terms.len() implies combine(terms)->0.contains_key(
            (#[trigger] terms[k]).0,
        ) by {
            if k < pre.len() {
                assert(pre[k] == terms[k]);
            }
        }
    }
}

/// Adds up the coefficients of each atom.
fn combine_terms(terms: &CoeffVec) -> (r: Option<FxHashMap<TermId, Rat>>)
    requires
        forall|k: int| 0 <= k < coeffs(*terms).len() ==> (#[trigger] coeffs(*terms)[k]).1.wf(),
    ensures
        match r {
            Some(m) => combine(coeffs(*terms)) == Some(m@) && forall|x: TermId| #[trigger]
                m@.contains_key(x) ==> m@[x].wf(),
            None => combine(coeffs(*terms)) is None,
        },
{
    let ghost ts = coeffs(*terms);
    let n: usize = coeffs_len(terms);
    let mut m: FxHashMap<TermId, Rat> = map_new();
    let mut k: usize = 0;
    proof {
        assert(ts.take(0) =~= Seq::empty());
        assert(m@ =~= Map::empty());
    }
    while k < n
        invariant
            k <= n,
            n == ts.len(),
            ts == coeffs(*terms),
            combine(ts.take(k as int)) == Some(m@),
            forall|j: int| 0 <= j < ts.len() ==> (#[trigger] ts[j]).1.wf(),
            forall|x: TermId| #[trigger] m@.contains_key(x) ==> m@[x].wf(),
        decreases n - k,
    {
        let (x, c) = coeffs_get(terms, k);
        proof {
            assert(ts.take(k + 1).drop_last() =~= ts.take(k as int));
            assert(ts.take(k + 1).last() == ts[k as int]);
            if combine(ts) is Some {
                lemma_combine_prefix(ts, k + 1);
            }
        }
        let had = match map_get(&m, x) {
            Some(r) => *r,
            None => Rat::zero(),
        };
        match had.checked_add(c) {
            None => {
                return None;
            },
            Some(r) => {
                map_insert(&mut m, x, r);
            },
        }
        k = k + 1;
    }
    assert(ts.take(n as int) =~= ts);
    Some(m)
}

proof fn lemma_combine_prefix(terms: Seq<(TermId, Rat)>, k: int)
    requires
        0 <= k <= terms.len(),
        combine(terms) is Some,
    ensures
        combine(terms.take(k)) is Some,
    decreases terms.len() - k,
{
    if k < terms.len() {
        lemma_combine_prefix(terms, k + 1);
        assert(terms.take(k + 1).drop_last() =~= terms.take(k));
    } else {
        assert(terms.take(k) =~= terms);
    }
}

/// Lists the nonzero entries of the combined coefficients `m` of `all`.
fn list_nonzero(m: &FxHashMap<TermId, Rat>, Ghost(all): Ghost<Seq<(TermId, Rat)>>) -> (r: CoeffVec)
    requires
        forall|x: TermId| #[trigger] m@.contains_key(x) ==> m@[x].wf(),
        combine(all) == Some(m@),
        forall|k: int| 0 <= k < all.len() ==> (#[trigger] all[k]).1.wf(),
    ensures
        nonzero_listing(coeffs(r), m@),
        forall|s: Seq<TermView>, i: Interp| #[trigger]
            terms_value(s, i, coeffs(r)) == terms_value(s, i, all),
{
    let keys = map_sorted_keys(m);
    let mut out = coeffs_new();
    let mut k: usize = 0;
    proof {
        lemma_combine(all);
        assert forall|x: TermId| m@.contains_key(x) implies keys@.contains(x) by {
            assert(keys@.to_set().contains(x));
        }
        assert forall|j: int| 0 <= j < keys@.len() implies m@.contains_key(#[trigger] keys@[j]) by {
            assert(keys@.to_set().contains(keys@[j]));
        }
        assert(keys@.no_duplicates());
        assert(keys@.take(0) =~= Seq::empty());
    }
    while k < keys.len()
        invariant
            k <= keys.len(),
            ascending(keys@),
            forall|j: int| 0 <= j < keys@.len() ==> m@.contains_key(#[trigger] keys@[j]),
            forall|x: TermId| #[trigger]
                m@.contains_key(x) ==> m@[x].den > 0 && m@[x].wf() && m@[x].value() == coefficient(
                    all,
                    x,
                ),
            forall|j: int, l: int|
                0 <= j < l < coeffs(out).len() ==> coeffs(out)[j].0 < coeffs(out)[l].0,
            forall|j: int|
                0 <= j < coeffs(out).len() ==> m@.contains_key((#[trigger] coeffs(out)[j]).0)
                    && m@[coeffs(out)[j].0] == coeffs(out)[j].1 && coeffs(out)[j].1.num != 0 && (k
                    < keys.len() ==> coeffs(out)[j].0 < keys@[k as int]),
            forall|j: int|
                0 <= j < k && m@[#[trigger] keys@[j]].num != 0 ==> coeffs(out).contains(
                    (keys@[j], m@[keys@[j]]),
                ),
            forall|s: Seq<TermView>, i: Interp| #[trigger]
                terms_value(s, i, coeffs(out)) == keyed_value(s, i, all, keys@.take(k as int)),
        decreases keys.len() - k,
    {
        let ghost before = coeffs(out);
        let x: TermId = keys[k];
        let c = match map_get(m, x) {
            Some(c) => *c,
            None => Rat::zero(),
        };
        proof {
            assert(keys@.take(k + 1).drop_last() =~= keys@.take(k as int));
            assert(keys@.take(k + 1).last() == x);
            assert(m@.contains_key(x));
        }
        if !c.is_zero() {
            coeffs_push(&mut out, (x, c));
            proof {
                let after = coeffs(out);
                assert(after.drop_last() =~= before);
                assert forall|y: (TermId, Rat)| before.contains(y) implies after.contains(y) by {
                    let j = choose|j: int| 0 <= j < before.len() && before[j] == y;
                    assert(after[j] == y);
                }
                assert(after[before.len() as int] == (x, c));
                assert forall|j: int, l: int| 0 <= j < l < after.len() implies after[j].0
                    < after[l].0 by {
                    if l < before.len() {
                        assert(before[j].0 < before[l].0);
                    } else {
                        assert(before[j].0 < x);
                    }
                }
                assert forall|s: Seq<TermView>, i: Interp| #[trigger]
                    terms_value(s, i, after) == keyed_value(s, i, all, keys@.take(k + 1)) by {
                    assert(terms_value(s, i, before) == keyed_value(
                        s,
                        i,
                        all,
                        keys@.take(k as int),
                    ));
                }
                assert forall|j: int| 0 <= j < after.len() && k + 1 < keys.len() implies (
                #[trigger] after[j]).0 < keys@[k + 1] by {
                    if j < before.len() {
                        assert(before[j].0 < x);
                    }
                }
            }
        } else {
            proof {
                assert forall|s: Seq<TermView>, i: Interp| #[trigger]
                    terms_value(s, i, coeffs(out)) == keyed_value(s, i, all, keys@.take(k + 1)) by {
                    let v = num(eval(s, i, x as int));
                    assert(0real * v == 0real) by (nonlinear_arith);
                }
                assert forall|j: int| 0 <= j < before.len() && k + 1 < keys.len() implies (
                #[trigger] before[j]).0 < keys@[k + 1] by {
                    assert(before[j].0 < x);
                }
            }
        }
        k = k + 1;
    }
    proof {
        assert(keys@.take(keys@.len() as int) =~= keys@);
        assert forall|x: TermId| #[trigger] m@.contains_key(x) && m@[x].num != 0 implies coeffs(
            out,
        ).contains((x, m@[x])) by {
            assert(keys@.contains(x));
        }
        assert forall|s: Seq<TermView>, i: Interp| #[trigger]
            terms_value(s, i, coeffs(out)) == terms_value(s, i, all) by {
            lemma_keyed(s, i, all, keys@);
        }
    }
    out
}

proof fn lemma_terms_value_append(
    s: Seq<TermView>,
    i: Interp,
    a: Seq<(TermId, Rat)>,
    b: Seq<(TermId, Rat)>,
)
    ensures
        terms_value(s, i, a + b) == terms_value(s, i, a) + terms_value(s, i, b),
    decreases b.len(),
{
    if b.len() == 0 {
        assert(a + b =~= a);
    } else {
        assert((a + b).drop_last() =~= a + b.drop_last());
        assert((a + b).last() == b.last());
        lemma_terms_value_append(s, i, a, b.drop_last());
    }
}

/// Reads a comparison of two terms as a linear constraint.
///
/// The sum of the atoms minus the constant is the difference of the two terms,
/// whatever the interpretation.
pub fn parse_comparison(
    store: &TermStore,
    lhs: TermId,
    rhs: TermId,
    constraint_type: ArithConstraintType,
    reason: TermId,
) -> (r: Option<ParsedArithConstraint>)
    requires
        store.wf(),
    ensures
        parses_as(
            store.terms(),
            lhs,
            rhs,
            match r {
                Some(p) => Some(p@),
                None => None,
            },
        ),
        r matches Some(p) ==> {
            &&& p.constraint_type == constraint_type
            &&& p.reason_term == reason
            &&& forall|i: Interp| #[trigger]
                terms_value(store.terms(), i, p@.terms) - p@.constant.value() == num(
                    eval(store.terms(), i, lhs as int),
                ) - num(eval(store.terms(), i, rhs as int))
        },
{
    let ghost s = store.terms();
    let mut terms = coeffs_new();
    let mut constant = Rat::zero();
    let one = Rat::one();
    let minus_one = match one.checked_neg() {
        Some(m) => m,
        None => {
            return None;
        },
    };
    if extract_linear_terms(store, lhs, one, &mut terms, &mut constant).is_none() {
        return None;
    }
    let ghost a = lin(s, lhs as int, rat_one(), lin_empty())->0;
    let ghost ca = constant;
    if extract_linear_terms(store, rhs, minus_one, &mut terms, &mut constant).is_none() {
        return None;
    }
    let ghost b = lin(s, rhs as int, minus_one, lin_empty())->0;
    let ghost all = coeffs(terms);
    proof {
        assert(all =~= a.terms + b.terms);
        assert forall|k: int| 0 <= k < all.len() implies (#[trigger] all[k]).1.wf() by {
            if k < a.terms.len() {
                assert(a.terms[k].1.wf());
            } else {
                assert(b.terms[k - a.terms.len()].1.wf());
            }
        }
    }
    let combined = match combine_terms(&terms) {
        None => {
            return None;
        },
        Some(m) => m,
    };
    let moved = match constant.checked_neg() {
        None => {
            return None;
        },
        Some(c) => c,
    };
    let listed = list_nonzero(&combined, Ghost(all));
    proof {
        assert forall|i: Interp| #[trigger]
            terms_value(s, i, coeffs(listed)) - moved.value() == num(eval(s, i, lhs as int)) - num(
                eval(s, i, rhs as int),
            ) by {
            lemma_lin(s, i, lhs, rat_one(), lin_empty());
            lemma_lin(s, i, rhs, minus_one, lin_empty());
            lemma_rat_add(rat_zero(), a.constant);
            lemma_rat_add(ca, b.constant);
            lemma_terms_value_append(s, i, a.terms, b.terms);
            let (x, y) = (num(eval(s, i, lhs as int)), num(eval(s, i, rhs as int)));
            assert(1real * x == x && (-1real) * y == -y) by (nonlinear_arith);
            assert(rat_zero().value() == 0real) by {
                let zero = 0int as real;
                let unit = 1int as real;
                assert(zero / unit == 0real) by (nonlinear_arith)
                    requires
                        zero == 0real,
                        unit == 1real,
                ;
            }
        }
    }
    Some(ParsedArithConstraint { terms: listed, constant: moved, constraint_type, reason_term: reason })
}

/// Every atom is a term of the store.
pub open spec fn atoms_within(terms: Seq<(TermId, Rat)>, n: int) -> bool {
    forall|k: int| 0 <= k < terms.len() ==> (#[trigger] terms[k]).0 < n
}

/// A linear form is the same in a longer store, and its atoms are terms of the
/// store it was read from.
pub proof fn lemma_lin_extend(a: Seq<TermView>, b: Seq<TermView>, t: TermId, sc: Rat, acc: Lin)
    requires
        terms_wf(a),
        terms_wf(b),
        extends(a, b),
        t < a.len(),
        atoms_within(acc.terms, a.len() as int),
    ensures
        lin(a, t as int, sc, acc) == lin(b, t as int, sc, acc),
        lin(a, t as int, sc, acc) matches Some(l) ==> atoms_within(l.terms, a.len() as int),
    decreases t, 1int, 0int,
{
    assert(node_below(a, t as int));
    assert(node_below(b, t as int));
    let node = a[t as int];
    assert(b[t as int] == node);
    match node.op {
        Op::Add => {
            lemma_lin_sum_extend(a, b, t, 0, sc, acc);
        },
        Op::Sub => {
            if let Some(n) = rat_neg(sc) {
                lemma_lin_extend(a, b, node.args[0], sc, acc);
                if let Some(l) = lin(a, node.args[0] as int, sc, acc) {
                    lemma_lin_extend(a, b, node.args[1], n, l);
                }
            }
        },
        Op::Neg => {
            if let Some(n) = rat_neg(sc) {
                lemma_lin_extend(a, b, node.args[0], n, acc);
            }
        },
        Op::Mul => {
            lemma_lin_product_extend(a, b, t, 0, rat_one(), None, sc, acc);
        },
        _ => {},
    }
}

proof fn lemma_lin_sum_extend(
    a: Seq<TermView>,
    b: Seq<TermView>,
    t: TermId,
    k: int,
    sc: Rat,
    acc: Lin,
)
    requires
        terms_wf(a),
        terms_wf(b),
        extends(a, b),
        t < a.len(),
        0 <= k,
        atoms_within(acc.terms, a.len() as int),
    ensures
        lin_sum(a, t as int, k, sc, acc) == lin_sum(b, t as int, k, sc, acc),
        lin_sum(a, t as int, k, sc, acc) matches Some(l) ==> atoms_within(l.terms, a.len() as int),
    decreases t, 0int, a[t as int].args.len() - k,
{
    assert(node_below(a, t as int));
    assert(node_below(b, t as int));
    let args = a[t as int].args;
    assert(b[t as int] == a[t as int]);
    if k < args.len() {
        lemma_lin_extend(a, b, args[k], sc, acc);
        if let Some(l) = lin(a, args[k] as int, sc, acc) {
            lemma_lin_sum_extend(a, b, t, k + 1, sc, l);
        }
    }
}

proof fn lemma_lin_product_extend(
    a: Seq<TermView>,
    b: Seq<TermView>,
    t: TermId,
    k: int,
    cp: Rat,
    vf: Option<(TermId, Rat)>,
    sc: Rat,
    parent: Lin,
)
    requires
        terms_wf(a),
        terms_wf(b),
        extends(a, b),
        t < a.len(),
        0 <= k,
        vf matches Some(p) ==> p.0 < a.len(),
        atoms_within(parent.terms, a.len() as int),
    ensures
        lin_product(a, t as int, k, cp, vf, sc, parent) == lin_product(
            b,
            t as int,
            k,
            cp,
            vf,
            sc,
            parent,
        ),
        lin_product(a, t as int, k, cp, vf, sc, parent) matches Some(l) ==> atoms_within(
            l.terms,
            a.len() as int,
        ),
    decreases t, 0int, a[t as int].args.len() - k,
{
    assert(node_below(a, t as int));
    assert(node_below(b, t as int));
    let args = a[t as int].args;
    assert(b[t as int] == a[t as int]);
    if k < args.len() {
        lemma_lin_extend(a, b, args[k], rat_one(), lin_empty());
        if let Some(f) = lin(a, args[k] as int, rat_one(), lin_empty()) {
            if let Some((cp2, vf2)) = classify(f, cp, vf) {
                if f.terms.len() == 1 {
                    assert(f.terms[0].0 < a.len());
                }
                lemma_lin_product_extend(a, b, t, k + 1, cp2, vf2, sc, parent);
            }
        }
    }
}

/// What a comparison is read as does not depend on later terms.
pub proof fn lemma_parses_extend(
    a: Seq<TermView>,
    b: Seq<TermView>,
    lhs: TermId,
    rhs: TermId,
    parsed: Option<ParsedView>,
)
    requires
        terms_wf(a),
        terms_wf(b),
        extends(a, b),
        lhs < a.len(),
        rhs < a.len(),
    ensures
        parses_as(a, lhs, rhs, parsed) == parses_as(b, lhs, rhs, parsed),
        parses_as(a, lhs, rhs, parsed) && parsed is Some ==> atoms_within(
            parsed->0.terms,
            a.len() as int,
        ),
{
    lemma_lin_extend(a, b, lhs, rat_one(), lin_empty());
    lemma_lin_extend(a, b, rhs, rat_minus_one(), lin_empty());
    if parses_as(a, lhs, rhs, parsed) && parsed is Some {
        let la = lin(a, lhs as int, rat_one(), lin_empty())->0;
        let lb = lin(a, rhs as int, rat_minus_one(), lin_empty())->0;
        let all = la.terms + lb.terms;
        assert(atoms_within(all, a.len() as int)) by {
            assert forall|k: int| 0 <= k < all.len() implies (#[trigger] all[k]).0 < a.len() by {
                if k < la.terms.len() {
                    assert(all[k] == la.terms[k]);
                } else {
                    assert(all[k] == lb.terms[k - la.terms.len()]);
                }
            }
        }
        lemma_combine_within(all, a.len() as int);
    }
}

proof fn lemma_combine_within(terms: Seq<(TermId, Rat)>, n: int)
    requires
        combine(terms) is Some,
        atoms_within(terms, n),
    ensures
        forall|x: TermId| #[trigger] combine(terms)->0.contains_key(x) ==> x < n,
    decreases terms.len(),
{
    if terms.len() > 0 {
        assert(terms[terms.len() - 1].0 < n);
        assert forall|k: int| 0 <= k < terms.drop_last().len() implies (
        #[trigger] terms.drop_last()[k]).0 < n by {
            assert(terms.drop_last()[k] == terms[k]);
        }
        lemma_combine_within(terms.drop_last(), n);
    }
}

/// The value of a list of atoms does not depend on later terms.
pub proof fn lemma_terms_value_extend(
    a: Seq<TermView>,
    b: Seq<TermView>,
    i: Interp,
    terms: Seq<(TermId, Rat)>,
)
    requires
        terms_wf(a),
        terms_wf(b),
        extends(a, b),
        atoms_within(terms, a.len() as int),
    ensures
        terms_value(a, i, terms) == terms_value(b, i, terms),
    decreases terms.len(),
{
    if terms.len() > 0 {
        assert(terms[terms.len() - 1].0 < a.len());
        lemma_extend(a, b, i, terms.last().0);
        assert forall|k: int| 0 <= k < terms.drop_last().len() implies (
        #[trigger] terms.drop_last()[k]).0 < a.len() by {
            assert(terms.drop_last()[k] == terms[k]);
        }
        lemma_terms_value_extend(a, b, i, terms.drop_last());
    }
}

} // verus!
