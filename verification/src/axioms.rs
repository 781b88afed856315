//! Valid clauses that tell arithmetic about equations.
//!
//! An equation of numbers that is false means that one side is less than the
//! other.  Arithmetic only sees orders, so equations whose truth matters get
//! the clause `a = b or a < b or a > b`, and equations with constants the
//! clauses that tie them to the two bounds.

use crate::collections::{copy_words, map_get, set_sorted_items};
use crate::constructors::{grew, is_equation};
use crate::descent::{collect_visited, visits, Descent};
use crate::encode::{
    good, keeps, lemma_good_grow, lemma_good_quiet, lemma_good_refl, lemma_good_trans,
    lemma_keeps_trans,
};
use crate::ite_table::{int_const_val, int_literal};
use crate::semantics::{eqv, eval, eval_args, holds, lemma_eval, num, Interp};
use crate::state::{
    clause_true, goal_inv, lemma_means_extend, lit_true, means, step, valid_clause, GoalState,
    GoalView, Journaled, Lit, TrailOp, Var,
};
use crate::tables::{ascending_keys, insert_key};
use crate::terms::{
    comparable, is_numeric_sort, node_at, node_below, numeric_sort, terms_wf, Op, TermId, TermStore,
    TermView, INT_SORT,
};
use crate::walk::{collect_subterms, lemma_reach_le, lists_reach, subterm};
use rustc_hash::FxHashSet;
use vstd::prelude::*;

verus! {

/// `t` applies `op` to `a` and `b`.
pub open spec fn relates(s: Seq<TermView>, t: TermId, op: Op, a: TermId, b: TermId) -> bool {
    t < s.len() && s[t as int].op == op && s[t as int].args == seq![a, b]
}

/// The three ways in which `a` and `b` can stand to each other.
pub open spec fn order_atoms(
    s: Seq<TermView>,
    a: TermId,
    b: TermId,
    eq: TermId,
    lt: TermId,
    gt: TermId,
) -> bool {
    &&& a < s.len() && b < s.len()
    &&& relates(s, eq, Op::Eq, a, b)
    &&& relates(s, lt, Op::Lt, a, b)
    &&& relates(s, gt, Op::Gt, a, b)
}

/// The term was encoded, and the literal stands for it.
pub open spec fn encoded_as(s: Seq<TermView>, e: GoalView, l: Lit, t: TermId) -> bool {
    e.j.memo.contains_key(t) && means(s, e.term_of, l, t)
}

/// The clause says that `a` and `b` stand to each other in one of the ways.
pub open spec fn trichotomy(
    s: Seq<TermView>,
    e: GoalView,
    a: TermId,
    b: TermId,
    c: Seq<Lit>,
) -> bool {
    c.len() == 3 && exists|eq: TermId, lt: TermId, gt: TermId| #[trigger]
        order_atoms(s, a, b, eq, lt, gt) && means(s, e.term_of, c[0], eq) && encoded_as(
            s,
            e,
            c[1],
            lt,
        ) && encoded_as(s, e, c[2], gt)
}

/// A clause of the state says so.
pub open spec fn has_trichotomy(s: Seq<TermView>, e: GoalView, a: TermId, b: TermId) -> bool {
    exists|k: int|
        0 <= k < e.clauses.len() && trichotomy(s, e, a, b, #[trigger] e.clauses[k])
}

/// The pair has its clause, where it needs one.
pub open spec fn split_pair(s: Seq<TermView>, e: GoalView, a: TermId, b: TermId) -> bool {
    numeric_sort(s[a as int].sort) && a != b ==> has_trichotomy(s, e, a, b)
}

proof fn lemma_trichotomy_extend(
    s0: Seq<TermView>,
    e0: GoalView,
    s1: Seq<TermView>,
    e1: GoalView,
    a: TermId,
    b: TermId,
)
    requires
        goal_inv(s0, e0),
        step(s0, e0, s1, e1),
        has_trichotomy(s0, e0, a, b),
    ensures
        has_trichotomy(s1, e1, a, b),
{
    let k = choose|k: int|
        0 <= k < e0.clauses.len() && trichotomy(s0, e0, a, b, #[trigger] e0.clauses[k]);
    let c = e0.clauses[k];
    assert(e1.clauses[k] == c);
    let (eq, lt, gt) = choose|eq: TermId, lt: TermId, gt: TermId| #[trigger]
        order_atoms(s0, a, b, eq, lt, gt) && means(s0, e0.term_of, c[0], eq) && encoded_as(
            s0,
            e0,
            c[1],
            lt,
        ) && encoded_as(s0, e0, c[2], gt);
    lemma_means_extend(s0, e0.term_of, s1, e1.term_of, c[0], eq);
    lemma_means_extend(s0, e0.term_of, s1, e1.term_of, c[1], lt);
    lemma_means_extend(s0, e0.term_of, s1, e1.term_of, c[2], gt);
    assert(order_atoms(s1, a, b, eq, lt, gt));
    assert(trichotomy(s1, e1, a, b, e1.clauses[k]));
}

pub(crate) proof fn lemma_split_extend(
    s0: Seq<TermView>,
    e0: GoalView,
    s1: Seq<TermView>,
    e1: GoalView,
    a: TermId,
    b: TermId,
)
    requires
        goal_inv(s0, e0),
        step(s0, e0, s1, e1),
        a < s0.len(),
        split_pair(s0, e0, a, b),
    ensures
        split_pair(s1, e1, a, b),
{
    assert(s1[a as int] == s0[a as int]);
    if numeric_sort(s0[a as int].sort) && a != b {
        lemma_trichotomy_extend(s0, e0, s1, e1, a, b);
    }
}

/// The value of a comparison.
proof fn lemma_order_value(s: Seq<TermView>, i: Interp, t: TermId, op: Op, a: TermId, b: TermId)
    requires
        terms_wf(s),
        a < s.len(),
        b < s.len(),
        relates(s, t, op, a, b),
    ensures
        op == Op::Lt ==> holds(s, i, t) == (num(eval(s, i, a as int)) < num(eval(s, i, b as int))),
        op == Op::Gt ==> holds(s, i, t) == (num(eval(s, i, a as int)) > num(eval(s, i, b as int))),
        op == Op::Le ==> holds(s, i, t) == (num(eval(s, i, a as int)) <= num(
            eval(s, i, b as int),
        )),
        op == Op::Ge ==> holds(s, i, t) == (num(eval(s, i, a as int)) >= num(
            eval(s, i, b as int),
        )),
        op == Op::Eq ==> holds(s, i, t) == eqv(
            s[a as int].sort,
            eval(s, i, a as int),
            eval(s, i, b as int),
        ),
{
    if op == Op::Lt || op == Op::Gt || op == Op::Le || op == Op::Ge || op == Op::Eq {
        lemma_eval(s, i, t);
        let vals = eval_args(s, i, s[t as int].args);
        assert(vals[0] == eval(s, i, a as int) && vals[1] == eval(s, i, b as int));
        assert(crate::semantics::arg_sorts(s, s[t as int])[0] == s[a as int].sort);
    }
}

/// The clause is valid for numbers.
proof fn lemma_trichotomy_valid(
    s: Seq<TermView>,
    term_of: Seq<TermId>,
    a: TermId,
    b: TermId,
    eq: TermId,
    lt: TermId,
    gt: TermId,
    c: Seq<Lit>,
)
    requires
        terms_wf(s),
        numeric_sort(s[a as int].sort),
        order_atoms(s, a, b, eq, lt, gt),
        c.len() == 3,
        means(s, term_of, c[0], eq),
        means(s, term_of, c[1], lt),
        means(s, term_of, c[2], gt),
    ensures
        valid_clause(s, term_of, c),
{
    assert forall|i: Interp| #[trigger] clause_true(s, i, term_of, c) by {
        lemma_order_value(s, i, eq, Op::Eq, a, b);
        lemma_order_value(s, i, lt, Op::Lt, a, b);
        lemma_order_value(s, i, gt, Op::Gt, a, b);
        assert(lit_true(s, i, term_of, c[0]) == holds(s, i, eq));
        assert(lit_true(s, i, term_of, c[1]) == holds(s, i, lt));
        assert(lit_true(s, i, term_of, c[2]) == holds(s, i, gt));
        assert(lit_true(s, i, term_of, c[0]) || lit_true(s, i, term_of, c[1]) || lit_true(
            s,
            i,
            term_of,
            c[2],
        ));
    }
}

fn three(a: Lit, b: Lit, c: Lit) -> (r: Vec<Lit>)
    ensures
        r@ == seq![a, b, c],
{
    let mut r: Vec<Lit> = Vec::new();
    r.push(a);
    r.push(b);
    r.push(c);
    assert(r@ =~= seq![a, b, c]);
    r
}

fn two(a: Lit, b: Lit) -> (r: Vec<Lit>)
    ensures
        r@ == seq![a, b],
{
    let mut r: Vec<Lit> = Vec::new();
    r.push(a);
    r.push(b);
    assert(r@ =~= seq![a, b]);
    r
}

impl GoalState {
    /// Adds a clause that is always true.
    fn add_axiom(&mut self, Ghost(s): Ghost<Seq<TermView>>, clause: Vec<Lit>)
        requires
            goal_inv(s, old(self)@),
            valid_clause(s, old(self)@.term_of, clause@),
        ensures
            good(s, old(self)@, s, final(self)@),
            final(self)@ == (GoalView { clauses: old(self)@.clauses.push(clause@), ..old(self)@ }),
    {
        let ghost before = self@;
        self.add_valid(Ghost(s), clause);
        proof {
            lemma_good_quiet(s, before, s, self@);
        }
    }

    /// Adds the clause for an equation whose literal is given.
    fn add_order_clause(
        &mut self,
        store: &mut TermStore,
        eq: TermId,
        eq_lit: Lit,
        a: TermId,
        b: TermId,
    )
        requires
            goal_inv(old(store).terms(), old(self)@),
            a < old(store).terms().len(),
            b < old(store).terms().len(),
            numeric_sort(old(store).terms()[a as int].sort),
            relates(old(store).terms(), eq, Op::Eq, a, b),
            means(old(store).terms(), old(self)@.term_of, eq_lit, eq),
        ensures
            grew(old(store), final(store)),
            good(old(store).terms(), old(self)@, final(store).terms(), final(self)@),
            has_trichotomy(final(store).terms(), final(self)@, a, b),
    {
        let ghost s0 = store.terms();
        let ghost e0 = self@;
        let lt = store.mk_lt(a, b);
        let ghost s1 = store.terms();
        let gt = store.mk_gt(a, b);
        let ghost s2 = store.terms();
        proof {
            lemma_good_grow(s0, s2, e0);
            lemma_means_extend(s0, e0.term_of, s2, e0.term_of, eq_lit, eq);
            assert(s2[lt as int] == s1[lt as int]);
            assert(relates(s2, lt, Op::Lt, a, b));
            assert(relates(s2, gt, Op::Gt, a, b));
        }
        let lt_lit = self.encode(lt, store);
        let ghost s3 = store.terms();
        let ghost e3 = self@;
        let gt_lit = self.encode(gt, store);
        let ghost s4 = store.terms();
        let ghost e4 = self@;
        let ghost c = seq![eq_lit, lt_lit, gt_lit];
        proof {
            lemma_good_trans(s0, e0, s2, e0, s3, e3);
            lemma_good_trans(s0, e0, s3, e3, s4, e4);
            lemma_means_extend(s2, e0.term_of, s3, e3.term_of, eq_lit, eq);
            lemma_means_extend(s3, e3.term_of, s4, e4.term_of, eq_lit, eq);
            lemma_means_extend(s3, e3.term_of, s4, e4.term_of, lt_lit, lt);
            assert(s4[eq as int] == s0[eq as int]);
            assert(s4[lt as int] == s2[lt as int] && s4[gt as int] == s2[gt as int]);
            assert(s4[a as int] == s0[a as int]);
            assert(order_atoms(s4, a, b, eq, lt, gt));
            lemma_trichotomy_valid(s4, e4.term_of, a, b, eq, lt, gt, c);
        }
        self.add_axiom(Ghost(s4), three(eq_lit, lt_lit, gt_lit));
        proof {
            let e5 = self@;
            lemma_good_trans(s0, e0, s4, e4, s4, e5);
            assert(e5.clauses[e4.clauses.len() as int] == c);
            assert(trichotomy(s4, e5, a, b, e5.clauses[e4.clauses.len() as int]));
        }
    }

    /// Says of two numbers that they are equal or one is less than the other.
    pub fn add_arith_trichotomy_clause(&mut self, store: &mut TermStore, a: TermId, b: TermId)
        requires
            goal_inv(old(store).terms(), old(self)@),
            a < old(store).terms().len(),
            b < old(store).terms().len(),
            comparable(old(store).terms()[a as int].sort, old(store).terms()[b as int].sort),
        ensures
            grew(old(store), final(store)),
            good(old(store).terms(), old(self)@, final(store).terms(), final(self)@),
            split_pair(final(store).terms(), final(self)@, a, b),
            !numeric_sort(old(store).terms()[a as int].sort) || a == b ==> final(self)@ == old(self)@ && final(store).terms() == old(store).terms(),
    {
        let ghost s0 = store.terms();
        let ghost e0 = self@;
        proof {
            lemma_good_refl(s0, e0);
        }
        if !is_numeric_sort(store.nodes[a].sort) || a == b {
            return;
        }
        let eq = store.mk_eq(a, b);
        let ghost s1 = store.terms();
        proof {
            lemma_good_grow(s0, s1, e0);
            assert(relates(s1, eq, Op::Eq, a, b));
            assert(s1[a as int] == s0[a as int]);
        }
        let eq_lit = self.encode(eq, store);
        let ghost s2 = store.terms();
        let ghost e2 = self@;
        proof {
            lemma_good_trans(s0, e0, s1, e0, s2, e2);
            assert(s2[eq as int] == s1[eq as int]);
            assert(s2[a as int] == s1[a as int]);
        }
        self.add_order_clause(store, eq, eq_lit, a, b);
        proof {
            lemma_good_trans(s0, e0, s2, e2, store.terms(), self@);
        }
    }

    /// Gives each pair of a list of numbers of one sort its clause.
    fn split_all_pairs(&mut self, store: &mut TermStore, args: &Vec<TermId>)
        requires
            goal_inv(old(store).terms(), old(self)@),
            forall|k: int| 0 <= k < args@.len() ==> (#[trigger] args@[k]) < old(store).terms().len(),
            forall|j: int, k: int|
                0 <= j < k < args@.len() ==> old(store).terms()[#[trigger] args@[j] as int].sort
                    == old(store).terms()[#[trigger] args@[k] as int].sort,
        ensures
            grew(old(store), final(store)),
            good(old(store).terms(), old(self)@, final(store).terms(), final(self)@),
            forall|j: int, k: int|
                0 <= j < k < args@.len() ==> split_pair(
                    final(store).terms(),
                    final(self)@,
                    #[trigger] args@[j],
                    #[trigger] args@[k],
                ),
    {
        let ghost s0 = store.terms();
        let ghost e0 = self@;
        let mut i: usize = 0;
        proof {
            lemma_good_refl(s0, e0);
        }
        while i < args.len()
            invariant
                i <= args.len(),
                s0 == old(store).terms(),
                e0 == old(self)@,
                goal_inv(s0, e0),
                forall|k: int| 0 <= k < args@.len() ==> (#[trigger] args@[k]) < s0.len(),
                forall|j: int, k: int|
                    0 <= j < k < args@.len() ==> s0[#[trigger] args@[j] as int].sort
                        == s0[#[trigger] args@[k] as int].sort,
                grew(old(store), store),
                good(s0, e0, store.terms(), self@),
                forall|j: int, k: int|
                    0 <= j < i && j < k < args@.len() ==> split_pair(
                        store.terms(),
                        self@,
                        #[trigger] args@[j],
                        #[trigger] args@[k],
                    ),
            decreases args.len() - i,
        {
            let mut m: usize = i + 1;
            while m < args.len()
                invariant
                    i < m <= args.len(),
                    s0 == old(store).terms(),
                    e0 == old(self)@,
                    goal_inv(s0, e0),
                    forall|k: int| 0 <= k < args@.len() ==> (#[trigger] args@[k]) < s0.len(),
                    forall|j: int, k: int|
                        0 <= j < k < args@.len() ==> s0[#[trigger] args@[j] as int].sort
                            == s0[#[trigger] args@[k] as int].sort,
                    grew(old(store), store),
                    good(s0, e0, store.terms(), self@),
                    forall|j: int, k: int|
                        (0 <= j < i && j < k < args@.len()) || (j == i && i < k < m) ==> split_pair(
                            store.terms(),
                            self@,
                            #[trigger] args@[j],
                            #[trigger] args@[k],
                        ),
                decreases args.len() - m,
            {
                let ghost s1 = store.terms();
                let ghost e1 = self@;
                let (a, b) = (args[i], args[m]);
                proof {
                    assert(args@[i as int] < s0.len() && args@[m as int] < s0.len());
                    assert(s0[args@[i as int] as int].sort == s0[args@[m as int] as int].sort);
                    assert(s1[a as int] == s0[a as int] && s1[b as int] == s0[b as int]);
                }
                self.add_arith_trichotomy_clause(store, a, b);
                proof {
                    let s2 = store.terms();
                    let e2 = self@;
                    lemma_good_trans(s0, e0, s1, e1, s2, e2);
                    assert forall|j: int, k: int|
                        (0 <= j < i && j < k < args@.len()) || (j == i && i < k < m + 1) implies split_pair(
                        s2,
                        e2,
                        #[trigger] args@[j],
                        #[trigger] args@[k],
                    ) by {
                        if !(j == i && k == m) {
                            assert(args@[j] < s0.len());
                            lemma_split_extend(s1, e1, s2, e2, args@[j], args@[k]);
                        }
                    }
                }
                m = m + 1;
            }
            i = i + 1;
        }
    }
}

/// The disequality at `x` has its clauses.
pub open spec fn disequality_split(s: Seq<TermView>, e: GoalView, x: TermId) -> bool {
    let args = s[x as int].args;
    &&& s[x as int].op == Op::Not && s[args[0] as int].op == Op::Eq ==> split_pair(
        s,
        e,
        s[args[0] as int].args[0],
        s[args[0] as int].args[1],
    )
    &&& s[x as int].op == Op::Distinct ==> forall|j: int, k: int|
        0 <= j < k < args.len() ==> split_pair(s, e, #[trigger] args[j], #[trigger] args[k])
}

proof fn lemma_disequality_extend(
    s0: Seq<TermView>,
    e0: GoalView,
    s1: Seq<TermView>,
    e1: GoalView,
    x: TermId,
)
    requires
        goal_inv(s0, e0),
        step(s0, e0, s1, e1),
        x < s0.len(),
        disequality_split(s0, e0, x),
    ensures
        disequality_split(s1, e1, x),
{
    assert(node_below(s0, x as int));
    assert(s1[x as int] == s0[x as int]);
    let args = s0[x as int].args;
    if s0[x as int].op == Op::Not {
        assert(s1[args[0] as int] == s0[args[0] as int]);
        assert(node_below(s0, args[0] as int));
        if s0[args[0] as int].op == Op::Eq {
            lemma_split_extend(
                s0,
                e0,
                s1,
                e1,
                s0[args[0] as int].args[0],
                s0[args[0] as int].args[1],
            );
        }
    }
    if s0[x as int].op == Op::Distinct {
        assert forall|j: int, k: int| 0 <= j < k < args.len() implies split_pair(
            s1,
            e1,
            #[trigger] args[j],
            #[trigger] args[k],
        ) by {
            assert(args[j] < x);
            lemma_split_extend(s0, e0, s1, e1, args[j], args[k]);
        }
    }
}

/// The equation at `x` has its clause, where it is between numbers and one side
/// is an application.
pub open spec fn equation_split(s: Seq<TermView>, e: GoalView, x: TermId) -> bool {
    let args = s[x as int].args;
    s[x as int].op == Op::Eq && numeric_sort(s[args[0] as int].sort) && (s[args[0] as int].op
        == Op::Apply || s[args[1] as int].op == Op::Apply) ==> has_trichotomy(
        s,
        e,
        args[0],
        args[1],
    )
}

proof fn lemma_equation_extend(
    s0: Seq<TermView>,
    e0: GoalView,
    s1: Seq<TermView>,
    e1: GoalView,
    x: TermId,
)
    requires
        goal_inv(s0, e0),
        step(s0, e0, s1, e1),
        x < s0.len(),
        equation_split(s0, e0, x),
    ensures
        equation_split(s1, e1, x),
{
    assert(node_below(s0, x as int));
    assert(s1[x as int] == s0[x as int]);
    let args = s0[x as int].args;
    if s0[x as int].op == Op::Eq {
        assert(s1[args[0] as int] == s0[args[0] as int]);
        assert(s1[args[1] as int] == s0[args[1] as int]);
        if has_trichotomy(s0, e0, args[0], args[1]) {
            lemma_trichotomy_extend(s0, e0, s1, e1, args[0], args[1]);
        }
    }
}

impl GoalState {
    /// Adds the clauses of the disequality at one term.
    fn split_disequality(&mut self, store: &mut TermStore, x: TermId)
        requires
            goal_inv(old(store).terms(), old(self)@),
            x < old(store).terms().len(),
        ensures
            grew(old(store), final(store)),
            good(old(store).terms(), old(self)@, final(store).terms(), final(self)@),
            disequality_split(final(store).terms(), final(self)@, x),
    {
        let ghost s0 = store.terms();
        let ghost e0 = self@;
        proof {
            lemma_good_refl(s0, e0);
            assert(node_below(s0, x as int));
        }
        match store.nodes[x].op {
            Op::Not => {
                let inner: TermId = store.nodes[x].args[0];
                assert(node_below(s0, inner as int));
                if store.nodes[inner].op == Op::Eq {
                    let a: TermId = store.nodes[inner].args[0];
                    let b: TermId = store.nodes[inner].args[1];
                    self.add_arith_trichotomy_clause(store, a, b);
                    proof {
                        assert(store.terms()[x as int] == s0[x as int]);
                        assert(store.terms()[inner as int] == s0[inner as int]);
                    }
                }
            },
            Op::Distinct => {
                let args = copy_words(&store.nodes[x].args);
                proof {
                    assert forall|j: int, k: int| 0 <= j < k < args@.len() implies s0[#[trigger] args@[j] as int].sort
                        == s0[#[trigger] args@[k] as int].sort by {
                        assert(s0[s0[x as int].args[j] as int].sort
                            == s0[s0[x as int].args[k] as int].sort);
                    }
                }
                self.split_all_pairs(store, &args);
                assert(store.terms()[x as int] == s0[x as int]);
            },
            _ => {},
        }
    }

    /// Gives the disequalities of a formula their clauses.
    pub fn add_arith_diseq_split(&mut self, store: &mut TermStore, term: TermId)
        requires
            goal_inv(old(store).terms(), old(self)@),
            term < old(store).terms().len(),
        ensures
            grew(old(store), final(store)),
            good(old(store).terms(), old(self)@, final(store).terms(), final(self)@),
            forall|x: TermId| #[trigger]
                visits(old(store).terms(), Descent::Disequalities, term, x) ==> disequality_split(
                    final(store).terms(),
                    final(self)@,
                    x,
                ),
    {
        let ghost s0 = store.terms();
        let ghost e0 = self@;
        let list = collect_visited(store, term, Descent::Disequalities);
        let mut n: usize = 0;
        proof {
            lemma_good_refl(s0, e0);
        }
        while n < list.len()
            invariant
                n <= list.len(),
                s0 == old(store).terms(),
                e0 == old(self)@,
                goal_inv(s0, e0),
                forall|j: int| 0 <= j < list@.len() ==> (#[trigger] list@[j]) < s0.len(),
                grew(old(store), store),
                good(s0, e0, store.terms(), self@),
                forall|j: int|
                    0 <= j < n ==> disequality_split(store.terms(), self@, #[trigger] list@[j]),
            decreases list.len() - n,
        {
            let ghost s1 = store.terms();
            let ghost e1 = self@;
            assert(list@[n as int] < s0.len());
            self.split_disequality(store, list[n]);
            proof {
                let s2 = store.terms();
                let e2 = self@;
                lemma_good_trans(s0, e0, s1, e1, s2, e2);
                assert forall|j: int| 0 <= j < n + 1 implies disequality_split(
                    s2,
                    e2,
                    #[trigger] list@[j],
                ) by {
                    if j < n {
                        lemma_disequality_extend(s1, e1, s2, e2, list@[j]);
                    }
                }
            }
            n = n + 1;
        }
        proof {
            assert forall|x: TermId| #[trigger] visits(
                s0,
                Descent::Disequalities,
                term,
                x,
            ) implies disequality_split(store.terms(), self@, x) by {
                assert(list@.contains(x));
                let j = choose|j: int| 0 <= j < list@.len() && list@[j] == x;
                assert(disequality_split(store.terms(), self@, list@[j]));
            }
        }
    }

    /// Adds the clause of the equation at one term.
    fn split_equation(&mut self, store: &mut TermStore, x: TermId)
        requires
            goal_inv(old(store).terms(), old(self)@),
            x < old(store).terms().len(),
        ensures
            grew(old(store), final(store)),
            good(old(store).terms(), old(self)@, final(store).terms(), final(self)@),
            equation_split(final(store).terms(), final(self)@, x),
    {
        let ghost s0 = store.terms();
        let ghost e0 = self@;
        proof {
            lemma_good_refl(s0, e0);
            assert(node_below(s0, x as int));
        }
        if store.nodes[x].op != Op::Eq {
            return;
        }
        let a: TermId = store.nodes[x].args[0];
        let b: TermId = store.nodes[x].args[1];
        if !is_numeric_sort(store.nodes[a].sort) || (store.nodes[a].op != Op::Apply
            && store.nodes[b].op != Op::Apply) {
            return;
        }
        let v = self.get_or_create_var(Ghost(s0), x);
        let ghost e1 = self@;
        proof {
            lemma_good_quiet(s0, e0, s0, e1);
            assert(s0[x as int].args =~= seq![a, b]);
        }
        self.add_order_clause(store, x, Lit::pos(v), a, b);
        proof {
            lemma_good_trans(s0, e0, s0, e1, store.terms(), self@);
            assert(store.terms()[x as int] == s0[x as int]);
        }
    }
}

impl GoalState {
    /// Gives the equations of a formula between numbers, with an application on
    /// one side, their clauses.
    pub fn add_arith_eq_trichotomy(&mut self, store: &mut TermStore, term: TermId)
        requires
            goal_inv(old(store).terms(), old(self)@),
            term < old(store).terms().len(),
        ensures
            grew(old(store), final(store)),
            good(old(store).terms(), old(self)@, final(store).terms(), final(self)@),
            forall|x: TermId| #[trigger]
                visits(old(store).terms(), Descent::Equations, term, x) ==> equation_split(
                    final(store).terms(),
                    final(self)@,
                    x,
                ),
    {
        let ghost s0 = store.terms();
        let ghost e0 = self@;
        let list = collect_visited(store, term, Descent::Equations);
        let mut n: usize = 0;
        proof {
            lemma_good_refl(s0, e0);
        }
        while n < list.len()
            invariant
                n <= list.len(),
                s0 == old(store).terms(),
                e0 == old(self)@,
                goal_inv(s0, e0),
                forall|j: int| 0 <= j < list@.len() ==> (#[trigger] list@[j]) < s0.len(),
                grew(old(store), store),
                good(s0, e0, store.terms(), self@),
                forall|j: int|
                    0 <= j < n ==> equation_split(store.terms(), self@, #[trigger] list@[j]),
            decreases list.len() - n,
        {
            let ghost s1 = store.terms();
            let ghost e1 = self@;
            assert(list@[n as int] < s0.len());
            self.split_equation(store, list[n]);
            proof {
                let s2 = store.terms();
                let e2 = self@;
                lemma_good_trans(s0, e0, s1, e1, s2, e2);
                assert forall|j: int| 0 <= j < n + 1 implies equation_split(
                    s2,
                    e2,
                    #[trigger] list@[j],
                ) by {
                    if j < n {
                        lemma_equation_extend(s1, e1, s2, e2, list@[j]);
                    }
                }
            }
            n = n + 1;
        }
        proof {
            assert forall|x: TermId| #[trigger] visits(
                s0,
                Descent::Equations,
                term,
                x,
            ) implies equation_split(store.terms(), self@, x) by {
                assert(list@.contains(x));
                let j = choose|j: int| 0 <= j < list@.len() && list@[j] == x;
                assert(equation_split(store.terms(), self@, list@[j]));
            }
        }
    }
}

/// The pair is listed, in one order or the other.
pub open spec fn pair_listed(pairs: Seq<(TermId, TermId)>, a: TermId, b: TermId) -> bool {
    pairs.contains((a, b)) || pairs.contains((b, a))
}

fn lists_pair(pairs: &Vec<(TermId, TermId)>, a: TermId, b: TermId) -> (r: bool)
    ensures
        r == pair_listed(pairs@, a, b),
{
    let mut n: usize = 0;
    while n < pairs.len()
        invariant
            n <= pairs.len(),
            forall|k: int|
                0 <= k < n ==> #[trigger] pairs@[k] != (a, b) && pairs@[k] != (b, a),
        decreases pairs.len() - n,
    {
        let (x, y) = pairs[n];
        if (x == a && y == b) || (x == b && y == a) {
            assert(pairs@[n as int] == (a, b) || pairs@[n as int] == (b, a));
            return true;
        }
        n = n + 1;
    }
    false
}

/// An equation between numbers.
pub open spec fn numeric_equation(s: Seq<TermView>, x: TermId) -> bool {
    x < s.len() && s[x as int].op == Op::Eq && numeric_sort(s[s[x as int].args[0] as int].sort)
}

/// Lists the sides of the equations between numbers within a term.
fn collect_numeric_pairs(store: &TermStore, t: TermId, pairs: &mut Vec<(TermId, TermId)>)
    requires
        store.wf(),
        t < store.terms().len(),
        forall|k: int|
            0 <= k < old(pairs)@.len() ==> pair_ok(store.terms(), #[trigger] old(pairs)@[k]),
    ensures
        forall|k: int|
            0 <= k < final(pairs)@.len() ==> pair_ok(store.terms(), #[trigger] final(pairs)@[k]),
        forall|p: (TermId, TermId)| #[trigger] old(pairs)@.contains(p) ==> final(pairs)@.contains(p),
        forall|x: TermId| #[trigger]
            subterm(store.terms(), t, x) && numeric_equation(store.terms(), x) ==> pair_listed(
                final(pairs)@,
                store.terms()[x as int].args[0],
                store.terms()[x as int].args[1],
            ),
{
    let ghost s = store.terms();
    let ghost first = pairs@;
    let list = collect_subterms(store, t);
    let mut n: usize = 0;
    while n < list.len()
        invariant
            n <= list.len(),
            store.wf(),
            s == store.terms(),
            t < s.len(),
            lists_reach(list@, s, Map::empty(), t),
            forall|k: int| 0 <= k < pairs@.len() ==> pair_ok(s, #[trigger] pairs@[k]),
            forall|p: (TermId, TermId)| #[trigger] first.contains(p) ==> pairs@.contains(p),
            forall|k: int|
                0 <= k < n && numeric_equation(s, #[trigger] list@[k]) ==> pair_listed(
                    pairs@,
                    s[list@[k] as int].args[0],
                    s[list@[k] as int].args[1],
                ),
        decreases list.len() - n,
    {
        let x: TermId = list[n];
        let ghost before = pairs@;
        proof {
            assert(list@.contains(x));
            lemma_reach_le(s, Map::empty(), t, x);
            assert(node_below(s, x as int));
        }
        let node = &store.nodes[x];
        if node.op == Op::Eq {
            let a: TermId = node.args[0];
            let b: TermId = node.args[1];
            if is_numeric_sort(store.nodes[a].sort) && !lists_pair(pairs, a, b) {
                pairs.push((a, b));
                proof {
                    assert(pairs@[before.len() as int] == (a, b));
                    assert forall|p: (TermId, TermId)| #[trigger] before.contains(
                        p,
                    ) implies pairs@.contains(p) by {
                        let k = choose|k: int| 0 <= k < before.len() && before[k] == p;
                        assert(pairs@[k] == p);
                    }
                }
            }
        }
        n = n + 1;
    }
    proof {
        assert forall|x: TermId| #[trigger] subterm(s, t, x) && numeric_equation(s, x) implies pair_listed(
            pairs@,
            s[x as int].args[0],
            s[x as int].args[1],
        ) by {
            assert(list@.contains(x));
            let k = choose|k: int| 0 <= k < list@.len() && list@[k] == x;
            assert(numeric_equation(s, list@[k]));
        }
    }
}

/// Two terms of one sort.
pub open spec fn pair_ok(s: Seq<TermView>, p: (TermId, TermId)) -> bool {
    p.0 < s.len() && p.1 < s.len() && comparable(s[p.0 as int].sort, s[p.1 as int].sort)
}

impl GoalState {
    /// Gives the equations between numbers within the assertions their clauses,
    /// wherever they stand.
    pub fn ensure_numeric_equality_splits(&mut self, store: &mut TermStore)
        requires
            goal_inv(old(store).terms(), old(self)@),
            forall|k: int|
                0 <= k < old(self)@.j.assertions.len() ==> (#[trigger] old(self)@.j.assertions[k])
                    < old(store).terms().len(),
        ensures
            grew(old(store), final(store)),
            good(old(store).terms(), old(self)@, final(store).terms(), final(self)@),
            forall|k: int, x: TermId|
                0 <= k < old(self)@.j.assertions.len() && #[trigger] subterm(
                    old(store).terms(),
                    old(self)@.j.assertions[k],
                    x,
                ) && numeric_equation(old(store).terms(), x) ==> {
                    let a = old(store).terms()[x as int].args[0];
                    let b = old(store).terms()[x as int].args[1];
                    split_pair(final(store).terms(), final(self)@, a, b) || split_pair(
                        final(store).terms(),
                        final(self)@,
                        b,
                        a,
                    )
                },
    {
        let ghost s0 = store.terms();
        let ghost e0 = self@;
        let ghost given = e0.j.assertions;
        let mut pairs: Vec<(TermId, TermId)> = Vec::new();
        let mut n: usize = 0;
        while n < self.assertions.len()
            invariant
                n <= self.assertions.len(),
                store.wf(),
                s0 == store.terms(),
                given == self.assertions@,
                forall|k: int| 0 <= k < given.len() ==> (#[trigger] given[k]) < s0.len(),
                forall|k: int| 0 <= k < pairs@.len() ==> pair_ok(s0, #[trigger] pairs@[k]),
                forall|k: int, x: TermId|
                    0 <= k < n && #[trigger] subterm(s0, given[k], x) && numeric_equation(s0, x)
                        ==> pair_listed(pairs@, s0[x as int].args[0], s0[x as int].args[1]),
            decreases self.assertions.len() - n,
        {
            let ghost before = pairs@;
            assert(given[n as int] < s0.len());
            collect_numeric_pairs(store, self.assertions[n], &mut pairs);
            proof {
                assert forall|k: int, x: TermId|
                    0 <= k < n + 1 && #[trigger] subterm(s0, given[k], x) && numeric_equation(
                        s0,
                        x,
                    ) implies pair_listed(pairs@, s0[x as int].args[0], s0[x as int].args[1]) by {
                    if k < n {
                        let (a, b) = (s0[x as int].args[0], s0[x as int].args[1]);
                        assert(pair_listed(before, a, b));
                        if before.contains((a, b)) {
                            assert(pairs@.contains((a, b)));
                        } else {
                            assert(pairs@.contains((b, a)));
                        }
                    }
                }
            }
            n = n + 1;
        }
        let mut m: usize = 0;
        proof {
            lemma_good_refl(s0, e0);
        }
        while m < pairs.len()
            invariant
                m <= pairs.len(),
                s0 == old(store).terms(),
                e0 == old(self)@,
                goal_inv(s0, e0),
                forall|k: int| 0 <= k < pairs@.len() ==> pair_ok(s0, #[trigger] pairs@[k]),
                grew(old(store), store),
                good(s0, e0, store.terms(), self@),
                forall|k: int|
                    0 <= k < m ==> split_pair(
                        store.terms(),
                        self@,
                        (#[trigger] pairs@[k]).0,
                        pairs@[k].1,
                    ),
            decreases pairs.len() - m,
        {
            let ghost s1 = store.terms();
            let ghost e1 = self@;
            let (a, b) = pairs[m];
            proof {
                assert(pair_ok(s0, pairs@[m as int]));
                assert(s1[a as int] == s0[a as int] && s1[b as int] == s0[b as int]);
            }
            self.add_arith_trichotomy_clause(store, a, b);
            proof {
                let s2 = store.terms();
                let e2 = self@;
                lemma_good_trans(s0, e0, s1, e1, s2, e2);
                assert forall|k: int| 0 <= k < m + 1 implies split_pair(
                    s2,
                    e2,
                    (#[trigger] pairs@[k]).0,
                    pairs@[k].1,
                ) by {
                    if k < m {
                        assert(pair_ok(s0, pairs@[k]));
                        lemma_split_extend(s1, e1, s2, e2, pairs@[k].0, pairs@[k].1);
                    }
                }
            }
            m = m + 1;
        }
        proof {
            let s2 = store.terms();
            let e2 = self@;
            assert forall|k: int, x: TermId|
                0 <= k < given.len() && #[trigger] subterm(s0, given[k], x) && numeric_equation(
                    s0,
                    x,
                ) implies {
                let a = s0[x as int].args[0];
                let b = s0[x as int].args[1];
                split_pair(s2, e2, a, b) || split_pair(s2, e2, b, a)
            } by {
                let (a, b) = (s0[x as int].args[0], s0[x as int].args[1]);
                assert(pair_listed(pairs@, a, b));
                if pairs@.contains((a, b)) {
                    let j = choose|j: int| 0 <= j < pairs@.len() && pairs@[j] == (a, b);
                    assert(split_pair(s2, e2, pairs@[j].0, pairs@[j].1));
                } else {
                    let j = choose|j: int| 0 <= j < pairs@.len() && pairs@[j] == (b, a);
                    assert(split_pair(s2, e2, pairs@[j].0, pairs@[j].1));
                }
            }
        }
    }
}

/// The most pairs of a term and a constant that are tied.
pub const MAX_CONSTANT_PAIRS: usize = 4096;

/// The atoms that compare `t` with the literal `c`.
pub open spec fn constant_atoms(
    s: Seq<TermView>,
    t: TermId,
    c: TermId,
    eq: TermId,
    le: TermId,
    ge: TermId,
) -> bool {
    &&& t < s.len() && c < s.len()
    &&& relates(s, eq, Op::Eq, t, c)
    &&& relates(s, le, Op::Le, t, c)
    &&& relates(s, ge, Op::Ge, t, c)
}

/// The clauses that tie the equation with a constant to the two bounds.
pub open spec fn tied(clauses: Seq<Seq<Lit>>, eq: Lit, le: Lit, ge: Lit) -> bool {
    &&& clauses.contains(seq![eq.negated(), le])
    &&& clauses.contains(seq![eq.negated(), ge])
    &&& clauses.contains(seq![eq, le.negated(), ge.negated()])
}

/// The literals stand for the atoms of a term and a literal of value `n`.
pub open spec fn constant_lits(
    s: Seq<TermView>,
    e: GoalView,
    t: TermId,
    n: i64,
    eq: Lit,
    le: Lit,
    ge: Lit,
) -> bool {
    exists|c: TermId, x: TermId, y: TermId, z: TermId| #[trigger]
        constant_atoms(s, t, c, x, y, z) && int_literal(s, c) == Some(n) && encoded_as(s, e, eq,
            x,
        ) && encoded_as(s, e, le, y) && encoded_as(s, e, ge, z)
}

/// The equation of `t` with `n` is tied to the two bounds.
pub open spec fn constant_tied(s: Seq<TermView>, e: GoalView, t: TermId, n: i64) -> bool {
    exists|eq: Lit, le: Lit, ge: Lit| #[trigger]
        tied(e.clauses, eq, le, ge) && constant_lits(s, e, t, n, eq, le, ge)
}

proof fn lemma_tied_extend(
    s0: Seq<TermView>,
    e0: GoalView,
    s1: Seq<TermView>,
    e1: GoalView,
    t: TermId,
    n: i64,
)
    requires
        goal_inv(s0, e0),
        step(s0, e0, s1, e1),
        constant_tied(s0, e0, t, n),
    ensures
        constant_tied(s1, e1, t, n),
{
    let (eq, le, ge) = choose|eq: Lit, le: Lit, ge: Lit| #[trigger]
        tied(e0.clauses, eq, le, ge) && constant_lits(s0, e0, t, n, eq, le, ge);
    let (c, x, y, z) = choose|c: TermId, x: TermId, y: TermId, z: TermId| #[trigger]
        constant_atoms(s0, t, c, x, y, z) && int_literal(s0, c) == Some(n) && encoded_as(s0, e0, eq, x) && encoded_as(s0, e0, le, y) && encoded_as(s0, e0, ge, z);
    lemma_means_extend(s0, e0.term_of, s1, e1.term_of, eq, x);
    lemma_means_extend(s0, e0.term_of, s1, e1.term_of, le, y);
    lemma_means_extend(s0, e0.term_of, s1, e1.term_of, ge, z);
    assert(s1[c as int] == s0[c as int]);
    assert(constant_atoms(s1, t, c, x, y, z));
    crate::domains::lemma_contains_grow(e0.clauses, e1.clauses, seq![eq.negated(), le]);
    crate::domains::lemma_contains_grow(e0.clauses, e1.clauses, seq![eq.negated(), ge]);
    crate::domains::lemma_contains_grow(
        e0.clauses,
        e1.clauses,
        seq![eq, le.negated(), ge.negated()],
    );
    assert(tied(e1.clauses, eq, le, ge));
}

proof fn lemma_tie_valid(
    s: Seq<TermView>,
    term_of: Seq<TermId>,
    t: TermId,
    c: TermId,
    x: TermId,
    y: TermId,
    z: TermId,
    eq: Lit,
    le: Lit,
    ge: Lit,
)
    requires
        terms_wf(s),
        numeric_sort(s[t as int].sort),
        constant_atoms(s, t, c, x, y, z),
        means(s, term_of, eq, x),
        means(s, term_of, le, y),
        means(s, term_of, ge, z),
    ensures
        valid_clause(s, term_of, seq![eq.negated(), le]),
        valid_clause(s, term_of, seq![eq.negated(), ge]),
        valid_clause(s, term_of, seq![eq, le.negated(), ge.negated()]),
{
    let c1 = seq![eq.negated(), le];
    let c2 = seq![eq.negated(), ge];
    let c3 = seq![eq, le.negated(), ge.negated()];
    assert forall|i: Interp|
        #![trigger clause_true(s, i, term_of, c1)]
        #![trigger clause_true(s, i, term_of, c2)]
        #![trigger clause_true(s, i, term_of, c3)]
        clause_true(s, i, term_of, c1) && clause_true(s, i, term_of, c2)
        && clause_true(s, i, term_of, c3) by {
        lemma_order_value(s, i, x, Op::Eq, t, c);
        lemma_order_value(s, i, y, Op::Le, t, c);
        lemma_order_value(s, i, z, Op::Ge, t, c);
        assert(lit_true(s, i, term_of, eq) == holds(s, i, x));
        assert(lit_true(s, i, term_of, le) == holds(s, i, y));
        assert(lit_true(s, i, term_of, ge) == holds(s, i, z));
        assert(lit_true(s, i, term_of, c1[0]) || lit_true(s, i, term_of, c1[1]));
        assert(lit_true(s, i, term_of, c2[0]) || lit_true(s, i, term_of, c2[1]));
        assert(lit_true(s, i, term_of, c3[0]) || lit_true(s, i, term_of, c3[1]) || lit_true(
            s,
            i,
            term_of,
            c3[2],
        ));
    }
}

impl GoalState {
    /// The literals of the atoms that compare a term with a constant.
    fn constant_literals(&mut self, store: &mut TermStore, t: TermId, n: i64) -> (r: (
        Lit,
        Lit,
        Lit,
    ))
        requires
            goal_inv(old(store).terms(), old(self)@),
            t < old(store).terms().len(),
            old(store).terms()[t as int].sort == INT_SORT,
            old(store).terms()[t as int].op != Op::IntConst,
        ensures
            grew(old(store), final(store)),
            good(old(store).terms(), old(self)@, final(store).terms(), final(self)@),
            constant_lits(final(store).terms(), final(self)@, t, n, r.0, r.1, r.2),
    {
        let ghost s0 = store.terms();
        let ghost e0 = self@;
        let c = store.mk_int(n);
        let ghost s1 = store.terms();
        proof {
            assert(s1[t as int] == s0[t as int]);
            lemma_int_node(s1, c, n);
        }
        let x = store.mk_eq(t, c);
        let ghost s2 = store.terms();
        let y = store.mk_le(t, c);
        let ghost s3 = store.terms();
        let z = store.mk_ge(t, c);
        let ghost s4 = store.terms();
        proof {
            lemma_good_grow(s0, s4, e0);
            assert(s4[x as int] == s2[x as int] && s4[y as int] == s3[y as int]);
            assert(s4[c as int] == s1[c as int]);
            assert(constant_atoms(s4, t, c, x, y, z));
        }
        let eq = self.encode(x, store);
        let ghost s5 = store.terms();
        let ghost e5 = self@;
        let le = self.encode(y, store);
        let ghost s6 = store.terms();
        let ghost e6 = self@;
        let ge = self.encode(z, store);
        proof {
            let s7 = store.terms();
            let e7 = self@;
            lemma_good_trans(s0, e0, s4, e0, s5, e5);
            lemma_good_trans(s0, e0, s5, e5, s6, e6);
            lemma_good_trans(s0, e0, s6, e6, s7, e7);
            lemma_means_extend(s5, e5.term_of, s6, e6.term_of, eq, x);
            lemma_means_extend(s6, e6.term_of, s7, e7.term_of, eq, x);
            lemma_means_extend(s6, e6.term_of, s7, e7.term_of, le, y);
            assert(s7[x as int] == s4[x as int] && s7[y as int] == s4[y as int] && s7[z as int]
                == s4[z as int] && s7[c as int] == s4[c as int]);
            assert(constant_atoms(s7, t, c, x, y, z));
        }
        (eq, le, ge)
    }

    /// Notes that a term and a constant have been tied.
    fn note_tie(&mut self, Ghost(s): Ghost<Seq<TermView>>, t: TermId, n: i64)
        requires
            goal_inv(s, old(self)@),
        ensures
            keeps(s, old(self)@, s, final(self)@),
            final(self)@.clauses == old(self)@.clauses,
            final(self)@.term_of == old(self)@.term_of,
            final(self)@.j.const_axioms == old(self)@.j.const_axioms.push((t, n)),
    {
        let ghost e0 = self@;
        self.arith_const_axiom_pairs.push((t, n));
        self.trail.push(TrailOp::ArithConstAxiomAdded { term: t, const_val: n });
        proof {
            let e1 = self@;
            assert(e1.clauses =~= e0.clauses);
            assert(e1.parsed =~= e0.parsed);
            assert(e1.cache =~= e0.cache);
            assert(e1.j.const_axioms.drop_last() =~= e0.j.const_axioms);
            crate::state::lemma_undo_last(
                e0,
                e1,
                TrailOp::ArithConstAxiomAdded { term: t, const_val: n },
            );
            assert(e1.requests.take(e0.requests.len() as int) =~= e0.requests);
            assert(e1 == (GoalView {
                j: Journaled { const_axioms: e1.j.const_axioms, ..e0.j },
                trail: e1.trail,
                ..e0
            }));
            assert(goal_inv(s, e1));
            assert(step(s, e0, s, e1));
            lemma_good_quiet(s, e0, s, e1);
        }
    }

    /// Ties the equation of a term and a constant to the two bounds.
    fn tie_constant(&mut self, store: &mut TermStore, t: TermId, n: i64)
        requires
            goal_inv(old(store).terms(), old(self)@),
            t < old(store).terms().len(),
            old(store).terms()[t as int].sort == INT_SORT,
            old(store).terms()[t as int].op != Op::IntConst,
        ensures
            grew(old(store), final(store)),
            keeps(old(store).terms(), old(self)@, final(store).terms(), final(self)@),
            constant_tied(final(store).terms(), final(self)@, t, n),
            final(self)@.j.const_axioms.contains((t, n)),
            new_ties(final(store).terms(), old(self)@, final(self)@),
    {
        let ghost s0 = store.terms();
        let ghost e0 = self@;
        let (eq, le, ge) = self.constant_literals(store, t, n);
        let ghost s1 = store.terms();
        let ghost e1 = self@;
        proof {
            let (c, x, y, z) = choose|c: TermId, x: TermId, y: TermId, z: TermId| #[trigger]
                constant_atoms(s1, t, c, x, y, z) && int_literal(s1, c) == Some(n) && means(
                    s1,
                    e1.term_of,
                    eq,
                    x,
                ) && means(s1, e1.term_of, le, y) && means(s1, e1.term_of, ge, z);
            assert(s1[t as int] == s0[t as int]);
            lemma_tie_valid(s1, e1.term_of, t, c, x, y, z, eq, le, ge);
        }
        self.add_axiom(Ghost(s1), two(eq.negate(), le));
        let ghost e2 = self@;
        self.add_axiom(Ghost(s1), two(eq.negate(), ge));
        let ghost e3 = self@;
        self.add_axiom(Ghost(s1), three(eq, le.negate(), ge.negate()));
        let ghost e4 = self@;
        self.note_tie(Ghost(s1), t, n);
        proof {
            let e5 = self@;
            lemma_good_trans(s0, e0, s1, e1, s1, e2);
            lemma_good_trans(s0, e0, s1, e2, s1, e3);
            lemma_good_trans(s0, e0, s1, e3, s1, e4);
            lemma_keeps_trans(s0, e0, s1, e4, s1, e5);
            let k = e1.clauses.len() as int;
            assert(e5.clauses[k] == seq![eq.negated(), le]);
            assert(e5.clauses[k + 1] == seq![eq.negated(), ge]);
            assert(e5.clauses[k + 2] == seq![eq, le.negated(), ge.negated()]);
            assert(tied(e5.clauses, eq, le, ge));
            assert(e5.j.const_axioms[e4.j.const_axioms.len() as int] == (t, n));
            assert(e4.j.const_axioms == e0.j.const_axioms);
        }
    }
}

proof fn lemma_int_node(s: Seq<TermView>, c: TermId, n: i64)
    requires
        node_at(s, c, crate::constructors::int_node(n)),
    ensures
        int_literal(s, c) == Some(n),
{
    crate::numbers::lemma_word_digits(crate::numbers::magnitude(n as int));
}

/// The integer literals within the first `n` assertions.
pub open spec fn asserted_literal(s: Seq<TermView>, assertions: Seq<TermId>, n: int, c: i64) -> bool {
    exists|k: int, x: TermId|
        0 <= k < n && #[trigger] subterm(s, assertions[k], x) && int_literal(s, x) == Some(c)
}

/// The integer literals within the assertions, ascending.
fn literal_values(store: &TermStore, assertions: &Vec<TermId>) -> (keys: Vec<i64>)
    requires
        store.wf(),
        forall|k: int| 0 <= k < assertions@.len() ==> (#[trigger] assertions@[k]) < store.terms().len(),
    ensures
        ascending_keys(keys@),
        forall|c: i64| #[trigger]
            keys@.contains(c) <==> asserted_literal(
                store.terms(),
                assertions@,
                assertions@.len() as int,
                c,
            ),
{
    let ghost s = store.terms();
    let mut keys: Vec<i64> = Vec::new();
    let mut n: usize = 0;
    while n < assertions.len()
        invariant
            n <= assertions.len(),
            store.wf(),
            s == store.terms(),
            forall|k: int| 0 <= k < assertions@.len() ==> (#[trigger] assertions@[k]) < s.len(),
            ascending_keys(keys@),
            forall|c: i64| #[trigger]
                keys@.contains(c) <==> asserted_literal(s, assertions@, n as int, c),
        decreases assertions.len() - n,
    {
        let ghost base = keys@;
        let t: TermId = assertions[n];
        assert(assertions@[n as int] < s.len());
        let list = collect_subterms(store, t);
        let mut m: usize = 0;
        while m < list.len()
            invariant
                m <= list.len(),
                s == store.terms(),
                ascending_keys(keys@),
                forall|c: i64| #[trigger]
                    keys@.contains(c) <==> base.contains(c) || exists|j: int|
                        0 <= j < m && int_literal(s, #[trigger] list@[j]) == Some(c),
            decreases list.len() - m,
        {
            let ghost before = keys@;
            let found = int_const_val(list[m], store);
            if let Some(v) = found {
                insert_key(&mut keys, v);
            }
            proof {
                assert forall|c: i64| #[trigger] keys@.contains(c) <==> base.contains(c) || exists|
                    j: int,
                |
                    0 <= j < m + 1 && int_literal(s, #[trigger] list@[j]) == Some(c) by {
                    assert(int_literal(s, list@[m as int]) == found);
                    assert(keys@.contains(c) <==> before.contains(c) || found == Some(c));
                }
            }
            m = m + 1;
        }
        proof {
            assert forall|c: i64| #[trigger] keys@.contains(c) <==> asserted_literal(
                s,
                assertions@,
                n + 1,
                c,
            ) by {
                if asserted_literal(s, assertions@, n + 1, c) {
                    let (k, x) = choose|k: int, x: TermId|
                        0 <= k < n + 1 && #[trigger] subterm(s, assertions@[k], x) && int_literal(
                            s,
                            x,
                        ) == Some(c);
                    if k < n {
                        assert(asserted_literal(s, assertions@, n as int, c));
                        assert(base.contains(c));
                    } else {
                        assert(list@.contains(x));
                        let j = choose|j: int| 0 <= j < list@.len() && list@[j] == x;
                        assert(int_literal(s, list@[j]) == Some(c));
                    }
                }
                if keys@.contains(c) {
                    if base.contains(c) {
                        assert(asserted_literal(s, assertions@, n as int, c));
                        let (k, x) = choose|k: int, x: TermId|
                            0 <= k < n && #[trigger] subterm(s, assertions@[k], x) && int_literal(
                                s,
                                x,
                            ) == Some(c);
                        assert(subterm(s, assertions@[k], x));
                    } else {
                        let j = choose|j: int|
                            0 <= j < list@.len() && int_literal(s, #[trigger] list@[j]) == Some(c);
                        assert(list@.contains(list@[j]));
                        assert(subterm(s, assertions@[n as int], list@[j]));
                    }
                }
            }
        }
        n = n + 1;
    }
    keys
}

/// The integer variables among the results, ascending.
pub open spec fn integer_results(s: Seq<TermView>, results: Set<TermId>, list: Seq<TermId>) -> bool {
    &&& forall|j: int, k: int| 0 <= j < k < list.len() ==> list[j] < list[k]
    &&& forall|t: TermId| #[trigger]
        list.contains(t) <==> results.contains(t) && t < s.len() && s[t as int].sort == INT_SORT
            && s[t as int].op == Op::Var
}

fn list_integer_results(store: &TermStore, results: &FxHashSet<TermId>) -> (list: Vec<TermId>)
    ensures
        integer_results(store.terms(), results@, list@),
{
    let ghost s = store.terms();
    let all = set_sorted_items(results);
    let mut list: Vec<TermId> = Vec::new();
    let mut n: usize = 0;
    while n < all.len()
        invariant
            n <= all.len(),
            s == store.terms(),
            all@.to_set() == results@,
            forall|j: int, k: int| 0 <= j < k < all@.len() ==> all@[j] < all@[k],
            forall|j: int, k: int| 0 <= j < k < list@.len() ==> list@[j] < list@[k],
            forall|j: int|
                0 <= j < list@.len() ==> n > 0 && #[trigger] list@[j] <= all@[n - 1]
                    && results@.contains(list@[j]) && list@[j] < s.len() && s[list@[j] as int].sort
                    == INT_SORT && s[list@[j] as int].op == Op::Var,
            forall|j: int|
                0 <= j < n && (#[trigger] all@[j]) < s.len() && s[all@[j] as int].sort == INT_SORT
                    && s[all@[j] as int].op == Op::Var ==> list@.contains(all@[j]),
        decreases all.len() - n,
    {
        let ghost before = list@;
        let t: TermId = all[n];
        proof {
            assert(all@.contains(t));
            assert(all@.to_set().contains(t));
            if n > 0 {
                assert(all@[n - 1] < all@[n as int]);
            }
        }
        let keep = match store.get(t) {
            Some(node) => node.sort == INT_SORT && node.op == Op::Var,
            None => false,
        };
        if keep {
            list.push(t);
            proof {
                crate::domains::lemma_push_contains(before, t);
            }
        }
        n = n + 1;
    }
    proof {
        assert forall|t: TermId| #[trigger] list@.contains(t) <==> results@.contains(t) && t
            < s.len() && s[t as int].sort == INT_SORT && s[t as int].op == Op::Var by {
            if results@.contains(t) {
                assert(all@.to_set().contains(t));
                let j = choose|j: int| 0 <= j < all@.len() && all@[j] == t;
                assert(all@[j] == t);
            }
        }
    }
    list
}

fn lists_tie(pairs: &Vec<(TermId, i64)>, t: TermId, c: i64) -> (r: bool)
    ensures
        r == pairs@.contains((t, c)),
{
    let mut n: usize = 0;
    while n < pairs.len()
        invariant
            n <= pairs.len(),
            forall|k: int| 0 <= k < n ==> #[trigger] pairs@[k] != (t, c),
        decreases pairs.len() - n,
    {
        if pairs[n].0 == t && pairs[n].1 == c {
            assert(pairs@[n as int] == (t, c));
            return true;
        }
        n = n + 1;
    }
    false
}

/// The pairs tied since the state `e0` have their clauses.
pub open spec fn new_ties(s: Seq<TermView>, e0: GoalView, e: GoalView) -> bool {
    forall|k: int|
        e0.j.const_axioms.len() <= k < e.j.const_axioms.len() ==> constant_tied(
            s,
            e,
            (#[trigger] e.j.const_axioms[k]).0,
            e.j.const_axioms[k].1,
        )
}

/// Whether variables are tied to constants: without quantifiers, and where
/// there are not too many pairs.
pub open spec fn ties_apply(e: GoalView, terms: int, consts: int) -> bool {
    !e.quantified && terms * consts <= MAX_CONSTANT_PAIRS
}

impl GoalState {
    /// Ties each of the variables to each of the constants, where they are not
    /// tied yet.
    fn tie_all(&mut self, store: &mut TermStore, terms: &Vec<TermId>, consts: &Vec<i64>)
        requires
            goal_inv(old(store).terms(), old(self)@),
            forall|k: int|
                0 <= k < terms@.len() ==> (#[trigger] terms@[k]) < old(store).terms().len()
                    && old(store).terms()[terms@[k] as int].sort == INT_SORT
                    && old(store).terms()[terms@[k] as int].op == Op::Var,
        ensures
            grew(old(store), final(store)),
            keeps(old(store).terms(), old(self)@, final(store).terms(), final(self)@),
            new_ties(final(store).terms(), old(self)@, final(self)@),
            forall|j: int, k: int|
                0 <= j < terms@.len() && 0 <= k < consts@.len()
                    ==> final(self)@.j.const_axioms.contains(
                    (#[trigger] terms@[j], #[trigger] consts@[k]),
                ),
    {
        let ghost s0 = store.terms();
        let ghost e0 = self@;
        let mut i: usize = 0;
        proof {
            lemma_good_refl(s0, e0);
        }
        while i < terms.len()
            invariant
                i <= terms.len(),
                s0 == old(store).terms(),
                e0 == old(self)@,
                goal_inv(s0, e0),
                forall|k: int|
                    0 <= k < terms@.len() ==> (#[trigger] terms@[k]) < s0.len()
                        && s0[terms@[k] as int].sort == INT_SORT && s0[terms@[k] as int].op
                        == Op::Var,
                grew(old(store), store),
                keeps(s0, e0, store.terms(), self@),
                new_ties(store.terms(), e0, self@),
                forall|j: int, k: int|
                    0 <= j < i && 0 <= k < consts@.len() ==> self@.j.const_axioms.contains(
                        (#[trigger] terms@[j], #[trigger] consts@[k]),
                    ),
            decreases terms.len() - i,
        {
            let t: TermId = terms[i];
            assert(terms@[i as int] < s0.len());
            let mut m: usize = 0;
            while m < consts.len()
                invariant
                    i < terms.len(),
                    m <= consts.len(),
                    t == terms@[i as int],
                    s0 == old(store).terms(),
                    e0 == old(self)@,
                    goal_inv(s0, e0),
                    t < s0.len(),
                    s0[t as int].sort == INT_SORT,
                    s0[t as int].op == Op::Var,
                    grew(old(store), store),
                    keeps(s0, e0, store.terms(), self@),
                    new_ties(store.terms(), e0, self@),
                    forall|j: int, k: int|
                        (0 <= j < i && 0 <= k < consts@.len()) || (j == i && 0 <= k < m)
                            ==> self@.j.const_axioms.contains(
                            (#[trigger] terms@[j], #[trigger] consts@[k]),
                        ),
                decreases consts.len() - m,
            {
                let ghost s1 = store.terms();
                let ghost e1 = self@;
                let c: i64 = consts[m];
                if !lists_tie(&self.arith_const_axiom_pairs, t, c) {
                    assert(s1[t as int] == s0[t as int]);
                    self.tie_constant(store, t, c);
                    proof {
                        let s2 = store.terms();
                        let e2 = self@;
                        lemma_keeps_trans(s0, e0, s1, e1, s2, e2);
                        lemma_new_ties(s0, e0, s1, e1, s2, e2, t, c);
                        assert forall|j: int, k: int|
                            (0 <= j < i && 0 <= k < consts@.len()) || (j == i && 0 <= k < m
                                + 1) implies e2.j.const_axioms.contains(
                            (#[trigger] terms@[j], #[trigger] consts@[k]),
                        ) by {
                            if !(j == i && k == m) {
                                lemma_tie_stays(e1, e2, (terms@[j], consts@[k]));
                            }
                        }
                    }
                }
                m = m + 1;
            }
            i = i + 1;
        }
    }

    /// Ties the variables of conditionals to the constants of the assertions.
    pub fn axiomatize_arith_constant_equalities(
        &mut self,
        store: &mut TermStore,
        results: &FxHashSet<TermId>,
    )
        requires
            goal_inv(old(store).terms(), old(self)@),
            forall|k: int|
                0 <= k < old(self)@.j.assertions.len() ==> (#[trigger] old(self)@.j.assertions[k])
                    < old(store).terms().len(),
        ensures
            grew(old(store), final(store)),
            keeps(old(store).terms(), old(self)@, final(store).terms(), final(self)@),
            new_ties(final(store).terms(), old(self)@, final(self)@),
            exists|terms: Seq<TermId>, consts: Seq<i64>|
                #[trigger] integer_results(old(store).terms(), results@, terms)
                    && #[trigger] ascending_keys(consts) && (forall|c: i64| #[trigger]
                    consts.contains(c) <==> asserted_literal(
                        old(store).terms(),
                        old(self)@.j.assertions,
                        old(self)@.j.assertions.len() as int,
                        c,
                    )) && if ties_apply(old(self)@, terms.len() as int, consts.len() as int) {
                    forall|j: int, k: int|
                        0 <= j < terms.len() && 0 <= k < consts.len()
                            ==> final(self)@.j.const_axioms.contains(
                            (#[trigger] terms[j], #[trigger] consts[k]),
                        )
                } else {
                    final(self)@ == old(self)@ && final(store).terms() == old(store).terms()
                },
    {
        let ghost s0 = store.terms();
        let ghost e0 = self@;
        proof {
            lemma_good_refl(s0, e0);
        }
        let terms = list_integer_results(store, results);
        assert forall|k: int| 0 <= k < self.assertions@.len() implies (#[trigger] self.assertions@[k])
            < s0.len() by {
            assert(e0.j.assertions[k] < s0.len());
        }
        let consts = literal_values(store, &self.assertions);
        assert(integer_results(s0, results@, terms@) && ascending_keys(consts@));
        if self.has_quantifiers {
            return;
        }
        proof {
            assert(terms.len() * consts.len() <= 0xffff_ffff_ffff_ffff * 0xffff_ffff_ffff_ffff)
                by (nonlinear_arith)
                requires
                    terms.len() <= 0xffff_ffff_ffff_ffff,
                    consts.len() <= 0xffff_ffff_ffff_ffff,
            ;
        }
        if terms.len() as u128 * consts.len() as u128 > MAX_CONSTANT_PAIRS as u128 {
            return;
        }
        proof {
            assert forall|k: int| 0 <= k < terms@.len() implies (#[trigger] terms@[k]) < s0.len()
                && s0[terms@[k] as int].sort == INT_SORT && s0[terms@[k] as int].op == Op::Var by {
                assert(terms@.contains(terms@[k]));
            }
        }
        self.tie_all(store, &terms, &consts);
    }
}

proof fn lemma_tie_stays(e0: GoalView, e1: GoalView, p: (TermId, i64))
    requires
        e0.j.const_axioms.len() <= e1.j.const_axioms.len(),
        forall|k: int|
            0 <= k < e0.j.const_axioms.len() ==> #[trigger] e1.j.const_axioms[k]
                == e0.j.const_axioms[k],
        e0.j.const_axioms.contains(p),
    ensures
        e1.j.const_axioms.contains(p),
{
    let k = choose|k: int| 0 <= k < e0.j.const_axioms.len() && e0.j.const_axioms[k] == p;
    assert(e1.j.const_axioms[k] == p);
}

proof fn lemma_new_ties(
    s0: Seq<TermView>,
    e0: GoalView,
    s1: Seq<TermView>,
    e1: GoalView,
    s2: Seq<TermView>,
    e2: GoalView,
    t: TermId,
    c: i64,
)
    requires
        goal_inv(s1, e1),
        step(s1, e1, s2, e2),
        new_ties(s1, e0, e1),
        new_ties(s2, e1, e2),
    ensures
        new_ties(s2, e0, e2),
{
    assert forall|k: int| e0.j.const_axioms.len() <= k < e2.j.const_axioms.len() implies constant_tied(
        s2,
        e2,
        (#[trigger] e2.j.const_axioms[k]).0,
        e2.j.const_axioms[k].1,
    ) by {
        if k < e1.j.const_axioms.len() {
            assert(e2.j.const_axioms[k] == e1.j.const_axioms[k]);
            lemma_tied_extend(
                s1,
                e1,
                s2,
                e2,
                e1.j.const_axioms[k].0,
                e1.j.const_axioms[k].1,
            );
        }
    }
}

/// The most equations between shared terms that are created at once.
pub const MAX_CARE_ATOMS: usize = 1024;

/// The most shared terms for which equations are created.
pub const MAX_CARE_INTERFACE: usize = 24;

/// The pair with the smaller term first.
pub open spec fn canonical(a: TermId, b: TermId) -> (TermId, TermId) {
    if a < b {
        (a, b)
    } else {
        (b, a)
    }
}

fn lists_care(pairs: &Vec<(TermId, TermId)>, p: (TermId, TermId)) -> (r: bool)
    ensures
        r == pairs@.contains(p),
{
    let mut n: usize = 0;
    while n < pairs.len()
        invariant
            n <= pairs.len(),
            forall|k: int| 0 <= k < n ==> #[trigger] pairs@[k] != p,
        decreases pairs.len() - n,
    {
        if pairs[n].0 == p.0 && pairs[n].1 == p.1 {
            assert(pairs@[n as int] == p);
            return true;
        }
        n = n + 1;
    }
    false
}

/// The equation of the pair has the variable `v`.
pub open spec fn care_atom(s: Seq<TermView>, e: GoalView, a: TermId, b: TermId, v: Var) -> bool {
    exists|eq: TermId, l: Lit|
        is_equation(s, a, b, eq) && eq < s.len() && #[trigger] encoded_as(s, e, l, eq) && l.var
            == v
}

/// A pair is a candidate: the engines do not know whether its terms are equal.
pub open spec fn undecided_at(undecided: Seq<Vec<bool>>, i: int, j: int) -> bool {
    i < undecided.len() && j < undecided[i]@.len() && undecided[i]@[j]
}

impl GoalState {
    /// Notes that the equation of a pair has been created.
    fn note_care(&mut self, Ghost(s): Ghost<Seq<TermView>>, p: (TermId, TermId))
        requires
            goal_inv(s, old(self)@),
        ensures
            keeps(s, old(self)@, s, final(self)@),
            final(self)@.clauses == old(self)@.clauses,
            final(self)@.term_of == old(self)@.term_of,
            final(self)@.j.care_pairs == old(self)@.j.care_pairs.push(p),
    {
        let ghost e0 = self@;
        self.care_split_pairs.push(p);
        self.trail.push(TrailOp::CareSplitAdded { a: p.0, b: p.1 });
        proof {
            let e1 = self@;
            assert(e1.clauses =~= e0.clauses);
            assert(e1.parsed =~= e0.parsed);
            assert(e1.cache =~= e0.cache);
            assert(e1.j.care_pairs.drop_last() =~= e0.j.care_pairs);
            crate::state::lemma_undo_last(e0, e1, TrailOp::CareSplitAdded { a: p.0, b: p.1 });
            assert(e1.requests.take(e0.requests.len() as int) =~= e0.requests);
            assert(e1 == (GoalView {
                j: Journaled { care_pairs: e1.j.care_pairs, ..e0.j },
                trail: e1.trail,
                ..e0
            }));
            assert(goal_inv(s, e1));
            assert(step(s, e0, s, e1));
            lemma_good_quiet(s, e0, s, e1);
        }
    }

    /// Creates the equation of a pair.
    fn create_care_atom(&mut self, store: &mut TermStore, a: TermId, b: TermId) -> (v: Var)
        requires
            goal_inv(old(store).terms(), old(self)@),
            a < old(store).terms().len(),
            b < old(store).terms().len(),
            old(store).terms()[a as int].sort == old(store).terms()[b as int].sort,
        ensures
            grew(old(store), final(store)),
            keeps(old(store).terms(), old(self)@, final(store).terms(), final(self)@),
            care_atom(final(store).terms(), final(self)@, a, b, v),
            final(self)@.j.care_pairs == old(self)@.j.care_pairs.push(canonical(a, b)),
    {
        let ghost s0 = store.terms();
        let ghost e0 = self@;
        let eq = store.mk_eq(a, b);
        let ghost s1 = store.terms();
        proof {
            lemma_good_grow(s0, s1, e0);
        }
        let l = self.encode(eq, store);
        let ghost s2 = store.terms();
        let ghost e2 = self@;
        let p = if a < b {
            (a, b)
        } else {
            (b, a)
        };
        self.note_care(Ghost(s2), p);
        proof {
            lemma_good_trans(s0, e0, s1, e0, s2, e2);
            lemma_keeps_trans(s0, e0, s2, e2, s2, self@);
            assert(is_equation(s2, a, b, eq)) by {
                if a != b {
                    assert(s2[eq as int] == s1[eq as int]);
                }
            }
            assert(encoded_as(s2, self@, l, eq));
        }
        l.var
    }

    /// Creates equations between shared terms, so that the search can decide
    /// them.  `undecided` says of each pair of positions whether the engines
    /// leave it open.  Gives the variables that are to be tried true first.
    pub fn pre_encode_care_graph_atoms(
        &mut self,
        store: &mut TermStore,
        shared: &Vec<TermId>,
        undecided: &Vec<Vec<bool>>,
    ) -> (vars: Vec<Var>)
        requires
            goal_inv(old(store).terms(), old(self)@),
            forall|k: int| 0 <= k < shared@.len() ==> (#[trigger] shared@[k]) < old(store).terms().len(),
        ensures
            grew(old(store), final(store)),
            keeps(old(store).terms(), old(self)@, final(store).terms(), final(self)@),
            vars@.len() <= MAX_CARE_ATOMS,
            final(self)@.j.care_pairs.len() == old(self)@.j.care_pairs.len() + vars@.len(),
            forall|n: int|
                0 <= n < vars@.len() ==> care_created(
                    old(store).terms(),
                    final(store).terms(),
                    final(self)@,
                    shared@,
                    undecided@,
                    final(self)@.j.care_pairs[old(self)@.j.care_pairs.len() + n],
                    #[trigger] vars@[n],
                ),
            old(self)@.quantified || shared@.len() > MAX_CARE_INTERFACE ==> final(self)@ == old(self)@ && final(store).terms() == old(store).terms(),
            !old(self)@.quantified && shared@.len() <= MAX_CARE_INTERFACE && vars@.len()
                < MAX_CARE_ATOMS ==> forall|i: int, j: int|
                0 <= i < j < shared@.len() && undecided_at(undecided@, i, j) && old(store).terms()[#[trigger] shared@[i] as int].sort == old(store).terms()[#[trigger] shared@[j] as int].sort
                    ==> final(self)@.j.care_pairs.contains(canonical(shared@[i], shared@[j])),
    {
        let ghost s0 = store.terms();
        let ghost e0 = self@;
        let mut vars: Vec<Var> = Vec::new();
        proof {
            lemma_good_refl(s0, e0);
        }
        if self.has_quantifiers || shared.len() > MAX_CARE_INTERFACE {
            return vars;
        }
        let mut i: usize = 0;
        while i < shared.len()
            invariant
                i <= shared.len(),
                s0 == old(store).terms(),
                e0 == old(self)@,
                goal_inv(s0, e0),
                forall|k: int| 0 <= k < shared@.len() ==> (#[trigger] shared@[k]) < s0.len(),
                grew(old(store), store),
                keeps(s0, e0, store.terms(), self@),
                vars@.len() <= MAX_CARE_ATOMS,
                self@.j.care_pairs.len() == e0.j.care_pairs.len() + vars@.len(),
                forall|n: int|
                    0 <= n < vars@.len() ==> care_created(
                        s0,
                        store.terms(),
                        self@,
                        shared@,
                        undecided@,
                        self@.j.care_pairs[e0.j.care_pairs.len() + n],
                        #[trigger] vars@[n],
                    ),
                vars@.len() < MAX_CARE_ATOMS ==> forall|p: int, q: int|
                    0 <= p < i && p < q < shared@.len() && undecided_at(undecided@, p, q)
                        && s0[#[trigger] shared@[p] as int].sort
                        == s0[#[trigger] shared@[q] as int].sort ==> self@.j.care_pairs.contains(
                        canonical(shared@[p], shared@[q]),
                    ),
            decreases shared.len() - i,
        {
            let a: TermId = shared[i];
            assert(shared@[i as int] < s0.len());
            let mut j: usize = i + 1;
            while j < shared.len()
                invariant
                    i < j <= shared.len(),
                    a == shared@[i as int],
                    a < s0.len(),
                    s0 == old(store).terms(),
                    e0 == old(self)@,
                    goal_inv(s0, e0),
                    forall|k: int| 0 <= k < shared@.len() ==> (#[trigger] shared@[k]) < s0.len(),
                    grew(old(store), store),
                    keeps(s0, e0, store.terms(), self@),
                    vars@.len() <= MAX_CARE_ATOMS,
                    self@.j.care_pairs.len() == e0.j.care_pairs.len() + vars@.len(),
                    forall|n: int|
                        0 <= n < vars@.len() ==> care_created(
                            s0,
                            store.terms(),
                            self@,
                            shared@,
                            undecided@,
                            self@.j.care_pairs[e0.j.care_pairs.len() + n],
                            #[trigger] vars@[n],
                        ),
                    vars@.len() < MAX_CARE_ATOMS ==> forall|p: int, q: int|
                        ((0 <= p < i && p < q < shared@.len()) || (p == i && i < q < j))
                            && undecided_at(undecided@, p, q) && s0[#[trigger] shared@[p] as int].sort
                            == s0[#[trigger] shared@[q] as int].sort
                            ==> self@.j.care_pairs.contains(canonical(shared@[p], shared@[q])),
                decreases shared.len() - j,
            {
                let ghost s1 = store.terms();
                let ghost e1 = self@;
                let ghost vars1 = vars@;
                let b: TermId = shared[j];
                assert(shared@[j as int] < s0.len());
                let open = i < undecided.len() && j < undecided[i].len() && undecided[i][j];
                assert(open == undecided_at(undecided@, i as int, j as int));
                proof {
                    assert(s1[a as int] == s0[a as int] && s1[b as int] == s0[b as int]);
                }
                let p = if a < b {
                    (a, b)
                } else {
                    (b, a)
                };
                if open && vars.len() < MAX_CARE_ATOMS && store.nodes[a].sort == store.nodes[b].sort
                    && !lists_care(&self.care_split_pairs, p) {
                    let v = self.create_care_atom(store, a, b);
                    vars.push(v);
                    proof {
                        let s2 = store.terms();
                        let e2 = self@;
                        lemma_keeps_trans(s0, e0, s1, e1, s2, e2);
                        assert forall|n: int| 0 <= n < vars@.len() implies care_created(
                            s0,
                            s2,
                            e2,
                            shared@,
                            undecided@,
                            e2.j.care_pairs[e0.j.care_pairs.len() + n],
                            #[trigger] vars@[n],
                        ) by {
                            if n < vars1.len() {
                                assert(vars@[n] == vars1[n]);
                                assert(e2.j.care_pairs[e0.j.care_pairs.len() + n]
                                    == e1.j.care_pairs[e0.j.care_pairs.len() + n]);
                                lemma_care_extend(
                                    s0,
                                    s1,
                                    e1,
                                    s2,
                                    e2,
                                    shared@,
                                    undecided@,
                                    e1.j.care_pairs[e0.j.care_pairs.len() + n],
                                    vars1[n],
                                );
                            } else {
                                assert(care_pair(
                                    s0,
                                    shared@,
                                    undecided@,
                                    i as int,
                                    j as int,
                                    canonical(a, b),
                                ));
                            }
                        }
                        assert(e2.j.care_pairs[e1.j.care_pairs.len() as int] == canonical(a, b));
                        assert forall|x: int, y: int|
                            ((0 <= x < i && x < y < shared@.len()) || (x == i && i < y < j + 1))
                                && undecided_at(undecided@, x, y)
                                && s0[#[trigger] shared@[x] as int].sort
                                == s0[#[trigger] shared@[y] as int].sort && vars@.len()
                                < MAX_CARE_ATOMS implies e2.j.care_pairs.contains(
                            canonical(shared@[x], shared@[y]),
                        ) by {
                            if !(x == i && y == j) {
                                let c = canonical(shared@[x], shared@[y]);
                                assert(e1.j.care_pairs.contains(c));
                                let k = choose|k: int|
                                    0 <= k < e1.j.care_pairs.len() && e1.j.care_pairs[k] == c;
                                assert(e2.j.care_pairs[k] == c);
                            }
                        }
                    }
                }
                j = j + 1;
            }
            i = i + 1;
        }
        vars
    }
}

/// The pair is that of two open positions of one sort.
pub open spec fn care_pair(
    s0: Seq<TermView>,
    shared: Seq<TermId>,
    undecided: Seq<Vec<bool>>,
    i: int,
    j: int,
    p: (TermId, TermId),
) -> bool {
    &&& 0 <= i < j < shared.len()
    &&& undecided_at(undecided, i, j)
    &&& s0[shared[i] as int].sort == s0[shared[j] as int].sort
    &&& p == canonical(shared[i], shared[j])
}

/// The pair is an open one, and its equation has the variable `v`.
pub open spec fn care_created(
    s0: Seq<TermView>,
    s: Seq<TermView>,
    e: GoalView,
    shared: Seq<TermId>,
    undecided: Seq<Vec<bool>>,
    p: (TermId, TermId),
    v: Var,
) -> bool {
    exists|i: int, j: int| #[trigger]
        care_pair(s0, shared, undecided, i, j, p) && care_atom(s, e, shared[i], shared[j], v)
}

proof fn lemma_care_extend(
    s0: Seq<TermView>,
    s1: Seq<TermView>,
    e1: GoalView,
    s2: Seq<TermView>,
    e2: GoalView,
    shared: Seq<TermId>,
    undecided: Seq<Vec<bool>>,
    p: (TermId, TermId),
    v: Var,
)
    requires
        goal_inv(s1, e1),
        step(s1, e1, s2, e2),
        care_created(s0, s1, e1, shared, undecided, p, v),
    ensures
        care_created(s0, s2, e2, shared, undecided, p, v),
{
    let (i, j) = choose|i: int, j: int| #[trigger]
        care_pair(s0, shared, undecided, i, j, p) && care_atom(s1, e1, shared[i], shared[j], v);
    let (eq, l) = choose|eq: TermId, l: Lit|
        is_equation(s1, shared[i], shared[j], eq) && eq < s1.len() && #[trigger] encoded_as(s1, e1, l,
            eq,
        ) && l.var == v;
    lemma_means_extend(s1, e1.term_of, s2, e2.term_of, l, eq);
    assert(s2[eq as int] == s1[eq as int]);
    assert(is_equation(s2, shared[i], shared[j], eq));
    assert(encoded_as(s2, e2, l, eq));
}

/// The most values of an enumeration.
pub const MAX_ENUMERATION: usize = 64;

/// The variable of an equation with a variable on one side.
pub open spec fn equated_variable(s: Seq<TermView>, x: TermId) -> Option<TermId> {
    if x < s.len() && s[x as int].op == Op::Eq {
        let (l, r) = (s[x as int].args[0], s[x as int].args[1]);
        if crate::aliases::is_var(s, l) {
            Some(l)
        } else if crate::aliases::is_var(s, r) {
            Some(r)
        } else {
            None
        }
    } else {
        None
    }
}

fn variable_of_equation(store: &TermStore, x: TermId) -> (r: Option<TermId>)
    requires
        store.wf(),
    ensures
        r == equated_variable(store.terms(), x),
{
    match store.get(x) {
        None => None,
        Some(node) => {
            assert(node_below(store.terms(), x as int));
            if node.op != Op::Eq {
                return None;
            }
            if crate::strings::is_string_variable(store, node.args[0]) {
                Some(node.args[0])
            } else if crate::strings::is_string_variable(store, node.args[1]) {
                Some(node.args[1])
            } else {
                None
            }
        },
    }
}

/// The disjuncts of nested disjunctions, from left to right.
pub open spec fn or_leaves(s: Seq<TermView>, t: TermId) -> Seq<TermId>
    decreases t, 1int, 0int,
{
    if t < s.len() && s[t as int].op == Op::Or {
        or_leaves_below(s, t, s[t as int].args.len() as int)
    } else {
        seq![t]
    }
}

pub open spec fn or_leaves_below(s: Seq<TermView>, t: TermId, n: int) -> Seq<TermId>
    decreases t, 0int, n,
{
    if n <= 0 || n > s[t as int].args.len() || s[t as int].args[n - 1] >= t {
        Seq::empty()
    } else {
        or_leaves_below(s, t, n - 1) + or_leaves(s, s[t as int].args[n - 1])
    }
}

/// All of the terms equate one variable with something.
pub open spec fn one_variable(s: Seq<TermView>, leaves: Seq<TermId>) -> bool {
    forall|j: int|
        0 <= j < leaves.len() ==> equated_variable(s, #[trigger] leaves[j]) is Some
            && equated_variable(s, leaves[j]) == equated_variable(s, leaves[0])
}

/// The disjunction enumerates values of one variable, not too many.
pub open spec fn enumeration(s: Seq<TermView>, t: TermId) -> bool {
    &&& t < s.len() && s[t as int].op == Op::Or
    &&& 2 <= or_leaves(s, t).len() <= MAX_ENUMERATION
    &&& one_variable(s, or_leaves(s, t))
}

/// Lists the disjuncts; gives whether there are not too many.
fn gather_leaves(store: &TermStore, t: TermId, out: &mut Vec<TermId>) -> (few: bool)
    requires
        store.wf(),
        old(out)@.len() <= MAX_ENUMERATION,
    ensures
        few == (old(out)@.len() + or_leaves(store.terms(), t).len() <= MAX_ENUMERATION),
        few ==> final(out)@ == old(out)@ + or_leaves(store.terms(), t),
    decreases t,
{
    let ghost s = store.terms();
    let ghost first = out@;
    let nested = match store.get(t) {
        None => false,
        Some(node) => node.op == Op::Or,
    };
    if !nested {
        if out.len() >= MAX_ENUMERATION {
            return false;
        }
        out.push(t);
        assert(out@ =~= first + seq![t]);
        return true;
    }
    let node = &store.nodes[t];
    assert(node_below(s, t as int));
    let mut k: usize = 0;
    assert(out@ =~= first + or_leaves_below(s, t, 0));
    while k < node.args.len()
        invariant
            k <= node.args.len(),
            store.wf(),
            s == store.terms(),
            t < s.len(),
            s[t as int].op == Op::Or,
            node_below(s, t as int),
            node.args@ == s[t as int].args,
            first == old(out)@,
            out@ == first + or_leaves_below(s, t, k as int),
            out@.len() <= MAX_ENUMERATION,
        decreases node.args.len() - k,
    {
        assert(s[t as int].args[k as int] < t);
        if !gather_leaves(store, node.args[k], out) {
            proof {
                lemma_leaves_grow(s, t, k + 1, node.args@.len() as int);
            }
            return false;
        }
        assert(out@ =~= first + or_leaves_below(s, t, k + 1));
        k = k + 1;
    }
    true
}

proof fn lemma_leaves_grow(s: Seq<TermView>, t: TermId, n: int, m: int)
    requires
        terms_wf(s),
        t < s.len(),
        0 <= n <= m <= s[t as int].args.len(),
    ensures
        or_leaves_below(s, t, n).len() <= or_leaves_below(s, t, m).len(),
    decreases m,
{
    assert(node_below(s, t as int));
    if n < m {
        lemma_leaves_grow(s, t, n, m - 1);
        assert(s[t as int].args[m - 1] < t);
    }
}

/// The values that a disjunction enumerates of one variable, if it does.
fn read_enumeration(store: &TermStore, t: TermId) -> (r: Option<Vec<TermId>>)
    requires
        store.wf(),
        t < store.terms().len(),
    ensures
        match r {
            Some(leaves) => enumeration(store.terms(), t) && leaves@ == or_leaves(
                store.terms(),
                t,
            ),
            None => !enumeration(store.terms(), t),
        },
{
    let ghost s = store.terms();
    if store.nodes[t].op != Op::Or {
        return None;
    }
    let mut leaves: Vec<TermId> = Vec::new();
    if !gather_leaves(store, t, &mut leaves) {
        return None;
    }
    assert(leaves@ =~= or_leaves(s, t));
    if leaves.len() < 2 {
        return None;
    }
    let first = variable_of_equation(store, leaves[0]);
    let mut n: usize = 0;
    while n < leaves.len()
        invariant
            n <= leaves.len(),
            store.wf(),
            s == store.terms(),
            leaves@ == or_leaves(s, t),
            leaves@.len() >= 2,
            first == equated_variable(s, leaves@[0]),
            forall|j: int|
                0 <= j < n ==> equated_variable(s, #[trigger] leaves@[j]) is Some
                    && equated_variable(s, leaves@[j]) == first,
        decreases leaves.len() - n,
    {
        let v = variable_of_equation(store, leaves[n]);
        let fits = match (v, first) {
            (Some(a), Some(b)) => a == b,
            _ => false,
        };
        if !fits {
            assert(!(equated_variable(s, leaves@[n as int]) is Some && equated_variable(
                s,
                leaves@[n as int],
            ) == equated_variable(s, leaves@[0])));
            return None;
        }
        n = n + 1;
    }
    Some(leaves)
}

/// The variables of the values that a disjunction within the first `n`
/// assertions enumerates.
pub open spec fn enumerated(
    s: Seq<TermView>,
    var_of: Map<TermId, Var>,
    assertions: Seq<TermId>,
    n: int,
    v: Var,
) -> bool {
    exists|k: int, x: TermId, y: TermId|
        0 <= k < n && #[trigger] subterm(s, assertions[k], x) && enumeration(s, x) && or_leaves(
            s,
            x,
        ).contains(y) && #[trigger] var_of.contains_key(y) && var_of[y] == v
}

impl GoalState {
    /// Adds the variables of a list of terms that have one.
    fn add_vars_of(&self, terms: &Vec<TermId>, out: &mut Vec<Var>)
        ensures
            forall|v: Var| #[trigger]
                final(out)@.contains(v) <==> old(out)@.contains(v) || exists|y: TermId|
                    terms@.contains(y) && #[trigger] self@.j.var_of.contains_key(y)
                        && self@.j.var_of[y] == v,
    {
        let ghost first = out@;
        let mut n: usize = 0;
        while n < terms.len()
            invariant
                n <= terms.len(),
                forall|v: Var| #[trigger]
                    out@.contains(v) <==> first.contains(v) || exists|y: TermId|
                        terms@.take(n as int).contains(y) && #[trigger] self@.j.var_of.contains_key(
                            y,
                        ) && self@.j.var_of[y] == v,
            decreases terms.len() - n,
        {
            let ghost before = out@;
            let t: TermId = terms[n];
            let found: Option<Var> = match map_get(&self.term_to_var, t) {
                Some(v) => Some(*v),
                None => None,
            };
            if let Some(v) = found {
                out.push(v);
                proof {
                    crate::domains::lemma_push_contains(before, v);
                }
            }
            proof {
                let a = terms@.take(n as int);
                let b = terms@.take(n + 1);
                assert(b =~= a.push(t));
                crate::domains::lemma_push_contains(a, t);
                assert forall|v: Var| #[trigger] out@.contains(v) <==> first.contains(v) || exists|
                    y: TermId,
                |
                    b.contains(y) && #[trigger] self@.j.var_of.contains_key(y) && self@.j.var_of[y]
                        == v by {
                    assert(before.contains(v) <==> first.contains(v) || exists|y: TermId|
                        a.contains(y) && #[trigger] self@.j.var_of.contains_key(y)
                            && self@.j.var_of[y] == v);
                    if found == Some(v) {
                        assert(self@.j.var_of.contains_key(t));
                    }
                }
            }
            n = n + 1;
        }
        assert(terms@.take(terms@.len() as int) =~= terms@);
    }

    /// The variables of the equations that enumerate the values of a variable:
    /// the search should decide them early, and try them true first.
    pub fn bump_finite_domain_enumerations(&self, store: &TermStore) -> (vars: Vec<Var>)
        requires
            store.wf(),
            forall|k: int|
                0 <= k < self@.j.assertions.len() ==> (#[trigger] self@.j.assertions[k])
                    < store.terms().len(),
        ensures
            forall|v: Var| #[trigger]
                vars@.contains(v) <==> enumerated(
                    store.terms(),
                    self@.j.var_of,
                    self@.j.assertions,
                    self@.j.assertions.len() as int,
                    v,
                ),
    {
        let ghost s = store.terms();
        let ghost given = self@.j.assertions;
        let ghost var_of = self@.j.var_of;
        let mut vars: Vec<Var> = Vec::new();
        let mut n: usize = 0;
        while n < self.assertions.len()
            invariant
                n <= self.assertions.len(),
                store.wf(),
                s == store.terms(),
                given == self.assertions@,
                var_of == self@.j.var_of,
                forall|k: int| 0 <= k < given.len() ==> (#[trigger] given[k]) < s.len(),
                forall|v: Var| #[trigger]
                    vars@.contains(v) <==> enumerated(s, var_of, given, n as int, v),
            decreases self.assertions.len() - n,
        {
            let ghost base = vars@;
            let t: TermId = self.assertions[n];
            assert(given[n as int] < s.len());
            let list = collect_subterms(store, t);
            let mut m: usize = 0;
            while m < list.len()
                invariant
                    m <= list.len(),
                    store.wf(),
                    s == store.terms(),
                    t < s.len(),
                    var_of == self@.j.var_of,
                    lists_reach(list@, s, Map::empty(), t),
                    forall|v: Var| #[trigger]
                        vars@.contains(v) <==> base.contains(v) || enumerated_in(
                            s,
                            var_of,
                            list@,
                            m as int,
                            v,
                        ),
                decreases list.len() - m,
            {
                let ghost before = vars@;
                let x: TermId = list[m];
                proof {
                    assert(list@.contains(x));
                    lemma_reach_le(s, Map::empty(), t, x);
                }
                let found = read_enumeration(store, x);
                if let Some(leaves) = &found {
                    self.add_vars_of(leaves, &mut vars);
                }
                proof {
                    assert forall|v: Var| #[trigger] vars@.contains(v) <==> base.contains(v)
                        || enumerated_in(s, var_of, list@, m + 1, v) by {
                        assert(before.contains(v) <==> base.contains(v) || enumerated_in(
                            s,
                            var_of,
                            list@,
                            m as int,
                            v,
                        ));
                        lemma_enumerated_step(s, var_of, list@, m as int, v);
                    }
                }
                m = m + 1;
            }
            proof {
                assert forall|v: Var| #[trigger] vars@.contains(v) <==> enumerated(
                    s,
                    var_of,
                    given,
                    n + 1,
                    v,
                ) by {
                    assert(base.contains(v) <==> enumerated(s, var_of, given, n as int, v));
                    lemma_enumerated_more(s, var_of, given, n as int, list@, v);
                }
            }
            n = n + 1;
        }
        vars
    }
}

/// The variables of the values that one of the first `m` terms enumerates.
spec fn enumerated_in(
    s: Seq<TermView>,
    var_of: Map<TermId, Var>,
    list: Seq<TermId>,
    m: int,
    v: Var,
) -> bool {
    exists|j: int, y: TermId|
        0 <= j < m && enumeration(s, #[trigger] list[j]) && or_leaves(s, list[j]).contains(y)
            && #[trigger] var_of.contains_key(y) && var_of[y] == v
}

proof fn lemma_enumerated_step(
    s: Seq<TermView>,
    var_of: Map<TermId, Var>,
    list: Seq<TermId>,
    m: int,
    v: Var,
)
    requires
        0 <= m < list.len(),
    ensures
        enumerated_in(s, var_of, list, m + 1, v) == (enumerated_in(s, var_of, list, m, v) || (
        enumeration(s, list[m]) && exists|y: TermId|
            or_leaves(s, list[m]).contains(y) && #[trigger] var_of.contains_key(y) && var_of[y]
                == v)),
{
    if enumerated_in(s, var_of, list, m, v) {
        let (j, y) = choose|j: int, y: TermId|
            0 <= j < m && enumeration(s, #[trigger] list[j]) && or_leaves(s, list[j]).contains(y)
                && #[trigger] var_of.contains_key(y) && var_of[y] == v;
        assert(enumeration(s, list[j]) && var_of.contains_key(y));
    }
    if enumerated_in(s, var_of, list, m + 1, v) {
        let (j, y) = choose|j: int, y: TermId|
            0 <= j < m + 1 && enumeration(s, #[trigger] list[j]) && or_leaves(
                s,
                list[j],
            ).contains(y) && #[trigger] var_of.contains_key(y) && var_of[y] == v;
        if j < m {
            assert(enumeration(s, list[j]) && var_of.contains_key(y));
        }
    }
    if enumeration(s, list[m]) && exists|y: TermId|
        or_leaves(s, list[m]).contains(y) && #[trigger] var_of.contains_key(y) && var_of[y] == v {
        let y = choose|y: TermId|
            or_leaves(s, list[m]).contains(y) && #[trigger] var_of.contains_key(y) && var_of[y] == v;
        assert(enumeration(s, list[m]) && var_of.contains_key(y));
    }
}

proof fn lemma_enumerated_more(
    s: Seq<TermView>,
    var_of: Map<TermId, Var>,
    given: Seq<TermId>,
    n: int,
    list: Seq<TermId>,
    v: Var,
)
    requires
        0 <= n < given.len(),
        lists_reach(list, s, Map::empty(), given[n]),
    ensures
        enumerated(s, var_of, given, n + 1, v) == (enumerated(s, var_of, given, n, v)
            || enumerated_in(s, var_of, list, list.len() as int, v)),
{
    if enumerated(s, var_of, given, n + 1, v) {
        let (k, x, y) = choose|k: int, x: TermId, y: TermId|
            0 <= k < n + 1 && #[trigger] subterm(s, given[k], x) && enumeration(s, x) && or_leaves(
                s,
                x,
            ).contains(y) && #[trigger] var_of.contains_key(y) && var_of[y] == v;
        if k == n {
            assert(list.contains(x));
            let j = choose|j: int| 0 <= j < list.len() && list[j] == x;
            assert(enumeration(s, list[j]) && var_of.contains_key(y));
        } else {
            assert(subterm(s, given[k], x) && var_of.contains_key(y));
        }
    }
    if enumerated(s, var_of, given, n, v) {
        let (k, x, y) = choose|k: int, x: TermId, y: TermId|
            0 <= k < n && #[trigger] subterm(s, given[k], x) && enumeration(s, x) && or_leaves(
                s,
                x,
            ).contains(y) && #[trigger] var_of.contains_key(y) && var_of[y] == v;
        assert(subterm(s, given[k], x) && var_of.contains_key(y));
    }
    if enumerated_in(s, var_of, list, list.len() as int, v) {
        let (j, y) = choose|j: int, y: TermId|
            0 <= j < list.len() && enumeration(s, #[trigger] list[j]) && or_leaves(
                s,
                list[j],
            ).contains(y) && #[trigger] var_of.contains_key(y) && var_of[y] == v;
        assert(list.contains(list[j]));
        assert(subterm(s, given[n], list[j]) && var_of.contains_key(y));
    }
}

} // verus!
