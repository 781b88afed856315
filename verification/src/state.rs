//! What assertions add to a solver, and how it is taken back.
//!
//! A [`GoalState`] holds the clauses that encode the assertions, the variables
//! and theory constraints behind them, and a journal of the changes.  Undoing
//! the journal from its end restores the earlier state exactly.

use crate::collections::{map_get, map_insert, map_new, set_contains, set_insert, set_new};
use crate::linear::{
    atoms_within, lemma_parses_extend, lemma_terms_value_extend, parse_comparison, parses_as,
    terms_value, ArithConstraintType, ParsedArithConstraint, ParsedView,
};
use crate::semantics::{eval, holds, lemma_extend, num, Interp};
use crate::terms::{
    extends, is_numeric_sort, node_below, numeric_sort, terms_wf, NameId, Op, SortId, TermId,
    TermStore, TermView, BOOL_SORT, TRUE_TERM,
};
use rustc_hash::{FxHashMap, FxHashSet};
use vstd::prelude::*;

verus! {

/// A propositional variable.
pub type Var = usize;

/// A propositional variable or its negation.
#[derive(Clone, Copy, PartialEq, Eq, Debug, Structural)]
pub struct Lit {
    pub var: Var,
    pub positive: bool,
}

impl Lit {
    pub fn pos(var: Var) -> (l: Lit)
        ensures
            l == (Lit { var, positive: true }),
    {
        Lit { var, positive: true }
    }

    pub fn neg(var: Var) -> (l: Lit)
        ensures
            l == (Lit { var, positive: false }),
    {
        Lit { var, positive: false }
    }

    pub open spec fn negated(self) -> Lit {
        Lit { var: self.var, positive: !self.positive }
    }

    pub fn negate(self) -> (l: Lit)
        ensures
            l == self.negated(),
    {
        Lit { var: self.var, positive: !self.positive }
    }
}

/// The directions in which a formula's clauses constrain it.
#[derive(Clone, Copy, PartialEq, Eq, Debug, Structural)]
pub enum Polarity {
    Positive,
    Negative,
    Both,
}

/// What a propositional variable means to the theories.
#[derive(Clone, Copy, PartialEq, Eq, Debug, Structural)]
pub enum Constraint {
    Eq(TermId, TermId),
    Lt(TermId, TermId),
    Le(TermId, TermId),
    Gt(TermId, TermId),
    Ge(TermId, TermId),
    /// A Boolean variable or application.
    BoolApp(TermId),
}

/// An assertion, under its name if it was given one.
pub struct NamedAssertion {
    pub term: TermId,
    pub name: Option<String>,
    pub index: usize,
}

/// One journalled change.
#[derive(Clone, Copy, Debug)]
pub enum TrailOp {
    AssertionAdded { index: usize },
    VarCreated { var: Var, term: TermId },
    ConstraintAdded { var: Var },
    FalseAssertionSet,
    NamedAssertionAdded { index: usize },
    BvTermAdded { term: TermId },
    ArithTermAdded { term: TermId },
    DtVarConstructorAdded { term: TermId },
    TrackedCompoundAdded { term: TermId },
    ArrayAxiomInstanceAdded { term: TermId },
    ArithDefinedTermAdded { term: TermId },
    ArithConstAxiomAdded { term: TermId, const_val: i64 },
    CareSplitAdded { a: TermId, b: TermId },
    EncodedTermAdded { term: TermId, previous: Option<(Lit, Polarity)> },
    DtAxiomInstanceAdded { term: TermId },
}

/// Work for the theory engines that encoding a term calls for.
#[derive(Clone, Copy, PartialEq, Eq, Debug, Structural)]
pub enum TheoryRequest {
    /// Give the term a variable of the arithmetic engine.
    InternArith(TermId),
    /// Give the term a bit-vector of this width.
    NewBv(TermId, u32),
    /// Register the theory variables below the term.
    Track(TermId),
}

/// The assertions and everything derived from them.
pub struct GoalState {
    pub clauses: Vec<Vec<Lit>>,
    pub term_to_var: FxHashMap<TermId, Var>,
    pub var_to_term: Vec<TermId>,
    pub var_to_constraint: FxHashMap<Var, Constraint>,
    pub var_to_parsed_arith: FxHashMap<Var, ParsedArithConstraint>,
    pub arith_parse_cache: FxHashMap<TermId, Option<ParsedArithConstraint>>,
    pub encoded_terms: FxHashMap<TermId, (Lit, Polarity)>,
    pub polarity_aware: bool,
    pub polarities: FxHashMap<TermId, Polarity>,
    pub assertions: Vec<TermId>,
    pub named_assertions: Vec<NamedAssertion>,
    pub has_false_assertion: bool,
    pub dt_var_constructors: FxHashMap<TermId, NameId>,
    pub arith_terms: FxHashSet<TermId>,
    pub bv_terms: FxHashSet<TermId>,
    pub tracked_compound_terms: FxHashSet<TermId>,
    pub array_axiom_instances: FxHashSet<TermId>,
    pub arith_defined_terms: FxHashSet<TermId>,
    pub dt_axiom_instances: FxHashSet<TermId>,
    pub arith_const_axiom_pairs: Vec<(TermId, i64)>,
    pub care_split_pairs: Vec<(TermId, TermId)>,
    pub requests: Vec<TheoryRequest>,
    pub trail: Vec<TrailOp>,
    pub has_quantifiers: bool,
    pub has_bv_arith_ops: bool,
    pub has_array_ops: bool,
    pub encode_depth_exceeded: bool,
}

/// Nothing has been asserted, and nothing is remembered.
pub open spec fn blank(e: GoalView) -> bool {
    &&& e.j.assertions == Seq::<TermId>::empty()
    &&& e.j.named == Seq::<NamedAssertion>::empty()
    &&& !e.j.has_false
    &&& e.j.dt.dom() == Set::<TermId>::empty()
    &&& e.j.var_of.dom() == Set::<TermId>::empty()
    &&& e.j.memo.dom() == Set::<TermId>::empty()
    &&& e.j.constraint.dom() == Set::<Var>::empty()
    &&& e.j.arith == Set::<TermId>::empty()
    &&& e.j.bv == Set::<TermId>::empty()
    &&& e.j.walked == Set::<TermId>::empty()
    &&& e.j.array_axioms == Set::<TermId>::empty()
    &&& e.j.arith_defined == Set::<TermId>::empty()
    &&& e.j.dt_axioms == Set::<TermId>::empty()
    &&& e.j.const_axioms == Seq::<(TermId, i64)>::empty()
    &&& e.j.care_pairs == Seq::<(TermId, TermId)>::empty()
    &&& e.trail == Seq::<TrailOp>::empty()
    &&& e.clauses == Seq::<Seq<Lit>>::empty()
    &&& e.term_of == Seq::<TermId>::empty()
    &&& e.parsed.dom() == Set::<Var>::empty()
    &&& e.cache.dom() == Set::<TermId>::empty()
    &&& e.pols.dom() == Set::<TermId>::empty()
    &&& e.requests == Seq::<TheoryRequest>::empty()
    &&& !e.exceeded
    &&& !e.quantified
    &&& !e.bv_arith
    &&& !e.arrays
}

/// The part of a state that the journal restores.
pub struct Journaled {
    pub assertions: Seq<TermId>,
    pub named: Seq<NamedAssertion>,
    pub has_false: bool,
    pub dt: Map<TermId, NameId>,
    pub var_of: Map<TermId, Var>,
    pub memo: Map<TermId, (Lit, Polarity)>,
    pub constraint: Map<Var, Constraint>,
    pub arith: Set<TermId>,
    pub bv: Set<TermId>,
    pub walked: Set<TermId>,
    pub array_axioms: Set<TermId>,
    pub arith_defined: Set<TermId>,
    pub dt_axioms: Set<TermId>,
    pub const_axioms: Seq<(TermId, i64)>,
    pub care_pairs: Seq<(TermId, TermId)>,
}

/// Mathematical content of a [`GoalState`].
pub struct GoalView {
    pub j: Journaled,
    pub trail: Seq<TrailOp>,
    pub clauses: Seq<Seq<Lit>>,
    pub term_of: Seq<TermId>,
    pub parsed: Map<Var, ParsedView>,
    pub cache: Map<TermId, Option<ParsedView>>,
    pub aware: bool,
    pub pols: Map<TermId, Polarity>,
    pub requests: Seq<TheoryRequest>,
    pub exceeded: bool,
    pub quantified: bool,
    pub bv_arith: bool,
    pub arrays: bool,
}

pub open spec fn parsed_view(p: Option<ParsedArithConstraint>) -> Option<ParsedView> {
    match p {
        Some(p) => Some(p@),
        None => None,
    }
}

impl View for GoalState {
    type V = GoalView;

    open spec fn view(&self) -> GoalView {
        GoalView {
            j: Journaled {
                assertions: self.assertions@,
                named: self.named_assertions@,
                has_false: self.has_false_assertion,
                dt: self.dt_var_constructors@,
                var_of: self.term_to_var@,
                memo: self.encoded_terms@,
                constraint: self.var_to_constraint@,
                arith: self.arith_terms@,
                bv: self.bv_terms@,
                walked: self.tracked_compound_terms@,
                array_axioms: self.array_axiom_instances@,
                arith_defined: self.arith_defined_terms@,
                dt_axioms: self.dt_axiom_instances@,
                const_axioms: self.arith_const_axiom_pairs@,
                care_pairs: self.care_split_pairs@,
            },
            trail: self.trail@,
            clauses: Seq::new(self.clauses@.len(), |k: int| self.clauses@[k]@),
            term_of: self.var_to_term@,
            parsed: Map::new(
                |v: Var| self.var_to_parsed_arith@.contains_key(v),
                |v: Var| self.var_to_parsed_arith@[v]@,
            ),
            cache: Map::new(
                |t: TermId| self.arith_parse_cache@.contains_key(t),
                |t: TermId| parsed_view(self.arith_parse_cache@[t]),
            ),
            aware: self.polarity_aware,
            pols: self.polarities@,
            requests: self.requests@,
            exceeded: self.encode_depth_exceeded,
            quantified: self.has_quantifiers,
            bv_arith: self.has_bv_arith_ops,
            arrays: self.has_array_ops,
        }
    }
}

/// The state before one change.
pub open spec fn undo(j: Journaled, op: TrailOp) -> Journaled {
    match op {
        TrailOp::AssertionAdded { index } => Journaled {
            assertions: if index < j.assertions.len() {
                j.assertions.take(index as int)
            } else {
                j.assertions
            },
            ..j
        },
        TrailOp::VarCreated { term, .. } => Journaled { var_of: j.var_of.remove(term), ..j },
        TrailOp::ConstraintAdded { var } => Journaled {
            constraint: j.constraint.remove(var),
            ..j
        },
        TrailOp::FalseAssertionSet => Journaled { has_false: false, ..j },
        TrailOp::NamedAssertionAdded { index } => Journaled {
            named: if index < j.named.len() {
                j.named.take(index as int)
            } else {
                j.named
            },
            ..j
        },
        TrailOp::BvTermAdded { term } => Journaled { bv: j.bv.remove(term), ..j },
        TrailOp::ArithTermAdded { term } => Journaled { arith: j.arith.remove(term), ..j },
        TrailOp::DtVarConstructorAdded { term } => Journaled { dt: j.dt.remove(term), ..j },
        TrailOp::TrackedCompoundAdded { term } => Journaled { walked: j.walked.remove(term), ..j },
        TrailOp::ArrayAxiomInstanceAdded { term } => Journaled {
            array_axioms: j.array_axioms.remove(term),
            ..j
        },
        TrailOp::ArithDefinedTermAdded { term } => Journaled {
            arith_defined: j.arith_defined.remove(term),
            ..j
        },
        TrailOp::ArithConstAxiomAdded { .. } => Journaled {
            const_axioms: if j.const_axioms.len() > 0 {
                j.const_axioms.drop_last()
            } else {
                j.const_axioms
            },
            ..j
        },
        TrailOp::CareSplitAdded { .. } => Journaled {
            care_pairs: if j.care_pairs.len() > 0 {
                j.care_pairs.drop_last()
            } else {
                j.care_pairs
            },
            ..j
        },
        TrailOp::EncodedTermAdded { term, previous } => Journaled {
            memo: match previous {
                Some(entry) => j.memo.insert(term, entry),
                None => j.memo.remove(term),
            },
            ..j
        },
        TrailOp::DtAxiomInstanceAdded { term } => Journaled {
            dt_axioms: j.dt_axioms.remove(term),
            ..j
        },
    }
}

/// The state when the journal was `n` entries long.
pub open spec fn rewind(j: Journaled, trail: Seq<TrailOp>, n: nat) -> Journaled
    decreases trail.len(),
{
    if trail.len() <= n {
        j
    } else {
        rewind(undo(j, trail.last()), trail.drop_last(), n)
    }
}

pub proof fn lemma_rewind_split(j: Journaled, trail: Seq<TrailOp>, m: nat, n: nat)
    requires
        n <= m <= trail.len(),
    ensures
        rewind(j, trail, n) == rewind(rewind(j, trail, m), trail.take(m as int), n),
    decreases trail.len(),
{
    if trail.len() == m {
        assert(trail.take(m as int) =~= trail);
    } else {
        lemma_rewind_split(undo(j, trail.last()), trail.drop_last(), m, n);
        assert(trail.drop_last().take(m as int) =~= trail.take(m as int));
    }
}

/// The later state's journal leads back to the earlier state.
pub open spec fn undoes(a: GoalView, b: GoalView) -> bool {
    &&& a.trail.len() <= b.trail.len()
    &&& b.trail.take(a.trail.len() as int) == a.trail
    &&& rewind(b.j, b.trail, a.trail.len()) == a.j
}

pub open spec fn lit_true(s: Seq<TermView>, i: Interp, term_of: Seq<TermId>, l: Lit) -> bool {
    holds(s, i, term_of[l.var as int]) == l.positive
}

/// The interpretation makes the clause true when each variable means its term.
pub open spec fn clause_true(
    s: Seq<TermView>,
    i: Interp,
    term_of: Seq<TermId>,
    c: Seq<Lit>,
) -> bool {
    exists|k: int| 0 <= k < c.len() && lit_true(s, i, term_of, #[trigger] c[k])
}

pub open spec fn lits_within(c: Seq<Lit>, n: int) -> bool {
    forall|k: int| 0 <= k < c.len() ==> (#[trigger] c[k]).var < n
}

/// The literal is true exactly where the formula is.
pub open spec fn means(s: Seq<TermView>, term_of: Seq<TermId>, l: Lit, t: TermId) -> bool {
    &&& l.var < term_of.len()
    &&& forall|i: Interp| #[trigger]
        lit_true(s, i, term_of, l) == holds(s, i, t)
}

/// A clause that every interpretation makes true.
pub open spec fn valid_clause(s: Seq<TermView>, term_of: Seq<TermId>, c: Seq<Lit>) -> bool {
    &&& lits_within(c, term_of.len() as int)
    &&& forall|i: Interp| #[trigger] clause_true(s, i, term_of, c)
}

/// The theory constraint of a variable says what its term says.
pub open spec fn constraint_ok(node: TermView, t: TermId, c: Constraint) -> bool {
    match c {
        Constraint::Eq(a, b) => node.op == Op::Eq && node.args == seq![a, b],
        Constraint::Lt(a, b) => (node.op == Op::Lt || node.op == Op::BvUlt || node.op == Op::BvSlt)
            && node.args == seq![a, b],
        Constraint::Le(a, b) => (node.op == Op::Le || node.op == Op::BvUle || node.op == Op::BvSle)
            && node.args == seq![a, b],
        Constraint::Gt(a, b) => node.op == Op::Gt && node.args == seq![a, b],
        Constraint::Ge(a, b) => node.op == Op::Ge && node.args == seq![a, b],
        Constraint::BoolApp(x) => x == t && (node.op == Op::Var || node.op == Op::Apply),
    }
}

/// The relation that a comparison's linear form is recorded with; an equation
/// is recorded with `<=` and is asserted in both directions.
pub open spec fn relation_of(op: Op) -> Option<ArithConstraintType> {
    match op {
        Op::Lt | Op::BvUlt => Some(ArithConstraintType::Lt),
        Op::Le | Op::BvUle | Op::Eq => Some(ArithConstraintType::Le),
        Op::Gt => Some(ArithConstraintType::Gt),
        Op::Ge => Some(ArithConstraintType::Ge),
        _ => None,
    }
}

/// A linear form that belongs to the comparison at `t`.
pub open spec fn parsed_ok(s: Seq<TermView>, t: TermId, p: ParsedView) -> bool {
    &&& t < s.len()
    &&& relation_of(s[t as int].op) == Some(p.constraint_type)
    &&& s[t as int].op == Op::Eq ==> s[s[t as int].args[0] as int].sort != BOOL_SORT
    &&& p.reason_term == t
    &&& parses_as(s, s[t as int].args[0], s[t as int].args[1], Some(p))
    &&& atoms_within(p.terms, s.len() as int)
    &&& forall|i: Interp| #[trigger]
        terms_value(s, i, p.terms) - p.constant.value() == num(
            eval(s, i, s[t as int].args[0] as int),
        ) - num(eval(s, i, s[t as int].args[1] as int))
}

/// What the cache holds for the comparison at `t` is what it parses as.
pub open spec fn cache_ok(s: Seq<TermView>, t: TermId, c: Option<ParsedView>) -> bool {
    &&& t < s.len()
    &&& relation_of(s[t as int].op) is Some
    &&& parses_as(s, s[t as int].args[0], s[t as int].args[1], c)
    &&& c matches Some(p) ==> parsed_ok(s, t, p)
}

/// The parts of a state fit together.
pub open spec fn goal_inv(s: Seq<TermView>, e: GoalView) -> bool {
    &&& terms_wf(s)
    &&& forall|v: int| 0 <= v < e.term_of.len() ==> (#[trigger] e.term_of[v]) < s.len()
    &&& forall|t: TermId| #[trigger]
        e.j.var_of.contains_key(t) ==> e.j.var_of[t] < e.term_of.len()
            && e.term_of[e.j.var_of[t] as int] == t
    &&& forall|k: int|
        0 <= k < e.clauses.len() ==> lits_within(#[trigger] e.clauses[k], e.term_of.len() as int)
    &&& forall|t: TermId| #[trigger]
        e.j.memo.contains_key(t) ==> t < s.len() && means(s, e.term_of, e.j.memo[t].0, t)
    &&& forall|v: Var| #[trigger]
        e.j.constraint.contains_key(v) ==> v < e.term_of.len() && constraint_ok(
            s[e.term_of[v as int] as int],
            e.term_of[v as int],
            e.j.constraint[v],
        )
    &&& forall|v: Var| #[trigger]
        e.parsed.contains_key(v) ==> e.j.constraint.contains_key(v) && parsed_ok(
            s,
            e.term_of[v as int],
            e.parsed[v],
        )
    &&& forall|t: TermId| #[trigger] e.cache.contains_key(t) ==> cache_ok(s, t, e.cache[t])
    &&& forall|v: Var| #[trigger]
        e.j.constraint.contains_key(v) ==> operands_requested(e.requests, e.j.constraint[v])
    &&& forall|t: TermId| #[trigger]
        e.j.memo.contains_key(t) ==> flags_cover(e, s[t as int].op)
    &&& forall|t: TermId| #[trigger]
        e.j.memo.contains_key(t) ==> attached(s, e, t) && atom_literal(s, e, t, e.j.memo[t].0)
    &&& forall|t: TermId| #[trigger]
        e.j.memo.contains_key(t) ==> e.exceeded || parts_encoded(s, e.j.memo, t)
    &&& forall|t: TermId| #[trigger] e.j.arith.contains(t) ==> t < s.len()
    &&& forall|t: TermId| #[trigger] e.j.bv.contains(t) ==> t < s.len()
}

/// A formula whose truth the theories decide: a comparison, an equation, or a
/// Boolean variable or application.
pub open spec fn theory_atom(s: Seq<TermView>, t: TermId) -> bool {
    match s[t as int].op {
        Op::Eq | Op::Lt | Op::Le | Op::Gt | Op::Ge | Op::BvUlt | Op::BvUle | Op::BvSlt
        | Op::BvSle => true,
        Op::Var | Op::Apply => s[t as int].sort == BOOL_SORT,
        _ => false,
    }
}

/// The literals of encoded terms, with the directions that they were encoded in.
pub type Memo = Map<TermId, (Lit, Polarity)>;

/// `eq` is the equation of `a` and `b`, or `true` where they are one term.
pub open spec fn equation_at(s: Seq<TermView>, a: TermId, b: TermId, eq: TermId) -> bool {
    &&& eq < s.len()
    &&& if a == b {
        eq == TRUE_TERM
    } else {
        s[eq as int].op == Op::Eq && s[eq as int].args == seq![a, b]
    }
}

/// The equation of the two terms was encoded.
pub open spec fn pair_encoded(s: Seq<TermView>, memo: Memo, a: TermId, b: TermId) -> bool {
    exists|eq: TermId| #[trigger] equation_at(s, a, b, eq) && memo.contains_key(eq)
}

/// The sides of an equation, the conditional one last, where there is one; the
/// right-hand side counts first.
pub open spec fn conditional_side(s: Seq<TermView>, t: TermId) -> Option<(TermId, TermId)> {
    let (l, r) = (s[t as int].args[0], s[t as int].args[1]);
    if s[r as int].op == Op::Ite {
        Some((l, r))
    } else if s[l as int].op == Op::Ite {
        Some((r, l))
    } else {
        None
    }
}

/// The formulas that a formula is made of were encoded too: the arguments of a
/// connective, the equations of a distinction, and those that an equation with a
/// conditional side comes down to.
#[verifier::opaque]
pub open spec fn parts_encoded(s: Seq<TermView>, memo: Memo, t: TermId) -> bool {
    let args = s[t as int].args;
    match s[t as int].op {
        Op::Not | Op::And | Op::Or | Op::Xor | Op::Implies | Op::Ite => forall|k: int|
            0 <= k < args.len() ==> memo.contains_key(#[trigger] args[k]),
        Op::Let => memo.contains_key(args[0]),
        Op::Distinct => forall|j: int, k: int|
            0 <= j < k < args.len() ==> pair_encoded(s, memo, #[trigger] args[j], #[trigger] args[k]),
        Op::Eq => if s[args[0] as int].sort == BOOL_SORT {
            memo.contains_key(args[0]) && memo.contains_key(args[1])
        } else {
            match conditional_side(s, t) {
                Some((a, b)) => memo.contains_key(s[b as int].args[0]) && pair_encoded(
                    s,
                    memo,
                    a,
                    s[b as int].args[1]) && pair_encoded(s, memo, a, s[b as int].args[2]),
                None => true,
            }
        },
        _ => true,
    }
}

/// The literal of a theory atom is its variable.
pub open spec fn atom_literal(s: Seq<TermView>, e: GoalView, t: TermId, l: Lit) -> bool {
    theory_atom(s, t) ==> l == (Lit { var: e.j.var_of[t], positive: true })
}

/// A comparison that is read as a linear constraint, where it has a linear form.
/// Signed bit-vector comparisons are not: they read their operands as signed.
pub open spec fn linear_atom(s: Seq<TermView>, t: TermId) -> bool {
    match s[t as int].op {
        Op::Lt | Op::Le | Op::Gt | Op::Ge | Op::BvUlt | Op::BvUle => true,
        Op::Eq => numeric_sort(s[s[t as int].args[0] as int].sort),
        _ => false,
    }
}

/// What the theories have of an encoded term: a theory atom has its constraint,
/// the linear form is attached where there is one, and a numeric variable is
/// registered.  Which constraint and which form these are, the parts of
/// [`goal_inv`] on constraints and linear forms say.
pub open spec fn attached(s: Seq<TermView>, e: GoalView, t: TermId) -> bool {
    &&& theory_atom(s, t) ==> e.j.var_of.contains_key(t) && e.j.constraint.contains_key(
        e.j.var_of[t],
    )
    &&& linear_atom(s, t) && !parses_as(s, s[t as int].args[0], s[t as int].args[1], None)
        ==> e.parsed.contains_key(e.j.var_of[t])
    &&& s[t as int].op == Op::Var && numeric_sort(s[t as int].sort) ==> e.j.arith.contains(t)
}

/// The registration of the operands of a theory constraint has been asked for.
pub open spec fn operands_requested(requests: Seq<TheoryRequest>, c: Constraint) -> bool {
    match c {
        Constraint::Eq(a, b) | Constraint::Lt(a, b) | Constraint::Le(a, b) | Constraint::Gt(a, b)
        | Constraint::Ge(a, b) => requests.contains(TheoryRequest::Track(a)) && requests.contains(
            TheoryRequest::Track(b),
        ),
        Constraint::BoolApp(_) => true,
    }
}

pub open spec fn quantifier_op(op: Op) -> bool {
    op == Op::Forall || op == Op::Exists
}

pub open spec fn array_op(op: Op) -> bool {
    op == Op::Select || op == Op::Store
}

pub open spec fn bv_arith_op(op: Op) -> bool {
    op == Op::BvUdiv || op == Op::BvSdiv || op == Op::BvUrem || op == Op::BvSrem
}

/// The sticky flags tell of an encoded term with this head symbol.
pub open spec fn flags_cover(e: GoalView, op: Op) -> bool {
    &&& quantifier_op(op) ==> e.quantified
    &&& array_op(op) ==> e.arrays
    &&& bv_arith_op(op) ==> e.bv_arith
}

/// A flag that rose tells of an encoded term.
pub open spec fn flags_rise(e0: GoalView, s1: Seq<TermView>, e1: GoalView) -> bool {
    &&& e0.quantified ==> e1.quantified
    &&& e0.arrays ==> e1.arrays
    &&& e0.bv_arith ==> e1.bv_arith
    &&& e1.quantified && !e0.quantified ==> exists|t: TermId| #[trigger]
        e1.j.memo.contains_key(t) && quantifier_op(s1[t as int].op)
    &&& e1.arrays && !e0.arrays ==> exists|t: TermId| #[trigger]
        e1.j.memo.contains_key(t) && array_op(s1[t as int].op)
    &&& e1.bv_arith && !e0.bv_arith ==> exists|t: TermId| #[trigger]
        e1.j.memo.contains_key(t) && bv_arith_op(s1[t as int].op)
}

/// The polarity under which a term is encoded.
pub open spec fn polarity_of(e: GoalView, t: TermId) -> Polarity {
    if e.aware && e.pols.contains_key(t) {
        e.pols[t]
    } else {
        Polarity::Both
    }
}

/// The term was encoded in the directions that are needed.
pub open spec fn remembered(e: GoalView, t: TermId) -> bool {
    e.j.memo.contains_key(t) && (e.j.memo[t].1 == Polarity::Both || e.j.memo[t].1 == polarity_of(
        e,
        t,
    ))
}

/// One state leads to another by adding variables, valid clauses, memo entries
/// and constraints, with a journal that leads back.  A literal that will do is
/// not displaced.
pub open spec fn step(s0: Seq<TermView>, e0: GoalView, s1: Seq<TermView>, e1: GoalView) -> bool {
    &&& goal_inv(s1, e1)
    &&& extends(s0, s1)
    &&& e0.term_of.len() <= e1.term_of.len()
    &&& forall|v: int| 0 <= v < e0.term_of.len() ==> #[trigger] e1.term_of[v] == e0.term_of[v]
    &&& e0.clauses.len() <= e1.clauses.len()
    &&& forall|k: int| 0 <= k < e0.clauses.len() ==> #[trigger] e1.clauses[k] == e0.clauses[k]
    &&& forall|k: int|
        e0.clauses.len() <= k < e1.clauses.len() ==> valid_clause(
            s1,
            e1.term_of,
            #[trigger] e1.clauses[k],
        )
    &&& forall|t: TermId| #[trigger]
        e0.j.var_of.contains_key(t) ==> e1.j.var_of.contains_key(t) && e1.j.var_of[t]
            == e0.j.var_of[t]
    &&& forall|t: TermId| #[trigger]
        e0.j.memo.contains_key(t) ==> e1.j.memo.contains_key(t)
    &&& forall|t: TermId| #[trigger] remembered(e0, t) ==> e1.j.memo[t] == e0.j.memo[t]
    &&& forall|v: Var| #[trigger]
        e0.j.constraint.contains_key(v) ==> e1.j.constraint.contains_key(v)
    &&& forall|t: TermId| #[trigger] e0.j.arith.contains(t) ==> e1.j.arith.contains(t)
    &&& forall|t: TermId| #[trigger] e0.j.bv.contains(t) ==> e1.j.bv.contains(t)
    &&& forall|v: Var| #[trigger] e0.parsed.contains_key(v) ==> e1.parsed.contains_key(v)
    &&& e0.requests.len() <= e1.requests.len()
    &&& e1.requests.take(e0.requests.len() as int) == e0.requests
    &&& e1.pols == e0.pols
    &&& e1.aware == e0.aware
    &&& e0.exceeded ==> e1.exceeded
    &&& e1.j.assertions == e0.j.assertions
    &&& e1.j.named == e0.j.named
    &&& e1.j.has_false == e0.j.has_false
    &&& e1.j.dt == e0.j.dt
    &&& e0.j.const_axioms.len() <= e1.j.const_axioms.len()
    &&& forall|k: int|
        0 <= k < e0.j.const_axioms.len() ==> #[trigger] e1.j.const_axioms[k] == e0.j.const_axioms[k]
    &&& e0.j.care_pairs.len() <= e1.j.care_pairs.len()
    &&& forall|k: int|
        0 <= k < e0.j.care_pairs.len() ==> #[trigger] e1.j.care_pairs[k] == e0.j.care_pairs[k]
    &&& undoes(e0, e1)
}

/// Meanings do not depend on later terms and variables.
pub proof fn lemma_lit_extend(
    s0: Seq<TermView>,
    f0: Seq<TermId>,
    s1: Seq<TermView>,
    f1: Seq<TermId>,
    i: Interp,
    l: Lit,
)
    requires
        terms_wf(s0),
        terms_wf(s1),
        extends(s0, s1),
        l.var < f0.len() <= f1.len(),
        f0[l.var as int] == f1[l.var as int],
        f0[l.var as int] < s0.len(),
    ensures
        lit_true(s0, i, f0, l) == lit_true(s1, i, f1, l),
{
    lemma_extend(s0, s1, i, f0[l.var as int]);
}

pub proof fn lemma_means_extend(
    s0: Seq<TermView>,
    f0: Seq<TermId>,
    s1: Seq<TermView>,
    f1: Seq<TermId>,
    l: Lit,
    t: TermId,
)
    requires
        terms_wf(s0),
        terms_wf(s1),
        extends(s0, s1),
        f0.len() <= f1.len(),
        forall|v: int| 0 <= v < f0.len() ==> #[trigger] f1[v] == f0[v],
        forall|v: int| 0 <= v < f0.len() ==> (#[trigger] f0[v]) < s0.len(),
        t < s0.len(),
        means(s0, f0, l, t),
    ensures
        means(s1, f1, l, t),
{
    assert forall|i: Interp| #[trigger] lit_true(
        s1,
        i,
        f1,
        l,
    ) == holds(s1, i, t) by {
        lemma_lit_extend(s0, f0, s1, f1, i, l);
        lemma_extend(s0, s1, i, t);
        assert(lit_true(s0, i, f0, l) == holds(s0, i, t));
    }
}

pub proof fn lemma_valid_extend(
    s0: Seq<TermView>,
    f0: Seq<TermId>,
    s1: Seq<TermView>,
    f1: Seq<TermId>,
    c: Seq<Lit>,
)
    requires
        terms_wf(s0),
        terms_wf(s1),
        extends(s0, s1),
        f0.len() <= f1.len(),
        forall|v: int| 0 <= v < f0.len() ==> #[trigger] f1[v] == f0[v],
        forall|v: int| 0 <= v < f0.len() ==> (#[trigger] f0[v]) < s0.len(),
        valid_clause(s0, f0, c),
    ensures
        valid_clause(s1, f1, c),
{
    assert forall|i: Interp| #[trigger] clause_true(s1, i, f1, c) by {
        assert(clause_true(s0, i, f0, c));
        let k = choose|k: int| 0 <= k < c.len() && lit_true(s0, i, f0, #[trigger] c[k]);
        lemma_lit_extend(s0, f0, s1, f1, i, c[k]);
        assert(lit_true(s1, i, f1, c[k]));
    }
}

pub proof fn lemma_parsed_extend(s0: Seq<TermView>, s1: Seq<TermView>, t: TermId, p: ParsedView)
    requires
        terms_wf(s0),
        terms_wf(s1),
        extends(s0, s1),
        parsed_ok(s0, t, p),
    ensures
        parsed_ok(s1, t, p),
{
    assert(node_below(s0, t as int));
    assert(s1[t as int] == s0[t as int]);
    assert(s1[s0[t as int].args[0] as int] == s0[s0[t as int].args[0] as int]);
    lemma_parses_extend(s0, s1, s0[t as int].args[0], s0[t as int].args[1], Some(p));
    assert forall|i: Interp| #[trigger] terms_value(s1, i, p.terms) - p.constant.value() == num(
        eval(s1, i, s1[t as int].args[0] as int),
    ) - num(eval(s1, i, s1[t as int].args[1] as int)) by {
        lemma_terms_value_extend(s0, s1, i, p.terms);
        lemma_extend(s0, s1, i, s0[t as int].args[0]);
        lemma_extend(s0, s1, i, s0[t as int].args[1]);
        assert(terms_value(s0, i, p.terms) - p.constant.value() == num(
            eval(s0, i, s0[t as int].args[0] as int),
        ) - num(eval(s0, i, s0[t as int].args[1] as int)));
    }
}

/// What was encoded stays encoded.
pub(crate) proof fn lemma_parts_grow(
    s0: Seq<TermView>,
    e0: GoalView,
    s1: Seq<TermView>,
    e1: GoalView,
    t: TermId,
)
    requires
        terms_wf(s0),
        extends(s0, s1),
        t < s0.len(),
        forall|x: TermId| #[trigger] e0.j.memo.contains_key(x) ==> e1.j.memo.contains_key(x),
        parts_encoded(s0, e0.j.memo, t),
    ensures
        parts_encoded(s1, e1.j.memo, t),
{
    reveal(parts_encoded);
    assert(node_below(s0, t as int));
    assert(s1[t as int] == s0[t as int]);
    let args = s0[t as int].args;
    match s0[t as int].op {
        Op::Distinct => {
            assert forall|j: int, k: int| 0 <= j < k < args.len() implies pair_encoded(
                s1,
                e1.j.memo,
                #[trigger] args[j],
                #[trigger] args[k]) by {
                lemma_pair_grow(s0, e0, s1, e1, args[j], args[k]);
            }
        },
        Op::Eq => {
            assert(s1[args[0] as int] == s0[args[0] as int]);
            assert(s1[args[1] as int] == s0[args[1] as int]);
            if s0[args[0] as int].sort != BOOL_SORT {
                if let Some((a, b)) = conditional_side(s0, t) {
                    assert(node_below(s0, b as int));
                    lemma_pair_grow(s0, e0, s1, e1, a, s0[b as int].args[1]);
                    lemma_pair_grow(s0, e0, s1, e1, a, s0[b as int].args[2]);
                }
            }
        },
        _ => {},
    }
}

/// The arguments of a connective are its parts.
pub(crate) proof fn lemma_parts_args(s: Seq<TermView>, e: GoalView, t: TermId)
    requires
        match s[t as int].op {
            Op::Distinct => s[t as int].args.len() <= 1,
            Op::Eq => s[t as int].args.len() == 2 && s[s[t as int].args[0] as int].sort
                == BOOL_SORT,
            _ => true,
        },
        s[t as int].op == Op::Let ==> s[t as int].args.len() > 0 && e.j.memo.contains_key(
            s[t as int].args[0],
        ),
        s[t as int].op != Op::Let && s[t as int].op != Op::Distinct ==> forall|k: int|
            0 <= k < s[t as int].args.len() ==> e.j.memo.contains_key(#[trigger] s[t as int].args[k]),
    ensures
        parts_encoded(s, e.j.memo, t),
{
    reveal(parts_encoded);
}

/// Terms that are no connectives have no parts, nor do equations without a
/// conditional side.
pub(crate) proof fn lemma_no_parts(s: Seq<TermView>, e: GoalView, t: TermId)
    requires
        match s[t as int].op {
            Op::Not | Op::And | Op::Or | Op::Xor | Op::Implies | Op::Ite | Op::Let | Op::Distinct => false,
            Op::Eq => s[s[t as int].args[0] as int].sort != BOOL_SORT && conditional_side(s, t)
                is None,
            _ => true,
        },
    ensures
        parts_encoded(s, e.j.memo, t),
{
    reveal(parts_encoded);
}

/// The parts of an equation with a conditional side.
pub(crate) proof fn lemma_parts_branches(
    s: Seq<TermView>,
    e: GoalView,
    t: TermId,
    a: TermId,
    b: TermId,
    et: TermId,
    ee: TermId,
)
    requires
        s[t as int].op == Op::Eq,
        s[s[t as int].args[0] as int].sort != BOOL_SORT,
        conditional_side(s, t) == Some((a, b)),
        e.j.memo.contains_key(s[b as int].args[0]),
        equation_at(s, a, s[b as int].args[1], et),
        e.j.memo.contains_key(et),
        equation_at(s, a, s[b as int].args[2], ee),
        e.j.memo.contains_key(ee),
    ensures
        parts_encoded(s, e.j.memo, t),
{
    reveal(parts_encoded);
    assert(pair_encoded(s, e.j.memo, a, s[b as int].args[1]));
    assert(pair_encoded(s, e.j.memo, a, s[b as int].args[2]));
}

/// The parts of a distinction.
pub(crate) proof fn lemma_parts_pairs(s: Seq<TermView>, e: GoalView, t: TermId)
    requires
        s[t as int].op == Op::Distinct,
        forall|j: int, k: int|
            0 <= j < k < s[t as int].args.len() ==> pair_encoded(
                s,
                e.j.memo,
                #[trigger] s[t as int].args[j],
                #[trigger] s[t as int].args[k]),
    ensures
        parts_encoded(s, e.j.memo, t),
{
    reveal(parts_encoded);
}

proof fn lemma_pair_grow(
    s0: Seq<TermView>,
    e0: GoalView,
    s1: Seq<TermView>,
    e1: GoalView,
    a: TermId,
    b: TermId,
)
    requires
        extends(s0, s1),
        forall|x: TermId| #[trigger] e0.j.memo.contains_key(x) ==> e1.j.memo.contains_key(x),
        pair_encoded(s0, e0.j.memo, a, b),
    ensures
        pair_encoded(s1, e1.j.memo, a, b),
{
    let eq = choose|eq: TermId| #[trigger]
        equation_at(s0, a, b, eq) && e0.j.memo.contains_key(eq);
    assert(s1[eq as int] == s0[eq as int]);
    assert(equation_at(s1, a, b, eq));
}

/// What the theories have of a term they keep.
pub(crate) proof fn lemma_attached_step(
    s0: Seq<TermView>,
    e0: GoalView,
    s1: Seq<TermView>,
    e1: GoalView,
    t: TermId,
)
    requires
        terms_wf(s0),
        t < s0.len(),
        step(s0, e0, s1, e1),
        attached(s0, e0, t),
    ensures
        attached(s1, e1, t),
{
    lemma_attached_extend(s0, s1, e1, t);
}

/// What the theories have of a term does not depend on later terms.
pub(crate) proof fn lemma_attached_extend(
    s0: Seq<TermView>,
    s1: Seq<TermView>,
    e: GoalView,
    t: TermId,
)
    requires
        terms_wf(s0),
        terms_wf(s1),
        extends(s0, s1),
        t < s0.len(),
    ensures
        attached(s0, e, t) == attached(s1, e, t),
{
    assert(node_below(s0, t as int));
    assert(s1[t as int] == s0[t as int]);
    if linear_atom(s0, t) || linear_atom(s1, t) {
        let (a, b) = (s0[t as int].args[0], s0[t as int].args[1]);
        assert(s1[a as int] == s0[a as int]);
        lemma_parses_extend(s0, s1, a, b, None);
    }
}

/// The invariant does not depend on later terms.
pub proof fn lemma_inv_grow(s0: Seq<TermView>, s1: Seq<TermView>, e: GoalView)
    requires
        goal_inv(s0, e),
        terms_wf(s1),
        extends(s0, s1),
    ensures
        goal_inv(s1, e),
{
    assert forall|t: TermId| #[trigger] e.j.memo.contains_key(t) implies t < s1.len() && means(
        s1,
        e.term_of,
        e.j.memo[t].0,
        t,
    ) by {
        lemma_means_extend(s0, e.term_of, s1, e.term_of, e.j.memo[t].0, t);
    }
    assert forall|t: TermId| #[trigger] e.j.memo.contains_key(t) implies attached(s1, e, t)
        && atom_literal(s1, e, t, e.j.memo[t].0) && (e.exceeded || parts_encoded(s1, e.j.memo, t)) by {
        lemma_attached_extend(s0, s1, e, t);
        if !e.exceeded {
            lemma_parts_grow(s0, e, s1, e, t);
        }
    }
    assert forall|v: Var| #[trigger] e.parsed.contains_key(v) implies parsed_ok(
        s1,
        e.term_of[v as int],
        e.parsed[v],
    ) by {
        lemma_parsed_extend(s0, s1, e.term_of[v as int], e.parsed[v]);
    }
    assert forall|t: TermId| #[trigger] e.cache.contains_key(t) implies cache_ok(
        s1,
        t,
        e.cache[t],
    ) by {
        assert(node_below(s0, t as int));
        assert(s1[t as int] == s0[t as int]);
        lemma_parses_extend(
            s0,
            s1,
            s0[t as int].args[0],
            s0[t as int].args[1],
            e.cache[t],
        );
        if let Some(p) = e.cache[t] {
            lemma_parsed_extend(s0, s1, t, p);
        }
    }
    assert forall|v: Var| #[trigger] e.j.constraint.contains_key(v) implies constraint_ok(
        s1[e.term_of[v as int] as int],
        e.term_of[v as int],
        e.j.constraint[v],
    ) by {
        assert(s1[e.term_of[v as int] as int] == s0[e.term_of[v as int] as int]);
    }
}

/// Growing the store alone is a step.
pub proof fn lemma_step_grow(s0: Seq<TermView>, s1: Seq<TermView>, e: GoalView)
    requires
        goal_inv(s0, e),
        terms_wf(s1),
        extends(s0, s1),
    ensures
        step(s0, e, s1, e),
{
    lemma_inv_grow(s0, s1, e);
    assert(e.trail.take(e.trail.len() as int) =~= e.trail);
    assert(e.requests.take(e.requests.len() as int) =~= e.requests);
}

/// Steps compose.
pub proof fn lemma_step_trans(
    s0: Seq<TermView>,
    e0: GoalView,
    s1: Seq<TermView>,
    e1: GoalView,
    s2: Seq<TermView>,
    e2: GoalView,
)
    requires
        goal_inv(s0, e0),
        step(s0, e0, s1, e1),
        step(s1, e1, s2, e2),
    ensures
        step(s0, e0, s2, e2),
{
    assert forall|t: TermId| #[trigger] remembered(e0, t) implies e2.j.memo[t] == e0.j.memo[t] by {
        assert(remembered(e1, t));
    }
    assert forall|v: int| 0 <= v < e0.term_of.len() implies #[trigger] e2.term_of[v]
        == e0.term_of[v] by {
        assert(e1.term_of[v] == e0.term_of[v]);
    }
    assert forall|k: int| 0 <= k < e0.clauses.len() implies #[trigger] e2.clauses[k]
        == e0.clauses[k] by {
        assert(e1.clauses[k] == e0.clauses[k]);
    }
    assert forall|k: int| e0.clauses.len() <= k < e2.clauses.len() implies valid_clause(
        s2,
        e2.term_of,
        #[trigger] e2.clauses[k],
    ) by {
        if k < e1.clauses.len() {
            assert(e2.clauses[k] == e1.clauses[k]);
            lemma_valid_extend(s1, e1.term_of, s2, e2.term_of, e1.clauses[k]);
        }
    }
    assert forall|t: int| 0 <= t < s0.len() implies #[trigger] s2[t] == s0[t] by {
        assert(s1[t] == s0[t]);
    }
    assert(e2.requests.take(e0.requests.len() as int) =~= e2.requests.take(
        e1.requests.len() as int,
    ).take(e0.requests.len() as int));
    assert forall|k: int| 0 <= k < e0.j.const_axioms.len() implies #[trigger] e2.j.const_axioms[k]
        == e0.j.const_axioms[k] by {
        assert(e1.j.const_axioms[k] == e0.j.const_axioms[k]);
    }
    assert forall|k: int| 0 <= k < e0.j.care_pairs.len() implies #[trigger] e2.j.care_pairs[k]
        == e0.j.care_pairs[k] by {
        assert(e1.j.care_pairs[k] == e0.j.care_pairs[k]);
    }
    let n = e0.trail.len();
    let m = e1.trail.len();
    lemma_rewind_split(e2.j, e2.trail, m, n);
    assert(e2.trail.take(n as int) =~= e2.trail.take(m as int).take(n as int));
}

/// Adding a valid clause is a step.
pub proof fn lemma_step_clause(s: Seq<TermView>, e0: GoalView, e1: GoalView, c: Seq<Lit>)
    requires
        goal_inv(s, e0),
        valid_clause(s, e0.term_of, c),
        e1 == (GoalView { clauses: e0.clauses.push(c), ..e0 }),
    ensures
        step(s, e0, s, e1),
{
    assert(e1.trail.take(e1.trail.len() as int) =~= e1.trail);
    assert(e1.requests.take(e1.requests.len() as int) =~= e1.requests);
    assert forall|k: int| 0 <= k < e1.clauses.len() implies lits_within(
        #[trigger] e1.clauses[k],
        e1.term_of.len() as int,
    ) by {
        if k < e0.clauses.len() {
            assert(e1.clauses[k] == e0.clauses[k]);
        }
    }
}

/// What adding to the state leaves as it is, whatever the clauses added say.
pub open spec fn growth(s0: Seq<TermView>, e0: GoalView, s1: Seq<TermView>, e1: GoalView) -> bool {
    &&& goal_inv(s1, e1)
    &&& extends(s0, s1)
    &&& e0.term_of.len() <= e1.term_of.len()
    &&& forall|v: int| 0 <= v < e0.term_of.len() ==> #[trigger] e1.term_of[v] == e0.term_of[v]
    &&& e0.clauses.len() <= e1.clauses.len()
    &&& forall|k: int| 0 <= k < e0.clauses.len() ==> #[trigger] e1.clauses[k] == e0.clauses[k]
    &&& forall|t: TermId| #[trigger] e0.j.memo.contains_key(t) ==> e1.j.memo.contains_key(t)
    &&& forall|v: Var| #[trigger] e0.parsed.contains_key(v) ==> e1.parsed.contains_key(v)
    &&& e0.requests.len() <= e1.requests.len()
    &&& e1.requests.take(e0.requests.len() as int) == e0.requests
    &&& e1.pols == e0.pols
    &&& e1.aware == e0.aware
    &&& e0.exceeded ==> e1.exceeded
    &&& e1.j.assertions == e0.j.assertions
    &&& e1.j.named == e0.j.named
    &&& e1.j.has_false == e0.j.has_false
    &&& e1.j.dt == e0.j.dt
    &&& undoes(e0, e1)
}

pub proof fn lemma_growth_refl(s: Seq<TermView>, e: GoalView)
    requires
        goal_inv(s, e),
    ensures
        growth(s, e, s, e),
{
    assert(e.trail.take(e.trail.len() as int) =~= e.trail);
    assert(e.requests.take(e.requests.len() as int) =~= e.requests);
}

pub proof fn lemma_growth_trans(
    s0: Seq<TermView>,
    e0: GoalView,
    s1: Seq<TermView>,
    e1: GoalView,
    s2: Seq<TermView>,
    e2: GoalView,
)
    requires
        growth(s0, e0, s1, e1),
        growth(s1, e1, s2, e2),
    ensures
        growth(s0, e0, s2, e2),
{
    assert forall|v: int| 0 <= v < e0.term_of.len() implies #[trigger] e2.term_of[v]
        == e0.term_of[v] by {
        assert(e1.term_of[v] == e0.term_of[v]);
    }
    assert forall|k: int| 0 <= k < e0.clauses.len() implies #[trigger] e2.clauses[k]
        == e0.clauses[k] by {
        assert(e1.clauses[k] == e0.clauses[k]);
    }
    assert forall|t: int| 0 <= t < s0.len() implies #[trigger] s2[t] == s0[t] by {
        assert(s1[t] == s0[t]);
    }
    assert(e2.requests.take(e0.requests.len() as int) =~= e2.requests.take(
        e1.requests.len() as int,
    ).take(e0.requests.len() as int));
    let n = e0.trail.len();
    let m = e1.trail.len();
    lemma_rewind_split(e2.j, e2.trail, m, n);
    assert(e2.trail.take(n as int) =~= e2.trail.take(m as int).take(n as int));
}

pub proof fn lemma_growth_clause(s: Seq<TermView>, e0: GoalView, e1: GoalView, c: Seq<Lit>)
    requires
        goal_inv(s, e0),
        lits_within(c, e0.term_of.len() as int),
        e1 == (GoalView { clauses: e0.clauses.push(c), ..e0 }),
    ensures
        growth(s, e0, s, e1),
{
    assert(e1.trail.take(e1.trail.len() as int) =~= e1.trail);
    assert(e1.requests.take(e1.requests.len() as int) =~= e1.requests);
    assert forall|k: int| 0 <= k < e1.clauses.len() implies lits_within(
        #[trigger] e1.clauses[k],
        e1.term_of.len() as int,
    ) by {
        if k < e0.clauses.len() {
            assert(e1.clauses[k] == e0.clauses[k]);
        }
    }
}

/// Truth of a clause does not depend on later terms and variables.
pub proof fn lemma_clause_extend(
    s0: Seq<TermView>,
    f0: Seq<TermId>,
    s1: Seq<TermView>,
    f1: Seq<TermId>,
    i: Interp,
    c: Seq<Lit>,
)
    requires
        terms_wf(s0),
        terms_wf(s1),
        extends(s0, s1),
        f0.len() <= f1.len(),
        forall|v: int| 0 <= v < f0.len() ==> #[trigger] f1[v] == f0[v],
        forall|v: int| 0 <= v < f0.len() ==> (#[trigger] f0[v]) < s0.len(),
        lits_within(c, f0.len() as int),
    ensures
        clause_true(s0, i, f0, c) == clause_true(s1, i, f1, c),
{
    assert forall|k: int| 0 <= k < c.len() implies lit_true(s0, i, f0, #[trigger] c[k])
        == lit_true(s1, i, f1, c[k]) by {
        assert(f1[c[k].var as int] == f0[c[k].var as int]);
        assert(f0[c[k].var as int] < s0.len());
        lemma_lit_extend(s0, f0, s1, f1, i, c[k]);
    }
    if clause_true(s0, i, f0, c) {
        let k = choose|k: int| 0 <= k < c.len() && lit_true(s0, i, f0, #[trigger] c[k]);
        assert(lit_true(s1, i, f1, c[k]));
    }
    if clause_true(s1, i, f1, c) {
        let k = choose|k: int| 0 <= k < c.len() && lit_true(s1, i, f1, #[trigger] c[k]);
        assert(lit_true(s0, i, f0, c[k]));
    }
}

/// Undoing a single new entry gives back the state before it.
pub proof fn lemma_undo_last(a: GoalView, b: GoalView, op: TrailOp)
    requires
        b.trail == a.trail.push(op),
        undo(b.j, op) == a.j,
    ensures
        undoes(a, b),
{
    assert(b.trail.drop_last() =~= a.trail);
    assert(b.trail.take(a.trail.len() as int) =~= a.trail);
    assert(b.trail.last() == op);
    reveal_with_fuel(rewind, 2);
}

impl GoalState {
    /// A state without assertions.
    pub fn new() -> (r: GoalState)
        ensures
            blank(r@),
            r@.aware,
            forall|s: Seq<TermView>| terms_wf(s) ==> #[trigger] goal_inv(s, r@),
    {
        let r = GoalState {
            clauses: Vec::new(),
            term_to_var: map_new(),
            var_to_term: Vec::new(),
            var_to_constraint: map_new(),
            var_to_parsed_arith: map_new(),
            arith_parse_cache: map_new(),
            encoded_terms: map_new(),
            polarity_aware: true,
            polarities: map_new(),
            assertions: Vec::new(),
            named_assertions: Vec::new(),
            has_false_assertion: false,
            dt_var_constructors: map_new(),
            arith_terms: set_new(),
            bv_terms: set_new(),
            tracked_compound_terms: set_new(),
            array_axiom_instances: set_new(),
            arith_defined_terms: set_new(),
            dt_axiom_instances: set_new(),
            arith_const_axiom_pairs: Vec::new(),
            care_split_pairs: Vec::new(),
            requests: Vec::new(),
            trail: Vec::new(),
            has_quantifiers: false,
            has_bv_arith_ops: false,
            has_array_ops: false,
            encode_depth_exceeded: false,
        };
        proof {
            assert(r@.parsed.dom() =~= Set::<Var>::empty());
            assert(r@.cache.dom() =~= Set::<TermId>::empty());
            assert(r@.clauses =~= Seq::<Seq<Lit>>::empty());
        }
        r
    }

    /// The propositional variable of a term, created where there is none yet.
    pub(crate) fn get_or_create_var(&mut self, Ghost(s): Ghost<Seq<TermView>>, term: TermId) -> (v:
        Var)
        requires
            goal_inv(s, old(self)@),
            term < s.len(),
        ensures
            step(s, old(self)@, s, final(self)@),
            v < final(self)@.term_of.len(),
            final(self)@.term_of[v as int] == term,
            final(self)@.j.var_of.contains_key(term),
            final(self)@.j.var_of[term] == v,
            old(self)@.j.var_of.contains_key(term) ==> final(self)@ == old(self)@,
            !old(self)@.j.var_of.contains_key(term) ==> {
                &&& v == old(self)@.term_of.len()
                &&& final(self)@.term_of == old(self)@.term_of.push(term)
                &&& final(self)@.j.var_of == old(self)@.j.var_of.insert(term, v)
                &&& final(self)@.trail == old(self)@.trail.push(TrailOp::VarCreated { var: v, term })
            },
            final(self)@ == (GoalView {
                j: Journaled { var_of: final(self)@.j.var_of, ..old(self)@.j },
                trail: final(self)@.trail,
                term_of: final(self)@.term_of,
                ..old(self)@
            }),
    {
        let ghost before = self@;
        if let Some(v) = map_get(&self.term_to_var, term) {
            proof {
                lemma_step_grow(s, s, before);
            }
            return *v;
        }
        let v: Var = self.var_to_term.len();
        map_insert(&mut self.term_to_var, term, v);
        self.trail.push(TrailOp::VarCreated { var: v, term });
        self.var_to_term.push(term);
        proof {
            let after = self@;
            let f0 = before.term_of;
            assert(after == GoalView {
                j: Journaled { var_of: before.j.var_of.insert(term, v), ..before.j },
                trail: before.trail.push(TrailOp::VarCreated { var: v, term }),
                term_of: f0.push(term),
                ..before
            });
            assert(before.j.var_of.insert(term, v).remove(term) =~= before.j.var_of);
            assert(after.requests.take(before.requests.len() as int) =~= before.requests);
            lemma_undo_last(before, after, TrailOp::VarCreated { var: v, term });
            assert forall|t: TermId| #[trigger] after.j.memo.contains_key(t) implies means(
                s,
                after.term_of,
                after.j.memo[t].0,
                t,
            ) by {
                lemma_means_extend(s, f0, s, after.term_of, after.j.memo[t].0, t);
            }
            assert forall|u: Var| #[trigger] after.parsed.contains_key(u) implies parsed_ok(
                s,
                after.term_of[u as int],
                after.parsed[u],
            ) by {
                assert(before.j.constraint.contains_key(u));
                assert(after.term_of[u as int] == before.term_of[u as int]);
            }
            assert forall|k: int| 0 <= k < after.clauses.len() implies lits_within(
                #[trigger] after.clauses[k],
                after.term_of.len() as int,
            ) by {
                assert(lits_within(before.clauses[k], before.term_of.len() as int));
            }
        }
        v
    }

    /// Hands a clause to the propositional engine.
    pub(crate) fn add_clause(&mut self, clause: Vec<Lit>)
        ensures
            final(self)@ == (GoalView { clauses: old(self)@.clauses.push(clause@), ..old(self)@ }),
    {
        let ghost before = self@;
        self.clauses.push(clause);
        assert(self@.clauses =~= before.clauses.push(clause@));
        assert(self@.parsed =~= before.parsed);
        assert(self@.cache =~= before.cache);
    }

    /// Remembers the literal of an encoded term.  A write that changes an entry
    /// is journalled with the value it displaces, so that taking it back
    /// restores narrower coverage from before.
    pub(crate) fn memoize_encoding(
        &mut self,
        Ghost(s): Ghost<Seq<TermView>>,
        term: TermId,
        lit: Lit,
        polarity: Polarity,
    )
        requires
            goal_inv(s, old(self)@),
            term < s.len(),
            means(s, old(self)@.term_of, lit, term),
            flags_cover(old(self)@, s[term as int].op),
            attached(s, old(self)@, term),
            atom_literal(s, old(self)@, term, lit),
            old(self)@.exceeded || parts_encoded(s, old(self)@.j.memo, term),
            !remembered(old(self)@, term),
        ensures
            step(s, old(self)@, s, final(self)@),
            final(self)@ == (GoalView {
                j: Journaled {
                    memo: old(self)@.j.memo.insert(term, (lit, polarity)),
                    ..old(self)@.j
                },
                trail: final(self)@.trail,
                ..old(self)@
            }),
    {
        let ghost before = self@;
        let previous = map_insert(&mut self.encoded_terms, term, (lit, polarity));
        let unchanged = match previous {
            Some((l, p)) => l == lit && p == polarity,
            None => false,
        };
        proof {
            assert(self@.parsed =~= before.parsed);
            assert(self@.cache =~= before.cache);
        }
        if unchanged {
            proof {
                assert(before.j.memo.insert(term, (lit, polarity)) =~= before.j.memo);
                lemma_step_grow(s, s, before);
            }
            return;
        }
        self.trail.push(TrailOp::EncodedTermAdded { term, previous });
        proof {
            let after = self@;
            assert(after.parsed =~= before.parsed);
            assert(after.cache =~= before.cache);
            match previous {
                Some(entry) => {
                    assert(after.j.memo.insert(term, entry) =~= before.j.memo);
                },
                None => {
                    assert(after.j.memo.remove(term) =~= before.j.memo);
                },
            }
            assert(after.requests.take(before.requests.len() as int) =~= before.requests);
            assert forall|t: TermId| #[trigger] after.j.memo.contains_key(t) implies after.exceeded
                || parts_encoded(s, after.j.memo, t) by {
                if !after.exceeded {
                    if t == term {
                        lemma_parts_grow(s, before, s, after, t);
                    } else {
                        assert(before.j.memo.contains_key(t));
                        lemma_parts_grow(s, before, s, after, t);
                    }
                }
            }
            lemma_undo_last(before, after, TrailOp::EncodedTermAdded { term, previous });
        }
    }

    /// Attaches a theory constraint to a variable.  Only the first write is
    /// journalled, so it is taken back with the scope that introduced it.
    pub(crate) fn record_constraint(
        &mut self,
        Ghost(s): Ghost<Seq<TermView>>,
        var: Var,
        constraint: Constraint,
    )
        requires
            goal_inv(s, old(self)@),
            var < old(self)@.term_of.len(),
            constraint_ok(
                s[old(self)@.term_of[var as int] as int],
                old(self)@.term_of[var as int],
                constraint,
            ),
            operands_requested(old(self)@.requests, constraint),
        ensures
            step(s, old(self)@, s, final(self)@),
            final(self)@ == (GoalView {
                j: Journaled {
                    constraint: old(self)@.j.constraint.insert(var, constraint),
                    ..old(self)@.j
                },
                trail: final(self)@.trail,
                ..old(self)@
            }),
    {
        let ghost before = self@;
        let previous = map_insert(&mut self.var_to_constraint, var, constraint);
        proof {
            assert(self@.parsed =~= before.parsed);
            assert(self@.cache =~= before.cache);
        }
        if previous.is_none() {
            self.trail.push(TrailOp::ConstraintAdded { var });
            proof {
                let after = self@;
                assert(after.parsed =~= before.parsed);
                assert(after.cache =~= before.cache);
                assert(after.j.constraint.remove(var) =~= before.j.constraint);
                assert(after.requests.take(before.requests.len() as int) =~= before.requests);
            lemma_undo_last(before, after, TrailOp::ConstraintAdded { var });
            }
        } else {
            proof {
                let t = before.term_of[var as int];
                lemma_constraint_unique(s[t as int], t, before.j.constraint[var], constraint);
                assert(self@.j.constraint =~= before.j.constraint);
                lemma_step_grow(s, s, before);
            }
        }
    }

    /// Reads a comparison as a linear constraint.  The result depends on the
    /// term alone and is kept for the next time.
    pub(crate) fn parse_arith_comparison(
        &mut self,
        store: &TermStore,
        lhs: TermId,
        rhs: TermId,
        constraint_type: ArithConstraintType,
        reason: TermId,
    ) -> (r: Option<ParsedArithConstraint>)
        requires
            goal_inv(store.terms(), old(self)@),
            reason < store.terms().len(),
            store.terms()[reason as int].args == seq![lhs, rhs],
            relation_of(store.terms()[reason as int].op) == Some(constraint_type),
            store.terms()[reason as int].op == Op::Eq ==> store.terms()[lhs as int].sort
                != BOOL_SORT,
        ensures
            step(store.terms(), old(self)@, store.terms(), final(self)@),
            final(self)@ == (GoalView { cache: final(self)@.cache, ..old(self)@ }),
            parses_as(store.terms(), lhs, rhs, parsed_view(r)),
            r matches Some(p) ==> parsed_ok(store.terms(), reason, p@),
    {
        let ghost s = store.terms();
        let ghost before = self@;
        assert(node_below(s, reason as int));
        assert(s[reason as int].args[0] == lhs && s[reason as int].args[1] == rhs);
        if let Some(cached) = map_get(&self.arith_parse_cache, reason) {
            proof {
                assert(before.cache.contains_key(reason));
                assert(cache_ok(s, reason, before.cache[reason]));
                lemma_step_grow(s, s, before);
            }
            return match cached {
                Some(p) => Some(p.duplicate()),
                None => None,
            };
        }
        let result = parse_comparison(store, lhs, rhs, constraint_type, reason);
        proof {
            lemma_parses_extend(s, s, lhs, rhs, parsed_view(result));
        }
        let kept = match &result {
            Some(p) => Some(p.duplicate()),
            None => None,
        };
        map_insert(&mut self.arith_parse_cache, reason, kept);
        proof {
            let after = self@;
            assert(after.parsed =~= before.parsed);
            assert(after.cache =~= before.cache.insert(reason, parsed_view(result)));
            assert(after.trail.take(after.trail.len() as int) =~= after.trail);
            assert(after.requests.take(after.requests.len() as int) =~= after.requests);
        }
        result
    }

    /// Attaches a linear form to a variable that has a theory constraint.
    pub(crate) fn attach_parsed(
        &mut self,
        Ghost(s): Ghost<Seq<TermView>>,
        var: Var,
        parsed: ParsedArithConstraint,
    )
        requires
            goal_inv(s, old(self)@),
            old(self)@.j.constraint.contains_key(var),
            parsed_ok(s, old(self)@.term_of[var as int], parsed@),
        ensures
            step(s, old(self)@, s, final(self)@),
            final(self)@ == (GoalView {
                parsed: old(self)@.parsed.insert(var, parsed@),
                ..old(self)@
            }),
    {
        let ghost before = self@;
        map_insert(&mut self.var_to_parsed_arith, var, parsed);
        proof {
            let after = self@;
            assert(after.parsed =~= before.parsed.insert(var, parsed@));
            assert(after.cache =~= before.cache);
            assert(after.trail.take(after.trail.len() as int) =~= after.trail);
            assert(after.requests.take(after.requests.len() as int) =~= after.requests);
        }
    }

    /// Registers a term of a numeric sort as an atom of the arithmetic engine.
    pub(crate) fn register_arith_atom(&mut self, Ghost(s): Ghost<Seq<TermView>>, term: TermId, sort: SortId)
        requires
            goal_inv(s, old(self)@),
            term < s.len(),
        ensures
            step(s, old(self)@, s, final(self)@),
            final(self)@ == (GoalView {
                j: Journaled {
                    arith: if numeric_sort(sort) {
                        old(self)@.j.arith.insert(term)
                    } else {
                        old(self)@.j.arith
                    },
                    ..old(self)@.j
                },
                trail: final(self)@.trail,
                requests: if numeric_sort(sort) && !old(self)@.j.arith.contains(term) {
                    old(self)@.requests.push(TheoryRequest::InternArith(term))
                } else {
                    old(self)@.requests
                },
                ..old(self)@
            }),
    {
        let ghost before = self@;
        proof {
            lemma_step_grow(s, s, before);
        }
        if !is_numeric_sort(sort) {
            return;
        }
        if set_contains(&self.arith_terms, term) {
            assert(before.j.arith.insert(term) =~= before.j.arith);
            return;
        }
        set_insert(&mut self.arith_terms, term);
        self.trail.push(TrailOp::ArithTermAdded { term });
        self.requests.push(TheoryRequest::InternArith(term));
        proof {
            let after = self@;
            assert(after.parsed =~= before.parsed);
            assert(after.cache =~= before.cache);
            assert(after.j.arith.remove(term) =~= before.j.arith);
            assert(after.requests.take(before.requests.len() as int) =~= before.requests);
            lemma_undo_last(before, after, TrailOp::ArithTermAdded { term });
        }
    }

    /// Registers a bit-vector term with the bit-vector engine.
    pub(crate) fn register_bv_term(&mut self, Ghost(s): Ghost<Seq<TermView>>, term: TermId, width: u32)
        requires
            goal_inv(s, old(self)@),
            term < s.len(),
        ensures
            step(s, old(self)@, s, final(self)@),
            final(self)@ == (GoalView {
                j: Journaled { bv: old(self)@.j.bv.insert(term), ..old(self)@.j },
                trail: final(self)@.trail,
                requests: if !old(self)@.j.bv.contains(term) {
                    old(self)@.requests.push(TheoryRequest::NewBv(term, width))
                } else {
                    old(self)@.requests
                },
                ..old(self)@
            }),
    {
        let ghost before = self@;
        proof {
            lemma_step_grow(s, s, before);
        }
        if set_contains(&self.bv_terms, term) {
            assert(before.j.bv.insert(term) =~= before.j.bv);
            return;
        }
        set_insert(&mut self.bv_terms, term);
        self.trail.push(TrailOp::BvTermAdded { term });
        self.requests.push(TheoryRequest::NewBv(term, width));
        proof {
            let after = self@;
            assert(after.parsed =~= before.parsed);
            assert(after.cache =~= before.cache);
            assert(after.j.bv.remove(term) =~= before.j.bv);
            assert(after.requests.take(before.requests.len() as int) =~= before.requests);
            lemma_undo_last(before, after, TrailOp::BvTermAdded { term });
        }
    }

    /// Asks for the theory variables below a term to be registered.
    pub(crate) fn track_theory_vars(&mut self, Ghost(s): Ghost<Seq<TermView>>, term: TermId)
        requires
            goal_inv(s, old(self)@),
        ensures
            step(s, old(self)@, s, final(self)@),
            final(self)@ == (GoalView {
                requests: old(self)@.requests.push(TheoryRequest::Track(term)),
                ..old(self)@
            }),
    {
        let ghost before = self@;
        self.requests.push(TheoryRequest::Track(term));
        proof {
            let after = self@;
            assert(after.parsed =~= before.parsed);
            assert(after.cache =~= before.cache);
            assert(after.clauses =~= before.clauses);
            lemma_more_requests(s, before, after);
        }
    }
}

/// Further requests are a step.
proof fn lemma_more_requests(s: Seq<TermView>, e0: GoalView, e1: GoalView)
    requires
        goal_inv(s, e0),
        e1 == (GoalView { requests: e1.requests, ..e0 }),
        e0.requests.len() <= e1.requests.len(),
        e1.requests.take(e0.requests.len() as int) =~= e0.requests,
    ensures
        step(s, e0, s, e1),
{
    assert(e1.trail.take(e1.trail.len() as int) =~= e1.trail);
    assert forall|r: TheoryRequest| e0.requests.contains(r) implies e1.requests.contains(r) by {
        let k = choose|k: int| 0 <= k < e0.requests.len() && e0.requests[k] == r;
        assert(e1.requests.take(e0.requests.len() as int)[k] == r);
        assert(e1.requests[k] == r);
    }
}

/// A term has at most one fitting constraint.
proof fn lemma_constraint_unique(node: TermView, t: TermId, a: Constraint, b: Constraint)
    requires
        constraint_ok(node, t, a),
        constraint_ok(node, t, b),
    ensures
        a == b,
{
    assert(node.args.len() == 2 ==> seq![node.args[0], node.args[1]] =~= node.args);
    match a {
        Constraint::Eq(x, y) | Constraint::Lt(x, y) | Constraint::Le(x, y) | Constraint::Gt(x, y)
        | Constraint::Ge(x, y) => {
            assert(seq![x, y][0] == x && seq![x, y][1] == y);
        },
        Constraint::BoolApp(_) => {},
    }
    match b {
        Constraint::Eq(x, y) | Constraint::Lt(x, y) | Constraint::Le(x, y) | Constraint::Gt(x, y)
        | Constraint::Ge(x, y) => {
            assert(seq![x, y][0] == x && seq![x, y][1] == y);
        },
        Constraint::BoolApp(_) => {},
    }
}

/// Requests that were made stay made.
pub(crate) proof fn lemma_requests_kept(
    a: Seq<TheoryRequest>,
    b: Seq<TheoryRequest>,
    c: Constraint,
)
    requires
        a.len() <= b.len(),
        b.take(a.len() as int) == a,
        operands_requested(a, c),
    ensures
        operands_requested(b, c),
{
    assert forall|r: TheoryRequest| #[trigger] a.contains(r) implies b.contains(r) by {
        let k = choose|k: int| 0 <= k < a.len() && a[k] == r;
        assert(b.take(a.len() as int)[k] == r);
        assert(b[k] == r);
    }
}

} // verus!
