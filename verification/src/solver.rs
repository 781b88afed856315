//! The solver: assertions in scopes, and what is known of the last check.

use crate::aliases::{aliases_noted, proper_aliases};
use crate::asserted::{
    lemma_pinned_back, lemma_pinned_carry, lemma_pinned_split, pinned_between, AssertedQuantifier,
    EntailedInts,
};
use crate::assertion::{
    clashes, completed, completed_through, entered, lists_quantifiers, nesting, noted, readied,
    refuted, taken_through, text_of,
};
use crate::collections::{map_copy, map_new, set_new};
use crate::constructors::grew;
use crate::domains::{domain_pairs, domains_inv};
use crate::int_case_split::{lemma_value_literal_extend, value_literal};
use crate::encode::ENCODE_DEPTH_LIMIT;
use crate::ite_table::{flattening, spine, EqIteTable, MIN_TABLE_CASES};
use crate::model::{Model, UnsatCore};
use crate::rewrite::{
    abstract_compound_bool_args, any_quantifier, defined_by_equations, eliminate_nonbool_ite,
    ites_eliminated, lists_replaced, only_aliases_change, purify_numeric_uf_args, replaced_arg,
    tables_carried, value_ite, ArgKind,
};
use crate::scopes::{describes_scope, grown_from, lemma_grown_refl, lemma_grown_trans, ContextState};
use crate::search::SolverResult;
use crate::state::{
    blank, goal_inv, lemma_inv_grow, rewind, undo, GoalState, GoalView, Journaled, Lit, Polarity,
    TrailOp, Var,
};
use crate::tables::TableState;
use crate::terms::{
    extends, node_below, terms_wf, NameId, Op, TermId, TermStore, TermView, FALSE_TERM, TRUE_TERM,
};
use crate::walk::{collect_subterms, lemma_map_ok_extend, map_ok, quantifier_free, subst, subterm};
use crate::zero_one::{only_folded, rounds_folded, tables_folded, FOLD_ROUNDS};
use vstd::prelude::*;

verus! {

/// When theory constraints are propagated.
#[derive(Clone, Copy, PartialEq, Eq, Debug, Structural)]
pub enum TheoryMode {
    Eager,
    Lazy,
}

/// What a user may set.  A limit of 0 is no limit.
#[derive(Clone, Copy, PartialEq, Eq, Debug, Structural)]
pub struct SolverConfig {
    pub proof: bool,
    pub simplify: bool,
    pub timeout_ms: u64,
    pub max_conflicts: u64,
    pub max_decisions: u64,
    pub finite_expansion_budget: usize,
    pub theory_mode: TheoryMode,
}

impl Default for SolverConfig {
    /// Simplification, eager theories, and no limits.
    fn default() -> (c: SolverConfig)
        ensures
            c == (SolverConfig {
                proof: false,
                simplify: true,
                timeout_ms: 0,
                max_conflicts: 0,
                max_decisions: 0,
                finite_expansion_budget: 0,
                theory_mode: TheoryMode::Eager,
            }),
    {
        SolverConfig {
            proof: false,
            simplify: true,
            timeout_ms: 0,
            max_conflicts: 0,
            max_decisions: 0,
            finite_expansion_budget: 0,
            theory_mode: TheoryMode::Eager,
        }
    }
}

/// Counts of the last runs.
#[derive(Clone, Copy, PartialEq, Eq, Debug, Structural)]
pub struct Statistics {
    pub decisions: u64,
    pub conflicts: u64,
    pub propagations: u64,
    pub restarts: u64,
    pub learned_clauses: u64,
    pub theory_propagations: u64,
    pub theory_conflicts: u64,
}

impl Statistics {
    pub open spec fn zero() -> Statistics {
        Statistics {
            decisions: 0,
            conflicts: 0,
            propagations: 0,
            restarts: 0,
            learned_clauses: 0,
            theory_propagations: 0,
            theory_conflicts: 0,
        }
    }

    pub fn new() -> (r: Statistics)
        ensures
            r == Statistics::zero(),
    {
        Statistics {
            decisions: 0,
            conflicts: 0,
            propagations: 0,
            restarts: 0,
            learned_clauses: 0,
            theory_propagations: 0,
            theory_conflicts: 0,
        }
    }

    pub fn reset(&mut self)
        ensures
            *final(self) == Statistics::zero(),
    {
        *self = Statistics::new();
    }
}

/// A solver over the terms of a [`TermStore`].
pub struct Solver {
    pub config: SolverConfig,
    pub goal: GoalState,
    pub tables: TableState,
    /// Integer terms whose value the assertions state.
    pub entailed: EntailedInts,
    pub logic: Option<String>,
    pub model: Option<Model>,
    pub unsat_core: Option<UnsatCore>,
    pub context_stack: Vec<ContextState>,
    pub produce_unsat_cores: bool,
    pub theory_aware_branching: bool,
    /// Not all datatype axioms are among the clauses.
    pub dt_axioms_incomplete: bool,
    pub statistics: Statistics,
    /// The verdict of the last check, until something that a check reads
    /// changes.
    pub last_check: Option<SolverResult>,
    /// How often integer arguments were split in the current check.
    pub case_split_rounds: u32,
    /// The terms that the assertions are over.
    pub terms: Ghost<Seq<TermView>>,
    /// The terms and the state that each open scope found.
    pub saved: Ghost<Seq<(Seq<TermView>, GoalView)>>,
}

/// The scopes tell what they found, and the journal leads back to it.
pub open spec fn scopes_ok(
    saved: Seq<(Seq<TermView>, GoalView)>,
    stack: Seq<ContextState>,
    s: Seq<TermView>,
    e: GoalView,
) -> bool {
    &&& saved.len() == stack.len()
    &&& forall|k: int| 0 <= k < saved.len() ==> describes_scope((#[trigger] saved[k]).1, stack[k])
    &&& forall|k: int|
        0 <= k < saved.len() ==> map_ok((#[trigger] saved[k]).0, stack[k].unit_eq_rep@)
    &&& forall|k: int|
        0 <= k < saved.len() ==> grown_from((#[trigger] saved[k]).0, saved[k].1, s, e)
    &&& forall|j: int, k: int|
        0 <= j < k < saved.len() ==> grown_from(
            (#[trigger] saved[j]).0,
            saved[j].1,
            (#[trigger] saved[k]).0,
            saved[k].1,
        )
}

/// Whatever grows from the current state grows from what the scopes found.
pub(crate) proof fn lemma_scopes_grow(
    saved: Seq<(Seq<TermView>, GoalView)>,
    stack: Seq<ContextState>,
    s0: Seq<TermView>,
    e0: GoalView,
    s1: Seq<TermView>,
    e1: GoalView,
)
    requires
        scopes_ok(saved, stack, s0, e0),
        grown_from(s0, e0, s1, e1),
    ensures
        scopes_ok(saved, stack, s1, e1),
{
    assert forall|k: int| 0 <= k < saved.len() implies grown_from(
        (#[trigger] saved[k]).0,
        saved[k].1,
        s1,
        e1,
    ) by {
        lemma_grown_trans(saved[k].0, saved[k].1, s0, e0, s1, e1);
    }
}

/// A longer store alone is growth.
pub(crate) proof fn lemma_store_grown(s0: Seq<TermView>, s1: Seq<TermView>, e: GoalView)
    requires
        goal_inv(s0, e),
        terms_wf(s1),
        extends(s0, s1),
    ensures
        grown_from(s0, e, s1, e),
{
    lemma_inv_grow(s0, s1, e);
    assert(e.trail.take(e.trail.len() as int) =~= e.trail);
    assert(e.requests.take(e.requests.len() as int) =~= e.requests);
}

/// The state that a scope found, with what is not taken back.
proof fn lemma_scope_found(
    saved: Seq<(Seq<TermView>, GoalView)>,
    stack: Seq<ContextState>,
    s: Seq<TermView>,
    e: GoalView,
    back: GoalView,
)
    requires
        scopes_ok(saved, stack, s, e),
        saved.len() > 0,
        goal_inv(s, back),
        back.j == saved.last().1.j,
        back.trail == saved.last().1.trail,
        back.clauses == saved.last().1.clauses,
        back.term_of == saved.last().1.term_of,
        back.requests == e.requests,
        forall|v: Var| #[trigger]
            saved.last().1.parsed.contains_key(v) ==> back.parsed.contains_key(v),
    ensures
        scopes_ok(saved.drop_last(), stack.drop_last(), s, back),
{
    let top = saved.last();
    let rest = saved.drop_last();
    assert(top == saved[saved.len() - 1]);
    assert forall|k: int| 0 <= k < rest.len() implies grown_from(
        (#[trigger] rest[k]).0,
        rest[k].1,
        s,
        back,
    ) by {
        assert(rest[k] == saved[k]);
        assert(grown_from(saved[k].0, saved[k].1, top.0, top.1));
        assert(grown_from(saved[k].0, saved[k].1, s, e));
    }
    assert forall|k: int| 0 <= k < rest.len() implies describes_scope(
        (#[trigger] rest[k]).1,
        stack.drop_last()[k],
    ) && map_ok(rest[k].0, stack.drop_last()[k].unit_eq_rep@) by {
        assert(rest[k] == saved[k]);
    }
    assert forall|j: int, k: int| 0 <= j < k < rest.len() implies grown_from(
        (#[trigger] rest[j]).0,
        rest[j].1,
        (#[trigger] rest[k]).0,
        rest[k].1,
    ) by {
        assert(rest[j] == saved[j] && rest[k] == saved[k]);
    }
}

impl Solver {
    /// The parts fit together.
    pub open spec fn valid(&self) -> bool {
        &&& goal_inv(self.terms@, self.goal@)
        &&& self.tables.wf(self.terms@)
        &&& domains_inv(self.terms@, self.goal@, &self.tables)
        &&& forall|k: int|
            0 <= k < self.goal@.j.assertions.len() ==> (#[trigger] self.goal@.j.assertions[k])
                < self.terms@.len()
        &&& stated(self.terms@, self.goal@.j.assertions, &self.entailed)
        &&& scopes_ok(self.saved@, self.context_stack@, self.terms@, self.goal@)
    }

    /// The store holds the terms that the assertions are over.
    pub open spec fn fits(&self, store: &TermStore) -> bool {
        self.valid() && store.wf() && extends(self.terms@, store.terms())
    }

    /// What the last check found is dropped, and nothing else changes.
    pub open spec fn forgets(&self, before: &Solver) -> bool {
        *self == (Solver { model: None, unsat_core: None, last_check: None, ..*before })
    }

    pub fn with_config(config: SolverConfig) -> (r: Solver)
        ensures
            r.config == config,
            r.fresh(),
            r.logic is None,
            !r.produce_unsat_cores,
            r.theory_aware_branching,
            !r.dt_axioms_incomplete,
            r.statistics == Statistics::zero(),
            r.terms@.len() == 2,
            r.goal@.aware,
            forall|store: &TermStore| store.wf() ==> #[trigger] r.fits(store),
    {
        let store = TermStore::new();
        let goal = GoalState::new();
        let tables = TableState::new();
        let r = Solver {
            config,
            goal,
            tables,
            entailed: EntailedInts::new(),
            logic: None,
            model: None,
            unsat_core: None,
            context_stack: Vec::new(),
            produce_unsat_cores: false,
            theory_aware_branching: true,
            dt_axioms_incomplete: false,
            statistics: Statistics::new(),
            last_check: None,
            case_split_rounds: 0,
            terms: Ghost(store.terms()),
            saved: Ghost(Seq::empty()),
        };
        proof {
            assert(r.goal@ == goal@);
            let s = store.terms();
            assert(goal_inv(s, r.goal@));
            assert forall|other: &TermStore| other.wf() implies #[trigger] r.fits(other) by {
                let o = other.terms();
                assert(node_below(o, 0) && node_below(o, 1));
                assert(node_below(s, 0) && node_below(s, 1));
                assert(o[0].op == Op::True && o[1].op == Op::False);
                assert(s[0].op == Op::True && s[1].op == Op::False);
                assert(o[0].args =~= s[0].args);
                assert(o[1].args =~= s[1].args);
            }
        }
        r
    }

    /// Without assertions, scopes and answers.
    pub open spec fn fresh(&self) -> bool {
        &&& self.valid()
        &&& self.model is None
        &&& self.unsat_core is None
        &&& self.last_check is None
        &&& self.context_stack@.len() == 0
        &&& blank(self.goal@)
        &&& self.tables.blank()
        &&& self.entailed.values@.dom() == Set::<TermId>::empty()
        &&& self.entailed.upto == 0
        &&& !self.dt_axioms_incomplete
        &&& self.case_split_rounds == 0
    }
}

/// The values are those that conjuncts of the assertions read so far state, and
/// every term that one gives a value has one.
pub open spec fn stated(s: Seq<TermView>, assertions: Seq<TermId>, known: &EntailedInts) -> bool {
    &&& known.upto <= assertions.len()
    &&& forall|t: TermId| #[trigger]
        known.values@.contains_key(t) ==> pinned_between(
            s,
            assertions,
            0,
            known.upto as int,
            t,
            known.values@[t].value(),
        )
    &&& forall|t: TermId, v: int| #[trigger]
        pinned_between(s, assertions, 0, known.upto as int, t, v) ==> known.values@.contains_key(t)
}

pub(crate) proof fn lemma_stated_carry(
    s0: Seq<TermView>,
    s1: Seq<TermView>,
    a0: Seq<TermId>,
    a1: Seq<TermId>,
    known: &EntailedInts,
)
    requires
        terms_wf(s0),
        extends(s0, s1),
        a0.len() <= a1.len(),
        forall|k: int| 0 <= k < a0.len() ==> (#[trigger] a0[k]) < s0.len() && a1[k] == a0[k],
        stated(s0, a0, known),
    ensures
        stated(s1, a1, known),
{
    assert forall|t: TermId| #[trigger] known.values@.contains_key(t) implies pinned_between(
        s1,
        a1,
        0,
        known.upto as int,
        t,
        known.values@[t].value(),
    ) by {
        lemma_pinned_carry(
            s0,
            s1,
            a0,
            a1,
            0,
            known.upto as int,
            0,
            known.upto as int,
            t,
            known.values@[t].value(),
        );
    }
    assert forall|t: TermId, v: int| #[trigger]
        pinned_between(s1, a1, 0, known.upto as int, t, v) implies known.values@.contains_key(t) by {
        lemma_pinned_back(s0, s1, a0, a1, 0, known.upto as int, t, v);
    }
}

/// Opening a scope, and closing the one that was opened last.
impl Solver {
    pub fn new() -> (r: Solver)
        ensures
            r.fresh(),
            r.logic is None,
            !r.produce_unsat_cores,
            r.theory_aware_branching,
            !r.dt_axioms_incomplete,
            r.statistics == Statistics::zero(),
            r.terms@.len() == 2,
            r.goal@.aware,
            forall|store: &TermStore| store.wf() ==> #[trigger] r.fits(store),
    {
        Solver::with_config(SolverConfig::default())
    }

    /// Drops what the last check found.
    pub fn invalidate_results(&mut self)
        ensures
            final(self).forgets(old(self)),
    {
        self.model = None;
        self.unsat_core = None;
        self.last_check = None;
    }

    pub fn push(&mut self)
        requires
            old(self).valid(),
        ensures
            final(self).valid(),
            final(self).opened(old(self)),
    {
        self.invalidate_results();
        let ghost e = self.goal@;
        let ctx = ContextState {
            num_assertions: self.goal.assertions.len(),
            num_vars: self.goal.var_to_term.len(),
            num_clauses: self.goal.clauses.len(),
            trail_position: self.goal.trail.len(),
            has_false_assertion: self.goal.has_false_assertion,
            has_quantifiers: self.goal.has_quantifiers,
            has_bv_arith_ops: self.goal.has_bv_arith_ops,
            has_array_ops: self.goal.has_array_ops,
            encode_depth_exceeded: self.goal.encode_depth_exceeded,
            dt_axioms_incomplete: self.dt_axioms_incomplete,
            unit_eq_rep: map_copy(&self.tables.unit_eq_rep),
        };
        self.context_stack.push(ctx);
        proof {
            let before = self.saved@;
            let s = self.terms@;
            self.saved@ = before.push((s, e));
            lemma_grown_refl(s, e);
            assert(self.goal@ == e);
            assert(self.context_stack@.drop_last() =~= old(self).context_stack@);
            assert(forall|k: int| 0 <= k < before.len() ==> self.saved@[k] == before[k]);
        }
    }

    /// A scope was opened.
    pub open spec fn opened(&self, before: &Solver) -> bool {
        &&& self.context_stack@.len() == before.context_stack@.len() + 1
        &&& self.context_stack@.drop_last() == before.context_stack@
        &&& self.context_stack@.last().dt_axioms_incomplete == before.dt_axioms_incomplete
        &&& self.context_stack@.last().unit_eq_rep@ == before.tables.unit_eq_rep@
        &&& self.saved@ == before.saved@.push((before.terms@, before.goal@))
        &&& *self == (Solver {
            model: None,
            unsat_core: None,
            last_check: None,
            context_stack: self.context_stack,
            saved: self.saved,
            ..*before
        })
    }

    /// The innermost scope was closed: what is journalled, the variables, the
    /// clauses, the flags and the aliases are what the scope found.
    pub open spec fn closed(&self, before: &Solver) -> bool {
        &&& self.context_stack@ == before.context_stack@.drop_last()
        &&& self.saved@ == before.saved@.drop_last()
        &&& restored(before.saved@.last().1, self.goal@)
        &&& self.dt_axioms_incomplete == before.context_stack@.last().dt_axioms_incomplete
        &&& self.entailed.values@.dom() == Set::<TermId>::empty()
        &&& self.entailed.upto == 0
        &&& self.goal@.aware == before.goal@.aware
        &&& self.goal@.pols == before.goal@.pols
        &&& self.goal@.requests == before.goal@.requests
        &&& self.tables.table_index_domain_eqs@.dom() == Set::<TermId>::empty()
        &&& self.tables.case_split_terms@ == Set::<TermId>::empty()
        &&& self.tables.unit_eq_rep@ == before.context_stack@.last().unit_eq_rep@
        &&& self.tables == (TableState {
            unit_eq_rep: self.tables.unit_eq_rep,
            table_index_domain_eqs: self.tables.table_index_domain_eqs,
            case_split_terms: self.tables.case_split_terms,
            ..before.tables
        })
        &&& *self == (Solver {
            model: None,
            unsat_core: None,
            last_check: None,
            context_stack: self.context_stack,
            saved: self.saved,
            goal: self.goal,
            tables: self.tables,
            entailed: self.entailed,
            dt_axioms_incomplete: self.dt_axioms_incomplete,
            ..*before
        })
    }

    pub fn pop(&mut self)
        requires
            old(self).valid(),
        ensures
            final(self).valid(),
            old(self).context_stack@.len() == 0 ==> *final(self) == *old(self),
            old(self).context_stack@.len() > 0 ==> final(self).closed(old(self)),
    {
        if self.context_stack.len() == 0 {
            return;
        }
        let ghost before = *self;
        match self.context_stack.pop() {
            Some(ctx) => {
                self.invalidate_results();
                let ghost s = self.terms@;
                let ghost top = self.saved@.last();
                proof {
                    assert(top == before.saved@[before.saved@.len() - 1]);
                    assert(ctx == before.context_stack@[before.context_stack@.len() - 1]);
                }
                proof {
                    lemma_map_ok_extend(top.0, s, ctx.unit_eq_rep@);
                }
                self.goal.restore(Ghost(top.0), Ghost(s), Ghost(top.1), &ctx);
                self.tables.unit_eq_rep = map_copy(&ctx.unit_eq_rep);
                self.entailed = EntailedInts::new();
                self.tables.table_index_domain_eqs = map_new();
                self.tables.case_split_terms = set_new();
                self.dt_axioms_incomplete = ctx.dt_axioms_incomplete;
                proof {
                    lemma_scope_found(
                        before.saved@,
                        before.context_stack@,
                        s,
                        before.goal@,
                        self.goal@,
                    );
                    self.saved@ = before.saved@.drop_last();
                    assert(self.context_stack@ =~= before.context_stack@.drop_last());
                    lemma_rewound_prefix(before.goal@.j, before.goal@.trail, top.1.trail.len());
                    assert forall|k: int| 0 <= k < self.goal@.j.assertions.len() implies (
                    #[trigger] self.goal@.j.assertions[k]) < self.terms@.len() by {
                        assert(self.goal@.j.assertions[k] == before.goal@.j.assertions[k]);
                    }
                }
            },
            None => {},
        }
    }
}

/// What a scope found holds again.
pub open spec fn restored(found: GoalView, e: GoalView) -> bool {
    &&& e.j == found.j
    &&& e.trail == found.trail
    &&& e.clauses == found.clauses
    &&& e.term_of == found.term_of
    &&& e.exceeded == found.exceeded
    &&& e.quantified == found.quantified
    &&& e.bv_arith == found.bv_arith
    &&& e.arrays == found.arrays
}

/// Undoing takes assertions from the end.
proof fn lemma_rewound_prefix(j: Journaled, trail: Seq<TrailOp>, n: nat)
    ensures
        rewind(j, trail, n).assertions.len() <= j.assertions.len(),
        forall|k: int|
            0 <= k < rewind(j, trail, n).assertions.len() ==> #[trigger] rewind(
                j,
                trail,
                n,
            ).assertions[k] == j.assertions[k],
    decreases trail.len(),
{
    if trail.len() > n {
        let j1 = undo(j, trail.last());
        lemma_rewound_prefix(j1, trail.drop_last(), n);
        assert forall|k: int| 0 <= k < rewind(j, trail, n).assertions.len() implies
            #[trigger] rewind(j, trail, n).assertions[k] == j.assertions[k] by {
            assert(rewind(j1, trail.drop_last(), n).assertions[k] == j1.assertions[k]);
        }
    }
}

/// Closing a scope gives back what was there when it was opened, whatever was
/// done in between.
pub proof fn closing_undoes_opening(a: &Solver, b: &Solver, c: &Solver, d: &Solver)
    requires
        b.opened(a),
        c.saved@ == b.saved@,
        c.context_stack@ == b.context_stack@,
        d.closed(c),
    ensures
        restored(a.goal@, d.goal@),
        d.context_stack@ == a.context_stack@,
        d.saved@ == a.saved@,
        d.dt_axioms_incomplete == a.dt_axioms_incomplete,
        d.tables.unit_eq_rep@ == a.tables.unit_eq_rep@,
{
    assert(b.saved@.last() == (a.terms@, a.goal@));
    assert(b.saved@.drop_last() =~= a.saved@);
}

/// The same domains, and the same terms split into cases.
pub open spec fn same_domains(a: &TableState, b: &TableState) -> bool {
    &&& b.table_index_domain_eqs == a.table_index_domain_eqs
    &&& b.case_split_terms == a.case_split_terms
}

/// Domains keep their literals when variables are added.
pub(crate) proof fn lemma_domains_kept(
    s0: Seq<TermView>,
    e0: GoalView,
    s1: Seq<TermView>,
    e1: GoalView,
    a: &TableState,
    b: &TableState,
)
    requires
        grown_from(s0, e0, s1, e1),
        domains_inv(s0, e0, a),
        same_domains(a, b),
    ensures
        domains_inv(s1, e1, b),
{
    assert forall|t: TermId| #[trigger] b.table_index_domain_eqs@.contains_key(t) implies
        domain_pairs(s1, e1, t, b.table_index_domain_eqs@[t]@) by {
        assert(a.table_index_domain_eqs@.contains_key(t));
        let pairs = a.table_index_domain_eqs@[t]@;
        assert forall|j: int| 0 <= j < pairs.len() implies value_literal(
            s1,
            e1,
            t,
            (#[trigger] pairs[j]).0,
            pairs[j].1,
        ) by {
            lemma_value_literal_extend(
                s0,
                e0,
                s1,
                e1,
                t,
                pairs[j].0,
                pairs[j].1,
            );
        }
    }
}

/// Named terms are replaced by their names, once there are tables.
#[verifier::opaque]
pub open spec fn names_folded(
    tables: &TableState,
    s0: Seq<TermView>,
    s1: Seq<TermView>,
    t: TermId,
    r: TermId,
) -> bool {
    if tables.table_index_terms@ == Set::<TermId>::empty() {
        r == t && s1 == s0
    } else {
        subst(s1, proper_aliases(tables.unit_eq_rep@), t, r)
    }
}

/// The aliases that `t` gives have been noted.
#[verifier::opaque]
pub open spec fn noted_alias(s: Seq<TermView>, a: &TableState, b: &TableState, t: TermId) -> bool {
    &&& b.unit_eq_rep@ == aliases_noted(s, a.unit_eq_rep@, t)
    &&& *b == (TableState { unit_eq_rep: b.unit_eq_rep, ..*a })
}

/// Lookup tables are replaced by result variables, if there are any.
#[verifier::opaque]
pub open spec fn tables_replaced(
    s0: Seq<TermView>,
    a: &TableState,
    s1: Seq<TermView>,
    b: &TableState,
    t: TermId,
    r: TermId,
) -> bool {
    if exists|x: TermId|
        subterm(s0, t, x) && (#[trigger] spine(s0, x)).1.len() >= MIN_TABLE_CASES {
        exists|m: Map<TermId, TermId>, ts: Seq<EqIteTable>, sides: Seq<TermId>| #[trigger]
            flattening(s0, a, s1, b, m, ts, sides, t, r)
    } else {
        r == t && *b == *a && s1 == s0
    }
}

/// Nests of conditionals between 0 and 1 are folded, if such terms are known.
#[verifier::opaque]
pub open spec fn nests_folded(
    s0: Seq<TermView>,
    a: &TableState,
    s1: Seq<TermView>,
    b: &TableState,
    t: TermId,
    r: TermId,
) -> bool {
    if a.zero_one_terms@ == Set::<TermId>::empty() {
        r == t && *b == *a && s1 == s0
    } else {
        only_folded(a, b) && rounds_folded(
            s1,
            FOLD_ROUNDS as int,
            t,
            a.zero_one_terms@,
            r,
            b.zero_one_terms@,
        ) && tables_folded(s1, FOLD_ROUNDS as int, t, a, b)
    }
}

/// Conditionals that are no formulas are replaced by variables.
#[verifier::opaque]
pub open spec fn ites_replaced(
    s0: Seq<TermView>,
    a: &TableState,
    s1: Seq<TermView>,
    b: &TableState,
    t: TermId,
    r: TermId,
) -> bool {
    if exists|k: TermId| #[trigger] subterm(s0, t, k) && value_ite(s0, k) {
        only_aliases_change(a, b) && exists|m: Map<TermId, TermId>, ks: Seq<TermId>| #[trigger]
            ites_eliminated(s1, m, ks, t, r) && tables_carried(s1, m, ks, a, b)
    } else {
        r == t && s1 == s0 && *b == *a
    }
}

/// Arguments of applications are replaced by variables.
#[verifier::opaque]
pub open spec fn arguments_replaced(
    s0: Seq<TermView>,
    s1: Seq<TermView>,
    kind: ArgKind,
    t: TermId,
    r: TermId,
) -> bool {
    if (kind == ArgKind::Bool || quantifier_free(s0, t)) && exists|k: TermId| #[trigger]
        replaced_arg(s0, kind, t, k) {
        exists|m: Map<TermId, TermId>, ks: Seq<TermId>|
            lists_replaced(s0, kind, t, ks) && #[trigger] defined_by_equations(s1, kind, m, ks, t, r)
    } else {
        r == t && s1 == s0
    }
}

/// The stages of an assertion: what was asserted, with named terms replaced,
/// without tables, without nests, without conditionals, without compound
/// Boolean arguments.
pub struct Stages {
    pub stores: Seq<Seq<TermView>>,
    pub tables: Seq<TableState>,
    pub forms: Seq<TermId>,
}

/// The stores of the stages grow, and each form is a term of its store.
pub open spec fn stores_grow(st: Stages) -> bool {
    &&& forall|k: int|
        0 <= k < 7 ==> terms_wf(#[trigger] st.stores[k]) && st.forms[k] < st.stores[k].len()
    &&& forall|j: int, k: int|
        0 <= j <= k < 7 ==> extends(#[trigger] st.stores[j], #[trigger] st.stores[k])
}

/// Each stage comes from the one before.
pub open spec fn stages_ok(st: Stages) -> bool {
    &&& st.stores.len() == 7
    &&& st.tables.len() == 5
    &&& st.forms.len() == 7
    &&& stores_grow(st)
    &&& names_folded(&st.tables[0], st.stores[0], st.stores[1], st.forms[0], st.forms[1])
    &&& noted_alias(st.stores[1], &st.tables[0], &st.tables[1], st.forms[1])
    &&& tables_replaced(
        st.stores[1],
        &st.tables[1],
        st.stores[2],
        &st.tables[2],
        st.forms[1],
        st.forms[2],
    )
    &&& nests_folded(
        st.stores[2],
        &st.tables[2],
        st.stores[3],
        &st.tables[3],
        st.forms[2],
        st.forms[3],
    )
    &&& ites_replaced(
        st.stores[3],
        &st.tables[3],
        st.stores[4],
        &st.tables[4],
        st.forms[3],
        st.forms[4],
    )
    &&& arguments_replaced(
        st.stores[4],
        st.stores[5],
        ArgKind::Bool,
        st.forms[4],
        st.forms[5],
    )
    &&& arguments_replaced(
        st.stores[5],
        st.stores[6],
        ArgKind::Numeric,
        st.forms[5],
        st.forms[6],
    )
}

/// `r` is what an assertion `t` is rewritten to.
pub open spec fn rewritten(
    s0: Seq<TermView>,
    a: &TableState,
    s1: Seq<TermView>,
    b: &TableState,
    t: TermId,
    r: TermId,
) -> bool {
    exists|st: Stages| #[trigger]
        stages_ok(st) && st.stores[0] == s0 && st.stores[6] == s1 && st.tables[0] == *a
            && st.tables[4] == *b && st.forms[0] == t && st.forms[6] == r
}

/// Puts names for named terms, and notes the aliases that the result gives.
fn fold_names(tables: &mut TableState, store: &mut TermStore, t: TermId) -> (r: TermId)
    requires
        old(store).wf(),
        old(tables).wf(old(store).terms()),
        t < old(store).terms().len(),
    ensures
        grew(old(store), final(store)),
        final(tables).wf(final(store).terms()),
        same_domains(old(tables), final(tables)),
        r < final(store).terms().len(),
        names_folded(old(tables), old(store).terms(), final(store).terms(), t, r),
        noted_alias(final(store).terms(), old(tables), final(tables), r),
{
    let ghost s0 = store.terms();
    let r = tables.fold_unit_eq_reps(store, t);
    proof {
        tables.lemma_wf_extend(s0, store.terms());
        reveal(names_folded);
        reveal(noted_alias);
    }
    tables.note_unit_eq_alias(store, r);
    r
}

/// Replaces lookup tables.
fn replace_tables(tables: &mut TableState, store: &mut TermStore, t: TermId) -> (r: TermId)
    requires
        old(store).wf(),
        old(tables).wf(old(store).terms()),
        t < old(store).terms().len(),
    ensures
        grew(old(store), final(store)),
        final(tables).wf(final(store).terms()),
        same_domains(old(tables), final(tables)),
        r < final(store).terms().len(),
        tables_replaced(
            old(store).terms(),
            old(tables),
            final(store).terms(),
            final(tables),
            t,
            r,
        ),
{
    let ghost s0 = store.terms();
    let r = tables.flatten_eq_ite_tables(store, t);
    proof {
        reveal(tables_replaced);
        if !(exists|x: TermId|
            subterm(s0, t, x) && (#[trigger] spine(s0, x)).1.len() >= MIN_TABLE_CASES) {
            assert forall|x: TermId| subterm(s0, t, x) implies (#[trigger] spine(s0, x)).1.len()
                < MIN_TABLE_CASES by {}
        }
    }
    r
}

/// Folds nests of conditionals.
fn fold_nests(tables: &mut TableState, store: &mut TermStore, t: TermId) -> (r: TermId)
    requires
        old(store).wf(),
        old(tables).wf(old(store).terms()),
        t < old(store).terms().len(),
    ensures
        grew(old(store), final(store)),
        final(tables).wf(final(store).terms()),
        same_domains(old(tables), final(tables)),
        r < final(store).terms().len(),
        nests_folded(
            old(store).terms(),
            old(tables),
            final(store).terms(),
            final(tables),
            t,
            r,
        ),
{
    let r = tables.fold_zero_one_nests(store, t);
    reveal(nests_folded);
    r
}

/// Replaces conditionals that are no formulas.
fn replace_ites(tables: &mut TableState, store: &mut TermStore, t: TermId) -> (r: TermId)
    requires
        old(store).wf(),
        old(tables).wf(old(store).terms()),
        t < old(store).terms().len(),
    ensures
        grew(old(store), final(store)),
        final(tables).wf(final(store).terms()),
        same_domains(old(tables), final(tables)),
        r < final(store).terms().len(),
        ites_replaced(
            old(store).terms(),
            old(tables),
            final(store).terms(),
            final(tables),
            t,
            r,
        ),
{
    let r = eliminate_nonbool_ite(tables, store, t);
    reveal(ites_replaced);
    r
}

/// Replaces arguments of applications.
fn replace_arguments(store: &mut TermStore, kind: ArgKind, t: TermId) -> (r: TermId)
    requires
        old(store).wf(),
        t < old(store).terms().len(),
    ensures
        grew(old(store), final(store)),
        r < final(store).terms().len(),
        arguments_replaced(old(store).terms(), final(store).terms(), kind, t, r),
{
    let r = match kind {
        ArgKind::Bool => abstract_compound_bool_args(store, t),
        ArgKind::Numeric => purify_numeric_uf_args(store, t),
    };
    reveal(arguments_replaced);
    r
}

proof fn lemma_stores_grow(st: Stages)
    requires
        st.stores.len() == 7,
        st.forms.len() == 7,
        terms_wf(st.stores[0]),
        terms_wf(st.stores[1]),
        terms_wf(st.stores[2]),
        terms_wf(st.stores[3]),
        terms_wf(st.stores[4]),
        terms_wf(st.stores[5]),
        terms_wf(st.stores[6]),
        st.forms[0] < st.stores[0].len(),
        st.forms[1] < st.stores[1].len(),
        st.forms[2] < st.stores[2].len(),
        st.forms[3] < st.stores[3].len(),
        st.forms[4] < st.stores[4].len(),
        st.forms[5] < st.stores[5].len(),
        st.forms[6] < st.stores[6].len(),
        extends(st.stores[0], st.stores[1]),
        extends(st.stores[1], st.stores[2]),
        extends(st.stores[2], st.stores[3]),
        extends(st.stores[3], st.stores[4]),
        extends(st.stores[4], st.stores[5]),
        extends(st.stores[5], st.stores[6]),
    ensures
        stores_grow(st),
{
    assert forall|k: int| 0 <= k < 7 implies terms_wf(#[trigger] st.stores[k]) && st.forms[k]
        < st.stores[k].len() by {
        if k == 0 || k == 1 || k == 2 || k == 3 || k == 4 || k == 5 || k == 6 {
        }
    }
    assert forall|j: int, k: int| 0 <= j <= k < 7 implies extends(
        #[trigger] st.stores[j],
        #[trigger] st.stores[k],
    ) by {
        lemma_stores_extend(st.stores, j, k);
    }
}

proof fn lemma_stores_extend(stores: Seq<Seq<TermView>>, j: int, k: int)
    requires
        stores.len() == 7,
        0 <= j <= k < 7,
        extends(stores[0], stores[1]),
        extends(stores[1], stores[2]),
        extends(stores[2], stores[3]),
        extends(stores[3], stores[4]),
        extends(stores[4], stores[5]),
        extends(stores[5], stores[6]),
    ensures
        extends(stores[j], stores[k]),
    decreases k - j,
{
    if j < k {
        lemma_stores_extend(stores, j, k - 1);
        if k == 1 || k == 2 || k == 3 || k == 4 || k == 5 || k == 6 {
            assert(extends(stores[k - 1], stores[k]));
        }
        assert forall|t: int| 0 <= t < stores[j].len() implies #[trigger] stores[k][t]
            == stores[j][t] by {
            assert(stores[k - 1][t] == stores[j][t]);
        }
    }
}

/// Rewrites an assertion before it is entered.
pub fn rewrite_assertion(tables: &mut TableState, store: &mut TermStore, term: TermId) -> (r: TermId)
    requires
        old(store).wf(),
        old(tables).wf(old(store).terms()),
        term < old(store).terms().len(),
    ensures
        grew(old(store), final(store)),
        final(tables).wf(final(store).terms()),
        same_domains(old(tables), final(tables)),
        r < final(store).terms().len(),
        rewritten(
            old(store).terms(),
            old(tables),
            final(store).terms(),
            final(tables),
            term,
            r,
        ),
{
    let ghost s0 = store.terms();
    let ghost a0 = *tables;
    let t1 = fold_names(tables, store, term);
    let ghost s1 = store.terms();
    let ghost a1 = *tables;
    let t2 = replace_tables(tables, store, t1);
    let ghost s2 = store.terms();
    let ghost a2 = *tables;
    let t3 = fold_nests(tables, store, t2);
    let ghost s3 = store.terms();
    let ghost a3 = *tables;
    let t4 = replace_ites(tables, store, t3);
    let ghost s4 = store.terms();
    let ghost a4 = *tables;
    let t5 = replace_arguments(store, ArgKind::Bool, t4);
    let ghost s5 = store.terms();
    let t6 = replace_arguments(store, ArgKind::Numeric, t5);
    let ghost s6 = store.terms();
    proof {
        tables.lemma_wf_extend(s4, s6);
        let st = Stages {
            stores: seq![s0, s1, s2, s3, s4, s5, s6],
            tables: seq![a0, a1, a2, a3, a4],
            forms: seq![term, t1, t2, t3, t4, t5, t6],
        };
        lemma_stores_grow(st);
        assert(stages_ok(st));
    }
    t6
}

/// Assertions.
impl Solver {
    /// Nothing but the assertions, the tables and the answers has changed.
    pub open spec fn only_asserts(&self, before: &Solver) -> bool {
        *self == (Solver {
            goal: self.goal,
            tables: self.tables,
            terms: self.terms,
            model: None,
            unsat_core: None,
            last_check: None,
            ..*before
        })
    }

    /// Enters an assertion after rewriting it.  The rewritten term is returned
    /// with its place, and whether there is more to do: then
    /// [`Solver::finish_assertion`] is to follow.
    ///
    /// A term that is nested too deeply makes every later check incomplete.
    pub fn assert_term(&mut self, term: TermId, store: &mut TermStore) -> (r: (TermId, usize, bool))
        requires
            old(self).fits(old(store)),
            term < old(store).terms().len(),
        ensures
            grew(old(store), final(store)),
            final(self).fits(final(store)),
            final(self).only_asserts(old(self)),
            r.0 < final(store).terms().len(),
            rewritten(
                old(store).terms(),
                &old(self).tables,
                final(store).terms(),
                &final(self).tables,
                term,
                r.0,
            ),
            r.1 == old(self).goal@.j.assertions.len(),
            r.2 == (r.0 != FALSE_TERM && r.0 != TRUE_TERM && nesting(
                final(store).terms(),
                r.0 as int,
            ) <= ENCODE_DEPTH_LIMIT),
            entered(final(store).terms(), old(self).goal@, final(self).goal@, r.0, None),
    {
        let ghost before = *self;
        let ghost s0 = store.terms();
        proof {
            self.tables.lemma_wf_extend(self.terms@, s0);
        }
        let t = rewrite_assertion(&mut self.tables, store, term);
        proof {
            lemma_grown_refl(self.terms@, self.goal@);
            lemma_domains_kept(
                self.terms@,
                self.goal@,
                self.terms@,
                self.goal@,
                &before.tables,
                &self.tables,
            );
        }
        let (more, index) = self.enter(t, store, None);
        (t, index, more)
    }

    /// Enters an assertion as it stands, under a name.
    pub fn assert_named(&mut self, term: TermId, name: String, store: &TermStore) -> (r: (usize, bool))
        requires
            old(self).fits(store),
            term < store.terms().len(),
        ensures
            final(self).fits(store),
            final(self).only_asserts(old(self)),
            final(self).tables == old(self).tables,
            r.0 == old(self).goal@.j.assertions.len(),
            r.1 == (term != FALSE_TERM && term != TRUE_TERM && nesting(
                store.terms(),
                term as int,
            ) <= ENCODE_DEPTH_LIMIT),
            entered(store.terms(), old(self).goal@, final(self).goal@, term, Some(name@)),
    {
        proof {
            self.tables.lemma_wf_extend(self.terms@, store.terms());
        }
        let (more, index) = self.enter(term, store, Some(name));
        (index, more)
    }

    fn enter(&mut self, term: TermId, store: &TermStore, name: Option<String>) -> (r: (bool, usize))
        requires
            goal_inv(old(self).terms@, old(self).goal@),
            forall|k: int|
                0 <= k < old(self).goal@.j.assertions.len() ==> (
                #[trigger] old(self).goal@.j.assertions[k]) < old(self).terms@.len(),
            stated(old(self).terms@, old(self).goal@.j.assertions, &old(self).entailed),
            scopes_ok(
                old(self).saved@,
                old(self).context_stack@,
                old(self).terms@,
                old(self).goal@,
            ),
            old(self).tables.wf(store.terms()),
            domains_inv(old(self).terms@, old(self).goal@, &old(self).tables),
            store.wf(),
            extends(old(self).terms@, store.terms()),
            term < store.terms().len(),
        ensures
            final(self).fits(store),
            final(self).only_asserts(old(self)),
            final(self).tables == old(self).tables,
            final(self).terms@ == store.terms(),
            r.1 == old(self).goal@.j.assertions.len(),
            r.0 == (term != FALSE_TERM && term != TRUE_TERM && nesting(
                store.terms(),
                term as int,
            ) <= ENCODE_DEPTH_LIMIT),
            entered(store.terms(), old(self).goal@, final(self).goal@, term, text_of(name)),
    {
        let ghost before = *self;
        let ghost s = store.terms();
        self.invalidate_results();
        proof {
            lemma_store_grown(before.terms@, s, before.goal@);
            lemma_scopes_grow(
                before.saved@,
                before.context_stack@,
                before.terms@,
                before.goal@,
                s,
                before.goal@,
            );
            self.terms@ = s;
        }
        let r = self.goal.begin_assertion(store, term, name);
        proof {
            lemma_scopes_grow(
                before.saved@,
                before.context_stack@,
                s,
                before.goal@,
                s,
                self.goal@,
            );
            assert(self.goal@.j.assertions == before.goal@.j.assertions.push(term));
            lemma_grown_trans(
                before.terms@,
                before.goal@,
                s,
                before.goal@,
                s,
                self.goal@,
            );
            lemma_domains_kept(
                before.terms@,
                before.goal@,
                s,
                self.goal@,
                &before.tables,
                &self.tables,
            );
            lemma_stated_carry(
                before.terms@,
                s,
                before.goal@.j.assertions,
                self.goal@.j.assertions,
                &before.entailed,
            );
        }
        r
    }

    pub(crate) proof fn lemma_after_growth(&self, before: &Solver, store: &TermStore)
        requires
            before.valid(),
            before.terms@ == self.terms@ || extends(before.terms@, self.terms@),
            grown_from(before.terms@, before.goal@, self.terms@, self.goal@),
            store.wf(),
            self.terms@ == store.terms(),
            self.tables.wf(self.terms@),
            same_domains(&before.tables, &self.tables),
            self.saved@ == before.saved@,
            self.context_stack@ == before.context_stack@,
            self.entailed == before.entailed,
            self.goal@.j.assertions == before.goal@.j.assertions,
        ensures
            self.fits(store),
    {
        lemma_domains_kept(
            before.terms@,
            before.goal@,
            self.terms@,
            self.goal@,
            &before.tables,
            &self.tables,
        );
        lemma_scopes_grow(
            before.saved@,
            before.context_stack@,
            before.terms@,
            before.goal@,
            self.terms@,
            self.goal@,
        );
        lemma_stated_carry(
            before.terms@,
            self.terms@,
            before.goal@.j.assertions,
            self.goal@.j.assertions,
            &before.entailed,
        );
    }

    /// Takes in what the assertion at `index` has become.
    ///
    /// `t` is the assertion after simplification, expansion and Skolemization,
    /// `built` is the variable and the constructor where it equates the two, and
    /// `occurrences` lists the polarities of its subformulas.  The quantified
    /// formulas that may be instantiated are returned.
    pub fn finish_assertion(
        &mut self,
        store: &mut TermStore,
        term: TermId,
        index: usize,
        t: TermId,
        built: Option<(TermId, NameId)>,
        occurrences: &Vec<(TermId, Polarity)>,
    ) -> (found: Vec<AssertedQuantifier>)
        requires
            old(self).fits(old(store)),
            t < old(store).terms().len(),
        ensures
            grew(old(store), final(store)),
            final(self).fits(final(store)),
            *final(self) == (Solver {
                goal: final(self).goal,
                tables: final(self).tables,
                terms: final(self).terms,
                ..*old(self)
            }),
            t == TRUE_TERM || t == FALSE_TERM || clashes(old(self).goal@, built) ==> found@.len()
                == 0 && final(store).terms() == old(store).terms() && final(self).tables == old(self).tables,
            t == FALSE_TERM || (t != TRUE_TERM && clashes(old(self).goal@, built)) ==> final(self).goal@ == refuted(old(self).goal@),
            t == TRUE_TERM ==> final(self).goal@ == old(self).goal@,
            t != TRUE_TERM && t != FALSE_TERM && !clashes(old(self).goal@, built)
                ==> lists_quantifiers(old(store).terms(), t, found@) && noted_alias(
                final(store).terms(),
                &old(self).tables,
                &final(self).tables,
                t,
            ) && completed(
                old(store).terms(),
                readied(noted(old(self).goal@, built), occurrences@),
                final(store).terms(),
                final(self).goal@,
                term,
                None,
                index,
                t,
            ),
    {
        let ghost before = *self;
        let ghost s0 = store.terms();
        proof {
            lemma_store_grown(before.terms@, s0, before.goal@);
        }
        let settled = t == TRUE_TERM || t == FALSE_TERM || self.clash(built);
        let found = self.goal.encode_assertion(store, term, index, t, built, occurrences);
        proof {
            lemma_grown_trans(before.terms@, before.goal@, s0, before.goal@, store.terms(), self.goal@);
            self.terms@ = store.terms();
            self.tables.lemma_wf_extend(before.terms@, store.terms());
        }
        if !settled {
            self.tables.note_unit_eq_alias(store, t);
            reveal(noted_alias);
        }
        proof {
            lemma_completed_assertions(
                s0,
                readied(noted(before.goal@, built), occurrences@),
                store.terms(),
                self.goal@,
                term,
                None,
                index,
                t,
            );
            self.lemma_after_growth(&before, store);
        }
        found
    }

    fn clash(&self, built: Option<(TermId, NameId)>) -> (b: bool)
        ensures
            b == clashes(self.goal@, built),
    {
        match built {
            Some((var, constructor)) => match crate::collections::map_get(
                &self.goal.dt_var_constructors,
                var,
            ) {
                Some(known) => *known != constructor,
                None => false,
            },
            None => false,
        }
    }

    /// Takes in what a named assertion has become.
    pub fn finish_named(
        &mut self,
        store: &mut TermStore,
        term: TermId,
        index: usize,
        name: String,
        t: TermId,
        occurrences: &Vec<(TermId, Polarity)>,
    ) -> (found: Vec<AssertedQuantifier>)
        requires
            old(self).fits(old(store)),
            t < old(store).terms().len(),
        ensures
            grew(old(store), final(store)),
            final(self).fits(final(store)),
            *final(self) == (Solver {
                goal: final(self).goal,
                terms: final(self).terms,
                ..*old(self)
            }),
            lists_quantifiers(old(store).terms(), t, found@),
            completed(
                old(store).terms(),
                readied(old(self).goal@, occurrences@),
                final(store).terms(),
                final(self).goal@,
                term,
                Some(name@),
                index,
                t,
            ),
    {
        let ghost before = *self;
        let ghost s0 = store.terms();
        let ghost text = name@;
        proof {
            lemma_store_grown(before.terms@, s0, before.goal@);
        }
        let found = self.goal.encode_named_assertion(store, term, index, name, t, occurrences);
        proof {
            lemma_grown_trans(before.terms@, before.goal@, s0, before.goal@, store.terms(), self.goal@);
            self.terms@ = store.terms();
            self.tables.lemma_wf_extend(before.terms@, store.terms());
            lemma_completed_assertions(
                s0,
                readied(before.goal@, occurrences@),
                store.terms(),
                self.goal@,
                term,
                Some(text),
                index,
                t,
            );
            self.lemma_after_growth(&before, store);
        }
        found
    }

    /// Reads the integer values that assertions state off those not read yet.
    pub fn refresh_entailed(&mut self, store: &TermStore)
        requires
            old(self).fits(store),
        ensures
            final(self).fits(store),
            *final(self) == (Solver {
                entailed: final(self).entailed,
                terms: final(self).terms,
                ..*old(self)
            }),
            final(self).terms@ == store.terms(),
            final(self).entailed.upto == final(self).goal@.j.assertions.len(),
            forall|t: TermId, v: int| #[trigger]
                pinned_between(
                    store.terms(),
                    old(self).goal@.j.assertions,
                    old(self).entailed.upto as int,
                    old(self).goal@.j.assertions.len() as int,
                    t,
                    v,
                ) ==> final(self).entailed.values@.contains_key(t),
            forall|t: TermId| #[trigger]
                old(self).entailed.values@.contains_key(t) ==> final(self).entailed.values@.contains_key(t) && final(self).entailed.values@[t] == old(self).entailed.values@[t],
    {
        let ghost before = *self;
        let ghost s = store.terms();
        let ghost given = self.goal@.j.assertions;
        proof {
            lemma_store_grown(before.terms@, s, before.goal@);
            assert(forall|k: int| 0 <= k < given.len() ==> given[k] < before.terms@.len());
        }
        self.entailed.refresh_entailed_int_constants(store, &self.goal.assertions);
        proof {
            self.terms@ = s;
            self.tables.lemma_wf_extend(before.terms@, s);
            lemma_domains_kept(
                before.terms@,
                before.goal@,
                s,
                before.goal@,
                &before.tables,
                &self.tables,
            );
            lemma_scopes_grow(
                before.saved@,
                before.context_stack@,
                before.terms@,
                before.goal@,
                s,
                before.goal@,
            );
            assert forall|t: TermId| #[trigger] self.entailed.values@.contains_key(t) implies
                pinned_between(s, given, 0, given.len() as int, t, self.entailed.values@[t].value()) by {
                let v = self.entailed.values@[t].value();
                if before.entailed.values@.contains_key(t) {
                    lemma_pinned_carry(
                        before.terms@,
                        s,
                        given,
                        given,
                        0,
                        before.entailed.upto as int,
                        0,
                        given.len() as int,
                        t,
                        v,
                    );
                } else {
                    lemma_pinned_carry(
                        s,
                        s,
                        given,
                        given,
                        before.entailed.upto as int,
                        given.len() as int,
                        0,
                        given.len() as int,
                        t,
                        v,
                    );
                }
            }
            let (n, m) = (before.entailed.upto as int, given.len() as int);
            assert forall|t: TermId, v: int| #[trigger]
                pinned_between(s, given, 0, m, t, v) implies self.entailed.values@.contains_key(t) by {
                lemma_pinned_split(s, given, 0, n, m, t, v);
                if pinned_between(s, given, 0, n, t, v) {
                    lemma_pinned_back(before.terms@, s, given, given, 0, n, t, v);
                    assert(before.entailed.values@.contains_key(t));
                }
            }
        }
    }

    /// Whether quantifiers of an assertion are to be expanded over finite
    /// domains.  The integer values that assertions state are then read, since
    /// bounds may depend on them.
    pub fn finite_expand_assertion(&mut self, store: &TermStore, term: TermId) -> (expand: bool)
        requires
            old(self).fits(store),
            term < store.terms().len(),
        ensures
            final(self).fits(store),
            expand == (old(self).config.finite_expansion_budget != 0 && !quantifier_free(
                store.terms(),
                term,
            )),
            !expand ==> *final(self) == *old(self),
            expand ==> final(self).entailed.upto == final(self).goal@.j.assertions.len(),
            expand ==> forall|t: TermId| #[trigger]
                final(self).entailed.values@.contains_key(t) <==> exists|v: int| #[trigger]
                    pinned_between(
                        store.terms(),
                        old(self).goal@.j.assertions,
                        0,
                        old(self).goal@.j.assertions.len() as int,
                        t,
                        v,
                    ),
            expand ==> forall|t: TermId| #[trigger]
                final(self).entailed.values@.contains_key(t) ==> pinned_between(
                    store.terms(),
                    old(self).goal@.j.assertions,
                    0,
                    old(self).goal@.j.assertions.len() as int,
                    t,
                    final(self).entailed.values@[t].value(),
                ),
            expand ==> forall|t: TermId| #[trigger]
                old(self).entailed.values@.contains_key(t) ==> final(self).entailed.values@.contains_key(
                    t,
                ) && final(self).entailed.values@[t] == old(self).entailed.values@[t],
            *final(self) == (Solver {
                entailed: final(self).entailed,
                terms: final(self).terms,
                ..*old(self)
            }),
    {
        if self.config.finite_expansion_budget == 0 {
            return false;
        }
        let list = collect_subterms(store, term);
        if !any_quantifier(store, term, &list) {
            return false;
        }
        self.refresh_entailed(store);
        true
    }

    /// What was set, but for the logic, and what was counted are as before.
    pub open spec fn keeps_settings(&self, before: &Solver) -> bool {
        &&& self.config == before.config
        &&& self.produce_unsat_cores == before.produce_unsat_cores
        &&& self.theory_aware_branching == before.theory_aware_branching
        &&& self.statistics == before.statistics
        &&& self.goal@.aware == before.goal@.aware
    }

    /// Back to a solver without assertions and logic; what else was set stays
    /// set.
    pub fn reset(&mut self)
        ensures
            final(self).fresh(),
            forall|store: &TermStore| store.wf() ==> #[trigger] final(self).fits(store),
            final(self).goal@.j.dt_axioms == Set::<TermId>::empty(),
            final(self).logic is None,
            final(self).keeps_settings(old(self)),
            !final(self).dt_axioms_incomplete,
    {
        let mut next = Solver::with_config(self.config);
        let ghost clean = next.goal@;
        next.goal.polarity_aware = self.goal.polarity_aware;
        proof {
            let e = next.goal@;
            assert(e.parsed =~= clean.parsed);
            assert(e.cache =~= clean.cache);
            assert(e.clauses =~= clean.clauses);
            assert forall|s: Seq<TermView>| goal_inv(s, clean) implies #[trigger] goal_inv(s, e) by {
                crate::assertion::lemma_same_core(s, clean, e);
            }
            assert(goal_inv(next.terms@, e));
        }
        next.produce_unsat_cores = self.produce_unsat_cores;
        next.theory_aware_branching = self.theory_aware_branching;
        next.statistics = self.statistics;
        proof {
            assert forall|store: &TermStore| store.wf() implies #[trigger] next.fits(store) by {
                assert(extends(next.terms@, store.terms())) by {
                    lemma_first_terms(next.terms@, store.terms());
                }
            }
        }
        *self = next;
    }
}

/// The known integers are exactly the consequences that the live assertions
/// state: where all of them were read, a term has a value exactly where a conjunct
/// of one gives it one, and the value is such a one.
pub proof fn known_integers_are_exact(x: &Solver, t: TermId)
    requires
        x.valid(),
        x.entailed.upto == x.goal@.j.assertions.len(),
    ensures
        x.entailed.values@.contains_key(t) <==> exists|v: int| #[trigger]
            pinned_between(
                x.terms@,
                x.goal@.j.assertions,
                0,
                x.goal@.j.assertions.len() as int,
                t,
                v,
            ),
        x.entailed.values@.contains_key(t) ==> pinned_between(
            x.terms@,
            x.goal@.j.assertions,
            0,
            x.goal@.j.assertions.len() as int,
            t,
            x.entailed.values@[t].value(),
        ),
{
}

/// The Boolean constants are the first terms of every store.
proof fn lemma_first_terms(a: Seq<TermView>, b: Seq<TermView>)
    requires
        terms_wf(a),
        terms_wf(b),
        a.len() == 2,
    ensures
        extends(a, b),
{
    assert(node_below(a, 0) && node_below(a, 1));
    assert(node_below(b, 0) && node_below(b, 1));
    assert(a[0].op == Op::True && a[1].op == Op::False);
    assert(b[0].op == Op::True && b[1].op == Op::False);
    assert(a[0].args =~= b[0].args);
    assert(a[1].args =~= b[1].args);
}

/// Taking an assertion in leaves the list of assertions alone.
proof fn lemma_completed_assertions(
    s0: Seq<TermView>,
    e0: GoalView,
    s1: Seq<TermView>,
    e1: GoalView,
    term: TermId,
    name: Option<Seq<char>>,
    index: usize,
    t: TermId,
)
    ensures
        completed(s0, e0, s1, e1, term, name, index, t) ==> e1.j.assertions == e0.j.assertions,
{
    if completed(s0, e0, s1, e1, term, name, index, t) {
        let e = choose|e: GoalView| #[trigger]
            completed_through(s0, e0, e, s1, e1, term, name, index, t);
        let (sm, em, l) = choose|sm: Seq<TermView>, em: GoalView, l: Lit| #[trigger]
            taken_through(s0, e0, sm, em, l, s1, e, t);
    }
}

} // verus!
