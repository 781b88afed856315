//! The course of a satisfiability check.
//!
//! A check alternates between decisions and work that the engines do: axiom
//! instantiation, the propositional search, quantifier instantiation.  The
//! decisions are made here: given what the engines reported last, they say what
//! is to be done next, or what the answer is.

use crate::nonlinear::{
    all_atoms, atoms_conflict, check_nonlinear_constraints, effective_logic, integer_logic,
    open_logic, real_logic,
};
use crate::state::GoalState;
use crate::strings::{
    check_string_constraints, has_string_atom, string_atoms_need_theory, strings_conflict,
};
use crate::terms::TermStore;
use vstd::prelude::*;

verus! {

/// The answer of a check.
#[derive(Clone, Copy, PartialEq, Eq, Debug, Structural)]
pub enum SolverResult {
    Sat,
    Unsat,
    Unknown,
}

/// How often quantifiers are instantiated before the check gives up.
pub const MAX_MBQI_ROUNDS: u32 = 100;

/// How often array axioms are instantiated before the check gives up.
pub const MAX_ARRAY_ROUNDS: u32 = 256;

/// After how many rounds without a verdict quantifiers are instantiated over
/// finite domains.
pub const FINITE_ROUND: u32 = 2;

/// After how many rounds the check gives up on quantifiers without a verdict.
pub const UNKNOWN_ROUNDS: u32 = 10;

/// Which instances lemmas come with.
#[derive(Clone, Copy, PartialEq, Eq, Debug, Structural)]
pub enum LemmaSource {
    /// From a model: integer domains, exclusions of pigeons, and what trigger
    /// matching finds.
    Model,
    /// Without a model: integer domains and exclusions of pigeons.
    Blind,
    /// Over finite domains: the same.
    Finite,
}

/// What is to be done next.
#[derive(Clone, Copy, PartialEq, Eq, Debug, Structural)]
pub enum Action {
    /// Define the arithmetic terms without a linear form.
    InstantiateArith,
    /// Instantiate the axioms of data types.
    InstantiateDatatypes,
    /// Look for conflicts among floating-point constraints.
    CheckFloats,
    CheckDatatypes,
    CheckArrays,
    CheckBitVectors,
    /// Hand the assertions to the nonlinear solver.
    SolveNonlinear,
    /// Find out whether floating-point atoms are undecided.
    FindFloatAtoms,
    /// Build and verify a floating-point model.
    TryFloatModel,
    /// Build and verify a string model.
    TryStringModel,
    /// Find out whether arithmetic atoms have no linear form.
    FindArithAtoms,
    /// Reset the theories to the root.
    Rebase,
    /// Search.
    Solve,
    /// Build a model and test it against the assertions.
    TestModel,
    /// Split integer arguments into cases.
    SplitCases,
    /// Instantiate array axioms that the model violates.
    InstantiateArrays,
    /// Certify the model for quantified assertions.
    Certify,
    /// Check the quantifiers against the model.
    CheckQuantifiers,
    /// Assert what instantiation gave.
    AssertInstances,
    /// Assert the blocking clause of the conflict.
    BlockConflict,
    /// Instantiate quantifiers without a model.
    InstantiateBlindly,
    /// Instantiate quantifiers over finite domains.
    InstantiateFinitely,
    /// Assert the lemmas that come with instances.
    AddLemmas(LemmaSource),
    /// Find out whether all quantifiers are trivially valid.
    TestTriviality,
    /// The check is over.
    Answer(SolverResult),
}

/// What checking quantifiers against a model gave.
#[derive(Clone, Copy, PartialEq, Eq, Debug, Structural)]
pub enum MbqiOutcome {
    NoQuantifiers,
    Satisfied,
    InstantiationLimit,
    Conflict,
    NewInstantiations,
    Unknown,
}

/// What was reported of the last action.
#[derive(Clone, Copy, PartialEq, Eq, Debug, Structural)]
pub enum Event {
    /// It is done.
    Done,
    /// It found something, or it did not.
    Found(bool),
    /// The answer of an engine, where it has one.
    Decided(Option<SolverResult>),
    /// The search ended; `dropped` says that a conflict was not reported to it.
    Searched { result: SolverResult, dropped: bool },
    /// There is no time left.
    TimedOut,
    /// The model was built; `refuted` says that it violates an assertion, and
    /// `affordable` that there is time to split cases.
    Modelled { refuted: bool, affordable: bool },
    Quantifiers(MbqiOutcome),
}

/// What the assertions themselves tell.
pub struct Goal {
    pub has_false: bool,
    pub empty: bool,
    pub exceeded: bool,
    pub quantified: bool,
    pub arrays: bool,
    pub string_conflict: bool,
    pub nonlinear_conflict: bool,
    pub string_atoms: bool,
}

/// A check under way.
#[derive(Clone, Copy, PartialEq, Eq, Debug, Structural)]
pub struct Search {
    /// What is to be done.
    pub action: Action,
    pub mbqi_rounds: u32,
    pub array_rounds: u32,
    pub blind_tried: bool,
    /// The limit on conflicts or decisions is reached.
    pub out_of_budget: bool,
}

/// The search with another action.
pub open spec fn doing(x: Search, action: Action) -> Search {
    Search { action, ..x }
}

/// How a check starts.
pub open spec fn started(g: Goal, out_of_budget: bool) -> Search {
    Search {
        action: if g.has_false {
            Action::Answer(SolverResult::Unsat)
        } else if g.empty {
            Action::Answer(SolverResult::Sat)
        } else if g.exceeded {
            Action::Answer(SolverResult::Unknown)
        } else {
            Action::InstantiateArith
        },
        mbqi_rounds: 0,
        array_rounds: 0,
        blind_tried: false,
        out_of_budget,
    }
}

/// How another search of the same check starts.
pub open spec fn restarted(x: Search, g: Goal, out_of_budget: bool) -> Search {
    Search { blind_tried: x.blind_tried, ..started(g, out_of_budget) }
}

/// A conflict ends the check; without one it goes on.
pub open spec fn unless_conflict(x: Search, event: Event, next: Action) -> Search {
    match event {
        Event::Found(true) => doing(x, Action::Answer(SolverResult::Unsat)),
        _ => doing(x, next),
    }
}

/// The end of a round of quantifier instantiation.
pub open spec fn round_over(x: Search) -> Search {
    if x.mbqi_rounds + 1 >= MAX_MBQI_ROUNDS {
        doing(x, Action::Answer(SolverResult::Unknown))
    } else {
        Search { action: Action::Rebase, mbqi_rounds: (x.mbqi_rounds + 1) as u32, ..x }
    }
}

/// What follows blind instantiation.
pub open spec fn after_blind(x: Search) -> Search {
    if x.mbqi_rounds == FINITE_ROUND {
        doing(x, Action::InstantiateFinitely)
    } else {
        after_finite(x)
    }
}

/// What follows instantiation over finite domains.
pub open spec fn after_finite(x: Search) -> Search {
    if x.mbqi_rounds >= UNKNOWN_ROUNDS {
        doing(x, Action::TestTriviality)
    } else {
        round_over(x)
    }
}

/// The next step of a check.
pub open spec fn advanced(x: Search, g: Goal, event: Event) -> Search {
    match x.action {
        Action::InstantiateArith => doing(x, Action::InstantiateDatatypes),
        Action::InstantiateDatatypes => if g.string_conflict {
            doing(x, Action::Answer(SolverResult::Unsat))
        } else {
            doing(x, Action::CheckFloats)
        },
        Action::CheckFloats => unless_conflict(x, event, Action::CheckDatatypes),
        Action::CheckDatatypes => unless_conflict(x, event, Action::CheckArrays),
        Action::CheckArrays => unless_conflict(x, event, Action::CheckBitVectors),
        Action::CheckBitVectors => unless_conflict(x, event, Action::SolveNonlinear),
        Action::SolveNonlinear => match event {
            Event::Decided(Some(SolverResult::Sat)) => doing(
                x,
                Action::Answer(SolverResult::Sat),
            ),
            Event::Decided(Some(SolverResult::Unsat)) => doing(
                x,
                Action::Answer(SolverResult::Unsat),
            ),
            _ => if g.nonlinear_conflict {
                doing(x, Action::Answer(SolverResult::Unsat))
            } else {
                doing(x, Action::FindFloatAtoms)
            },
        },
        Action::FindFloatAtoms => match event {
            Event::Found(true) => doing(x, Action::TryFloatModel),
            _ => if g.string_atoms {
                doing(x, Action::TryStringModel)
            } else {
                doing(x, Action::FindArithAtoms)
            },
        },
        Action::TryFloatModel => match event {
            Event::Found(true) => doing(x, Action::Answer(SolverResult::Sat)),
            _ => if g.string_atoms {
                doing(x, Action::TryStringModel)
            } else {
                doing(x, Action::Answer(SolverResult::Unknown))
            },
        },
        Action::TryStringModel => match event {
            Event::Found(true) => doing(x, Action::Answer(SolverResult::Sat)),
            _ => doing(x, Action::Answer(SolverResult::Unknown)),
        },
        Action::FindArithAtoms => match event {
            Event::Found(false) => if x.out_of_budget {
                doing(x, Action::Answer(SolverResult::Unknown))
            } else {
                doing(x, Action::Rebase)
            },
            _ => doing(x, Action::Answer(SolverResult::Unknown)),
        },
        Action::Rebase => doing(x, Action::Solve),
        Action::Solve => match event {
            Event::Searched { result, dropped } => match result {
                SolverResult::Unsat => doing(x, Action::Answer(SolverResult::Unsat)),
                SolverResult::Unknown => doing(x, Action::Answer(SolverResult::Unknown)),
                SolverResult::Sat => if dropped {
                    doing(x, Action::Answer(SolverResult::Unknown))
                } else if g.quantified {
                    doing(x, Action::Certify)
                } else {
                    doing(x, Action::TestModel)
                },
            },
            _ => doing(x, Action::Answer(SolverResult::Unknown)),
        },
        Action::TestModel => match event {
            Event::Modelled { refuted: false, affordable } => if affordable {
                doing(x, Action::SplitCases)
            } else {
                cases_split(x, g)
            },
            _ => doing(x, Action::Answer(SolverResult::Unknown)),
        },
        Action::SplitCases => match event {
            Event::Found(true) => doing(x, Action::Rebase),
            Event::Found(false) => cases_split(x, g),
            _ => doing(x, Action::Answer(SolverResult::Unknown)),
        },
        Action::InstantiateArrays => match event {
            Event::Found(true) => if x.array_rounds + 1 >= MAX_ARRAY_ROUNDS {
                doing(x, Action::Answer(SolverResult::Unknown))
            } else {
                Search { action: Action::Rebase, array_rounds: (x.array_rounds + 1) as u32, ..x }
            },
            Event::Found(false) => doing(x, Action::Answer(SolverResult::Sat)),
            _ => doing(x, Action::Answer(SolverResult::Unknown)),
        },
        Action::Certify => match event {
            Event::Found(true) => doing(x, Action::Answer(SolverResult::Sat)),
            _ => doing(x, Action::CheckQuantifiers),
        },
        Action::CheckQuantifiers => match event {
            Event::Quantifiers(MbqiOutcome::NoQuantifiers) => doing(
                x,
                Action::Answer(SolverResult::Sat),
            ),
            Event::Quantifiers(MbqiOutcome::Satisfied) => doing(
                x,
                Action::Answer(SolverResult::Sat),
            ),
            Event::Quantifiers(MbqiOutcome::InstantiationLimit) => doing(
                x,
                Action::Answer(SolverResult::Unknown),
            ),
            Event::Quantifiers(MbqiOutcome::Conflict) => doing(x, Action::BlockConflict),
            Event::Quantifiers(MbqiOutcome::NewInstantiations) => doing(
                x,
                Action::AssertInstances,
            ),
            Event::Quantifiers(MbqiOutcome::Unknown) => if x.blind_tried {
                after_blind(x)
            } else {
                Search { action: Action::InstantiateBlindly, blind_tried: true, ..x }
            },
            _ => doing(x, Action::Answer(SolverResult::Unknown)),
        },
        Action::AssertInstances => doing(x, Action::AddLemmas(LemmaSource::Model)),
        Action::BlockConflict => round_over(x),
        Action::InstantiateBlindly => doing(x, Action::AddLemmas(LemmaSource::Blind)),
        Action::InstantiateFinitely => doing(x, Action::AddLemmas(LemmaSource::Finite)),
        Action::AddLemmas(LemmaSource::Model) => round_over(x),
        Action::AddLemmas(LemmaSource::Blind) => after_blind(x),
        Action::AddLemmas(LemmaSource::Finite) => after_finite(x),
        Action::TestTriviality => match event {
            Event::Found(true) => doing(x, Action::Answer(SolverResult::Sat)),
            _ => doing(x, Action::Answer(SolverResult::Unknown)),
        },
        Action::Answer(_) => x,
    }
}

/// What follows a model that no case split refines.
pub open spec fn cases_split(x: Search, g: Goal) -> Search {
    if g.arrays {
        doing(x, Action::InstantiateArrays)
    } else {
        doing(x, Action::Answer(SolverResult::Sat))
    }
}

/// The numbers of rounds are within their limits.
pub open spec fn within_limits(x: Search) -> bool {
    x.mbqi_rounds < MAX_MBQI_ROUNDS && x.array_rounds < MAX_ARRAY_ROUNDS
}

/// What the assertions of a state tell, in a logic; `nonlinear` says whether one
/// of them has a nonlinear term.
pub open spec fn goal_of(
    store: &TermStore,
    goal: &GoalState,
    logic: Option<&str>,
    nonlinear: bool,
) -> Goal {
    let s = store.terms();
    let given = goal@.j.assertions;
    let l = effective_logic(logic);
    Goal {
        has_false: goal@.j.has_false,
        empty: given.len() == 0,
        exceeded: goal@.exceeded,
        quantified: goal@.quantified,
        arrays: goal@.arrays,
        string_conflict: strings_conflict(s, store.names@, given),
        nonlinear_conflict: (integer_logic(l) || real_logic(l) || (open_logic(l) && nonlinear))
            && atoms_conflict(all_atoms(s, given, given.len() as int)),
        string_atoms: exists|k: int|
            0 <= k < given.len() && has_string_atom(s, #[trigger] given[k]),
    }
}

impl Search {
    /// Starts a check.  `out_of_budget` says that the limit on conflicts or on
    /// decisions is reached.
    pub fn start(goal: &GoalState, out_of_budget: bool) -> (x: Search)
        ensures
            forall|store: &TermStore, logic: Option<&str>, nonlinear: bool|
                x == started(#[trigger] goal_of(store, goal, logic, nonlinear), out_of_budget),
            within_limits(x),
    {
        let action = if goal.has_false_assertion {
            Action::Answer(SolverResult::Unsat)
        } else if goal.assertions.len() == 0 {
            Action::Answer(SolverResult::Sat)
        } else if goal.encode_depth_exceeded {
            Action::Answer(SolverResult::Unknown)
        } else {
            Action::InstantiateArith
        };
        Search { action, mbqi_rounds: 0, array_rounds: 0, blind_tried: false, out_of_budget }
    }

    /// Starts another search of the same check, after terms were defined.  Blind
    /// instantiation is tried once in a check.
    pub fn restart(self, goal: &GoalState, out_of_budget: bool) -> (x: Search)
        ensures
            forall|store: &TermStore, logic: Option<&str>, nonlinear: bool|
                x == restarted(
                    self,
                    #[trigger] goal_of(store, goal, logic, nonlinear),
                    out_of_budget,
                ),
            within_limits(x),
    {
        Search { blind_tried: self.blind_tried, ..Search::start(goal, out_of_budget) }
    }

    fn next_action(self, action: Action) -> (r: Search)
        ensures
            r == doing(self, action),
    {
        Search { action, ..self }
    }

    fn or_conflict(self, event: Event, next: Action) -> (r: Search)
        ensures
            r == unless_conflict(self, event, next),
    {
        match event {
            Event::Found(true) => self.next_action(Action::Answer(SolverResult::Unsat)),
            _ => self.next_action(next),
        }
    }

    fn end_round(self) -> (r: Search)
        requires
            within_limits(self),
        ensures
            r == round_over(self),
            within_limits(r),
    {
        if self.mbqi_rounds + 1 >= MAX_MBQI_ROUNDS {
            self.next_action(Action::Answer(SolverResult::Unknown))
        } else {
            Search { action: Action::Rebase, mbqi_rounds: self.mbqi_rounds + 1, ..self }
        }
    }

    fn past_finite(self) -> (r: Search)
        requires
            within_limits(self),
        ensures
            r == after_finite(self),
            within_limits(r),
    {
        if self.mbqi_rounds >= UNKNOWN_ROUNDS {
            self.next_action(Action::TestTriviality)
        } else {
            self.end_round()
        }
    }

    fn past_blind(self) -> (r: Search)
        requires
            within_limits(self),
        ensures
            r == after_blind(self),
            within_limits(r),
    {
        if self.mbqi_rounds == FINITE_ROUND {
            self.next_action(Action::InstantiateFinitely)
        } else {
            self.past_finite()
        }
    }

    fn past_cases(self, goal: &GoalState) -> (r: Search)
        requires
            within_limits(self),
        ensures
            forall|g: Goal|
                g.arrays == goal@.arrays ==> r == #[trigger] cases_split(self, g),
            within_limits(r),
    {
        if goal.has_array_ops {
            self.next_action(Action::InstantiateArrays)
        } else {
            self.next_action(Action::Answer(SolverResult::Sat))
        }
    }

    /// Decides what follows, given what was reported of the last action.
    pub fn advance(
        self,
        store: &TermStore,
        goal: &GoalState,
        logic: Option<&str>,
        nonlinear: bool,
        event: Event,
    ) -> (r: Search)
        requires
            within_limits(self),
            store.wf(),
            forall|k: int|
                0 <= k < goal@.j.assertions.len() ==> (#[trigger] goal@.j.assertions[k])
                    < store.terms().len(),
        ensures
            r == advanced(self, goal_of(store, goal, logic, nonlinear), event),
            within_limits(r),
    {
        let ghost g = goal_of(store, goal, logic, nonlinear);
        proof {
            assert forall|k: int| 0 <= k < goal.assertions@.len() implies (
            #[trigger] goal.assertions@[k]) < store.terms().len() by {
                assert(goal@.j.assertions[k] < store.terms().len());
            }
        }
        match self.action {
            Action::InstantiateArith => self.next_action(Action::InstantiateDatatypes),
            Action::InstantiateDatatypes => {
                if check_string_constraints(store, &goal.assertions) {
                    self.next_action(Action::Answer(SolverResult::Unsat))
                } else {
                    self.next_action(Action::CheckFloats)
                }
            },
            Action::CheckFloats => self.or_conflict(event, Action::CheckDatatypes),
            Action::CheckDatatypes => self.or_conflict(event, Action::CheckArrays),
            Action::CheckArrays => self.or_conflict(event, Action::CheckBitVectors),
            Action::CheckBitVectors => self.or_conflict(event, Action::SolveNonlinear),
            Action::SolveNonlinear => match event {
                Event::Decided(Some(SolverResult::Sat)) => self.next_action(
                    Action::Answer(SolverResult::Sat),
                ),
                Event::Decided(Some(SolverResult::Unsat)) => self.next_action(
                    Action::Answer(SolverResult::Unsat),
                ),
                _ => {
                    if check_nonlinear_constraints(logic, nonlinear, store, &goal.assertions) {
                        self.next_action(Action::Answer(SolverResult::Unsat))
                    } else {
                        self.next_action(Action::FindFloatAtoms)
                    }
                },
            },
            Action::FindFloatAtoms => match event {
                Event::Found(true) => self.next_action(Action::TryFloatModel),
                _ => {
                    if string_atoms_need_theory(store, &goal.assertions) {
                        self.next_action(Action::TryStringModel)
                    } else {
                        self.next_action(Action::FindArithAtoms)
                    }
                },
            },
            Action::TryFloatModel => match event {
                Event::Found(true) => self.next_action(Action::Answer(SolverResult::Sat)),
                _ => {
                    if string_atoms_need_theory(store, &goal.assertions) {
                        self.next_action(Action::TryStringModel)
                    } else {
                        self.next_action(Action::Answer(SolverResult::Unknown))
                    }
                },
            },
            Action::TryStringModel => match event {
                Event::Found(true) => self.next_action(Action::Answer(SolverResult::Sat)),
                _ => self.next_action(Action::Answer(SolverResult::Unknown)),
            },
            Action::FindArithAtoms => match event {
                Event::Found(false) => {
                    if self.out_of_budget {
                        self.next_action(Action::Answer(SolverResult::Unknown))
                    } else {
                        self.next_action(Action::Rebase)
                    }
                },
                _ => self.next_action(Action::Answer(SolverResult::Unknown)),
            },
            Action::Rebase => self.next_action(Action::Solve),
            Action::Solve => match event {
                Event::Searched { result, dropped } => match result {
                    SolverResult::Unsat => self.next_action(Action::Answer(SolverResult::Unsat)),
                    SolverResult::Unknown => self.next_action(
                        Action::Answer(SolverResult::Unknown),
                    ),
                    SolverResult::Sat => {
                        if dropped {
                            self.next_action(Action::Answer(SolverResult::Unknown))
                        } else if goal.has_quantifiers {
                            self.next_action(Action::Certify)
                        } else {
                            self.next_action(Action::TestModel)
                        }
                    },
                },
                _ => self.next_action(Action::Answer(SolverResult::Unknown)),
            },
            Action::TestModel => match event {
                Event::Modelled { refuted: false, affordable } => {
                    if affordable {
                        self.next_action(Action::SplitCases)
                    } else {
                        self.past_cases(goal)
                    }
                },
                _ => self.next_action(Action::Answer(SolverResult::Unknown)),
            },
            Action::SplitCases => match event {
                Event::Found(true) => self.next_action(Action::Rebase),
                Event::Found(false) => self.past_cases(goal),
                _ => self.next_action(Action::Answer(SolverResult::Unknown)),
            },
            Action::InstantiateArrays => match event {
                Event::Found(true) => {
                    if self.array_rounds + 1 >= MAX_ARRAY_ROUNDS {
                        self.next_action(Action::Answer(SolverResult::Unknown))
                    } else {
                        Search {
                            action: Action::Rebase,
                            array_rounds: self.array_rounds + 1,
                            ..self
                        }
                    }
                },
                Event::Found(false) => self.next_action(Action::Answer(SolverResult::Sat)),
                _ => self.next_action(Action::Answer(SolverResult::Unknown)),
            },
            Action::Certify => match event {
                Event::Found(true) => self.next_action(Action::Answer(SolverResult::Sat)),
                _ => self.next_action(Action::CheckQuantifiers),
            },
            Action::CheckQuantifiers => match event {
                Event::Quantifiers(outcome) => match outcome {
                    MbqiOutcome::NoQuantifiers => self.next_action(
                        Action::Answer(SolverResult::Sat),
                    ),
                    MbqiOutcome::Satisfied => self.next_action(Action::Answer(SolverResult::Sat)),
                    MbqiOutcome::InstantiationLimit => self.next_action(
                        Action::Answer(SolverResult::Unknown),
                    ),
                    MbqiOutcome::Conflict => self.next_action(Action::BlockConflict),
                    MbqiOutcome::NewInstantiations => self.next_action(Action::AssertInstances),
                    MbqiOutcome::Unknown => {
                        if self.blind_tried {
                            self.past_blind()
                        } else {
                            Search { action: Action::InstantiateBlindly, blind_tried: true, ..self }
                        }
                    },
                },
                _ => self.next_action(Action::Answer(SolverResult::Unknown)),
            },
            Action::AssertInstances => self.next_action(Action::AddLemmas(LemmaSource::Model)),
            Action::BlockConflict => self.end_round(),
            Action::InstantiateBlindly => self.next_action(Action::AddLemmas(LemmaSource::Blind)),
            Action::InstantiateFinitely => self.next_action(Action::AddLemmas(LemmaSource::Finite)),
            Action::AddLemmas(source) => match source {
                LemmaSource::Model => self.end_round(),
                LemmaSource::Blind => self.past_blind(),
                LemmaSource::Finite => self.past_finite(),
            },
            Action::TestTriviality => match event {
                Event::Found(true) => self.next_action(Action::Answer(SolverResult::Sat)),
                _ => self.next_action(Action::Answer(SolverResult::Unknown)),
            },
            Action::Answer(_) => self,
        }
    }
}

/// Whether an answer comes with a core: where the assertions hold the constant
/// `false`, so that there was no action before it, and where the search refuted
/// the clauses.
pub fn has_core(last: Option<Action>, result: SolverResult) -> (b: bool)
    ensures
        b == (result == SolverResult::Unsat && (last is None || last == Some(Action::Solve))),
{
    result == SolverResult::Unsat && match last {
        None => true,
        Some(action) => action == Action::Solve,
    }
}

/// What a positive answer rests on: a verified model, a model that refutes no
/// assertion and violates no array axiom, a nonlinear solution, or quantifiers
/// that the model satisfies or that say nothing.
pub open spec fn sat_witness(x: Search, g: Goal, event: Event) -> bool {
    match x.action {
        Action::SolveNonlinear => event == Event::Decided(Some(SolverResult::Sat)),
        Action::TryFloatModel | Action::TryStringModel => event == Event::Found(true),
        Action::TestModel => event == (Event::Modelled { refuted: false, affordable: false })
            && !g.arrays,
        Action::SplitCases => event == Event::Found(false) && !g.arrays,
        Action::InstantiateArrays => event == Event::Found(false),
        Action::Certify | Action::TestTriviality => event == Event::Found(true),
        Action::CheckQuantifiers => event == Event::Quantifiers(MbqiOutcome::NoQuantifiers) || event
            == Event::Quantifiers(MbqiOutcome::Satisfied),
        _ => false,
    }
}

/// The answer is never `sat` without a witness, and never `sat` right after a
/// search that dropped a conflict.
pub proof fn sat_needs_a_witness(x: Search, g: Goal, event: Event)
    requires
        !(x.action is Answer),
        advanced(x, g, event).action == Action::Answer(SolverResult::Sat),
    ensures
        sat_witness(x, g, event),
        x.action != Action::Solve,
{
}

/// What a negative answer rests on: a conflict among the assertions, or a
/// refutation by an engine.
pub open spec fn unsat_witness(x: Search, g: Goal, event: Event) -> bool {
    match x.action {
        Action::InstantiateDatatypes => g.string_conflict,
        Action::CheckFloats | Action::CheckDatatypes | Action::CheckArrays
        | Action::CheckBitVectors => event == Event::Found(true),
        Action::SolveNonlinear => event == Event::Decided(Some(SolverResult::Unsat))
            || g.nonlinear_conflict,
        Action::Solve => event matches Event::Searched { result, dropped } && result
            == SolverResult::Unsat,
        _ => false,
    }
}

/// The answer is never `unsat` without a conflict or a refutation.
pub proof fn unsat_needs_a_refutation(x: Search, g: Goal, event: Event)
    requires
        !(x.action is Answer),
        advanced(x, g, event).action == Action::Answer(SolverResult::Unsat),
    ensures
        unsat_witness(x, g, event),
{
}

/// How far a check is from its end, apart from case splits: the rounds that are
/// left, and the steps that are left of the round.
pub open spec fn steps_left(x: Search) -> (int, int) {
    (
        (MAX_MBQI_ROUNDS - x.mbqi_rounds) + (MAX_ARRAY_ROUNDS - x.array_rounds),
        match x.action {
            Action::InstantiateArith => 24,
            Action::InstantiateDatatypes => 23,
            Action::CheckFloats => 22,
            Action::CheckDatatypes => 21,
            Action::CheckArrays => 20,
            Action::CheckBitVectors => 19,
            Action::SolveNonlinear => 18,
            Action::FindFloatAtoms => 17,
            Action::TryFloatModel => 16,
            Action::TryStringModel => 15,
            Action::FindArithAtoms => 14,
            Action::Rebase => 13,
            Action::Solve => 12,
            Action::TestModel => 11,
            Action::SplitCases => 10,
            Action::InstantiateArrays => 9,
            Action::Certify => 8,
            Action::CheckQuantifiers => 7,
            Action::InstantiateBlindly => 5,
            Action::AddLemmas(LemmaSource::Blind) => 4,
            Action::InstantiateFinitely => 3,
            Action::AddLemmas(LemmaSource::Finite) => 2,
            Action::AssertInstances => 2,
            Action::AddLemmas(LemmaSource::Model) => 1,
            Action::BlockConflict | Action::TestTriviality => 1,
            Action::Answer(_) => 0,
        },
    )
}

/// Each step of a check brings it closer to its end, unless it splits cases.
#[verifier::rlimit(60)]
pub proof fn checks_end(x: Search, g: Goal, event: Event)
    requires
        within_limits(x),
        !(x.action is Answer),
        !(x.action == Action::SplitCases && event == Event::Found(true)),
    ensures
        ({
            let (a, b) = steps_left(x);
            let (c, d) = steps_left(advanced(x, g, event));
            0 <= c < a || (c == a && 0 <= d < b)
        }),
{
}

/// How often arithmetic terms are defined before the check gives up.
pub const MAX_ARITH_DEFINITION_ROUNDS: usize = 4;

/// Whether to define more arithmetic terms and check again: the answer was
/// positive, some term has no definition, and there are rounds left.
pub open spec fn defines_more(result: SolverResult, incomplete: bool, round: usize) -> bool {
    result == SolverResult::Sat && incomplete && round < MAX_ARITH_DEFINITION_ROUNDS
}

pub fn refine_definitions(result: SolverResult, incomplete: bool, round: usize) -> (b: bool)
    ensures
        b == defines_more(result, incomplete, round),
{
    result == SolverResult::Sat && incomplete && round < MAX_ARITH_DEFINITION_ROUNDS
}

/// The answer after the honesty gates: a positive answer stands only where the
/// encoding, the arithmetic definitions and the data type axioms are complete.
pub open spec fn honest(
    result: SolverResult,
    exceeded: bool,
    arith_incomplete: bool,
    dt_incomplete: bool,
) -> SolverResult {
    if result == SolverResult::Sat && (exceeded || arith_incomplete || dt_incomplete) {
        SolverResult::Unknown
    } else {
        result
    }
}

pub fn honest_result(
    result: SolverResult,
    exceeded: bool,
    arith_incomplete: bool,
    dt_incomplete: bool,
) -> (r: SolverResult)
    ensures
        r == honest(result, exceeded, arith_incomplete, dt_incomplete),
{
    if result == SolverResult::Sat && (exceeded || arith_incomplete || dt_incomplete) {
        SolverResult::Unknown
    } else {
        result
    }
}

/// A step before the first search of a check.
#[derive(Clone, Copy, PartialEq, Eq, Debug, Structural)]
pub enum Preparation {
    /// Tie the results of functions to the constants they are compared with.
    TieConstants,
    /// Add the transitivity of equality, where the assertions are equations only.
    AddTransitivity,
    /// Let the clauses alone decide the equations, and end the check.
    DecideEquations,
    /// Split table indices over their domains.
    SplitIndices,
    /// Split the results of tables with entries 0 and 1.
    SplitResults,
    /// Link comparisons to the domains.
    LinkComparisons,
    /// Say of the sides of equations that they are equal or one is less.
    SplitEquations,
    /// Create the equations between shared terms.
    CreateCareAtoms,
    /// Have the values of enumerations decided early.
    BumpEnumerations,
}

/// What follows a step; `applies` is what adding transitivity reported.
pub open spec fn prepared(step: Preparation, applies: bool) -> Option<Preparation> {
    match step {
        Preparation::TieConstants => Some(Preparation::AddTransitivity),
        Preparation::AddTransitivity => if applies {
            Some(Preparation::DecideEquations)
        } else {
            Some(Preparation::SplitIndices)
        },
        Preparation::DecideEquations => None,
        Preparation::SplitIndices => Some(Preparation::SplitResults),
        Preparation::SplitResults => Some(Preparation::LinkComparisons),
        Preparation::LinkComparisons => Some(Preparation::SplitEquations),
        Preparation::SplitEquations => Some(Preparation::CreateCareAtoms),
        Preparation::CreateCareAtoms => Some(Preparation::BumpEnumerations),
        Preparation::BumpEnumerations => None,
    }
}

impl Preparation {
    /// The first step.
    pub fn first() -> (r: Preparation)
        ensures
            r == Preparation::TieConstants,
    {
        Preparation::TieConstants
    }

    /// The step that follows this one, if one does.
    pub fn next(self, applies: bool) -> (r: Option<Preparation>)
        ensures
            r == prepared(self, applies),
    {
        match self {
            Preparation::TieConstants => Some(Preparation::AddTransitivity),
            Preparation::AddTransitivity => if applies {
                Some(Preparation::DecideEquations)
            } else {
                Some(Preparation::SplitIndices)
            },
            Preparation::DecideEquations => None,
            Preparation::SplitIndices => Some(Preparation::SplitResults),
            Preparation::SplitResults => Some(Preparation::LinkComparisons),
            Preparation::LinkComparisons => Some(Preparation::SplitEquations),
            Preparation::SplitEquations => Some(Preparation::CreateCareAtoms),
            Preparation::CreateCareAtoms => Some(Preparation::BumpEnumerations),
            Preparation::BumpEnumerations => None,
        }
    }
}

} // verus!
