//! What checks leave behind: models, unsatisfiable cores, verdicts.

use crate::collections::map_sorted_keys;
use crate::constructors::grew;
use crate::model::{find_name, model_built, name_at, texts, EngineValues, Model, UnsatCore};
use crate::search::SolverResult;
use crate::solver::{Solver, SolverConfig, Statistics};
use crate::state::{lemma_inv_grow, GoalView, NamedAssertion};
use crate::terms::{TermId, TermStore};
use vstd::prelude::*;

verus! {

/// Reading and setting.
impl Solver {
    pub fn num_assertions(&self) -> (n: usize)
        ensures
            n == self.goal@.j.assertions.len(),
    {
        self.goal.assertions.len()
    }

    /// How many terms have a propositional variable.
    pub fn num_variables(&self) -> (n: usize)
        ensures
            n == self.goal@.j.var_of.dom().len(),
    {
        let keys = map_sorted_keys(&self.goal.term_to_var);
        proof {
            assert(keys@.no_duplicates());
            keys@.unique_seq_to_set();
        }
        keys.len()
    }

    pub fn has_assertions(&self) -> (b: bool)
        ensures
            b == (self.goal@.j.assertions.len() > 0),
    {
        self.goal.assertions.len() > 0
    }

    pub fn context_level(&self) -> (n: usize)
        ensures
            n == self.context_stack@.len(),
    {
        self.context_stack.len()
    }

    pub fn model(&self) -> (m: Option<&Model>)
        ensures
            m is Some == self.model is Some,
            m matches Some(x) ==> Some(*x) == self.model,
    {
        self.model.as_ref()
    }

    pub fn get_unsat_core(&self) -> (c: Option<&UnsatCore>)
        ensures
            c is Some == self.unsat_core is Some,
            c matches Some(x) ==> Some(*x) == self.unsat_core,
    {
        self.unsat_core.as_ref()
    }

    pub fn get_statistics(&self) -> (r: &Statistics)
        ensures
            *r == self.statistics,
    {
        &self.statistics
    }

    pub fn reset_statistics(&mut self)
        ensures
            *final(self) == (Solver {
                statistics: Statistics::zero(),
                last_check: None,
                ..*old(self)
            }),
    {
        self.last_check = None;
        self.statistics.reset();
    }

    pub fn theory_aware_branching(&self) -> (b: bool)
        ensures
            b == self.theory_aware_branching,
    {
        self.theory_aware_branching
    }

    pub fn config(&self) -> (c: &SolverConfig)
        ensures
            *c == self.config,
    {
        &self.config
    }

    pub fn set_config(&mut self, config: SolverConfig)
        ensures
            *final(self) == (Solver { config, last_check: None, ..*old(self) }),
    {
        self.last_check = None;
        self.config = config;
    }

    pub fn set_logic(&mut self, logic: String)
        ensures
            final(self).logic matches Some(x) && x@ == logic@,
            *final(self) == (Solver {
                logic: final(self).logic,
                last_check: None,
                ..*old(self)
            }),
    {
        self.last_check = None;
        self.logic = Some(logic);
    }

    pub fn set_produce_unsat_cores(&mut self, produce: bool)
        ensures
            *final(self) == (Solver {
                produce_unsat_cores: produce,
                last_check: None,
                ..*old(self)
            }),
    {
        self.last_check = None;
        self.produce_unsat_cores = produce;
    }

    pub fn enable_assumption_based_cores(&mut self)
        ensures
            *final(self) == (Solver {
                produce_unsat_cores: true,
                last_check: None,
                ..*old(self)
            }),
    {
        self.last_check = None;
        self.produce_unsat_cores = true;
    }
}

/// The core of a check without assumptions: the assertions that are the
/// constant `false`, or all that are named.
pub open spec fn core_of(e: GoalView, trivially: bool, c: UnsatCore) -> bool {
    if trivially {
        c.indices@ == crate::model::false_places(e.j.assertions, e.j.assertions.len() as int)
            && texts(c.names@) == crate::model::false_names(
            e.j.assertions,
            e.j.named,
            e.j.assertions.len() as int,
        )
    } else {
        c.indices@ == Seq::new(e.j.named.len(), |k: int| e.j.named[k].index) && texts(c.names@)
            == crate::model::given_names(e.j.named, e.j.named.len() as int)
    }
}

/// Recording what a check found.
impl Solver {
    /// The verdict of the last check, where nothing that a check reads has
    /// changed since: a repeated check is answered with it.
    pub fn cached_verdict(&self) -> (r: Option<SolverResult>)
        ensures
            r == self.last_check,
    {
        self.last_check
    }

    /// Keeps the verdict of a check for the next one.
    pub fn remember_verdict(&mut self, result: SolverResult)
        requires
            old(self).valid(),
        ensures
            final(self).valid(),
            *final(self) == (Solver { last_check: Some(result), ..*old(self) }),
    {
        self.last_check = Some(result);
    }

    /// Another model and another core, and nothing else.
    pub open spec fn answers(&self, before: &Solver) -> bool {
        *self == (Solver {
            model: self.model,
            unsat_core: self.unsat_core,
            terms: self.terms,
            ..*before
        })
    }

    /// Builds the model from what the engines say.
    pub fn build_model(&mut self, store: &mut TermStore, values: &EngineValues)
        requires
            old(self).fits(old(store)),
            values.wf(),
        ensures
            grew(old(store), final(store)),
            final(self).fits(final(store)),
            final(self).answers(old(self)),
            final(self).unsat_core == old(self).unsat_core,
            final(self).model matches Some(m) && model_built(
                old(store).terms(),
                final(store).terms(),
                final(store).sorts@,
                final(self).goal@,
                values,
                m.assignments@,
            ),
    {
        let ghost before = *self;
        proof {
            lemma_inv_grow(self.terms@, store.terms(), self.goal@);
        }
        let m = self.goal.build_model(store, values);
        self.model = Some(m);
    }

    /// The core after a check without assumptions: of the assertions that are
    /// the constant `false`, where there is one, or of all.
    pub fn build_core(&mut self, trivially: bool)
        ensures
            !old(self).produce_unsat_cores ==> final(self).unsat_core is None,
            final(self).answers(old(self)),
            final(self).terms == old(self).terms,
            final(self).model == old(self).model,
            old(self).produce_unsat_cores ==> (final(self).unsat_core matches Some(c) && core_of(
                old(self).goal@,
                trivially,
                c,
            )),
    {
        if !self.produce_unsat_cores {
            self.unsat_core = None;
        } else if trivially {
            self.unsat_core = Some(self.goal.build_unsat_core_trivial_false());
        } else {
            self.unsat_core = Some(self.goal.build_unsat_core());
        }
    }

    /// Whether the conflicts, or the decisions, so far have reached their limit.
    pub fn out_of_budget(&self) -> (b: bool)
        ensures
            b == ((self.config.max_conflicts > 0 && self.statistics.conflicts
                >= self.config.max_conflicts) || (self.config.max_decisions > 0
                && self.statistics.decisions >= self.config.max_decisions)),
    {
        (self.config.max_conflicts > 0 && self.statistics.conflicts >= self.config.max_conflicts)
            || (self.config.max_decisions > 0 && self.statistics.decisions
            >= self.config.max_decisions)
    }

    /// The verdict that needs no search.
    pub open spec fn early(&self) -> Option<SolverResult> {
        if self.goal@.j.has_false {
            Some(SolverResult::Unsat)
        } else if self.goal@.j.assertions.len() == 0 {
            Some(SolverResult::Sat)
        } else if self.goal@.exceeded {
            Some(SolverResult::Unknown)
        } else {
            None
        }
    }

    /// The propositional verdict, where it needs no search.
    pub fn check_sat_only(&self) -> (r: Option<SolverResult>)
        ensures
            r == self.early(),
    {
        if self.goal.has_false_assertion {
            Some(SolverResult::Unsat)
        } else if self.goal.assertions.len() == 0 {
            Some(SolverResult::Sat)
        } else if self.goal.encode_depth_exceeded {
            Some(SolverResult::Unknown)
        } else {
            None
        }
    }

    /// The propositional verdict after a search: where it is satisfiable, there
    /// is a model.
    pub fn finish_sat_only(
        &mut self,
        store: &mut TermStore,
        searched: SolverResult,
        values: &EngineValues,
    ) -> (r: SolverResult)
        requires
            old(self).fits(old(store)),
            values.wf(),
        ensures
            r == searched,
            grew(old(store), final(store)),
            final(self).fits(final(store)),
            final(self).answers(old(self)),
            final(self).unsat_core == old(self).unsat_core,
            searched != SolverResult::Sat ==> *final(self) == *old(self) && final(store).terms()
                == old(store).terms(),
            searched == SolverResult::Sat ==> (final(self).model matches Some(m) && model_built(
                old(store).terms(),
                final(store).terms(),
                final(store).sorts@,
                final(self).goal@,
                values,
                m.assignments@,
            )),
    {
        if let SolverResult::Sat = searched {
            self.build_model(store, values);
        }
        searched
    }

    /// The verdict on assertions that are equations only, after a search.  A
    /// model that an assertion refutes is dropped, and the verdict with it.
    pub fn solve_equality_via_sat(
        &mut self,
        store: &mut TermStore,
        searched: SolverResult,
        refuted: bool,
        values: &EngineValues,
    ) -> (r: SolverResult)
        requires
            old(self).fits(old(store)),
            values.wf(),
        ensures
            r == (if searched == SolverResult::Sat && refuted {
                SolverResult::Unknown
            } else {
                searched
            }),
            grew(old(store), final(store)),
            final(self).fits(final(store)),
            final(self).answers(old(self)),
            searched == SolverResult::Unknown ==> *final(self) == *old(self),
            searched == SolverResult::Unsat ==> final(self).model == old(self).model && match final(self).unsat_core {
                Some(c) => old(self).produce_unsat_cores && core_of(old(self).goal@, false, c),
                None => !old(self).produce_unsat_cores,
            },
            searched == SolverResult::Sat ==> final(self).unsat_core is None,
            searched == SolverResult::Sat && refuted ==> final(self).model is None,
            searched == SolverResult::Sat && !refuted ==> (final(self).model matches Some(m)
                && model_built(
                old(store).terms(),
                final(store).terms(),
                final(store).sorts@,
                final(self).goal@,
                values,
                m.assignments@,
            )),
    {
        match searched {
            SolverResult::Unsat => {
                self.build_core(false);
                SolverResult::Unsat
            },
            SolverResult::Sat => {
                self.build_model(store, values);
                self.unsat_core = None;
                if refuted {
                    self.model = None;
                    SolverResult::Unknown
                } else {
                    SolverResult::Sat
                }
            },
            SolverResult::Unknown => SolverResult::Unknown,
        }
    }

    /// Closes the scope of a check under assumptions.  The model outlives it;
    /// the core does where it mentions no assumption.
    pub fn end_assumptions(&mut self)
        requires
            old(self).valid(),
            old(self).context_stack@.len() > 0,
        ensures
            final(self).valid(),
            final(self).model == old(self).model,
            final(self).unsat_core == (match old(self).unsat_core {
                Some(c) => if within(c.indices@, final(self).goal@.j.assertions.len() as int) {
                    Some(c)
                } else {
                    None
                },
                None => None,
            }),
            closed_apart(final(self), old(self)),
    {
        let mut model: Option<Model> = None;
        std::mem::swap(&mut model, &mut self.model);
        let mut core: Option<UnsatCore> = None;
        std::mem::swap(&mut core, &mut self.unsat_core);
        let ghost before = *self;
        self.pop();
        let ghost after = *self;
        self.model = model;
        let n = self.goal.assertions.len();
        let kept = match core {
            Some(c) => if all_below(&c.indices, n) {
                Some(c)
            } else {
                None
            },
            None => None,
        };
        self.unsat_core = kept;
        proof {
            assert(after.closed(&before));
            assert(Solver { model: None, unsat_core: None, ..*self }.closed(old(self)));
        }
    }
}

/// The innermost scope was closed, whatever became of the answers.
pub open spec fn closed_apart(after: &Solver, before: &Solver) -> bool {
    Solver { model: None, unsat_core: None, ..*after }.closed(before)
}

pub open spec fn within(indices: Seq<usize>, n: int) -> bool {
    forall|k: int| 0 <= k < indices.len() ==> (#[trigger] indices[k]) < n
}

fn all_below(indices: &Vec<usize>, n: usize) -> (b: bool)
    ensures
        b == within(indices@, n as int),
{
    let mut k: usize = 0;
    while k < indices.len()
        invariant
            k <= indices.len(),
            forall|j: int| 0 <= j < k ==> (#[trigger] indices@[j]) < n,
        decreases indices.len() - k,
    {
        if indices[k] >= n {
            return false;
        }
        k = k + 1;
    }
    true
}

/// Limits for one check.
#[derive(Clone, Copy, PartialEq, Eq, Debug, Structural)]
pub struct ResourceLimits {
    pub max_conflicts: Option<u64>,
    pub max_decisions: Option<u64>,
}

/// The tighter of a limit that is set, where 0 is no limit, and another.
pub open spec fn tighter(set: u64, limit: Option<u64>) -> u64 {
    match limit {
        Some(m) => if set == 0 || m < set {
            m
        } else {
            set
        },
        None => set,
    }
}

fn tighten_limit(set: u64, limit: Option<u64>) -> (r: u64)
    ensures
        r == tighter(set, limit),
{
    match limit {
        Some(m) => if set == 0 || m < set {
            m
        } else {
            set
        },
        None => set,
    }
}

/// The configuration of a check under limits.
pub fn limited_config(config: &SolverConfig, limits: &ResourceLimits) -> (r: SolverConfig)
    ensures
        r == (SolverConfig {
            max_conflicts: tighter(config.max_conflicts, limits.max_conflicts),
            max_decisions: tighter(config.max_decisions, limits.max_decisions),
            ..*config
        }),
{
    SolverConfig {
        max_conflicts: tighten_limit(config.max_conflicts, limits.max_conflicts),
        max_decisions: tighten_limit(config.max_decisions, limits.max_decisions),
        ..*config
    }
}

/// The answer of a check under limits: where there is no verdict and a limit is
/// exhausted, the limit.
pub fn limited_result<E>(result: SolverResult, exhausted: Option<E>) -> (r: Result<SolverResult, E>)
    ensures
        r == (match exhausted {
            Some(x) => if result == SolverResult::Unknown {
                Err(x)
            } else {
                Ok(result)
            },
            None => Ok(result),
        }),
{
    match exhausted {
        Some(x) => match result {
            SolverResult::Unknown => Err(x),
            _ => Ok(result),
        },
        None => Ok(result),
    }
}

/// A core whose entries are tried one by one.
pub struct CoreSearch {
    /// Places and terms of the assertions that are left.
    pub entries: Vec<(usize, TermId)>,
    /// Which of them is left out next.
    pub next: usize,
}

pub open spec fn entry_terms(entries: Seq<(usize, TermId)>) -> Seq<TermId> {
    Seq::new(entries.len(), |k: int| entries[k].1)
}

pub open spec fn entry_places(entries: Seq<(usize, TermId)>) -> Seq<usize> {
    Seq::new(entries.len(), |k: int| entries[k].0)
}

/// The entries after the verdict without the one at `next`.
pub open spec fn tried(
    entries: Seq<(usize, TermId)>,
    next: int,
    result: SolverResult,
) -> (Seq<(usize, TermId)>, int) {
    if result == SolverResult::Unsat {
        (entries.remove(next), next)
    } else {
        (entries, next + 1)
    }
}

/// The entries that are left at the end, when `verdict` decides.
pub open spec fn minimized(
    entries: Seq<(usize, TermId)>,
    next: int,
    verdict: spec_fn(Seq<TermId>) -> SolverResult,
) -> Seq<(usize, TermId)>
    decreases entries.len() - next,
{
    if 0 <= next < entries.len() {
        let (e, n) = tried(entries, next, verdict(entry_terms(entries.remove(next))));
        minimized(e, n, verdict)
    } else {
        entries
    }
}

/// Minimizing keeps a core: if the assertions of the core are unsatisfiable, so
/// are those that are left.
pub proof fn minimized_cores_are_cores(
    entries: Seq<(usize, TermId)>,
    next: int,
    verdict: spec_fn(Seq<TermId>) -> SolverResult,
)
    requires
        verdict(entry_terms(entries)) == SolverResult::Unsat,
    ensures
        verdict(entry_terms(minimized(entries, next, verdict))) == SolverResult::Unsat,
    decreases entries.len() - next,
{
    if 0 <= next < entries.len() {
        let (e, n) = tried(entries, next, verdict(entry_terms(entries.remove(next))));
        minimized_cores_are_cores(e, n, verdict);
    }
}

/// Adding assertions keeps an unsatisfiable list so, and each list has a
/// verdict.
pub open spec fn decides(verdict: spec_fn(Seq<TermId>) -> SolverResult) -> bool {
    &&& forall|a: Seq<TermId>, b: Seq<TermId>|
        (forall|x: TermId| #[trigger] a.contains(x) ==> b.contains(x)) && #[trigger] verdict(a)
            == SolverResult::Unsat ==> #[trigger] verdict(b) == SolverResult::Unsat
    &&& forall|a: Seq<TermId>| #[trigger] verdict(a) != SolverResult::Unknown
}

/// A minimized core is minimal: where the verdict is decisive, leaving out any
/// of its entries makes the rest satisfiable.
pub proof fn minimized_cores_are_minimal(
    entries: Seq<(usize, TermId)>,
    verdict: spec_fn(Seq<TermId>) -> SolverResult,
)
    requires
        decides(verdict),
    ensures
        forall|k: int|
            0 <= k < minimized(entries, 0, verdict).len() ==> verdict(
                entry_terms(#[trigger] minimized(entries, 0, verdict).remove(k)),
            ) == SolverResult::Sat,
{
    lemma_minimal(entries, 0, verdict);
}

proof fn lemma_minimal(
    entries: Seq<(usize, TermId)>,
    next: int,
    verdict: spec_fn(Seq<TermId>) -> SolverResult,
)
    requires
        decides(verdict),
        0 <= next <= entries.len(),
        forall|k: int|
            0 <= k < next ==> verdict(entry_terms(#[trigger] entries.remove(k)))
                == SolverResult::Sat,
    ensures
        forall|k: int|
            0 <= k < minimized(entries, next, verdict).len() ==> verdict(
                entry_terms(#[trigger] minimized(entries, next, verdict).remove(k)),
            ) == SolverResult::Sat,
    decreases entries.len() - next,
{
    if next < entries.len() {
        let (e, n) = tried(entries, next, verdict(entry_terms(entries.remove(next))));
        assert forall|k: int| 0 <= k < n implies verdict(entry_terms(#[trigger] e.remove(k)))
            == SolverResult::Sat by {
            if n == next {
                let a = entry_terms(e.remove(k));
                let b = entry_terms(entries.remove(k));
                assert forall|x: TermId| #[trigger] a.contains(x) implies b.contains(x) by {
                    let j = choose|j: int| 0 <= j < a.len() && a[j] == x;
                    if j < next - 1 {
                        assert(b[j] == x);
                    } else {
                        assert(b[j + 1] == x);
                    }
                }
                assert(verdict(b) == SolverResult::Sat);
                assert(verdict(a) != SolverResult::Unsat && verdict(a) != SolverResult::Unknown);
            } else {
                assert(verdict(entry_terms(entries.remove(k))) != SolverResult::Unknown);
            }
        }
        lemma_minimal(e, n, verdict);
    }
}

/// A minimized core is no longer than the core.
pub proof fn minimized_cores_are_shorter(
    entries: Seq<(usize, TermId)>,
    next: int,
    verdict: spec_fn(Seq<TermId>) -> SolverResult,
)
    ensures
        minimized(entries, next, verdict).len() <= entries.len(),
        forall|x: (usize, TermId)| #[trigger]
            minimized(entries, next, verdict).contains(x) ==> entries.contains(x),
    decreases entries.len() - next,
{
    if 0 <= next < entries.len() {
        let (e, n) = tried(entries, next, verdict(entry_terms(entries.remove(next))));
        minimized_cores_are_shorter(e, n, verdict);
        assert forall|x: (usize, TermId)| #[trigger] e.contains(x) implies entries.contains(x) by {
            if e != entries {
                let k = choose|k: int| 0 <= k < e.len() && e[k] == x;
                if k < next {
                    assert(entries[k] == x);
                } else {
                    assert(entries[k + 1] == x);
                }
            }
        }
    }
}

impl CoreSearch {
    /// The assertions to check next: all that are left but one.  At the end
    /// there are none.
    pub fn candidate(&self) -> (terms: Option<Vec<TermId>>)
        ensures
            terms is Some == (self.next < self.entries@.len()),
            terms matches Some(ts) ==> ts@ == entry_terms(self.entries@.remove(self.next as int)),
    {
        if self.next >= self.entries.len() {
            return None;
        }
        let mut ts: Vec<TermId> = Vec::new();
        let mut k: usize = 0;
        while k < self.entries.len()
            invariant
                k <= self.entries.len(),
                self.next < self.entries.len(),
                ts@.len() == (if k <= self.next {
                    k as int
                } else {
                    k - 1
                }),
                forall|j: int|
                    0 <= j < ts@.len() ==> #[trigger] ts@[j] == self.entries@.remove(
                        self.next as int,
                    )[j].1,
            decreases self.entries.len() - k,
        {
            if k != self.next {
                ts.push(self.entries[k].1);
            }
            k = k + 1;
        }
        assert(ts@ =~= entry_terms(self.entries@.remove(self.next as int)));
        Some(ts)
    }

    /// Takes note of the verdict on the candidate.
    pub fn report(&mut self, result: SolverResult)
        requires
            old(self).next < old(self).entries@.len(),
        ensures
            (final(self).entries@, final(self).next as int) == tried(
                old(self).entries@,
                old(self).next as int,
                result,
            ),
    {
        if let SolverResult::Unsat = result {
            self.entries.remove(self.next);
        } else if self.next < self.entries.len() {
            self.next = self.next + 1;
        }
    }
}

/// The names of the assertions at the first `n` places.
pub open spec fn names_of(
    named: Seq<NamedAssertion>,
    entries: Seq<(usize, TermId)>,
    n: int,
) -> Seq<Seq<char>>
    decreases n,
{
    if n <= 0 {
        Seq::empty()
    } else {
        match name_at(named, entries[n - 1].0 as int, named.len() as int) {
            Some(x) => names_of(named, entries, n - 1).push(x),
            None => names_of(named, entries, n - 1),
        }
    }
}

impl Solver {
    /// Begins to minimize the core, where cores are asked for and there is one.
    pub fn minimize_unsat_core(&self) -> (r: Option<CoreSearch>)
        requires
            self.unsat_core matches Some(c) ==> within(
                c.indices@,
                self.goal@.j.assertions.len() as int,
            ),
        ensures
            r is Some == (self.produce_unsat_cores && self.unsat_core is Some),
            r matches Some(x) ==> x.next == 0 && entry_places(x.entries@)
                == self.unsat_core->0.indices@ && entry_terms(x.entries@) == Seq::new(
                x.entries@.len(),
                |k: int| self.goal@.j.assertions[x.entries@[k].0 as int],
            ),
    {
        if !self.produce_unsat_cores {
            return None;
        }
        match &self.unsat_core {
            Some(c) => {
                let mut entries: Vec<(usize, TermId)> = Vec::new();
                let mut k: usize = 0;
                while k < c.indices.len()
                    invariant
                        k <= c.indices.len(),
                        entries@.len() == k,
                        within(c.indices@, self.goal@.j.assertions.len() as int),
                        forall|j: int|
                            0 <= j < k ==> (#[trigger] entries@[j]).0 == c.indices@[j]
                                && entries@[j].1
                                == self.goal@.j.assertions[c.indices@[j] as int],
                    decreases c.indices.len() - k,
                {
                    let place: usize = c.indices[k];
                    entries.push((place, self.goal.assertions[place]));
                    k = k + 1;
                }
                assert(entry_places(entries@) =~= c.indices@);
                assert(entry_terms(entries@) =~= Seq::new(
                    entries@.len(),
                    |j: int| self.goal@.j.assertions[entries@[j].0 as int],
                ));
                Some(CoreSearch { entries, next: 0 })
            },
            None => None,
        }
    }

    /// The core that a search ended with.
    pub fn minimized_core(&self, search: &CoreSearch) -> (core: UnsatCore)
        ensures
            core.indices@ == entry_places(search.entries@),
            texts(core.names@) == names_of(
                self.goal@.j.named,
                search.entries@,
                search.entries@.len() as int,
            ),
    {
        let ghost named = self.goal@.j.named;
        let mut core = UnsatCore::new();
        let mut k: usize = 0;
        assert(texts(core.names@) =~= names_of(named, search.entries@, 0));
        while k < search.entries.len()
            invariant
                k <= search.entries.len(),
                named == self.goal.named_assertions@,
                core.indices@.len() == k,
                forall|j: int|
                    0 <= j < k ==> #[trigger] core.indices@[j] == search.entries@[j].0,
                texts(core.names@) == names_of(named, search.entries@, k as int),
            decreases search.entries.len() - k,
        {
            let ghost before = core.names@;
            let place: usize = search.entries[k].0;
            core.indices.push(place);
            if let Some(x) = find_name(&self.goal.named_assertions, place) {
                let ghost text = x@;
                core.names.push(x);
                assert(texts(core.names@) =~= texts(before).push(text));
            }
            k = k + 1;
        }
        assert(core.indices@ =~= entry_places(search.entries@));
        core
    }
}

} // verus!
