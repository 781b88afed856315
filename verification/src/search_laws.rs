//! What the course of a check promises.

use crate::nonlinear::{all_atoms, atoms_conflict};
use crate::runs::conducted;
use crate::search::{
    advanced, defines_more, goal_of, honest, prepared, restarted, started, Action, Event, Goal,
    LemmaSource, MbqiOutcome, Preparation, Search, SolverResult,
};
use crate::state::GoalState;
use crate::strings::strings_conflict;
use crate::terms::TermStore;
use vstd::prelude::*;

verus! {

/// What is done when reply `k` comes.
#[verifier::opaque]
pub open spec fn action_at(x: Search, replies: Seq<(Goal, Event)>, k: int) -> Action {
    conducted(x, replies.take(k)).action
}

/// The reply that says that the action was done and turned out well for the answer
/// `sat`, where quantifiers are present.
pub open spec fn settles_quantifiers(action: Action, event: Event) -> bool {
    match action {
        Action::SolveNonlinear => event == Event::Decided(Some(SolverResult::Sat)),
        Action::TryFloatModel | Action::TryStringModel | Action::Certify
        | Action::TestTriviality => event == Event::Found(true),
        Action::CheckQuantifiers => event == Event::Quantifiers(MbqiOutcome::Satisfied) || event
            == Event::Quantifiers(MbqiOutcome::NoQuantifiers),
        _ => false,
    }
}

/// A step that only a goal without quantifiers takes.
pub open spec fn ground_step(action: Action) -> bool {
    action == Action::TestModel || action == Action::SplitCases || action
        == Action::InstantiateArrays
}

/// A step that only a goal with quantifiers takes.
pub open spec fn quantifier_step(action: Action) -> bool {
    match action {
        Action::Certify | Action::CheckQuantifiers | Action::AssertInstances
        | Action::BlockConflict | Action::InstantiateBlindly | Action::InstantiateFinitely
        | Action::AddLemmas(_) | Action::TestTriviality => true,
        _ => false,
    }
}

/// A step of the search, after the checks that come before it.
pub open spec fn searching(action: Action) -> bool {
    action == Action::Rebase || action == Action::Solve || ground_step(action) || quantifier_step(
        action,
    )
}

proof fn lemma_conducted(x: Search, replies: Seq<(Goal, Event)>)
    requires
        replies.len() > 0,
    ensures
        conducted(x, replies) == advanced(
            conducted(x, replies.take(replies.len() - 1)),
            replies.last().0,
            replies.last().1,
        ),
{
    assert(replies.drop_last() =~= replies.take(replies.len() - 1));
}

/// A model that the search finds for a goal with quantifiers is handed on to be
/// certified, and one for a goal without quantifiers is tested against the
/// assertions; a search that dropped a conflict is trusted with neither.
pub proof fn found_models_are_examined(x: Search, g: Goal, dropped: bool)
    requires
        x.action == Action::Solve,
    ensures
        ({
            let y = advanced(x, g, Event::Searched { result: SolverResult::Sat, dropped });
            &&& !dropped && g.quantified ==> y.action == Action::Certify
            &&& !dropped && !g.quantified ==> y.action == Action::TestModel
            &&& dropped ==> y.action == Action::Answer(SolverResult::Unknown)
            &&& y.mbqi_rounds == x.mbqi_rounds && y.array_rounds == x.array_rounds
        }),
{
}

proof fn lemma_quantified_step(x: Search, replies: Seq<(Goal, Event)>, n: int)
    requires
        0 <= n < replies.len(),
        replies[n].0.quantified,
    ensures
        !ground_step(action_at(x, replies, n)) ==> !ground_step(action_at(x, replies, n + 1)),
        !ground_step(action_at(x, replies, n)) && action_at(x, replies, n + 1) == Action::Answer(
            SolverResult::Sat,
        ) ==> action_at(x, replies, n) == Action::Answer(SolverResult::Sat) || settles_quantifiers(
            action_at(x, replies, n),
            replies[n].1,
        ),
{
    reveal(action_at);
    lemma_conducted(x, replies.take(n + 1));
    assert(replies.take(n + 1).take(n) =~= replies.take(n));
}

proof fn lemma_quantified_run(x: Search, replies: Seq<(Goal, Event)>, n: int)
    requires
        0 <= n <= replies.len(),
        !ground_step(x.action) && x.action != Action::Answer(SolverResult::Sat),
        forall|k: int| 0 <= k < replies.len() ==> (#[trigger] replies[k]).0.quantified,
    ensures
        !ground_step(action_at(x, replies, n)),
        action_at(x, replies, n) == Action::Answer(SolverResult::Sat) ==> exists|k: int|
            0 <= k < n && settles_quantifiers(action_at(x, replies, k), (#[trigger] replies[k]).1),
    decreases n,
{
    if n == 0 {
        lemma_first_action(x, replies);
    } else {
        lemma_quantified_run(x, replies, n - 1);
        assert(replies[n - 1].0.quantified);
        lemma_quantified_step(x, replies, n - 1);
    }
}

proof fn lemma_first_action(x: Search, replies: Seq<(Goal, Event)>)
    ensures
        action_at(x, replies, 0) == x.action,
{
    reveal(action_at);
}

proof fn lemma_last_action(x: Search, replies: Seq<(Goal, Event)>)
    ensures
        action_at(x, replies, replies.len() as int) == conducted(x, replies).action,
{
    reveal(action_at);
    assert(replies.take(replies.len() as int) =~= replies);
}

/// A check of goals with quantifiers answers `sat` only where a reply settled the
/// quantifiers; it never takes a step that is meant for goals without quantifiers.
pub proof fn quantified_answers_rest_on_quantifiers(
    g: Goal,
    out_of_budget: bool,
    replies: Seq<(Goal, Event)>,
)
    requires
        !g.empty || g.has_false,
        forall|k: int| 0 <= k < replies.len() ==> (#[trigger] replies[k]).0.quantified,
    ensures
        ({
            let x = started(g, out_of_budget);
            let y = conducted(x, replies);
            &&& !ground_step(y.action)
            &&& y.action == Action::Answer(SolverResult::Sat) ==> exists|k: int|
                0 <= k < replies.len() && settles_quantifiers(
                    action_at(x, replies, k),
                    (#[trigger] replies[k]).1,
                )
        }),
{
    let x = started(g, out_of_budget);
    lemma_quantified_run(x, replies, replies.len() as int);
    lemma_last_action(x, replies);
}

proof fn lemma_ground_step(x: Search, replies: Seq<(Goal, Event)>, n: int)
    requires
        0 <= n < replies.len(),
        !replies[n].0.quantified,
    ensures
        ({
            let p = action_at(x, replies, n);
            let y = action_at(x, replies, n + 1);
            &&& !quantifier_step(p) ==> !quantifier_step(y)
            &&& y == Action::SplitCases || y == Action::InstantiateArrays ==> p
                == Action::SplitCases || model_stands(x, replies, n)
            &&& !quantifier_step(p) && y == Action::Answer(SolverResult::Sat) ==> {
                ||| p == Action::Answer(SolverResult::Sat)
                ||| p == Action::SplitCases && !replies[n].0.arrays
                ||| p == Action::InstantiateArrays && settles_arrays(p, replies[n].1)
                ||| model_stands(x, replies, n) && !replies[n].0.arrays
                ||| settles_quantifiers(p, replies[n].1) && settles_arrays(p, replies[n].1)
            }
        }),
{
    reveal(action_at);
    lemma_conducted(x, replies.take(n + 1));
    assert(replies.take(n + 1).take(n) =~= replies.take(n));
}

proof fn lemma_ground_run(x: Search, replies: Seq<(Goal, Event)>, n: int)
    requires
        0 <= n <= replies.len(),
        !searching(x.action) && x.action != Action::Answer(SolverResult::Sat),
        forall|k: int| 0 <= k < replies.len() ==> !(#[trigger] replies[k]).0.quantified,
    ensures
        ({
            let y = action_at(x, replies, n);
            &&& !quantifier_step(y)
            &&& y == Action::SplitCases || y == Action::InstantiateArrays ==> exists|k: int|
                0 <= k < n && model_stands(x, replies, k)
            &&& y == Action::Answer(SolverResult::Sat) ==> exists|k: int|
                0 <= k < n && (model_stands(x, replies, k) || settles_quantifiers(
                    action_at(x, replies, k),
                    (#[trigger] replies[k]).1,
                ))
            &&& y == Action::Answer(SolverResult::Sat) ==> exists|k: int|
                0 <= k < n && (!replies[k].0.arrays || settles_arrays(
                    action_at(x, replies, k),
                    (#[trigger] replies[k]).1,
                ))
        }),
    decreases n,
{
    if n == 0 {
        lemma_first_action(x, replies);
    } else {
        lemma_ground_run(x, replies, n - 1);
        assert(!replies[n - 1].0.quantified);
        lemma_ground_step(x, replies, n - 1);
        let p = action_at(x, replies, n - 1);
        let y = action_at(x, replies, n);
        if p == Action::SplitCases || p == Action::InstantiateArrays {
            let k = choose|k: int| 0 <= k < n - 1 && model_stands(x, replies, k);
            assert(model_stands(x, replies, k) && replies[k] == replies[k]);
        }
    }
}

/// A check of goals without quantifiers takes no step that is meant for
/// quantifiers, and answers `sat` only where a model was built that refutes no
/// assertion and, where there are arrays, violates no array axiom; or where a
/// theory found a model before the search.
pub proof fn ground_answers_rest_on_models(
    g: Goal,
    out_of_budget: bool,
    replies: Seq<(Goal, Event)>,
)
    requires
        !g.empty || g.has_false,
        forall|k: int| 0 <= k < replies.len() ==> !(#[trigger] replies[k]).0.quantified,
    ensures
        ({
            let x = started(g, out_of_budget);
            let y = conducted(x, replies);
            &&& !quantifier_step(y.action)
            &&& y.action == Action::SplitCases || y.action == Action::InstantiateArrays ==> exists|
                k: int,
            | 0 <= k < replies.len() && model_stands(x, replies, k)
            &&& y.action == Action::Answer(SolverResult::Sat) ==> exists|k: int|
                0 <= k < replies.len() && (model_stands(x, replies, k) || settles_quantifiers(
                    action_at(x, replies, k),
                    (#[trigger] replies[k]).1,
                ))
            &&& y.action == Action::Answer(SolverResult::Sat) ==> exists|k: int|
                0 <= k < replies.len() && (!replies[k].0.arrays || settles_arrays(
                    action_at(x, replies, k),
                    (#[trigger] replies[k]).1,
                ))
        }),
{
    let x = started(g, out_of_budget);
    lemma_ground_run(x, replies, replies.len() as int);
    lemma_last_action(x, replies);
}

/// Reply `k` says that the model that was built refutes no assertion.
pub open spec fn model_stands(x: Search, replies: Seq<(Goal, Event)>, k: int) -> bool {
    &&& action_at(x, replies, k) == Action::TestModel
    &&& replies[k].1 matches Event::Modelled { refuted, affordable } && !refuted
}

/// The reply says that no array axiom is violated, or that a theory found a model.
pub open spec fn settles_arrays(action: Action, event: Event) -> bool {
    match action {
        Action::InstantiateArrays => event == Event::Found(false),
        Action::SolveNonlinear => event == Event::Decided(Some(SolverResult::Sat)),
        Action::TryFloatModel | Action::TryStringModel => event == Event::Found(true),
        _ => false,
    }
}

/// One of the checks that come before the search.
pub open spec fn is_check(action: Action) -> bool {
    action == Action::CheckFloats || action == Action::CheckDatatypes || action
        == Action::CheckArrays || action == Action::CheckBitVectors
}

/// Before reply `n` the check was made, and found no conflict.
pub open spec fn passed(x: Search, replies: Seq<(Goal, Event)>, n: int, check: Action) -> bool {
    exists|k: int|
        0 <= k < n && action_at(x, replies, k) == check && (#[trigger] replies[k]).1
            != Event::Found(true)
}

/// How far a check has come that has found no conflict.
pub open spec fn rank(action: Action) -> int {
    match action {
        Action::InstantiateArith => 0,
        Action::InstantiateDatatypes => 1,
        Action::CheckFloats => 2,
        Action::CheckDatatypes => 3,
        Action::CheckArrays => 4,
        Action::CheckBitVectors => 5,
        Action::SolveNonlinear => 6,
        Action::FindFloatAtoms | Action::TryFloatModel | Action::TryStringModel => 7,
        Action::FindArithAtoms => 8,
        Action::Answer(SolverResult::Unsat) => -1,
        _ => 9,
    }
}

/// Reply `k` is one to the nonlinear solver, which found nothing, as the library
/// finds no conflict.
pub open spec fn nonlinear_passed(x: Search, replies: Seq<(Goal, Event)>, k: int) -> bool {
    &&& action_at(x, replies, k) == Action::SolveNonlinear
    &&& !replies[k].0.nonlinear_conflict
    &&& replies[k].1 != Event::Decided(Some(SolverResult::Sat))
    &&& replies[k].1 != Event::Decided(Some(SolverResult::Unsat))
}

proof fn lemma_check_step(x: Search, replies: Seq<(Goal, Event)>, n: int)
    requires
        0 <= n < replies.len(),
    ensures
        ({
            let p = action_at(x, replies, n);
            let y = action_at(x, replies, n + 1);
            &&& rank(y) <= rank(p) || rank(y) == rank(p) + 1 || (y == Action::Answer(
                SolverResult::Sat,
            ) && rank(p) >= 6) || (y == Action::Answer(SolverResult::Unknown) && rank(p) >= 7) || (y
                == Action::FindArithAtoms && rank(p) == 7)
            &&& rank(y) > rank(p) && is_check(p) ==> replies[n].1 != Event::Found(true)
            &&& rank(y) > 1 && rank(p) <= 1 ==> !replies[n].0.string_conflict && p
                == Action::InstantiateDatatypes
            &&& rank(y) > 6 && rank(p) <= 6 && y != Action::Answer(SolverResult::Sat)
                ==> nonlinear_passed(x, replies, n)
            &&& p == Action::Answer(SolverResult::Sat) ==> y == p
            &&& p is Answer ==> y == p
            &&& searching(y) ==> searching(p) || (p == Action::FindArithAtoms && replies[n].1
                == Event::Found(false) && !x.out_of_budget)
        }),
{
    reveal(action_at);
    lemma_conducted(x, replies.take(n + 1));
    assert(replies.take(n + 1).take(n) =~= replies.take(n));
    lemma_budget(x, replies.take(n));
}

proof fn lemma_rank(action: Action)
    requires
        0 <= rank(action) <= 6,
    ensures
        rank(action) == 0 ==> action == Action::InstantiateArith,
        rank(action) == 1 ==> action == Action::InstantiateDatatypes,
        forall|check: Action| #[trigger] is_check(check) && rank(check) == rank(action) ==> check
            == action,
{
}

proof fn lemma_check_run(x: Search, replies: Seq<(Goal, Event)>, n: int)
    requires
        0 <= n <= replies.len(),
        x.action == Action::InstantiateArith || x.action == Action::Answer(SolverResult::Unsat),
    ensures
        ({
            let y = action_at(x, replies, n);
            &&& rank(y) > 0 ==> exists|k: int|
                0 <= k < n && action_at(x, replies, k) == Action::InstantiateArith
            &&& rank(y) > 1 ==> exists|k: int|
                0 <= k < n && action_at(x, replies, k) == Action::InstantiateDatatypes && !(
                #[trigger] replies[k]).0.string_conflict
            &&& forall|check: Action| #[trigger]
                is_check(check) && rank(check) < rank(y) ==> passed(x, replies, n, check)
            &&& rank(y) > 6 && y != Action::Answer(SolverResult::Sat) ==> exists|k: int|
                0 <= k < n && nonlinear_passed(x, replies, k)
            &&& searching(y) ==> !x.out_of_budget && exists|k: int|
                0 <= k < n && action_at(x, replies, k) == Action::FindArithAtoms && (
                #[trigger] replies[k]).1 == Event::Found(false)
        }),
    decreases n,
{
    if n == 0 {
        lemma_first_action(x, replies);
    } else {
        lemma_check_run(x, replies, n - 1);
        lemma_check_step(x, replies, n - 1);
        let p = action_at(x, replies, n - 1);
        let y = action_at(x, replies, n);
        if rank(y) > rank(p) && 0 <= rank(p) <= 6 {
            lemma_rank(p);
        }
        assert forall|check: Action| #[trigger]
            is_check(check) && rank(check) < rank(y) implies passed(x, replies, n, check) by {
            if rank(check) < rank(p) {
                assert(passed(x, replies, n - 1, check));
            } else {
                assert(p == check);
                assert(replies[n - 1].1 != Event::Found(true));
            }
        }
    }
}

/// A check that is past a step has taken it: the steps before the search come one
/// after the other, none is left out, and none of the checks found a conflict.
/// Strings and nonlinear terms were looked at too, without a conflict.
pub proof fn searches_follow_the_checks(
    g: Goal,
    out_of_budget: bool,
    replies: Seq<(Goal, Event)>,
)
    requires
        !g.empty && !g.exceeded,
    ensures
        ({
            let x = started(g, out_of_budget);
            let y = conducted(x, replies).action;
            let n = replies.len() as int;
            &&& rank(y) > 0 ==> exists|k: int|
                0 <= k < n && action_at(x, replies, k) == Action::InstantiateArith
            &&& rank(y) > 1 ==> exists|k: int|
                0 <= k < n && action_at(x, replies, k) == Action::InstantiateDatatypes && !(
                #[trigger] replies[k]).0.string_conflict
            &&& forall|check: Action| #[trigger]
                is_check(check) && rank(check) < rank(y) ==> passed(x, replies, n, check)
            &&& rank(y) > 6 && y != Action::Answer(SolverResult::Sat) ==> exists|k: int|
                0 <= k < n && nonlinear_passed(x, replies, k)
            &&& searching(y) ==> !out_of_budget && exists|k: int|
                0 <= k < n && action_at(x, replies, k) == Action::FindArithAtoms && (
                #[trigger] replies[k]).1 == Event::Found(false)
        }),
{
    let x = started(g, out_of_budget);
    lemma_check_run(x, replies, replies.len() as int);
    lemma_last_action(x, replies);
}

proof fn lemma_budget(x: Search, replies: Seq<(Goal, Event)>)
    ensures
        conducted(x, replies).out_of_budget == x.out_of_budget,
    decreases replies.len(),
{
    if replies.len() > 0 {
        lemma_conducted(x, replies);
        lemma_budget(x, replies.take(replies.len() - 1));
    }
}

/// A check starts with the constant `false` refuted, with no assertions satisfied,
/// and else with work to do, unless the encoding was cut short.
pub proof fn checks_start_with_the_assertions(g: Goal, out_of_budget: bool)
    ensures
        started(g, out_of_budget).action == Action::Answer(SolverResult::Unsat) <==> g.has_false,
        started(g, out_of_budget).action == Action::Answer(SolverResult::Sat) <==> g.empty
            && !g.has_false,
        started(g, out_of_budget).action == Action::Answer(SolverResult::Unknown) <==> g.exceeded
            && !g.empty && !g.has_false,
        started(g, out_of_budget).action is Answer || started(g, out_of_budget).action
            == Action::InstantiateArith,
{
}

/// An answer stands whatever is reported afterwards.
pub proof fn answers_stand(x: Search, replies: Seq<(Goal, Event)>, r: SolverResult)
    requires
        x.action == Action::Answer(r),
    ensures
        conducted(x, replies) == x,
    decreases replies.len(),
{
    if replies.len() > 0 {
        lemma_conducted(x, replies);
        answers_stand(x, replies.take(replies.len() - 1), r);
    }
}

/// A reply that decides the goal is answered: what refutes it with `unsat`, what
/// satisfies it with `sat`.
pub proof fn decisive_replies_are_answered(x: Search, g: Goal, event: Event)
    requires
        !(x.action is Answer),
    ensures
        advanced(x, g, event).action == Action::Answer(SolverResult::Unsat) <==> {
            ||| is_check(x.action) && event == Event::Found(true)
            ||| x.action == Action::InstantiateDatatypes && g.string_conflict
            ||| x.action == Action::SolveNonlinear && (event == Event::Decided(
                Some(SolverResult::Unsat),
            ) || (g.nonlinear_conflict && event != Event::Decided(Some(SolverResult::Sat))))
            ||| x.action == Action::Solve && (event matches Event::Searched { result, dropped }
                && result == SolverResult::Unsat)
        },
        advanced(x, g, event).action == Action::Answer(SolverResult::Sat) <==> {
            ||| settles_quantifiers(x.action, event)
            ||| x.action == Action::InstantiateArrays && event == Event::Found(false)
            ||| !g.arrays && x.action == Action::SplitCases && event == Event::Found(false)
            ||| !g.arrays && x.action == Action::TestModel && event == (Event::Modelled {
                refuted: false,
                affordable: false,
            })
        },
{
}

/// A check gives up only for a reason: a theory found no model for atoms that it
/// alone can decide, the budget is spent, the search was not conclusive, the model
/// is refuted, an engine ran out of time, or the rounds are over.
pub proof fn giving_up_has_a_reason(x: Search, g: Goal, event: Event)
    requires
        !(x.action is Answer),
        advanced(x, g, event).action == Action::Answer(SolverResult::Unknown),
    ensures
        match x.action {
            Action::TryFloatModel => event != Event::Found(true) && !g.string_atoms,
            Action::TryStringModel | Action::TestTriviality => event != Event::Found(true),
            Action::FindArithAtoms => x.out_of_budget || event != Event::Found(false),
            Action::Solve => match event {
                Event::Searched { result, dropped } => result == SolverResult::Unknown || (result
                    == SolverResult::Sat && dropped),
                _ => true,
            },
            Action::TestModel => !(event is Modelled) || event->refuted,
            Action::SplitCases => !(event is Found),
            Action::InstantiateArrays => !(event is Found) || (event == Event::Found(true)
                && x.array_rounds >= 255),
            Action::CheckQuantifiers => !(event is Quantifiers) || event == Event::Quantifiers(
                MbqiOutcome::InstantiationLimit,
            ) || (event == Event::Quantifiers(MbqiOutcome::Unknown) && x.mbqi_rounds >= 99),
            Action::BlockConflict | Action::AddLemmas(LemmaSource::Model) => x.mbqi_rounds >= 99,
            _ => false,
        },
{
}

/// Where a round brought something new, the search is taken up again, one round
/// later: instances with their lemmas, a blocked conflict, array axioms; and
/// cases that were split, in the same round.
pub proof fn rounds_search_again(x: Search, a: (Goal, Event), b: (Goal, Event), c: (Goal, Event))
    ensures
        x.action == Action::AssertInstances && x.mbqi_rounds < 99 ==> conducted(x, seq![a, b]) == (
        Search { action: Action::Rebase, mbqi_rounds: (x.mbqi_rounds + 1) as u32, ..x }),
        x.action == Action::BlockConflict && x.mbqi_rounds < 99 ==> conducted(x, seq![a]) == (
        Search { action: Action::Rebase, mbqi_rounds: (x.mbqi_rounds + 1) as u32, ..x }),
        x.action == Action::InstantiateBlindly && x.mbqi_rounds < 10 && x.mbqi_rounds != 2
            ==> conducted(x, seq![a, b]) == (Search {
            action: Action::Rebase,
            mbqi_rounds: (x.mbqi_rounds + 1) as u32,
            ..x
        }),
        x.action == Action::InstantiateBlindly && x.mbqi_rounds == 2 ==> conducted(
            x,
            seq![a, b],
        ).action == Action::InstantiateFinitely,
        x.action == Action::InstantiateFinitely && x.mbqi_rounds < 10 ==> conducted(x, seq![a, b])
            == (Search {
            action: Action::Rebase,
            mbqi_rounds: (x.mbqi_rounds + 1) as u32,
            ..x
        }),
        x.action == Action::InstantiateArrays && x.array_rounds < 255 && a.1 == Event::Found(true)
            ==> conducted(x, seq![a]) == (Search {
            action: Action::Rebase,
            array_rounds: (x.array_rounds + 1) as u32,
            ..x
        }),
        x.action == Action::SplitCases && a.1 == Event::Found(true) ==> conducted(x, seq![a])
            == (Search { action: Action::Rebase, ..x }),
        x.action == Action::Rebase ==> conducted(x, seq![a]) == (Search {
            action: Action::Solve,
            ..x
        }),
{
    let one = seq![a];
    let two = seq![a, b];
    assert(one.drop_last() =~= Seq::<(Goal, Event)>::empty());
    assert(two.drop_last() =~= one);
    assert(conducted(x, Seq::<(Goal, Event)>::empty()) == x);
    assert(conducted(x, one) == advanced(x, a.0, a.1));
    assert(conducted(x, two) == advanced(conducted(x, one), b.0, b.1));
}

/// What checking quantifiers reports is acted on: instances are asserted, a
/// conflict is blocked, and where it is undecided the quantifiers are instantiated
/// without a model, the first time.
pub proof fn quantifier_reports_are_acted_on(x: Search, g: Goal)
    requires
        x.action == Action::CheckQuantifiers,
    ensures
        advanced(x, g, Event::Quantifiers(MbqiOutcome::NewInstantiations)).action
            == Action::AssertInstances,
        advanced(x, g, Event::Quantifiers(MbqiOutcome::Conflict)).action == Action::BlockConflict,
        !x.blind_tried ==> advanced(x, g, Event::Quantifiers(MbqiOutcome::Unknown)).action
            == Action::InstantiateBlindly && advanced(
            x,
            g,
            Event::Quantifiers(MbqiOutcome::Unknown),
        ).blind_tried,
        x.blind_tried && x.mbqi_rounds < 10 && x.mbqi_rounds != 2 ==> advanced(
            x,
            g,
            Event::Quantifiers(MbqiOutcome::Unknown),
        ).action == Action::Rebase,
        x.blind_tried && x.mbqi_rounds >= 10 ==> advanced(
            x,
            g,
            Event::Quantifiers(MbqiOutcome::Unknown),
        ).action == Action::TestTriviality,
{
}

/// Quantifiers are instantiated without a model at most once in a check.
pub proof fn blind_instantiation_comes_once(x: Search, replies: Seq<(Goal, Event)>)
    requires
        x.blind_tried,
        x.action != Action::InstantiateBlindly,
    ensures
        conducted(x, replies).action != Action::InstantiateBlindly,
        conducted(x, replies).blind_tried,
    decreases replies.len(),
{
    if replies.len() > 0 {
        lemma_conducted(x, replies);
        blind_instantiation_comes_once(x, replies.take(replies.len() - 1));
    }
}

/// The honesty gates touch no answer but `sat`, and let it pass just where nothing
/// is incomplete.
pub proof fn gates_hold_back_only_sat(r: SolverResult, exceeded: bool, arith: bool, dt: bool)
    ensures
        honest(r, exceeded, arith, dt) == SolverResult::Unsat <==> r == SolverResult::Unsat,
        honest(r, exceeded, arith, dt) == SolverResult::Sat <==> r == SolverResult::Sat
            && !exceeded && !arith && !dt,
        honest(honest(r, exceeded, arith, dt), exceeded, arith, dt) == honest(
            r,
            exceeded,
            arith,
            dt,
        ),
{
}

/// Terms are defined for four rounds at most, and only where a positive answer
/// depends on it.
pub proof fn definitions_are_refined_in_rounds(r: SolverResult, incomplete: bool, round: usize)
    ensures
        defines_more(r, incomplete, round) ==> r == SolverResult::Sat && incomplete && round < 4,
        r == SolverResult::Sat && incomplete && round < 4 ==> defines_more(r, incomplete, round),
        defines_more(r, incomplete, round) ==> honest(r, false, incomplete, false)
            == SolverResult::Unknown,
{
}

/// The step that stands at place `n` of the preparations.
pub open spec fn preparation_at(applies: bool, n: nat) -> Option<Preparation>
    decreases n,
{
    if n == 0 {
        Some(Preparation::TieConstants)
    } else {
        match preparation_at(applies, (n - 1) as nat) {
            Some(step) => prepared(step, applies),
            None => None,
        }
    }
}

/// Every preparation is made before the search, each once and in its order, unless
/// the equations alone are the goal; for those the clauses decide.
pub proof fn preparations_are_made(applies: bool)
    ensures
        preparation_at(applies, 1) == Some(Preparation::AddTransitivity),
        !applies ==> {
            &&& preparation_at(applies, 2) == Some(Preparation::SplitIndices)
            &&& preparation_at(applies, 3) == Some(Preparation::SplitResults)
            &&& preparation_at(applies, 4) == Some(Preparation::LinkComparisons)
            &&& preparation_at(applies, 5) == Some(Preparation::SplitEquations)
            &&& preparation_at(applies, 6) == Some(Preparation::CreateCareAtoms)
            &&& preparation_at(applies, 7) == Some(Preparation::BumpEnumerations)
            &&& preparation_at(applies, 8) is None
        },
        applies ==> preparation_at(applies, 2) == Some(Preparation::DecideEquations)
            && preparation_at(applies, 3) is None,
{
    reveal_with_fuel(preparation_at, 9);
}

/// Another search of the same check starts as the first did, with its rounds ahead
/// of it, and remembers that quantifiers were instantiated without a model: that is
/// not done again.
pub proof fn restarts_remember_blind_instantiation(
    x: Search,
    g: Goal,
    out_of_budget: bool,
    replies: Seq<(Goal, Event)>,
)
    ensures
        restarted(x, g, out_of_budget).action == started(g, out_of_budget).action,
        restarted(x, g, out_of_budget).mbqi_rounds == 0,
        restarted(x, g, out_of_budget).array_rounds == 0,
        restarted(x, g, out_of_budget).out_of_budget == out_of_budget,
        x.blind_tried ==> conducted(restarted(x, g, out_of_budget), replies).action
            != Action::InstantiateBlindly,
        !x.blind_tried ==> !restarted(x, g, out_of_budget).blind_tried,
{
    if x.blind_tried {
        blind_instantiation_comes_once(restarted(x, g, out_of_budget), replies);
    }
}

/// What a check is told of the assertions is what the state says of them.
pub proof fn goals_tell_the_state(
    store: &TermStore,
    goal: &GoalState,
    logic: Option<&str>,
    nonlinear: bool,
)
    ensures
        ({
            let g = goal_of(store, goal, logic, nonlinear);
            &&& g.has_false == goal@.j.has_false
            &&& g.empty == (goal@.j.assertions.len() == 0)
            &&& g.exceeded == goal@.exceeded
            &&& g.quantified == goal@.quantified
            &&& g.arrays == goal@.arrays
            &&& g.string_conflict == strings_conflict(
                store.terms(),
                store.names@,
                goal@.j.assertions,
            )
            &&& nonlinear && logic is None ==> g.nonlinear_conflict == atoms_conflict(
                all_atoms(
                    store.terms(),
                    goal@.j.assertions,
                    goal@.j.assertions.len() as int,
                ),
            )
            &&& !nonlinear && logic is None ==> !g.nonlinear_conflict
        }),
{
    let l = crate::nonlinear::effective_logic(None);
    assert(l.len() == 3);
    assert(!crate::nonlinear::integer_logic(l) && !crate::nonlinear::real_logic(l)) by {
        assert forall|k: int| !crate::strings::occurs_at(seq!['N', 'I', 'A'], l, k) by {
            if k == 0 {
                assert(l.subrange(0, 3)[0] == 'A');
            }
        }
        assert forall|k: int| !crate::strings::occurs_at(seq!['N', 'R', 'A'], l, k) by {
            if k == 0 {
                assert(l.subrange(0, 3)[0] == 'A');
            }
        }
    }
}

/// Theories are asked for a model before the search just where they have atoms of
/// their own: floating point first, strings where that found none or has nothing to
/// say, and arithmetic is looked at where neither has.
pub proof fn theories_are_asked_in_turn(x: Search, g: Goal, event: Event)
    ensures
        x.action == Action::FindFloatAtoms ==> {
            &&& advanced(x, g, event).action == Action::TryFloatModel <==> event == Event::Found(true)
            &&& advanced(x, g, event).action == Action::TryStringModel <==> event != Event::Found(
                true,
            ) && g.string_atoms
            &&& advanced(x, g, event).action == Action::FindArithAtoms <==> event != Event::Found(
                true,
            ) && !g.string_atoms
        },
        x.action == Action::TryFloatModel && event != Event::Found(true) && g.string_atoms
            ==> advanced(x, g, event).action == Action::TryStringModel,
        x.action == Action::FindArithAtoms && event == Event::Found(false) && !x.out_of_budget
            ==> advanced(x, g, event).action == Action::Rebase,
{
}

/// A model that stands is refined where there is time: cases are split, and array
/// axioms are instantiated where there are arrays.
pub proof fn models_that_stand_are_refined(x: Search, g: Goal, affordable: bool)
    ensures
        x.action == Action::TestModel ==> {
            let y = advanced(x, g, Event::Modelled { refuted: false, affordable });
            &&& affordable ==> y.action == Action::SplitCases
            &&& !affordable && g.arrays ==> y.action == Action::InstantiateArrays
        },
        x.action == Action::SplitCases && g.arrays ==> advanced(
            x,
            g,
            Event::Found(false),
        ).action == Action::InstantiateArrays,
{
}

/// Instances come with their lemmas: those from a model with the lemmas of the model,
/// and those without with the others.
pub proof fn instances_come_with_their_lemmas(x: Search, g: Goal, event: Event)
    ensures
        x.action == Action::AssertInstances ==> advanced(x, g, event).action == Action::AddLemmas(
            LemmaSource::Model,
        ),
        x.action == Action::InstantiateBlindly ==> advanced(x, g, event).action
            == Action::AddLemmas(LemmaSource::Blind),
        x.action == Action::InstantiateFinitely ==> advanced(x, g, event).action
            == Action::AddLemmas(LemmaSource::Finite),
        x.action == Action::CheckQuantifiers && x.blind_tried && x.mbqi_rounds == 2 ==> advanced(
            x,
            g,
            Event::Quantifiers(MbqiOutcome::Unknown),
        ).action == Action::InstantiateFinitely,
        x.action == Action::Certify && event != Event::Found(true) ==> advanced(x, g, event).action
            == Action::CheckQuantifiers,
        x.action == Action::AddLemmas(LemmaSource::Finite) && x.mbqi_rounds >= 10 ==> advanced(
            x,
            g,
            event,
        ).action == Action::TestTriviality,
{
}

} // verus!
