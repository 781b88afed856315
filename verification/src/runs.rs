//! What a run of calls leaves of the scopes.

use crate::answers::closed_apart;
use crate::assertion::entered;
use crate::context::{popping_undoes_pushing, shortened, Context};
use crate::declared::{DeclaredConst, DeclaredFun};
use crate::search::{advanced, goal_of, started, Event, Goal, Search};
use crate::solver::{restored, Solver};
use crate::state::GoalView;
use crate::terms::{TermId, TermStore, TermView};
use vstd::prelude::*;

verus! {

/// A call that opens and closes no scope took `a` to `b`: an assertion was
/// entered or finished, a check took a step or gave an answer, or something was
/// set.
pub open spec fn stays(a: &Solver, b: &Solver) -> bool {
    ||| b.only_asserts(a)
    ||| b.answers(a)
    ||| b.forgets(a)
    ||| exists|s0: Seq<TermView>, s1: Seq<TermView>| #[trigger] b.searches(a, s0, s1)
    ||| *b == (Solver { goal: b.goal, tables: b.tables, terms: b.terms, ..*a })
    ||| *b == (Solver { tables: b.tables, case_split_rounds: b.case_split_rounds, ..*a })
    ||| *b == (Solver { entailed: b.entailed, terms: b.terms, ..*a })
    ||| *b == (Solver {
        config: b.config,
        logic: b.logic,
        produce_unsat_cores: b.produce_unsat_cores,
        theory_aware_branching: b.theory_aware_branching,
        statistics: b.statistics,
        last_check: None,
        ..*a
    })
    ||| *b == (Solver { last_check: b.last_check, ..*a })
}

/// One call took `a` to `b`.
pub open spec fn called(a: &Solver, b: &Solver) -> bool {
    ||| stays(a, b)
    ||| b.opened(a)
    ||| a.context_stack@.len() > 0 && closed_apart(b, a)
    ||| a.context_stack@.len() == 0 && *b == *a
}

/// A call took the solver at `k` to the next.
pub open spec fn call_at(run: Seq<Solver>, k: int) -> bool {
    called(&run[k], &run[k + 1])
}

/// Each call took one solver of the run to the next, and none closed the scopes
/// that were open at its start.
pub open spec fn is_run(run: Seq<Solver>) -> bool {
    &&& run.len() > 0
    &&& forall|k: int| 0 <= k < run.len() - 1 ==> #[trigger] call_at(run, k)
    &&& forall|k: int|
        0 <= k < run.len() ==> (#[trigger] run[k]).context_stack@.len()
            >= run[0].context_stack@.len()
}

/// The scopes that were open at the start of a run are still those.
proof fn lemma_outer_scopes(run: Seq<Solver>, k: int)
    requires
        is_run(run),
        run[0].saved@.len() == run[0].context_stack@.len(),
        0 <= k < run.len(),
    ensures
        run[k].saved@.len() == run[k].context_stack@.len(),
        run[k].saved@.take(run[0].saved@.len() as int) == run[0].saved@,
        run[k].context_stack@.take(run[0].saved@.len() as int) == run[0].context_stack@,
    decreases k,
{
    let n = run[0].saved@.len() as int;
    if k == 0 {
        assert(run[0].saved@.take(n) =~= run[0].saved@);
        assert(run[0].context_stack@.take(n) =~= run[0].context_stack@);
    } else {
        lemma_outer_scopes(run, k - 1);
        let (a, b) = (run[k - 1], run[k]);
        assert(call_at(run, k - 1));
        assert(b.context_stack@.len() >= n);
        if stays(&a, &b) {
            assert(b.saved == a.saved && b.context_stack == a.context_stack);
        } else if b.opened(&a) {
            assert(b.saved@.take(n) =~= a.saved@.take(n));
            assert(a.context_stack@.take(n) =~= b.context_stack@.drop_last().take(n));
            assert(b.context_stack@.take(n) =~= b.context_stack@.drop_last().take(n));
        } else if a.context_stack@.len() > 0 {
            assert(b.saved@.take(n) =~= a.saved@.take(n));
            assert(b.context_stack@.take(n) =~= a.context_stack@.take(n));
        }
    }
}

/// Closing a scope gives back what was there when it was opened, whatever calls
/// came in between: assertions, checks, settings, and scopes that were opened
/// and closed.  The model and the core are gone.
pub proof fn closing_undoes_a_run(a: &Solver, run: Seq<Solver>, d: &Solver)
    requires
        a.valid(),
        is_run(run),
        run[0].opened(a),
        run.last().context_stack@.len() == run[0].context_stack@.len(),
        d.closed(&run.last()),
    ensures
        restored(a.goal@, d.goal@),
        d.goal@.j.assertions == a.goal@.j.assertions,
        d.context_stack@ == a.context_stack@,
        d.saved@ == a.saved@,
        d.dt_axioms_incomplete == a.dt_axioms_incomplete,
        d.tables.unit_eq_rep@ == a.tables.unit_eq_rep@,
        d.model is None,
        d.unsat_core is None,
{
    let c = run.last();
    let n = run[0].saved@.len() as int;
    lemma_outer_scopes(run, run.len() - 1);
    assert(c.saved@.take(n) =~= c.saved@);
    assert(c.context_stack@.take(n) =~= c.context_stack@);
    crate::solver::closing_undoes_opening(a, &run[0], &c, d);
}

/// A list with the lengths that it had when scopes were opened.
pub struct Pile<T> {
    pub list: Seq<T>,
    pub marks: Seq<usize>,
}

/// A call added to the list, marked its length, or cut it back to the last mark.
pub open spec fn pile_step<T>(a: Pile<T>, b: Pile<T>) -> bool {
    ||| b.marks == a.marks && a.list.len() <= b.list.len() && b.list.take(a.list.len() as int)
        == a.list
    ||| b.list == a.list && b.marks.len() == a.marks.len() + 1 && b.marks.drop_last() == a.marks
        && b.marks.last() == a.list.len()
    ||| a.marks.len() > 0 && b.marks == a.marks.drop_last() && b.list == shortened(
        a.list,
        a.marks.last() as int,
    )
}

pub open spec fn pile_step_at<T>(run: Seq<Pile<T>>, k: int) -> bool {
    pile_step(run[k], run[k + 1])
}

pub open spec fn is_pile_run<T>(run: Seq<Pile<T>>) -> bool {
    &&& run.len() > 0
    &&& forall|k: int| 0 <= k < run.len() - 1 ==> #[trigger] pile_step_at(run, k)
    &&& forall|k: int| 0 <= k < run.len() ==> (#[trigger] run[k]).marks.len() >= run[0].marks.len()
}

/// What was listed at the start of a run is listed still, and so are the marks;
/// the later marks are no lower.
proof fn lemma_pile<T>(run: Seq<Pile<T>>, k: int)
    requires
        is_pile_run(run),
        0 <= k < run.len(),
    ensures
        run[k].list.len() >= run[0].list.len(),
        run[k].list.take(run[0].list.len() as int) == run[0].list,
        run[k].marks.len() >= run[0].marks.len(),
        run[k].marks.take(run[0].marks.len() as int) == run[0].marks,
        forall|j: int|
            run[0].marks.len() <= j < run[k].marks.len() ==> (#[trigger] run[k].marks[j])
                >= run[0].list.len(),
    decreases k,
{
    let n = run[0].list.len() as int;
    let m = run[0].marks.len() as int;
    if k == 0 {
        assert(run[0].list.take(n) =~= run[0].list);
        assert(run[0].marks.take(m) =~= run[0].marks);
    } else {
        lemma_pile(run, k - 1);
        let (a, b) = (run[k - 1], run[k]);
        assert(pile_step_at(run, k - 1));
        assert(b.marks.len() >= m);
        if b.marks == a.marks && a.list.len() <= b.list.len() && b.list.take(a.list.len() as int)
            == a.list {
            assert(b.list.take(n) =~= a.list.take(n));
        } else if b.list == a.list && b.marks.len() == a.marks.len() + 1 {
            assert(b.marks.take(m) =~= b.marks.drop_last().take(m));
            assert forall|j: int| m <= j < b.marks.len() implies (#[trigger] b.marks[j]) >= n by {
                if j < a.marks.len() {
                    assert(b.marks.drop_last()[j] == b.marks[j]);
                    assert(a.marks[j] >= n);
                }
            }
        } else {
            assert(a.marks[a.marks.len() - 1] >= n);
            assert(b.list.take(n) =~= a.list.take(n));
            assert(b.marks.take(m) =~= a.marks.take(m));
            assert forall|j: int| m <= j < b.marks.len() implies (#[trigger] b.marks[j]) >= n by {
                assert(a.marks[j] == b.marks[j]);
            }
        }
    }
}

/// The assertions of a context.
pub open spec fn asserted(c: Context) -> Pile<TermId> {
    Pile { list: c.assertions@, marks: c.assertion_stack@ }
}

/// The constants that a context declares.
pub open spec fn constants(c: Context) -> Pile<DeclaredConst> {
    Pile { list: c.declared_consts@, marks: c.const_stack@ }
}

/// The functions that a context declares.
pub open spec fn functions(c: Context) -> Pile<DeclaredFun> {
    Pile { list: c.declared_funs@, marks: c.fun_stack@ }
}

/// The calls of a run added to the lists of a context, opened scopes and closed
/// them, and none closed the scopes that were open at the start.
pub open spec fn is_context_run(run: Seq<Context>) -> bool {
    &&& is_pile_run(Seq::new(run.len(), |k: int| asserted(run[k])))
    &&& is_pile_run(Seq::new(run.len(), |k: int| constants(run[k])))
    &&& is_pile_run(Seq::new(run.len(), |k: int| functions(run[k])))
}

/// Closing a scope of a context gives back the assertions and the declarations
/// that were there when it was opened, whatever calls came in between.
pub proof fn popping_undoes_a_run(a: &Context, run: Seq<Context>, d: &Context)
    requires
        a.valid(),
        run.len() > 0,
        run[0].assertions@ == a.assertions@,
        run[0].declared_consts@ == a.declared_consts@,
        run[0].declared_funs@ == a.declared_funs@,
        run[0].assertion_stack@ == a.assertion_stack@.push(a.assertions.len()),
        run[0].const_stack@ == a.const_stack@.push(a.declared_consts.len()),
        run[0].fun_stack@ == a.fun_stack@.push(a.declared_funs.len()),
        is_context_run(run),
        run.last().assertion_stack@.len() == run[0].assertion_stack@.len(),
        run.last().const_stack@.len() == run[0].const_stack@.len(),
        run.last().fun_stack@.len() == run[0].fun_stack@.len(),
        d.popped(&run.last()),
    ensures
        d.assertions@ == a.assertions@,
        d.assertion_stack@ == a.assertion_stack@,
        d.declared_consts@ == a.declared_consts@,
        d.const_index@ == a.const_index@,
        d.declared_funs@ == a.declared_funs@,
        d.fun_index@ == a.fun_index@,
{
    let n = run.len() - 1;
    let x = Seq::new(run.len(), |k: int| asserted(run[k]));
    let y = Seq::new(run.len(), |k: int| constants(run[k]));
    let z = Seq::new(run.len(), |k: int| functions(run[k]));
    lemma_pile(x, n);
    lemma_pile(y, n);
    lemma_pile(z, n);
    let c = run.last();
    assert(c.assertion_stack@.take(run[0].assertion_stack@.len() as int) =~= c.assertion_stack@);
    assert(c.const_stack@.take(run[0].const_stack@.len() as int) =~= c.const_stack@);
    assert(c.fun_stack@.take(run[0].fun_stack@.len() as int) =~= c.fun_stack@);
    assert(x[n] == asserted(c) && y[n] == constants(c) && z[n] == functions(c));
    popping_undoes_pushing(a, &c, d);
}

/// What a check reads of the assertions: the list, and the flags.
pub open spec fn same_goal(a: GoalView, b: GoalView) -> bool {
    &&& a.j.assertions == b.j.assertions
    &&& a.j.has_false == b.j.has_false
    &&& a.exceeded == b.exceeded
    &&& a.quantified == b.quantified
    &&& a.arrays == b.arrays
}

/// Where a check stands after replies, each with what the assertions tell when
/// it comes.
pub open spec fn conducted(x: Search, replies: Seq<(Goal, Event)>) -> Search
    decreases replies.len(),
{
    if replies.len() == 0 {
        x
    } else {
        let (g, event) = replies.last();
        advanced(conducted(x, replies.drop_last()), g, event)
    }
}

/// A check depends on the assertions, their flags, the logic and the replies
/// alone: two solvers that agree on these start alike and take the same steps,
/// whatever either of them was asked before.
pub proof fn checks_depend_on_the_goal(
    a: &Solver,
    b: &Solver,
    store: &TermStore,
    logic: Option<&str>,
    nonlinear: bool,
    x: Search,
    event: Event,
)
    requires
        same_goal(a.goal@, b.goal@),
    ensures
        goal_of(store, &a.goal, logic, nonlinear) == goal_of(store, &b.goal, logic, nonlinear),
        started(goal_of(store, &a.goal, logic, nonlinear), false) == started(
            goal_of(store, &b.goal, logic, nonlinear),
            false,
        ),
        advanced(x, goal_of(store, &a.goal, logic, nonlinear), event) == advanced(
            x,
            goal_of(store, &b.goal, logic, nonlinear),
            event,
        ),
{
}

/// The goals that a run of solvers shows, reply by reply.
pub open spec fn goals_shown(
    run: Seq<Solver>,
    store: &TermStore,
    logic: Option<&str>,
    nonlinear: bool,
    events: Seq<Event>,
) -> Seq<(Goal, Event)> {
    Seq::new(
        events.len(),
        |k: int| (goal_of(store, &run[k].goal, logic, nonlinear), events[k]),
    )
}

/// A solver after `reset` answers as a fresh one.  Both are without assertions
/// and differ in nothing that was asserted; and where both are then given the
/// same assertions, so that their goals agree step by step, the same replies lead
/// to the same verdict.  What was counted is kept, so the two have to agree on
/// whether the budget is spent.
pub proof fn reset_solvers_answer_as_fresh_ones(
    reset: &Solver,
    fresh: &Solver,
    later: Seq<Solver>,
    other: Seq<Solver>,
    store: &TermStore,
    logic: Option<&str>,
    nonlinear: bool,
    out_of_budget: bool,
    events: Seq<Event>,
)
    requires
        reset.fresh(),
        fresh.fresh(),
        reset.goal@.aware == fresh.goal@.aware,
        later.len() == events.len() + 1,
        other.len() == events.len() + 1,
        forall|k: int|
            0 <= k < later.len() ==> same_goal((#[trigger] later[k]).goal@, other[k].goal@),
    ensures
        reset.goal@ == fresh.goal@,
        reset.tables.unit_eq_rep@ =~= fresh.tables.unit_eq_rep@,
        reset.tables.table_index_terms@ == fresh.tables.table_index_terms@,
        reset.entailed.values@ =~= fresh.entailed.values@,
        reset.dt_axioms_incomplete == fresh.dt_axioms_incomplete,
        reset.context_stack@.len() == 0,
        reset.model is None && reset.unsat_core is None && reset.last_check is None,
        started(goal_of(store, &later[0].goal, logic, nonlinear), out_of_budget) == started(
            goal_of(store, &other[0].goal, logic, nonlinear),
            out_of_budget,
        ),
        conducted(
            started(goal_of(store, &later[0].goal, logic, nonlinear), out_of_budget),
            goals_shown(later, store, logic, nonlinear, events),
        ) == conducted(
            started(goal_of(store, &other[0].goal, logic, nonlinear), out_of_budget),
            goals_shown(other, store, logic, nonlinear, events),
        ),
{
    let (e, f) = (reset.goal@, fresh.goal@);
    assert(e.j.dt =~= f.j.dt && e.j.var_of =~= f.j.var_of && e.j.memo =~= f.j.memo);
    assert(e.j.constraint =~= f.j.constraint && e.parsed =~= f.parsed && e.cache =~= f.cache);
    assert(e.pols =~= f.pols);
    let x = goals_shown(later, store, logic, nonlinear, events);
    let y = goals_shown(other, store, logic, nonlinear, events);
    assert(same_goal(later[0].goal@, other[0].goal@));
    assert forall|k: int| 0 <= k < x.len() implies #[trigger] x[k] == y[k] by {
        assert(same_goal(later[k].goal@, other[k].goal@));
    }
    assert(x =~= y);
}

/// Whatever changes what a check reads drops the verdict of the last one.
pub proof fn changes_drop_the_verdict(a: &Solver, b: &Solver)
    requires
        b.only_asserts(a) || b.opened(a) || closed_apart(b, a) || b.forgets(a) || b.fresh() || *b
            == (Solver {
            config: b.config,
            logic: b.logic,
            produce_unsat_cores: b.produce_unsat_cores,
            theory_aware_branching: b.theory_aware_branching,
            statistics: b.statistics,
            last_check: None,
            ..*a
        }),
    ensures
        b.last_check is None,
{
}

/// Entering an assertion depends on the goal and the assertion alone: goals that
/// agree still do.
pub proof fn entering_keeps_goals_alike(
    s: Seq<TermView>,
    e0: GoalView,
    e1: GoalView,
    f0: GoalView,
    f1: GoalView,
    term: TermId,
    name: Option<Seq<char>>,
)
    requires
        same_goal(e0, f0),
        entered(s, e0, e1, term, name),
        entered(s, f0, f1, term, name),
    ensures
        same_goal(e1, f1),
{
}

} // verus!
