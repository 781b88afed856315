use oxiz_solver::answers::{limited_config, limited_result, ResourceLimits};
use oxiz_solver::asserted::{register_asserted_quantifiers, EntailedInts};
use oxiz_solver::assertion::term_exceeds_encode_depth;
use oxiz_solver::instances::{validity_step, BigRatio, InstanceKind};
use oxiz_solver::model::EngineValues;
use oxiz_solver::numbers::{BigNum, Rat};
use oxiz_solver::search::{
    has_core, honest_result, refine_definitions, Action, Event, LemmaSource, MbqiOutcome,
    Preparation, Search, SolverResult,
};
use oxiz_solver::solver::{Solver, SolverConfig, Statistics};
use oxiz_solver::state::{GoalState, Lit, Polarity};
use oxiz_solver::terms::{
    Data, Op, SortId, SortKind, Symbol, TermId, TermStore, BOOL_SORT, FALSE_TERM, INT_SORT,
    REAL_SORT, STRING_SORT, TRUE_TERM,
};
use rustc_hash::{FxHashMap, FxHashSet};

fn var(m: &mut TermStore, name: &str, sort: SortId) -> TermId {
    let n = m.intern_name(name.to_string());
    m.mk_var(Symbol::User(n), sort)
}

fn assert_in(solver: &mut Solver, term: TermId, m: &mut TermStore) {
    let (t, index, more) = solver.assert_term(term, m);
    if more {
        solver.finish_assertion(m, t, index, t, None, &Vec::new());
    }
}

fn name_in(solver: &mut Solver, term: TermId, name: &str, m: &mut TermStore) {
    let (index, more) = solver.assert_named(term, name.to_string(), m);
    if more {
        solver.finish_named(m, term, index, name.to_string(), term, &Vec::new());
    }
}

fn satisfied(clauses: &[Vec<Lit>], a: &[bool]) -> bool {
    clauses.iter().all(|c| c.iter().any(|l| a[l.var] == l.positive))
}

/// All assignments that satisfy the clauses.
fn models(goal: &GoalState) -> Vec<Vec<bool>> {
    let n = goal.var_to_term.len();
    (0..1usize << n)
        .map(|bits| (0..n).map(|k| bits >> k & 1 == 1).collect::<Vec<bool>>())
        .filter(|a| satisfied(&goal.clauses, a))
        .collect()
}

#[test]
fn scopes_restore_what_they_found() {
    let mut m = TermStore::new();
    let mut solver = Solver::new();
    let p = var(&mut m, "p", BOOL_SORT);
    let q = var(&mut m, "q", BOOL_SORT);
    assert_in(&mut solver, p, &mut m);
    let clauses = solver.goal.clauses.clone();
    let vars = solver.goal.var_to_term.clone();
    let trail = solver.goal.trail.len();
    solver.push();
    assert_eq!(solver.context_level(), 1);
    let both = m.mk_and(vec![p, q]);
    assert_in(&mut solver, both, &mut m);
    assert_in(&mut solver, FALSE_TERM, &mut m);
    assert!(solver.goal.has_false_assertion);
    assert_eq!(solver.num_assertions(), 3);
    solver.pop();
    assert_eq!(solver.context_level(), 0);
    assert_eq!(solver.num_assertions(), 1);
    assert!(!solver.goal.has_false_assertion);
    assert_eq!(solver.goal.clauses, clauses);
    assert_eq!(solver.goal.var_to_term, vars);
    assert_eq!(solver.goal.trail.len(), trail);
    assert!(!solver.goal.encoded_terms.contains_key(&both));
    solver.pop();
    assert_eq!(solver.num_assertions(), 1);
}

#[test]
fn assertions_become_clauses() {
    let mut m = TermStore::new();
    let mut solver = Solver::new();
    let p = var(&mut m, "p", BOOL_SORT);
    let q = var(&mut m, "q", BOOL_SORT);
    let not_p = m.mk_not(p);
    let either = m.mk_or(vec![not_p, q]);
    assert_in(&mut solver, either, &mut m);
    assert_in(&mut solver, p, &mut m);
    let vp = solver.goal.term_to_var[&p];
    let vq = solver.goal.term_to_var[&q];
    let found = models(&solver.goal);
    assert!(!found.is_empty());
    assert!(found.iter().all(|a| a[vp] && a[vq]));
    assert_eq!(solver.num_variables(), solver.goal.term_to_var.len());
    assert!(solver.has_assertions());
}

#[test]
fn constants_need_no_clauses() {
    let mut m = TermStore::new();
    let mut solver = Solver::new();
    assert_eq!(solver.check_sat_only(), Some(SolverResult::Sat));
    let (_, _, more) = solver.assert_term(TRUE_TERM, &mut m);
    assert!(!more);
    assert_eq!(solver.check_sat_only(), None);
    let (_, _, more) = solver.assert_term(FALSE_TERM, &mut m);
    assert!(!more);
    assert_eq!(solver.check_sat_only(), Some(SolverResult::Unsat));
    assert_eq!(solver.goal.clauses.len(), 0);
}

#[test]
fn deep_terms_are_not_encoded() {
    let mut m = TermStore::new();
    let mut solver = Solver::new();
    let p = var(&mut m, "p", BOOL_SORT);
    let q = var(&mut m, "q", BOOL_SORT);
    let mut t = p;
    for _ in 0..512 {
        t = m.mk_implies(t, q);
    }
    assert!(!term_exceeds_encode_depth(&m, t));
    let deeper = m.mk_implies(t, q);
    assert!(term_exceeds_encode_depth(&m, deeper));
    let (_, _, more) = solver.assert_term(deeper, &mut m);
    assert!(!more);
    assert!(solver.goal.encode_depth_exceeded);
    assert_eq!(solver.check_sat_only(), Some(SolverResult::Unknown));
}

#[test]
fn two_constructors_clash() {
    let mut m = TermStore::new();
    let mut solver = Solver::new();
    let u = m.intern_sort(SortKind::Datatype(0));
    let x = var(&mut m, "x", u);
    let y = var(&mut m, "y", u);
    let eq = m.mk_eq(x, y);
    let (t, index, _) = solver.assert_term(eq, &mut m);
    solver.finish_assertion(&mut m, t, index, t, Some((x, 1)), &Vec::new());
    assert!(!solver.goal.has_false_assertion);
    let not_eq = m.mk_not(eq);
    let (t, index, _) = solver.assert_term(not_eq, &mut m);
    solver.finish_assertion(&mut m, t, index, t, Some((x, 2)), &Vec::new());
    assert!(solver.goal.has_false_assertion);
}

#[test]
fn polarities_only_widen() {
    let mut m = TermStore::new();
    let mut solver = Solver::new();
    let p = var(&mut m, "p", BOOL_SORT);
    let q = var(&mut m, "q", BOOL_SORT);
    let both = m.mk_and(vec![p, q]);
    let (t, index, _) = solver.assert_term(both, &mut m);
    let occurrences =
        vec![(both, Polarity::Positive), (p, Polarity::Positive), (p, Polarity::Negative)];
    solver.finish_assertion(&mut m, t, index, t, None, &occurrences);
    assert_eq!(solver.goal.polarities[&both], Polarity::Positive);
    assert_eq!(solver.goal.polarities[&p], Polarity::Both);
}

#[test]
fn named_assertions_make_cores() {
    let mut m = TermStore::new();
    let mut solver = Solver::new();
    let p = var(&mut m, "p", BOOL_SORT);
    let q = var(&mut m, "q", BOOL_SORT);
    let not_p = m.mk_not(p);
    name_in(&mut solver, p, "a", &mut m);
    name_in(&mut solver, q, "b", &mut m);
    name_in(&mut solver, not_p, "c", &mut m);
    assert!(models(&solver.goal).is_empty());
    solver.build_core(false);
    assert!(solver.get_unsat_core().is_none());
    solver.enable_assumption_based_cores();
    solver.build_core(false);
    assert_eq!(solver.get_unsat_core().unwrap().names, vec!["a", "b", "c"]);

    // Minimizing drops what is not needed.
    let mut search = solver.minimize_unsat_core().unwrap();
    while let Some(terms) = search.candidate() {
        let unsat = terms.contains(&p) && terms.contains(&not_p);
        search.report(if unsat { SolverResult::Unsat } else { SolverResult::Sat });
    }
    let core = solver.minimized_core(&search);
    assert_eq!(core.indices, vec![0, 2]);
    assert_eq!(core.names, vec!["a", "c"]);
    assert!(!core.is_empty());
}

#[test]
fn trivial_cores_list_false_assertions() {
    let mut m = TermStore::new();
    let mut solver = Solver::new();
    let p = var(&mut m, "p", BOOL_SORT);
    name_in(&mut solver, p, "a", &mut m);
    name_in(&mut solver, FALSE_TERM, "no", &mut m);
    solver.set_produce_unsat_cores(true);
    solver.build_core(true);
    let core = solver.get_unsat_core().unwrap();
    assert_eq!(core.indices, vec![1]);
    assert_eq!(core.names, vec!["no"]);
}

#[test]
fn cores_of_assumptions_do_not_outlive_them() {
    let mut m = TermStore::new();
    let mut solver = Solver::new();
    solver.set_produce_unsat_cores(true);
    let p = var(&mut m, "p", BOOL_SORT);
    assert_in(&mut solver, p, &mut m);
    solver.push();
    let not_p = m.mk_not(p);
    assert_in(&mut solver, not_p, &mut m);
    solver.build_core(false);
    assert_eq!(solver.get_unsat_core().unwrap().indices, vec![0, 1]);
    solver.end_assumptions();
    assert!(solver.get_unsat_core().is_none());
    assert_eq!(solver.num_assertions(), 1);

    solver.push();
    solver.build_core(false);
    solver.end_assumptions();
    assert_eq!(solver.get_unsat_core().unwrap().indices, vec![0]);
}

#[test]
fn limits_are_tightened() {
    let config = SolverConfig { max_conflicts: 100, ..SolverConfig::default() };
    let limits = ResourceLimits { max_conflicts: Some(500), max_decisions: Some(7) };
    let c = limited_config(&config, &limits);
    assert_eq!((c.max_conflicts, c.max_decisions), (100, 7));
    let limits = ResourceLimits { max_conflicts: Some(5), max_decisions: None };
    let c = limited_config(&config, &limits);
    assert_eq!((c.max_conflicts, c.max_decisions), (5, 0));
    assert_eq!(limited_result(SolverResult::Unknown, Some("time")), Err("time"));
    assert_eq!(limited_result(SolverResult::Sat, Some("time")), Ok(SolverResult::Sat));
    assert_eq!(limited_result::<u8>(SolverResult::Unknown, None), Ok(SolverResult::Unknown));
}

#[test]
fn resetting_keeps_the_settings() {
    let mut m = TermStore::new();
    let mut solver =
        Solver::with_config(SolverConfig { max_decisions: 3, ..SolverConfig::default() });
    let p = var(&mut m, "p", BOOL_SORT);
    solver.push();
    assert_in(&mut solver, p, &mut m);
    solver.set_logic("QF_UF".to_string());
    solver.statistics.restarts = 4;
    solver.dt_axioms_incomplete = true;
    solver.reset();
    assert!(!solver.dt_axioms_incomplete);
    assert_eq!(solver.num_assertions(), 0);
    assert_eq!(solver.context_level(), 0);
    assert!(solver.logic.is_none());
    assert_eq!(solver.config().max_decisions, 3);
    assert_eq!(solver.get_statistics().restarts, 4);
    solver.reset_statistics();
    assert_eq!(*solver.get_statistics(), Statistics::new());
    assert!(solver.theory_aware_branching());
}

#[test]
fn models_show_what_engines_say() {
    let mut m = TermStore::new();
    let mut solver = Solver::new();
    let p = var(&mut m, "p", BOOL_SORT);
    let x = var(&mut m, "x", INT_SORT);
    let five = m.mk_int(5);
    let le = m.mk_le(x, five);
    assert_in(&mut solver, p, &mut m);
    assert_in(&mut solver, le, &mut m);
    let n = solver.goal.var_to_term.len();
    let mut arith = FxHashMap::default();
    arith.insert(x, Rat { num: 3, den: 1 });
    solver.goal.arith_terms.insert(x);
    let values = EngineValues { sat: vec![Some(true); n], arith, bits: FxHashMap::default() };
    let r = solver.finish_sat_only(&mut m, SolverResult::Sat, &values);
    assert_eq!(r, SolverResult::Sat);
    let three = m.mk_int(3);
    let model = solver.model().unwrap();
    assert_eq!(model.get(p), Some(TRUE_TERM));
    assert_eq!(model.get(x), Some(three));
}

#[test]
fn refuted_models_are_dropped() {
    let mut m = TermStore::new();
    let mut solver = Solver::new();
    let p = var(&mut m, "p", BOOL_SORT);
    assert_in(&mut solver, p, &mut m);
    let values = EngineValues {
        sat: vec![Some(true); solver.goal.var_to_term.len()],
        arith: FxHashMap::default(),
        bits: FxHashMap::default(),
    };
    let r = solver.solve_equality_via_sat(&mut m, SolverResult::Sat, true, &values);
    assert_eq!(r, SolverResult::Unknown);
    assert!(solver.model().is_none());
    let r = solver.solve_equality_via_sat(&mut m, SolverResult::Sat, false, &values);
    assert_eq!(r, SolverResult::Sat);
    assert!(solver.model().is_some());
    let r = solver.solve_equality_via_sat(&mut m, SolverResult::Unsat, false, &values);
    assert_eq!(r, SolverResult::Unsat);
}

fn ratio(num: i64, den: i64) -> BigRatio {
    BigRatio { num: BigNum::from_i64(num), den: BigNum::from_i64(den) }
}

#[test]
fn large_ratios_are_rounded_down() {
    let mut m = TermStore::new();
    let mut solver = Solver::new();
    let y = var(&mut m, "y", REAL_SORT);
    // Just below -1.
    let value = BigRatio {
        num: BigNum { negative: true, digits: vec![1, 0, 1] },
        den: BigNum { negative: false, digits: vec![0, 0, 1] },
    };
    solver.install_nl_model(&mut m, &vec![(y, value)]);
    let minus_two = m.mk_real(Rat { num: -2, den: 1 });
    assert_eq!(solver.model().unwrap().get(y), Some(minus_two));
}

#[test]
fn nonlinear_models_are_installed() {
    let mut m = TermStore::new();
    let mut solver = Solver::new();
    let x = var(&mut m, "x", INT_SORT);
    let y = var(&mut m, "y", REAL_SORT);
    solver.install_nl_model(&mut m, &vec![(x, ratio(-7, 2)), (y, ratio(1, 3))]);
    let minus_three = m.mk_int(-3);
    let third = m.mk_real(Rat { num: 1, den: 3 });
    let model = solver.model().unwrap();
    assert_eq!(model.get(x), Some(minus_three));
    assert_eq!(model.get(y), Some(third));
}

#[test]
fn string_models_are_installed() {
    let mut m = TermStore::new();
    let mut solver = Solver::new();
    let s = var(&mut m, "s", STRING_SORT);
    assert!(!solver.ground_string_model_sat(&mut m, None));
    assert!(solver.model().is_none());
    assert!(solver.ground_string_model_sat(&mut m, Some(vec![(s, "abc".to_string())])));
    let lit = m.mk_string_lit("abc".to_string());
    assert_eq!(solver.model().unwrap().get(s), Some(lit));
}

#[test]
fn instances_are_asserted() {
    let mut m = TermStore::new();
    let mut solver = Solver::new();
    let p = var(&mut m, "p", BOOL_SORT);
    let q = var(&mut m, "q", BOOL_SORT);
    let n = solver.goal.assert_instances(&mut m, &vec![p, FALSE_TERM, q], InstanceKind::General);
    assert_eq!(n, 2);
    assert_eq!(solver.goal.clauses.last().unwrap().len(), 0);
    assert!(!solver.goal.term_to_var.contains_key(&q));
    let mut other = Solver::new();
    let n = other.goal.assert_instances(&mut m, &vec![TRUE_TERM, q], InstanceKind::Finite);
    assert_eq!(n, 2);
    assert_eq!(other.goal.clauses.len(), 1);
}

#[test]
fn conflicts_are_blocked() {
    let mut m = TermStore::new();
    let mut solver = Solver::new();
    let p = var(&mut m, "p", BOOL_SORT);
    let q = var(&mut m, "q", BOOL_SORT);
    let r = var(&mut m, "r", BOOL_SORT);
    let either = m.mk_or(vec![p, q]);
    assert_in(&mut solver, either, &mut m);
    assert!(!solver.goal.block_conflict(&m, &Vec::new()));
    assert!(!solver.goal.block_conflict(&m, &vec![p, r]));
    assert!(solver.goal.block_conflict(&m, &vec![p, q]));
    let vp = solver.goal.term_to_var[&p];
    let vq = solver.goal.term_to_var[&q];
    assert_eq!(solver.goal.clauses.last().unwrap(), &vec![Lit::neg(vp), Lit::neg(vq)]);
}

#[test]
fn validity_goes_into_conjunctions() {
    let mut m = TermStore::new();
    let p = var(&mut m, "p", BOOL_SORT);
    let q = var(&mut m, "q", BOOL_SORT);
    let both = m.mk_and(vec![p, q]);
    assert_eq!(validity_step(&m, TRUE_TERM), Some(vec![]));
    assert_eq!(validity_step(&m, both), Some(vec![p, q]));
    assert_eq!(validity_step(&m, p), None);
    let x = m.intern_name("x".to_string());
    let all = m.intern(Op::Forall, vec![both], Data::Bound(vec![(x, INT_SORT)]), BOOL_SORT);
    assert_eq!(validity_step(&m, all), Some(vec![both]));
}

#[test]
fn asserted_quantifiers_are_found() {
    let mut m = TermStore::new();
    let p = var(&mut m, "p", BOOL_SORT);
    let q = var(&mut m, "q", BOOL_SORT);
    let x = m.intern_name("x".to_string());
    let all = m.intern(Op::Forall, vec![p], Data::Bound(vec![(x, INT_SORT)]), BOOL_SORT);
    let both = m.mk_and(vec![all, q]);
    let found = register_asserted_quantifiers(&m, both);
    assert_eq!(found.len(), 1);
    assert_eq!(found[0].term, all);
    assert!(found[0].universal);
    let either = m.mk_or(vec![all, q]);
    assert_eq!(register_asserted_quantifiers(&m, either).len(), 0);
}

#[test]
fn pinned_integers_are_read() {
    let mut m = TermStore::new();
    let n = var(&mut m, "n", INT_SORT);
    let k = var(&mut m, "k", INT_SORT);
    let p = var(&mut m, "p", BOOL_SORT);
    let five = m.mk_int(5);
    let six = m.mk_int(6);
    let eq_n = m.mk_eq(n, five);
    let eq_k = m.mk_eq(six, k);
    let both = m.mk_and(vec![p, eq_n]);
    let either = m.mk_or(vec![p, eq_k]);
    let mut known = EntailedInts::new();
    known.refresh_entailed_int_constants(&m, &vec![both, either]);
    assert_eq!(known.values[&n].to_i64(), Some(5));
    assert!(!known.values.contains_key(&k));
    known.refresh_entailed_int_constants(&m, &vec![both, either, eq_k]);
    assert_eq!(known.values[&k].to_i64(), Some(6));
    assert_eq!(known.upto, 3);
}

#[test]
fn scopes_forget_pinned_integers() {
    let mut m = TermStore::new();
    let mut solver = Solver::new();
    let n = var(&mut m, "n", INT_SORT);
    let five = m.mk_int(5);
    let eq = m.mk_eq(n, five);
    solver.push();
    assert_in(&mut solver, eq, &mut m);
    solver.refresh_entailed(&m);
    assert_eq!(solver.entailed.values[&n].to_i64(), Some(5));
    solver.pop();
    assert!(solver.entailed.values.is_empty());
    assert_eq!(solver.entailed.upto, 0);
}

#[test]
fn disequalities_are_split() {
    let mut m = TermStore::new();
    let mut solver = Solver::new();
    let x = var(&mut m, "x", INT_SORT);
    let y = var(&mut m, "y", INT_SORT);
    let eq = m.mk_eq(x, y);
    let differ = m.mk_not(eq);
    assert_in(&mut solver, differ, &mut m);
    let lt = m.mk_lt(x, y);
    let gt = m.mk_gt(x, y);
    let v = |t: TermId| solver.goal.term_to_var[&t];
    let split = solver.goal.clauses.iter().any(|c| {
        c.contains(&Lit::pos(v(lt))) && c.contains(&Lit::pos(v(gt)))
    });
    assert!(split);
    assert!(models(&solver.goal).iter().all(|a| a[v(lt)] || a[v(gt)]));
}

#[test]
fn results_are_tied_to_constants() {
    let mut m = TermStore::new();
    let mut solver = Solver::new();
    let r = var(&mut m, "r", INT_SORT);
    let x = var(&mut m, "x", INT_SORT);
    let five = m.mk_int(5);
    let le = m.mk_le(x, five);
    assert_in(&mut solver, le, &mut m);
    let mut results = FxHashSet::default();
    results.insert(r);
    solver.goal.axiomatize_arith_constant_equalities(&mut m, &results);
    assert_eq!(solver.goal.arith_const_axiom_pairs, vec![(r, 5)]);
    let clauses = solver.goal.clauses.len();
    solver.goal.axiomatize_arith_constant_equalities(&mut m, &results);
    assert_eq!(solver.goal.clauses.len(), clauses);
}

#[test]
fn care_atoms_are_created_once() {
    let mut m = TermStore::new();
    let mut solver = Solver::new();
    let x = var(&mut m, "x", INT_SORT);
    let y = var(&mut m, "y", INT_SORT);
    let undecided = vec![vec![true, true], vec![true, true]];
    let vars = solver.goal.pre_encode_care_graph_atoms(&mut m, &vec![x, y], &undecided);
    assert_eq!(vars.len(), 1);
    let again = solver.goal.pre_encode_care_graph_atoms(&mut m, &vec![x, y], &undecided);
    assert_eq!(again.len(), 0);
}

#[test]
fn enumerations_are_bumped() {
    let mut m = TermStore::new();
    let mut solver = Solver::new();
    let x = var(&mut m, "x", INT_SORT);
    let one = m.mk_int(1);
    let two = m.mk_int(2);
    let a = m.mk_eq(x, one);
    let b = m.mk_eq(x, two);
    let either = m.mk_or(vec![a, b]);
    assert_in(&mut solver, either, &mut m);
    let vars = solver.goal.bump_finite_domain_enumerations(&m);
    assert_eq!(vars.len(), 2);
}

#[test]
fn a_false_assertion_ends_the_check() {
    let mut m = TermStore::new();
    let mut solver = Solver::new();
    assert_eq!(Search::start(&solver.goal, false).action, Action::Answer(SolverResult::Sat));
    assert_in(&mut solver, FALSE_TERM, &mut m);
    assert_eq!(Search::start(&solver.goal, false).action, Action::Answer(SolverResult::Unsat));
}

#[test]
fn a_check_without_theories_ends_with_a_model() {
    let mut m = TermStore::new();
    let mut solver = Solver::new();
    let p = var(&mut m, "p", BOOL_SORT);
    assert_in(&mut solver, p, &mut m);
    let mut x = Search::start(&solver.goal, false);
    let mut steps = 0;
    let mut solved = false;
    loop {
        let event = match x.action {
            Action::Answer(r) => {
                assert_eq!(r, SolverResult::Sat);
                break;
            }
            Action::Solve => {
                solved = true;
                Event::Searched { result: SolverResult::Sat, dropped: false }
            }
            Action::TestModel => Event::Modelled { refuted: false, affordable: true },
            Action::SolveNonlinear | Action::TryFloatModel => Event::Decided(None),
            Action::CheckQuantifiers => Event::Quantifiers(MbqiOutcome::NoQuantifiers),
            Action::InstantiateArith
            | Action::InstantiateDatatypes
            | Action::Rebase => Event::Done,
            _ => Event::Found(false),
        };
        x = x.advance(&m, &solver.goal, Some("QF_UF"), false, event);
        steps += 1;
        assert!(steps < 100);
    }
    assert!(solved);
}

#[test]
fn incomplete_encodings_are_not_trusted() {
    assert_eq!(honest_result(SolverResult::Sat, true, false, false), SolverResult::Unknown);
    assert_eq!(honest_result(SolverResult::Sat, false, false, false), SolverResult::Sat);
    assert!(!refine_definitions(SolverResult::Unsat, true, 0));
    assert!(refine_definitions(SolverResult::Sat, true, 0));
    assert!(!refine_definitions(SolverResult::Sat, false, 0));
}

#[test]
fn closing_a_scope_takes_back_what_a_check_added() {
    let mut m = TermStore::new();
    let mut solver = Solver::new();
    let x = var(&mut m, "x", INT_SORT);
    let y = var(&mut m, "y", INT_SORT);
    let five = m.mk_int(5);
    let eq = m.mk_eq(x, y);
    let le = m.mk_le(x, five);
    assert_in(&mut solver, le, &mut m);
    let clauses = solver.goal.clauses.clone();
    let vars = solver.goal.var_to_term.clone();
    solver.push();
    let not_eq = m.mk_not(eq);
    assert_in(&mut solver, not_eq, &mut m);
    solver.begin_search();
    solver.tables.ite_result_terms.insert(y);
    solver.tie_constants(&mut m);
    solver.split_equalities(&mut m);
    let p = var(&mut m, "p", BOOL_SORT);
    assert_eq!(solver.take_instances(&mut m, &vec![p], InstanceKind::General), 1);
    assert!(solver.block(&mut m, &vec![p]));
    assert!(solver.goal.clauses.len() > clauses.len() + 3);
    solver.pop();
    assert_eq!(solver.goal.clauses, clauses);
    assert_eq!(solver.goal.var_to_term, vars);
    assert_eq!(solver.goal.arith_const_axiom_pairs.len(), 0);
    assert!(!solver.goal.term_to_var.contains_key(&p));
}

#[test]
fn false_equations_are_ordered() {
    let mut m = TermStore::new();
    let mut solver = Solver::new();
    let x = var(&mut m, "x", INT_SORT);
    let y = var(&mut m, "y", INT_SORT);
    let p = var(&mut m, "p", BOOL_SORT);
    let eq = m.mk_eq(x, y);
    let either = m.mk_or(vec![p, eq]);
    assert_in(&mut solver, either, &mut m);
    let n = solver.goal.var_to_term.len();
    let mut model = vec![Some(true); n];
    solver.order_false_equations(&mut m, &model);
    assert_eq!(solver.goal.var_to_term.len(), n);
    model[solver.goal.term_to_var[&eq]] = Some(false);
    solver.order_false_equations(&mut m, &model);
    let lt = m.mk_lt(x, y);
    let gt = m.mk_gt(x, y);
    let at = |t: TermId| Lit::pos(solver.goal.term_to_var[&t]);
    assert!(solver.goal.clauses.contains(&vec![at(eq), at(lt), at(gt)]));
    // The equation may still be true.
    assert!(!solver.goal.clauses.contains(&vec![at(lt), at(gt)]));
    let v = solver.goal.term_to_var[&eq];
    assert!(models(&solver.goal).iter().any(|a| a[v]));
}

#[test]
fn integer_arguments_are_split_into_cases() {
    let mut m = TermStore::new();
    let mut solver = Solver::new();
    let x = var(&mut m, "x", INT_SORT);
    let f = m.intern_name("f".to_string());
    let fx = m.intern(Op::Apply, vec![x], Data::Name(f), INT_SORT);
    let one = m.mk_int(1);
    let three = m.mk_int(3);
    let ge = m.mk_ge(x, one);
    let le = m.mk_le(x, three);
    let used = m.mk_ge(fx, one);
    for t in [ge, le, used] {
        assert_in(&mut solver, t, &mut m);
    }
    let forced: FxHashSet<usize> = (0..solver.goal.var_to_term.len()).collect();
    let mut values = FxHashMap::default();
    values.insert(x, 2);
    solver.begin_search();
    assert!(!solver.refine_cases(&mut m, false, &forced, &values));
    assert!(solver.refine_cases(&mut m, true, &forced, &values));
    assert_eq!(solver.case_split_rounds, 1);
    assert!(solver.tables.case_split_terms.contains(&x));
    assert!(solver.goal.clauses.iter().any(|c| c.len() == 3));
    assert!(!solver.refine_cases(&mut m, true, &forced, &values));
}

#[test]
fn equations_get_transitivity_once_they_are_all() {
    let mut m = TermStore::new();
    let mut solver = Solver::new();
    let u_name = m.intern_name("U".to_string());
    let u = m.intern_sort(SortKind::Uninterpreted(u_name));
    let a = var(&mut m, "a", u);
    let b = var(&mut m, "b", u);
    let ab = m.mk_eq(a, b);
    assert_in(&mut solver, ab, &mut m);
    assert!(solver.add_transitivity(&mut m));
    let p = var(&mut m, "p", BOOL_SORT);
    let f = m.intern_name("f".to_string());
    let fp = m.intern(Op::Apply, vec![p], Data::Name(f), BOOL_SORT);
    assert_in(&mut solver, fp, &mut m);
    assert!(!solver.add_transitivity(&mut m));
}

#[test]
fn quantified_assertions_are_expanded_within_a_budget() {
    let mut m = TermStore::new();
    let p = var(&mut m, "p", BOOL_SORT);
    let n = var(&mut m, "n", INT_SORT);
    let five = m.mk_int(5);
    let eq = m.mk_eq(n, five);
    let x = m.intern_name("x".to_string());
    let all = m.intern(Op::Forall, vec![p], Data::Bound(vec![(x, INT_SORT)]), BOOL_SORT);
    let mut solver = Solver::new();
    assert!(!solver.finite_expand_assertion(&m, all));
    let mut other =
        Solver::with_config(SolverConfig { finite_expansion_budget: 9, ..SolverConfig::default() });
    assert_in(&mut other, eq, &mut m);
    assert!(!other.finite_expand_assertion(&m, p));
    assert!(other.entailed.values.is_empty());
    assert!(other.finite_expand_assertion(&m, all));
    assert_eq!(other.entailed.values[&n].to_i64(), Some(5));
}

#[test]
fn the_constant_false_is_a_variable_that_is_false() {
    let mut m = TermStore::new();
    let mut goal = GoalState::new();
    let l = goal.encode(FALSE_TERM, &mut m);
    assert!(l.positive);
    assert!(goal.clauses.contains(&vec![Lit { var: l.var, positive: false }]));
    let mut solver = Solver::new();
    let p = var(&mut m, "p", BOOL_SORT);
    let either = m.mk_or(vec![p, FALSE_TERM]);
    assert_in(&mut solver, either, &mut m);
    let v = solver.goal.term_to_var[&p];
    let all = models(&solver.goal);
    assert!(!all.is_empty());
    assert!(all.iter().all(|a| a[v]));
    let not_p = m.mk_not(p);
    assert_in(&mut solver, not_p, &mut m);
    assert!(models(&solver.goal).is_empty());
}

#[test]
fn encoded_terms_keep_their_literals() {
    let mut m = TermStore::new();
    let mut goal = GoalState::new();
    let p = var(&mut m, "p", BOOL_SORT);
    let q = var(&mut m, "q", BOOL_SORT);
    let both = m.mk_and(vec![p, q]);
    let not_both = m.mk_not(both);
    let l = goal.encode_depth(not_both, &mut m, 3);
    let (vars, clauses) = (goal.var_to_term.len(), goal.clauses.len());
    for depth in [0, 3, 512, 513, 600, u32::MAX] {
        let again = goal.encode_depth(not_both, &mut m, depth);
        assert_eq!((again.var, again.positive), (l.var, l.positive));
    }
    assert_eq!((goal.var_to_term.len(), goal.clauses.len()), (vars, clauses));
    assert!(!goal.encode_depth_exceeded);
    let r = var(&mut m, "r", BOOL_SORT);
    goal.encode_depth(r, &mut m, 513);
    assert!(goal.encode_depth_exceeded);
}

#[test]
fn minimized_cores_lose_nothing_more() {
    let mut m = TermStore::new();
    let mut solver = Solver::new();
    solver.set_produce_unsat_cores(true);
    let terms: Vec<TermId> =
        ["p", "q", "r", "s"].iter().map(|n| var(&mut m, n, BOOL_SORT)).collect();
    for (k, &t) in terms.iter().enumerate() {
        name_in(&mut solver, t, &k.to_string(), &mut m);
    }
    solver.build_core(false);
    let unsat = |list: &[TermId]| list.contains(&terms[1]) && list.contains(&terms[3]);
    let mut search = solver.minimize_unsat_core().unwrap();
    while let Some(list) = search.candidate() {
        search.report(if unsat(&list) { SolverResult::Unsat } else { SolverResult::Sat });
    }
    let left: Vec<TermId> = search.entries.iter().map(|e| e.1).collect();
    assert!(unsat(&left));
    for k in 0..left.len() {
        let mut fewer = left.clone();
        fewer.remove(k);
        assert!(!unsat(&fewer));
    }
}

#[test]
fn budgets_end() {
    let mut solver = Solver::new();
    solver.statistics.conflicts = 9;
    solver.statistics.decisions = 5;
    assert!(!solver.out_of_budget());
    solver.set_config(SolverConfig { max_conflicts: 10, ..SolverConfig::default() });
    assert!(!solver.out_of_budget());
    solver.statistics.conflicts = 10;
    assert!(solver.out_of_budget());
    solver.set_config(SolverConfig { max_decisions: 5, ..SolverConfig::default() });
    assert!(solver.out_of_budget());
}

#[test]
fn only_refutations_have_cores() {
    assert!(has_core(None, SolverResult::Unsat));
    assert!(has_core(Some(Action::Solve), SolverResult::Unsat));
    assert!(!has_core(Some(Action::InstantiateDatatypes), SolverResult::Unsat));
    assert!(!has_core(Some(Action::Solve), SolverResult::Sat));
}

#[test]
fn verdicts_are_kept_until_something_changes() {
    let mut m = TermStore::new();
    let mut solver = Solver::new();
    let p = var(&mut m, "p", BOOL_SORT);
    assert_eq!(solver.cached_verdict(), None);
    solver.remember_verdict(SolverResult::Sat);
    assert_eq!(solver.cached_verdict(), Some(SolverResult::Sat));
    assert_in(&mut solver, p, &mut m);
    assert_eq!(solver.cached_verdict(), None);
    let changes: Vec<fn(&mut Solver)> = vec![
        |s| s.push(),
        |s| s.pop(),
        |s| s.set_logic("QF_UF".to_string()),
        |s| s.set_config(SolverConfig::default()),
        |s| s.set_produce_unsat_cores(true),
        |s| s.invalidate_results(),
        |s| s.reset(),
    ];
    for change in changes {
        solver.remember_verdict(SolverResult::Unsat);
        change(&mut solver);
        assert_eq!(solver.cached_verdict(), None);
    }
}

#[test]
fn blind_instances_are_tried_once_in_a_check() {
    let mut m = TermStore::new();
    let mut solver = Solver::new();
    let p = var(&mut m, "p", BOOL_SORT);
    assert_in(&mut solver, p, &mut m);
    let first = Search::start(&solver.goal, false);
    assert!(!first.blind_tried);
    let tried = Search { blind_tried: true, mbqi_rounds: 5, ..first };
    let again = tried.restart(&solver.goal, false);
    assert!(again.blind_tried);
    assert_eq!((again.mbqi_rounds, again.action), (0, first.action));
}

#[test]
fn equations_that_clash_have_a_core() {
    let mut m = TermStore::new();
    let mut solver = Solver::new();
    solver.set_produce_unsat_cores(true);
    let p = var(&mut m, "p", BOOL_SORT);
    name_in(&mut solver, p, "a", &mut m);
    let values =
        EngineValues { sat: Vec::new(), arith: FxHashMap::default(), bits: FxHashMap::default() };
    let r = solver.solve_equality_via_sat(&mut m, SolverResult::Unsat, false, &values);
    assert_eq!(r, SolverResult::Unsat);
    let core = solver.get_unsat_core().unwrap();
    assert_eq!((core.indices.clone(), core.names.clone()), (vec![0], vec!["a".to_string()]));
}

#[test]
fn reset_solvers_start_as_fresh_ones() {
    let mut m = TermStore::new();
    let mut used = Solver::new();
    let p = var(&mut m, "p", BOOL_SORT);
    let not_p = m.mk_not(p);
    assert_in(&mut used, p, &mut m);
    assert_in(&mut used, not_p, &mut m);
    used.reset();
    let mut fresh = Solver::new();
    for solver in [&mut used, &mut fresh] {
        assert_in(solver, p, &mut m);
    }
    assert_eq!(used.goal.clauses, fresh.goal.clauses);
    assert_eq!(used.goal.assertions, fresh.goal.assertions);
    assert_eq!(Search::start(&used.goal, false), Search::start(&fresh.goal, false));
}

#[test]
fn known_integers_follow_the_scopes() {
    let mut m = TermStore::new();
    let mut solver =
        Solver::with_config(SolverConfig { finite_expansion_budget: 9, ..SolverConfig::default() });
    let p = var(&mut m, "p", BOOL_SORT);
    let n = var(&mut m, "n", INT_SORT);
    let k = var(&mut m, "k", INT_SORT);
    let five = m.mk_int(5);
    let six = m.mk_int(6);
    let n_five = m.mk_eq(n, five);
    let k_six = m.mk_eq(six, k);
    let x = m.intern_name("x".to_string());
    let all = m.intern(Op::Forall, vec![p], Data::Bound(vec![(x, INT_SORT)]), BOOL_SORT);
    assert_in(&mut solver, n_five, &mut m);
    assert!(solver.finite_expand_assertion(&m, all));
    solver.push();
    assert_in(&mut solver, k_six, &mut m);
    assert!(solver.finite_expand_assertion(&m, all));
    assert_eq!(solver.entailed.values[&n].to_i64(), Some(5));
    assert_eq!(solver.entailed.values[&k].to_i64(), Some(6));
    solver.pop();
    assert_eq!(solver.entailed.upto, 0);
    assert!(solver.finite_expand_assertion(&m, all));
    assert_eq!(solver.entailed.values[&n].to_i64(), Some(5));
    assert!(!solver.entailed.values.contains_key(&k));
}

#[test]
fn lemmas_are_asserted() {
    let mut m = TermStore::new();
    let mut solver = Solver::new();
    let p = var(&mut m, "p", BOOL_SORT);
    let q = var(&mut m, "q", BOOL_SORT);
    let either = m.mk_or(vec![p, q]);
    let not_p = m.mk_not(p);
    solver.take_lemmas(&mut m, &vec![either, not_p]);
    let (vp, vq) = (solver.goal.term_to_var[&p], solver.goal.term_to_var[&q]);
    let all = models(&solver.goal);
    assert!(!all.is_empty());
    assert!(all.iter().all(|a| !a[vp] && a[vq]));
    assert_eq!(solver.num_assertions(), 0);
}

#[test]
fn lemmas_follow_instances() {
    let mut m = TermStore::new();
    let mut solver = Solver::new();
    let p = var(&mut m, "p", BOOL_SORT);
    assert_in(&mut solver, p, &mut m);
    let start = Search::start(&solver.goal, false);
    let after = |action: Action| {
        Search { action, ..start }.advance(&m, &solver.goal, None, false, Event::Done).action
    };
    assert_eq!(after(Action::AssertInstances), Action::AddLemmas(LemmaSource::Model));
    assert_eq!(after(Action::AddLemmas(LemmaSource::Model)), Action::Rebase);
    assert_eq!(after(Action::InstantiateBlindly), Action::AddLemmas(LemmaSource::Blind));
    assert_eq!(after(Action::InstantiateFinitely), Action::AddLemmas(LemmaSource::Finite));
    assert_eq!(after(Action::AddLemmas(LemmaSource::Finite)), Action::Rebase);
}

#[test]
fn preparations_come_in_order() {
    let steps = |applies: bool| {
        let mut list = Vec::new();
        let mut next = Some(Preparation::first());
        while let Some(step) = next {
            list.push(step);
            next = step.next(applies);
        }
        list
    };
    assert_eq!(
        steps(true),
        vec![
            Preparation::TieConstants,
            Preparation::AddTransitivity,
            Preparation::DecideEquations,
        ]
    );
    assert_eq!(steps(false).len(), 8);
    assert_eq!(steps(false)[2], Preparation::SplitIndices);
}
