use oxiz_solver::ite_table::match_eq_ite_table;
use oxiz_solver::links::CompKind;
use oxiz_solver::search::{Action, Event, Search, SolverResult};
use oxiz_solver::solver::Solver;
use oxiz_solver::terms::{Data, Op, Symbol, TermId, TermStore, INT_SORT};
use oxiz_solver::zero_one::{fold_one_ite, is_int_const};
use rustc_hash::{FxHashMap, FxHashSet};

fn var(m: &mut TermStore, name: &str) -> TermId {
    let n = m.intern_name(name.to_string());
    m.mk_var(Symbol::User(n), INT_SORT)
}

/// What a term evaluates to under a partial assignment.
fn value(m: &TermStore, known: &FxHashMap<TermId, i64>, t: TermId) -> Option<i64> {
    let node = &m.nodes[t];
    let args: Vec<Option<i64>> = node.args.iter().map(|&a| value(m, known, a)).collect();
    let both = |f: fn(i64, i64) -> i64| match (args[0], args[1]) {
        (Some(a), Some(b)) => Some(f(a, b)),
        _ => None,
    };
    match node.op {
        Op::True => Some(1),
        Op::False => Some(0),
        Op::Var => known.get(&t).copied(),
        Op::IntConst => match &node.data {
            Data::Int(n) => n.to_i64(),
            _ => None,
        },
        Op::Not => args[0].map(|a| 1 - a),
        Op::And => {
            if args.contains(&Some(0)) {
                Some(0)
            } else if args.contains(&None) {
                None
            } else {
                Some(1)
            }
        }
        Op::Or => {
            if args.contains(&Some(1)) {
                Some(1)
            } else if args.contains(&None) {
                None
            } else {
                Some(0)
            }
        }
        Op::Implies => match (args[0], args[1]) {
            (Some(0), _) | (_, Some(1)) => Some(1),
            (Some(1), Some(0)) => Some(0),
            _ => None,
        },
        Op::Ite => match args[0] {
            Some(1) => args[1],
            Some(_) => args[2],
            None => None,
        },
        Op::Eq => both(|a, b| (a == b) as i64),
        Op::Lt => both(|a, b| (a < b) as i64),
        Op::Le => both(|a, b| (a <= b) as i64),
        Op::Gt => both(|a, b| (a > b) as i64),
        Op::Ge => both(|a, b| (a >= b) as i64),
        Op::Sub => both(|a, b| a - b),
        Op::Neg => args[0].map(|a| -a),
        Op::Add => args.iter().try_fold(0, |s, &a| a.map(|a| s + a)),
        Op::Mul => args.iter().try_fold(1, |s, &a| a.map(|a| s * a)),
        _ => None,
    }
}

fn search(
    m: &TermStore,
    goals: &[TermId],
    vars: &[TermId],
    values: &[i64],
    known: &mut FxHashMap<TermId, i64>,
) -> bool {
    for &g in goals {
        if value(m, known, g) == Some(0) {
            return false;
        }
    }
    let Some((&v, rest)) = vars.split_first() else {
        return goals.iter().all(|&g| value(m, known, g) == Some(1));
    };
    for &n in values {
        known.insert(v, n);
        if search(m, goals, rest, values, known) {
            return true;
        }
    }
    known.remove(&v);
    false
}

/// Tries the integers of the problem, and those next to them, for each variable.
fn solve(solver: &Solver, m: &TermStore) -> SolverResult {
    let mut values: Vec<i64> = Vec::new();
    let mut vars: Vec<TermId> = Vec::new();
    for t in 0..m.nodes.len() {
        match (m.nodes[t].op, &m.nodes[t].data) {
            (Op::IntConst, Data::Int(n)) => {
                let n = n.to_i64().unwrap();
                values.extend([n - 1, n, n + 1]);
            }
            (Op::Var, _) => vars.push(t),
            _ => {}
        }
    }
    values.sort_unstable();
    values.dedup();
    let goals = solver.goal.assertions.clone();
    if search(m, &goals, &vars, &values, &mut FxHashMap::default()) {
        SolverResult::Sat
    } else {
        SolverResult::Unsat
    }
}

/// Runs a check.  The theories have to know of every comparison.
fn check(solver: &Solver, m: &TermStore) -> SolverResult {
    for t in solver.goal.encoded_terms.keys() {
        if matches!(m.nodes[*t].op, Op::Eq | Op::Lt | Op::Le | Op::Gt | Op::Ge) {
            let v = solver.goal.term_to_var[t];
            assert!(solver.goal.var_to_constraint.contains_key(&v));
        }
    }
    let mut x = Search::start(&solver.goal, solver.out_of_budget());
    loop {
        let event = match x.action {
            Action::Answer(result) => return result,
            Action::Solve => Event::Searched { result: solve(solver, m), dropped: false },
            Action::TestModel => Event::Modelled { refuted: false, affordable: false },
            Action::SolveNonlinear => Event::Decided(None),
            Action::InstantiateArith | Action::InstantiateDatatypes | Action::Rebase => Event::Done,
            _ => Event::Found(false),
        };
        x = x.advance(m, &solver.goal, Some("QF_LIA"), false, event);
    }
}

fn assert_in(solver: &mut Solver, term: TermId, m: &mut TermStore) {
    let (t, index, more) = solver.assert_term(term, m);
    if more {
        solver.finish_assertion(m, t, index, t, None, &Vec::new());
    }
}

fn table(m: &mut TermStore, x: TermId, cases: &[(i64, i64)]) -> TermId {
    let mut t = m.mk_int(0);
    for &(k, v) in cases.iter().rev() {
        let k_t = m.mk_int(k);
        let cond = m.mk_eq(x, k_t);
        let val = m.mk_int(v);
        t = m.mk_ite(cond, val, t);
    }
    t
}

#[test]
fn eq_ite_table_lookup_sat() {
    let mut solver = Solver::new();
    let mut m = TermStore::new();
    let x = var(&mut m, "x");
    let t = table(&mut m, x, &[(1, 10), (2, 20), (3, 30), (4, 40)]);
    let r = var(&mut m, "r");
    let eq_r = m.mk_eq(r, t);
    assert_in(&mut solver, eq_r, &mut m);
    let three = m.mk_int(3);
    let eq_x = m.mk_eq(x, three);
    assert_in(&mut solver, eq_x, &mut m);
    let thirty = m.mk_int(30);
    let eq_rv = m.mk_eq(r, thirty);
    assert_in(&mut solver, eq_rv, &mut m);
    assert_eq!(check(&solver, &m), SolverResult::Sat);
}

#[test]
fn eq_ite_table_lookup_unsat() {
    let mut solver = Solver::new();
    let mut m = TermStore::new();
    let x = var(&mut m, "x");
    let mut t = m.mk_int(0);
    let mut domain = Vec::new();
    for k in (1..=5).rev() {
        let k_t = m.mk_int(k);
        domain.push(m.mk_eq(x, k_t));
        let cond = m.mk_eq(x, k_t);
        let val = m.mk_int(k);
        t = m.mk_ite(cond, val, t);
    }
    let r = var(&mut m, "r");
    let eq_r = m.mk_eq(r, t);
    assert_in(&mut solver, eq_r, &mut m);
    let dom = m.mk_or(domain);
    assert_in(&mut solver, dom, &mut m);
    let zero = m.mk_int(0);
    let eq0 = m.mk_eq(r, zero);
    assert_in(&mut solver, eq0, &mut m);
    assert_eq!(check(&solver, &m), SolverResult::Unsat);
}

#[test]
fn long_table_discrete_choice_sat() {
    let mut solver = Solver::new();
    let mut m = TermStore::new();
    let j = var(&mut m, "j");
    let zero = m.mk_int(0);
    let twenty = m.mk_int(20);
    let ge0 = m.mk_ge(j, zero);
    let le20 = m.mk_le(j, twenty);
    assert_in(&mut solver, ge0, &mut m);
    assert_in(&mut solver, le20, &mut m);
    let rewards = [(5, 100), (7, 200), (11, 50), (15, 300), (19, 80)];
    let cases: Vec<(i64, i64)> = (0..=20)
        .map(|k| (k, rewards.iter().find(|(kk, _)| *kk == k).map(|(_, v)| *v).unwrap_or(0)))
        .collect();
    let score = table(&mut m, j, &cases);
    let thr = m.mk_int(250);
    let ge_s = m.mk_ge(score, thr);
    assert_in(&mut solver, ge_s, &mut m);
    assert_eq!(check(&solver, &m), SolverResult::Sat);
}

#[test]
fn table_index_domain_unsat_via_bounds() {
    let mut solver = Solver::new();
    let mut m = TermStore::new();
    let x = var(&mut m, "x");
    let one = m.mk_int(1);
    let five = m.mk_int(5);
    let ge = m.mk_ge(x, one);
    let le = m.mk_le(x, five);
    assert_in(&mut solver, ge, &mut m);
    assert_in(&mut solver, le, &mut m);
    let t = table(&mut m, x, &[(1, 10), (2, 20), (3, 30), (4, 40), (5, 50)]);
    let r = var(&mut m, "r");
    let eq_r = m.mk_eq(r, t);
    assert_in(&mut solver, eq_r, &mut m);
    let zero = m.mk_int(0);
    let eq0 = m.mk_eq(r, zero);
    assert_in(&mut solver, eq0, &mut m);
    assert_eq!(check(&solver, &m), SolverResult::Unsat);

    // The domain of the index is split: a clause lists its five values.
    let clauses = solver.goal.clauses.len();
    let hints = solver.goal.eager_table_index_case_split(&mut solver.tables, &mut m);
    assert!(solver.tables.table_index_terms.contains(&x));
    assert_eq!(solver.tables.table_index_domain_eqs[&x].len(), 5);
    assert!(solver.goal.clauses[clauses..].iter().any(|c| c.len() == 5));
    assert!(!hints.bumps.is_empty());
}

#[test]
fn comparison_links_to_domain_eqs() {
    let mut solver = Solver::new();
    let mut m = TermStore::new();
    let x = var(&mut m, "x");
    let zero = m.mk_int(0);
    let three = m.mk_int(3);
    let ge = m.mk_ge(x, zero);
    let le = m.mk_le(x, three);
    assert_in(&mut solver, ge, &mut m);
    assert_in(&mut solver, le, &mut m);
    let t = table(&mut m, x, &[(0, 0), (1, 10), (2, 20), (3, 30)]);
    let r = var(&mut m, "r");
    let eq_r = m.mk_eq(r, t);
    assert_in(&mut solver, eq_r, &mut m);
    let two = m.mk_int(2);
    let twenty = m.mk_int(20);
    let eq_x = m.mk_eq(x, two);
    let eq_rv = m.mk_eq(r, twenty);
    assert_in(&mut solver, eq_x, &mut m);
    assert_in(&mut solver, eq_rv, &mut m);
    let gt = m.mk_gt(x, zero);
    assert_in(&mut solver, gt, &mut m);
    assert_eq!(check(&solver, &m), SolverResult::Sat);

    // Each value of the domain is linked to each comparison by a binary clause.
    solver.goal.eager_table_index_case_split(&mut solver.tables, &mut m);
    let clauses = solver.goal.clauses.len();
    solver.goal.link_table_index_comparisons(&solver.tables, &m);
    assert!(solver.goal.clauses.len() > clauses);
    assert!(solver.goal.clauses[clauses..].iter().all(|c| c.len() == 2));
}

#[test]
fn zero_one_max_fold_sat() {
    let mut solver = Solver::new();
    let mut m = TermStore::new();
    let x = var(&mut m, "x");
    let y = var(&mut m, "y");
    let z = var(&mut m, "z");
    let zero = m.mk_int(0);
    let one = m.mk_int(1);
    let three = m.mk_int(3);
    let ge_x = m.mk_ge(x, zero);
    let le_x = m.mk_le(x, one);
    let ge_y = m.mk_ge(y, zero);
    let le_y = m.mk_le(y, one);
    let ge_z = m.mk_ge(z, zero);
    let le_z = m.mk_le(z, three);
    for t in [ge_x, le_x, ge_y, le_y, ge_z, le_z] {
        assert_in(&mut solver, t, &mut m);
    }
    let cases = [(0, 0), (1, 1), (2, 0), (3, 0)];
    let tx = table(&mut m, x, &cases);
    let ty = table(&mut m, y, &cases);
    let tz = table(&mut m, z, &cases);
    let rx = var(&mut m, "rx");
    let ry = var(&mut m, "ry");
    let rz = var(&mut m, "rz");
    let eq_rx = m.mk_eq(rx, tx);
    let eq_ry = m.mk_eq(ry, ty);
    let eq_rz = m.mk_eq(rz, tz);
    for t in [eq_rx, eq_ry, eq_rz] {
        assert_in(&mut solver, t, &mut m);
    }
    let gt = m.mk_gt(rx, ry);
    let mx = m.mk_ite(gt, rx, ry);
    let r = var(&mut m, "r");
    let eq_r = m.mk_eq(r, mx);
    assert_in(&mut solver, eq_r, &mut m);
    let eq_x = m.mk_eq(x, one);
    let eq_y = m.mk_eq(y, zero);
    let eq_rv = m.mk_eq(r, one);
    for t in [eq_x, eq_y, eq_rv] {
        assert_in(&mut solver, t, &mut m);
    }
    assert_eq!(check(&solver, &m), SolverResult::Sat);
}

#[test]
fn comparison_link_unsat_when_x_zero() {
    let mut solver = Solver::new();
    let mut m = TermStore::new();
    let x = var(&mut m, "x");
    let zero = m.mk_int(0);
    let three = m.mk_int(3);
    let ge = m.mk_ge(x, zero);
    let le = m.mk_le(x, three);
    assert_in(&mut solver, ge, &mut m);
    assert_in(&mut solver, le, &mut m);
    let t = table(&mut m, x, &[(0, 0), (1, 1), (2, 2), (3, 3)]);
    let r = var(&mut m, "r");
    let eq_r = m.mk_eq(r, t);
    assert_in(&mut solver, eq_r, &mut m);
    let eq_x = m.mk_eq(x, zero);
    assert_in(&mut solver, eq_x, &mut m);
    let gt = m.mk_gt(x, zero);
    assert_in(&mut solver, gt, &mut m);
    assert_eq!(check(&solver, &m), SolverResult::Unsat);
}

#[test]
fn tables_are_recognized() {
    let mut m = TermStore::new();
    let x = var(&mut m, "x");
    let t = table(&mut m, x, &[(1, 10), (2, 20), (3, 30), (4, 40)]);
    let found = match_eq_ite_table(t, &m).unwrap();
    assert_eq!(found.index, x);
    let keys: Vec<i64> = found.cases.iter().map(|c| c.0).collect();
    assert_eq!(keys, vec![1, 2, 3, 4]);
    assert!(is_int_const(&m, found.default, 0));
    let short = table(&mut m, x, &[(1, 10), (2, 20), (3, 30)]);
    assert!(match_eq_ite_table(short, &m).is_none());
}

#[test]
fn flattened_tables_have_result_variables() {
    let mut solver = Solver::new();
    let mut m = TermStore::new();
    let x = var(&mut m, "x");
    let t = table(&mut m, x, &[(1, 0), (2, 1), (3, 1), (4, 0)]);
    let r = var(&mut m, "r");
    let eq = m.mk_eq(r, t);
    let (rewritten, _, more) = solver.assert_term(eq, &mut m);
    assert!(more);
    assert_eq!(m.nodes[rewritten].op, Op::And);
    assert!(solver.tables.table_index_terms.contains(&x));
    assert_eq!(solver.tables.table_index_keys[&x], vec![1, 2, 3, 4]);
    assert_eq!(solver.tables.binary_table_results.len(), 1);
}

#[test]
fn conditionals_on_zero_one_terms_fold() {
    let mut m = TermStore::new();
    let a = var(&mut m, "a");
    let b = var(&mut m, "b");
    let gt = m.mk_gt(a, b);
    let mut zo: FxHashSet<TermId> = FxHashSet::default();
    zo.insert(a);
    zo.insert(b);
    let folded = fold_one_ite(&mut m, gt, a, b, &mut zo);
    assert_ne!(m.nodes[folded].op, Op::Ite);
    for va in 0..=1 {
        for vb in 0..=1 {
            let mut known = FxHashMap::default();
            known.insert(a, va);
            known.insert(b, vb);
            assert_eq!(value(&m, &known, folded), Some(va.max(vb)));
        }
    }
}

#[test]
fn aliases_follow_asserted_equations() {
    let mut solver = Solver::new();
    let mut m = TermStore::new();
    let x = var(&mut m, "x");
    let y = var(&mut m, "y");
    let one = m.mk_int(1);
    let sum = m.mk_add(vec![x, one], INT_SORT);
    let eq = m.mk_eq(y, sum);
    assert_in(&mut solver, eq, &mut m);
    assert_eq!(solver.tables.unit_eq_rep.get(&sum), Some(&y));
}

#[test]
fn comparisons_mirror() {
    assert!(CompKind::Lt.mirror() == CompKind::Gt);
    assert!(CompKind::Ge.mirror() == CompKind::Le);
    assert!(CompKind::Le.test(2, 2));
    assert!(!CompKind::Lt.test(2, 2));
}

#[test]
fn binary_results_are_split() {
    let mut solver = Solver::new();
    let mut m = TermStore::new();
    let x = var(&mut m, "x");
    let t = table(&mut m, x, &[(1, 0), (2, 1), (3, 1), (4, 0)]);
    let r = var(&mut m, "r");
    let eq = m.mk_eq(r, t);
    assert_in(&mut solver, eq, &mut m);
    let clauses = solver.goal.clauses.len();
    solver.goal.eager_binary_result_case_split(&mut solver.tables, &mut m);
    assert!(solver.goal.clauses.len() > clauses);
}

#[test]
fn a_bound_on_one_side_splits_nothing() {
    let mut solver = Solver::new();
    let mut m = TermStore::new();
    let x = var(&mut m, "x");
    let four = m.mk_int(4);
    let le = m.mk_le(x, four);
    assert_in(&mut solver, le, &mut m);
    let t = table(&mut m, x, &[(1, 10), (2, 20), (3, 30), (4, 40)]);
    let r = var(&mut m, "r");
    let eq_r = m.mk_eq(r, t);
    assert_in(&mut solver, eq_r, &mut m);
    let zero = m.mk_int(0);
    let r_zero = m.mk_eq(r, zero);
    assert_in(&mut solver, r_zero, &mut m);
    assert!(solver.tables.table_index_terms.contains(&x));
    let clauses = solver.goal.clauses.len();
    solver.split_table_domains(&mut m);
    assert_eq!(solver.goal.clauses.len(), clauses);
    assert!(!solver.tables.table_index_domain_eqs.contains_key(&x));
    assert_eq!(check(&solver, &m), SolverResult::Sat);
    let one = m.mk_int(1);
    let ge = m.mk_ge(x, one);
    assert_in(&mut solver, ge, &mut m);
    solver.split_table_domains(&mut m);
    assert_eq!(solver.tables.table_index_domain_eqs[&x].len(), 4);
    assert_eq!(check(&solver, &m), SolverResult::Unsat);
}

#[test]
fn closing_a_scope_forgets_its_aliases() {
    let mut solver = Solver::new();
    let mut m = TermStore::new();
    let a = var(&mut m, "a");
    let b = var(&mut m, "b");
    let x = var(&mut m, "x");
    let y = var(&mut m, "y");
    let ab = m.mk_eq(a, b);
    let xy = m.mk_eq(x, y);
    assert_in(&mut solver, ab, &mut m);
    let before = solver.tables.unit_eq_rep.clone();
    solver.push();
    assert_in(&mut solver, xy, &mut m);
    assert_ne!(solver.tables.unit_eq_rep, before);
    solver.pop();
    assert_eq!(solver.tables.unit_eq_rep, before);
}
