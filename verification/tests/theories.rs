use oxiz_solver::chordal::chordalize;
use oxiz_solver::descent::{collect_visited, Descent};
use oxiz_solver::domains::{collect_conjunctive_int_bounds, index_domain};
use oxiz_solver::int_case_split::{
    bounds_from_facts, propagate_fact, collect_int_uf_args, is_internal_var, select_case_splits, Dir, Fact,
};
use oxiz_solver::linear::{parse_comparison, ArithConstraintType};
use oxiz_solver::nonlinear::{check_nonlinear_constraints, nl_backend, NlBackend};
use oxiz_solver::numbers::Rat;
use oxiz_solver::rewrite::{abstract_compound_bool_args, eliminate_nonbool_ite, purify_numeric_uf_args};
use oxiz_solver::solver::Solver;
use oxiz_solver::state::{Constraint, GoalState, TheoryRequest};
use oxiz_solver::strings::{
    check_string_constraints, get_string_literal, is_string_variable, string_atoms_need_theory,
};
use oxiz_solver::tables::TableState;
use oxiz_solver::terms::{
    Data, Op, SortId, SortKind, Symbol, TermId, TermStore, BOOL_SORT, INT_SORT, REAL_SORT,
    STRING_SORT,
};
use oxiz_solver::walk::{collect_subterms, substitute};
use rustc_hash::{FxHashMap, FxHashSet};

fn var(m: &mut TermStore, name: &str, sort: SortId) -> TermId {
    let n = m.intern_name(name.to_string());
    m.mk_var(Symbol::User(n), sort)
}

fn apply(m: &mut TermStore, name: &str, args: Vec<TermId>, sort: SortId) -> TermId {
    let n = m.intern_name(name.to_string());
    m.intern(Op::Apply, args, Data::Name(n), sort)
}

fn lit(m: &mut TermStore, text: &str) -> TermId {
    m.mk_string_lit(text.to_string())
}

#[test]
fn linear_forms() {
    let mut m = TermStore::new();
    let x = var(&mut m, "x", INT_SORT);
    let y = var(&mut m, "y", INT_SORT);
    let two = m.mk_int(2);
    let seven = m.mk_int(7);
    let twice = m.mk_mul(vec![two, x], INT_SORT);
    let sum = m.mk_add(vec![twice, y], INT_SORT);
    let le = m.mk_le(sum, seven);
    let p = parse_comparison(&m, sum, seven, ArithConstraintType::Le, le).unwrap();
    assert_eq!(p.constant, Rat { num: 7, den: 1 });
    assert_eq!(p.reason_term, le);
    let product = m.mk_mul(vec![x, y], INT_SORT);
    assert!(parse_comparison(&m, product, seven, ArithConstraintType::Le, le).is_none());
}

#[test]
fn bounds_come_from_facts() {
    let facts = vec![
        Fact { terms: vec![(1, 2)], constant: 7, dir: Dir::Le },
        Fact { terms: vec![(1, 1)], constant: 1, dir: Dir::Ge },
        Fact { terms: vec![(1, 1), (2, 1)], constant: 4, dir: Dir::Eq },
    ];
    let bounds = bounds_from_facts(&facts);
    assert_eq!(bounds.get(&1), Some(&(Some(1), Some(3))));
    assert_eq!(bounds.get(&2), Some(&(Some(1), Some(3))));
}

#[test]
fn small_domains_are_split_into_cases() {
    let mut m = TermStore::new();
    let x = var(&mut m, "x", INT_SORT);
    let fx = apply(&mut m, "f", vec![x], INT_SORT);
    let zero = m.mk_int(0);
    let ge = m.mk_ge(fx, zero);
    assert_eq!(collect_int_uf_args(&m, &vec![ge]), vec![x]);
    assert!(!is_internal_var(&m, x));
    let mut bounds = FxHashMap::default();
    bounds.insert(x, (Some(1), Some(3)));
    let mut values = FxHashMap::default();
    values.insert(x, 2);
    let cases = select_case_splits(&vec![x], &bounds, &FxHashSet::default(), &values);
    assert_eq!(cases, vec![(x, 1, 3)]);
    bounds.insert(x, (Some(1), None));
    assert!(select_case_splits(&vec![x], &bounds, &FxHashSet::default(), &values).is_empty());
    let mut goal = GoalState::new();
    goal.assert_case_split(&mut m, x, 1, 3);
    assert!(goal.clauses.iter().any(|c| c.len() == 3));
}

#[test]
fn conjunctive_bounds_are_read() {
    let mut m = TermStore::new();
    let x = var(&mut m, "x", INT_SORT);
    let zero = m.mk_int(0);
    let nine = m.mk_int(9);
    let ge = m.mk_ge(x, zero);
    let lt = m.mk_lt(x, nine);
    let both = m.mk_and(vec![ge, lt]);
    let mut bounds = FxHashMap::default();
    collect_conjunctive_int_bounds(both, &m, &mut bounds, &FxHashMap::default());
    assert_eq!(bounds.get(&x), Some(&(Some(0), Some(8))));
    let either = m.mk_or(vec![ge, lt]);
    let mut none = FxHashMap::default();
    collect_conjunctive_int_bounds(either, &m, &mut none, &FxHashMap::default());
    assert!(none.is_empty());
}

#[test]
fn domains_lie_between_bounds() {
    assert_eq!(index_domain(Some(1), Some(5)), Some((1, 5)));
    assert_eq!(index_domain(Some(1), Some(500)), None);
    assert_eq!(index_domain(None, Some(4)), None);
    assert_eq!(index_domain(Some(1), None), None);
}

#[test]
fn conditionals_become_variables() {
    let mut m = TermStore::new();
    let mut tables = TableState::new();
    let p = var(&mut m, "p", BOOL_SORT);
    let x = var(&mut m, "x", INT_SORT);
    let y = var(&mut m, "y", INT_SORT);
    let z = var(&mut m, "z", INT_SORT);
    let ite = m.mk_ite(p, x, y);
    let eq = m.mk_eq(z, ite);
    let r = eliminate_nonbool_ite(&mut tables, &mut m, eq);
    assert_ne!(r, eq);
    let list = collect_subterms(&m, r);
    assert!(list.iter().all(|&t| m.nodes[t].op != Op::Ite));
    assert_eq!(eliminate_nonbool_ite(&mut tables, &mut m, r), r);
}

#[test]
fn arguments_become_variables() {
    let mut m = TermStore::new();
    let p = var(&mut m, "p", BOOL_SORT);
    let q = var(&mut m, "q", BOOL_SORT);
    let both = m.mk_and(vec![p, q]);
    let f = apply(&mut m, "f", vec![both], BOOL_SORT);
    let r = abstract_compound_bool_args(&mut m, f);
    assert_ne!(r, f);
    let three = m.mk_int(3);
    let g = apply(&mut m, "g", vec![three], BOOL_SORT);
    let s = purify_numeric_uf_args(&mut m, g);
    assert_ne!(s, g);
    let x = var(&mut m, "x", INT_SORT);
    let h = apply(&mut m, "h", vec![x], BOOL_SORT);
    assert_eq!(purify_numeric_uf_args(&mut m, h), h);
}

#[test]
fn substitution_replaces_subterms() {
    let mut m = TermStore::new();
    let x = var(&mut m, "x", INT_SORT);
    let y = var(&mut m, "y", INT_SORT);
    let one = m.mk_int(1);
    let le = m.mk_le(x, one);
    let mut map = FxHashMap::default();
    map.insert(x, y);
    let r = substitute(&mut m, le, &map);
    let expected = m.mk_le(y, one);
    assert_eq!(r, expected);
}

#[test]
fn descents_follow_connectives() {
    let mut m = TermStore::new();
    let p = var(&mut m, "p", BOOL_SORT);
    let q = var(&mut m, "q", BOOL_SORT);
    let r = var(&mut m, "r", BOOL_SORT);
    let either = m.mk_or(vec![q, r]);
    let both = m.mk_and(vec![p, either]);
    let list = collect_visited(&m, both, Descent::Conjuncts);
    assert!(list.contains(&p) && list.contains(&either) && !list.contains(&q));
}

#[test]
fn string_conflicts() {
    let mut m = TermStore::new();
    let s = var(&mut m, "s", STRING_SORT);
    let a = lit(&mut m, "a");
    let b = lit(&mut m, "b");
    let is_a = m.mk_eq(s, a);
    let is_b = m.mk_eq(s, b);
    assert!(check_string_constraints(&m, &vec![is_a, is_b]));
    assert!(!check_string_constraints(&m, &vec![is_a]));
    assert_eq!(get_string_literal(&m, a), Some(vec!['a']));
    assert_eq!(get_string_literal(&m, s), None);
    assert!(is_string_variable(&m, s));
    let len = m.intern(Op::StrLen, vec![s], Data::Plain, INT_SORT);
    let two = m.mk_int(2);
    let long = m.mk_eq(len, two);
    assert!(check_string_constraints(&m, &vec![is_a, long]));
    let one = m.mk_int(1);
    let short = m.mk_eq(len, one);
    assert!(!check_string_constraints(&m, &vec![is_a, short]));
}

#[test]
fn string_atoms_need_their_theory() {
    let mut m = TermStore::new();
    let s = var(&mut m, "s", STRING_SORT);
    let a = lit(&mut m, "a");
    let starts = m.intern(Op::StrPrefixOf, vec![a, s], Data::Plain, BOOL_SORT);
    assert!(string_atoms_need_theory(&m, &vec![starts]));
    let p = var(&mut m, "p", BOOL_SORT);
    assert!(!string_atoms_need_theory(&m, &vec![p]));
}

#[test]
fn concatenations_conflict() {
    let mut m = TermStore::new();
    let s = var(&mut m, "s", STRING_SORT);
    let t = var(&mut m, "t", STRING_SORT);
    let ab = lit(&mut m, "ab");
    let c = lit(&mut m, "c");
    let both = m.intern(Op::StrConcat, vec![s, t], Data::Plain, STRING_SORT);
    let whole = m.mk_eq(both, ab);
    let is_c = m.mk_eq(s, c);
    assert!(check_string_constraints(&m, &vec![whole, is_c]));
}

#[test]
fn squares_conflict() {
    let mut m = TermStore::new();
    let x = var(&mut m, "x", INT_SORT);
    let square = m.mk_mul(vec![x, x], INT_SORT);
    let two = m.mk_int(2);
    let four = m.mk_int(4);
    let is_two = m.mk_eq(square, two);
    let is_four = m.mk_eq(square, four);
    assert!(check_nonlinear_constraints(Some("QF_NIA"), true, &m, &vec![is_two]));
    assert!(!check_nonlinear_constraints(Some("QF_NIA"), true, &m, &vec![is_four]));
    assert!(!check_nonlinear_constraints(Some("QF_LIA"), true, &m, &vec![is_two]));
}

#[test]
fn nonlinear_backends() {
    let mut m = TermStore::new();
    let x = var(&mut m, "x", REAL_SORT);
    let square = m.mk_mul(vec![x, x], REAL_SORT);
    let one = m.mk_real(Rat { num: 1, den: 1 });
    let le = m.mk_le(square, one);
    assert!(nl_backend(Some("QF_NRA"), true, &m, &vec![le]) == Some(NlBackend::Nra));
    assert!(nl_backend(Some("QF_NIA"), true, &m, &vec![le]) == Some(NlBackend::Nia));
    assert!(nl_backend(Some("QF_UF"), false, &m, &vec![le]).is_none());
}

#[test]
fn cycles_get_chords() {
    // A cycle of four vertices.
    let mut a = vec![vec![false; 4]; 4];
    for k in 0..4 {
        let n = (k + 1) % 4;
        a[k][n] = true;
        a[n][k] = true;
    }
    let order = chordalize(&mut a);
    assert_eq!(order.len(), 4);
    assert!(a[0][2] || a[1][3]);
    // Eliminating a vertex leaves its later neighbours connected.
    for (k, &v) in order.iter().enumerate() {
        for &x in &order[k + 1..] {
            for &y in &order[k + 1..] {
                if x != y && a[v][x] && a[v][y] {
                    assert!(a[x][y]);
                }
            }
        }
    }
}

#[test]
fn equalities_get_transitivity() {
    let mut m = TermStore::new();
    let mut solver = Solver::new();
    let u_name = m.intern_name("U".to_string());
    let u = m.intern_sort(SortKind::Uninterpreted(u_name));
    let a = var(&mut m, "a", u);
    let b = var(&mut m, "b", u);
    let c = var(&mut m, "c", u);
    let ab = m.mk_eq(a, b);
    let bc = m.mk_eq(b, c);
    let ac = m.mk_eq(a, c);
    let not_ac = m.mk_not(ac);
    for t in [ab, bc, not_ac] {
        let (t, index, _) = solver.assert_term(t, &mut m);
        solver.finish_assertion(&mut m, t, index, t, None, &Vec::new());
    }
    assert!(solver.goal.equality_transitivity_preprocess(&mut m));
    let n = solver.goal.var_to_term.len();
    let sat = (0..1usize << n).any(|bits| {
        solver
            .goal
            .clauses
            .iter()
            .all(|cl| cl.iter().any(|l| (bits >> l.var & 1 == 1) == l.positive))
    });
    assert!(!sat);
}

#[test]
fn alternatives_make_no_string_conflict() {
    let mut m = TermStore::new();
    let v = var(&mut m, "v", STRING_SORT);
    let a = lit(&mut m, "a");
    let b = lit(&mut m, "b");
    let is_a = m.mk_eq(v, a);
    let is_b = m.mk_eq(v, b);
    let either = m.mk_or(vec![is_a, is_b]);
    let not_a = m.mk_not(is_a);
    let implied = m.mk_implies(is_a, is_b);
    let both = m.mk_and(vec![is_a, is_b]);
    assert!(!check_string_constraints(&m, &vec![either]));
    assert!(!check_string_constraints(&m, &vec![not_a, is_b]));
    assert!(!check_string_constraints(&m, &vec![implied]));
    assert!(check_string_constraints(&m, &vec![both]));
}

#[test]
fn negated_comparisons_turn_round() {
    let mut m = TermStore::new();
    let x = var(&mut m, "x", REAL_SORT);
    let y = var(&mut m, "y", REAL_SORT);
    let zero = m.mk_real(Rat { num: 0, den: 1 });
    let square = m.mk_mul(vec![x, x], REAL_SORT);
    let positive = m.mk_gt(square, zero);
    let sum = m.mk_add(vec![square, y], REAL_SORT);
    let is_zero = m.mk_eq(sum, zero);
    let minus_y = m.mk_neg(y);
    let minus_y_ge = m.mk_ge(minus_y, zero);
    let y_ge = m.mk_ge(y, zero);
    let nra = |list: Vec<TermId>, m: &TermStore| {
        check_nonlinear_constraints(Some("QF_NRA"), true, m, &list)
    };
    assert!(!nra(vec![positive, is_zero, minus_y_ge], &m));
    assert!(nra(vec![positive, is_zero, y_ge], &m));
}

#[test]
fn a_cycle_of_four_gets_one_chord() {
    let mut m = TermStore::new();
    let mut solver = Solver::new();
    let u_name = m.intern_name("U".to_string());
    let u = m.intern_sort(SortKind::Uninterpreted(u_name));
    let v: Vec<TermId> = ["a", "b", "c", "d"].iter().map(|n| var(&mut m, n, u)).collect();
    for k in 0..4 {
        let e = m.mk_eq(v[k], v[(k + 1) % 4]);
        let (t, index, _) = solver.assert_term(e, &mut m);
        solver.finish_assertion(&mut m, t, index, t, None, &Vec::new());
    }
    let vars = solver.goal.var_to_term.len();
    let clauses = solver.goal.clauses.len();
    assert!(solver.goal.equality_transitivity_preprocess(&mut m));
    assert_eq!(solver.goal.var_to_term.len(), vars + 1);
    assert_eq!(solver.goal.clauses.len(), clauses + 6);
}

#[test]
fn least_words_bound_too() {
    let mut bounds = FxHashMap::default();
    let facts = vec![Fact { terms: vec![(1, 1)], constant: i64::MIN, dir: Dir::Le }];
    let b = bounds_from_facts(&facts);
    assert_eq!(b[&1], (None, Some(i64::MIN)));
    let mut changed = false;
    let fact = Fact { terms: vec![(1, -1)], constant: i64::MIN, dir: Dir::Le };
    propagate_fact(&fact, &mut bounds, &mut changed);
    assert!(!changed);
    let fact = Fact { terms: vec![(1, i64::MIN)], constant: i64::MIN, dir: Dir::Ge };
    propagate_fact(&fact, &mut bounds, &mut changed);
    assert_eq!(bounds[&1], (None, Some(1)));
}

#[test]
fn theory_atoms_are_registered() {
    let mut m = TermStore::new();
    let mut goal = GoalState::new();
    let bits = m.intern_sort(SortKind::BitVec(8));
    let x = var(&mut m, "x", INT_SORT);
    let y = var(&mut m, "y", INT_SORT);
    let p = var(&mut m, "p", BOOL_SORT);
    let a = var(&mut m, "a", bits);
    let b = var(&mut m, "b", bits);
    let five = m.mk_int(5);
    let le = m.mk_le(x, five);
    let eq = m.mk_eq(x, y);
    let signed = m.intern(Op::BvSlt, vec![a, b], Data::Plain, BOOL_SORT);
    let unsigned = m.intern(Op::BvUlt, vec![a, b], Data::Plain, BOOL_SORT);
    let f = apply(&mut m, "f", vec![x], BOOL_SORT);
    let both = m.mk_and(vec![le, signed, f]);
    let not_eq = m.mk_not(eq);
    let all = m.mk_or(vec![both, not_eq, p, unsigned]);
    goal.encode(all, &mut m);
    let constraint = |t: TermId| goal.var_to_constraint.get(&goal.term_to_var[&t]).copied();
    assert_eq!(constraint(le), Some(Constraint::Le(x, five)));
    assert_eq!(constraint(eq), Some(Constraint::Eq(x, y)));
    assert_eq!(constraint(signed), Some(Constraint::Lt(a, b)));
    assert_eq!(constraint(unsigned), Some(Constraint::Lt(a, b)));
    assert_eq!(constraint(p), Some(Constraint::BoolApp(p)));
    assert_eq!(constraint(f), Some(Constraint::BoolApp(f)));
    let parsed = |t: TermId| goal.var_to_parsed_arith.get(&goal.term_to_var[&t]);
    assert_eq!(parsed(le).unwrap().constant, Rat { num: 5, den: 1 });
    assert_eq!(parsed(le).unwrap().constraint_type, ArithConstraintType::Le);
    assert_eq!(parsed(eq).unwrap().reason_term, eq);
    assert!(parsed(unsigned).is_some());
    assert!(parsed(signed).is_none());
    for t in [x, y, five, a, b] {
        assert!(goal.requests.contains(&TheoryRequest::Track(t)));
    }
    goal.encode(x, &mut m);
    goal.encode(a, &mut m);
    assert!(goal.arith_terms.contains(&x));
    assert!(goal.bv_terms.contains(&a));
    assert!(goal.requests.contains(&TheoryRequest::NewBv(a, 8)));
}

#[test]
fn conditional_sides_are_tied_to_their_branches() {
    let mut m = TermStore::new();
    let mut goal = GoalState::new();
    let x = var(&mut m, "x", INT_SORT);
    let c = var(&mut m, "c", BOOL_SORT);
    let one = m.mk_int(1);
    let two = m.mk_int(2);
    let ite = m.mk_ite(c, one, two);
    let eq = m.mk_eq(x, ite);
    goal.encode(eq, &mut m);
    let is_one = m.mk_eq(x, one);
    let is_two = m.mk_eq(x, two);
    for t in [c, is_one, is_two] {
        assert!(goal.encoded_terms.contains_key(&t));
    }
}

#[test]
fn registered_terms_are_taken_back() {
    let mut m = TermStore::new();
    let mut solver = Solver::new();
    let bits = m.intern_sort(SortKind::BitVec(4));
    let x = var(&mut m, "x", INT_SORT);
    let a = var(&mut m, "a", bits);
    let p = var(&mut m, "p", BOOL_SORT);
    solver.push();
    solver.register_theory_terms(&m, &vec![x, a, p, x]);
    assert!(solver.goal.arith_terms.contains(&x));
    assert!(solver.goal.bv_terms.contains(&a));
    assert!(!solver.goal.arith_terms.contains(&p) && !solver.goal.bv_terms.contains(&p));
    solver.pop();
    assert!(solver.goal.arith_terms.is_empty() && solver.goal.bv_terms.is_empty());
}
