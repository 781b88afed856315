use oxiz_solver::commands::{split_names, Command, Reply, Request, Script};
use oxiz_solver::constants::{is_ground_const, resolve_chain, ConstSubst};
use oxiz_solver::context::Context;
use oxiz_solver::declared::{most_common_value, FuncAppEntry, ModelSource};
use oxiz_solver::model::EngineValues;
use oxiz_solver::proof_log::{proof_log, LogEntry, ProofStep};
use oxiz_solver::script::ConstructorDecl;
use oxiz_solver::search::{has_core, Action, Event, Search, SolverResult};
use oxiz_solver::solver::TheoryMode;
use oxiz_solver::sorts::{format_sort_name, parse_sort_name, SortNames};
use oxiz_solver::state::Lit;
use oxiz_solver::terms::{
    Data, Op, SortKind, Symbol, TermId, TermStore, BOOL_SORT, FALSE_TERM, INT_SORT, REAL_SORT,
    STRING_SORT, TRUE_TERM,
};
use rustc_hash::FxHashMap;

/// A satisfying assignment of the clauses, found by trying.
fn satisfy(clauses: &[Vec<Lit>], vars: usize) -> Option<Vec<bool>> {
    fn go(clauses: &[Vec<Lit>], n: usize, a: &mut Vec<bool>) -> bool {
        for c in clauses {
            if c.iter().all(|l| l.var < a.len() && a[l.var] != l.positive) {
                return false;
            }
        }
        if a.len() == n {
            return true;
        }
        for v in [true, false] {
            a.push(v);
            if go(clauses, n, a) {
                return true;
            }
            a.pop();
        }
        false
    }
    let mut a = Vec::new();
    if go(clauses, vars, &mut a) {
        Some(a)
    } else {
        None
    }
}

fn source() -> ModelSource {
    ModelSource { printed: FxHashMap::default(), representatives: FxHashMap::default() }
}

fn finish(ctx: &mut Context, term: TermId, index: usize) {
    ctx.finish_assertion(term, index, term, None, &Vec::new());
}

fn assert_in(ctx: &mut Context, term: TermId) {
    let (t, index, more) = ctx.assert_term(term);
    if more {
        finish(ctx, t, index);
    }
}

/// The values of the variables, and nothing else.
fn truths(sat: Vec<bool>) -> EngineValues {
    EngineValues {
        sat: sat.into_iter().map(Some).collect(),
        arith: FxHashMap::default(),
        bits: FxHashMap::default(),
    }
}

/// Runs a check; theory atoms are left to chance.
fn search(ctx: &mut Context) -> SolverResult {
    let logic = ctx.solver.logic.clone();
    let mut found: Vec<bool> = Vec::new();
    let mut last: Option<Action> = None;
    let mut x = Search::start(&ctx.solver.goal, ctx.solver.out_of_budget());
    loop {
        let event = match x.action {
            Action::Answer(result) => {
                if has_core(last, result) {
                    let trivially = ctx.solver.goal.has_false_assertion;
                    ctx.solver.build_core(trivially);
                }
                if result == SolverResult::Sat {
                    ctx.solver.build_model(&mut ctx.terms, &truths(found));
                }
                return result;
            }
            Action::Solve => {
                match satisfy(&ctx.solver.goal.clauses, ctx.solver.goal.var_to_term.len()) {
                    Some(a) => {
                        found = a;
                        Event::Searched { result: SolverResult::Sat, dropped: false }
                    }
                    None => Event::Searched { result: SolverResult::Unsat, dropped: false },
                }
            }
            Action::TestModel => Event::Modelled { refuted: false, affordable: false },
            Action::SolveNonlinear => Event::Decided(None),
            Action::InstantiateArith | Action::InstantiateDatatypes | Action::Rebase => Event::Done,
            _ => Event::Found(false),
        };
        last = Some(x.action);
        x = x.advance(&ctx.terms, &ctx.solver.goal, logic.as_deref(), false, event);
    }
}

fn check_sat(ctx: &mut Context) -> SolverResult {
    let r = search(ctx);
    ctx.conclude_check(Vec::new(), r, false)
}

fn print(terms: &TermStore, t: TermId) -> String {
    let node = &terms.nodes[t];
    let args: Vec<String> = node.args.iter().map(|&a| print(terms, a)).collect();
    match (node.op, &node.data) {
        (Op::True, _) => "true".to_string(),
        (Op::False, _) => "false".to_string(),
        (Op::Var, Data::Sym(Symbol::User(n))) => terms.names[*n].clone(),
        (Op::Not, _) => format!("(not {})", args[0]),
        (Op::And, _) => format!("(and {})", args.join(" ")),
        (Op::Or, _) => format!("(or {})", args.join(" ")),
        _ => format!("#{}", t),
    }
}

fn truth(ctx: &Context, t: TermId) -> bool {
    let node = &ctx.terms.nodes[t];
    match node.op {
        Op::True => true,
        Op::False => false,
        Op::Not => !truth(ctx, node.args[0]),
        Op::And => node.args.iter().all(|&a| truth(ctx, a)),
        Op::Or => node.args.iter().any(|&a| truth(ctx, a)),
        _ => ctx.solver.model().and_then(|m| m.get(t)) == Some(TRUE_TERM),
    }
}

fn run(ctx: &mut Context, commands: Vec<Command>) -> Vec<String> {
    let mut script = Script::new(commands);
    while let Some(request) = script.run(ctx) {
        let reply = match &request {
            Request::Encode { term, index } => {
                finish(ctx, *term, *index);
                Reply::Done
            }
            Request::CheckSat => {
                Reply::Checked { result: search(ctx), arrays_open: false }
            }
            Request::CheckSatAssuming(list) => {
                ctx.solver.push();
                for &t in list {
                    let (r, index, more) = ctx.solver.assert_term(t, &mut ctx.terms);
                    if more {
                        finish(ctx, r, index);
                    }
                }
                let result = search(ctx);
                ctx.solver.end_assumptions();
                Reply::Checked { result, arrays_open: false }
            }
            Request::ShowModel => Reply::Model(source()),
            Request::PrintAssertions => Reply::Texts(
                ctx.assertions.iter().map(|&t| print(&ctx.terms, t)).collect(),
            ),
            Request::PrintAssumptions => Reply::Texts(
                ctx.last_assumptions.iter().map(|&t| print(&ctx.terms, t)).collect(),
            ),
            Request::Evaluate(list) => Reply::Pairs(
                list.iter()
                    .map(|&t| (print(&ctx.terms, t), truth(ctx, t).to_string()))
                    .collect(),
            ),
            Request::Simplify(_) => Reply::Text("3".to_string()),
            Request::ShowProof => Reply::Written(None),
        };
        script.resume(ctx, request, reply);
    }
    script.output
}

fn named(ctx: &mut Context, name: &str, sort: usize) -> TermId {
    let n = ctx.terms.intern_name(name.to_string());
    ctx.terms.mk_var(Symbol::User(n), sort)
}

fn text(s: &str) -> String {
    s.to_string()
}

#[test]
fn test_context_basic() {
    let mut ctx = Context::new();
    ctx.set_logic("QF_UF");
    assert_eq!(ctx.logic().map(|x| x.as_str()), Some("QF_UF"));
    assert_in(&mut ctx, TRUE_TERM);
    assert_eq!(check_sat(&mut ctx), SolverResult::Sat);
}

#[test]
fn test_context_push_pop() {
    let mut ctx = Context::new();
    assert_in(&mut ctx, TRUE_TERM);
    ctx.push();
    assert_in(&mut ctx, FALSE_TERM);
    assert_eq!(check_sat(&mut ctx), SolverResult::Unsat);
    ctx.pop();
    assert_eq!(check_sat(&mut ctx), SolverResult::Sat);
}

#[test]
fn test_execute_script() {
    let mut ctx = Context::new();
    let p = named(&mut ctx, "p", BOOL_SORT);
    let output = run(
        &mut ctx,
        vec![
            Command::SetLogic(text("QF_UF")),
            Command::DeclareConst(text("p"), text("Bool")),
            Command::Assert(p),
            Command::CheckSat,
        ],
    );
    assert_eq!(output, vec!["sat"]);
}

#[test]
fn test_declare_const() {
    let mut ctx = Context::new();
    ctx.declare_const("x", BOOL_SORT);
    ctx.declare_const("y", INT_SORT);
    assert_in(&mut ctx, TRUE_TERM);
    assert_eq!(check_sat(&mut ctx), SolverResult::Sat);
    let model = ctx.get_model(&source());
    assert!(model.is_some());
    let model = model.unwrap();
    assert_eq!(model.len(), 2);
    assert_eq!(model[1], (text("y"), text("Int"), text("0")));
}

#[test]
fn test_format_model() {
    let mut ctx = Context::new();
    ctx.declare_const("p", BOOL_SORT);
    assert_in(&mut ctx, TRUE_TERM);
    check_sat(&mut ctx);
    let model_str = ctx.format_model(&source());
    assert!(model_str.contains("(model"));
    assert!(model_str.contains("define-fun p () Bool"));
    assert_eq!(model_str, "(model\n  (define-fun p () Bool false)\n)");
}

#[test]
fn test_get_model_script() {
    let mut ctx = Context::new();
    let output = run(
        &mut ctx,
        vec![
            Command::SetLogic(text("QF_LIA")),
            Command::DeclareConst(text("x"), text("Int")),
            Command::DeclareConst(text("y"), text("Bool")),
            Command::Assert(TRUE_TERM),
            Command::CheckSat,
            Command::GetModel,
        ],
    );
    assert_eq!(output.len(), 2);
    assert_eq!(output[0], "sat");
    assert!(output[1].contains("(model"), "Expected '(model' in: {}", output[1]);
}

#[test]
fn test_push_pop_consts() {
    let mut ctx = Context::new();
    ctx.declare_const("a", BOOL_SORT);
    ctx.push();
    ctx.declare_const("b", BOOL_SORT);
    assert_in(&mut ctx, TRUE_TERM);
    check_sat(&mut ctx);
    assert_eq!(ctx.get_model(&source()).unwrap().len(), 2);
    ctx.pop();
    check_sat(&mut ctx);
    let model = ctx.get_model(&source()).unwrap();
    assert_eq!(model.len(), 1);
    assert_eq!(model[0].0, "a");
}

#[test]
fn test_get_assertions() {
    let mut ctx = Context::new();
    let p = named(&mut ctx, "p", BOOL_SORT);
    let not_p = ctx.terms.mk_not(p);
    let output = run(
        &mut ctx,
        vec![
            Command::SetLogic(text("QF_UF")),
            Command::DeclareConst(text("p"), text("Bool")),
            Command::Assert(p),
            Command::Assert(not_p),
            Command::GetAssertions,
        ],
    );
    assert_eq!(output.len(), 1);
    assert!(output[0].starts_with('('));
    assert!(output[0].contains("p"));
    assert_eq!(output[0], "(p\n (not p))");
}

#[test]
fn test_check_sat_assuming_script() {
    let mut ctx = Context::new();
    let p = named(&mut ctx, "p", BOOL_SORT);
    let q = named(&mut ctx, "q", BOOL_SORT);
    let output = run(
        &mut ctx,
        vec![
            Command::SetLogic(text("QF_UF")),
            Command::DeclareConst(text("p"), text("Bool")),
            Command::DeclareConst(text("q"), text("Bool")),
            Command::Assert(p),
            Command::CheckSatAssuming(vec![q]),
        ],
    );
    assert_eq!(output.len(), 1);
    assert_eq!(output[0], "sat");
}

#[test]
fn test_get_unsat_assumptions_script() {
    let mut ctx = Context::new();
    let p = named(&mut ctx, "p", BOOL_SORT);
    let not_p = ctx.terms.mk_not(p);
    let output = run(
        &mut ctx,
        vec![
            Command::SetLogic(text("QF_UF")),
            Command::DeclareConst(text("p"), text("Bool")),
            Command::Assert(p),
            Command::CheckSatAssuming(vec![not_p]),
            Command::GetUnsatAssumptions,
        ],
    );
    assert_eq!(output.len(), 2);
    assert_eq!(output[0], "unsat");
    assert!(output[1].starts_with('('));
    assert!(output[1].contains('p'), "got: {}", output[1]);
    assert_ne!(output[1], "()");
}

#[test]
fn test_get_unsat_assumptions_no_assumptions_is_empty() {
    let mut ctx = Context::new();
    let p = named(&mut ctx, "p", BOOL_SORT);
    let not_p = ctx.terms.mk_not(p);
    let output = run(
        &mut ctx,
        vec![
            Command::SetLogic(text("QF_UF")),
            Command::DeclareConst(text("p"), text("Bool")),
            Command::Assert(p),
            Command::Assert(not_p),
            Command::CheckSat,
            Command::GetUnsatAssumptions,
        ],
    );
    assert_eq!(output.len(), 2);
    assert_eq!(output[0], "unsat");
    assert_eq!(output[1], "()");
}

#[test]
fn test_get_option_script() {
    let mut ctx = Context::new();
    let output = run(
        &mut ctx,
        vec![
            Command::SetOption(text("produce-models"), text("true")),
            Command::GetOption(text("produce-models")),
        ],
    );
    assert_eq!(output.len(), 1);
    assert_eq!(output[0], "true");
}

#[test]
fn test_random_seed_option_is_enforced_and_recorded() {
    let mut ctx = Context::new();
    ctx.set_option(":random-seed", "42");
    assert_eq!(ctx.get_option("random-seed").map(|x| x.as_str()), Some("42"));
    assert_eq!(ctx.random_seed, 42);

    let bv8 = ctx.parse_sort("(_ BitVec 8)");
    let x = named(&mut ctx, "x", bv8);
    let ten = ctx.terms.mk_bitvec(oxiz_solver::numbers::BigNum::from_i64(10), 8, bv8);
    let ult = ctx.terms.intern(Op::BvUlt, vec![x, ten], Data::Plain, BOOL_SORT);
    let output = run(
        &mut ctx,
        vec![
            Command::SetLogic(text("QF_BV")),
            Command::DeclareConst(text("x"), text("(_ BitVec 8)")),
            Command::Assert(ult),
            Command::CheckSat,
        ],
    );
    assert_eq!(output, vec!["sat"]);
}

#[test]
fn test_random_seed_zero_and_malformed_are_safe() {
    let mut ctx = Context::new();
    ctx.set_option(":random-seed", "0");
    assert_eq!(ctx.get_option("random-seed").map(|x| x.as_str()), Some("0"));
    ctx.set_option(":random-seed", "not-a-number");
    assert_eq!(ctx.get_option("random-seed").map(|x| x.as_str()), Some("not-a-number"));
    assert_eq!(ctx.random_seed, 0);

    let y = named(&mut ctx, "y", INT_SORT);
    let five = ctx.terms.mk_int(5);
    let eight = ctx.terms.mk_int(8);
    let gt = ctx.terms.mk_gt(y, five);
    let lt = ctx.terms.mk_lt(y, eight);
    let output = run(
        &mut ctx,
        vec![
            Command::SetLogic(text("QF_LIA")),
            Command::DeclareConst(text("y"), text("Int")),
            Command::Assert(gt),
            Command::Assert(lt),
            Command::CheckSat,
        ],
    );
    assert_eq!(output, vec!["sat"]);
}

#[test]
fn test_reset_assertions() {
    let mut ctx = Context::new();
    let p = named(&mut ctx, "p", BOOL_SORT);
    let output = run(
        &mut ctx,
        vec![
            Command::SetLogic(text("QF_UF")),
            Command::DeclareConst(text("p"), text("Bool")),
            Command::Assert(p),
            Command::ResetAssertions,
            Command::GetAssertions,
            Command::CheckSat,
        ],
    );
    assert_eq!(output.len(), 2);
    assert_eq!(output[0], "()");
    assert_eq!(output[1], "sat");
}

#[test]
fn test_get_value() {
    let mut ctx = Context::new();
    let p = named(&mut ctx, "p", BOOL_SORT);
    let q = named(&mut ctx, "q", BOOL_SORT);
    let not_q = ctx.terms.mk_not(q);
    let both = ctx.terms.mk_and(vec![p, q]);
    let either = ctx.terms.mk_or(vec![p, q]);
    let output = run(
        &mut ctx,
        vec![
            Command::SetLogic(text("QF_UF")),
            Command::DeclareConst(text("p"), text("Bool")),
            Command::DeclareConst(text("q"), text("Bool")),
            Command::Assert(p),
            Command::Assert(not_q),
            Command::CheckSat,
            Command::GetValue(vec![p, q, both, either]),
        ],
    );
    assert_eq!(output.len(), 2);
    assert_eq!(output[0], "sat");
    let value_output = &output[1];
    assert!(value_output.contains("p"));
    assert!(value_output.contains("q"));
    assert!(value_output.contains("true"));
    assert!(value_output.contains("false"));
    assert_eq!(value_output, "((p true)\n (q false)\n ((and p q) false)\n ((or p q) true))");
}

#[test]
fn test_get_value_no_model() {
    let mut ctx = Context::new();
    let p = named(&mut ctx, "p", BOOL_SORT);
    let output = run(
        &mut ctx,
        vec![
            Command::SetLogic(text("QF_UF")),
            Command::DeclareConst(text("p"), text("Bool")),
            Command::GetValue(vec![p]),
        ],
    );
    assert_eq!(output.len(), 1);
    assert!(output[0].contains("error") || output[0].contains("No model"));
}

#[test]
fn test_get_value_after_unsat() {
    let mut ctx = Context::new();
    let p = named(&mut ctx, "p", BOOL_SORT);
    let not_p = ctx.terms.mk_not(p);
    let output = run(
        &mut ctx,
        vec![
            Command::SetLogic(text("QF_UF")),
            Command::DeclareConst(text("p"), text("Bool")),
            Command::Assert(p),
            Command::Assert(not_p),
            Command::CheckSat,
            Command::GetValue(vec![p]),
        ],
    );
    assert_eq!(output.len(), 2);
    assert_eq!(output[0], "unsat");
    assert!(output[1].contains("error") || output[1].contains("No model"));
}

#[test]
fn exit_ends_the_script() {
    let mut ctx = Context::new();
    let output = run(
        &mut ctx,
        vec![Command::Echo(text("one")), Command::Exit, Command::Echo(text("two"))],
    );
    assert_eq!(output, vec!["one"]);
}

#[test]
fn array_atoms_withdraw_sat() {
    let mut ctx = Context::new();
    assert_eq!(ctx.conclude_check(Vec::new(), SolverResult::Sat, true), SolverResult::Unknown);
    assert_eq!(ctx.last_result, Some(SolverResult::Unknown));
    assert_eq!(ctx.conclude_check(Vec::new(), SolverResult::Unsat, true), SolverResult::Unsat);
    assert_eq!(ctx.get_info(":reason-unknown"), "(:reason-unknown \"not applicable\")");
}

#[test]
fn information() {
    let mut ctx = Context::new();
    assert_eq!(ctx.get_info("name"), "(:name \"oxiz\")");
    assert_eq!(ctx.get_info(":error-behavior"), "(:error-behavior continued-execution)");
    assert_eq!(
        ctx.get_info(":colour"),
        "(error \"unsupported info keyword: :colour\")",
    );
    ctx.solver.statistics.conflicts = 12;
    assert_eq!(
        ctx.get_info("all-statistics"),
        "(:decisions 0 :conflicts 12 :propagations 0 :restarts 0 :learned-clauses 0 \
         :theory-propagations 0 :theory-conflicts 0)",
    );
    ctx.conclude_check(Vec::new(), SolverResult::Unknown, false);
    assert_eq!(ctx.get_info("reason-unknown"), "(:reason-unknown incomplete)");
}

#[test]
fn options_take_effect() {
    let mut ctx = Context::new();
    ctx.set_option("timeout", " 250 ");
    ctx.set_option("max_conflicts", "+7");
    ctx.set_option("max-decisions", "many");
    ctx.set_option(":theory-mode", "Lazy");
    ctx.set_option("simplify", "no");
    ctx.set_option("produce-unsat-cores", "true");
    ctx.set_option("produce-proofs", "true");
    let c = ctx.solver_config();
    assert_eq!(c.timeout_ms, 250);
    assert_eq!(c.max_conflicts, 7);
    assert_eq!(c.max_decisions, 0);
    assert_eq!(c.theory_mode, TheoryMode::Lazy);
    assert!(!c.simplify);
    assert!(c.proof);
    assert!(ctx.solver.produce_unsat_cores);
    assert_eq!(ctx.format_option("timeout"), " 250 ");
    assert_eq!(ctx.format_option("print-success"), "false");
    assert_eq!(ctx.format_option("verbosity"), "unsupported");
    ctx.set_theory_mode(TheoryMode::Eager);
    ctx.set_max_decisions(9);
    assert_eq!(ctx.solver_config().theory_mode, TheoryMode::Eager);
    assert_eq!(ctx.solver_config().max_decisions, 9);
}

#[test]
fn proofs_and_cores_need_an_unsat_answer() {
    let mut ctx = Context::new();
    assert_eq!(ctx.get_proof(None), "(error \"Proof is only available after unsat result\")");
    ctx.conclude_check(Vec::new(), SolverResult::Unsat, false);
    assert_eq!(
        ctx.get_proof(None),
        "(error \"Proof generation not enabled. Set :produce-proofs to true\")",
    );
    assert_eq!(ctx.get_proof(Some(text("(proof)"))), "(proof)");
    assert_eq!(ctx.format_unsat_core(), "(error \"No unsat core available\")");
    ctx.conclude_check(Vec::new(), SolverResult::Sat, false);
    assert_eq!(
        ctx.get_unsat_assumptions(&Vec::new()),
        "(error \"unsat assumptions are only available after an unsat check-sat-assuming\")",
    );
}

#[test]
fn assignments_list_boolean_constants() {
    let mut ctx = Context::new();
    let p = ctx.declare_const("p", BOOL_SORT);
    ctx.declare_const("n", INT_SORT);
    ctx.declare_const("q", BOOL_SORT);
    assert_eq!(ctx.get_assignment(), "()");
    assert_in(&mut ctx, p);
    assert_eq!(check_sat(&mut ctx), SolverResult::Sat);
    assert_eq!(ctx.get_assignment(), "((p true) (q false))");
}

#[test]
fn scopes_take_declarations_back() {
    let mut ctx = Context::new();
    ctx.declare_fun("f", vec![INT_SORT], BOOL_SORT);
    ctx.push();
    ctx.declare_fun("g", vec![INT_SORT, INT_SORT], INT_SORT);
    assert_eq!(ctx.get_fun_signature("g"), Some((vec![INT_SORT, INT_SORT], INT_SORT)));
    assert_eq!(ctx.declared_function_names(), vec!["f", "g"]);
    ctx.pop();
    assert_eq!(ctx.get_fun_signature("g"), None);
    assert_eq!(ctx.get_fun_signature("f"), Some((vec![INT_SORT], BOOL_SORT)));
    assert_eq!(ctx.declared_function_names(), vec!["f"]);
    ctx.pop();
    assert_eq!(ctx.declared_function_names(), vec!["f"]);
}

#[test]
fn reset_forgets_declarations() {
    let mut ctx = Context::new();
    ctx.declare_const("x", INT_SORT);
    ctx.set_option("a", "b");
    ctx.set_logic("QF_LIA");
    ctx.reset();
    assert_eq!(ctx.declared_consts.len(), 0);
    assert!(ctx.get_option("a").is_none());
    assert!(ctx.logic().is_none());
    assert_eq!(ctx.get_assertions().len(), 0);
}

#[test]
fn sorts_are_read_and_written() {
    let mut store = TermStore::new();
    let known = SortNames::new();
    for name in [
        "Bool",
        "Int",
        "Real",
        "String",
        "(_ BitVec 8)",
        "(_ FloatingPoint 8 24)",
        "(Array Int (_ BitVec 32))",
        "(Array (Array Int Bool) U)",
        "U",
    ] {
        let id = parse_sort_name(&mut store, &known, name);
        assert_eq!(format_sort_name(&store, &known, id), name);
        assert_eq!(parse_sort_name(&mut store, &known, name), id);
    }
    assert_eq!(parse_sort_name(&mut store, &known, "  Real "), REAL_SORT);
    assert_eq!(parse_sort_name(&mut store, &known, "String"), STRING_SORT);
    let eight = parse_sort_name(&mut store, &known, "BitVec8");
    assert_eq!(format_sort_name(&store, &known, eight), "(_ BitVec 8)");
    assert_eq!(parse_sort_name(&mut store, &known, "(_ BitVec 0)"), BOOL_SORT);
    assert_eq!(parse_sort_name(&mut store, &known, "(Set Int)"), BOOL_SORT);
    assert_eq!(format_sort_name(&store, &known, 999), "Unknown");
}

#[test]
fn sorts_are_declared_and_defined() {
    let mut ctx = Context::new();
    run(
        &mut ctx,
        vec![
            Command::DeclareSort(text("U"), 0),
            Command::DeclareSort(text("Pair"), 2),
            Command::DefineSort(text("Word"), vec![], text("(_ BitVec 32)")),
            Command::DeclareConst(text("w"), text("Word")),
            Command::DeclareFun(text("f"), vec![text("U"), text("Int")], text("Word")),
        ],
    );
    let list = ctx.declared_sort_names();
    assert_eq!(list, vec![(text("U"), 0), (text("Pair"), 2)]);
    let w = &ctx.declared_consts[0];
    assert_eq!(ctx.terms.sorts[w.sort], SortKind::BitVec(32));
    let (args, ret) = ctx.get_fun_signature("f").unwrap();
    assert_eq!(args.len(), 2);
    assert_eq!(args[1], INT_SORT);
    assert_eq!(ctx.terms.sorts[ret], SortKind::BitVec(32));
}

#[test]
fn defined_constants_equal_their_bodies() {
    let mut ctx = Context::new();
    let five = ctx.terms.mk_int(5);
    run(
        &mut ctx,
        vec![
            Command::DefineFun(text("c"), vec![], text("Int"), five),
            Command::DefineFun(text("g"), vec![text("Int")], text("Bool"), TRUE_TERM),
        ],
    );
    let c = ctx.declared_consts[0].term;
    let eq = ctx.terms.mk_eq(c, five);
    assert_eq!(ctx.get_assertions(), &vec![eq]);
    assert_eq!(ctx.get_fun_signature("g"), Some((vec![INT_SORT], BOOL_SORT)));
}

#[test]
fn datatypes_declare_functions() {
    let mut ctx = Context::new();
    run(
        &mut ctx,
        vec![Command::DeclareDatatypes(vec![(
            text("List"),
            vec![
                ConstructorDecl { name: text("cons"), selectors: vec![(text("head"), INT_SORT)] },
                ConstructorDecl { name: text("nil"), selectors: vec![] },
            ],
        )])],
    );
    assert_eq!(ctx.declared_function_names(), vec!["cons", "head", "nil"]);
    let (args, list) = ctx.get_fun_signature("nil").unwrap();
    assert_eq!(args.len(), 0);
    assert_eq!(ctx.get_fun_signature("head"), Some((vec![list], INT_SORT)));
    assert_eq!(ctx.parse_sort("List"), list);
    ctx.declare_const("l", list);
    assert_in(&mut ctx, TRUE_TERM);
    check_sat(&mut ctx);
    assert_eq!(ctx.get_model(&source()).unwrap()[0], (text("l"), text("List"), text("nil")));
}

#[test]
fn names_between_commas() {
    assert_eq!(split_names("Tree, Forest"), vec!["Tree", "Forest"]);
    assert_eq!(split_names(" A ,, "), vec!["A"]);
    assert_eq!(split_names("").len(), 0);
}

#[test]
fn elements_of_uninterpreted_sorts_are_told_apart() {
    let mut ctx = Context::new();
    let u = ctx.parse_sort("U");
    let a = ctx.declare_const("a", u);
    let b = ctx.declare_const("b", u);
    ctx.declare_const("c", u);
    assert_in(&mut ctx, TRUE_TERM);
    check_sat(&mut ctx);
    let mut read = source();
    read.representatives.insert(a, 7);
    read.representatives.insert(b, 7);
    let model = ctx.get_model(&read).unwrap();
    assert_eq!(model[0].2, "@uc_U_0");
    assert_eq!(model[1].2, "@uc_U_0");
    assert_eq!(model[2].2, "@uc_U_1");
}

#[test]
fn default_values() {
    let mut ctx = Context::new();
    let sorts = [
        ("Bool", "false"),
        ("Int", "0"),
        ("Real", "0.0"),
        ("String", "\"\""),
        ("(_ BitVec 4)", "#b0000"),
        ("(_ FloatingPoint 5 11)", "(_ +zero 5 11)"),
        ("(Array Int Bool)", "((as const (Array Int Bool)) false)"),
        ("U", "@uc_U_0"),
    ];
    for (k, (sort, _)) in sorts.iter().enumerate() {
        let id = ctx.parse_sort(sort);
        ctx.declare_const(&format!("c{}", k), id);
    }
    assert_in(&mut ctx, TRUE_TERM);
    check_sat(&mut ctx);
    let model = ctx.get_model(&source()).unwrap();
    for (k, (sort, value)) in sorts.iter().enumerate() {
        assert_eq!(model[k].1, *sort);
        assert_eq!(model[k].2, *value);
    }
}

#[test]
fn values_as_text() {
    let mut ctx = Context::new();
    let printed = FxHashMap::default();
    let n = ctx.terms.mk_int(-12);
    let r = ctx.terms.mk_real(oxiz_solver::numbers::Rat { num: -1, den: 3 });
    let whole = ctx.terms.mk_real(oxiz_solver::numbers::Rat { num: 4, den: 1 });
    let bv = ctx.parse_sort("(_ BitVec 8)");
    let bits = ctx.terms.mk_bitvec(oxiz_solver::numbers::BigNum::from_i64(5), 8, bv);
    let format = |t| oxiz_solver::render::format_value(&ctx.terms, &printed, t);
    assert_eq!(format(TRUE_TERM), "true");
    assert_eq!(format(n), "-12");
    assert_eq!(format(r), "(/ -1 3)");
    assert_eq!(format(whole), "4.0");
    assert_eq!(format(bits), "#b00000101");
    assert_eq!(format(999), "?");
}

#[test]
fn function_interpretations() {
    let mut ctx = Context::new();
    ctx.declare_fun("f", vec![INT_SORT], INT_SORT);
    let x = ctx.declare_const("x", INT_SORT);
    assert_in(&mut ctx, TRUE_TERM);
    check_sat(&mut ctx);
    let one = ctx.terms.mk_int(1);
    let two = ctx.terms.mk_int(2);
    let none = ctx.get_func_interp_raw("f", &source(), &Vec::new()).unwrap();
    assert_eq!(none, (Vec::new(), text("0"), 1));
    let n = ctx.terms.intern_name(text("f"));
    ctx.terms.intern(Op::Apply, vec![x], Data::Name(n), INT_SORT);
    let entry = |rep: usize, arg: TermId, result: TermId| FuncAppEntry {
        arg_reps: vec![rep],
        arg_class_terms: vec![vec![arg]],
        result_class_terms: vec![result],
    };
    let entries = vec![
        entry(1, one, two),
        entry(1, one, one),
        entry(2, x, one),
        entry(3, two, one),
        entry(4, two, x),
    ];
    let (shown, otherwise, arity) = ctx.get_func_interp_raw("f", &source(), &entries).unwrap();
    assert_eq!(arity, 1);
    assert_eq!(
        shown,
        vec![
            (vec![text("1")], text("2")),
            (vec![text("0")], text("1")),
            (vec![text("2")], text("1")),
        ],
    );
    assert_eq!(otherwise, "1");
    assert!(ctx.get_func_interp_raw("g", &source(), &entries).is_none());
}

#[test]
fn the_first_of_the_most_common_values() {
    let entry = |v: &str| (Vec::new(), text(v));
    assert_eq!(most_common_value(&vec![entry("a"), entry("b"), entry("b")]), Some(text("b")));
    assert_eq!(most_common_value(&vec![entry("a"), entry("b")]), Some(text("a")));
    assert_eq!(most_common_value(&Vec::new()), None);
}

#[test]
fn asserted_constants_are_substituted() {
    let mut ctx = Context::new();
    let x = ctx.declare_const("x", STRING_SORT);
    let y = ctx.declare_const("y", STRING_SORT);
    let lit = ctx.terms.mk_string_lit(text("a"));
    let eq = ctx.terms.mk_eq(x, lit);
    let both = ctx.terms.mk_eq(x, y);
    assert_in(&mut ctx, eq);
    assert_in(&mut ctx, both);
    let mut found = ConstSubst::new();
    found.offer(&ctx.terms, eq);
    found.offer(&ctx.terms, both);
    assert!(found.end_round(2));
    assert_eq!(found.map.get(&x), Some(&lit));
    let list = ctx.propagate_constant_subst(&found).unwrap();
    let swapped = ctx.terms.mk_eq(lit, y);
    assert_eq!(list[1], swapped);
    found.offer(&ctx.terms, eq);
    assert!(!found.end_round(2));
    ctx.push();
    assert!(ctx.propagate_constant_subst(&found).is_none());
    ctx.restart();
    assert_eq!(ctx.get_assertions().len(), 0);
}

#[test]
fn integers_are_not_substituted() {
    let mut ctx = Context::new();
    let x = ctx.declare_const("x", INT_SORT);
    let five = ctx.terms.mk_int(5);
    assert!(is_ground_const(&ctx.terms, five));
    let eq = ctx.terms.mk_eq(x, five);
    let mut found = ConstSubst::new();
    found.offer(&ctx.terms, eq);
    assert!(found.map.is_empty());
    assert!(ctx.propagate_constant_subst(&found).is_none());
}

#[test]
fn chains_are_followed() {
    let mut m: FxHashMap<usize, usize> = FxHashMap::default();
    m.insert(1, 2);
    m.insert(2, 3);
    m.insert(4, 4);
    assert_eq!(resolve_chain(1, &m), 3);
    assert_eq!(resolve_chain(4, &m), 4);
    assert_eq!(resolve_chain(9, &m), 9);
}

#[test]
fn proof_logs_are_never_empty() {
    let conclusion_of = |e: &LogEntry| match e {
        LogEntry::Axiom { conclusion } => conclusion.clone(),
        LogEntry::Inference { conclusion, .. } => conclusion.clone(),
    };
    let sat = proof_log(SolverResult::Sat, None);
    assert_eq!(sat.iter().map(conclusion_of).collect::<Vec<_>>(), vec!["sat"]);
    let none = proof_log(SolverResult::Unsat, Some(&Vec::new()));
    assert_eq!(none.iter().map(conclusion_of).collect::<Vec<_>>(), vec!["unsat"]);
    let steps = vec![
        ProofStep::Input { index: 0 },
        ProofStep::TheoryLemma { index: 1, theory: text("LIA") },
        ProofStep::Resolution { index: 2, left: 0, right: 1, pivot: text("x1") },
    ];
    let all = proof_log(SolverResult::Unsat, Some(&steps));
    assert_eq!(
        all.iter().map(conclusion_of).collect::<Vec<_>>(),
        vec!["input-clause-0", "theory-lemma-LIA-1", "resolution-2"],
    );
    match &all[2] {
        LogEntry::Inference { rule, left, right, argument, .. } => {
            assert_eq!((rule.as_str(), *left, *right, argument.as_str()), ("resolution", 0, 1, "x1"));
        }
        LogEntry::Axiom { .. } => panic!("a resolution is an inference"),
    }
}

#[test]
fn closing_a_scope_brings_back_outer_declarations() {
    let mut ctx = Context::new();
    ctx.declare_fun("f", vec![INT_SORT], BOOL_SORT);
    let c = ctx.declare_const("c", INT_SORT);
    ctx.push();
    ctx.declare_fun("f", vec![INT_SORT, INT_SORT], INT_SORT);
    ctx.declare_const("c", REAL_SORT);
    assert_eq!(ctx.get_fun_signature("f"), Some((vec![INT_SORT, INT_SORT], INT_SORT)));
    ctx.pop();
    assert_eq!(ctx.get_fun_signature("f"), Some((vec![INT_SORT], BOOL_SORT)));
    assert_eq!(ctx.const_index.get("c"), Some(&0));
    assert_eq!(ctx.declared_consts[0].term, c);
}

#[test]
fn bodies_of_another_number_sort_are_equated() {
    let mut ctx = Context::new();
    let five = ctx.terms.mk_int(5);
    run(&mut ctx, vec![Command::DefineFun(text("r"), vec![], text("Real"), five)]);
    let r = ctx.declared_consts[0].term;
    let eq = ctx.terms.mk_eq(r, five);
    assert_eq!(ctx.terms.nodes[eq].args, vec![r, five]);
    assert_eq!(ctx.get_assertions(), &vec![eq]);
}

#[test]
fn bodies_of_unlike_sorts_are_reported() {
    let mut ctx = Context::new();
    let output =
        run(&mut ctx, vec![Command::DefineFun(text("c"), vec![], text("Int"), TRUE_TERM)]);
    assert_eq!(output, vec!["(error \"the body has another sort\")"]);
    assert!(ctx.get_assertions().is_empty());
}

#[test]
fn finishing_an_assertion_keeps_settings() {
    let mut ctx = Context::new();
    ctx.set_logic("QF_UF");
    ctx.set_option(":produce-unsat-cores", "true");
    let p = named(&mut ctx, "p", BOOL_SORT);
    assert_in(&mut ctx, p);
    assert!(ctx.solver.produce_unsat_cores);
    assert_eq!(ctx.solver.logic.as_deref(), Some("QF_UF"));
    let terms = ctx.terms.nodes.len();
    assert!(ctx.finish_assertion(p, 0, TRUE_TERM, None, &Vec::new()).is_empty());
    assert_eq!(ctx.terms.nodes.len(), terms);
}

#[test]
fn parsed_sorts_read_back() {
    let mut m = TermStore::new();
    let known = SortNames::new();
    for written in ["Int", " U ", "a b", "(_ BitVec 8)", "BitVec8", "(Array U (Array Int BitVec3))"] {
        let id = parse_sort_name(&mut m, &known, written);
        let shown = format_sort_name(&m, &known, id);
        assert_eq!(parse_sort_name(&mut m, &known, &shown), id);
    }
}

#[test]
fn malformed_options_are_recorded_only() {
    let mut ctx = Context::new();
    let config = *ctx.solver.config();
    for key in ["timeout", "max-conflicts", ":max-decisions", "theory-mode"] {
        ctx.set_option(key, "nonsense");
    }
    assert_eq!(*ctx.solver.config(), config);
    assert_eq!(ctx.get_option("timeout").map(|x| x.as_str()), Some("nonsense"));
    assert_eq!(ctx.get_option("max-decisions").map(|x| x.as_str()), Some("nonsense"));
}

#[test]
fn terms_are_evaluated_in_a_model_only() {
    let mut ctx = Context::new();
    assert!(!ctx.can_evaluate());
    assert_in(&mut ctx, TRUE_TERM);
    assert_eq!(check_sat(&mut ctx), SolverResult::Sat);
    assert!(ctx.can_evaluate());
    assert_in(&mut ctx, FALSE_TERM);
    assert!(!ctx.can_evaluate());
}

#[test]
fn scopes_around_scopes_restore() {
    let mut ctx = Context::new();
    let p = named(&mut ctx, "p", BOOL_SORT);
    let q = named(&mut ctx, "q", BOOL_SORT);
    let not_p = ctx.terms.mk_not(p);
    assert_in(&mut ctx, p);
    let before = ctx.solver.goal.assertions.clone();
    ctx.push();
    assert_in(&mut ctx, q);
    assert_eq!(check_sat(&mut ctx), SolverResult::Sat);
    ctx.push();
    assert_in(&mut ctx, not_p);
    assert_eq!(check_sat(&mut ctx), SolverResult::Unsat);
    ctx.pop();
    assert_eq!(check_sat(&mut ctx), SolverResult::Sat);
    ctx.pop();
    assert_eq!(ctx.solver.goal.assertions, before);
    assert_eq!(ctx.solver.context_level(), 0);
    assert!(ctx.solver.model().is_none());
    ctx.pop();
    assert_eq!(ctx.solver.goal.assertions, before);
}

#[test]
fn forgetting_assertions_keeps_settings() {
    let mut ctx = Context::new();
    ctx.set_option(":produce-unsat-cores", "true");
    ctx.set_option(":max-conflicts", "7");
    ctx.solver.statistics.decisions = 3;
    for forget in [Context::restart, Context::reset_assertions, Context::reset] {
        forget(&mut ctx);
        assert!(ctx.solver.produce_unsat_cores);
        assert_eq!(ctx.solver.config().max_conflicts, 7);
        assert_eq!(ctx.solver.get_statistics().decisions, 3);
        assert!(ctx.solver.theory_aware_branching());
    }
}

#[test]
fn other_options_keep_the_verdict() {
    let mut ctx = Context::new();
    ctx.solver.remember_verdict(SolverResult::Sat);
    ctx.set_option(":print-success", "true");
    assert_eq!(ctx.solver.cached_verdict(), Some(SolverResult::Sat));
    ctx.set_option(":random-seed", "1");
    assert_eq!(ctx.solver.cached_verdict(), None);
}

#[test]
fn odd_sort_names_read_back() {
    let mut m = TermStore::new();
    let known = SortNames::new();
    for written in ["(Array f(x y) Int)", "(Array Int x()", "(Array Int )a b)", "(Array Int x)"] {
        let id = parse_sort_name(&mut m, &known, written);
        let shown = format_sort_name(&m, &known, id);
        assert_eq!(parse_sort_name(&mut m, &known, &shown), id);
    }
}
