use oxiz_solver::purify_arith::{
    allocate_fresh, is_array_structural_assertion, is_interface_equality, purify_assertion, PurifyState,
};
use oxiz_solver::terms::{Data, Op, SortId, SortKind, Symbol, TermId, TermStore, BOOL_SORT, INT_SORT};

fn var(tm: &mut TermStore, name: &str, sort: SortId) -> TermId {
    let n = tm.intern_name(name.to_string());
    tm.mk_var(Symbol::User(n), sort)
}

fn select(tm: &mut TermStore, a: TermId, i: TermId) -> TermId {
    tm.intern(Op::Select, vec![a, i], Data::Plain, INT_SORT)
}

fn term_has_select_under_mul(term: TermId, tm: &TermStore) -> bool {
    let mut stack = vec![(term, false)];
    while let Some((id, in_mul)) = stack.pop() {
        let n = &tm.nodes[id];
        match n.op {
            Op::Mul => {
                for &a in &n.args {
                    stack.push((a, true));
                }
            }
            Op::Select if in_mul => return true,
            Op::Add
            | Op::And
            | Op::Or
            | Op::Eq
            | Op::Sub
            | Op::Div
            | Op::Mod
            | Op::Lt
            | Op::Le
            | Op::Gt
            | Op::Ge
            | Op::Neg
            | Op::Not => {
                for &a in &n.args {
                    stack.push((a, in_mul));
                }
            }
            Op::Ite => {
                stack.push((n.args[0], false));
                stack.push((n.args[1], in_mul));
                stack.push((n.args[2], in_mul));
            }
            _ => {}
        }
    }
    false
}

struct Selects {
    tm: TermStore,
    a: TermId,
    b: TermId,
    sa: TermId,
    sb: TermId,
}

fn selects() -> Selects {
    let mut tm = TermStore::new();
    let arr_s = tm.intern_sort(SortKind::Array { domain: INT_SORT, range: INT_SORT });
    let a = var(&mut tm, "A", arr_s);
    let b = var(&mut tm, "B", arr_s);
    let i = var(&mut tm, "i", INT_SORT);
    let j = var(&mut tm, "j", INT_SORT);
    let sa = select(&mut tm, a, i);
    let sb = select(&mut tm, b, j);
    Selects { tm, a, b, sa, sb }
}

#[test]
fn purifies_select_product() {
    let Selects { mut tm, sa, sb, .. } = selects();
    let prod = tm.mk_mul(vec![sa, sb], INT_SORT);
    let six = tm.mk_int(6);
    let eq = tm.mk_eq(prod, six);

    let mut state = PurifyState::new();
    let r = purify_assertion(eq, &mut tm, &mut state);
    assert_eq!(r.interface.len(), 2);
    assert!(!term_has_select_under_mul(r.term, &tm));
}

#[test]
fn purified_bounds_share_their_variables() {
    let Selects { mut tm, sa, sb, .. } = selects();
    let one = tm.mk_int(1);
    let three = tm.mk_int(3);
    let seven = tm.mk_int(7);
    let ge_a = tm.mk_ge(sa, one);
    let le_a = tm.mk_le(sa, three);
    let ge_b = tm.mk_ge(sb, one);
    let le_b = tm.mk_le(sb, three);
    let prod = tm.mk_mul(vec![sa, sb], INT_SORT);
    let eq_prod = tm.mk_eq(prod, seven);
    let mut state = PurifyState::new();
    for t in [ge_a, le_a, ge_b, le_b, eq_prod] {
        let r = purify_assertion(t, &mut tm, &mut state);
        assert!(!term_has_select_under_mul(r.term, &tm));
    }
    assert_eq!(state.origins, vec![sa, sb]);
}

#[test]
fn pure_assertions_stay() {
    let mut tm = TermStore::new();
    let x = var(&mut tm, "x", INT_SORT);
    let one = tm.mk_int(1);
    let ge = tm.mk_ge(x, one);
    let mut state = PurifyState::new();
    let r = purify_assertion(ge, &mut tm, &mut state);
    assert_eq!(r.term, ge);
    assert_eq!(r.interface.len(), 0);
}

#[test]
fn array_equations_are_structural() {
    let Selects { mut tm, a, b, sa, .. } = selects();
    let eq = tm.mk_eq(a, b);
    assert!(is_array_structural_assertion(eq, &tm));
    let x = var(&mut tm, "x", INT_SORT);
    let y = var(&mut tm, "y", INT_SORT);
    let le = tm.mk_le(x, y);
    assert!(!is_array_structural_assertion(le, &tm));
    let p = var(&mut tm, "p", BOOL_SORT);
    assert!(!is_interface_equality(p, &tm));
    let one = tm.mk_int(1);
    let sum = tm.mk_mul(vec![sa, x], INT_SORT);
    let product = tm.mk_eq(sum, one);
    let mut state = PurifyState::new();
    let r = purify_assertion(product, &mut tm, &mut state);
    let interface = tm.mk_eq(r.interface[0].0, r.interface[0].1);
    assert!(is_interface_equality(interface, &tm));
}

#[test]
fn fresh_variables_stand_for_one_term_each() {
    let mut tm = TermStore::new();
    let x = var(&mut tm, "x", INT_SORT);
    let y = var(&mut tm, "y", INT_SORT);
    let mut state = PurifyState::new();
    let mut first = Vec::new();
    let vx = allocate_fresh(x, INT_SORT, &mut tm, &mut state, &mut first);
    let vy = allocate_fresh(y, INT_SORT, &mut tm, &mut state, &mut first);
    assert_ne!(vx, vy);
    assert_eq!(allocate_fresh(x, INT_SORT, &mut tm, &mut state, &mut first), vx);
    assert_eq!(first, vec![(vx, x), (vy, y)]);
    let mut second = Vec::new();
    assert_eq!(allocate_fresh(y, INT_SORT, &mut tm, &mut state, &mut second), vy);
    assert_eq!(second, vec![(vy, y)]);
    assert_eq!((tm.nodes[vx].op, tm.nodes[vx].sort), (Op::Var, INT_SORT));
}
