//! Which contradictions between squares are found.

use crate::aliases::is_var;
use crate::ite_table::int_literal;
use crate::nonlinear::{
    all_atoms, atom_list, atoms_below, atoms_conflict, backend_for, comparison_atom, const_of,
    const_sum, equation_atoms, factors, integer_logic, linear_var, lower_bound_on, open_logic,
    perfect_square, pure_square, real_logic, square_conflict, square_equation, sum_conflict,
    sum_equation, summands, CompOp, NlAtom, NlBackend,
};
use crate::numbers::{lemma_whole_product, lemma_whole_quotient, lemma_whole_sum, Rat};
use crate::string_laws::conjunct;
use crate::terms::{node_below, numeric_sort, terms_wf, Op, SortKind, TermId, TermView, INT_SORT};
use crate::walk::subterm;
use vstd::prelude::*;

verus! {

/// The term is the whole number, or the opposite of one.
pub open spec fn is_whole_number(s: Seq<TermView>, t: TermId, n: int) -> bool {
    &&& t < s.len()
    &&& int_literal(s, t) == Some(n as i64) && n as i64 == n || (s[t as int].op == Op::Neg
        && s[t as int].args[0] < s.len() && int_literal(s, s[t as int].args[0]) == Some((-n) as i64)
        && (-n) as i64 == -n && n as i64 == n)
}

/// The term is the square of `x`, or that times a whole number, in any order.
pub open spec fn is_square(s: Seq<TermView>, t: TermId, x: TermId, k: int) -> bool {
    &&& t < s.len() && s[t as int].op == Op::Mul && is_var(s, x)
    &&& {
        ||| k == 1 && s[t as int].args == seq![x, x]
        ||| exists|c: TermId| #[trigger]
            int_literal(s, c) == Some(k as i64) && k as i64 == k && (s[t as int].args == seq![
                c,
                x,
                x,
            ] || s[t as int].args == seq![x, c, x] || s[t as int].args == seq![x, x, c])
    }
}

/// `e` is one of the conjuncts of the assertions.
pub open spec fn is_stated(s: Seq<TermView>, given: Seq<TermId>, e: TermId) -> bool {
    e < s.len() && exists|k: int| 0 <= k < given.len() && conjunct(s, #[trigger] given[k], e)
}

proof fn lemma_conjunct_atoms(s: Seq<TermView>, t: TermId, e: TermId, a: NlAtom)
    requires
        terms_wf(s),
        t < s.len(),
        conjunct(s, t, e),
        atom_list(s, e).contains(a),
    ensures
        atom_list(s, t).contains(a),
    decreases t, s[t as int].args.len() + 1,
{
    if t != e {
        let k = choose|k: int|
            0 <= k < s[t as int].args.len() && #[trigger] s[t as int].args[k] < t && conjunct(
                s,
                s[t as int].args[k],
                e,
            );
        lemma_conjunct_atoms(s, s[t as int].args[k], e, a);
        lemma_atoms_below(s, t, k, s[t as int].args.len() as int, a);
    }
}

proof fn lemma_atoms_below(s: Seq<TermView>, t: TermId, k: int, n: int, a: NlAtom)
    requires
        terms_wf(s),
        t < s.len(),
        0 <= k < n <= s[t as int].args.len(),
        atom_list(s, s[t as int].args[k]).contains(a),
    ensures
        atoms_below(s, t, n).contains(a),
    decreases n,
{
    assert(node_below(s, t as int));
    assert(s[t as int].args[n - 1] < t);
    let front = atoms_below(s, t, n - 1);
    let last = atom_list(s, s[t as int].args[n - 1]);
    if k < n - 1 {
        lemma_atoms_below(s, t, k, n - 1, a);
        assert((front + last)[front.index_of(a)] == a);
    } else {
        assert((front + last)[front.len() + last.index_of(a)] == a);
    }
}

proof fn lemma_all_atoms(s: Seq<TermView>, given: Seq<TermId>, n: int, k: int, a: NlAtom)
    requires
        0 <= k < n <= given.len(),
        atom_list(s, given[k]).contains(a),
    ensures
        all_atoms(s, given, n).contains(a),
    decreases n,
{
    let front = all_atoms(s, given, n - 1);
    let last = atom_list(s, given[n - 1]);
    if k < n - 1 {
        lemma_all_atoms(s, given, n - 1, k, a);
        assert((front + last)[front.index_of(a)] == a);
    } else {
        assert((front + last)[front.len() + last.index_of(a)] == a);
    }
}

/// What a conjunct says of squares and variables, the assertions say.
pub proof fn conjuncts_are_read(s: Seq<TermView>, given: Seq<TermId>, e: TermId, a: NlAtom)
    requires
        terms_wf(s),
        forall|k: int| 0 <= k < given.len() ==> (#[trigger] given[k]) < s.len(),
        is_stated(s, given, e),
        atom_list(s, e).contains(a),
    ensures
        all_atoms(s, given, given.len() as int).contains(a),
{
    let k = choose|k: int| 0 <= k < given.len() && conjunct(s, #[trigger] given[k], e);
    lemma_conjunct_atoms(s, given[k], e, a);
    lemma_all_atoms(s, given, given.len() as int, k, a);
}

proof fn lemma_factors(s: Seq<TermView>, t: TermId, x: TermId, k: int)
    requires
        is_square(s, t, x, k),
    ensures
        pure_square(s, t) == Some((x, Rat { num: k as i64, den: 1 })),
        k as i64 == k,
{
    let args = s[t as int].args;
    reveal_with_fuel(factors, 4);
    let one = Rat { num: 1, den: 1 };
    if k == 1 && args == seq![x, x] {
        assert(factors(s, args, 1) == Some((one, seq![x])));
        assert(factors(s, args, 2) == Some((one, seq![x].push(x))));
    } else {
        let c = choose|c: TermId| #[trigger]
            int_literal(s, c) == Some(k as i64) && k as i64 == k && (args == seq![c, x, x] || args
                == seq![x, c, x] || args == seq![x, x, c]);
        lemma_whole_product(1, k as i64);
        assert(1 * k == k);
        let q = Rat { num: k as i64, den: 1 };
        assert(!is_var(s, c));
        assert(crate::nonlinear::numeral(s, c) == Some(q));
        let none = Seq::<TermId>::empty();
        assert(factors(s, args, 0) == Some((one, none)));
        if args == seq![c, x, x] {
            assert(factors(s, args, 1) == Some((q, none)));
            assert(factors(s, args, 2) == Some((q, none.push(x))));
            assert(factors(s, args, 3) == Some((q, none.push(x).push(x))));
        } else if args == seq![x, c, x] {
            assert(factors(s, args, 1) == Some((one, none.push(x))));
            assert(factors(s, args, 2) == Some((q, none.push(x))));
            assert(factors(s, args, 3) == Some((q, none.push(x).push(x))));
        } else {
            assert(factors(s, args, 1) == Some((one, none.push(x))));
            assert(factors(s, args, 2) == Some((one, none.push(x).push(x))));
            assert(factors(s, args, 3) == Some((q, none.push(x).push(x))));
        }
    }
}

proof fn lemma_whole_number(s: Seq<TermView>, t: TermId, n: int)
    requires
        terms_wf(s),
        is_whole_number(s, t, n),
    ensures
        const_of(s, t) == Some(Rat { num: n as i64, den: 1 }),
        n as i64 == n,
        pure_square(s, t) is None,
        s[t as int].op != Op::Add,
{
    assert(node_below(s, t as int));
    if int_literal(s, t) != Some(n as i64) {
        let a = s[t as int].args[0];
        assert(a < t);
        assert(const_of(s, a) == Some(Rat { num: (-n) as i64, den: 1 }));
    }
}

/// The square of a variable, times a whole number or not, that is to equal a whole
/// number makes a conflict: where the quotient is negative, and for an integer
/// variable where it is no square.
pub proof fn impossible_squares_conflict(
    s: Seq<TermView>,
    given: Seq<TermId>,
    e: TermId,
    t: TermId,
    c: TermId,
    x: TermId,
    k: int,
    m: int,
)
    requires
        terms_wf(s),
        forall|k: int| 0 <= k < given.len() ==> (#[trigger] given[k]) < s.len(),
        is_stated(s, given, e),
        s[e as int].op == Op::Eq,
        s[e as int].args == seq![t, c] || s[e as int].args == seq![c, t],
        numeric_sort(s[s[e as int].args[0] as int].sort),
        is_square(s, t, x, k),
        is_whole_number(s, c, k * m),
        k != 0 && k != i64::MIN && i64::MIN <= m <= i64::MAX,
        m < 0 || (s[x as int].sort == INT_SORT && !(exists|r: int| #[trigger] (r * r) == m)),
    ensures
        atoms_conflict(all_atoms(s, given, given.len() as int)),
{
    let l = s[e as int].args[0];
    let r = s[e as int].args[1];
    assert(node_below(s, e as int));
    lemma_factors(s, t, x, k);
    lemma_whole_number(s, c, k * m);
    lemma_whole_quotient(m as i64, k as i64);
    let a = NlAtom::SqEq {
        sq_term: x,
        val: Rat { num: m as i64, den: 1 },
        is_integer_sort: s[x as int].sort == INT_SORT,
    };
    assert(square_equation(s, t, c) == Some(a));
    assert(equation_atoms(s, l, r) == seq![a]) by {
        if l == c {
            assert(square_equation(s, c, t) is None);
        }
    }
    assert(atom_list(s, e)[0] == a);
    conjuncts_are_read(s, given, e, a);
    let atoms = all_atoms(s, given, given.len() as int);
    let j = atoms.index_of(a);
    assert(m / 1 == m);
    if m >= 0 {
        assert forall|r: int| !#[trigger] crate::nonlinear::is_root(r, m) by {
            assert(r * r != m);
        }
        assert(!perfect_square(m));
    }
    assert(square_conflict(atoms[j]));
}

/// The conjunct says that `a` is greater than `b`, or at least `b` where it is not
/// `strict`.
pub open spec fn says_above(s: Seq<TermView>, e: TermId, a: TermId, b: TermId, strict: bool) -> bool {
    ||| s[e as int].op == Op::Gt && s[e as int].args == seq![a, b]
    ||| s[e as int].op == Op::Lt && s[e as int].args == seq![b, a]
    ||| !strict && s[e as int].op == Op::Ge && s[e as int].args == seq![a, b]
    ||| !strict && s[e as int].op == Op::Le && s[e as int].args == seq![b, a]
}

proof fn lemma_sum_atom(
    s: Seq<TermView>,
    e: TermId,
    sum: TermId,
    x: TermId,
    y: TermId,
    square: TermId,
    c: TermId,
    n: int,
)
    requires
        terms_wf(s),
        e < s.len(),
        is_square(s, square, x, 1),
        is_var(s, y),
        s[e as int].op == Op::Eq,
        s[e as int].args == seq![sum, c] || s[e as int].args == seq![c, sum],
        numeric_sort(s[s[e as int].args[0] as int].sort),
        sum < s.len() && s[sum as int].op == Op::Add,
        s[sum as int].args == seq![square, y] || s[sum as int].args == seq![y, square],
        is_whole_number(s, c, n),
    ensures
        atom_list(s, e).contains(
            NlAtom::SqPlusLinearEq {
                sq_term: x,
                sq_coeff: Rat { num: 1, den: 1 },
                linear_var: y,
                linear_coeff: Rat { num: 1, den: 1 },
                rhs: Rat { num: n as i64, den: 1 },
            },
        ),
{
    let one = Rat { num: 1, den: 1 };
    lemma_factors(s, square, x, 1);
    lemma_whole_number(s, c, n);
    let args = s[sum as int].args;
    assert(linear_var(s, y, one) == Some((y, one)));
    assert(pure_square(s, y) is None);
    assert(summands(s, args, 0) == Some((None::<(TermId, Rat)>, None::<(TermId, Rat)>)));
    if args == seq![square, y] {
        assert(summands(s, args, 1) == Some((Some((x, one)), None::<(TermId, Rat)>)));
    } else {
        assert(summands(s, args, 1) == Some((None::<(TermId, Rat)>, Some((y, one)))));
    }
    assert(summands(s, args, 2) == Some((Some((x, one)), Some((y, one)))));
    let p = NlAtom::SqPlusLinearEq {
        sq_term: x,
        sq_coeff: one,
        linear_var: y,
        linear_coeff: one,
        rhs: Rat { num: n as i64, den: 1 },
    };
    assert(sum_equation(s, sum, c) == Some(p));
    assert(sum_equation(s, c, sum) is None);
    assert(node_below(s, e as int));
    assert(pure_square(s, sum) is None);
    let l = s[e as int].args[0];
    let r = s[e as int].args[1];
    assert(square_equation(s, l, r) is None && square_equation(s, r, l) is None);
    assert(equation_atoms(s, l, r) =~= seq![p]);
    assert(atom_list(s, e) == equation_atoms(s, l, r));
    assert(atom_list(s, e)[0] == p);
}

proof fn lemma_positive_atom(s: Seq<TermView>, e: TermId, square: TermId, x: TermId, zero: TermId)
    requires
        terms_wf(s),
        e < s.len(),
        is_square(s, square, x, 1),
        is_whole_number(s, zero, 0),
        says_above(s, e, square, zero, true),
    ensures
        atom_list(s, e).contains(NlAtom::SqGtZero { sq_term: x }),
{
    lemma_factors(s, square, x, 1);
    lemma_whole_number(s, zero, 0);
    lemma_whole_quotient(0, 1);
    let q = NlAtom::SqGtZero { sq_term: x };
    assert(comparison_atom(s, square, zero, CompOp::Gt) == Some(q));
    assert(atom_list(s, e) == crate::nonlinear::listed(Some(q)));
    assert(atom_list(s, e)[0] == q);
}

proof fn lemma_bound_atom(s: Seq<TermView>, e: TermId, y: TermId, d: TermId, low: int) -> (b: NlAtom)
    requires
        terms_wf(s),
        e < s.len(),
        is_var(s, y),
        says_above(s, e, y, d, false),
        is_whole_number(s, d, low),
    ensures
        atom_list(s, e).contains(b),
        lower_bound_on(b, y) == Some(Rat { num: low as i64, den: 1 }),
{
    let one = Rat { num: 1, den: 1 };
    lemma_whole_number(s, d, low);
    lemma_whole_quotient(low as i64, 1);
    assert(1 * low == low);
    assert(linear_var(s, y, one) == Some((y, one)));
    assert(pure_square(s, y) is None);
    let op = if s[e as int].op == Op::Gt || s[e as int].op == Op::Lt {
        CompOp::Gt
    } else {
        CompOp::Ge
    };
    let a = comparison_atom(s, y, d, op);
    assert(a is Some);
    assert(atom_list(s, e) == crate::nonlinear::listed(a));
    assert(atom_list(s, e)[0] == a->0);
    a->0
}

/// The sum of a square of `x` and `y` that is to equal a number makes a conflict
/// where the square is to be positive and `y` is to be no less than the number.
pub proof fn squares_leave_no_room(
    s: Seq<TermView>,
    given: Seq<TermId>,
    es: (TermId, TermId, TermId),
    sum: TermId,
    x: TermId,
    y: TermId,
    squares: (TermId, TermId),
    c: TermId,
    zero: TermId,
    d: TermId,
    n: int,
    low: int,
)
    requires
        terms_wf(s),
        forall|k: int| 0 <= k < given.len() ==> (#[trigger] given[k]) < s.len(),
        is_stated(s, given, es.0) && is_stated(s, given, es.1) && is_stated(s, given, es.2),
        is_square(s, squares.0, x, 1) && is_square(s, squares.1, x, 1),
        is_var(s, y),
        s[es.0 as int].op == Op::Eq,
        s[es.0 as int].args == seq![sum, c] || s[es.0 as int].args == seq![c, sum],
        numeric_sort(s[s[es.0 as int].args[0] as int].sort),
        sum < s.len() && s[sum as int].op == Op::Add,
        s[sum as int].args == seq![squares.0, y] || s[sum as int].args == seq![y, squares.0],
        is_whole_number(s, c, n),
        says_above(s, es.1, squares.1, zero, true),
        is_whole_number(s, zero, 0),
        says_above(s, es.2, y, d, false),
        is_whole_number(s, d, low),
        low >= n,
    ensures
        atoms_conflict(all_atoms(s, given, given.len() as int)),
{
    let one = Rat { num: 1, den: 1 };
    let p = NlAtom::SqPlusLinearEq {
        sq_term: x,
        sq_coeff: one,
        linear_var: y,
        linear_coeff: one,
        rhs: Rat { num: n as i64, den: 1 },
    };
    let q = NlAtom::SqGtZero { sq_term: x };
    lemma_sum_atom(s, es.0, sum, x, y, squares.0, c, n);
    lemma_positive_atom(s, es.1, squares.1, x, zero);
    let b = lemma_bound_atom(s, es.2, y, d, low);
    conjuncts_are_read(s, given, es.0, p);
    conjuncts_are_read(s, given, es.1, q);
    conjuncts_are_read(s, given, es.2, b);
    let atoms = all_atoms(s, given, given.len() as int);
    let (i, j, k) = (atoms.index_of(p), atoms.index_of(q), atoms.index_of(b));
    lemma_whole_number(s, c, n);
    lemma_whole_number(s, d, low);
    lemma_whole_quotient(n as i64, 1);
    assert(1 * n == n);
    assert(n as real / 1real <= low as real / 1real) by (nonlinear_arith)
        requires
            n <= low,
    ;
    assert(sum_conflict(atoms[i], atoms[j], atoms[k]));
}

/// Conflicts between squares are looked for just where a nonlinear solver is asked:
/// and it is that of the integers wherever an open logic is used on integers.
pub proof fn backends_and_conflicts_go_together(
    logic: Seq<char>,
    nonlinear: bool,
    s: Seq<TermView>,
    sorts: Seq<SortKind>,
    given: Seq<TermId>,
    k: int,
    x: TermId,
)
    requires
        0 <= k < given.len(),
        subterm(s, given[k], x),
        x < s.len(),
    ensures
        backend_for(logic, nonlinear, s, sorts, given) is Some <==> integer_logic(logic)
            || real_logic(logic) || (open_logic(logic) && nonlinear),
        s[x as int].sort == INT_SORT && (s[x as int].op == Op::Var || s[x as int].op == Op::Mul)
            && !real_logic(logic) ==> backend_for(logic, nonlinear, s, sorts, given) != Some(
            NlBackend::Nra,
        ),
        s[x as int].op == Op::Select && !real_logic(logic) ==> backend_for(
            logic,
            nonlinear,
            s,
            sorts,
            given,
        ) != Some(NlBackend::Nra),
{
}

/// A difference of whole constants, and a sum of two, is the whole constant that it
/// comes to.
pub proof fn constant_sums_are_read(
    s: Seq<TermView>,
    t: TermId,
    a: TermId,
    b: TermId,
    x: i64,
    y: i64,
)
    requires
        terms_wf(s),
        t < s.len(),
        s[t as int].args == seq![a, b],
        const_of(s, a) == Some(Rat { num: x, den: 1 }),
        const_of(s, b) == Some(Rat { num: y, den: 1 }),
        y != i64::MIN,
        i64::MIN <= x - y <= i64::MAX,
        i64::MIN <= x + y <= i64::MAX,
    ensures
        s[t as int].op == Op::Sub ==> const_of(s, t) == Some(
            Rat { num: (x - y) as i64, den: 1 },
        ),
        s[t as int].op == Op::Add ==> const_of(s, t) == Some(
            Rat { num: (x + y) as i64, den: 1 },
        ),
{
    assert(node_below(s, t as int));
    assert(a < t && b < t) by {
        assert(s[t as int].args[0] < t && s[t as int].args[1] < t);
    }
    lemma_whole_sum(x, (-y) as i64);
    lemma_whole_sum(x, y);
    lemma_whole_sum(0, x);
    if s[t as int].op == Op::Add {
        assert(const_sum(s, t, 0) == Some(Rat { num: 0, den: 1 }));
        assert(const_sum(s, t, 1) == Some(Rat { num: x, den: 1 }));
        assert(const_sum(s, t, 2) == Some(Rat { num: (x + y) as i64, den: 1 }));
    }
}

/// Multiples and opposites of variables are read, with the factor on either side.
pub proof fn multiples_are_read(s: Seq<TermView>, t: TermId, y: TermId, c: TermId, k: i64)
    requires
        terms_wf(s),
        t < s.len(),
        is_var(s, y),
        int_literal(s, c) == Some(k),
    ensures
        s[t as int].op == Op::Neg && s[t as int].args == seq![y] ==> linear_var(
            s,
            t,
            Rat { num: 1, den: 1 },
        ) == Some((y, Rat { num: -1i64, den: 1 })),
        s[t as int].op == Op::Mul && (s[t as int].args == seq![c, y] || s[t as int].args == seq![
            y,
            c,
        ]) ==> linear_var(s, t, Rat { num: 1, den: 1 }) == Some((y, Rat { num: k, den: 1 })),
{
    let one = Rat { num: 1, den: 1 };
    let q = Rat { num: k, den: 1 };
    let none = Seq::<TermId>::empty();
    let args = s[t as int].args;
    assert(node_below(s, t as int));
    if s[t as int].op == Op::Neg && args == seq![y] {
        assert(s[t as int].args[0] < t);
        assert(linear_var(s, y, Rat { num: -1i64, den: 1 }) == Some(
            (y, Rat { num: -1i64, den: 1 }),
        ));
    }
    if s[t as int].op == Op::Mul && (args == seq![c, y] || args == seq![y, c]) {
        lemma_whole_product(1, k);
        assert(1 * k == k);
        assert(!is_var(s, c));
        assert(crate::nonlinear::numeral(s, c) == Some(q));
        assert(factors(s, args, 0) == Some((one, none)));
        if args == seq![c, y] {
            assert(factors(s, args, 1) == Some((q, none)));
        } else {
            assert(factors(s, args, 1) == Some((one, none.push(y))));
        }
        assert(factors(s, args, 2) == Some((q, none.push(y))));
        assert(none.push(y)[0] == y);
    }
}

/// A logic that names nonlinear integer arithmetic, alone or mixed, goes to the
/// solver for integers, and one that names nonlinear real arithmetic alone to that
/// for reals.
pub proof fn logics_name_their_solver(
    before: Seq<char>,
    behind: Seq<char>,
    nonlinear: bool,
    s: Seq<TermView>,
    sorts: Seq<SortKind>,
    given: Seq<TermId>,
)
    ensures
        backend_for(before + seq!['N', 'I', 'A'] + behind, nonlinear, s, sorts, given) == Some(
            NlBackend::Nia,
        ),
        backend_for(before + seq!['N', 'I', 'R', 'A'] + behind, nonlinear, s, sorts, given) == Some(
            NlBackend::Nia,
        ),
        !integer_logic(before + seq!['N', 'R', 'A'] + behind) ==> backend_for(
            before + seq!['N', 'R', 'A'] + behind,
            nonlinear,
            s,
            sorts,
            given,
        ) == Some(NlBackend::Nra),
        open_logic(Seq::<char>::empty()) && open_logic(seq!['A', 'L', 'L']) && open_logic(
            seq!['a', 'l', 'l'],
        ),
{
    lemma_named(before, seq!['N', 'I', 'A'], behind);
    lemma_named(before, seq!['N', 'I', 'R', 'A'], behind);
    lemma_named(before, seq!['N', 'R', 'A'], behind);
}

proof fn lemma_named(before: Seq<char>, word: Seq<char>, behind: Seq<char>)
    ensures
        crate::strings::occurs(word, before + word + behind),
{
    let all = before + word + behind;
    let k = before.len() as int;
    let found = all.subrange(k, k + word.len());
    assert(found.len() == word.len());
    assert forall|j: int| 0 <= j < word.len() implies found[j] == word[j] by {
        assert(found[j] == all[k + j]);
    }
    assert(found =~= word);
    assert(crate::strings::occurs_at(word, all, k));
}

} // verus!
