//! Which terms have a linear form.

use crate::linear::{
    classify, combine, finish_product, lin, lin_empty, lin_product, lin_sum, parses_as, push_term,
    rat_minus_one, rat_one, rat_zero, Lin,
};
use crate::numbers::{fits, lemma_whole_product, lemma_whole_sum, rat_neg, signed_value, Rat};
use crate::terms::{node_below, numeric_sort, terms_wf, DataView, Op, TermId, TermView, INT_SORT};
use vstd::prelude::*;

verus! {

/// The whole number that a numeral is.
pub open spec fn whole_numeral(node: TermView) -> Option<int> {
    match (node.op, node.data) {
        (Op::IntConst, DataView::Int(neg, d)) => Some(signed_value(neg, d)),
        (Op::RealConst, DataView::Real(r)) => if r.den == 1 {
            Some(r.num as int)
        } else {
            None
        },
        _ => None,
    }
}

/// A term that arithmetic does not look into.
pub open spec fn opaque_number(node: TermView) -> bool {
    match node.op {
        Op::Var => true,
        Op::Apply | Op::Select | Op::DtSelector | Op::Ite => numeric_sort(node.sort),
        Op::Div | Op::Mod => node.sort == INT_SORT,
        _ => false,
    }
}

/// Built of whole numerals by sums, differences, opposites and products.
pub open spec fn numeral_term(s: Seq<TermView>, t: TermId) -> bool
    decreases t,
{
    match s[t as int].op {
        Op::IntConst | Op::RealConst => whole_numeral(s[t as int]) is Some,
        Op::Add | Op::Sub | Op::Neg | Op::Mul => forall|k: int|
            0 <= k < s[t as int].args.len() ==> (#[trigger] s[t as int].args[k]) < t
                && numeral_term(s, s[t as int].args[k]),
        _ => false,
    }
}

/// A multiple of one opaque term: the term, its opposite, or a product of one
/// multiple with numerals.
pub open spec fn multiple_term(s: Seq<TermView>, t: TermId) -> bool
    decreases t,
{
    opaque_number(s[t as int]) || match s[t as int].op {
        Op::Neg => s[t as int].args[0] < t && multiple_term(s, s[t as int].args[0]),
        Op::Mul => exists|j: int| #[trigger] one_multiple(s, t, j) && s[t as int].args[j] < t
            && multiple_term(s, s[t as int].args[j]),
        _ => false,
    }
}

/// All factors but the `j`-th are numerals.
pub open spec fn one_multiple(s: Seq<TermView>, t: TermId, j: int) -> bool {
    &&& 0 <= j < s[t as int].args.len()
    &&& forall|k: int|
        0 <= k < s[t as int].args.len() && k != j ==> (#[trigger] s[t as int].args[k]) < t
            && numeral_term(s, s[t as int].args[k])
}

/// Built of numerals and multiples by sums, differences and opposites.
pub open spec fn linear_term(s: Seq<TermView>, t: TermId) -> bool
    decreases t,
{
    numeral_term(s, t) || multiple_term(s, t) || match s[t as int].op {
        Op::Add | Op::Sub | Op::Neg => forall|k: int|
            0 <= k < s[t as int].args.len() ==> (#[trigger] s[t as int].args[k]) < t
                && linear_term(s, s[t as int].args[k]),
        _ => false,
    }
}

pub open spec fn absolute(n: int) -> int {
    if n < 0 {
        -n
    } else {
        n
    }
}

pub open spec fn at_least_one(n: int) -> int {
    if n < 1 {
        1
    } else {
        n
    }
}

/// How large the numbers are that come up when the term is read.
pub open spec fn size(s: Seq<TermView>, t: TermId) -> int
    decreases t, 1int, 0int,
{
    match s[t as int].op {
        Op::IntConst | Op::RealConst => match whole_numeral(s[t as int]) {
            Some(n) => absolute(n),
            None => 0,
        },
        Op::Add | Op::Sub | Op::Neg => size_sum(s, t, 0),
        Op::Mul => size_product(s, t, 0),
        _ => 1,
    }
}

pub open spec fn size_sum(s: Seq<TermView>, t: TermId, k: int) -> int
    decreases t, 0int, s[t as int].args.len() - k,
{
    if 0 <= k < s[t as int].args.len() && s[t as int].args[k] < t {
        size(s, s[t as int].args[k]) + size_sum(s, t, k + 1)
    } else {
        0
    }
}

pub open spec fn size_product(s: Seq<TermView>, t: TermId, k: int) -> int
    decreases t, 0int, s[t as int].args.len() - k,
{
    if 0 <= k < s[t as int].args.len() && s[t as int].args[k] < t {
        at_least_one(size(s, s[t as int].args[k])) * size_product(s, t, k + 1)
    } else {
        1
    }
}

proof fn lemma_size(s: Seq<TermView>, t: TermId)
    ensures
        size(s, t) >= 0,
    decreases t, 1int, 0int,
{
    lemma_size_sum(s, t, 0);
    lemma_size_product(s, t, 0);
}

proof fn lemma_size_sum(s: Seq<TermView>, t: TermId, k: int)
    ensures
        size_sum(s, t, k) >= 0,
    decreases t, 0int, s[t as int].args.len() - k,
{
    if 0 <= k < s[t as int].args.len() && s[t as int].args[k] < t {
        lemma_size(s, s[t as int].args[k]);
        lemma_size_sum(s, t, k + 1);
    }
}

proof fn lemma_size_product(s: Seq<TermView>, t: TermId, k: int)
    ensures
        size_product(s, t, k) >= 1,
    decreases t, 0int, s[t as int].args.len() - k,
{
    if 0 <= k < s[t as int].args.len() && s[t as int].args[k] < t {
        lemma_size_product(s, t, k + 1);
        let (a, b) = (at_least_one(size(s, s[t as int].args[k])), size_product(s, t, k + 1));
        assert(a * b >= 1) by (nonlinear_arith)
            requires
                a >= 1,
                b >= 1,
        ;
    }
}

/// The magnitudes of the coefficients added up.
pub open spec fn magnitude_of(terms: Seq<(TermId, Rat)>) -> int
    decreases terms.len(),
{
    if terms.len() == 0 {
        0
    } else {
        magnitude_of(terms.drop_last()) + absolute(terms.last().1.num as int)
    }
}

pub open spec fn whole_form(l: Lin) -> bool {
    &&& l.constant.den == 1
    &&& forall|k: int| 0 <= k < l.terms.len() ==> (#[trigger] l.terms[k]).1.den == 1
}

/// What reading `t` at scale `sc` onto `acc` came to.
spec fn read_well(s: Seq<TermView>, t: TermId, sc: Rat, acc: Lin, r: Option<Lin>) -> bool {
    match r {
        None => false,
        Some(l) => {
            &&& whole_form(l)
            &&& magnitude_of(l.terms) + absolute(l.constant.num as int) <= magnitude_of(acc.terms)
                + absolute(acc.constant.num as int) + absolute(sc.num as int) * size(s, t)
            &&& absolute(l.constant.num as int) <= absolute(acc.constant.num as int) + absolute(
                sc.num as int,
            ) * size(s, t)
            &&& numeral_term(s, t) ==> l.terms == acc.terms
            &&& !numeral_term(s, t) && multiple_term(s, t) ==> l.constant == acc.constant
                && l.terms.len() == acc.terms.len() + 1 && l.terms.drop_last() == acc.terms
                && absolute(l.terms.last().1.num as int) <= absolute(sc.num as int) * size(s, t)
        },
    }
}

spec fn roomy(s: Seq<TermView>, t: TermId, sc: Rat, acc: Lin) -> bool {
    &&& sc.den == 1
    &&& whole_form(acc)
    &&& at_least_one(absolute(sc.num as int)) * size(s, t) + absolute(acc.constant.num as int)
        <= i64::MAX
    &&& absolute(sc.num as int) <= i64::MAX
}

proof fn lemma_exclusive(s: Seq<TermView>, t: TermId)
    requires
        multiple_term(s, t),
        node_below(s, t as int),
        terms_wf(s),
        t < s.len(),
    ensures
        !numeral_term(s, t),
    decreases t,
{
    if !opaque_number(s[t as int]) {
        match s[t as int].op {
            Op::Neg => {
                assert(node_below(s, s[t as int].args[0] as int));
                lemma_exclusive(s, s[t as int].args[0]);
            },
            Op::Mul => {
                let j = choose|j: int| #[trigger]
                    one_multiple(s, t, j) && s[t as int].args[j] < t && multiple_term(
                        s,
                        s[t as int].args[j],
                    );
                assert(node_below(s, s[t as int].args[j] as int));
                lemma_exclusive(s, s[t as int].args[j]);
            },
            _ => {},
        }
    }
}

proof fn lemma_products(a: int, b: int, c: int)
    requires
        absolute(b) <= c,
    ensures
        absolute(a * b) == absolute(a) * absolute(b),
        absolute(a * b) <= absolute(a) * c,
        absolute(a) * c <= at_least_one(absolute(a)) * c,
        0 <= absolute(a) * c,
{
    let (x, y) = (absolute(a), absolute(b));
    assert(absolute(a * b) == x * y) by (nonlinear_arith)
        requires
            x == absolute(a),
            y == absolute(b),
    ;
    assert(x * y <= x * c) by (nonlinear_arith)
        requires
            y <= c,
            x >= 0,
    ;
    assert(0 <= x * c <= at_least_one(x) * c) by (nonlinear_arith)
        requires
            x >= 0,
            c >= 0,
    ;
}

proof fn lemma_reads(s: Seq<TermView>, t: TermId, sc: Rat, acc: Lin)
    requires
        terms_wf(s),
        t < s.len(),
        linear_term(s, t),
        roomy(s, t, sc, acc),
    ensures
        read_well(s, t, sc, acc, lin(s, t as int, sc, acc)),
    decreases t, 1int, 0int,
{
    assert(node_below(s, t as int));
    lemma_size(s, t);
    if multiple_term(s, t) {
        lemma_exclusive(s, t);
    }
    let node = s[t as int];
    let n = sc.num as int;
    match node.op {
        Op::IntConst | Op::RealConst => {
            let v = whole_numeral(node)->0;
            lemma_products(n, v, absolute(v));
            assert(at_least_one(absolute(n)) * absolute(v) >= absolute(v)) by (nonlinear_arith)
                requires
                    at_least_one(absolute(n)) >= 1,
                    absolute(v) >= 0,
            ;
            assert(fits(v));
            lemma_whole_product(sc.num, v as i64);
            lemma_whole_sum(acc.constant.num, (n * v) as i64);
        },
        Op::Add => {
            lemma_reads_sum(s, t, 0, sc, acc);
        },
        Op::Sub => {
            let (a, b) = (node.args[0], node.args[1]);
            assert(linear_term(s, a) && linear_term(s, b)) by {
                if numeral_term(s, t) {
                    assert(numeral_term(s, node.args[0]) && numeral_term(s, node.args[1]));
                } else {
                    assert(linear_term(s, node.args[0]) && linear_term(s, node.args[1]));
                }
            }
            lemma_size(s, a);
            lemma_size(s, b);
            assert(size_sum(s, t, 2) == 0);
            assert(size_sum(s, t, 1) == size(s, b) + size_sum(s, t, 2));
            assert(size(s, t) == size(s, a) + size(s, b));
            lemma_split_sizes(absolute(n), size(s, a), size(s, b));
            let m = Rat { num: (-sc.num) as i64, den: 1 };
            assert(rat_neg(sc) == Some(m));
            lemma_reads(s, a, sc, acc);
            let l = lin(s, a as int, sc, acc)->0;
            lemma_reads(s, b, m, l);
        },
        Op::Neg => {
            let a = node.args[0];
            assert(linear_term(s, a)) by {
                if numeral_term(s, t) {
                    assert(numeral_term(s, node.args[0]));
                } else if !multiple_term(s, t) {
                    assert(linear_term(s, node.args[0]));
                }
            }
            assert(size_sum(s, t, 1) == 0);
            assert(size(s, t) == size(s, a));
            let m = Rat { num: (-sc.num) as i64, den: 1 };
            assert(rat_neg(sc) == Some(m));
            lemma_reads(s, a, m, acc);
            if numeral_term(s, t) {
                assert(numeral_term(s, node.args[0]));
            } else if multiple_term(s, t) {
                lemma_exclusive(s, a);
            }
        },
        Op::Mul => {
            let j = if numeral_term(s, t) {
                -1int
            } else {
                choose|j: int| #[trigger]
                    one_multiple(s, t, j) && node.args[j] < t && multiple_term(s, node.args[j])
            };
            let one = rat_one();
            assert(at_least_one(absolute(n)) * size_product(s, t, 0) == at_least_one(absolute(n))
                * (1 * (1 * size_product(s, t, 0)))) by (nonlinear_arith);
            lemma_reads_product(s, t, 0, one, None, sc, acc, j);
            assert(absolute(n) * (1 * (1 * size_product(s, t, 0))) == absolute(n) * size(s, t))
                by (nonlinear_arith)
                requires
                    size(s, t) == size_product(s, t, 0),
            ;
            if j >= 0 {
                let l = lin_product(s, t as int, 0, one, None, sc, acc)->0;
                assert(l.terms.drop_last() =~= acc.terms);
            }
        },
        _ => {
            let l = push_term(acc, t, sc);
            assert(l.terms.drop_last() =~= acc.terms);
            assert(absolute(n) * 1 == absolute(n));
        },
    }
}

proof fn lemma_split_sizes(x: int, a: int, b: int)
    requires
        x >= 0,
        a >= 0,
        b >= 0,
    ensures
        x * (a + b) == x * a + x * b,
        at_least_one(x) * (a + b) == at_least_one(x) * a + at_least_one(x) * b,
        0 <= x * a <= at_least_one(x) * a,
        0 <= x * b <= at_least_one(x) * b,
{
    assert(x * (a + b) == x * a + x * b) by (nonlinear_arith);
    let y = at_least_one(x);
    assert(y * (a + b) == y * a + y * b) by (nonlinear_arith);
    assert(0 <= x * a <= y * a && 0 <= x * b <= y * b) by (nonlinear_arith)
        requires
            0 <= x <= y,
            a >= 0,
            b >= 0,
    ;
}

proof fn lemma_reads_sum(s: Seq<TermView>, t: TermId, k: int, sc: Rat, acc: Lin)
    requires
        terms_wf(s),
        t < s.len(),
        s[t as int].op == Op::Add,
        0 <= k <= s[t as int].args.len(),
        forall|j: int|
            0 <= j < s[t as int].args.len() ==> (#[trigger] s[t as int].args[j]) < t && linear_term(
                s,
                s[t as int].args[j],
            ),
        sc.den == 1,
        whole_form(acc),
        at_least_one(absolute(sc.num as int)) * size_sum(s, t, k) + absolute(
            acc.constant.num as int,
        ) <= i64::MAX,
        absolute(sc.num as int) <= i64::MAX,
    ensures
        lin_sum(s, t as int, k, sc, acc) matches Some(l) && whole_form(l) && magnitude_of(l.terms)
            + absolute(l.constant.num as int) <= magnitude_of(acc.terms) + absolute(
            acc.constant.num as int,
        ) + absolute(sc.num as int) * size_sum(s, t, k) && absolute(l.constant.num as int)
            <= absolute(acc.constant.num as int) + absolute(sc.num as int) * size_sum(s, t, k) && (
        numeral_term(s, t) ==> l.terms == acc.terms),
    decreases t, 0int, s[t as int].args.len() - k,
{
    assert(node_below(s, t as int));
    if k < s[t as int].args.len() {
        let a = s[t as int].args[k];
        let n = absolute(sc.num as int);
        lemma_size(s, a);
        lemma_size_sum(s, t, k + 1);
        lemma_split_sizes(n, size(s, a), size_sum(s, t, k + 1));
        lemma_reads(s, a, sc, acc);
        let l = lin(s, a as int, sc, acc)->0;
        lemma_reads_sum(s, t, k + 1, sc, l);
    } else {
        assert(absolute(sc.num as int) * 0 == 0);
    }
}

/// The magnitude of the coefficient of the variable factor, or 1.
spec fn factor_size(vf: Option<(TermId, Rat)>) -> int {
    match vf {
        Some(p) => at_least_one(absolute(p.1.num as int)),
        None => 1,
    }
}

/// What is left of a product fits.
spec fn product_room(n: int, cp: Rat, vf: Option<(TermId, Rat)>, left: int, c: int) -> bool {
    &&& cp.den == 1
    &&& vf matches Some(p) ==> p.1.den == 1
    &&& n * (at_least_one(absolute(cp.num as int)) * (factor_size(vf) * left)) + c <= i64::MAX
}

proof fn lemma_reads_product(
    s: Seq<TermView>,
    t: TermId,
    k: int,
    cp: Rat,
    vf: Option<(TermId, Rat)>,
    sc: Rat,
    acc: Lin,
    j: int,
)
    requires
        terms_wf(s),
        t < s.len(),
        s[t as int].op == Op::Mul,
        0 <= k <= s[t as int].args.len(),
        j < s[t as int].args.len(),
        forall|m: int|
            0 <= m < s[t as int].args.len() ==> (#[trigger] s[t as int].args[m]) < t && (if m == j {
                multiple_term(s, s[t as int].args[m])
            } else {
                numeral_term(s, s[t as int].args[m])
            }),
        vf is Some <==> 0 <= j < k,
        sc.den == 1,
        whole_form(acc),
        absolute(sc.num as int) <= i64::MAX,
        product_room(
            at_least_one(absolute(sc.num as int)),
            cp,
            vf,
            size_product(s, t, k),
            absolute(acc.constant.num as int),
        ),
    ensures
        lin_product(s, t as int, k, cp, vf, sc, acc) matches Some(l) && whole_form(l) && ({
            let b = absolute(sc.num as int) * (at_least_one(absolute(cp.num as int)) * (factor_size(
                vf,
            ) * size_product(s, t, k)));
            if j >= 0 {
                l.constant == acc.constant && l.terms.len() == acc.terms.len() + 1
                    && l.terms.drop_last() == acc.terms && absolute(l.terms.last().1.num as int)
                    <= b
            } else {
                l.terms == acc.terms && absolute(l.constant.num as int) <= absolute(
                    acc.constant.num as int,
                ) + b
            }
        }),
    decreases t, 0int, s[t as int].args.len() - k,
{
    assert(node_below(s, t as int));
    let n = sc.num as int;
    let x = at_least_one(absolute(n));
    let p = at_least_one(absolute(cp.num as int));
    let q = factor_size(vf);
    if k < s[t as int].args.len() {
        let a = s[t as int].args[k];
        lemma_size(s, a);
        lemma_size_product(s, t, k + 1);
        let z = at_least_one(size(s, a));
        let rest = size_product(s, t, k + 1);
        assert(size_product(s, t, k) == z * rest);
        lemma_room(x, p, q, z, rest);
        assert(linear_term(s, a));
        let one = rat_one();
        assert(one == Rat { num: 1, den: 1 });
        assert(1 * size(s, a) + 0 <= i64::MAX);
        assert(whole_form(lin_empty()));
        lemma_reads(s, a, one, lin_empty());
        let f = lin(s, a as int, one, lin_empty())->0;
        assert(magnitude_of(lin_empty().terms) == 0);
        assert(1 * size(s, a) == size(s, a));
        if k == j {
            lemma_exclusive(s, a);
            let c = f.terms[0].1;
            assert(f.terms.last() == f.terms[0]);
            let q2 = at_least_one(absolute(c.num as int));
            assert(classify(f, cp, vf) == Some((cp, Some(f.terms[0]))));
            lemma_room_var(x, absolute(n), p, q, q2, z, rest);
            lemma_reads_product(s, t, k + 1, cp, Some(f.terms[0]), sc, acc, j);
        } else {
            assert(f.terms.len() == 0);
            let c = f.constant;
            lemma_products(cp.num as int, c.num as int, z);
            assert(absolute(cp.num * c.num) <= p * z) by (nonlinear_arith)
                requires
                    absolute(cp.num * c.num) <= absolute(cp.num as int) * z,
                    absolute(cp.num as int) <= p,
                    z >= 1,
            ;
            lemma_whole_product(cp.num, c.num);
            let cp2 = Rat { num: (cp.num * c.num) as i64, den: 1 };
            assert(classify(f, cp, vf) == Some((cp2, vf)));
            let p2 = at_least_one(absolute(cp2.num as int));
            assert(p2 <= p * z) by (nonlinear_arith)
                requires
                    absolute(cp2.num as int) <= p * z,
                    p >= 1,
                    z >= 1,
                    p2 == at_least_one(absolute(cp2.num as int)),
            ;
            lemma_room_const(x, absolute(n), p, p2, q, z, rest);
            lemma_reads_product(s, t, k + 1, cp2, vf, sc, acc, j);
        }
    } else {
        let cpn = cp.num as int;
        lemma_room(x, p, q, 1, 1);
        assert(p * (q * 1) == p * q);
        lemma_products(n, cpn, p);
        assert(absolute(n * cpn) <= x * p) by (nonlinear_arith)
            requires
                absolute(n * cpn) <= absolute(n) * p,
                absolute(n) <= x,
                p >= 1,
        ;
        lemma_whole_product(sc.num, cp.num);
        let scale = Rat { num: (n * cpn) as i64, den: 1 };
        match vf {
            None => {
                lemma_whole_sum(acc.constant.num, scale.num);
            },
            Some((v, c)) => {
                let cn = c.num as int;
                lemma_products(n * cpn, cn, q);
                assert(absolute((n * cpn) * cn) <= absolute(n) * (p * q)) by (nonlinear_arith)
                    requires
                        absolute((n * cpn) * cn) <= absolute(n * cpn) * q,
                        absolute(n * cpn) <= absolute(n) * p,
                        q >= 1,
                ;
                assert(absolute(n) * (p * q) <= x * (p * q)) by (nonlinear_arith)
                    requires
                        0 <= absolute(n) <= x,
                        p >= 1,
                        q >= 1,
                ;
                lemma_whole_product(scale.num, c.num);
                let l = finish_product(sc, cp, vf, acc)->0;
                assert(l.terms.drop_last() =~= acc.terms);
            },
        }
    }
}

proof fn lemma_room(x: int, p: int, q: int, z: int, rest: int)
    requires
        x >= 1,
        p >= 1,
        q >= 1,
        z >= 1,
        rest >= 1,
    ensures
        z <= x * (p * (q * (z * rest))),
        p * z <= x * (p * (q * (z * rest))),
        p <= x * (p * (q * (z * rest))),
        x * p <= x * (p * (q * (z * rest))),
        x * (p * q) <= x * (p * (q * (z * rest))),
{
    assert(z * rest >= z) by (nonlinear_arith)
        requires
            z >= 1,
            rest >= 1,
    ;
    let u = z * rest;
    assert(q * u >= u && q * u >= q) by (nonlinear_arith)
        requires
            q >= 1,
            u >= 1,
    ;
    let v = q * u;
    assert(p * v >= p * z && p * v >= p * q && p * v >= p && p * v >= z) by (nonlinear_arith)
        requires
            p >= 1,
            v >= z,
            v >= q,
            q >= 1,
            z >= 1,
    ;
    let w = p * v;
    assert(x * w >= w && x * w >= x * p && x * w >= x * (p * q)) by (nonlinear_arith)
        requires
            x >= 1,
            w >= p,
            w >= p * q,
            p >= 1,
    ;
}

proof fn lemma_room_const(x: int, y: int, p: int, p2: int, q: int, z: int, rest: int)
    requires
        0 <= y <= x,
        1 <= p2 <= p * z,
        q >= 1,
        rest >= 1,
    ensures
        x * (p2 * (q * rest)) <= x * (p * (q * (z * rest))),
        y * (p2 * (q * rest)) <= y * (p * (q * (z * rest))),
{
    let u = q * rest;
    assert(u >= 1) by (nonlinear_arith)
        requires
            q >= 1,
            rest >= 1,
            u == q * rest,
    ;
    assert(p2 * u <= (p * z) * u) by (nonlinear_arith)
        requires
            p2 <= p * z,
            u >= 1,
    ;
    assert((p * z) * u == p * (q * (z * rest))) by (nonlinear_arith)
        requires
            u == q * rest,
    ;
    let (a, b) = (p2 * u, p * (q * (z * rest)));
    assert(x * a <= x * b && y * a <= y * b) by (nonlinear_arith)
        requires
            a <= b,
            x >= 0,
            y >= 0,
    ;
}

proof fn lemma_room_var(x: int, y: int, p: int, q: int, q2: int, z: int, rest: int)
    requires
        0 <= y <= x,
        p >= 1,
        1 <= q2 <= z,
        q >= 1,
        rest >= 1,
    ensures
        x * (p * (q2 * rest)) <= x * (p * (q * (z * rest))),
        y * (p * (q2 * rest)) <= y * (p * (q * (z * rest))),
{
    assert(q2 * rest <= q * (z * rest)) by (nonlinear_arith)
        requires
            q2 <= z,
            q >= 1,
            rest >= 1,
            q2 >= 1,
    ;
    let (a, b) = (q2 * rest, q * (z * rest));
    assert(p * a <= p * b) by (nonlinear_arith)
        requires
            a <= b,
            p >= 1,
    ;
    let (c, d) = (p * a, p * b);
    assert(x * c <= x * d && y * c <= y * d) by (nonlinear_arith)
        requires
            c <= d,
            x >= 0,
            y >= 0,
    ;
}

/// Reading is complete on linear terms: a term that is built of whole numerals
/// and multiples of opaque terms by sums, differences and opposites has a linear
/// form, at every scale, unless its numbers leave the 64-bit range.
pub proof fn linear_terms_are_read(s: Seq<TermView>, t: TermId, sc: Rat, acc: Lin)
    requires
        terms_wf(s),
        t < s.len(),
        linear_term(s, t),
        sc.den == 1,
        whole_form(acc),
        at_least_one(absolute(sc.num as int)) * size(s, t) + absolute(acc.constant.num as int)
            <= i64::MAX,
        absolute(sc.num as int) <= i64::MAX,
    ensures
        lin(s, t as int, sc, acc) is Some,
{
    lemma_reads(s, t, sc, acc);
}

proof fn lemma_combined(terms: Seq<(TermId, Rat)>)
    requires
        forall|k: int| 0 <= k < terms.len() ==> (#[trigger] terms[k]).1.den == 1,
        magnitude_of(terms) <= i64::MAX,
    ensures
        combine(terms) matches Some(m) && forall|x: TermId| #[trigger]
            m.contains_key(x) ==> m[x].den == 1 && absolute(m[x].num as int) <= magnitude_of(terms),
    decreases terms.len(),
{
    if terms.len() > 0 {
        let rest = terms.drop_last();
        assert forall|k: int| 0 <= k < rest.len() implies (#[trigger] rest[k]).1.den == 1 by {
            assert(rest[k] == terms[k]);
        }
        lemma_combined(rest);
        let m = combine(rest)->0;
        let (x, c) = terms.last();
        assert(terms[terms.len() - 1] == terms.last());
        lemma_magnitude(rest);
        let had = if m.contains_key(x) {
            m[x]
        } else {
            rat_zero()
        };
        assert(absolute(had.num as int) <= magnitude_of(rest) && had.den == 1);
        lemma_whole_sum(had.num, c.num);
    }
}

proof fn lemma_magnitude(terms: Seq<(TermId, Rat)>)
    ensures
        magnitude_of(terms) >= 0,
    decreases terms.len(),
{
    if terms.len() > 0 {
        lemma_magnitude(terms.drop_last());
    }
}

proof fn lemma_magnitude_cat(a: Seq<(TermId, Rat)>, b: Seq<(TermId, Rat)>)
    ensures
        magnitude_of(a + b) == magnitude_of(a) + magnitude_of(b),
    decreases b.len(),
{
    if b.len() == 0 {
        assert(a + b =~= a);
    } else {
        lemma_magnitude_cat(a, b.drop_last());
        assert((a + b).drop_last() =~= a + b.drop_last());
        assert((a + b).last() == b.last());
    }
}

/// Comparisons of linear terms are read: each has a linear form for the
/// arithmetic engine, unless its numbers leave the 64-bit range.
pub proof fn linear_comparisons_are_read(s: Seq<TermView>, lhs: TermId, rhs: TermId)
    requires
        terms_wf(s),
        lhs < s.len(),
        rhs < s.len(),
        linear_term(s, lhs),
        linear_term(s, rhs),
        size(s, lhs) + size(s, rhs) <= i64::MAX,
    ensures
        !parses_as(s, lhs, rhs, None),
{
    lemma_size(s, lhs);
    lemma_size(s, rhs);
    let (one, minus) = (rat_one(), rat_minus_one());
    assert(one == Rat { num: 1, den: 1 } && minus == Rat { num: -1i64, den: 1 });
    assert(magnitude_of(lin_empty().terms) == 0);
    assert(absolute(1) == 1 && absolute(-1) == 1 && at_least_one(1) == 1);
    assert(1 * size(s, lhs) == size(s, lhs) && 1 * size(s, rhs) == size(s, rhs));
    lemma_reads(s, lhs, one, lin_empty());
    lemma_reads(s, rhs, minus, lin_empty());
    let a = lin(s, lhs as int, one, lin_empty())->0;
    let b = lin(s, rhs as int, minus, lin_empty())->0;
    lemma_magnitude(a.terms);
    lemma_magnitude(b.terms);
    lemma_magnitude_cat(a.terms, b.terms);
    lemma_whole_sum(0, a.constant.num);
    lemma_whole_sum(a.constant.num, b.constant.num);
    let all = a.terms + b.terms;
    assert forall|k: int| 0 <= k < all.len() implies (#[trigger] all[k]).1.den == 1 by {
        if k < a.terms.len() {
            assert(all[k] == a.terms[k]);
        } else {
            assert(all[k] == b.terms[k - a.terms.len()]);
        }
    }
    lemma_combined(all);
}

/// Reading goes through sums, differences and opposites, at every scale and with
/// every numeral: where the parts can be read one after another, the right side
/// of a difference and an opposite at the opposite scale, the whole is read as
/// that.
pub proof fn reading_goes_through_sums(s: Seq<TermView>, t: TermId, sc: Rat, acc: Lin)
    requires
        terms_wf(s),
        t < s.len(),
        s[t as int].args.len() > 0,
    ensures
        s[t as int].op == Op::Sub ==> {
            let n = Rat { num: (-sc.num) as i64, den: sc.den };
            let l = lin(s, s[t as int].args[0] as int, sc, acc);
            sc.num != i64::MIN && l is Some ==> lin(s, t as int, sc, acc) == lin(
                s,
                s[t as int].args[1] as int,
                n,
                l->0,
            )
        },
        s[t as int].op == Op::Neg ==> {
            let n = Rat { num: (-sc.num) as i64, den: sc.den };
            sc.num != i64::MIN ==> lin(s, t as int, sc, acc) == lin(
                s,
                s[t as int].args[0] as int,
                n,
                acc,
            )
        },
        s[t as int].op == Op::Add && s[t as int].args.len() == 2 ==> {
            let l = lin(s, s[t as int].args[0] as int, sc, acc);
            l is Some ==> lin(s, t as int, sc, acc) == lin(
                s,
                s[t as int].args[1] as int,
                sc,
                l->0,
            )
        },
        opaque_number(s[t as int]) ==> lin(s, t as int, sc, acc) is Some,
{
    assert(node_below(s, t as int));
    if s[t as int].op == Op::Add && s[t as int].args.len() == 2 {
        reveal_with_fuel(lin_sum, 3);
        if let Some(l) = lin(s, s[t as int].args[0] as int, sc, acc) {
            assert(lin_sum(s, t as int, 0, sc, acc) == lin_sum(s, t as int, 1, sc, l));
        }
    }
}

} // verus!
