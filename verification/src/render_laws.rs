//! What the texts of values denote.

use crate::numbers::{binary, signed_decimal, signed_value, Rat};
use crate::render::{default_text, padded, value_text, witness_text};
use crate::semantics::{eval, holds, lemma_eval, num, opaque_term, Interp};
use crate::sorts::{sort_text, SortEnv};
use crate::terms::{
    terms_wf, DataView, Op, SortId, SortKind, TermId, TermView, BOOL_SORT, INT_SORT, REAL_SORT,
};
use crate::text::{decimal, decimals_read_back, digit, digits_number};
use vstd::arithmetic::power2::{lemma_pow2_unfold, pow2};
use vstd::arithmetic::power::{lemma_pow_positive, pow};
use vstd::prelude::*;

verus! {

/// Where the character first stands in the text, from place `k` on; the length
/// where it does not.
pub open spec fn first_at(text: Seq<char>, c: char, k: int) -> int
    decreases text.len() - k,
{
    if k >= text.len() {
        text.len() as int
    } else if text[k] == c {
        k
    } else {
        first_at(text, c, k + 1)
    }
}

/// The number that digits are, with or without a point among them.
pub open spec fn plain_number(text: Seq<char>) -> Option<real> {
    let k = first_at(text, '.', 0);
    if k == 0 {
        None
    } else if k == text.len() {
        match digits_number(text) {
            Some(n) => Some(n as real),
            None => None,
        }
    } else {
        let fraction = text.skip(k + 1);
        match (digits_number(text.take(k)), digits_number(fraction)) {
            (Some(n), Some(f)) => if fraction.len() > 0 {
                Some(n as real + f as real / (pow(10, fraction.len()) as real))
            } else {
                None
            },
            _ => None,
        }
    }
}

/// The number that a text is: digits after a sign `-` or without a sign.
pub open spec fn signed_number(text: Seq<char>) -> Option<real> {
    if text.len() > 0 && text[0] == '-' {
        match plain_number(text.drop_first()) {
            Some(x) => Some(-x),
            None => None,
        }
    } else {
        plain_number(text)
    }
}

/// The number that a text is: a signed number, or the quotient `(/ a b)` of two.
pub open spec fn written_number(text: Seq<char>) -> Option<real> {
    if text.len() > 4 && text[0] == '(' {
        let inner = text.subrange(3, text.len() - 1);
        let k = first_at(inner, ' ', 0);
        if text[1] == '/' && text[2] == ' ' && text.last() == ')' && k < inner.len() {
            match (signed_number(inner.take(k)), signed_number(inner.skip(k + 1))) {
                (Some(a), Some(b)) => if b != 0real {
                    Some(a / b)
                } else {
                    None
                },
                _ => None,
            }
        } else {
            None
        }
    } else {
        signed_number(text)
    }
}

/// The number that a text of zeros and ones is.
pub open spec fn bits_number(text: Seq<char>) -> Option<nat>
    decreases text.len(),
{
    if text.len() == 0 {
        Some(0)
    } else {
        match bits_number(text.drop_last()) {
            Some(n) => if text.last() == '0' {
                Some(2 * n)
            } else if text.last() == '1' {
                Some(2 * n + 1)
            } else {
                None
            },
            None => None,
        }
    }
}

/// The number that a bit-vector literal `#b...` is.
pub open spec fn written_bits(text: Seq<char>) -> Option<nat> {
    if text.len() > 2 && text[0] == '#' && text[1] == 'b' {
        bits_number(text.skip(2))
    } else {
        None
    }
}

proof fn lemma_first_at(text: Seq<char>, c: char, k: int, at: int)
    requires
        0 <= k <= at <= text.len(),
        forall|j: int| k <= j < at ==> #[trigger] text[j] != c,
        at < text.len() ==> text[at] == c,
    ensures
        first_at(text, c, k) == at,
    decreases at - k,
{
    if k < at {
        lemma_first_at(text, c, k + 1, at);
    }
}

proof fn lemma_decimal_characters(n: nat, c: char)
    requires
        digit(c) is None,
    ensures
        forall|j: int| 0 <= j < decimal(n).len() ==> #[trigger] decimal(n)[j] != c,
        decimal(n).len() > 0,
{
    decimals_read_back(n);
    assert forall|j: int| 0 <= j < decimal(n).len() implies #[trigger] decimal(n)[j] != c by {
        assert(digit(decimal(n)[j]) is Some);
    }
}

proof fn lemma_signed_characters(v: int, c: char)
    requires
        digit(c) is None,
        c != '-',
    ensures
        forall|j: int| 0 <= j < signed_decimal(v).len() ==> #[trigger] signed_decimal(v)[j] != c,
        signed_decimal(v).len() > 0,
{
    reveal_strlit("-");
    let d = if v < 0 {
        (-v) as nat
    } else {
        v as nat
    };
    lemma_decimal_characters(d, c);
    if v < 0 {
        assert forall|j: int| 0 <= j < signed_decimal(v).len() implies #[trigger] signed_decimal(
            v,
        )[j] != c by {
            if j > 0 {
                assert(signed_decimal(v)[j] == decimal(d)[j - 1]);
            }
        }
    }
}

/// An integer in decimal reads as the integer.
pub proof fn integers_read_back(v: int)
    ensures
        signed_number(signed_decimal(v)) == Some(v as real),
        written_number(signed_decimal(v)) == Some(v as real),
{
    reveal_strlit("-");
    let d = if v < 0 {
        (-v) as nat
    } else {
        v as nat
    };
    decimals_read_back(d);
    lemma_decimal_characters(d, '.');
    lemma_decimal_characters(d, '-');
    lemma_signed_characters(v, '(');
    lemma_first_at(decimal(d), '.', 0, decimal(d).len() as int);
    if v < 0 {
        assert(signed_decimal(v).drop_first() =~= decimal(d));
    }
}

proof fn lemma_tenths_read_back(v: int, text: Seq<char>)
    requires
        text == signed_decimal(v) + seq!['.', '0'],
    ensures
        signed_number(text) == Some(v as real),
        written_number(text) == Some(v as real),
{
    reveal_strlit("-");
    let d = if v < 0 {
        (-v) as nat
    } else {
        v as nat
    };
    decimals_read_back(d);
    lemma_decimal_characters(d, '.');
    lemma_decimal_characters(d, '-');
    lemma_decimal_characters(d, '(');
    let body = decimal(d) + seq!['.', '0'];
    if v < 0 {
        assert(text.drop_first() =~= body);
    } else {
        assert(text =~= body);
        assert(text[0] == decimal(d)[0]);
    }
    let k = decimal(d).len() as int;
    assert forall|j: int| 0 <= j < k implies #[trigger] body[j] != '.' by {
        assert(body[j] == decimal(d)[j]);
    }
    lemma_first_at(body, '.', 0, k);
    assert(body.take(k) =~= decimal(d));
    let fraction = body.skip(k + 1);
    assert(fraction =~= seq!['0']);
    assert(fraction.drop_last() =~= Seq::<char>::empty());
    assert(digits_number(Seq::<char>::empty()) == Some(0nat));
    assert(digit('0') == Some(0nat));
    assert(digits_number(fraction) == Some(0nat));
    lemma_pow_positive(10, fraction.len());
    let p = pow(10, fraction.len()) as real;
    assert(0real / p == 0real) by (nonlinear_arith)
        requires
            p > 0real,
    ;
}

/// The text of a real constant, read as a number or a quotient, is the constant.
pub proof fn rationals_read_back(r: Rat)
    requires
        r.wf(),
    ensures
        written_number(crate::render::rational_text(r)) == Some(r.value()),
{
    reveal_strlit(".0");
    reveal_strlit("(/ ");
    reveal_strlit(" ");
    reveal_strlit(")");
    let text = crate::render::rational_text(r);
    let n = r.num as int;
    let d = r.den as int;
    if r.den == 1 {
        assert(text =~= signed_decimal(n) + seq!['.', '0']);
        lemma_tenths_read_back(n, text);
        assert(n as real / 1real == n as real) by (nonlinear_arith);
    } else {
        let inner = text.subrange(3, text.len() - 1);
        let k = signed_decimal(n).len() as int;
        lemma_signed_characters(n, ' ');
        lemma_signed_characters(d, ' ');
        assert(inner =~= signed_decimal(n) + seq![' '] + signed_decimal(d));
        assert forall|j: int| 0 <= j < k implies #[trigger] inner[j] != ' ' by {
            assert(inner[j] == signed_decimal(n)[j]);
        }
        lemma_first_at(inner, ' ', 0, k);
        assert(inner.take(k) =~= signed_decimal(n));
        assert(inner.skip(k + 1) =~= signed_decimal(d));
        integers_read_back(n);
        integers_read_back(d);
    }
}

/// A number in binary reads as the number, and takes no more places than needed.
pub proof fn binaries_read_back(n: nat)
    ensures
        bits_number(binary(n)) == Some(n),
        binary(n).len() > 0,
        forall|w: nat| w > 0 && n < #[trigger] pow2(w) ==> binary(n).len() <= w,
    decreases n,
{
    let s = binary(n);
    if n < 2 {
        assert(s.drop_last() =~= Seq::<char>::empty());
        assert(bits_number(Seq::<char>::empty()) == Some(0nat));
    } else {
        binaries_read_back(n / 2);
        assert(s.drop_last() =~= binary(n / 2));
        assert forall|w: nat| w > 0 && n < #[trigger] pow2(w) implies s.len() <= w by {
            lemma_pow2_unfold(w);
            let v = (w - 1) as nat;
            assert(n / 2 < pow2(v));
            if v == 0 {
                vstd::arithmetic::power2::lemma2_to64();
            }
        }
    }
}

proof fn lemma_zeros(n: nat, text: Seq<char>)
    requires
        bits_number(text) is Some,
    ensures
        bits_number(Seq::new(n, |k: int| '0') + text) == bits_number(text),
    decreases text.len(), n,
{
    let zeros = Seq::new(n, |k: int| '0');
    let all = zeros + text;
    if text.len() == 0 {
        assert(all =~= zeros);
        if n > 0 {
            assert(zeros.drop_last() =~= Seq::new((n - 1) as nat, |k: int| '0') + text);
            lemma_zeros((n - 1) as nat, text);
        }
    } else {
        assert(all.drop_last() =~= zeros + text.drop_last());
        lemma_zeros(n, text.drop_last());
    }
}

/// The text of a value reads as the value: truth values, integers, rationals, and
/// bit vectors, whose literals have as many digits as the sort has bits.
pub proof fn values_read_back(
    s: Seq<TermView>,
    printed: Map<TermId, String>,
    i: Interp,
    t: TermId,
)
    requires
        terms_wf(s),
        t < s.len(),
    ensures
        s[t as int].op == Op::True || s[t as int].op == Op::False ==> holds(s, i, t) == (value_text(
            s,
            printed,
            t,
        ) == "true"@) && !holds(s, i, t) == (value_text(s, printed, t) == "false"@),
        s[t as int].op == Op::IntConst && s[t as int].data is Int ==> written_number(
            value_text(s, printed, t),
        ) == Some(num(eval(s, i, t as int))),
        s[t as int].op == Op::RealConst ==> (s[t as int].data matches DataView::Real(r) ==> r.wf()
            ==> written_number(value_text(s, printed, t)) == Some(num(eval(s, i, t as int)))),
        s[t as int].op == Op::BitVecConst ==> (s[t as int].data matches DataView::Bits(neg, d, w)
            ==> signed_value(neg, d) >= 0 ==> (written_bits(value_text(s, printed, t)) matches Some(
            n,
        ) && n == signed_value(neg, d) && num(eval(s, i, t as int)) == n as real && (w > 0 && n
            < pow2(w as nat) ==> value_text(s, printed, t).len() == w + 2))),
{
    reveal_strlit("true");
    reveal_strlit("false");
    reveal_strlit("#b");
    if !opaque_term(s, t as int) {
        lemma_eval(s, i, t);
    }
    assert("true"@.len() != "false"@.len());
    let node = s[t as int];
    match (node.op, node.data) {
        (Op::IntConst, DataView::Int(neg, d)) => {
            integers_read_back(signed_value(neg, d));
        },
        (Op::RealConst, DataView::Real(r)) => {
            if r.wf() {
                rationals_read_back(r);
            }
        },
        (Op::BitVecConst, DataView::Bits(neg, d, w)) => {
            let v = signed_value(neg, d);
            if v >= 0 {
                let n = v as nat;
                binaries_read_back(n);
                let zeros = (if binary(n).len() < w {
                    w - binary(n).len()
                } else {
                    0
                }) as nat;
                lemma_zeros(zeros, binary(n));
                let text = value_text(s, printed, t);
                assert(text.skip(2) =~= padded(binary(n), w as nat));
                assert(padded(binary(n), w as nat) =~= Seq::new(zeros, |k: int| '0') + binary(n));
            }
        },
        _ => {},
    }
}

/// A constant without a value is false, zero, the empty string or a vector of
/// zeros, as wide as its sort.
pub proof fn defaults_are_zero(env: SortEnv, defaults: Map<Seq<char>, String>, id: SortId)
    ensures
        id == BOOL_SORT ==> default_text(env, defaults, id) == "false"@,
        id == INT_SORT || id == REAL_SORT ==> written_number(default_text(env, defaults, id))
            == Some(0real),
        id == INT_SORT ==> first_at(default_text(env, defaults, id), '.', 0) == default_text(
            env,
            defaults,
            id,
        ).len(),
        id == REAL_SORT ==> first_at(default_text(env, defaults, id), '.', 0) < default_text(
            env,
            defaults,
            id,
        ).len(),
        BOOL_SORT != id && id != INT_SORT && id != REAL_SORT && id < env.sorts.len() ==> (
        env.sorts[id as int] matches SortKind::BitVec(w) ==> written_bits(
            default_text(env, defaults, id),
        ) == Some(0nat) && default_text(env, defaults, id).len() == (if w == 0 {
            3
        } else {
            w + 2
        })),
        BOOL_SORT != id && id != INT_SORT && id != REAL_SORT && id < env.sorts.len()
            && env.sorts[id as int] == SortKind::String ==> default_text(env, defaults, id)
            == seq!['"', '"'],
{
    reveal_strlit("0");
    reveal_strlit("0.0");
    reveal_strlit("#b");
    reveal_strlit("\"\"");
    reveal_strlit("-");
    let text = default_text(env, defaults, id);
    integers_read_back(0);
    assert(signed_decimal(0) =~= seq!['0']);
    assert("0"@ =~= seq!['0']);
    lemma_tenths_read_back(0, seq!['0'] + seq!['.', '0']);
    assert("0.0"@ =~= seq!['0'] + seq!['.', '0']);
    lemma_first_at("0"@, '.', 0, 1);
    lemma_first_at("0.0"@, '.', 0, 1);
    assert("\"\""@ =~= seq!['"', '"']);
    if BOOL_SORT != id && id != INT_SORT && id != REAL_SORT && id < env.sorts.len() {
        if let SortKind::BitVec(w) = env.sorts[id as int] {
            let zeros = (if 1 < w {
                w - 1
            } else {
                0
            }) as nat;
            assert(binary(0) =~= "0"@);
            binaries_read_back(0);
            lemma_zeros(zeros, "0"@);
            assert(text.skip(2) =~= Seq::new(zeros, |k: int| '0') + "0"@);
        }
    }
}

/// The elements that name an uninterpreted sort's universe are told apart by
/// their numbers.
pub proof fn witnesses_differ(env: SortEnv, id: SortId, j: nat, k: nat)
    requires
        j != k,
    ensures
        witness_text(env, id, j) != witness_text(env, id, k),
{
    decimals_read_back(j);
    decimals_read_back(k);
    let a = witness_text(env, id, j);
    let b = witness_text(env, id, k);
    let n = a.len() - decimal(j).len();
    assert(a.skip(n) =~= decimal(j));
    assert(b.skip(n) =~= decimal(k));
}

/// Strings, floating-point numbers and stored arrays are shown as they are printed.
pub proof fn printed_values_are_shown(
    s: Seq<TermView>,
    printed: Map<TermId, String>,
    t: TermId,
)
    requires
        t < s.len(),
        s[t as int].op == Op::StringLit || s[t as int].op == Op::FpLit || s[t as int].op
            == Op::FpConst || s[t as int].op == Op::Store,
        printed.contains_key(t),
    ensures
        value_text(s, printed, t) == printed[t]@,
{
}

/// A constant of a data type without a value is the default of the data type; one of
/// an array sort is the array that holds the default of its elements everywhere.
pub proof fn defaults_follow_the_sort(
    env: SortEnv,
    defaults: Map<Seq<char>, String>,
    id: SortId,
)
    requires
        id != BOOL_SORT && id != INT_SORT && id != REAL_SORT,
        id < env.sorts.len(),
    ensures
        env.sorts[id as int] matches SortKind::Datatype(n) ==> n < env.names.len()
            && defaults.contains_key(env.names[n as int]) ==> default_text(env, defaults, id)
            == defaults[env.names[n as int]]@,
        env.sorts[id as int] matches SortKind::Array { domain, range } ==> range < id
            ==> default_text(env, defaults, id) == "((as const "@ + sort_text(env, id) + ") "@
            + default_text(env, defaults, range) + ")"@,
        env.sorts[id as int] matches SortKind::Uninterpreted(n) ==> default_text(env, defaults, id)
            == witness_text(env, id, 0),
{
}

} // verus!
