//! Strings as sequences of characters.

use vstd::prelude::*;
use vstd::string::*;

verus! {

/// `String::push`: appends the character.
#[verifier::external_body]
pub(crate) fn push_char(s: &mut String, c: char)
    ensures
        final(s)@ == old(s)@.push(c),
{
    s.push(c);
}

/// The characters of a string.
pub(crate) fn chars_of(s: &str) -> (v: Vec<char>)
    ensures
        v@ == s@,
{
    let mut v: Vec<char> = Vec::new();
    for c in it: s.chars()
        invariant
            it.seq() == s@,
            v@ == s@.take(it.index()),
    {
        proof {
            assert(s@.take(it.index() + 1) =~= s@.take(it.index()).push(c));
        }
        v.push(c);
    }
    assert(s@.take(s@.len() as int) =~= s@);
    v
}

/// The string of the characters from `from` up to `to`.
pub(crate) fn string_of(v: &Vec<char>, from: usize, to: usize) -> (s: String)
    requires
        from <= to <= v@.len(),
    ensures
        s@ == v@.subrange(from as int, to as int),
{
    let mut s = String::new();
    let mut k: usize = from;
    assert(s@ =~= v@.subrange(from as int, from as int));
    while k < to
        invariant
            from <= k <= to <= v@.len(),
            s@ == v@.subrange(from as int, k as int),
        decreases to - k,
    {
        push_char(&mut s, v[k]);
        proof {
            assert(v@.subrange(from as int, k + 1) =~= v@.subrange(from as int, k as int).push(
                v@[k as int],
            ));
        }
        k = k + 1;
    }
    s
}

/// Equality of two strings.
pub(crate) fn same_text(a: &str, b: &str) -> (r: bool)
    ensures
        r == (a@ == b@),
{
    let v = chars_of(a);
    let w = chars_of(b);
    if v.len() != w.len() {
        return false;
    }
    let mut k: usize = 0;
    while k < v.len()
        invariant
            k <= v.len(),
            v.len() == w.len(),
            v@ == a@,
            w@ == b@,
            forall|j: int| 0 <= j < k ==> a@[j] == b@[j],
        decreases v.len() - k,
    {
        if v[k] != w[k] {
            return false;
        }
        k = k + 1;
    }
    assert(a@ =~= b@);
    true
}

pub open spec fn is_prefix(p: Seq<char>, s: Seq<char>) -> bool {
    p.len() <= s.len() && s.take(p.len() as int) == p
}

/// Whether a string begins with another.
pub(crate) fn has_prefix(s: &str, p: &str) -> (r: bool)
    ensures
        r == is_prefix(p@, s@),
{
    let v = chars_of(s);
    let w = chars_of(p);
    let n: usize = w.len();
    if n > v.len() {
        return false;
    }
    let mut k: usize = 0;
    while k < n
        invariant
            k <= n,
            n == w.len(),
            n <= v.len(),
            v@ == s@,
            w@ == p@,
            forall|j: int| 0 <= j < k ==> p@[j] == s@[j],
        decreases n - k,
    {
        if v[k] != w[k] {
            assert(s@.take(n as int)[k as int] != p@[k as int]);
            return false;
        }
        k = k + 1;
    }
    assert(s@.take(n as int) =~= p@);
    true
}

/// Appends a text.
pub(crate) fn append(s: &mut String, more: &str)
    ensures
        final(s)@ == old(s)@ + more@,
{
    s.append(more);
}

/// A copy of a text.
pub(crate) fn copy_text(s: &str) -> (r: String)
    ensures
        r@ == s@,
{
    s.to_owned()
}

/// Characters that separate words: those with the White_Space property.
pub open spec fn white(c: char) -> bool {
    let x = c as u32;
    9 <= x <= 13 || x == 0x20 || x == 0x85 || x == 0xa0 || x == 0x1680 || 0x2000 <= x <= 0x200a
        || x == 0x2028 || x == 0x2029 || x == 0x202f || x == 0x205f || x == 0x3000
}

pub fn is_white(c: char) -> (b: bool)
    ensures
        b == white(c),
{
    let x: u32 = c as u32;
    (9 <= x && x <= 13) || x == 0x20 || x == 0x85 || x == 0xa0 || x == 0x1680 || (0x2000 <= x && x
        <= 0x200a) || x == 0x2028 || x == 0x2029 || x == 0x202f || x == 0x205f || x == 0x3000
}

/// The text without white space at its end.
pub open spec fn trim_end(s: Seq<char>) -> Seq<char>
    decreases s.len(),
{
    if s.len() > 0 && white(s.last()) {
        trim_end(s.drop_last())
    } else {
        s
    }
}

/// The text without white space at its ends.
pub open spec fn trim(s: Seq<char>) -> Seq<char>
    decreases s.len(),
{
    if s.len() > 0 && white(s[0]) {
        trim(s.drop_first())
    } else {
        trim_end(s)
    }
}

proof fn lemma_trim_start(s: Seq<char>, k: int)
    requires
        0 <= k <= s.len(),
        forall|j: int| 0 <= j < k ==> white(#[trigger] s[j]),
    ensures
        trim(s) == trim(s.skip(k)),
    decreases k,
{
    if k == 0 {
        assert(s.skip(0) =~= s);
    } else {
        let rest = s.drop_first();
        assert forall|j: int| 0 <= j < k - 1 implies white(#[trigger] rest[j]) by {
            assert(s[j + 1] == rest[j]);
        }
        assert(white(s[0]));
        lemma_trim_start(rest, k - 1);
        assert(rest.skip(k - 1) =~= s.skip(k));
    }
}

proof fn lemma_trim_end(s: Seq<char>, k: int)
    requires
        0 <= k <= s.len(),
        forall|j: int| k <= j < s.len() ==> white(#[trigger] s[j]),
    ensures
        trim_end(s) == trim_end(s.take(k)),
    decreases s.len(),
{
    if k == s.len() {
        assert(s.take(k) =~= s);
    } else {
        assert(white(s[s.len() - 1]));
        lemma_trim_end(s.drop_last(), k);
        assert(s.drop_last().take(k) =~= s.take(k));
    }
}

/// A text without white space at its ends is trimmed already.
pub(crate) proof fn lemma_trimmed(s: Seq<char>)
    requires
        s.len() > 0 ==> !white(s[0]) && !white(s.last()),
    ensures
        trim(s) == s,
{
}

/// Where the trimmed part of the characters begins and ends.
pub(crate) fn trim_range(v: &Vec<char>) -> (r: (usize, usize))
    ensures
        r.0 <= r.1 <= v@.len(),
        v@.subrange(r.0 as int, r.1 as int) == trim(v@),
{
    let n: usize = v.len();
    let mut a: usize = 0;
    while a < n && is_white(v[a])
        invariant
            a <= n,
            n == v@.len(),
            forall|j: int| 0 <= j < a ==> white(#[trigger] v@[j]),
        decreases n - a,
    {
        a = a + 1;
    }
    let ghost mid = v@.skip(a as int);
    let mut b: usize = n;
    while b > a && is_white(v[b - 1])
        invariant
            a <= b <= n,
            n == v@.len(),
            mid == v@.skip(a as int),
            forall|j: int| b <= j < n ==> white(#[trigger] v@[j]),
        decreases b,
    {
        b = b - 1;
    }
    proof {
        lemma_trim_start(v@, a as int);
        assert(trim(mid) == trim_end(mid)) by {
            if mid.len() > 0 {
                assert(mid[0] == v@[a as int]);
            }
        }
        assert forall|j: int| b - a <= j < mid.len() implies white(#[trigger] mid[j]) by {
            assert(mid[j] == v@[a + j]);
        }
        lemma_trim_end(mid, b - a);
        let part = mid.take(b - a);
        assert(part =~= v@.subrange(a as int, b as int));
        assert(trim_end(part) == part) by {
            if part.len() > 0 {
                assert(part.last() == v@[b - 1]);
            }
        }
    }
    (a, b)
}

/// The value of a decimal digit.
pub open spec fn digit(c: char) -> Option<nat> {
    let x = c as u32;
    if 48 <= x <= 57 {
        Some((x - 48) as nat)
    } else {
        None
    }
}

/// The number that a text of digits is.
pub open spec fn digits_number(s: Seq<char>) -> Option<nat>
    decreases s.len(),
{
    if s.len() == 0 {
        Some(0)
    } else {
        match (digits_number(s.drop_last()), digit(s.last())) {
            (Some(n), Some(d)) => Some(10 * n + d),
            _ => None,
        }
    }
}

/// The number that a text is, where it is one and at most `max`: digits, after
/// a sign `+` or without a sign.
pub open spec fn number_upto(s: Seq<char>, max: nat) -> Option<nat> {
    let digits = if s.len() > 0 && s[0] == '+' {
        s.drop_first()
    } else {
        s
    };
    match digits_number(digits) {
        Some(n) => if digits.len() > 0 && n <= max {
            Some(n)
        } else {
            None
        },
        None => None,
    }
}

proof fn lemma_digits_grow(s: Seq<char>, k: int)
    requires
        0 <= k <= s.len(),
    ensures
        digits_number(s) matches Some(n) ==> (digits_number(s.take(k)) matches Some(m) && m <= n),
    decreases s.len(),
{
    if k == s.len() {
        assert(s.take(k) =~= s);
    } else {
        lemma_digits_grow(s.drop_last(), k);
        assert(s.drop_last().take(k) =~= s.take(k));
    }
}

/// Reads a number of at most `max`.
pub(crate) fn read_number(v: &Vec<char>, from: usize, to: usize, max: u64) -> (r: Option<u64>)
    requires
        from <= to <= v@.len(),
    ensures
        match r {
            Some(n) => number_upto(v@.subrange(from as int, to as int), max as nat) == Some(
                n as nat,
            ),
            None => number_upto(v@.subrange(from as int, to as int), max as nat) is None,
        },
{
    let ghost s = v@.subrange(from as int, to as int);
    let start: usize = if from < to && v[from] == '+' {
        from + 1
    } else {
        from
    };
    let ghost digits = v@.subrange(start as int, to as int);
    proof {
        if start == from + 1 {
            assert(s[0] == '+');
            assert(s.drop_first() =~= digits);
        } else if s.len() > 0 {
            assert(s[0] == v@[from as int]);
        }
    }
    if start == to {
        return None;
    }
    let mut k: usize = start;
    let mut n: u64 = 0;
    assert(digits.take(0) =~= Seq::<char>::empty());
    while k < to
        invariant
            from <= start <= k <= to <= v@.len(),
            start < to,
            s == v@.subrange(from as int, to as int),
            digits == v@.subrange(start as int, to as int),
            number_upto(s, max as nat) == (match digits_number(digits) {
                Some(m) => if m <= max {
                    Some(m)
                } else {
                    None
                },
                None => None,
            }),
            digits_number(digits.take(k - start)) == Some(n as nat),
            n <= max,
        decreases to - k,
    {
        let x: u32 = v[k] as u32;
        proof {
            let next = digits.take(k + 1 - start);
            assert(next.drop_last() =~= digits.take(k - start));
            assert(next.last() == v@[k as int]);
            lemma_digits_grow(digits, k + 1 - start);
        }
        if x < 48 || x > 57 {
            return None;
        }
        let d: u64 = (x - 48) as u64;
        let big: u128 = (n as u128) * 10 + (d as u128);
        if big > max as u128 {
            return None;
        }
        n = big as u64;
        k = k + 1;
    }
    assert(digits.take(to - start) =~= digits);
    Some(n)
}

pub open spec fn digit_char(d: nat) -> char {
    seq!['0', '1', '2', '3', '4', '5', '6', '7', '8', '9'][d as int]
}

fn char_of_digit(d: u8) -> (c: char)
    requires
        d < 10,
    ensures
        c == digit_char(d as nat),
{
    match d {
        0 => '0',
        1 => '1',
        2 => '2',
        3 => '3',
        4 => '4',
        5 => '5',
        6 => '6',
        7 => '7',
        8 => '8',
        _ => '9',
    }
}

/// A number in decimal.
pub open spec fn decimal(n: nat) -> Seq<char>
    decreases n,
{
    if n < 10 {
        seq![digit_char(n)]
    } else {
        decimal(n / 10).push(digit_char(n % 10))
    }
}

/// Appends a number in decimal.
pub(crate) fn append_decimal(s: &mut String, n: u64)
    ensures
        final(s)@ == old(s)@ + decimal(n as nat),
    decreases n,
{
    let ghost before = s@;
    if n < 10 {
        push_char(s, char_of_digit(n as u8));
        assert(s@ =~= before + decimal(n as nat));
    } else {
        append_decimal(s, n / 10);
        push_char(s, char_of_digit((n % 10) as u8));
        assert(s@ =~= before + decimal(n as nat));
    }
}

/// Decimals read back.
pub proof fn decimals_read_back(n: nat)
    ensures
        digits_number(decimal(n)) == Some(n),
        decimal(n).len() > 0,
        forall|k: int| 0 <= k < decimal(n).len() ==> digit(#[trigger] decimal(n)[k]) is Some,
    decreases n,
{
    if n < 10 {
        let s = seq![digit_char(n)];
        assert(s.drop_last() =~= Seq::<char>::empty());
        assert(digits_number(Seq::<char>::empty()) == Some(0nat));
        assert(digit(digit_char(n)) == Some(n));
    } else {
        decimals_read_back(n / 10);
        let s = decimal(n);
        assert(s.drop_last() =~= decimal(n / 10));
        assert(digit(digit_char(n % 10)) == Some((n % 10) as nat));
        assert forall|k: int| 0 <= k < s.len() implies digit(#[trigger] s[k]) is Some by {
            if k < s.len() - 1 {
                assert(s[k] == decimal(n / 10)[k]);
            }
        }
    }
}

/// Trimming drops white space at both ends, and nothing else.
pub proof fn trimming_drops_white_space(before: Seq<char>, s: Seq<char>, behind: Seq<char>)
    requires
        s.len() > 0 && !white(s[0]) && !white(s.last()),
        forall|k: int| 0 <= k < before.len() ==> white(#[trigger] before[k]),
        forall|k: int| 0 <= k < behind.len() ==> white(#[trigger] behind[k]),
    ensures
        trim(before + s + behind) == s,
{
    let all = before + s + behind;
    let k = before.len() as int;
    assert forall|j: int| 0 <= j < k implies white(#[trigger] all[j]) by {
        assert(all[j] == before[j]);
    }
    lemma_trim_start(all, k);
    let rest = s + behind;
    assert(all.skip(k) =~= rest);
    assert(rest[0] == s[0]);
    let n = s.len() as int;
    assert forall|j: int| n <= j < rest.len() implies white(#[trigger] rest[j]) by {
        assert(rest[j] == behind[j - n]);
    }
    lemma_trim_end(rest, n);
    assert(rest.take(n) =~= s);
}

/// A number is read with or without a plus sign, and not where it is too large.
pub proof fn numbers_are_read_up_to_their_limit(n: nat, max: nat)
    ensures
        number_upto(decimal(n), max) == (if n <= max {
            Some(n)
        } else {
            None
        }),
        number_upto(seq!['+'] + decimal(n), max) == (if n <= max {
            Some(n)
        } else {
            None
        }),
{
    decimals_read_back(n);
    let d = decimal(n);
    assert(digit(d[0]) is Some);
    assert(d[0] != '+');
    let signed = seq!['+'] + d;
    assert(signed[0] == '+');
    assert(signed.drop_first() =~= d);
}

} // verus!
