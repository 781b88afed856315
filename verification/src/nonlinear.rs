//! Early conflicts in nonlinear arithmetic, and the choice of a nonlinear
//! backend.
//!
//! Squares that equal a negative number, or over the integers a number that is
//! no square, are contradictions; so is a positive square whose sum with a
//! bounded variable comes out too small.

use crate::aliases::is_var;
use crate::collections::{map_get, map_insert, map_new};
use crate::ite_table::{int_const_val, int_literal};
use crate::numbers::{rat_add, rat_div, rat_mul, rat_neg, rat_sub, Rat};
use crate::semantics::{
    all_hold, arg_sorts, eqv, eval, eval_args, holds, is_true, lemma_eval, num, product_of, sum_of,
    Interp,
};
use crate::terms::{
    is_numeric_sort, node_below, numeric_sort, terms_wf, Data, DataView, Op, SortKind, TermId,
    TermStore, TermView, INT_SORT,
};
use crate::text::chars_of;
use crate::walk::{collect_subterms, lemma_reach_le, lemma_reach_step, lists_reach, subterm};
use rustc_hash::FxHashMap;
use vstd::prelude::*;

verus! {

/// The solver for nonlinear constraints.
#[derive(Clone, Copy, PartialEq, Eq, Debug, Structural)]
pub enum NlBackend {
    /// Integers, or integers mixed with reals.
    Nia,
    /// Reals.
    Nra,
}

/// A comparison.
#[derive(Clone, Copy, PartialEq, Eq, Debug, Structural)]
pub enum CompOp {
    Gt,
    Ge,
    Lt,
    Le,
}

impl CompOp {
    /// The comparison of the negated sides.
    pub open spec fn flipped(self) -> CompOp {
        match self {
            CompOp::Gt => CompOp::Lt,
            CompOp::Ge => CompOp::Le,
            CompOp::Lt => CompOp::Gt,
            CompOp::Le => CompOp::Ge,
        }
    }

    /// What the comparison says of two numbers.
    pub open spec fn compares(self, a: real, b: real) -> bool {
        match self {
            CompOp::Gt => a > b,
            CompOp::Ge => a >= b,
            CompOp::Lt => a < b,
            CompOp::Le => a <= b,
        }
    }

    /// Turns the comparison round, and keeps its strictness.
    pub fn flip(self) -> (r: CompOp)
        ensures
            r == self.flipped(),
            forall|a: real, b: real| #[trigger] r.compares(-a, -b) == self.compares(a, b),
    {
        match self {
            CompOp::Gt => CompOp::Lt,
            CompOp::Ge => CompOp::Le,
            CompOp::Lt => CompOp::Gt,
            CompOp::Le => CompOp::Ge,
        }
    }
}

/// Some number has the square `n`.
pub open spec fn perfect_square(n: int) -> bool {
    exists|k: int| #[trigger] is_root(k, n)
}

pub open spec fn is_root(k: int, n: int) -> bool {
    k * k == n
}

/// Whether `n` is the square of an integer.
pub fn is_perfect_square(n: u64) -> (b: bool)
    ensures
        b == perfect_square(n as int),
{
    let mut lo: u128 = 0;
    let mut hi: u128 = 0x1_0000_0000;
    proof {
        assert(0x1_0000_0000 * 0x1_0000_0000 > n as int) by (nonlinear_arith)
            requires
                n <= 0xffff_ffff_ffff_ffff,
        ;
    }
    while lo + 1 < hi
        invariant
            lo < hi <= 0x1_0000_0000,
            lo * lo <= n,
            hi * hi > n,
        decreases hi - lo,
    {
        let mid: u128 = lo + (hi - lo) / 2;
        assert(mid * mid <= 0x1_0000_0000 * 0x1_0000_0000) by (nonlinear_arith)
            requires
                0 <= mid <= 0x1_0000_0000,
        ;
        if mid * mid <= n as u128 {
            lo = mid;
        } else {
            hi = mid;
        }
    }
    proof {
        assert forall|k: int| #[trigger] is_root(k, n as int) implies lo * lo == n by {
            let m = if k < 0 { -k } else { k };
            assert(m * m == n) by (nonlinear_arith)
                requires
                    k * k == n,
                    m == k || m == -k,
            ;
            let (l, h) = (lo as int, hi as int);
            assert(m == l) by (nonlinear_arith)
                requires
                    0 <= m,
                    0 <= l,
                    l * l <= m * m,
                    m * m < h * h,
                    h == l + 1,
            ;
        }
        if lo * lo == n {
            assert(is_root(lo as int, n as int));
        }
    }
    lo * lo == n as u128
}

/// The letter in either case.
pub open spec fn letter(c: char, upper: char, lower: char) -> bool {
    c == upper || c == lower
}

/// A logic that restricts nothing: none, or `ALL` in any case.
pub open spec fn open_logic(logic: Seq<char>) -> bool {
    logic.len() == 0 || (logic.len() == 3 && letter(logic[0], 'A', 'a') && letter(
        logic[1],
        'L',
        'l',
    ) && letter(logic[2], 'L', 'l'))
}

pub fn is_open_logic(logic: &str) -> (b: bool)
    ensures
        b == open_logic(logic@),
{
    let c = chars_of(logic);
    c.len() == 0 || (c.len() == 3 && (c[0] == 'A' || c[0] == 'a') && (c[1] == 'L' || c[1] == 'l')
        && (c[2] == 'L' || c[2] == 'l'))
}

/// The logic names integer or mixed nonlinear arithmetic.
pub open spec fn integer_logic(logic: Seq<char>) -> bool {
    crate::strings::occurs(seq!['N', 'I', 'A'], logic) || crate::strings::occurs(
        seq!['N', 'I', 'R', 'A'],
        logic,
    )
}

/// The logic names real nonlinear arithmetic.
pub open spec fn real_logic(logic: Seq<char>) -> bool {
    crate::strings::occurs(seq!['N', 'R', 'A'], logic)
}

fn names_integer_logic(logic: &Vec<char>) -> (b: bool)
    ensures
        b == integer_logic(logic@),
{
    let mut nia: Vec<char> = Vec::new();
    nia.push('N');
    nia.push('I');
    nia.push('A');
    assert(nia@ =~= seq!['N', 'I', 'A']);
    let mut nira: Vec<char> = Vec::new();
    nira.push('N');
    nira.push('I');
    nira.push('R');
    nira.push('A');
    assert(nira@ =~= seq!['N', 'I', 'R', 'A']);
    crate::strings::contains_text(logic, &nia) || crate::strings::contains_text(logic, &nira)
}

fn names_real_logic(logic: &Vec<char>) -> (b: bool)
    ensures
        b == real_logic(logic@),
{
    let mut nra: Vec<char> = Vec::new();
    nra.push('N');
    nra.push('R');
    nra.push('A');
    assert(nra@ =~= seq!['N', 'R', 'A']);
    crate::strings::contains_text(logic, &nra)
}

/// A term that reads, writes or is an array.
pub open spec fn array_term(s: Seq<TermView>, sorts: Seq<SortKind>, x: TermId) -> bool {
    &&& x < s.len()
    &&& s[x as int].op == Op::Select || s[x as int].op == Op::Store || (s[x as int].sort
        < sorts.len() && sorts[s[x as int].sort as int] is Array)
}

/// An integer term of arithmetic.
pub open spec fn int_arith_term(s: Seq<TermView>, x: TermId) -> bool {
    &&& x < s.len()
    &&& s[x as int].sort == INT_SORT
    &&& match s[x as int].op {
        Op::Var | Op::Select | Op::IntConst | Op::Add | Op::Mul | Op::Sub | Op::Neg | Op::Div
        | Op::Mod => true,
        _ => false,
    }
}

fn is_array_term(store: &TermStore, x: TermId) -> (b: bool)
    ensures
        b == array_term(store.terms(), store.sorts@, x),
{
    match store.get(x) {
        None => false,
        Some(node) => match node.op {
            Op::Select | Op::Store => true,
            _ => if node.sort < store.sorts.len() {
                match store.sorts[node.sort] {
                    SortKind::Array { .. } => true,
                    _ => false,
                }
            } else {
                false
            },
        },
    }
}

fn is_int_arith_term(store: &TermStore, x: TermId) -> (b: bool)
    ensures
        b == int_arith_term(store.terms(), x),
{
    match store.get(x) {
        None => false,
        Some(node) => node.sort == INT_SORT && match node.op {
            Op::Var | Op::Select | Op::IntConst | Op::Add | Op::Mul | Op::Sub | Op::Neg | Op::Div
            | Op::Mod => true,
            _ => false,
        },
    }
}

/// Some subterm of the assertions is an array term.
pub open spec fn arrays_occur(
    s: Seq<TermView>,
    sorts: Seq<SortKind>,
    assertions: Seq<TermId>,
) -> bool {
    exists|k: int, x: TermId|
        0 <= k < assertions.len() && #[trigger] subterm(s, assertions[k], x) && array_term(
            s,
            sorts,
            x,
        )
}

/// Some subterm of the assertions is an integer term of arithmetic.
pub open spec fn int_arith_occurs(s: Seq<TermView>, assertions: Seq<TermId>) -> bool {
    exists|k: int, x: TermId|
        0 <= k < assertions.len() && #[trigger] subterm(s, assertions[k], x) && int_arith_term(s, x)
}

pub fn assertions_have_array(store: &TermStore, assertions: &Vec<TermId>) -> (b: bool)
    requires
        store.wf(),
        forall|k: int| 0 <= k < assertions@.len() ==> (#[trigger] assertions@[k]) < store.terms().len(),
    ensures
        b == arrays_occur(store.terms(), store.sorts@, assertions@),
{
    let ghost s = store.terms();
    let mut n: usize = 0;
    while n < assertions.len()
        invariant
            n <= assertions.len(),
            store.wf(),
            s == store.terms(),
            forall|k: int| 0 <= k < assertions@.len() ==> (#[trigger] assertions@[k]) < s.len(),
            forall|k: int, x: TermId|
                0 <= k < n && #[trigger] subterm(s, assertions@[k], x) ==> !array_term(
                    s,
                    store.sorts@,
                    x,
                ),
        decreases assertions.len() - n,
    {
        assert(assertions@[n as int] < s.len());
        let list = collect_subterms(store, assertions[n]);
        let mut m: usize = 0;
        while m < list.len()
            invariant
                m <= list.len(),
                n < assertions@.len(),
                s == store.terms(),
                lists_reach(list@, s, Map::empty(), assertions@[n as int]),
                forall|j: int| 0 <= j < m ==> !array_term(s, store.sorts@, #[trigger] list@[j]),
            decreases list.len() - m,
        {
            if is_array_term(store, list[m]) {
                assert(list@.contains(list@[m as int]));
                assert(subterm(s, assertions@[n as int], list@[m as int]));
                return true;
            }
            m = m + 1;
        }
        proof {
            assert forall|x: TermId| #[trigger] subterm(s, assertions@[n as int], x) implies !array_term(
                s,
                store.sorts@,
                x,
            ) by {
                assert(list@.contains(x));
                let j = choose|j: int| 0 <= j < list@.len() && list@[j] == x;
                assert(!array_term(s, store.sorts@, list@[j]));
            }
        }
        n = n + 1;
    }
    false
}

pub fn assertions_have_int_arith(store: &TermStore, assertions: &Vec<TermId>) -> (b: bool)
    requires
        store.wf(),
        forall|k: int| 0 <= k < assertions@.len() ==> (#[trigger] assertions@[k]) < store.terms().len(),
    ensures
        b == int_arith_occurs(store.terms(), assertions@),
{
    let ghost s = store.terms();
    let mut n: usize = 0;
    while n < assertions.len()
        invariant
            n <= assertions.len(),
            store.wf(),
            s == store.terms(),
            forall|k: int| 0 <= k < assertions@.len() ==> (#[trigger] assertions@[k]) < s.len(),
            forall|k: int, x: TermId|
                0 <= k < n && #[trigger] subterm(s, assertions@[k], x) ==> !int_arith_term(s, x),
        decreases assertions.len() - n,
    {
        assert(assertions@[n as int] < s.len());
        let list = collect_subterms(store, assertions[n]);
        let mut m: usize = 0;
        while m < list.len()
            invariant
                m <= list.len(),
                n < assertions@.len(),
                s == store.terms(),
                lists_reach(list@, s, Map::empty(), assertions@[n as int]),
                forall|j: int| 0 <= j < m ==> !int_arith_term(s, #[trigger] list@[j]),
            decreases list.len() - m,
        {
            if is_int_arith_term(store, list[m]) {
                assert(list@.contains(list@[m as int]));
                assert(subterm(s, assertions@[n as int], list@[m as int]));
                return true;
            }
            m = m + 1;
        }
        proof {
            assert forall|x: TermId| #[trigger] subterm(s, assertions@[n as int], x) implies !int_arith_term(
                s,
                x,
            ) by {
                assert(list@.contains(x));
                let j = choose|j: int| 0 <= j < list@.len() && list@[j] == x;
                assert(!int_arith_term(s, list@[j]));
            }
        }
        n = n + 1;
    }
    false
}

/// The logic that counts: unset means unrestricted.
pub open spec fn effective_logic(logic: Option<&str>) -> Seq<char> {
    match logic {
        Some(l) => l@,
        None => seq!['A', 'L', 'L'],
    }
}

fn logic_chars(logic: Option<&str>) -> (c: Vec<char>)
    ensures
        c@ == effective_logic(logic),
{
    match logic {
        Some(l) => chars_of(l),
        None => {
            let mut all: Vec<char> = Vec::new();
            all.push('A');
            all.push('L');
            all.push('L');
            assert(all@ =~= seq!['A', 'L', 'L']);
            all
        },
    }
}

fn open_chars(c: &Vec<char>) -> (b: bool)
    ensures
        b == open_logic(c@),
{
    c.len() == 0 || (c.len() == 3 && (c[0] == 'A' || c[0] == 'a') && (c[1] == 'L' || c[1] == 'l')
        && (c[2] == 'L' || c[2] == 'l'))
}

/// The backend for the assertions: the one that the logic names; for an open
/// logic with nonlinear terms, integers where arrays or integers occur, else
/// reals.
pub open spec fn backend_for(
    logic: Seq<char>,
    nonlinear: bool,
    s: Seq<TermView>,
    sorts: Seq<SortKind>,
    assertions: Seq<TermId>,
) -> Option<NlBackend> {
    if integer_logic(logic) {
        Some(NlBackend::Nia)
    } else if real_logic(logic) {
        Some(NlBackend::Nra)
    } else if open_logic(logic) && nonlinear {
        if arrays_occur(s, sorts, assertions) || int_arith_occurs(s, assertions) {
            Some(NlBackend::Nia)
        } else {
            Some(NlBackend::Nra)
        }
    } else {
        None
    }
}

/// Chooses the backend; `nonlinear` says whether an assertion has a nonlinear
/// term.
pub fn nl_backend(
    logic: Option<&str>,
    nonlinear: bool,
    store: &TermStore,
    assertions: &Vec<TermId>,
) -> (r: Option<NlBackend>)
    requires
        store.wf(),
        forall|k: int| 0 <= k < assertions@.len() ==> (#[trigger] assertions@[k]) < store.terms().len(),
    ensures
        r == backend_for(
            effective_logic(logic),
            nonlinear,
            store.terms(),
            store.sorts@,
            assertions@,
        ),
{
    let c = logic_chars(logic);
    if names_integer_logic(&c) {
        return Some(NlBackend::Nia);
    }
    if names_real_logic(&c) {
        return Some(NlBackend::Nra);
    }
    if !open_chars(&c) || !nonlinear {
        return None;
    }
    if assertions_have_array(store, assertions) || assertions_have_int_arith(store, assertions) {
        Some(NlBackend::Nia)
    } else {
        Some(NlBackend::Nra)
    }
}

/// The rational that a numeral is.
pub open spec fn numeral(s: Seq<TermView>, t: TermId) -> Option<Rat> {
    if t >= s.len() {
        None
    } else {
        match s[t as int].op {
            Op::IntConst => match int_literal(s, t) {
                Some(n) => Some(Rat { num: n, den: 1 }),
                None => None,
            },
            Op::RealConst => match s[t as int].data {
                DataView::Real(r) => Some(r),
                _ => None,
            },
            _ => None,
        }
    }
}

fn read_numeral(store: &TermStore, t: TermId) -> (r: Option<Rat>)
    requires
        store.wf(),
    ensures
        r == numeral(store.terms(), t),
        r matches Some(q) ==> q.wf(),
{
    match store.get(t) {
        None => None,
        Some(node) => {
            assert(node_below(store.terms(), t as int));
            match node.op {
                Op::IntConst => match int_const_val(t, store) {
                    Some(n) => Some(Rat::from_integer(n)),
                    None => None,
                },
                Op::RealConst => match &node.data {
                    Data::Real(q) => Some(*q),
                    _ => None,
                },
                _ => None,
            }
        },
    }
}

/// The rational that a constant expression of numerals, opposites, differences
/// and sums is, where no step overflows.
pub open spec fn const_of(s: Seq<TermView>, t: TermId) -> Option<Rat>
    decreases t, 1int, 0int,
{
    if t >= s.len() {
        None
    } else {
        match s[t as int].op {
            Op::IntConst | Op::RealConst => numeral(s, t),
            Op::Neg => if s[t as int].args[0] < t {
                match const_of(s, s[t as int].args[0]) {
                    Some(a) => rat_neg(a),
                    None => None,
                }
            } else {
                None
            },
            Op::Sub => if s[t as int].args[0] < t && s[t as int].args[1] < t {
                match (const_of(s, s[t as int].args[0]), const_of(s, s[t as int].args[1])) {
                    (Some(a), Some(b)) => rat_sub(a, b),
                    _ => None,
                }
            } else {
                None
            },
            Op::Add => const_sum(s, t, s[t as int].args.len() as int),
            _ => None,
        }
    }
}

/// The sum of the first `n` arguments.
pub open spec fn const_sum(s: Seq<TermView>, t: TermId, n: int) -> Option<Rat>
    decreases t, 0int, n,
{
    if n <= 0 {
        Some(Rat { num: 0, den: 1 })
    } else if n > s[t as int].args.len() || s[t as int].args[n - 1] >= t {
        None
    } else {
        match (const_sum(s, t, n - 1), const_of(s, s[t as int].args[n - 1])) {
            (Some(a), Some(b)) => rat_add(a, b),
            _ => None,
        }
    }
}

/// The constants among the terms below some point.
pub open spec fn constants_known(
    s: Seq<TermView>,
    known: Map<TermId, Rat>,
    list: Seq<TermId>,
    n: int,
) -> bool {
    forall|j: int|
        0 <= j < n ==> (match const_of(s, #[trigger] list[j]) {
            Some(q) => known.contains_key(list[j]) && known[list[j]] == q && q.wf(),
            None => !known.contains_key(list[j]),
        })
}

fn lookup_const(known: &FxHashMap<TermId, Rat>, t: TermId) -> (r: Option<Rat>)
    ensures
        r == (if known@.contains_key(t) {
            Some(known@[t])
        } else {
            None
        }),
{
    match map_get(known, t) {
        Some(q) => Some(*q),
        None => None,
    }
}

/// The constant that a term is, given those of its arguments.
fn const_step(store: &TermStore, x: TermId, known: &FxHashMap<TermId, Rat>) -> (r: Option<Rat>)
    requires
        store.wf(),
        x < store.terms().len(),
        forall|k: int|
            0 <= k < store.terms()[x as int].args.len() ==> (match const_of(
                store.terms(),
                #[trigger] store.terms()[x as int].args[k],
            ) {
                Some(q) => known@.contains_key(store.terms()[x as int].args[k])
                    && known@[store.terms()[x as int].args[k]] == q && q.wf(),
                None => !known@.contains_key(store.terms()[x as int].args[k]),
            }),
    ensures
        r == const_of(store.terms(), x),
        r matches Some(q) ==> q.wf(),
{
    let ghost s = store.terms();
    let ghost args = s[x as int].args;
    assert(node_below(s, x as int));
    let node = &store.nodes[x];
    match node.op {
        Op::IntConst | Op::RealConst => read_numeral(store, x),
        Op::Neg => {
            assert(args[0] < x);
            match lookup_const(known, node.args[0]) {
                Some(a) => a.checked_neg(),
                None => None,
            }
        },
        Op::Sub => {
            assert(args[0] < x && args[1] < x);
            match (lookup_const(known, node.args[0]), lookup_const(known, node.args[1])) {
                (Some(a), Some(b)) => a.checked_sub(b),
                _ => None,
            }
        },
        Op::Add => {
            let mut acc: Rat = Rat::zero();
            let mut k: usize = 0;
            while k < node.args.len()
                invariant
                    k <= node.args.len(),
                    s == store.terms(),
                    args == s[x as int].args,
                    node.args@ == args,
                    s[x as int].op == Op::Add,
                    x < s.len(),
                    node_below(s, x as int),
                    acc.wf(),
                    const_sum(s, x, k as int) == Some(acc),
                    forall|j: int|
                        0 <= j < args.len() ==> (match const_of(s, #[trigger] args[j]) {
                            Some(q) => known@.contains_key(args[j]) && known@[args[j]] == q
                                && q.wf(),
                            None => !known@.contains_key(args[j]),
                        }),
                decreases node.args.len() - k,
            {
                assert(args[k as int] < x);
                let sum = match lookup_const(known, node.args[k]) {
                    Some(q) => acc.checked_add(q),
                    None => None,
                };
                assert(const_sum(s, x, k + 1) == sum);
                match sum {
                    Some(q) => {
                        acc = q;
                    },
                    None => {
                        proof {
                            lemma_sum_none(s, x, k + 1, args.len() as int);
                        }
                        return None;
                    },
                }
                k = k + 1;
            }
            Some(acc)
        },
        _ => None,
    }
}

proof fn lemma_sum_none(s: Seq<TermView>, t: TermId, n: int, m: int)
    requires
        n <= m,
        const_sum(s, t, n) is None,
    ensures
        const_sum(s, t, m) is None,
    decreases m,
{
    if n < m {
        lemma_sum_none(s, t, n, m - 1);
    }
}

/// The rational that a constant expression is.
pub fn extract_rational_const(store: &TermStore, t: TermId) -> (r: Option<Rat>)
    requires
        store.wf(),
    ensures
        r == const_of(store.terms(), t),
        r matches Some(q) ==> q.wf(),
{
    let ghost s = store.terms();
    if t >= store.nodes.len() {
        return None;
    }
    let list = collect_subterms(store, t);
    let mut known: FxHashMap<TermId, Rat> = map_new();
    let mut n: usize = 0;
    while n < list.len()
        invariant
            n <= list.len(),
            store.wf(),
            s == store.terms(),
            t < s.len(),
            lists_reach(list@, s, Map::empty(), t),
            constants_known(s, known@, list@, n as int),
            forall|x: TermId| #[trigger]
                known@.contains_key(x) ==> exists|j: int| 0 <= j < n && #[trigger] list@[j] == x,
        decreases list.len() - n,
    {
        let x: TermId = list[n];
        let ghost before = known@;
        proof {
            assert(list@.contains(x));
            lemma_reach_le(s, Map::empty(), t, x);
            assert(node_below(s, x as int));
            assert forall|k: int| 0 <= k < s[x as int].args.len() implies (match const_of(
                s,
                #[trigger] s[x as int].args[k],
            ) {
                Some(q) => known@.contains_key(s[x as int].args[k]) && known@[s[x as int].args[k]]
                    == q && q.wf(),
                None => !known@.contains_key(s[x as int].args[k]),
            }) by {
                lemma_reach_step(s, Map::empty(), t, x, k);
                let a = s[x as int].args[k];
                assert(list@.contains(a));
                let j = choose|j: int| 0 <= j < list@.len() && list@[j] == a;
                assert(a < x);
                assert(j < n) by {
                    if n < j {
                        assert(list@[n as int] < list@[j]);
                    }
                }
                assert(const_of(s, list@[j]) == const_of(s, a));
            }
        }
        if let Some(q) = const_step(store, x, &known) {
            map_insert(&mut known, x, q);
        }
        proof {
            assert(!before.contains_key(x)) by {
                if before.contains_key(x) {
                    let j = choose|j: int| 0 <= j < n && #[trigger] list@[j] == x;
                    assert(list@[j] < list@[n as int]);
                }
            }
            assert forall|j: int| 0 <= j < n + 1 implies (match const_of(s, #[trigger] list@[j]) {
                Some(q) => known@.contains_key(list@[j]) && known@[list@[j]] == q && q.wf(),
                None => !known@.contains_key(list@[j]),
            }) by {
                if j < n {
                    assert(list@[j] < list@[n as int]);
                }
            }
            assert forall|y: TermId| #[trigger] known@.contains_key(y) implies exists|j: int|
                0 <= j < n + 1 && #[trigger] list@[j] == y by {
                if y == x {
                    assert(list@[n as int] == y);
                } else {
                    let j = choose|j: int| 0 <= j < n && #[trigger] list@[j] == y;
                    assert(list@[j] == y);
                }
            }
        }
        n = n + 1;
    }
    proof {
        assert(subterm(s, t, t));
        assert(list@.contains(t));
        let j = choose|j: int| 0 <= j < list@.len() && list@[j] == t;
        assert(const_of(s, list@[j]) == const_of(s, t));
    }
    lookup_const(&known, t)
}

/// The constant factor and the variables among the first `n` factors, where all
/// factors are numerals and variables and no product overflows.
pub open spec fn factors(s: Seq<TermView>, args: Seq<TermId>, n: int) -> Option<(Rat, Seq<TermId>)>
    decreases n,
{
    if n <= 0 {
        Some((Rat { num: 1, den: 1 }, Seq::empty()))
    } else {
        match factors(s, args, n - 1) {
            None => None,
            Some((c, vars)) => if is_var(s, args[n - 1]) {
                Some((c, vars.push(args[n - 1])))
            } else {
                match numeral(s, args[n - 1]) {
                    Some(q) => match rat_mul(c, q) {
                        Some(p) => Some((p, vars)),
                        None => None,
                    },
                    None => None,
                }
            },
        }
    }
}

fn read_factors(store: &TermStore, args: &Vec<TermId>) -> (r: Option<(Rat, Vec<TermId>)>)
    requires
        store.wf(),
    ensures
        match r {
            Some((c, vars)) => factors(store.terms(), args@, args@.len() as int) == Some((c, vars@))
                && c.wf(),
            None => factors(store.terms(), args@, args@.len() as int) is None,
        },
{
    let ghost s = store.terms();
    let mut c: Rat = Rat::one();
    let mut vars: Vec<TermId> = Vec::new();
    let mut n: usize = 0;
    assert(vars@ =~= Seq::<TermId>::empty());
    while n < args.len()
        invariant
            n <= args.len(),
            store.wf(),
            s == store.terms(),
            c.wf(),
            factors(s, args@, n as int) == Some((c, vars@)),
        decreases args.len() - n,
    {
        let a: TermId = args[n];
        if crate::strings::is_string_variable(store, a) {
            vars.push(a);
        } else {
            let product = match read_numeral(store, a) {
                Some(q) => c.checked_mul(q),
                None => None,
            };
            match product {
                Some(p) => {
                    c = p;
                },
                None => {
                    proof {
                        assert(factors(s, args@, n + 1) is None);
                        lemma_factors_none(s, args@, n + 1, args@.len() as int);
                    }
                    return None;
                },
            }
        }
        n = n + 1;
    }
    Some((c, vars))
}

proof fn lemma_factors_none(s: Seq<TermView>, args: Seq<TermId>, n: int, m: int)
    requires
        n <= m,
        factors(s, args, n) is None,
    ensures
        factors(s, args, m) is None,
    decreases m,
{
    if n < m {
        lemma_factors_none(s, args, n, m - 1);
    }
}

/// The variable and the coefficient of a multiple of the square of a variable.
pub open spec fn pure_square(s: Seq<TermView>, t: TermId) -> Option<(TermId, Rat)> {
    if t < s.len() && s[t as int].op == Op::Mul {
        match factors(s, s[t as int].args, s[t as int].args.len() as int) {
            Some((c, vars)) => if vars.len() == 2 && vars[0] == vars[1] {
                Some((vars[0], c))
            } else {
                None
            },
            None => None,
        }
    } else {
        None
    }
}

pub fn extract_pure_square(store: &TermStore, t: TermId) -> (r: Option<(TermId, Rat, bool)>)
    requires
        store.wf(),
    ensures
        match r {
            Some((v, c, whole)) => pure_square(store.terms(), t) == Some((v, c)) && c.wf() && is_var(
                store.terms(),
                v,
            ) && whole == (store.terms()[v as int].sort == INT_SORT),
            None => pure_square(store.terms(), t) is None,
        },
{
    let ghost s = store.terms();
    let node = match store.get(t) {
        None => {
            return None;
        },
        Some(node) => node,
    };
    if node.op != Op::Mul {
        return None;
    }
    match read_factors(store, &node.args) {
        Some((c, vars)) => {
            if vars.len() == 2 && vars[0] == vars[1] {
                let v: TermId = vars[0];
                proof {
                    lemma_factor_vars(s, node.args@, node.args@.len() as int);
                    assert(vars@[0] == v);
                }
                let whole = store.nodes[v].sort == INT_SORT;
                Some((v, c, whole))
            } else {
                None
            }
        },
        None => None,
    }
}

proof fn lemma_factor_vars(s: Seq<TermView>, args: Seq<TermId>, n: int)
    requires
        factors(s, args, n) is Some,
    ensures
        ({
            let (c, vars) = factors(s, args, n)->0;
            forall|k: int| 0 <= k < vars.len() ==> is_var(s, #[trigger] vars[k])
        }),
    decreases n,
{
    if n > 0 {
        lemma_factor_vars(s, args, n - 1);
    }
}

/// The variable and the coefficient of a multiple of a variable.
pub open spec fn linear_var(s: Seq<TermView>, t: TermId, sign: Rat) -> Option<(TermId, Rat)>
    decreases t,
{
    if t >= s.len() {
        None
    } else {
        match s[t as int].op {
            Op::Neg => match rat_neg(sign) {
                Some(n) => if s[t as int].args[0] < t {
                    linear_var(s, s[t as int].args[0], n)
                } else {
                    None
                },
                None => None,
            },
            Op::Var => Some((t, sign)),
            Op::Mul => match factors(s, s[t as int].args, s[t as int].args.len() as int) {
                Some((c, vars)) => if vars.len() == 1 {
                    match rat_mul(sign, c) {
                        Some(p) => Some((vars[0], p)),
                        None => None,
                    }
                } else {
                    None
                },
                None => None,
            },
            _ => None,
        }
    }
}

pub open spec fn unit() -> Rat {
    Rat { num: 1, den: 1 }
}

pub fn extract_linear_var(store: &TermStore, t: TermId) -> (r: Option<(TermId, Rat)>)
    requires
        store.wf(),
    ensures
        r == linear_var(store.terms(), t, unit()),
        r matches Some((v, c)) ==> c.wf(),
{
    let ghost s = store.terms();
    let mut sign: Rat = Rat::one();
    let mut current: TermId = t;
    loop
        invariant
            store.wf(),
            s == store.terms(),
            sign.wf(),
            linear_var(s, t, unit()) == linear_var(s, current, sign),
        decreases current,
    {
        let node = match store.get(current) {
            None => {
                return None;
            },
            Some(node) => node,
        };
        assert(node_below(s, current as int));
        match node.op {
            Op::Neg => {
                match sign.checked_neg() {
                    Some(n) => {
                        sign = n;
                        current = node.args[0];
                    },
                    None => {
                        return None;
                    },
                }
            },
            Op::Var => {
                return Some((current, sign));
            },
            Op::Mul => {
                return match read_factors(store, &node.args) {
                    Some((c, vars)) => if vars.len() == 1 {
                        match sign.checked_mul(c) {
                            Some(p) => Some((vars[0], p)),
                            None => None,
                        }
                    } else {
                        None
                    },
                    None => None,
                };
            },
            _ => {
                return None;
            },
        }
    }
}

/// What a conjunct says of a square or of a variable.
#[derive(Clone, Copy, PartialEq, Eq, Debug, Structural)]
pub enum NlAtom {
    /// The square of the term equals `val`.
    SqEq { sq_term: TermId, val: Rat, is_integer_sort: bool },
    /// The square of the term is positive.
    SqGtZero { sq_term: TermId },
    /// The square of the term is at least a number that is not positive.
    SqGeZero { sq_term: TermId },
    /// `sq_coeff * sq_term^2 + linear_coeff * linear_var = rhs`.
    SqPlusLinearEq {
        sq_term: TermId,
        sq_coeff: Rat,
        linear_var: TermId,
        linear_coeff: Rat,
        rhs: Rat,
    },
    /// `var >= bound`.
    LinearGe { var: TermId, bound: Rat },
    /// `var > bound`.
    LinearGt { var: TermId, bound: Rat },
    /// `var <= bound`.
    LinearLe { var: TermId, bound: Rat },
    /// `var < bound`.
    LinearLt { var: TermId, bound: Rat },
}

/// What the equation of a square and a constant says.
pub open spec fn square_equation(s: Seq<TermView>, l: TermId, r: TermId) -> Option<NlAtom> {
    match (pure_square(s, l), const_of(s, r)) {
        (Some((v, c)), Some(q)) => match rat_div(q, c) {
            Some(val) => Some(
                NlAtom::SqEq { sq_term: v, val, is_integer_sort: s[v as int].sort == INT_SORT },
            ),
            None => None,
        },
        _ => None,
    }
}

/// The square and the linear summand among the first `n`, at most one of each
/// and nothing else.
pub open spec fn summands(s: Seq<TermView>, args: Seq<TermId>, n: int) -> Option<
    (Option<(TermId, Rat)>, Option<(TermId, Rat)>),
>
    decreases n,
{
    if n <= 0 {
        Some((None, None))
    } else {
        match summands(s, args, n - 1) {
            None => None,
            Some((square, linear)) => match pure_square(s, args[n - 1]) {
                Some(p) => if square is Some {
                    None
                } else {
                    Some((Some(p), linear))
                },
                None => match linear_var(s, args[n - 1], unit()) {
                    Some(p) => if linear is Some {
                        None
                    } else {
                        Some((square, Some(p)))
                    },
                    None => None,
                },
            },
        }
    }
}

/// What the equation of a square plus a linear summand and a constant says.
pub open spec fn sum_equation(s: Seq<TermView>, sum: TermId, r: TermId) -> Option<NlAtom> {
    match const_of(s, r) {
        None => None,
        Some(q) => if sum < s.len() && s[sum as int].op == Op::Add {
            match summands(s, s[sum as int].args, s[sum as int].args.len() as int) {
                Some((Some((sq, sc)), Some((v, lc)))) => Some(
                    NlAtom::SqPlusLinearEq {
                        sq_term: sq,
                        sq_coeff: sc,
                        linear_var: v,
                        linear_coeff: lc,
                        rhs: q,
                    },
                ),
                _ => None,
            }
        } else {
            None
        },
    }
}

pub open spec fn listed(a: Option<NlAtom>) -> Seq<NlAtom> {
    match a {
        Some(x) => seq![x],
        None => Seq::empty(),
    }
}

/// What an equation of numbers says.
pub open spec fn equation_atoms(s: Seq<TermView>, l: TermId, r: TermId) -> Seq<NlAtom> {
    if l >= s.len() || !numeric_sort(s[l as int].sort) {
        Seq::empty()
    } else {
        number_equation_atoms(s, l, r)
    }
}

pub open spec fn number_equation_atoms(s: Seq<TermView>, l: TermId, r: TermId) -> Seq<NlAtom> {
    match (square_equation(s, l, r), square_equation(s, r, l)) {
        (Some(a), _) => seq![a],
        (None, Some(a)) => seq![a],
        _ => listed(sum_equation(s, l, r)) + listed(sum_equation(s, r, l)),
    }
}

pub open spec fn turned(op: CompOp, c: Rat) -> CompOp {
    if c.num < 0 {
        op.flipped()
    } else {
        op
    }
}

/// What the comparison of a left side with a constant says.
pub open spec fn comparison_atom(s: Seq<TermView>, l: TermId, r: TermId, op: CompOp) -> Option<
    NlAtom,
> {
    match (pure_square(s, l), const_of(s, r)) {
        (Some((v, c)), Some(q)) => match rat_div(q, c) {
            Some(n) => match turned(op, c) {
                CompOp::Gt => if n.num == 0 {
                    Some(NlAtom::SqGtZero { sq_term: v })
                } else {
                    None
                },
                CompOp::Ge => if n.num <= 0 {
                    Some(NlAtom::SqGeZero { sq_term: v })
                } else {
                    None
                },
                CompOp::Lt | CompOp::Le => None,
            },
            None => None,
        },
        (None, Some(q)) => match linear_var(s, l, unit()) {
            Some((v, c)) => match rat_div(q, c) {
                Some(bound) => Some(
                    match turned(op, c) {
                        CompOp::Gt => NlAtom::LinearGt { var: v, bound },
                        CompOp::Ge => NlAtom::LinearGe { var: v, bound },
                        CompOp::Lt => NlAtom::LinearLt { var: v, bound },
                        CompOp::Le => NlAtom::LinearLe { var: v, bound },
                    },
                ),
                None => None,
            },
            None => None,
        },
        _ => None,
    }
}

/// What the conjuncts of a formula say of squares and variables.
pub open spec fn atom_list(s: Seq<TermView>, t: TermId) -> Seq<NlAtom>
    decreases t, 1int, 0int,
{
    let args = s[t as int].args;
    if t >= s.len() {
        Seq::empty()
    } else {
        match s[t as int].op {
            Op::Eq => equation_atoms(s, args[0], args[1]),
            Op::Gt => listed(comparison_atom(s, args[0], args[1], CompOp::Gt)),
            Op::Ge => listed(comparison_atom(s, args[0], args[1], CompOp::Ge)),
            Op::Lt => listed(comparison_atom(s, args[1], args[0], CompOp::Gt)),
            Op::Le => listed(comparison_atom(s, args[1], args[0], CompOp::Ge)),
            Op::And => atoms_below(s, t, args.len() as int),
            _ => Seq::empty(),
        }
    }
}

pub open spec fn atoms_below(s: Seq<TermView>, t: TermId, n: int) -> Seq<NlAtom>
    decreases t, 0int, n,
{
    if n <= 0 || n > s[t as int].args.len() || s[t as int].args[n - 1] >= t {
        Seq::empty()
    } else {
        atoms_below(s, t, n - 1) + atom_list(s, s[t as int].args[n - 1])
    }
}

pub open spec fn all_atoms(s: Seq<TermView>, assertions: Seq<TermId>, n: int) -> Seq<NlAtom>
    decreases n,
{
    if n <= 0 {
        Seq::empty()
    } else {
        all_atoms(s, assertions, n - 1) + atom_list(s, assertions[n - 1])
    }
}

/// The rationals of the atoms are in lowest terms.
pub open spec fn atom_wf(a: NlAtom) -> bool {
    match a {
        NlAtom::SqEq { sq_term, val, is_integer_sort } => val.wf(),
        NlAtom::SqPlusLinearEq { sq_term, sq_coeff, linear_var, linear_coeff, rhs } => sq_coeff.wf()
            && linear_coeff.wf() && rhs.wf(),
        NlAtom::LinearGe { var, bound } => bound.wf(),
        NlAtom::LinearGt { var, bound } => bound.wf(),
        NlAtom::LinearLe { var, bound } => bound.wf(),
        NlAtom::LinearLt { var, bound } => bound.wf(),
        _ => true,
    }
}

fn read_square_equation(store: &TermStore, l: TermId, r: TermId) -> (a: Option<NlAtom>)
    requires
        store.wf(),
    ensures
        a == square_equation(store.terms(), l, r),
        a matches Some(x) ==> atom_wf(x),
{
    match (extract_pure_square(store, l), extract_rational_const(store, r)) {
        (Some((v, c, whole)), Some(q)) => match q.checked_div(c) {
            Some(val) => Some(NlAtom::SqEq { sq_term: v, val, is_integer_sort: whole }),
            None => None,
        },
        _ => None,
    }
}

/// What the equation of a sum and a constant says.
pub fn extract_nl_sum_eq(store: &TermStore, sum: TermId, r: TermId) -> (a: Option<NlAtom>)
    requires
        store.wf(),
    ensures
        a == sum_equation(store.terms(), sum, r),
        a matches Some(x) ==> atom_wf(x),
{
    let ghost s = store.terms();
    let q = match extract_rational_const(store, r) {
        Some(q) => q,
        None => {
            return None;
        },
    };
    let node = match store.get(sum) {
        None => {
            return None;
        },
        Some(node) => node,
    };
    if node.op != Op::Add {
        return None;
    }
    let mut square: Option<(TermId, Rat)> = None;
    let mut linear: Option<(TermId, Rat)> = None;
    let mut n: usize = 0;
    while n < node.args.len()
        invariant
            n <= node.args.len(),
            store.wf(),
            s == store.terms(),
            summands(s, node.args@, n as int) == Some((square, linear)),
            square matches Some(p) ==> p.1.wf(),
            linear matches Some(p) ==> p.1.wf(),
            sum < s.len(),
            s[sum as int].op == Op::Add,
            s[sum as int].args == node.args@,
            const_of(s, r) == Some(q),
        decreases node.args.len() - n,
    {
        let a: TermId = node.args[n];
        let mut known = false;
        match extract_pure_square(store, a) {
            Some((v, c, _)) => {
                if square.is_none() {
                    square = Some((v, c));
                    known = true;
                }
            },
            None => match extract_linear_var(store, a) {
                Some((v, c)) => {
                    if linear.is_none() {
                        linear = Some((v, c));
                        known = true;
                    }
                },
                None => {},
            },
        }
        if !known {
            proof {
                assert(summands(s, node.args@, n + 1) is None);
                lemma_summands_none(s, node.args@, n + 1, node.args@.len() as int);
            }
            return None;
        }
        n = n + 1;
    }
    match (square, linear) {
        (Some((sq, sc)), Some((v, lc))) => Some(
            NlAtom::SqPlusLinearEq {
                sq_term: sq,
                sq_coeff: sc,
                linear_var: v,
                linear_coeff: lc,
                rhs: q,
            },
        ),
        _ => None,
    }
}

proof fn lemma_summands_none(s: Seq<TermView>, args: Seq<TermId>, n: int, m: int)
    requires
        n <= m,
        summands(s, args, n) is None,
    ensures
        summands(s, args, m) is None,
    decreases m,
{
    if n < m {
        lemma_summands_none(s, args, n, m - 1);
    }
}

/// Adds what an equation says.
pub fn extract_nl_eq(store: &TermStore, l: TermId, r: TermId, atoms: &mut Vec<NlAtom>)
    requires
        store.wf(),
        forall|k: int| 0 <= k < old(atoms)@.len() ==> atom_wf(#[trigger] old(atoms)@[k]),
    ensures
        final(atoms)@ == old(atoms)@ + equation_atoms(store.terms(), l, r),
        forall|k: int| 0 <= k < final(atoms)@.len() ==> atom_wf(#[trigger] final(atoms)@[k]),
{
    let ghost first = atoms@;
    if l >= store.nodes.len() || !is_numeric_sort(store.nodes[l].sort) {
        assert(atoms@ =~= first + equation_atoms(store.terms(), l, r));
        return;
    }
    if let Some(a) = read_square_equation(store, l, r) {
        atoms.push(a);
        assert(atoms@ =~= first + seq![a]);
        return;
    }
    if let Some(a) = read_square_equation(store, r, l) {
        atoms.push(a);
        assert(atoms@ =~= first + seq![a]);
        return;
    }
    if let Some(a) = extract_nl_sum_eq(store, l, r) {
        atoms.push(a);
    }
    assert(atoms@ =~= first + listed(sum_equation(store.terms(), l, r)));
    if let Some(a) = extract_nl_sum_eq(store, r, l) {
        atoms.push(a);
    }
    assert(atoms@ =~= first + equation_atoms(store.terms(), l, r));
}

/// Adds what a comparison says.
pub fn extract_nl_comparison(
    store: &TermStore,
    l: TermId,
    r: TermId,
    op: CompOp,
    atoms: &mut Vec<NlAtom>,
)
    requires
        store.wf(),
        forall|k: int| 0 <= k < old(atoms)@.len() ==> atom_wf(#[trigger] old(atoms)@[k]),
    ensures
        final(atoms)@ == old(atoms)@ + listed(comparison_atom(store.terms(), l, r, op)),
        forall|k: int| 0 <= k < final(atoms)@.len() ==> atom_wf(#[trigger] final(atoms)@[k]),
{
    let ghost first = atoms@;
    assert(first + listed(None) =~= first);
    let q = match extract_rational_const(store, r) {
        Some(q) => q,
        None => {
            return;
        },
    };
    let (v, c, square) = match extract_pure_square(store, l) {
        Some((v, c, _)) => (v, c, true),
        None => match extract_linear_var(store, l) {
            Some((v, c)) => (v, c, false),
            None => {
                return;
            },
        },
    };
    let n = match q.checked_div(c) {
        Some(n) => n,
        None => {
            return;
        },
    };
    let effective = if c.num < 0 {
        op.flip()
    } else {
        op
    };
    let atom: Option<NlAtom> = if square {
        match effective {
            CompOp::Gt => if n.num == 0 {
                Some(NlAtom::SqGtZero { sq_term: v })
            } else {
                None
            },
            CompOp::Ge => if n.num <= 0 {
                Some(NlAtom::SqGeZero { sq_term: v })
            } else {
                None
            },
            CompOp::Lt | CompOp::Le => None,
        }
    } else {
        match effective {
            CompOp::Gt => Some(NlAtom::LinearGt { var: v, bound: n }),
            CompOp::Ge => Some(NlAtom::LinearGe { var: v, bound: n }),
            CompOp::Lt => Some(NlAtom::LinearLt { var: v, bound: n }),
            CompOp::Le => Some(NlAtom::LinearLe { var: v, bound: n }),
        }
    };
    assert(atom == comparison_atom(store.terms(), l, r, op));
    if let Some(a) = atom {
        atoms.push(a);
        assert(atoms@ =~= first + seq![a]);
    }
}

/// Adds what the conjuncts of a formula say.
pub fn collect_nl_atoms(store: &TermStore, t: TermId, atoms: &mut Vec<NlAtom>)
    requires
        store.wf(),
        forall|k: int| 0 <= k < old(atoms)@.len() ==> atom_wf(#[trigger] old(atoms)@[k]),
    ensures
        final(atoms)@ == old(atoms)@ + atom_list(store.terms(), t),
        forall|k: int| 0 <= k < final(atoms)@.len() ==> atom_wf(#[trigger] final(atoms)@[k]),
    decreases t,
{
    let ghost s = store.terms();
    let ghost first = atoms@;
    assert(first + Seq::<NlAtom>::empty() =~= first);
    let node = match store.get(t) {
        None => {
            return;
        },
        Some(node) => node,
    };
    assert(node_below(s, t as int));
    match node.op {
        Op::Eq => extract_nl_eq(store, node.args[0], node.args[1], atoms),
        Op::Gt => extract_nl_comparison(store, node.args[0], node.args[1], CompOp::Gt, atoms),
        Op::Ge => extract_nl_comparison(store, node.args[0], node.args[1], CompOp::Ge, atoms),
        Op::Lt => extract_nl_comparison(store, node.args[1], node.args[0], CompOp::Gt, atoms),
        Op::Le => extract_nl_comparison(store, node.args[1], node.args[0], CompOp::Ge, atoms),
        Op::And => {
            let mut k: usize = 0;
            assert(atoms@ =~= first + atoms_below(s, t, 0));
            while k < node.args.len()
                invariant
                    k <= node.args.len(),
                    store.wf(),
                    s == store.terms(),
                    t < s.len(),
                    node_below(s, t as int),
                    node.args@ == s[t as int].args,
                    atoms@ == first + atoms_below(s, t, k as int),
                    forall|j: int| 0 <= j < atoms@.len() ==> atom_wf(#[trigger] atoms@[j]),
                decreases node.args.len() - k,
            {
                assert(s[t as int].args[k as int] < t);
                collect_nl_atoms(store, node.args[k], atoms);
                assert(atoms@ =~= first + atoms_below(s, t, k + 1));
                k = k + 1;
            }
        },
        _ => {},
    }
}

/// A square that equals a negative number, or over the integers one that is no
/// square.
pub open spec fn square_conflict(a: NlAtom) -> bool {
    match a {
        NlAtom::SqEq { sq_term, val, is_integer_sort } => val.num < 0 || (is_integer_sort
            && !perfect_square(val.num as int / val.den as int)),
        _ => false,
    }
}

/// The lower bound on a variable.
pub open spec fn lower_bound_on(a: NlAtom, v: TermId) -> Option<Rat> {
    match a {
        NlAtom::LinearGe { var, bound } => if var == v {
            Some(bound)
        } else {
            None
        },
        NlAtom::LinearGt { var, bound } => if var == v {
            Some(bound)
        } else {
            None
        },
        _ => None,
    }
}

/// `sum` makes the variable smaller than where the square is 0, the square is
/// positive, and the bound is no smaller than that.
pub open spec fn sum_conflict(sum: NlAtom, positive: NlAtom, bound: NlAtom) -> bool {
    match sum {
        NlAtom::SqPlusLinearEq { sq_term, sq_coeff, linear_var, linear_coeff, rhs } => {
            &&& positive == (NlAtom::SqGtZero { sq_term })
            &&& sq_coeff.num != 0 && linear_coeff.num != 0
            &&& (sq_coeff.num > 0) == (linear_coeff.num > 0)
            &&& match (rat_div(rhs, linear_coeff), lower_bound_on(bound, linear_var)) {
                (Some(z), Some(b)) => z.value() <= b.value(),
                _ => false,
            }
        },
        _ => false,
    }
}

/// The atoms contradict each other.
pub open spec fn atoms_conflict(atoms: Seq<NlAtom>) -> bool {
    ||| exists|k: int| 0 <= k < atoms.len() && square_conflict(#[trigger] atoms[k])
    ||| exists|i: int, j: int, k: int|
        0 <= i < atoms.len() && 0 <= j < atoms.len() && 0 <= k < atoms.len()
            && #[trigger] sum_conflict(atoms[i], atoms[j], atoms[k])
}

fn clashing_square(a: &NlAtom) -> (b: bool)
    requires
        atom_wf(*a),
    ensures
        b == square_conflict(*a),
{
    match a {
        NlAtom::SqEq { sq_term: _, val, is_integer_sort } => {
            if val.num < 0 {
                return true;
            }
            if !*is_integer_sort {
                return false;
            }
            let n: i64 = val.num / val.den;
            proof {
                assert(0 <= val.num as int / val.den as int) by (nonlinear_arith)
                    requires
                        val.num >= 0,
                        val.den > 0,
                ;
            }
            !is_perfect_square(n as u64)
        },
        _ => false,
    }
}

fn clashing_sum(sum: &NlAtom, positive: &NlAtom, bound: &NlAtom) -> (b: bool)
    requires
        atom_wf(*sum),
        atom_wf(*positive),
        atom_wf(*bound),
    ensures
        b == sum_conflict(*sum, *positive, *bound),
{
    match sum {
        NlAtom::SqPlusLinearEq { sq_term, sq_coeff, linear_var, linear_coeff, rhs } => {
            let same = match positive {
                NlAtom::SqGtZero { sq_term: other } => *other == *sq_term,
                _ => false,
            };
            if !same || sq_coeff.num == 0 || linear_coeff.num == 0 || (sq_coeff.num > 0) != (
            linear_coeff.num > 0) {
                return false;
            }
            let limit: Option<Rat> = match bound {
                NlAtom::LinearGe { var, bound } => if *var == *linear_var {
                    Some(*bound)
                } else {
                    None
                },
                NlAtom::LinearGt { var, bound } => if *var == *linear_var {
                    Some(*bound)
                } else {
                    None
                },
                _ => None,
            };
            match (rhs.checked_div(*linear_coeff), limit) {
                (Some(z), Some(b)) => !b.lt(z),
                _ => false,
            }
        },
        _ => false,
    }
}

/// Whether `positive` says that the square of `sum` is positive.
fn squares_match(sum: &NlAtom, positive: &NlAtom) -> (b: bool)
    ensures
        !b ==> forall|bound: NlAtom| !#[trigger] sum_conflict(*sum, *positive, bound),
{
    match (sum, positive) {
        (
            NlAtom::SqPlusLinearEq { sq_term, sq_coeff: _, linear_var: _, linear_coeff: _, rhs: _ },
            NlAtom::SqGtZero { sq_term: other },
        ) => *sq_term == *other,
        _ => false,
    }
}

/// Whether a positive square and a bound contradict a sum.
pub fn check_sq_sum_bound_contradiction(atoms: &Vec<NlAtom>) -> (b: bool)
    requires
        forall|k: int| 0 <= k < atoms@.len() ==> atom_wf(#[trigger] atoms@[k]),
    ensures
        b == exists|i: int, j: int, k: int|
            0 <= i < atoms@.len() && 0 <= j < atoms@.len() && 0 <= k < atoms@.len()
                && #[trigger] sum_conflict(atoms@[i], atoms@[j], atoms@[k]),
{
    let mut i: usize = 0;
    while i < atoms.len()
        invariant
            i <= atoms.len(),
            forall|k: int| 0 <= k < atoms@.len() ==> atom_wf(#[trigger] atoms@[k]),
            forall|p: int, q: int, r: int|
                0 <= p < i && 0 <= q < atoms@.len() && 0 <= r < atoms@.len()
                    ==> !#[trigger] sum_conflict(atoms@[p], atoms@[q], atoms@[r]),
        decreases atoms.len() - i,
    {
        let mut j: usize = 0;
        while j < atoms.len()
            invariant
                i < atoms.len(),
                j <= atoms.len(),
                forall|k: int| 0 <= k < atoms@.len() ==> atom_wf(#[trigger] atoms@[k]),
                forall|q: int, r: int|
                    0 <= q < j && 0 <= r < atoms@.len() ==> !#[trigger] sum_conflict(
                        atoms@[i as int],
                        atoms@[q],
                        atoms@[r],
                    ),
            decreases atoms.len() - j,
        {
            let mut k: usize = 0;
            if !squares_match(&atoms[i], &atoms[j]) {
                j = j + 1;
                continue;
            }
            while k < atoms.len()
                invariant
                    i < atoms.len(),
                    j < atoms.len(),
                    k <= atoms.len(),
                    forall|m: int| 0 <= m < atoms@.len() ==> atom_wf(#[trigger] atoms@[m]),
                    forall|r: int|
                        0 <= r < k ==> !#[trigger] sum_conflict(
                            atoms@[i as int],
                            atoms@[j as int],
                            atoms@[r],
                        ),
                decreases atoms.len() - k,
            {
                assert(atom_wf(atoms@[i as int]) && atom_wf(atoms@[j as int]) && atom_wf(
                    atoms@[k as int],
                ));
                if clashing_sum(&atoms[i], &atoms[j], &atoms[k]) {
                    return true;
                }
                k = k + 1;
            }
            j = j + 1;
        }
        i = i + 1;
    }
    false
}

/// Whether the assertions have a conflict between squares, where the logic is
/// nonlinear, or open and `nonlinear` says that some assertion is.
pub fn check_nonlinear_constraints(
    logic: Option<&str>,
    nonlinear: bool,
    store: &TermStore,
    assertions: &Vec<TermId>,
) -> (b: bool)
    requires
        store.wf(),
    ensures
        ({
            let l = effective_logic(logic);
            b == ((integer_logic(l) || real_logic(l) || (open_logic(l) && nonlinear))
                && atoms_conflict(all_atoms(store.terms(), assertions@, assertions@.len() as int)))
        }),
        b ==> forall|i: Interp|
            whole_variables(store.terms(), i) ==> !(#[trigger] all_hold(
                store.terms(),
                i,
                assertions@,
            )),
{
    let ghost s = store.terms();
    let ghost satisfiable = !atoms_conflict(all_atoms(s, assertions@, assertions@.len() as int));
    proof {
        assert forall|i: Interp|
            whole_variables(s, i) && #[trigger] all_hold(s, i, assertions@) implies satisfiable by {
            nonlinear_conflicts_are_real(s, i, assertions@);
        }
    }
    let c = logic_chars(logic);
    let explicit = names_integer_logic(&c) || names_real_logic(&c);
    if !explicit && !(open_chars(&c) && nonlinear) {
        return false;
    }
    let mut atoms: Vec<NlAtom> = Vec::new();
    let mut n: usize = 0;
    assert(atoms@ =~= all_atoms(s, assertions@, 0));
    while n < assertions.len()
        invariant
            n <= assertions.len(),
            store.wf(),
            s == store.terms(),
            atoms@ == all_atoms(s, assertions@, n as int),
            forall|k: int| 0 <= k < atoms@.len() ==> atom_wf(#[trigger] atoms@[k]),
        decreases assertions.len() - n,
    {
        collect_nl_atoms(store, assertions[n], &mut atoms);
        n = n + 1;
    }
    let mut k: usize = 0;
    while k < atoms.len()
        invariant
            k <= atoms.len(),
            forall|j: int| 0 <= j < atoms@.len() ==> atom_wf(#[trigger] atoms@[j]),
            forall|j: int| 0 <= j < k ==> !square_conflict(#[trigger] atoms@[j]),
            explicit || (open_logic(c@) && nonlinear),
            explicit == (integer_logic(c@) || real_logic(c@)),
            c@ == effective_logic(logic),
            atoms@ == all_atoms(store.terms(), assertions@, assertions@.len() as int),
            satisfiable == !atoms_conflict(atoms@),
            forall|i: Interp|
                whole_variables(store.terms(), i) && #[trigger] all_hold(
                    store.terms(),
                    i,
                    assertions@,
                ) ==> satisfiable,
        decreases atoms.len() - k,
    {
        assert(atom_wf(atoms@[k as int]));
        if clashing_square(&atoms[k]) {
            return true;
        }
        k = k + 1;
    }
    check_sq_sum_bound_contradiction(&atoms)
}

/// The product of the values of variables.
pub open spec fn var_product(s: Seq<TermView>, i: Interp, vars: Seq<TermId>) -> real
    decreases vars.len(),
{
    if vars.len() == 0 {
        1real
    } else {
        var_product(s, i, vars.drop_last()) * num(eval(s, i, vars.last() as int))
    }
}

proof fn lemma_numeral_value(s: Seq<TermView>, i: Interp, t: TermId)
    requires
        terms_wf(s),
        numeral(s, t) is Some,
    ensures
        numeral(s, t)->0.den > 0,
        num(eval(s, i, t as int)) == numeral(s, t)->0.value(),
{
    assert(node_below(s, t as int));
    lemma_eval(s, i, t);
    if s[t as int].op == Op::IntConst {
        let n = int_literal(s, t)->0;
        let x = n as int as real;
        assert(x / 1real == x) by (nonlinear_arith);
        assert(1i64 as real == 1real);
    }
}

proof fn lemma_const_value(s: Seq<TermView>, i: Interp, t: TermId)
    requires
        terms_wf(s),
        const_of(s, t) is Some,
    ensures
        const_of(s, t)->0.den > 0,
        num(eval(s, i, t as int)) == const_of(s, t)->0.value(),
    decreases t, 1int, 0int,
{
    assert(node_below(s, t as int));
    let args = s[t as int].args;
    match s[t as int].op {
        Op::IntConst | Op::RealConst => {
            lemma_numeral_value(s, i, t);
        },
        Op::Neg => {
            lemma_eval(s, i, t);
            lemma_const_value(s, i, args[0]);
            let vals = eval_args(s, i, args);
            assert(vals[0] == eval(s, i, args[0] as int));
            crate::numbers::lemma_rat_neg(const_of(s, args[0])->0);
        },
        Op::Sub => {
            lemma_eval(s, i, t);
            lemma_const_value(s, i, args[0]);
            lemma_const_value(s, i, args[1]);
            let vals = eval_args(s, i, args);
            assert(vals[0] == eval(s, i, args[0] as int));
            assert(vals[1] == eval(s, i, args[1] as int));
            let b = const_of(s, args[1])->0;
            crate::numbers::lemma_rat_neg(b);
            crate::numbers::lemma_rat_add(const_of(s, args[0])->0, rat_neg(b)->0);
        },
        Op::Add => {
            lemma_eval(s, i, t);
            lemma_const_sum(s, i, t, args.len() as int);
            assert(eval_args(s, i, args).take(args.len() as int) =~= eval_args(s, i, args));
        },
        _ => {},
    }
}

proof fn lemma_const_sum(s: Seq<TermView>, i: Interp, t: TermId, n: int)
    requires
        terms_wf(s),
        t < s.len(),
        0 <= n <= s[t as int].args.len(),
        const_sum(s, t, n) is Some,
    ensures
        const_sum(s, t, n)->0.den > 0,
        sum_of(eval_args(s, i, s[t as int].args).take(n)) == const_sum(s, t, n)->0.value(),
    decreases t, 0int, n,
{
    let vals = eval_args(s, i, s[t as int].args);
    if n == 0 {
        assert(vals.take(0).len() == 0);
        assert(0real / 1real == 0real) by (nonlinear_arith);
        assert(0i64 as real == 0real && 1i64 as real == 1real);
    } else {
        let a = s[t as int].args[n - 1];
        lemma_const_sum(s, i, t, n - 1);
        lemma_const_value(s, i, a);
        assert(vals.take(n).drop_last() =~= vals.take(n - 1));
        assert(vals.take(n).last() == eval(s, i, a as int));
        crate::numbers::lemma_rat_add(const_sum(s, t, n - 1)->0, const_of(s, a)->0);
    }
}

proof fn lemma_factors_value(s: Seq<TermView>, i: Interp, args: Seq<TermId>, n: int)
    requires
        terms_wf(s),
        0 <= n <= args.len(),
        factors(s, args, n) is Some,
    ensures
        ({
            let (c, vars) = factors(s, args, n)->0;
            &&& c.den > 0
            &&& product_of(eval_args(s, i, args).take(n)) == c.value() * var_product(s, i, vars)
        }),
    decreases n,
{
    let vals = eval_args(s, i, args);
    let (c, vars) = factors(s, args, n)->0;
    if n == 0 {
        assert(vals.take(0).len() == 0);
        assert(1real / 1real == 1real) by (nonlinear_arith);
        assert(1i64 as real == 1real);
    } else {
        let a = args[n - 1];
        lemma_factors_value(s, i, args, n - 1);
        let (d, rest) = factors(s, args, n - 1)->0;
        assert(vals.take(n).drop_last() =~= vals.take(n - 1));
        assert(vals.take(n).last() == eval(s, i, a as int));
        let x = num(eval(s, i, a as int));
        let p = var_product(s, i, rest);
        if is_var(s, a) {
            assert(vars.drop_last() =~= rest);
            assert(vars.last() == a);
            assert((d.value() * p) * x == d.value() * (p * x)) by (nonlinear_arith);
        } else {
            lemma_numeral_value(s, i, a);
            let q = numeral(s, a)->0;
            crate::numbers::lemma_rat_mul(d, q);
            assert((d.value() * p) * x == (d.value() * x) * p) by (nonlinear_arith);
        }
    }
}

/// The value of a multiple of a square.
proof fn lemma_square_value(s: Seq<TermView>, i: Interp, t: TermId)
    requires
        terms_wf(s),
        pure_square(s, t) is Some,
    ensures
        ({
            let (v, c) = pure_square(s, t)->0;
            let x = num(eval(s, i, v as int));
            &&& c.den > 0
            &&& is_var(s, v)
            &&& num(eval(s, i, t as int)) == c.value() * (x * x)
        }),
{
    let args = s[t as int].args;
    let n = args.len() as int;
    lemma_eval(s, i, t);
    lemma_factors_value(s, i, args, n);
    lemma_factor_vars(s, args, n);
    assert(eval_args(s, i, args).take(n) =~= eval_args(s, i, args));
    let (c, vars) = factors(s, args, n)->0;
    let x = num(eval(s, i, vars[0] as int));
    assert(is_var(s, vars[0]));
    let one = vars.drop_last();
    assert(one.len() == 1 && one.last() == vars[0] && vars.last() == vars[0]);
    assert(one.drop_last().len() == 0);
    assert(var_product(s, i, one.drop_last()) == 1real);
    assert(var_product(s, i, one) == 1real * x);
    assert(1real * x == x) by (nonlinear_arith);
    assert(var_product(s, i, vars) == x * x);
}

/// The value of a multiple of a variable.
proof fn lemma_linear_value(s: Seq<TermView>, i: Interp, t: TermId, sign: Rat)
    requires
        terms_wf(s),
        sign.den > 0,
        linear_var(s, t, sign) is Some,
    ensures
        ({
            let (v, c) = linear_var(s, t, sign)->0;
            &&& c.den > 0
            &&& sign.value() * num(eval(s, i, t as int)) == c.value() * num(eval(s, i, v as int))
        }),
    decreases t,
{
    assert(node_below(s, t as int));
    let args = s[t as int].args;
    match s[t as int].op {
        Op::Neg => {
            lemma_eval(s, i, t);
            let vals = eval_args(s, i, args);
            assert(vals[0] == eval(s, i, args[0] as int));
            crate::numbers::lemma_rat_neg(sign);
            let m = rat_neg(sign)->0;
            lemma_linear_value(s, i, args[0], m);
            let y = num(eval(s, i, args[0] as int));
            assert((-sign.value()) * y == sign.value() * (-y)) by (nonlinear_arith);
        },
        Op::Mul => {
            lemma_eval(s, i, t);
            let n = args.len() as int;
            lemma_factors_value(s, i, args, n);
            assert(eval_args(s, i, args).take(n) =~= eval_args(s, i, args));
            let (c, vars) = factors(s, args, n)->0;
            let x = num(eval(s, i, vars[0] as int));
            assert(vars.drop_last().len() == 0);
            assert(vars.last() == vars[0]);
            assert(var_product(s, i, vars.drop_last()) == 1real);
            assert(var_product(s, i, vars) == 1real * x);
            assert(1real * x == x) by (nonlinear_arith);
            crate::numbers::lemma_rat_mul(sign, c);
            assert(sign.value() * (c.value() * x) == (sign.value() * c.value()) * x)
                by (nonlinear_arith);
        },
        _ => {},
    }
}

proof fn lemma_unit()
    ensures
        unit().den > 0,
        unit().value() == 1real,
{
    assert(1real / 1real == 1real) by (nonlinear_arith);
    assert(1i64 as real == 1real);
}

/// The quotient by a number that is not 0.
proof fn lemma_div_value(q: Rat, c: Rat)
    requires
        q.den > 0,
        c.den > 0,
        rat_div(q, c) is Some,
    ensures
        c.num != 0,
        c.value() != 0real,
        (c.value() > 0real) == (c.num > 0),
        rat_div(q, c)->0.den > 0,
        rat_div(q, c)->0.value() * c.value() == q.value(),
{
    let r = crate::numbers::rat_recip(c)->0;
    crate::numbers::lemma_rat_mul(q, r);
    let (n, d) = (c.num as real, c.den as real);
    assert(n / d != 0real && (d / n) * (n / d) == 1real && (n / d > 0real) == (n > 0real))
        by (nonlinear_arith)
        requires
            n != 0real,
            d > 0real,
    ;
    assert((-d) / (-n) == d / n) by (nonlinear_arith)
        requires
            n != 0real,
    ;
    assert(r.value() * c.value() == 1real);
    let (x, y, z) = (q.value(), r.value(), c.value());
    assert((x * y) * z == x * (y * z)) by (nonlinear_arith);
    assert(x * 1real == x) by (nonlinear_arith);
}

/// The sign of a fraction is that of its numerator.
proof fn lemma_sign(a: Rat)
    requires
        a.den > 0,
    ensures
        (a.value() < 0real) == (a.num < 0),
        (a.value() == 0real) == (a.num == 0),
        (a.value() > 0real) == (a.num > 0),
{
    let (n, d) = (a.num as real, a.den as real);
    assert((n / d < 0real) == (n < 0real) && (n / d == 0real) == (n == 0real) && (n / d > 0real)
        == (n > 0real)) by (nonlinear_arith)
        requires
            d > 0real,
    ;
}

/// What an atom says is true.
pub open spec fn atom_true(s: Seq<TermView>, i: Interp, a: NlAtom) -> bool {
    match a {
        NlAtom::SqEq { sq_term, val, is_integer_sort } => {
            let x = num(eval(s, i, sq_term as int));
            x * x == val.value() && val.den > 0 && (is_integer_sort ==> crate::domains::is_whole(x))
        },
        NlAtom::SqGtZero { sq_term } => {
            let x = num(eval(s, i, sq_term as int));
            x * x > 0real
        },
        NlAtom::SqGeZero { sq_term } => true,
        NlAtom::SqPlusLinearEq { sq_term, sq_coeff, linear_var, linear_coeff, rhs } => {
            let x = num(eval(s, i, sq_term as int));
            let v = num(eval(s, i, linear_var as int));
            &&& sq_coeff.den > 0 && linear_coeff.den > 0 && rhs.den > 0
            &&& sq_coeff.value() * (x * x) + linear_coeff.value() * v == rhs.value()
        },
        NlAtom::LinearGe { var, bound } => num(eval(s, i, var as int)) >= bound.value(),
        NlAtom::LinearGt { var, bound } => num(eval(s, i, var as int)) > bound.value(),
        NlAtom::LinearLe { var, bound } => num(eval(s, i, var as int)) <= bound.value(),
        NlAtom::LinearLt { var, bound } => num(eval(s, i, var as int)) < bound.value(),
    }
}

/// Variables of the integer sort are integers.
pub open spec fn whole_variables(s: Seq<TermView>, i: Interp) -> bool {
    forall|v: TermId|
        is_var(s, v) && s[v as int].sort == INT_SORT ==> crate::domains::is_whole(
            num(#[trigger] eval(s, i, v as int)),
        )
}

proof fn lemma_square_equation(s: Seq<TermView>, i: Interp, l: TermId, r: TermId)
    requires
        terms_wf(s),
        whole_variables(s, i),
        num(eval(s, i, l as int)) == num(eval(s, i, r as int)),
        square_equation(s, l, r) is Some,
    ensures
        atom_true(s, i, square_equation(s, l, r)->0),
{
    lemma_square_value(s, i, l);
    lemma_const_value(s, i, r);
    let (v, c) = pure_square(s, l)->0;
    let q = const_of(s, r)->0;
    lemma_div_value(q, c);
    let val = rat_div(q, c)->0;
    let x = num(eval(s, i, v as int));
    let (y, z, w) = (x * x, c.value(), val.value());
    assert(y == w) by (nonlinear_arith)
        requires
            z * y == w * z,
            z != 0real,
    ;
}

proof fn lemma_summands_value(s: Seq<TermView>, i: Interp, args: Seq<TermId>, n: int)
    requires
        terms_wf(s),
        0 <= n <= args.len(),
        summands(s, args, n) is Some,
    ensures
        ({
            let (square, linear) = summands(s, args, n)->0;
            &&& square matches Some((v, c)) ==> c.den > 0
            &&& linear matches Some((v, c)) ==> c.den > 0
            &&& sum_of(eval_args(s, i, args).take(n)) == square_part(s, i, square) + linear_part(
                s,
                i,
                linear,
            )
        }),
    decreases n,
{
    let vals = eval_args(s, i, args);
    if n == 0 {
        assert(vals.take(0).len() == 0);
    } else {
        let a = args[n - 1];
        lemma_summands_value(s, i, args, n - 1);
        assert(vals.take(n).drop_last() =~= vals.take(n - 1));
        assert(vals.take(n).last() == eval(s, i, a as int));
        if pure_square(s, a) is Some {
            lemma_square_value(s, i, a);
        } else {
            lemma_unit();
            lemma_linear_value(s, i, a, unit());
            let y = num(eval(s, i, a as int));
            assert(1real * y == y);
        }
    }
}

pub open spec fn square_part(s: Seq<TermView>, i: Interp, p: Option<(TermId, Rat)>) -> real {
    match p {
        Some((v, c)) => {
            let x = num(eval(s, i, v as int));
            c.value() * (x * x)
        },
        None => 0real,
    }
}

pub open spec fn linear_part(s: Seq<TermView>, i: Interp, p: Option<(TermId, Rat)>) -> real {
    match p {
        Some((v, c)) => c.value() * num(eval(s, i, v as int)),
        None => 0real,
    }
}

proof fn lemma_sum_equation(s: Seq<TermView>, i: Interp, sum: TermId, r: TermId)
    requires
        terms_wf(s),
        num(eval(s, i, sum as int)) == num(eval(s, i, r as int)),
        sum_equation(s, sum, r) is Some,
    ensures
        atom_true(s, i, sum_equation(s, sum, r)->0),
{
    let args = s[sum as int].args;
    lemma_const_value(s, i, r);
    lemma_eval(s, i, sum);
    lemma_summands_value(s, i, args, args.len() as int);
    assert(eval_args(s, i, args).take(args.len() as int) =~= eval_args(s, i, args));
}

proof fn lemma_comparison_atom(s: Seq<TermView>, i: Interp, l: TermId, r: TermId, op: CompOp)
    requires
        terms_wf(s),
        op.compares(num(eval(s, i, l as int)), num(eval(s, i, r as int))),
        comparison_atom(s, l, r, op) is Some,
    ensures
        atom_true(s, i, comparison_atom(s, l, r, op)->0),
{
    lemma_const_value(s, i, r);
    let q = const_of(s, r)->0;
    let y = num(eval(s, i, l as int));
    if pure_square(s, l) is Some {
        lemma_square_value(s, i, l);
        let (v, c) = pure_square(s, l)->0;
        lemma_div_value(q, c);
        let n = rat_div(q, c)->0;
        lemma_sign(n);
        let x = num(eval(s, i, v as int));
        let (a, b, w) = (x * x, c.value(), n.value());
        if n.num == 0 {
            assert(w * b == 0real) by (nonlinear_arith)
                requires
                    w == 0real,
            ;
            if turned(op, c) == CompOp::Gt {
                assert(a > 0real) by (nonlinear_arith)
                    requires
                        (b * a > 0real && b > 0real) || (b * a < 0real && b < 0real),
                ;
            }
        }
    } else {
        lemma_unit();
        lemma_linear_value(s, i, l, unit());
        assert(1real * y == y);
        let (v, c) = linear_var(s, l, unit())->0;
        lemma_div_value(q, c);
        let n = rat_div(q, c)->0;
        let x = num(eval(s, i, v as int));
        let (b, w) = (c.value(), n.value());
        assert(op == CompOp::Gt && b > 0real ==> x > w) by (nonlinear_arith)
            requires
                op.compares(b * x, w * b),
        ;
        assert(op == CompOp::Ge && b > 0real ==> x >= w) by (nonlinear_arith)
            requires
                op.compares(b * x, w * b),
        ;
        assert(op == CompOp::Lt && b > 0real ==> x < w) by (nonlinear_arith)
            requires
                op.compares(b * x, w * b),
        ;
        assert(op == CompOp::Le && b > 0real ==> x <= w) by (nonlinear_arith)
            requires
                op.compares(b * x, w * b),
        ;
        assert(op == CompOp::Gt && b < 0real ==> x < w) by (nonlinear_arith)
            requires
                op.compares(b * x, w * b),
        ;
        assert(op == CompOp::Ge && b < 0real ==> x <= w) by (nonlinear_arith)
            requires
                op.compares(b * x, w * b),
        ;
        assert(op == CompOp::Lt && b < 0real ==> x > w) by (nonlinear_arith)
            requires
                op.compares(b * x, w * b),
        ;
        assert(op == CompOp::Le && b < 0real ==> x >= w) by (nonlinear_arith)
            requires
                op.compares(b * x, w * b),
        ;
    }
}

proof fn lemma_atoms_true(s: Seq<TermView>, i: Interp, t: TermId)
    requires
        terms_wf(s),
        t < s.len(),
        whole_variables(s, i),
        holds(s, i, t),
    ensures
        forall|k: int|
            0 <= k < atom_list(s, t).len() ==> atom_true(s, i, #[trigger] atom_list(s, t)[k]),
    decreases t, 1int, 0int,
{
    assert(node_below(s, t as int));
    if s[t as int].op != Op::Forall && s[t as int].op != Op::Exists {
        lemma_eval(s, i, t);
    }
    let args = s[t as int].args;
    let vals = eval_args(s, i, args);
    let all = atom_list(s, t);
    match s[t as int].op {
        Op::Eq => {
            let (l, r) = (args[0], args[1]);
            assert(vals[0] == eval(s, i, l as int) && vals[1] == eval(s, i, r as int));
            assert(arg_sorts(s, s[t as int])[0] == s[l as int].sort);
            assert(eqv(s[l as int].sort, vals[0], vals[1]));
            if !numeric_sort(s[l as int].sort) {
            } else if square_equation(s, l, r) is Some {
                lemma_square_equation(s, i, l, r);
            } else if square_equation(s, r, l) is Some {
                lemma_square_equation(s, i, r, l);
            } else {
                if sum_equation(s, l, r) is Some {
                    lemma_sum_equation(s, i, l, r);
                }
                if sum_equation(s, r, l) is Some {
                    lemma_sum_equation(s, i, r, l);
                }
            }
            assert(all == equation_atoms(s, l, r));
        },
        Op::Gt | Op::Ge => {
            let (l, r) = (args[0], args[1]);
            let op = if s[t as int].op == Op::Gt { CompOp::Gt } else { CompOp::Ge };
            assert(vals[0] == eval(s, i, l as int) && vals[1] == eval(s, i, r as int));
            if comparison_atom(s, l, r, op) is Some {
                lemma_comparison_atom(s, i, l, r, op);
            }
        },
        Op::Lt | Op::Le => {
            let (l, r) = (args[1], args[0]);
            let op = if s[t as int].op == Op::Lt { CompOp::Gt } else { CompOp::Ge };
            assert(vals[1] == eval(s, i, l as int) && vals[0] == eval(s, i, r as int));
            if comparison_atom(s, l, r, op) is Some {
                lemma_comparison_atom(s, i, l, r, op);
            }
        },
        Op::And => {
            assert forall|j: int| 0 <= j < args.len() implies holds(
                s,
                i,
                #[trigger] s[t as int].args[j],
            ) by {
                assert(is_true(vals[j]));
            }
            lemma_atoms_true_below(s, i, t, args.len() as int);
            assert(all == atoms_below(s, t, args.len() as int));
        },
        _ => {},
    }
}

proof fn lemma_atoms_true_below(s: Seq<TermView>, i: Interp, t: TermId, n: int)
    requires
        terms_wf(s),
        t < s.len(),
        s[t as int].op == Op::And,
        whole_variables(s, i),
        0 <= n <= s[t as int].args.len(),
        forall|j: int|
            0 <= j < s[t as int].args.len() ==> holds(s, i, #[trigger] s[t as int].args[j]),
    ensures
        forall|k: int|
            0 <= k < atoms_below(s, t, n).len() ==> atom_true(s, i, #[trigger] atoms_below(s, t, n)[k]),
    decreases t, 0int, n,
{
    assert(node_below(s, t as int));
    if n > 0 {
        lemma_atoms_true_below(s, i, t, n - 1);
        let x = s[t as int].args[n - 1];
        assert(x < t);
        lemma_atoms_true(s, i, x);
        let a = atoms_below(s, t, n - 1);
        let b = atom_list(s, x);
        let all = atoms_below(s, t, n);
        assert(all == a + b);
        assert forall|k: int| 0 <= k < all.len() implies atom_true(s, i, #[trigger] all[k]) by {
            if k < a.len() {
                assert(all[k] == a[k]);
            } else {
                assert(all[k] == b[k - a.len()]);
            }
        }
    }
}

proof fn lemma_all_atoms_true(s: Seq<TermView>, i: Interp, assertions: Seq<TermId>, n: int)
    requires
        terms_wf(s),
        whole_variables(s, i),
        0 <= n <= assertions.len(),
        forall|k: int|
            0 <= k < assertions.len() ==> (#[trigger] assertions[k]) < s.len() && holds(
                s,
                i,
                assertions[k],
            ),
    ensures
        forall|k: int|
            0 <= k < all_atoms(s, assertions, n).len() ==> atom_true(
                s,
                i,
                #[trigger] all_atoms(s, assertions, n)[k],
            ),
    decreases n,
{
    if n > 0 {
        lemma_all_atoms_true(s, i, assertions, n - 1);
        lemma_atoms_true(s, i, assertions[n - 1]);
        let a = all_atoms(s, assertions, n - 1);
        let b = atom_list(s, assertions[n - 1]);
        let all = all_atoms(s, assertions, n);
        assert(all == a + b);
        assert forall|k: int| 0 <= k < all.len() implies atom_true(s, i, #[trigger] all[k]) by {
            if k < a.len() {
                assert(all[k] == a[k]);
            } else {
                assert(all[k] == b[k - a.len()]);
            }
        }
    }
}

proof fn lemma_square_possible(s: Seq<TermView>, i: Interp, a: NlAtom)
    requires
        atom_true(s, i, a),
    ensures
        !square_conflict(a),
{
    if let NlAtom::SqEq { sq_term, val, is_integer_sort } = a {
        let x = num(eval(s, i, sq_term as int));
        assert(x * x >= 0real) by (nonlinear_arith);
        lemma_sign(val);
        if is_integer_sort {
            let n = choose|n: int| crate::domains::whole(x, n);
            let (p, d) = (val.num as int, val.den as int);
            let m = n * n;
            crate::numbers::lemma_real_product(n, n);
            assert(m as real == p as real / d as real);
            assert(m as real * d as real == p as real) by (nonlinear_arith)
                requires
                    m as real == p as real / d as real,
                    d as real > 0real,
            ;
            crate::numbers::lemma_real_product(m, d);
            assert(m * d == p);
            assert(p / d == m) by (nonlinear_arith)
                requires
                    m * d == p,
                    d > 0,
            ;
            assert(is_root(n, p / d));
        }
    }
}

proof fn lemma_sum_possible(s: Seq<TermView>, i: Interp, sum: NlAtom, positive: NlAtom, bound: NlAtom)
    requires
        atom_true(s, i, sum),
        atom_true(s, i, positive),
        atom_true(s, i, bound),
    ensures
        !sum_conflict(sum, positive, bound),
{
    if sum_conflict(sum, positive, bound) {
        if let NlAtom::SqPlusLinearEq { sq_term, sq_coeff, linear_var, linear_coeff, rhs } = sum {
            let x = num(eval(s, i, sq_term as int));
            let v = num(eval(s, i, linear_var as int));
            lemma_sign(sq_coeff);
            lemma_sign(linear_coeff);
            lemma_div_value(rhs, linear_coeff);
            let z = rat_div(rhs, linear_coeff)->0.value();
            let b = lower_bound_on(bound, linear_var)->0.value();
            let (sq, sc, lc, r) = (x * x, sq_coeff.value(), linear_coeff.value(), rhs.value());
            assert(v >= b);
            assert(z <= b);
            assert(sq > 0real);
            assert(false) by (nonlinear_arith)
                requires
                    sc * sq + lc * v == r,
                    z * lc == r,
                    sq > 0real,
                    z <= v,
                    (sc > 0real && lc > 0real) || (sc < 0real && lc < 0real),
            ;
        }
    }
}

/// A conflict is never reported of assertions that are true together, where
/// integer variables are integers.
pub proof fn nonlinear_conflicts_are_real(s: Seq<TermView>, i: Interp, assertions: Seq<TermId>)
    requires
        terms_wf(s),
        whole_variables(s, i),
        forall|k: int|
            0 <= k < assertions.len() ==> (#[trigger] assertions[k]) < s.len() && holds(
                s,
                i,
                assertions[k],
            ),
    ensures
        !atoms_conflict(all_atoms(s, assertions, assertions.len() as int)),
{
    let n = assertions.len() as int;
    let atoms = all_atoms(s, assertions, n);
    lemma_all_atoms_true(s, i, assertions, n);
    assert forall|k: int| 0 <= k < atoms.len() implies !square_conflict(#[trigger] atoms[k]) by {
        lemma_square_possible(s, i, atoms[k]);
    }
    assert forall|p: int, q: int, r: int|
        0 <= p < atoms.len() && 0 <= q < atoms.len() && 0 <= r < atoms.len() implies !#[trigger] sum_conflict(
        atoms[p],
        atoms[q],
        atoms[r],
    ) by {
        assert(atom_true(s, i, atoms[p]) && atom_true(s, i, atoms[q]) && atom_true(s, i, atoms[r]));
        lemma_sum_possible(s, i, atoms[p], atoms[q], atoms[r]);
    }
}

} // verus!
