//! Sorts and their names.
//!
//! A sort is written as its name, as `(_ BitVec n)` or `(_ FloatingPoint e s)`,
//! or as `(Array domain range)`.

use crate::names::NameMap;
use crate::terms::{
    NameId, SortId, SortKind, TermStore, BOOL_SORT, INT_SORT, REAL_SORT, STRING_SORT,
};
use crate::text::{
    append, append_decimal, chars_of, decimal, decimals_read_back, digit, is_white, lemma_trimmed,
    number_upto, read_number, same_text, string_of, trim, trim_end, trim_range, white,
};
use vstd::prelude::*;

verus! {

/// Names that stand for sorts.
pub struct SortNames {
    /// Names of declared data types.
    pub datatypes: Vec<String>,
    /// Names that were defined as sorts.
    pub aliases: NameMap<SortId>,
    /// The first constructor without arguments, for each data type with one.
    pub defaults: NameMap<String>,
}

/// What the meaning of a sort's name depends on.
pub struct SortEnv {
    pub sorts: Seq<SortKind>,
    pub names: Seq<Seq<char>>,
    pub datatypes: Seq<Seq<char>>,
    pub aliases: Map<Seq<char>, SortId>,
}

pub open spec fn texts_of(names: Seq<String>) -> Seq<Seq<char>> {
    Seq::new(names.len(), |k: int| names[k]@)
}

pub open spec fn env_of(store: &TermStore, known: &SortNames) -> SortEnv {
    SortEnv {
        sorts: store.sorts@,
        names: texts_of(store.names@),
        datatypes: texts_of(known.datatypes@),
        aliases: known.aliases@,
    }
}

impl SortNames {
    /// Each name has one meaning, and it is one of the first `n` sorts.
    pub open spec fn wf(&self, n: int) -> bool {
        &&& self.aliases.wf()
        &&& self.defaults.wf()
        &&& forall|name: Seq<char>| #[trigger]
            self.aliases@.contains_key(name) ==> self.aliases@[name] < n
    }

    pub fn new() -> (r: SortNames)
        ensures
            forall|n: int| #[trigger] r.wf(n),
            r.datatypes@.len() == 0,
            r.aliases@ == Map::<Seq<char>, SortId>::empty(),
            r.defaults@ == Map::<Seq<char>, String>::empty(),
    {
        SortNames { datatypes: Vec::new(), aliases: NameMap::new(), defaults: NameMap::new() }
    }
}

/// The first place that holds the sort.
pub open spec fn kind_at(sorts: Seq<SortKind>, id: SortId, kind: SortKind) -> bool {
    &&& id < sorts.len()
    &&& sorts[id as int] == kind
    &&& forall|j: int| 0 <= j < id ==> #[trigger] sorts[j] != kind
}

/// The first place that holds the text.
pub open spec fn text_at(names: Seq<Seq<char>>, n: NameId, text: Seq<char>) -> bool {
    &&& n < names.len()
    &&& names[n as int] == text
    &&& forall|j: int| 0 <= j < n ==> #[trigger] names[j] != text
}

/// How far a text has been split into tokens.
pub struct Scan {
    pub depth: int,
    pub current: Seq<char>,
    pub tokens: Seq<Seq<char>>,
}

pub open spec fn scan_char(x: Scan, c: char) -> Scan {
    if c == '(' {
        Scan { depth: x.depth + 1, current: x.current.push(c), ..x }
    } else if c == ')' {
        Scan { depth: x.depth - 1, current: x.current.push(c), ..x }
    } else if white(c) && x.depth == 0 {
        if x.current.len() == 0 {
            x
        } else {
            Scan { current: Seq::empty(), tokens: x.tokens.push(x.current), ..x }
        }
    } else {
        Scan { current: x.current.push(c), ..x }
    }
}

pub open spec fn scan(x: Scan, s: Seq<char>) -> Scan
    decreases s.len(),
{
    if s.len() == 0 {
        x
    } else {
        scan_char(scan(x, s.drop_last()), s.last())
    }
}

pub open spec fn scan_start() -> Scan {
    Scan { depth: 0, current: Seq::empty(), tokens: Seq::empty() }
}

/// The words of a text; what stands in parentheses is one word.
pub open spec fn tokens(s: Seq<char>) -> Seq<Seq<char>> {
    let x = scan(scan_start(), s);
    if x.current.len() == 0 {
        x.tokens
    } else {
        x.tokens.push(x.current)
    }
}

proof fn lemma_scan_cat(x: Scan, a: Seq<char>, b: Seq<char>)
    ensures
        scan(x, a + b) == scan(scan(x, a), b),
    decreases b.len(),
{
    if b.len() == 0 {
        assert(a + b =~= a);
    } else {
        lemma_scan_cat(x, a, b.drop_last());
        assert((a + b).drop_last() =~= a + b.drop_last());
        assert((a + b).last() == b.last());
    }
}

/// Words are no longer than the text.
proof fn lemma_scan_short(s: Seq<char>)
    ensures
        scan(scan_start(), s).current.len() <= s.len(),
        forall|k: int|
            0 <= k < scan(scan_start(), s).tokens.len() ==> (#[trigger] scan(
                scan_start(),
                s,
            ).tokens[k]).len() <= s.len(),
    decreases s.len(),
{
    if s.len() > 0 {
        lemma_scan_short(s.drop_last());
        let x = scan(scan_start(), s.drop_last());
        let y = scan(scan_start(), s);
        assert forall|k: int| 0 <= k < y.tokens.len() implies (#[trigger] y.tokens[k]).len()
            <= s.len() by {
            if k < x.tokens.len() {
                assert(y.tokens[k] == x.tokens[k]);
            }
        }
    }
}

pub(crate) proof fn lemma_tokens_short(s: Seq<char>)
    ensures
        forall|k: int| 0 <= k < tokens(s).len() ==> (#[trigger] tokens(s)[k]).len() <= s.len(),
{
    lemma_scan_short(s);
}

proof fn lemma_trim_end_short(s: Seq<char>)
    ensures
        trim_end(s).len() <= s.len(),
    decreases s.len(),
{
    if s.len() > 0 && white(s.last()) {
        lemma_trim_end_short(s.drop_last());
    }
}

proof fn lemma_trim_short(s: Seq<char>)
    ensures
        trim(s).len() <= s.len(),
    decreases s.len(),
{
    if s.len() > 0 && white(s[0]) {
        lemma_trim_short(s.drop_first());
    } else {
        lemma_trim_end_short(s);
    }
}

/// Splits characters into words.
pub fn split_sort_tokens(v: &Vec<char>) -> (out: Vec<Vec<char>>)
    ensures
        Seq::new(out@.len(), |k: int| out@[k]@) == tokens(v@),
{
    let mut out: Vec<Vec<char>> = Vec::new();
    let mut current: Vec<char> = Vec::new();
    let mut depth: i128 = 0;
    let mut k: usize = 0;
    let ghost x = scan_start();
    assert(v@.take(0) =~= Seq::<char>::empty());
    assert(Seq::new(out@.len(), |j: int| out@[j]@) =~= Seq::<Seq<char>>::empty());
    assert(current@ =~= Seq::<char>::empty());
    while k < v.len()
        invariant
            k <= v.len(),
            -(k as int) <= depth <= k as int,
            x == scan(scan_start(), v@.take(k as int)),
            x.depth == depth,
            x.current == current@,
            x.tokens == Seq::new(out@.len(), |j: int| out@[j]@),
        decreases v.len() - k,
    {
        let c = v[k];
        proof {
            assert(v@.take(k + 1).drop_last() =~= v@.take(k as int));
            assert(v@.take(k + 1).last() == c);
            x = scan_char(x, c);
        }
        if c == '(' {
            depth = depth + 1;
            current.push(c);
        } else if c == ')' {
            depth = depth - 1;
            current.push(c);
        } else if is_white(c) && depth == 0 {
            if current.len() > 0 {
                let ghost before = out@;
                let ghost word = current@;
                let mut next: Vec<char> = Vec::new();
                std::mem::swap(&mut next, &mut current);
                out.push(next);
                proof {
                    assert(Seq::new(out@.len(), |j: int| out@[j]@) =~= Seq::new(
                        before.len(),
                        |j: int| before[j]@,
                    ).push(word));
                    assert(current@ =~= Seq::<char>::empty());
                }
            }
        } else {
            current.push(c);
        }
        k = k + 1;
    }
    assert(v@.take(k as int) =~= v@);
    if current.len() > 0 {
        let ghost before = out@;
        let ghost word = current@;
        out.push(current);
        assert(Seq::new(out@.len(), |j: int| out@[j]@) =~= Seq::new(
            before.len(),
            |j: int| before[j]@,
        ).push(word));
    }
    out
}

/// The text is a name for the sort `id`.
pub open spec fn denotes(env: SortEnv, text: Seq<char>, id: SortId) -> bool
    decreases text.len(),
{
    let name = trim(text);
    if name == "Bool"@ {
        id == BOOL_SORT
    } else if name == "Int"@ {
        id == INT_SORT
    } else if name == "Real"@ {
        id == REAL_SORT
    } else if name == "String"@ {
        id == STRING_SORT
    } else if enclosed(name) {
        let words = tokens(trim(name.subrange(1, name.len() - 1)));
        match compound(words) {
            Compound::BitVec(w) => kind_at(env.sorts, id, SortKind::BitVec(w)),
            Compound::FloatingPoint(eb, sb) => kind_at(
                env.sorts,
                id,
                SortKind::FloatingPoint { eb, sb },
            ),
            Compound::Array => words[1].len() < text.len() && words[2].len() < text.len()
                && exists|d: SortId, r: SortId|
                denotes(env, words[1], d) && denotes(env, words[2], r) && #[trigger] kind_at(
                    env.sorts,
                    id,
                    SortKind::Array { domain: d, range: r },
                ),
            Compound::Other => id == BOOL_SORT,
        }
    } else {
        simple_name(env, name, id)
    }
}

/// In parentheses.
pub open spec fn enclosed(name: Seq<char>) -> bool {
    name.len() >= 2 && name[0] == '(' && name.last() == ')'
}

/// What the words of a compound sort say.
pub enum Compound {
    BitVec(u32),
    FloatingPoint(u32, u32),
    Array,
    Other,
}

pub open spec fn compound(words: Seq<Seq<char>>) -> Compound {
    if words.len() == 3 && words[0] == "_"@ && words[1] == "BitVec"@ {
        match number_upto(words[2], u32::MAX as nat) {
            Some(w) => if w > 0 {
                Compound::BitVec(w as u32)
            } else {
                Compound::Other
            },
            None => Compound::Other,
        }
    } else if words.len() == 4 && words[0] == "_"@ && words[1] == "FloatingPoint"@ {
        match (number_upto(words[2], u32::MAX as nat), number_upto(words[3], u32::MAX as nat)) {
            (Some(eb), Some(sb)) => Compound::FloatingPoint(eb as u32, sb as u32),
            _ => Compound::Other,
        }
    } else if words.len() == 3 && words[0] == "Array"@ {
        Compound::Array
    } else {
        Compound::Other
    }
}

/// The width that a name like `BitVec8` states.
pub open spec fn named_width(name: Seq<char>) -> Option<u32> {
    if name.len() >= 6 && name.take(6) == "BitVec"@ {
        match number_upto(trim(name.skip(6)), u32::MAX as nat) {
            Some(w) => if w > 0 {
                Some(w as u32)
            } else {
                None
            },
            None => None,
        }
    } else {
        None
    }
}

/// A name by itself: a bit vector of the width in its name, a data type, a
/// defined sort, or else an uninterpreted sort.
pub open spec fn simple_name(env: SortEnv, name: Seq<char>, id: SortId) -> bool {
    match named_width(name) {
        Some(w) => kind_at(env.sorts, id, SortKind::BitVec(w)),
        None => if env.datatypes.contains(name) {
            exists|n: NameId|
                text_at(env.names, n, name) && #[trigger] kind_at(
                    env.sorts,
                    id,
                    SortKind::Datatype(n),
                )
        } else if env.aliases.contains_key(name) {
            id == env.aliases[name]
        } else {
            exists|n: NameId|
                text_at(env.names, n, name) && #[trigger] kind_at(
                    env.sorts,
                    id,
                    SortKind::Uninterpreted(n),
                )
        },
    }
}

/// More sorts and names, and nothing else.
pub open spec fn env_grows(a: SortEnv, b: SortEnv) -> bool {
    &&& a.sorts.len() <= b.sorts.len()
    &&& forall|k: int| 0 <= k < a.sorts.len() ==> #[trigger] b.sorts[k] == a.sorts[k]
    &&& a.names.len() <= b.names.len()
    &&& forall|k: int| 0 <= k < a.names.len() ==> #[trigger] b.names[k] == a.names[k]
    &&& b.datatypes == a.datatypes
    &&& b.aliases == a.aliases
}

proof fn lemma_kind_grow(a: SortEnv, b: SortEnv, id: SortId, kind: SortKind)
    requires
        env_grows(a, b),
        kind_at(a.sorts, id, kind),
    ensures
        kind_at(b.sorts, id, kind),
{
    assert forall|j: int| 0 <= j < id implies #[trigger] b.sorts[j] != kind by {
        assert(a.sorts[j] != kind);
    }
}

proof fn lemma_text_grow(a: SortEnv, b: SortEnv, n: NameId, text: Seq<char>)
    requires
        env_grows(a, b),
        text_at(a.names, n, text),
    ensures
        text_at(b.names, n, text),
{
    assert forall|j: int| 0 <= j < n implies #[trigger] b.names[j] != text by {
        assert(a.names[j] != text);
    }
}

/// What a name denotes it still denotes when there are more sorts.
pub proof fn names_keep_their_sorts(a: SortEnv, b: SortEnv, text: Seq<char>, id: SortId)
    requires
        env_grows(a, b),
        denotes(a, text, id),
    ensures
        denotes(b, text, id),
    decreases text.len(),
{
    let name = trim(text);
    if name == "Bool"@ || name == "Int"@ || name == "Real"@ || name == "String"@ {
    } else if enclosed(name) {
        let words = tokens(trim(name.subrange(1, name.len() - 1)));
        match compound(words) {
            Compound::BitVec(w) => lemma_kind_grow(a, b, id, SortKind::BitVec(w)),
            Compound::FloatingPoint(eb, sb) => lemma_kind_grow(
                a,
                b,
                id,
                SortKind::FloatingPoint { eb, sb },
            ),
            Compound::Array => {
                let (d, r) = choose|d: SortId, r: SortId|
                    denotes(a, words[1], d) && denotes(a, words[2], r) && #[trigger] kind_at(
                        a.sorts,
                        id,
                        SortKind::Array { domain: d, range: r },
                    );
                names_keep_their_sorts(a, b, words[1], d);
                names_keep_their_sorts(a, b, words[2], r);
                lemma_kind_grow(a, b, id, SortKind::Array { domain: d, range: r });
            },
            Compound::Other => {},
        }
    } else {
        match named_width(name) {
            Some(w) => lemma_kind_grow(a, b, id, SortKind::BitVec(w)),
            None => if a.datatypes.contains(name) {
                let n = choose|n: NameId|
                    text_at(a.names, n, name) && #[trigger] kind_at(
                        a.sorts,
                        id,
                        SortKind::Datatype(n),
                    );
                lemma_text_grow(a, b, n, name);
                lemma_kind_grow(a, b, id, SortKind::Datatype(n));
            } else if !a.aliases.contains_key(name) {
                let n = choose|n: NameId|
                    text_at(a.names, n, name) && #[trigger] kind_at(
                        a.sorts,
                        id,
                        SortKind::Uninterpreted(n),
                    );
                lemma_text_grow(a, b, n, name);
                lemma_kind_grow(a, b, id, SortKind::Uninterpreted(n));
            },
        }
    }
}

/// The built-in sorts stand at their places, and sorts are built from earlier
/// ones.
pub open spec fn sorts_wf(sorts: Seq<SortKind>) -> bool {
    &&& sorts.len() >= 4
    &&& sorts[BOOL_SORT as int] == SortKind::Bool
    &&& sorts[INT_SORT as int] == SortKind::Int
    &&& sorts[REAL_SORT as int] == SortKind::Real
    &&& sorts[STRING_SORT as int] == SortKind::String
    &&& forall|k: int| 0 <= k < sorts.len() ==> #[trigger] components_below(sorts[k], k)
}

pub open spec fn components_below(kind: SortKind, k: int) -> bool {
    match kind {
        SortKind::Array { domain, range } => domain < k && range < k,
        _ => true,
    }
}

/// More sorts and names, and the same terms.
pub open spec fn sorts_grew(a: &TermStore, b: &TermStore) -> bool {
    &&& b.nodes == a.nodes
    &&& sorts_wf(b.sorts@)
    &&& a.sorts@.len() <= b.sorts@.len()
    &&& forall|k: int| 0 <= k < a.sorts@.len() ==> #[trigger] b.sorts@[k] == a.sorts@[k]
    &&& a.names@.len() <= b.names@.len()
    &&& forall|k: int| 0 <= k < a.names@.len() ==> #[trigger] b.names@[k] == a.names@[k]
}

proof fn lemma_grew_env(a: &TermStore, b: &TermStore, known: &SortNames)
    requires
        sorts_grew(a, b),
    ensures
        env_grows(env_of(a, known), env_of(b, known)),
{
    assert forall|k: int| 0 <= k < a.names@.len() implies #[trigger] texts_of(b.names@)[k]
        == texts_of(a.names@)[k] by {
        assert(b.names@[k] == a.names@[k]);
    }
}

impl TermStore {
    /// The place of a name, which is added where it is not there yet.
    pub fn intern_name(&mut self, text: String) -> (n: NameId)
        requires
            sorts_wf(old(self).sorts@),
        ensures
            sorts_grew(old(self), final(self)),
            final(self).sorts@ == old(self).sorts@,
            text_at(texts_of(final(self).names@), n, text@),
    {
        let ghost word = text@;
        let mut k: usize = 0;
        while k < self.names.len()
            invariant
                k <= self.names.len(),
                *self == *old(self),
                sorts_wf(self.sorts@),
                word == text@,
                forall|j: int| 0 <= j < k ==> #[trigger] texts_of(self.names@)[j] != word,
            decreases self.names.len() - k,
        {
            if same_text(self.names[k].as_str(), text.as_str()) {
                return k;
            }
            k = k + 1;
        }
        let ghost before = self.names@;
        self.names.push(text);
        proof {
            assert forall|j: int| 0 <= j < k implies #[trigger] texts_of(self.names@)[j] != word by {
                assert(texts_of(before)[j] != word);
            }
        }
        k
    }

    /// The place of a sort, which is added where it is not there yet.
    pub fn intern_sort(&mut self, kind: SortKind) -> (id: SortId)
        requires
            sorts_wf(old(self).sorts@),
            components_below(kind, old(self).sorts@.len() as int),
        ensures
            sorts_grew(old(self), final(self)),
            final(self).names@ == old(self).names@,
            kind_at(final(self).sorts@, id, kind),
    {
        let mut k: usize = 0;
        while k < self.sorts.len()
            invariant
                k <= self.sorts.len(),
                *self == *old(self),
                sorts_wf(self.sorts@),
                forall|j: int| 0 <= j < k ==> #[trigger] self.sorts@[j] != kind,
            decreases self.sorts.len() - k,
        {
            if self.sorts[k] == kind {
                return k;
            }
            k = k + 1;
        }
        let ghost before = self.sorts@;
        self.sorts.push(kind);
        proof {
            assert forall|j: int| 0 <= j < self.sorts@.len() implies #[trigger] components_below(
                self.sorts@[j],
                j,
            ) by {
                if j < before.len() {
                    assert(components_below(before[j], j));
                }
            }
        }
        k
    }
}

fn is_word(v: &Vec<char>, from: usize, to: usize, word: &str) -> (b: bool)
    requires
        from <= to <= v@.len(),
    ensures
        b == (v@.subrange(from as int, to as int) == word@),
{
    let s = string_of(v, from, to);
    same_text(s.as_str(), word)
}

fn part(v: &Vec<char>, from: usize, to: usize) -> (r: Vec<char>)
    requires
        from <= to <= v@.len(),
    ensures
        r@ == v@.subrange(from as int, to as int),
{
    let mut r: Vec<char> = Vec::new();
    let mut k: usize = from;
    assert(r@ =~= v@.subrange(from as int, from as int));
    while k < to
        invariant
            from <= k <= to <= v@.len(),
            r@ == v@.subrange(from as int, k as int),
        decreases to - k,
    {
        r.push(v[k]);
        assert(v@.subrange(from as int, k + 1) =~= v@.subrange(from as int, k as int).push(
            v@[k as int],
        ));
        k = k + 1;
    }
    r
}

fn is_text(v: &Vec<char>, word: &str) -> (b: bool)
    ensures
        b == (v@ == word@),
{
    assert(v@.subrange(0, v@.len() as int) =~= v@);
    is_word(v, 0, v.len(), word)
}

fn number_of(v: &Vec<char>) -> (r: Option<u32>)
    ensures
        match r {
            Some(n) => number_upto(v@, u32::MAX as nat) == Some(n as nat),
            None => number_upto(v@, u32::MAX as nat) is None,
        },
{
    assert(v@.subrange(0, v@.len() as int) =~= v@);
    match read_number(v, 0, v.len(), u32::MAX as u64) {
        Some(n) => Some(n as u32),
        None => None,
    }
}

/// What the words of a compound sort say.
fn read_compound(words: &Vec<Vec<char>>) -> (r: Compound)
    ensures
        r == compound(Seq::new(words@.len(), |k: int| words@[k]@)),
{
    let ghost ws = Seq::new(words@.len(), |k: int| words@[k]@);
    if words.len() == 3 {
        let under = is_text(&words[0], "_");
        let bits = is_text(&words[1], "BitVec");
        let array = is_text(&words[0], "Array");
        assert(ws[0] == words@[0]@ && ws[1] == words@[1]@ && ws[2] == words@[2]@);
        if under && bits {
            match number_of(&words[2]) {
                Some(w) => if w > 0 {
                    Compound::BitVec(w)
                } else {
                    Compound::Other
                },
                None => Compound::Other,
            }
        } else if array {
            Compound::Array
        } else {
            Compound::Other
        }
    } else if words.len() == 4 {
        let under = is_text(&words[0], "_");
        let float = is_text(&words[1], "FloatingPoint");
        assert(ws[0] == words@[0]@ && ws[1] == words@[1]@ && ws[2] == words@[2]@ && ws[3]
            == words@[3]@);
        if under && float {
            match (number_of(&words[2]), number_of(&words[3])) {
                (Some(eb), Some(sb)) => Compound::FloatingPoint(eb, sb),
                _ => Compound::Other,
            }
        } else {
            Compound::Other
        }
    } else {
        Compound::Other
    }
}

fn read_width(name: &Vec<char>) -> (r: Option<u32>)
    ensures
        r == named_width(name@),
{
    if name.len() < 6 {
        return None;
    }
    assert(name@.subrange(0, 6) =~= name@.take(6));
    if !is_word(name, 0, 6, "BitVec") {
        return None;
    }
    let rest = part(name, 6, name.len());
    assert(rest@ =~= name@.skip(6));
    let (a, b) = trim_range(&rest);
    let digits = part(&rest, a, b);
    match number_of(&digits) {
        Some(w) => if w > 0 {
            Some(w)
        } else {
            None
        },
        None => None,
    }
}

fn lists_text(names: &Vec<String>, text: &str) -> (b: bool)
    ensures
        b == texts_of(names@).contains(text@),
{
    let mut k: usize = 0;
    while k < names.len()
        invariant
            k <= names.len(),
            forall|j: int| 0 <= j < k ==> #[trigger] texts_of(names@)[j] != text@,
        decreases names.len() - k,
    {
        if same_text(names[k].as_str(), text) {
            assert(texts_of(names@)[k as int] == text@);
            return true;
        }
        k = k + 1;
    }
    false
}

fn resolve_name(store: &mut TermStore, known: &SortNames, name: &Vec<char>) -> (id: SortId)
    requires
        sorts_wf(old(store).sorts@),
        known.wf(old(store).sorts@.len() as int),
    ensures
        sorts_grew(old(store), final(store)),
        id < final(store).sorts@.len(),
        simple_name(env_of(final(store), known), name@, id),
{
    let ghost start = *store;
    if let Some(w) = read_width(name) {
        return store.intern_sort(SortKind::BitVec(w));
    }
    assert(name@.subrange(0, name@.len() as int) =~= name@);
    let text = string_of(name, 0, name.len());
    if lists_text(&known.datatypes, text.as_str()) {
        let n = store.intern_name(text);
        let ghost mid = *store;
        let id = store.intern_sort(SortKind::Datatype(n));
        assert(texts_of(store.names@) == texts_of(mid.names@));
        assert(text_at(env_of(store, known).names, n, name@) && kind_at(
            env_of(store, known).sorts,
            id,
            SortKind::Datatype(n),
        ));
        return id;
    }
    if let Some(id) = known.aliases.get(text.as_str()) {
        return *id;
    }
    let n = store.intern_name(text);
    let ghost mid = *store;
    let id = store.intern_sort(SortKind::Uninterpreted(n));
    assert(texts_of(store.names@) == texts_of(mid.names@));
    assert(text_at(env_of(store, known).names, n, name@) && kind_at(
        env_of(store, known).sorts,
        id,
        SortKind::Uninterpreted(n),
    ));
    id
}

fn parse_chars(store: &mut TermStore, known: &SortNames, text: &Vec<char>) -> (id: SortId)
    requires
        sorts_wf(old(store).sorts@),
        known.wf(old(store).sorts@.len() as int),
    ensures
        sorts_grew(old(store), final(store)),
        id < final(store).sorts@.len(),
        denotes(env_of(final(store), known), text@, id),
    decreases text@.len(),
{
    let (a, b) = trim_range(text);
    let name = part(text, a, b);
    proof {
        lemma_trim_short(text@);
    }
    if is_text(&name, "Bool") {
        return BOOL_SORT;
    }
    if is_text(&name, "Int") {
        return INT_SORT;
    }
    if is_text(&name, "Real") {
        return REAL_SORT;
    }
    if is_text(&name, "String") {
        return STRING_SORT;
    }
    if name.len() >= 2 && name[0] == '(' && name[name.len() - 1] == ')' {
        let inner = part(&name, 1, name.len() - 1);
        let (c, d) = trim_range(&inner);
        let content = part(&inner, c, d);
        let words = split_sort_tokens(&content);
        let ghost ws = Seq::new(words@.len(), |k: int| words@[k]@);
        proof {
            lemma_trim_short(inner@);
            lemma_tokens_short(content@);
            assert(ws == tokens(trim(name@.subrange(1, name@.len() - 1))));
        }
        match read_compound(&words) {
            Compound::BitVec(w) => store.intern_sort(SortKind::BitVec(w)),
            Compound::FloatingPoint(eb, sb) => store.intern_sort(
                SortKind::FloatingPoint { eb, sb },
            ),
            Compound::Array => {
                assert(ws[1] == words@[1]@ && ws[2] == words@[2]@);
                let dom = parse_chars(store, known, &words[1]);
                let ghost first = *store;
                let range = parse_chars(store, known, &words[2]);
                let ghost second = *store;
                let id = store.intern_sort(SortKind::Array { domain: dom, range });
                proof {
                    lemma_grew_env(&first, store, known);
                    lemma_grew_env(&second, store, known);
                    names_keep_their_sorts(
                        env_of(&first, known),
                        env_of(store, known),
                        ws[1],
                        dom,
                    );
                    names_keep_their_sorts(
                        env_of(&second, known),
                        env_of(store, known),
                        ws[2],
                        range,
                    );
                    let env = env_of(store, known);
                    assert(denotes(env, ws[1], dom) && denotes(env, ws[2], range) && kind_at(
                        env.sorts,
                        id,
                        SortKind::Array { domain: dom, range },
                    ));
                }
                id
            },
            Compound::Other => BOOL_SORT,
        }
    } else {
        resolve_name(store, known, &name)
    }
}

/// The sort that a text denotes, which is added where it is not there yet.
pub fn parse_sort_name(store: &mut TermStore, known: &SortNames, text: &str) -> (id: SortId)
    requires
        sorts_wf(old(store).sorts@),
        known.wf(old(store).sorts@.len() as int),
    ensures
        sorts_grew(old(store), final(store)),
        id < final(store).sorts@.len(),
        denotes(env_of(final(store), known), text@, id),
{
    let v = chars_of(text);
    parse_chars(store, known, &v)
}

/// How a sort is written.
pub open spec fn sort_text(env: SortEnv, id: SortId) -> Seq<char>
    decreases id,
{
    if id >= env.sorts.len() {
        "Unknown"@
    } else {
        match env.sorts[id as int] {
            SortKind::Bool => "Bool"@,
            SortKind::Int => "Int"@,
            SortKind::Real => "Real"@,
            SortKind::String => "String"@,
            SortKind::BitVec(w) => "(_ BitVec "@ + decimal(w as nat) + ")"@,
            SortKind::FloatingPoint { eb, sb } => "(_ FloatingPoint "@ + decimal(eb as nat) + " "@
                + decimal(sb as nat) + ")"@,
            SortKind::Array { domain, range } => if domain < id && range < id {
                "(Array "@ + sort_text(env, domain) + " "@ + sort_text(env, range) + ")"@
            } else {
                "Unknown"@
            },
            SortKind::Uninterpreted(n) | SortKind::Datatype(n) => if n < env.names.len() {
                env.names[n as int]
            } else {
                "Unknown"@
            },
            SortKind::Parameter(_) | SortKind::Parametric(_) => "Unknown"@,
        }
    }
}

pub(crate) fn append_sort(store: &TermStore, known: &SortNames, out: &mut String, id: SortId)
    requires
        sorts_wf(store.sorts@),
    ensures
        final(out)@ == old(out)@ + sort_text(env_of(store, known), id),
    decreases id,
{
    let ghost before = out@;
    let ghost env = env_of(store, known);
    if id >= store.sorts.len() {
        append(out, "Unknown");
        return;
    }
    assert(components_below(store.sorts@[id as int], id as int));
    match store.sorts[id] {
        SortKind::Bool => append(out, "Bool"),
        SortKind::Int => append(out, "Int"),
        SortKind::Real => append(out, "Real"),
        SortKind::String => append(out, "String"),
        SortKind::BitVec(w) => {
            append(out, "(_ BitVec ");
            append_decimal(out, w as u64);
            append(out, ")");
            assert(out@ =~= before + sort_text(env, id));
        },
        SortKind::FloatingPoint { eb, sb } => {
            append(out, "(_ FloatingPoint ");
            append_decimal(out, eb as u64);
            append(out, " ");
            append_decimal(out, sb as u64);
            append(out, ")");
            assert(out@ =~= before + sort_text(env, id));
        },
        SortKind::Array { domain, range } => {
            append(out, "(Array ");
            append_sort(store, known, out, domain);
            append(out, " ");
            append_sort(store, known, out, range);
            append(out, ")");
            assert(out@ =~= before + sort_text(env, id));
        },
        SortKind::Uninterpreted(n) | SortKind::Datatype(n) => {
            if n < store.names.len() {
                append(out, store.names[n].as_str());
                assert(texts_of(store.names@)[n as int] == store.names@[n as int]@);
            } else {
                append(out, "Unknown");
            }
        },
        SortKind::Parameter(_) | SortKind::Parametric(_) => append(out, "Unknown"),
    }
}

/// Writes a sort.
pub fn format_sort_name(store: &TermStore, known: &SortNames, id: SortId) -> (text: String)
    requires
        sorts_wf(store.sorts@),
    ensures
        text@ == sort_text(env_of(store, known), id),
{
    let mut out = String::new();
    append_sort(store, known, &mut out, id);
    assert(out@ =~= sort_text(env_of(store, known), id));
    out
}

/// A name that is one word and no number of bits.
pub open spec fn word_name(name: Seq<char>) -> bool {
    &&& one_word(name)
    &&& !white(name[0]) && !white(name.last())
    &&& !enclosed(name)
    &&& name != "Bool"@ && name != "Int"@ && name != "Real"@ && name != "String"@
    &&& named_width(name) is None
}

/// A name that the splitting into words keeps whole.
pub open spec fn one_word(name: Seq<char>) -> bool {
    name.len() > 0 && solid(name)
}

/// A sort that can be written so that it reads back: it occurs once, bit
/// vectors have bits, and names are words that mean this sort.
pub open spec fn readable(env: SortEnv, id: SortId) -> bool
    decreases id,
{
    &&& id < env.sorts.len()
    &&& kind_at(env.sorts, id, env.sorts[id as int])
    &&& match env.sorts[id as int] {
        SortKind::Bool | SortKind::Int | SortKind::Real | SortKind::String => true,
        SortKind::BitVec(w) => w > 0,
        SortKind::FloatingPoint { .. } => true,
        SortKind::Array { domain, range } => domain < id && range < id && readable(env, domain)
            && readable(env, range),
        SortKind::Uninterpreted(n) => n < env.names.len() && text_at(
            env.names,
            n,
            env.names[n as int],
        ) && word_name(env.names[n as int]) && !env.datatypes.contains(env.names[n as int])
            && !env.aliases.contains_key(env.names[n as int]),
        SortKind::Datatype(n) => n < env.names.len() && text_at(
            env.names,
            n,
            env.names[n as int],
        ) && word_name(env.names[n as int]) && env.datatypes.contains(env.names[n as int]),
        SortKind::Parameter(_) | SortKind::Parametric(_) => false,
    }
}

/// The text is taken up as it stands, whatever came before it.
pub open spec fn solid(t: Seq<char>) -> bool {
    forall|x: Scan|
        x.depth >= 0 ==> #[trigger] scan(x, t) == (Scan { current: x.current + t, ..x })
}

/// The same within parentheses.
spec fn kept_inside(t: Seq<char>) -> bool {
    forall|x: Scan|
        x.depth >= 1 ==> #[trigger] scan(x, t) == (Scan { current: x.current + t, ..x })
}

proof fn lemma_no_parens(x: Scan, t: Seq<char>)
    requires
        x.depth >= 0,
        forall|k: int| 0 <= k < t.len() ==> #[trigger] t[k] != '(' && t[k] != ')',
        x.depth >= 1 || forall|k: int| 0 <= k < t.len() ==> !white(#[trigger] t[k]),
    ensures
        scan(x, t) == (Scan { current: x.current + t, ..x }),
    decreases t.len(),
{
    if t.len() == 0 {
        assert(x.current + t =~= x.current);
    } else {
        lemma_no_parens(x, t.drop_last());
        assert((x.current + t.drop_last()).push(t.last()) =~= x.current + t);
        assert(t[t.len() - 1] == t.last());
    }
}

proof fn lemma_word_solid(t: Seq<char>)
    requires
        forall|k: int|
            0 <= k < t.len() ==> !white(#[trigger] t[k]) && t[k] != '(' && t[k] != ')',
    ensures
        solid(t),
{
    assert forall|x: Scan| x.depth >= 0 implies #[trigger] scan(x, t) == (Scan {
        current: x.current + t,
        ..x
    }) by {
        lemma_no_parens(x, t);
    }
}

proof fn lemma_flat_kept(t: Seq<char>)
    requires
        forall|k: int| 0 <= k < t.len() ==> #[trigger] t[k] != '(' && t[k] != ')',
    ensures
        kept_inside(t),
{
    assert forall|x: Scan| x.depth >= 1 implies #[trigger] scan(x, t) == (Scan {
        current: x.current + t,
        ..x
    }) by {
        lemma_no_parens(x, t);
    }
}

proof fn lemma_kept_cat(a: Seq<char>, b: Seq<char>)
    requires
        kept_inside(a),
        kept_inside(b),
    ensures
        kept_inside(a + b),
{
    assert forall|x: Scan| x.depth >= 1 implies #[trigger] scan(x, a + b) == (Scan {
        current: x.current + (a + b),
        ..x
    }) by {
        lemma_scan_cat(x, a, b);
        assert((x.current + a) + b =~= x.current + (a + b));
    }
}

proof fn lemma_enclosed_solid(b: Seq<char>)
    requires
        kept_inside(b),
    ensures
        solid("("@ + b + ")"@),
{
    reveal_strlit("(");
    reveal_strlit(")");
    let t = "("@ + b + ")"@;
    assert forall|x: Scan| x.depth >= 0 implies #[trigger] scan(x, t) == (Scan {
        current: x.current + t,
        ..x
    }) by {
        lemma_scan_cat(x, "("@ + b, ")"@);
        lemma_scan_cat(x, "("@, b);
        let y = scan_char(x, '(');
        assert("("@ =~= seq!['(']);
        assert(seq!['('].drop_last() =~= Seq::<char>::empty());
        assert(scan(x, Seq::<char>::empty()) == x);
        assert(scan(x, "("@) == y);
        let z = Scan { current: y.current + b, ..y };
        assert(scan(y, b) == z);
        assert(")"@ =~= seq![')']);
        assert(seq![')'].drop_last() =~= Seq::<char>::empty());
        assert(scan(z, Seq::<char>::empty()) == z);
        assert(scan(z, ")"@) == scan_char(z, ')'));
        assert((x.current.push('(') + b).push(')') =~= x.current + t);
    }
}

/// Splitting goes on after a word and a space.
proof fn lemma_next_word(x: Scan, w: Seq<char>)
    requires
        x.depth == 0,
        x.current.len() == 0,
        solid(w),
        w.len() > 0,
    ensures
        scan(x, w + " "@) == (Scan {
            depth: 0,
            current: Seq::empty(),
            tokens: x.tokens.push(w),
        }),
{
    reveal_strlit(" ");
    lemma_scan_cat(x, w, " "@);
    let y = Scan { current: x.current + w, ..x };
    assert(scan(x, w) == y);
    assert(x.current + w =~= w);
    assert(" "@ =~= seq![' ']);
    assert(seq![' '].drop_last() =~= Seq::<char>::empty());
    assert(scan(y, Seq::<char>::empty()) == y);
    assert(white(' '));
    assert(scan(y, " "@) == scan_char(y, ' '));
}

proof fn lemma_three_words(a: Seq<char>, b: Seq<char>, c: Seq<char>)
    requires
        solid(a),
        solid(b),
        solid(c),
        a.len() > 0,
        b.len() > 0,
        c.len() > 0,
    ensures
        tokens(a + " "@ + b + " "@ + c) == seq![a, b, c],
{
    let t = a + " "@ + b + " "@ + c;
    let x0 = scan_start();
    lemma_next_word(x0, a);
    let x1 = scan(x0, a + " "@);
    lemma_next_word(x1, b);
    let x2 = scan(x1, b + " "@);
    lemma_scan_cat(x0, a + " "@, b + " "@);
    assert((a + " "@) + (b + " "@) =~= a + " "@ + b + " "@);
    lemma_scan_cat(x0, a + " "@ + b + " "@, c);
    let x3 = Scan { current: x2.current + c, ..x2 };
    assert(scan(x2, c) == x3);
    assert(x2.current + c =~= c);
    assert(tokens(t) =~= seq![a, b, c]);
}

proof fn lemma_four_words(a: Seq<char>, b: Seq<char>, c: Seq<char>, d: Seq<char>)
    requires
        solid(a),
        solid(b),
        solid(c),
        solid(d),
        a.len() > 0,
        b.len() > 0,
        c.len() > 0,
        d.len() > 0,
    ensures
        tokens(a + " "@ + b + " "@ + c + " "@ + d) == seq![a, b, c, d],
{
    let t = a + " "@ + b + " "@ + c + " "@ + d;
    let x0 = scan_start();
    lemma_next_word(x0, a);
    let x1 = scan(x0, a + " "@);
    lemma_next_word(x1, b);
    let x2 = scan(x1, b + " "@);
    lemma_next_word(x2, c);
    let x3 = scan(x2, c + " "@);
    lemma_scan_cat(x0, a + " "@, b + " "@);
    assert((a + " "@) + (b + " "@) =~= a + " "@ + b + " "@);
    lemma_scan_cat(x0, a + " "@ + b + " "@, c + " "@);
    assert((a + " "@ + b + " "@) + (c + " "@) =~= a + " "@ + b + " "@ + c + " "@);
    lemma_scan_cat(x0, a + " "@ + b + " "@ + c + " "@, d);
    let x4 = Scan { current: x3.current + d, ..x3 };
    assert(scan(x3, d) == x4);
    assert(x3.current + d =~= d);
    assert(tokens(t) =~= seq![a, b, c, d]);
}

proof fn lemma_decimal_word(n: nat)
    requires
        n <= u32::MAX,
    ensures
        solid(decimal(n)),
        decimal(n).len() > 0,
        !white(decimal(n)[0]),
        !white(decimal(n).last()),
        number_upto(decimal(n), u32::MAX as nat) == Some(n),
{
    decimals_read_back(n);
    let t = decimal(n);
    assert forall|k: int| 0 <= k < t.len() implies !white(#[trigger] t[k]) && t[k] != '(' && t[k]
        != ')' && t[k] != '+' by {
        assert(digit(t[k]) is Some);
    }
    lemma_word_solid(t);
    assert(t[t.len() - 1] == t.last());
}

/// The words within parentheses.
proof fn lemma_inside(b: Seq<char>)
    requires
        b.len() > 0,
        !white(b[0]),
        !white(b.last()),
    ensures
        trim("("@ + b + ")"@) == "("@ + b + ")"@,
        enclosed("("@ + b + ")"@),
        trim(("("@ + b + ")"@).subrange(1, ("("@ + b + ")"@).len() - 1)) == b,
        "("@ + b + ")"@ != "Bool"@,
        "("@ + b + ")"@ != "Int"@,
        "("@ + b + ")"@ != "Real"@,
        "("@ + b + ")"@ != "String"@,
{
    reveal_strlit("(");
    reveal_strlit(")");
    reveal_strlit("Bool");
    reveal_strlit("Int");
    reveal_strlit("Real");
    reveal_strlit("String");
    let t = "("@ + b + ")"@;
    assert(t[0] == '(');
    assert(t.last() == ')');
    lemma_trimmed(t);
    assert(t.subrange(1, t.len() - 1) =~= b);
    lemma_trimmed(b);
    assert("Bool"@[0] == 'B' && "Int"@[0] == 'I' && "Real"@[0] == 'R' && "String"@[0] == 'S');
}

/// How a readable sort is written: one word for the splitting, without white
/// space at its ends.
proof fn lemma_written(env: SortEnv, id: SortId)
    requires
        sorts_wf(env.sorts),
        readable(env, id),
    ensures
        solid(sort_text(env, id)),
        sort_text(env, id).len() > 0,
        !white(sort_text(env, id)[0]),
        !white(sort_text(env, id).last()),
    decreases id,
{
    reveal_strlit("(");
    reveal_strlit(")");
    reveal_strlit(" ");
    let t = sort_text(env, id);
    match env.sorts[id as int] {
        SortKind::Bool | SortKind::Int | SortKind::Real | SortKind::String => {
            reveal_strlit("Bool");
            reveal_strlit("Int");
            reveal_strlit("Real");
            reveal_strlit("String");
            lemma_word_solid(t);
        },
        SortKind::BitVec(w) => {
            lemma_decimal_word(w as nat);
            lemma_bits_text(w as nat);
        },
        SortKind::FloatingPoint { eb, sb } => {
            lemma_decimal_word(eb as nat);
            lemma_decimal_word(sb as nat);
            lemma_float_text(eb as nat, sb as nat);
        },
        SortKind::Array { domain, range } => {
            lemma_written(env, domain);
            lemma_written(env, range);
            lemma_array_text(sort_text(env, domain), sort_text(env, range));
        },
        _ => {},
    }
}

proof fn lemma_solid_kept(t: Seq<char>)
    requires
        solid(t),
    ensures
        kept_inside(t),
{
}

proof fn lemma_bits_text(w: nat)
    requires
        w <= u32::MAX,
    ensures
        "(_ BitVec "@ + decimal(w) + ")"@ == "("@ + ("_"@ + " "@ + "BitVec"@ + " "@ + decimal(w)) + ")"@,
        solid("(_ BitVec "@ + decimal(w) + ")"@),
        ("(_ BitVec "@ + decimal(w) + ")"@).len() > 0,
        ("(_ BitVec "@ + decimal(w) + ")"@)[0] == '(',
        ("(_ BitVec "@ + decimal(w) + ")"@).last() == ')',
        tokens("_"@ + " "@ + "BitVec"@ + " "@ + decimal(w)) == seq!["_"@, "BitVec"@, decimal(w)],
        !white(("_"@ + " "@ + "BitVec"@ + " "@ + decimal(w))[0]),
        !white(("_"@ + " "@ + "BitVec"@ + " "@ + decimal(w)).last()),
{
    reveal_strlit("(");
    reveal_strlit(")");
    reveal_strlit(" ");
    reveal_strlit("_");
    reveal_strlit("BitVec");
    reveal_strlit("(_ BitVec ");
    lemma_decimal_word(w);
    let head = "_"@ + " "@ + "BitVec"@ + " "@;
    let b = head + decimal(w);
    assert("(_ BitVec "@ + decimal(w) + ")"@ =~= "("@ + b + ")"@);
    lemma_word_solid("_"@);
    lemma_word_solid("BitVec"@);
    lemma_three_words("_"@, "BitVec"@, decimal(w));
    lemma_flat_kept(head);
    lemma_solid_kept(decimal(w));
    lemma_kept_cat(head, decimal(w));
    lemma_enclosed_solid(b);
    assert(b[0] == '_');
    assert(b.last() == decimal(w).last());
}

proof fn lemma_float_text(e: nat, s: nat)
    requires
        e <= u32::MAX,
        s <= u32::MAX,
    ensures
        "(_ FloatingPoint "@ + decimal(e) + " "@ + decimal(s) + ")"@ == "("@ + ("_"@ + " "@
            + "FloatingPoint"@ + " "@ + decimal(e) + " "@ + decimal(s)) + ")"@,
        solid("(_ FloatingPoint "@ + decimal(e) + " "@ + decimal(s) + ")"@),
        ("(_ FloatingPoint "@ + decimal(e) + " "@ + decimal(s) + ")"@).len() > 0,
        ("(_ FloatingPoint "@ + decimal(e) + " "@ + decimal(s) + ")"@)[0] == '(',
        ("(_ FloatingPoint "@ + decimal(e) + " "@ + decimal(s) + ")"@).last() == ')',
        tokens("_"@ + " "@ + "FloatingPoint"@ + " "@ + decimal(e) + " "@ + decimal(s)) == seq![
            "_"@,
            "FloatingPoint"@,
            decimal(e),
            decimal(s),
        ],
        !white(("_"@ + " "@ + "FloatingPoint"@ + " "@ + decimal(e) + " "@ + decimal(s))[0]),
        !white(("_"@ + " "@ + "FloatingPoint"@ + " "@ + decimal(e) + " "@ + decimal(s)).last()),
{
    reveal_strlit("(");
    reveal_strlit(")");
    reveal_strlit(" ");
    reveal_strlit("_");
    reveal_strlit("FloatingPoint");
    reveal_strlit("(_ FloatingPoint ");
    lemma_decimal_word(e);
    lemma_decimal_word(s);
    let head = "_"@ + " "@ + "FloatingPoint"@ + " "@;
    let b = head + decimal(e) + " "@ + decimal(s);
    assert("(_ FloatingPoint "@ + decimal(e) + " "@ + decimal(s) + ")"@ =~= "("@ + b + ")"@);
    lemma_word_solid("_"@);
    lemma_word_solid("FloatingPoint"@);
    lemma_four_words("_"@, "FloatingPoint"@, decimal(e), decimal(s));
    lemma_flat_kept(head);
    lemma_flat_kept(" "@);
    lemma_solid_kept(decimal(e));
    lemma_solid_kept(decimal(s));
    lemma_kept_cat(head, decimal(e));
    lemma_kept_cat(head + decimal(e), " "@);
    lemma_kept_cat(head + decimal(e) + " "@, decimal(s));
    lemma_enclosed_solid(b);
    assert(b[0] == '_');
    assert(b.last() == decimal(s).last());
}

proof fn lemma_array_text(d: Seq<char>, r: Seq<char>)
    requires
        solid(d),
        solid(r),
        d.len() > 0,
        r.len() > 0,
        !white(r.last()),
    ensures
        "(Array "@ + d + " "@ + r + ")"@ == "("@ + ("Array"@ + " "@ + d + " "@ + r) + ")"@,
        solid("(Array "@ + d + " "@ + r + ")"@),
        ("(Array "@ + d + " "@ + r + ")"@).len() > 0,
        ("(Array "@ + d + " "@ + r + ")"@)[0] == '(',
        ("(Array "@ + d + " "@ + r + ")"@).last() == ')',
        tokens("Array"@ + " "@ + d + " "@ + r) == seq!["Array"@, d, r],
        !white(("Array"@ + " "@ + d + " "@ + r)[0]),
        !white(("Array"@ + " "@ + d + " "@ + r).last()),
{
    reveal_strlit("(");
    reveal_strlit(")");
    reveal_strlit(" ");
    reveal_strlit("Array");
    reveal_strlit("(Array ");
    let head = "Array"@ + " "@;
    let b = head + d + " "@ + r;
    assert("(Array "@ + d + " "@ + r + ")"@ =~= "("@ + b + ")"@);
    lemma_word_solid("Array"@);
    lemma_three_words("Array"@, d, r);
    lemma_flat_kept(head);
    lemma_flat_kept(" "@);
    lemma_solid_kept(d);
    lemma_solid_kept(r);
    lemma_kept_cat(head, d);
    lemma_kept_cat(head + d, " "@);
    lemma_kept_cat(head + d + " "@, r);
    lemma_enclosed_solid(b);
    assert(b[0] == 'A');
    assert(b.last() == r.last());
}

/// Reading what was written gives back the sort.
pub proof fn sorts_read_back(env: SortEnv, id: SortId)
    requires
        sorts_wf(env.sorts),
        readable(env, id),
    ensures
        denotes(env, sort_text(env, id), id),
    decreases id,
{
    let t = sort_text(env, id);
    lemma_written(env, id);
    lemma_trimmed(t);
    match env.sorts[id as int] {
        SortKind::Bool => {
            assert(id == BOOL_SORT);
        },
        SortKind::Int => {
            reveal_strlit("Bool");
            reveal_strlit("Int");
            assert(id == INT_SORT);
        },
        SortKind::Real => {
            reveal_strlit("Bool");
            reveal_strlit("Int");
            reveal_strlit("Real");
            assert("Bool"@[0] != "Real"@[0]);
            assert(id == REAL_SORT);
        },
        SortKind::String => {
            reveal_strlit("Bool");
            reveal_strlit("Int");
            reveal_strlit("Real");
            reveal_strlit("String");
            assert(id == STRING_SORT);
        },
        SortKind::BitVec(w) => {
            lemma_bits_text(w as nat);
            lemma_inside("_"@ + " "@ + "BitVec"@ + " "@ + decimal(w as nat));
            lemma_decimal_word(w as nat);
            let words = seq!["_"@, "BitVec"@, decimal(w as nat)];
            assert(compound(words) == Compound::BitVec(w));
        },
        SortKind::FloatingPoint { eb, sb } => {
            lemma_float_text(eb as nat, sb as nat);
            lemma_inside(
                "_"@ + " "@ + "FloatingPoint"@ + " "@ + decimal(eb as nat) + " "@ + decimal(
                    sb as nat,
                ),
            );
            lemma_decimal_word(eb as nat);
            lemma_decimal_word(sb as nat);
            let words = seq!["_"@, "FloatingPoint"@, decimal(eb as nat), decimal(sb as nat)];
            assert(compound(words) == Compound::FloatingPoint(eb, sb));
        },
        SortKind::Array { domain, range } => {
            lemma_written(env, domain);
            lemma_written(env, range);
            let (d, r) = (sort_text(env, domain), sort_text(env, range));
            lemma_array_text(d, r);
            lemma_inside("Array"@ + " "@ + d + " "@ + r);
            let words = seq!["Array"@, d, r];
            reveal_strlit("Array");
            reveal_strlit("_");
            assert("Array"@[0] != "_"@[0]);
            assert(compound(words) == Compound::Array);
            sorts_read_back(env, domain);
            sorts_read_back(env, range);
            assert(words[1] == d && words[2] == r);
            assert(denotes(env, words[1], domain) && denotes(env, words[2], range) && kind_at(
                env.sorts,
                id,
                SortKind::Array { domain, range },
            ));
        },
        SortKind::Uninterpreted(n) => {
            assert(text_at(env.names, n, t) && kind_at(env.sorts, id, SortKind::Uninterpreted(n)));
            assert(simple_name(env, t, id));
        },
        SortKind::Datatype(n) => {
            assert(text_at(env.names, n, t) && kind_at(env.sorts, id, SortKind::Datatype(n)));
            assert(simple_name(env, t, id));
        },
        _ => {},
    }
}

proof fn lemma_one_place(sorts: Seq<SortKind>, a: SortId, b: SortId, kind: SortKind)
    requires
        kind_at(sorts, a, kind),
        kind_at(sorts, b, kind),
    ensures
        a == b,
{
    if a < b {
        assert(sorts[a as int] != kind);
    }
    if b < a {
        assert(sorts[b as int] != kind);
    }
}

proof fn lemma_one_name(names: Seq<Seq<char>>, a: NameId, b: NameId, text: Seq<char>)
    requires
        text_at(names, a, text),
        text_at(names, b, text),
    ensures
        a == b,
{
    if a < b {
        assert(names[a as int] != text);
    }
    if b < a {
        assert(names[b as int] != text);
    }
}

/// A text denotes one sort.
pub proof fn names_denote_one_sort(env: SortEnv, text: Seq<char>, a: SortId, b: SortId)
    requires
        denotes(env, text, a),
        denotes(env, text, b),
    ensures
        a == b,
    decreases text.len(),
{
    let name = trim(text);
    if name == "Bool"@ || name == "Int"@ || name == "Real"@ || name == "String"@ {
    } else if enclosed(name) {
        let words = tokens(trim(name.subrange(1, name.len() - 1)));
        match compound(words) {
            Compound::BitVec(w) => lemma_one_place(env.sorts, a, b, SortKind::BitVec(w)),
            Compound::FloatingPoint(eb, sb) => lemma_one_place(
                env.sorts,
                a,
                b,
                SortKind::FloatingPoint { eb, sb },
            ),
            Compound::Array => {
                let (d, r) = choose|d: SortId, r: SortId|
                    denotes(env, words[1], d) && denotes(env, words[2], r) && #[trigger] kind_at(
                        env.sorts,
                        a,
                        SortKind::Array { domain: d, range: r },
                    );
                let (e, q) = choose|e: SortId, q: SortId|
                    denotes(env, words[1], e) && denotes(env, words[2], q) && #[trigger] kind_at(
                        env.sorts,
                        b,
                        SortKind::Array { domain: e, range: q },
                    );
                names_denote_one_sort(env, words[1], d, e);
                names_denote_one_sort(env, words[2], r, q);
                lemma_one_place(env.sorts, a, b, SortKind::Array { domain: d, range: r });
            },
            Compound::Other => {},
        }
    } else {
        match named_width(name) {
            Some(w) => lemma_one_place(env.sorts, a, b, SortKind::BitVec(w)),
            None => if env.datatypes.contains(name) {
                let n = choose|n: NameId|
                    text_at(env.names, n, name) && #[trigger] kind_at(
                        env.sorts,
                        a,
                        SortKind::Datatype(n),
                    );
                let m = choose|m: NameId|
                    text_at(env.names, m, name) && #[trigger] kind_at(
                        env.sorts,
                        b,
                        SortKind::Datatype(m),
                    );
                lemma_one_name(env.names, n, m, name);
                lemma_one_place(env.sorts, a, b, SortKind::Datatype(n));
            } else if !env.aliases.contains_key(name) {
                let n = choose|n: NameId|
                    text_at(env.names, n, name) && #[trigger] kind_at(
                        env.sorts,
                        a,
                        SortKind::Uninterpreted(n),
                    );
                let m = choose|m: NameId|
                    text_at(env.names, m, name) && #[trigger] kind_at(
                        env.sorts,
                        b,
                        SortKind::Uninterpreted(m),
                    );
                lemma_one_name(env.names, n, m, name);
                lemma_one_place(env.sorts, a, b, SortKind::Uninterpreted(n));
            },
        }
    }
}

proof fn lemma_trim_end_ends(s: Seq<char>)
    ensures
        trim_end(s).len() > 0 ==> !white(trim_end(s).last()) && trim_end(s)[0] == s[0],
    decreases s.len(),
{
    if s.len() > 0 && white(s.last()) {
        lemma_trim_end_ends(s.drop_last());
    }
}

proof fn lemma_trim_ends(s: Seq<char>)
    ensures
        trim(s).len() > 0 ==> !white(trim(s)[0]) && !white(trim(s).last()),
        trim(trim(s)) == trim(s),
    decreases s.len(),
{
    if s.len() > 0 && white(s[0]) {
        lemma_trim_ends(s.drop_first());
    } else {
        lemma_trim_end_ends(s);
        if trim(s).len() > 0 {
            lemma_trimmed(trim(s));
        }
    }
}

/// By how much a text raises the depth of parentheses.
pub open spec fn shift(t: Seq<char>) -> int
    decreases t.len(),
{
    if t.len() == 0 {
        0
    } else {
        shift(t.drop_last()) + if t.last() == '(' {
            1int
        } else if t.last() == ')' {
            -1int
        } else {
            0int
        }
    }
}

/// Where the text begins at depth `k`, no white space in it is at depth 0.
pub open spec fn unsplit(t: Seq<char>, k: int) -> bool {
    forall|j: int| 0 <= j < t.len() && white(#[trigger] t[j]) ==> shift(t.take(j)) != -k
}

/// The text is one word wherever it stands.
pub open spec fn whole(t: Seq<char>) -> bool {
    &&& t.len() > 0
    &&& !white(t[0]) && !white(t.last())
    &&& shift(t) == 0
    &&& forall|k: int| k >= 0 ==> #[trigger] unsplit(t, k)
}

proof fn lemma_shift_cat(a: Seq<char>, b: Seq<char>)
    ensures
        shift(a + b) == shift(a) + shift(b),
    decreases b.len(),
{
    if b.len() == 0 {
        assert(a + b =~= a);
    } else {
        lemma_shift_cat(a, b.drop_last());
        assert((a + b).drop_last() =~= a + b.drop_last());
        assert((a + b).last() == b.last());
    }
}

proof fn lemma_unsplit_cat(a: Seq<char>, b: Seq<char>, k: int)
    ensures
        unsplit(a + b, k) == (unsplit(a, k) && unsplit(b, k + shift(a))),
{
    let t = a + b;
    if unsplit(t, k) {
        assert forall|j: int| 0 <= j < a.len() && white(#[trigger] a[j]) implies shift(a.take(j))
            != -k by {
            assert(t[j] == a[j]);
            assert(t.take(j) =~= a.take(j));
        }
        assert forall|j: int| 0 <= j < b.len() && white(#[trigger] b[j]) implies shift(b.take(j))
            != -(k + shift(a)) by {
            assert(t[a.len() + j] == b[j]);
            assert(t.take(a.len() + j) =~= a + b.take(j));
            lemma_shift_cat(a, b.take(j));
        }
    }
    if unsplit(a, k) && unsplit(b, k + shift(a)) {
        assert forall|j: int| 0 <= j < t.len() && white(#[trigger] t[j]) implies shift(t.take(j))
            != -k by {
            if j < a.len() {
                assert(t[j] == a[j]);
                assert(t.take(j) =~= a.take(j));
            } else {
                let m = j - a.len();
                assert(t[j] == b[m]);
                assert(t.take(j) =~= a + b.take(m));
                lemma_shift_cat(a, b.take(m));
            }
        }
    }
}

/// A text without white space is never split.
proof fn lemma_unsplit_solid(t: Seq<char>, k: int)
    requires
        forall|j: int| 0 <= j < t.len() ==> !white(#[trigger] t[j]),
    ensures
        unsplit(t, k),
{
}

proof fn lemma_shift_flat(t: Seq<char>)
    requires
        forall|j: int| 0 <= j < t.len() ==> (#[trigger] t[j]) != '(' && t[j] != ')',
    ensures
        shift(t) == 0,
        forall|j: int| 0 <= j <= t.len() ==> shift(#[trigger] t.take(j)) == 0,
    decreases t.len(),
{
    if t.len() > 0 {
        let r = t.drop_last();
        assert forall|j: int| 0 <= j < r.len() implies (#[trigger] r[j]) != '(' && r[j] != ')' by {
            assert(r[j] == t[j]);
        }
        lemma_shift_flat(r);
        assert(t[t.len() - 1] == t.last());
        assert forall|j: int| 0 <= j <= t.len() implies shift(#[trigger] t.take(j)) == 0 by {
            if j < t.len() {
                assert(t.take(j) =~= r.take(j));
            } else {
                assert(t.take(j) =~= t);
            }
        }
    } else {
        assert forall|j: int| 0 <= j <= t.len() implies shift(#[trigger] t.take(j)) == 0 by {
            assert(t.take(j) =~= t);
        }
    }
}

/// A text without parentheses is split only where it begins at depth 0.
proof fn lemma_flat_unsplit(t: Seq<char>, k: int)
    requires
        forall|j: int| 0 <= j < t.len() ==> (#[trigger] t[j]) != '(' && t[j] != ')',
        k != 0,
    ensures
        unsplit(t, k),
        shift(t) == 0,
{
    lemma_shift_flat(t);
}

/// Where nothing is split, the text is added to the current word.
proof fn lemma_unsplit_scan(x: Scan, t: Seq<char>)
    requires
        unsplit(t, x.depth),
    ensures
        scan(x, t) == (Scan { depth: x.depth + shift(t), current: x.current + t, ..x }),
    decreases t.len(),
{
    if t.len() == 0 {
        assert(x.current + t =~= x.current);
    } else {
        let r = t.drop_last();
        assert(r + seq![t.last()] =~= t);
        lemma_unsplit_cat(r, seq![t.last()], x.depth);
        lemma_unsplit_scan(x, r);
        assert((x.current + r).push(t.last()) =~= x.current + t);
        assert(t.take(t.len() - 1) =~= r);
        assert(t[t.len() - 1] == t.last());
    }
}

/// The text in parentheses.
proof fn lemma_shift_enclosed(b: Seq<char>, k: int)
    ensures
        shift("("@ + b + ")"@) == shift(b),
        unsplit("("@ + b + ")"@, k) == unsplit(b, k + 1),
{
    reveal_strlit("(");
    reveal_strlit(")");
    let (o, c) = ("("@, ")"@);
    assert(o.len() == 1 && o[0] == '(' && c.len() == 1 && c[0] == ')');
    assert(o.drop_last() =~= Seq::<char>::empty() && c.drop_last() =~= Seq::<char>::empty());
    assert(shift(o.drop_last()) == 0 && shift(c.drop_last()) == 0);
    assert(shift(o) == 1 && shift(c) == -1);
    lemma_shift_cat(o, b);
    lemma_shift_cat(o + b, c);
    lemma_unsplit_solid(o, k);
    lemma_unsplit_solid(c, k + 1 + shift(b));
    lemma_unsplit_cat(o, b, k);
    lemma_unsplit_cat(o + b, c, k);
}

/// White space at the ends does not count.
proof fn lemma_trim_end_shape(t: Seq<char>, k: int)
    ensures
        shift(trim_end(t)) == shift(t),
        unsplit(t, k) ==> unsplit(trim_end(t), k),
        t.len() > 0 && !white(t[0]) ==> trim_end(t).len() > 0,
    decreases t.len(),
{
    if t.len() > 0 && white(t.last()) {
        let r = t.drop_last();
        lemma_trim_end_shape(r, k);
        assert(r + seq![t.last()] =~= t);
        lemma_unsplit_cat(r, seq![t.last()], k);
        assert(t.len() > 1 ==> r[0] == t[0]);
        assert(t[t.len() - 1] == t.last());
        assert(white('(') == false && white(')') == false);
    }
}

proof fn lemma_trim_shape(t: Seq<char>, k: int)
    ensures
        shift(trim(t)) == shift(t),
        unsplit(t, k) ==> unsplit(trim(t), k),
        t.len() > 0 && !white(t[0]) ==> trim(t).len() > 0,
    decreases t.len(),
{
    if t.len() > 0 && white(t[0]) {
        let r = t.drop_first();
        lemma_trim_shape(r, k);
        let f = seq![t[0]];
        assert(f + r =~= t);
        lemma_unsplit_cat(f, r, k);
        lemma_shift_cat(f, r);
        assert(f.drop_last() =~= Seq::<char>::empty());
        assert(shift(f.drop_last()) == 0);
        assert(white('(') == false && white(')') == false);
        assert(shift(f) == 0);
    } else {
        lemma_trim_end_shape(t, k);
    }
}

/// A word among the words of a text that begins at depth `k`.
spec fn word_shape(w: Seq<char>, split: bool, k: int) -> bool {
    &&& w.len() > 0 ==> !white(w[0])
    &&& unsplit(w, 0)
    &&& split ==> unsplit(w, k)
}

/// The words that a scan has found.
proof fn lemma_scan_shape(t: Seq<char>, k: int)
    ensures
        ({
            let x = scan(scan_start(), t);
            &&& shift(x.current) == x.depth
            &&& shift(t) == x.depth
            &&& word_shape(x.current, unsplit(t, k), k)
            &&& x.current.len() == 0 ==> x.depth == 0
            &&& forall|j: int|
                0 <= j < x.tokens.len() ==> {
                    let w = #[trigger] x.tokens[j];
                    w.len() > 0 && shift(w) == 0 && word_shape(w, unsplit(t, k), k)
                }
        }),
    decreases t.len(),
{
    let x = scan(scan_start(), t);
    if t.len() > 0 {
        let r = t.drop_last();
        let c = t.last();
        lemma_scan_shape(r, k);
        let y = scan(scan_start(), r);
        assert(r + seq![c] =~= t);
        lemma_unsplit_cat(r, seq![c], k);
        assert(t[t.len() - 1] == c);
        assert(t.take(t.len() - 1) =~= r);
        assert(white('(') == false && white(')') == false);
        if white(c) && y.depth == 0 {
            assert forall|j: int| 0 <= j < x.tokens.len() implies {
                let w = #[trigger] x.tokens[j];
                w.len() > 0 && shift(w) == 0 && word_shape(w, unsplit(t, k), k)
            } by {
                if j < y.tokens.len() {
                    assert(x.tokens[j] == y.tokens[j]);
                }
            }
        } else {
            assert(x.current =~= y.current + seq![c]);
            assert(x.current.drop_last() =~= y.current);
            lemma_unsplit_cat(y.current, seq![c], 0);
            lemma_unsplit_cat(y.current, seq![c], k);
            let one = seq![c];
            assert forall|j: int| 0 <= j < one.len() && white(#[trigger] one[j]) implies shift(
                one.take(j),
            ) != -(0 + shift(y.current)) by {
                assert(one.take(j) =~= Seq::<char>::empty());
            }
            if unsplit(t, k) {
                assert forall|j: int| 0 <= j < one.len() && white(#[trigger] one[j]) implies shift(
                    one.take(j),
                ) != -(k + shift(y.current)) by {
                    assert(one.take(j) =~= Seq::<char>::empty());
                    assert(white(t[t.len() - 1]));
                }
            }
            if y.current.len() > 0 {
                assert(x.current[0] == y.current[0]);
            }
        }
    }
}

/// The names in the text that were given to sorts: each reads back, and within
/// an array it is written as one word.
pub open spec fn aliases_fit(env: SortEnv, text: Seq<char>, inner: bool) -> bool
    decreases text.len(),
{
    let name = trim(text);
    if name == "Bool"@ || name == "Int"@ || name == "Real"@ || name == "String"@ {
        true
    } else if enclosed(name) {
        let words = tokens(trim(name.subrange(1, name.len() - 1)));
        compound(words) == Compound::Array && words[1].len() < text.len() && words[2].len()
            < text.len() ==> aliases_fit(env, words[1], true) && aliases_fit(env, words[2], true)
    } else if named_width(name) is None && !env.datatypes.contains(name)
        && env.aliases.contains_key(name) {
        let id = env.aliases[name];
        denotes(env, sort_text(env, id), id) && (inner ==> whole(sort_text(env, id)))
    } else {
        true
    }
}

proof fn lemma_word_whole(t: Seq<char>)
    requires
        t.len() > 0,
        forall|j: int|
            0 <= j < t.len() ==> !white(#[trigger] t[j]) && t[j] != '(' && t[j] != ')',
    ensures
        whole(t),
{
    lemma_shift_flat(t);
    assert(t[t.len() - 1] == t.last());
    assert forall|k: int| k >= 0 implies #[trigger] unsplit(t, k) by {
        lemma_unsplit_solid(t, k);
    }
}

proof fn lemma_flat_enclosed_whole(b: Seq<char>)
    requires
        forall|j: int| 0 <= j < b.len() ==> (#[trigger] b[j]) != '(' && b[j] != ')',
    ensures
        whole("("@ + b + ")"@),
{
    reveal_strlit("(");
    reveal_strlit(")");
    let t = "("@ + b + ")"@;
    assert(t[0] == '(' && t.last() == ')');
    assert(white('(') == false && white(')') == false);
    lemma_shift_flat(b);
    assert forall|k: int| k >= 0 implies #[trigger] unsplit(t, k) by {
        lemma_shift_enclosed(b, k);
        lemma_flat_unsplit(b, k + 1);
    }
    lemma_shift_enclosed(b, 0);
}

/// Sorts that are written without other sorts are written as one word.
proof fn lemma_plain_sort_whole(env: SortEnv, id: SortId)
    requires
        id < env.sorts.len(),
        match env.sorts[id as int] {
            SortKind::Bool | SortKind::Int | SortKind::Real | SortKind::String => true,
            SortKind::BitVec(_) => true,
            SortKind::FloatingPoint { .. } => true,
            _ => false,
        },
    ensures
        whole(sort_text(env, id)),
{
    let t = sort_text(env, id);
    reveal_strlit("Bool");
    reveal_strlit("Int");
    reveal_strlit("Real");
    reveal_strlit("String");
    reveal_strlit(" ");
    match env.sorts[id as int] {
        SortKind::BitVec(w) => {
            lemma_bits_text(w as nat);
            lemma_decimal_flat(w as nat);
            reveal_strlit("_");
            reveal_strlit("BitVec");
            lemma_flat_enclosed_whole("_"@ + " "@ + "BitVec"@ + " "@ + decimal(w as nat));
        },
        SortKind::FloatingPoint { eb, sb } => {
            lemma_float_text(eb as nat, sb as nat);
            lemma_decimal_flat(eb as nat);
            lemma_decimal_flat(sb as nat);
            reveal_strlit("_");
            reveal_strlit("FloatingPoint");
            lemma_flat_enclosed_whole(
                "_"@ + " "@ + "FloatingPoint"@ + " "@ + decimal(eb as nat) + " "@ + decimal(
                    sb as nat,
                ),
            );
        },
        _ => {
            lemma_word_whole(t);
        },
    }
}

proof fn lemma_decimal_flat(n: nat)
    ensures
        forall|j: int|
            0 <= j < decimal(n).len() ==> (#[trigger] decimal(n)[j]) != '(' && decimal(n)[j] != ')',
{
    decimals_read_back(n);
    let t = decimal(n);
    assert forall|j: int| 0 <= j < t.len() implies (#[trigger] t[j]) != '(' && t[j] != ')' by {
        assert(digit(t[j]) is Some);
    }
}

/// The words of an array, when its components are written as single words.
proof fn lemma_array_words(d: Seq<char>, r: Seq<char>)
    requires
        d.len() > 0,
        shift(d) == 0,
        unsplit(d, 0),
        r.len() > 0,
        unsplit(r, 0),
        !white(r.last()),
    ensures
        "(Array "@ + d + " "@ + r + ")"@ == "("@ + ("Array"@ + " "@ + d + " "@ + r) + ")"@,
        tokens("Array"@ + " "@ + d + " "@ + r) == seq!["Array"@, d, r],
        !white(("Array"@ + " "@ + d + " "@ + r)[0]),
        !white(("Array"@ + " "@ + d + " "@ + r).last()),
{
    reveal_strlit("(");
    reveal_strlit(")");
    reveal_strlit(" ");
    reveal_strlit("Array");
    reveal_strlit("(Array ");
    let b = "Array"@ + " "@ + d + " "@ + r;
    assert("(Array "@ + d + " "@ + r + ")"@ =~= "("@ + b + ")"@);
    assert(b[0] == 'A');
    assert(b.last() == r.last());
    let x0 = scan_start();
    lemma_word_solid("Array"@);
    lemma_next_word(x0, "Array"@);
    let x1 = scan(x0, "Array"@ + " "@);
    lemma_unsplit_scan(x1, d);
    let y = scan(x1, d);
    assert(x1.current + d =~= d);
    lemma_scan_cat(x1, d, " "@);
    assert(" "@ =~= seq![' ']);
    assert(seq![' '].drop_last() =~= Seq::<char>::empty());
    assert(scan(y, Seq::<char>::empty()) == y);
    assert(white(' '));
    assert(scan(y, " "@) == scan_char(y, ' '));
    let x2 = scan(x1, d + " "@);
    lemma_scan_cat(x0, "Array"@ + " "@, d + " "@);
    assert(("Array"@ + " "@) + (d + " "@) =~= "Array"@ + " "@ + d + " "@);
    lemma_unsplit_scan(x2, r);
    assert(x2.current + r =~= r);
    lemma_scan_cat(x0, "Array"@ + " "@ + d + " "@, r);
    assert(tokens(b) =~= seq!["Array"@, d, r]);
}

/// How the sort of a word is written: it reads back, it is split only where the
/// word is, and it is balanced where the word is.
proof fn lemma_word_written(env: SortEnv, text: Seq<char>, id: SortId, k: int)
    requires
        sorts_wf(env.sorts),
        denotes(env, text, id),
        aliases_fit(env, text, true),
        trim(text).len() > 0,
        k >= 0,
    ensures
        sort_text(env, id).len() > 0,
        !white(sort_text(env, id)[0]),
        !white(sort_text(env, id).last()),
        unsplit(trim(text), k) ==> unsplit(sort_text(env, id), k),
        shift(trim(text)) == 0 ==> shift(sort_text(env, id)) == 0,
        denotes(env, sort_text(env, id), id),
    decreases text.len(), 1int,
{
    let name = trim(text);
    let u = sort_text(env, id);
    lemma_trim_ends(text);
    if name == "Bool"@ || name == "Int"@ || name == "Real"@ || name == "String"@ {
        lemma_plain_sort_whole(env, id);
        assert(kind_at(env.sorts, id, env.sorts[id as int]));
        sorts_read_back(env, id);
    } else if enclosed(name) {
        let inner = name.subrange(1, name.len() - 1);
        let b = trim(inner);
        let words = tokens(b);
        match compound(words) {
            Compound::Array => {
                lemma_array_written(env, text, id, k);
            },
            Compound::Other => {
                lemma_plain_sort_whole(env, id);
                assert(kind_at(env.sorts, id, env.sorts[id as int]));
                sorts_read_back(env, id);
            },
            _ => {
                lemma_plain_sort_whole(env, id);
                sorts_read_back(env, id);
            },
        }
    } else if named_width(name) is Some {
        lemma_plain_sort_whole(env, id);
        sorts_read_back(env, id);
    } else if env.aliases.contains_key(name) && !env.datatypes.contains(name) {
        assert(unsplit(u, k));
    } else {
        assert(u == name);
    }
}

/// The words for the components of an array: each is split only where the array
/// is, and the first is balanced.
proof fn lemma_component_words(name: Seq<char>, k: int)
    requires
        enclosed(name),
        compound(tokens(trim(name.subrange(1, name.len() - 1)))) == Compound::Array,
        k >= 0,
    ensures
        ({
            let words = tokens(trim(name.subrange(1, name.len() - 1)));
            &&& trim(words[1]).len() > 0
            &&& trim(words[2]).len() > 0
            &&& shift(trim(words[1])) == 0
            &&& shift(trim(words[2])) == shift(name)
            &&& unsplit(trim(words[1]), 0)
            &&& unsplit(trim(words[2]), 0)
            &&& unsplit(name, k) ==> unsplit(trim(words[1]), k + 1) && unsplit(
                trim(words[2]),
                k + 1,
            )
        }),
{
    reveal_strlit("(");
    reveal_strlit(")");
    let inner = name.subrange(1, name.len() - 1);
    let b = trim(inner);
    let words = tokens(b);
    assert(name =~= "("@ + inner + ")"@);
    lemma_scan_shape(b, k + 1);
    let x = scan(scan_start(), b);
    if x.current.len() > 0 {
        assert(words[1] == x.tokens[1]);
        assert(words[2] == x.current);
    } else {
        assert(words[1] == x.tokens[1]);
        assert(words[2] == x.tokens[2]);
    }
    lemma_shift_enclosed(inner, k);
    lemma_trim_shape(inner, k + 1);
    lemma_trim_shape(words[1], 0);
    lemma_trim_shape(words[1], k + 1);
    lemma_trim_shape(words[2], 0);
    lemma_trim_shape(words[2], k + 1);
}

/// The text of an array, from those of its components.
proof fn lemma_array_shape(p: Seq<char>, q: Seq<char>, k: int)
    requires
        k >= 0,
    ensures
        shift("("@ + ("Array"@ + " "@ + p + " "@ + q) + ")"@) == shift(p) + shift(q),
        shift(p) == 0 && unsplit(p, k + 1) && unsplit(q, k + 1) ==> unsplit(
            "("@ + ("Array"@ + " "@ + p + " "@ + q) + ")"@,
            k,
        ),
{
    reveal_strlit(" ");
    reveal_strlit("Array");
    let head = "Array"@ + " "@;
    let body = head + p + " "@ + q;
    lemma_shift_enclosed(body, k);
    lemma_flat_unsplit(head, k + 1);
    lemma_flat_unsplit(" "@, k + 1);
    lemma_shift_cat(head, p);
    lemma_shift_cat(head + p, " "@);
    lemma_shift_cat(head + p + " "@, q);
    lemma_unsplit_cat(head, p, k + 1);
    lemma_unsplit_cat(head + p, " "@, k + 1);
    lemma_unsplit_cat(head + p + " "@, q, k + 1);
}

/// An array whose components read back does so too.
proof fn lemma_array_read_back(env: SortEnv, id: SortId, d: SortId, r: SortId)
    requires
        kind_at(env.sorts, id, SortKind::Array { domain: d, range: r }),
        d < id,
        r < id,
        denotes(env, sort_text(env, d), d),
        denotes(env, sort_text(env, r), r),
        sort_text(env, d).len() > 0,
        shift(sort_text(env, d)) == 0,
        unsplit(sort_text(env, d), 0),
        sort_text(env, r).len() > 0,
        unsplit(sort_text(env, r), 0),
        !white(sort_text(env, r).last()),
    ensures
        sort_text(env, id) == "("@ + ("Array"@ + " "@ + sort_text(env, d) + " "@ + sort_text(
            env,
            r,
        )) + ")"@,
        denotes(env, sort_text(env, id), id),
{
    reveal_strlit("Array");
    reveal_strlit("_");
    assert("Array"@[0] != "_"@[0]);
    let (p, q) = (sort_text(env, d), sort_text(env, r));
    lemma_array_words(p, q);
    lemma_inside("Array"@ + " "@ + p + " "@ + q);
    let again = seq!["Array"@, p, q];
    assert(compound(again) == Compound::Array);
    assert(again[1] == p && again[2] == q);
    assert(denotes(env, again[1], d) && denotes(env, again[2], r) && kind_at(
        env.sorts,
        id,
        SortKind::Array { domain: d, range: r },
    ));
}

proof fn lemma_array_written(env: SortEnv, text: Seq<char>, id: SortId, k: int)
    requires
        sorts_wf(env.sorts),
        denotes(env, text, id),
        aliases_fit(env, text, true),
        enclosed(trim(text)),
        trim(text) != "Bool"@ && trim(text) != "Int"@ && trim(text) != "Real"@ && trim(text)
            != "String"@,
        compound(tokens(trim(trim(text).subrange(1, trim(text).len() - 1)))) == Compound::Array,
        k >= 0,
    ensures
        sort_text(env, id).len() > 0,
        !white(sort_text(env, id)[0]),
        !white(sort_text(env, id).last()),
        unsplit(trim(text), k) ==> unsplit(sort_text(env, id), k),
        shift(trim(text)) == 0 ==> shift(sort_text(env, id)) == 0,
        denotes(env, sort_text(env, id), id),
    decreases text.len(), 0int,
{
    let name = trim(text);
    let words = tokens(trim(name.subrange(1, name.len() - 1)));
    let (d, r) = choose|d: SortId, r: SortId|
        denotes(env, words[1], d) && denotes(env, words[2], r) && #[trigger] kind_at(
            env.sorts,
            id,
            SortKind::Array { domain: d, range: r },
        );
    assert(components_below(env.sorts[id as int], id as int));
    lemma_component_words(name, k);
    lemma_word_written(env, words[1], d, 0);
    lemma_word_written(env, words[1], d, k + 1);
    lemma_word_written(env, words[2], r, 0);
    lemma_word_written(env, words[2], r, k + 1);
    let (p, q) = (sort_text(env, d), sort_text(env, r));
    lemma_array_read_back(env, id, d, r);
    lemma_array_shape(p, q, k);
    reveal_strlit("(");
    reveal_strlit(")");
    let u = sort_text(env, id);
    assert(u[0] == '(' && u.last() == ')');
    assert(white('(') == false && white(')') == false);
}

/// Writing the sort that a text denotes and reading it again gives back the
/// sort: formatting is the inverse of parsing.  A name that was given to another
/// sort has to be one that can be written in its place.
pub proof fn parsed_sorts_read_back(env: SortEnv, text: Seq<char>, id: SortId)
    requires
        sorts_wf(env.sorts),
        denotes(env, text, id),
        aliases_fit(env, text, false),
    ensures
        denotes(env, sort_text(env, id), id),
{
    let name = trim(text);
    lemma_trim_ends(text);
    if name == "Bool"@ || name == "Int"@ || name == "Real"@ || name == "String"@ || enclosed(name)
        || named_width(name) is Some {
        reveal_strlit("Bool");
        reveal_strlit("Int");
        reveal_strlit("Real");
        reveal_strlit("String");
        assert(aliases_fit(env, text, true));
        assert(name.len() > 0);
        lemma_word_written(env, text, id, 0);
    } else if env.aliases.contains_key(name) && !env.datatypes.contains(name) {
    } else {
        assert(sort_text(env, id) == name);
    }
}

/// Parsing what formatting wrote gives back the sort, also where parsing adds
/// sorts and names.
pub proof fn parsing_inverts_formatting(
    env: SortEnv,
    later: SortEnv,
    text: Seq<char>,
    id: SortId,
    again: SortId,
)
    requires
        sorts_wf(env.sorts),
        denotes(env, text, id),
        aliases_fit(env, text, false),
        env_grows(env, later),
        denotes(later, sort_text(env, id), again),
    ensures
        again == id,
{
    parsed_sorts_read_back(env, text, id);
    names_keep_their_sorts(env, later, sort_text(env, id), id);
    names_denote_one_sort(later, sort_text(env, id), again, id);
}

/// Without given names, writing every parsed sort and reading it again gives it
/// back.
pub proof fn plain_sorts_read_back(env: SortEnv, text: Seq<char>, id: SortId)
    requires
        sorts_wf(env.sorts),
        env.aliases.dom() == Set::<Seq<char>>::empty(),
        denotes(env, text, id),
    ensures
        denotes(env, sort_text(env, id), id),
{
    lemma_no_aliases(env, text, false);
    parsed_sorts_read_back(env, text, id);
}

proof fn lemma_no_aliases(env: SortEnv, text: Seq<char>, inner: bool)
    requires
        env.aliases.dom() == Set::<Seq<char>>::empty(),
    ensures
        aliases_fit(env, text, inner),
    decreases text.len(),
{
    let name = trim(text);
    if enclosed(name) {
        let words = tokens(trim(name.subrange(1, name.len() - 1)));
        if compound(words) == Compound::Array && words[1].len() < text.len() && words[2].len()
            < text.len() {
            lemma_no_aliases(env, words[1], true);
            lemma_no_aliases(env, words[2], true);
        }
    }
    assert(!env.aliases.dom().contains(name));
}

} // verus!
