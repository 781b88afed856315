//! Conflicts between string constraints.
//!
//! Equations between string variables, literals, lengths, concatenations and
//! replacements are collected from the assertions and checked against each
//! other.

use crate::collections::{map_get, map_insert, map_new, map_sorted_keys};
use crate::ite_table::{int_const_val, int_literal};
use crate::semantics::{
    all_hold, arg_sorts, eqv, eval, eval_args, holds, is_true, lemma_eval, num, Interp, Value,
};
use crate::terms::{
    node_below, terms_wf, Data, DataView, NameId, Op, TermId, TermStore, TermView, INT_SORT,
    STRING_SORT,
};
use crate::text::chars_of;
use rustc_hash::FxHashMap;
use vstd::prelude::*;

verus! {

/// The text of a string literal.
pub open spec fn literal_text(s: Seq<TermView>, names: Seq<String>, t: TermId) -> Option<Seq<char>> {
    if t < s.len() && s[t as int].op == Op::StringLit {
        match s[t as int].data {
            DataView::Name(n) => if n < names.len() {
                Some(names[n as int]@)
            } else {
                None
            },
            _ => None,
        }
    } else {
        None
    }
}

/// The text of a result.
pub open spec fn text_of(v: Option<Vec<char>>) -> Option<Seq<char>> {
    match v {
        Some(c) => Some(c@),
        None => None,
    }
}

pub fn get_string_literal(store: &TermStore, term: TermId) -> (r: Option<Vec<char>>)
    ensures
        text_of(r) == literal_text(store.terms(), store.names@, term),
{
    match store.get(term) {
        None => None,
        Some(node) => {
            if node.op != Op::StringLit {
                return None;
            }
            match &node.data {
                Data::Name(n) => {
                    let k: NameId = *n;
                    if k < store.names.len() {
                        Some(chars_of(store.names[k].as_str()))
                    } else {
                        None
                    }
                },
                _ => None,
            }
        },
    }
}

pub fn is_string_variable(store: &TermStore, term: TermId) -> (b: bool)
    ensures
        b == crate::aliases::is_var(store.terms(), term),
{
    match store.get(term) {
        None => false,
        Some(node) => node.op == Op::Var,
    }
}

/// The string and the number of `(str.len string) = number`.
pub open spec fn length_equation(s: Seq<TermView>, lhs: TermId, rhs: TermId) -> Option<(TermId, i64)> {
    if lhs < s.len() && s[lhs as int].op == Op::StrLen {
        match int_literal(s, rhs) {
            Some(n) => Some((s[lhs as int].args[0], n)),
            None => None,
        }
    } else {
        None
    }
}

pub fn extract_length_constraint(store: &TermStore, lhs: TermId, rhs: TermId) -> (r: Option<
    (TermId, i64),
>)
    requires
        store.wf(),
    ensures
        r == length_equation(store.terms(), lhs, rhs),
{
    match store.get(lhs) {
        None => None,
        Some(node) => {
            assert(node_below(store.terms(), lhs as int));
            if node.op != Op::StrLen {
                return None;
            }
            match int_const_val(rhs, store) {
                Some(n) => Some((node.args[0], n)),
                None => None,
            }
        },
    }
}

/// The operands of nested concatenations, left to right.
pub open spec fn concat_leaves(s: Seq<TermView>, t: TermId) -> Seq<TermId>
    decreases t,
{
    if t < s.len() && s[t as int].op == Op::StrConcat && s[t as int].args[0] < t
        && s[t as int].args[1] < t {
        concat_leaves(s, s[t as int].args[0]) + concat_leaves(s, s[t as int].args[1])
    } else {
        seq![t]
    }
}

pub fn flatten_concat(store: &TermStore, term: TermId, operands: &mut Vec<TermId>)
    requires
        store.wf(),
    ensures
        final(operands)@ == old(operands)@ + concat_leaves(store.terms(), term),
    decreases term,
{
    let node = match store.get(term) {
        None => {
            operands.push(term);
            assert(operands@ =~= old(operands)@ + seq![term]);
            return;
        },
        Some(node) => node,
    };
    assert(node_below(store.terms(), term as int));
    if node.op == Op::StrConcat {
        let ghost a = concat_leaves(store.terms(), node.args@[0]);
        flatten_concat(store, node.args[0], operands);
        flatten_concat(store, node.args[1], operands);
        assert(operands@ =~= old(operands)@ + concat_leaves(store.terms(), term));
    } else {
        operands.push(term);
        assert(operands@ =~= old(operands)@ + seq![term]);
    }
}

/// The operands of a concatenation.
pub open spec fn concat_of(s: Seq<TermView>, t: TermId) -> Option<Seq<TermId>> {
    if t < s.len() && s[t as int].op == Op::StrConcat {
        Some(concat_leaves(s, t))
    } else {
        None
    }
}

pub fn extract_concat_operands(store: &TermStore, term: TermId) -> (r: Option<Vec<TermId>>)
    requires
        store.wf(),
    ensures
        match r {
            Some(v) => concat_of(store.terms(), term) == Some(v@),
            None => concat_of(store.terms(), term) is None,
        },
{
    match store.get(term) {
        None => None,
        Some(node) => {
            if node.op == Op::StrConcat {
                let mut operands: Vec<TermId> = Vec::new();
                flatten_concat(store, term, &mut operands);
                assert(operands@ =~= concat_leaves(store.terms(), term));
                Some(operands)
            } else {
                None
            }
        },
    }
}

/// The source, the pattern and the replacement of a replacement of all
/// occurrences.
pub open spec fn replace_all_of(s: Seq<TermView>, t: TermId) -> Option<(TermId, TermId, TermId)> {
    if t < s.len() && s[t as int].op == Op::StrReplaceAll {
        let args = s[t as int].args;
        Some((args[0], args[1], args[2]))
    } else {
        None
    }
}

pub fn extract_replace_all(store: &TermStore, term: TermId) -> (r: Option<(TermId, TermId, TermId)>)
    requires
        store.wf(),
    ensures
        r == replace_all_of(store.terms(), term),
{
    match store.get(term) {
        None => None,
        Some(node) => {
            assert(node_below(store.terms(), term as int));
            if node.op == Op::StrReplaceAll {
                Some((node.args[0], node.args[1], node.args[2]))
            } else {
                None
            }
        },
    }
}

/// A replacement whose parts are known: `result` is `text` with each `pattern`
/// replaced by `by`.
pub struct Replacement {
    pub result: TermId,
    pub source: TermId,
    pub text: Vec<char>,
    pub pattern: Vec<char>,
    pub by: Vec<char>,
}

pub struct ReplacementView {
    pub result: TermId,
    pub source: TermId,
    pub text: Seq<char>,
    pub pattern: Seq<char>,
    pub by: Seq<char>,
}

impl View for Replacement {
    type V = ReplacementView;

    open spec fn view(&self) -> ReplacementView {
        ReplacementView {
            result: self.result,
            source: self.source,
            text: self.text@,
            pattern: self.pattern@,
            by: self.by@,
        }
    }
}

/// What the equations say of strings.
pub struct StringFacts {
    /// Variables that equal a literal.
    pub assigned: FxHashMap<TermId, Vec<char>>,
    /// Lengths of strings.
    pub lengths: FxHashMap<TermId, i64>,
    /// Concatenations that equal a literal.
    pub concats: Vec<(Vec<TermId>, Vec<char>)>,
    pub replaced: Vec<Replacement>,
}

pub struct FactsView {
    pub assigned: Map<TermId, Seq<char>>,
    pub lengths: Map<TermId, i64>,
    pub concats: Seq<(Seq<TermId>, Seq<char>)>,
    pub replaced: Seq<ReplacementView>,
}

impl View for StringFacts {
    type V = FactsView;

    open spec fn view(&self) -> FactsView {
        FactsView {
            assigned: Map::new(
                |k: TermId| self.assigned@.contains_key(k),
                |k: TermId| self.assigned@[k]@,
            ),
            lengths: self.lengths@,
            concats: Seq::new(
                self.concats@.len(),
                |k: int| (self.concats@[k].0@, self.concats@[k].1@),
            ),
            replaced: Seq::new(self.replaced@.len(), |k: int| self.replaced@[k]@),
        }
    }
}

pub open spec fn no_facts() -> FactsView {
    FactsView {
        assigned: Map::empty(),
        lengths: Map::empty(),
        concats: Seq::empty(),
        replaced: Seq::empty(),
    }
}

/// The equations among the conjuncts of a formula.
pub open spec fn equations(s: Seq<TermView>, t: TermId) -> Seq<TermId>
    decreases t, 1int, 0int,
{
    if t >= s.len() {
        Seq::empty()
    } else {
        match s[t as int].op {
            Op::Eq => seq![t],
            Op::And => equations_below(s, t, s[t as int].args.len() as int),
            _ => Seq::empty(),
        }
    }
}

/// The equations among the conjuncts of the first `n` arguments.
pub open spec fn equations_below(s: Seq<TermView>, t: TermId, n: int) -> Seq<
    TermId,
>
    decreases t, 0int, n,
{
    if n <= 0 || n > s[t as int].args.len() || s[t as int].args[n - 1] >= t {
        Seq::empty()
    } else {
        equations_below(s, t, n - 1) + equations(
            s,
            s[t as int].args[n - 1],
        )
    }
}

fn collect_equations(store: &TermStore, term: TermId, out: &mut Vec<TermId>)
    requires
        store.wf(),
    ensures
        final(out)@ == old(out)@ + equations(store.terms(), term),
    decreases term,
{
    let ghost s = store.terms();
    let ghost first = out@;
    let node = match store.get(term) {
        None => {
            assert(out@ =~= first + equations(s, term));
            return;
        },
        Some(node) => node,
    };
    assert(node_below(s, term as int));
    let inner = match node.op {
        Op::Eq => {
            out.push(term);
            false
        },
        Op::And => true,
        _ => false,
    };
    let ghost base = out@;
    if inner {
        let mut k: usize = 0;
        assert(out@ =~= base + equations_below(s, term, 0));
        while k < node.args.len()
            invariant
                k <= node.args.len(),
                store.wf(),
                s == store.terms(),
                term < s.len(),
                node_below(s, term as int),
                node.args@ == s[term as int].args,
                out@ == base + equations_below(s, term, k as int),
            decreases node.args.len() - k,
        {
            assert(s[term as int].args[k as int] < term);
            collect_equations(store, node.args[k], out);
            assert(out@ =~= base + equations_below(s, term, k + 1));
            k = k + 1;
        }
    }
    assert(out@ =~= first + equations(s, term));
}

/// The variable and the text of an equation between the two.
pub open spec fn literal_equation(
    s: Seq<TermView>,
    names: Seq<String>,
    l: TermId,
    r: TermId,
) -> Option<(TermId, Seq<char>)> {
    match (literal_text(s, names, r), literal_text(s, names, l)) {
        (Some(lit), _) => if crate::aliases::is_var(s, l) {
            Some((l, lit))
        } else {
            None
        },
        (None, Some(lit)) => if crate::aliases::is_var(s, r) {
            Some((r, lit))
        } else {
            None
        },
        _ => None,
    }
}

/// The length that an equation gives a string.
pub open spec fn length_given(s: Seq<TermView>, l: TermId, r: TermId) -> Option<(TermId, i64)> {
    match length_equation(s, l, r) {
        Some(p) => Some(p),
        None => length_equation(s, r, l),
    }
}

/// The operands and the text of an equation between a concatenation and a
/// literal.
pub open spec fn concat_equation(
    s: Seq<TermView>,
    names: Seq<String>,
    l: TermId,
    r: TermId,
) -> Option<(Seq<TermId>, Seq<char>)> {
    match (literal_text(s, names, r), literal_text(s, names, l)) {
        (Some(lit), _) => match concat_of(s, l) {
            Some(ops) => Some((ops, lit)),
            None => None,
        },
        (None, Some(lit)) => match concat_of(s, r) {
            Some(ops) => Some((ops, lit)),
            None => None,
        },
        _ => None,
    }
}

/// The result and the replacement of an equation between the two.
pub open spec fn replace_equation(s: Seq<TermView>, l: TermId, r: TermId) -> Option<
    (TermId, (TermId, TermId, TermId)),
> {
    match (replace_all_of(s, r), replace_all_of(s, l)) {
        (Some(p), _) => Some((l, p)),
        (None, Some(p)) => Some((r, p)),
        _ => None,
    }
}

/// The text of a term that is assigned one.
pub open spec fn assigned_text(assigned: Map<TermId, Seq<char>>, t: TermId) -> Option<Seq<char>> {
    if assigned.contains_key(t) {
        Some(assigned[t])
    } else {
        None
    }
}

pub open spec fn either_text(a: Option<Seq<char>>, b: Option<Seq<char>>) -> Option<Seq<char>> {
    match a {
        Some(x) => Some(x),
        None => b,
    }
}

/// The replacement that an equation states, where its source is known to be
/// `text` and its pattern and replacement are literals.
pub open spec fn known_replacement(
    s: Seq<TermView>,
    names: Seq<String>,
    l: TermId,
    r: TermId,
    literal_source: bool,
    assigned: Map<TermId, Seq<char>>,
) -> Option<ReplacementView> {
    match replace_equation(s, l, r) {
        None => None,
        Some((result, (source, pattern, by))) => {
            let text = if literal_source {
                either_text(literal_text(s, names, source), assigned_text(assigned, source))
            } else {
                assigned_text(assigned, source)
            };
            match (text, literal_text(s, names, pattern), literal_text(s, names, by)) {
                (Some(text), Some(pattern), Some(by)) => Some(
                    ReplacementView { result, source, text, pattern, by },
                ),
                _ => None,
            }
        },
    }
}

/// The facts with those of one more equation; none where it contradicts them.
pub open spec fn equation_noted(
    s: Seq<TermView>,
    names: Seq<String>,
    facts: FactsView,
    e: TermId,
) -> Option<FactsView> {
    let l = s[e as int].args[0];
    let r = s[e as int].args[1];
    let clash = match literal_equation(s, names, l, r) {
        Some((v, lit)) => facts.assigned.contains_key(v) && facts.assigned[v] != lit,
        None => false,
    };
    if clash {
        None
    } else {
        let assigned = match literal_equation(s, names, l, r) {
            Some((v, lit)) => facts.assigned.insert(v, lit),
            None => facts.assigned,
        };
        Some(
            FactsView {
                assigned,
                lengths: match length_given(s, l, r) {
                    Some((v, n)) => facts.lengths.insert(v, n),
                    None => facts.lengths,
                },
                concats: match concat_equation(s, names, l, r) {
                    Some(c) => facts.concats.push(c),
                    None => facts.concats,
                },
                replaced: match known_replacement(s, names, l, r, true, assigned) {
                    Some(p) => facts.replaced.push(p),
                    None => facts.replaced,
                },
            },
        )
    }
}

/// The facts after a list of equations; none where they contradict each other.
pub open spec fn equations_noted(
    s: Seq<TermView>,
    names: Seq<String>,
    facts: FactsView,
    es: Seq<TermId>,
) -> Option<FactsView>
    decreases es.len(),
{
    if es.len() == 0 {
        Some(facts)
    } else {
        match equations_noted(s, names, facts, es.drop_last()) {
            Some(f) => equation_noted(s, names, f, es.last()),
            None => None,
        }
    }
}

fn same_chars(a: &Vec<char>, b: &Vec<char>) -> (r: bool)
    ensures
        r == (a@ == b@),
{
    if a.len() != b.len() {
        return false;
    }
    let mut k: usize = 0;
    while k < a.len()
        invariant
            k <= a.len(),
            a.len() == b.len(),
            forall|j: int| 0 <= j < k ==> a@[j] == b@[j],
        decreases a.len() - k,
    {
        if a[k] != b[k] {
            return false;
        }
        k = k + 1;
    }
    assert(a@ =~= b@);
    true
}

fn copy_chars(a: &Vec<char>) -> (r: Vec<char>)
    ensures
        r@ == a@,
{
    crate::collections::copy_words(a)
}

impl StringFacts {
    pub fn new() -> (r: StringFacts)
        ensures
            r@ == no_facts(),
    {
        let r = StringFacts {
            assigned: map_new(),
            lengths: map_new(),
            concats: Vec::new(),
            replaced: Vec::new(),
        };
        assert(r@.assigned =~= no_facts().assigned);
        assert(r@.lengths =~= no_facts().lengths);
        assert(r@.concats =~= no_facts().concats);
        assert(r@.replaced =~= no_facts().replaced);
        r
    }

    fn text_assigned(&self, t: TermId) -> (r: Option<Vec<char>>)
        ensures
            text_of(r) == assigned_text(self@.assigned, t),
    {
        match map_get(&self.assigned, t) {
            Some(v) => Some(copy_chars(v)),
            None => None,
        }
    }

    /// The replacement that an equation states.
    fn replacement(&self, store: &TermStore, l: TermId, r: TermId, literal_source: bool) -> (p: Option<
        Replacement,
    >)
        requires
            store.wf(),
        ensures
            match p {
                Some(p) => known_replacement(
                    store.terms(),
                    store.names@,
                    l,
                    r,
                    literal_source,
                    self@.assigned,
                ) == Some(p@),
                None => known_replacement(
                    store.terms(),
                    store.names@,
                    l,
                    r,
                    literal_source,
                    self@.assigned,
                ) is None,
            },
    {
        let (result, source, pattern, by) = match extract_replace_all(store, r) {
            Some((a, b, c)) => (l, a, b, c),
            None => match extract_replace_all(store, l) {
                Some((a, b, c)) => (r, a, b, c),
                None => {
                    return None;
                },
            },
        };
        let literal: Option<Vec<char>> = if literal_source {
            get_string_literal(store, source)
        } else {
            None
        };
        let text = match literal {
            Some(t) => Some(t),
            None => self.text_assigned(source),
        };
        match (text, get_string_literal(store, pattern), get_string_literal(store, by)) {
            (Some(text), Some(pattern), Some(by)) => Some(
                Replacement { result, source, text, pattern, by },
            ),
            _ => None,
        }
    }

    /// Assigns a text to a variable; gives whether it contradicts an earlier
    /// one.
    fn assign(&mut self, v: TermId, lit: Vec<char>) -> (clash: bool)
        ensures
            clash == (old(self)@.assigned.contains_key(v) && old(self)@.assigned[v] != lit@),
            clash ==> final(self)@ == old(self)@,
            !clash ==> final(self)@ == (FactsView {
                assigned: old(self)@.assigned.insert(v, lit@),
                ..old(self)@
            }),
    {
        let ghost before = self@;
        let known: Option<bool> = match map_get(&self.assigned, v) {
            Some(prev) => Some(same_chars(prev, &lit)),
            None => None,
        };
        match known {
            Some(same) => {
                if same {
                    assert(before.assigned.insert(v, lit@) =~= before.assigned);
                }
                !same
            },
            None => {
                let ghost text = lit@;
                map_insert(&mut self.assigned, v, lit);
                assert(self@.assigned =~= before.assigned.insert(v, text));
                assert(self@.concats =~= before.concats);
                assert(self@.replaced =~= before.replaced);
                false
            },
        }
    }

    /// Adds what an equation says; gives whether it contradicts the rest.
    fn note_equation(&mut self, store: &TermStore, e: TermId) -> (conflict: bool)
        requires
            store.wf(),
            e < store.terms().len(),
            store.terms()[e as int].op == Op::Eq,
        ensures
            match equation_noted(store.terms(), store.names@, old(self)@, e) {
                Some(f) => !conflict && final(self)@ == f,
                None => conflict,
            },
    {
        let ghost s = store.terms();
        let ghost names = store.names@;
        let ghost before = self@;
        assert(node_below(s, e as int));
        let l: TermId = store.nodes[e].args[0];
        let r: TermId = store.nodes[e].args[1];
        let right = get_string_literal(store, r);
        let left = get_string_literal(store, l);
        let given: Option<(TermId, Vec<char>)> = match (&right, &left) {
            (Some(lit), _) => if is_string_variable(store, l) {
                Some((l, copy_chars(lit)))
            } else {
                None
            },
            (None, Some(lit)) => if is_string_variable(store, r) {
                Some((r, copy_chars(lit)))
            } else {
                None
            },
            _ => None,
        };
        if let Some((v, lit)) = given {
            if self.assign(v, lit) {
                return true;
            }
        }
        let ghost f1 = self@;
        let length = match extract_length_constraint(store, l, r) {
            Some(p) => Some(p),
            None => extract_length_constraint(store, r, l),
        };
        if let Some((v, n)) = length {
            map_insert(&mut self.lengths, v, n);
        }
        assert(self@.assigned =~= f1.assigned);
        let ghost f2 = self@;
        let concat: Option<(Vec<TermId>, Vec<char>)> = match (right, left) {
            (Some(lit), _) => match extract_concat_operands(store, l) {
                Some(ops) => Some((ops, lit)),
                None => None,
            },
            (None, Some(lit)) => match extract_concat_operands(store, r) {
                Some(ops) => Some((ops, lit)),
                None => None,
            },
            _ => None,
        };
        if let Some(c) = concat {
            self.concats.push(c);
        }
        assert(self@.assigned =~= f1.assigned);
        assert(self@.replaced =~= f1.replaced);
        proof {
            match concat_equation(s, names, l, r) {
                Some(c) => {
                    assert(self@.concats =~= f2.concats.push(c));
                },
                None => {
                    assert(self@.concats =~= f2.concats);
                },
            }
        }
        let ghost f3 = self@;
        if let Some(p) = self.replacement(store, l, r, true) {
            let ghost shown = p@;
            self.replaced.push(p);
            assert(self@.replaced =~= f3.replaced.push(shown));
        }
        assert(self@.assigned =~= f1.assigned);
        assert(self@.concats =~= f3.concats);
        false
    }

    /// Adds what the equations among the conjuncts of a formula say; gives whether they
    /// contradict each other.
    pub fn collect_string_constraints(&mut self, store: &TermStore, term: TermId) -> (conflict: bool)
        requires
            store.wf(),
        ensures
            match equations_noted(
                store.terms(),
                store.names@,
                old(self)@,
                equations(store.terms(), term),
            ) {
                Some(f) => !conflict && final(self)@ == f,
                None => conflict,
            },
    {
        let ghost s = store.terms();
        let ghost names = store.names@;
        let ghost before = self@;
        let mut es: Vec<TermId> = Vec::new();
        collect_equations(store, term, &mut es);
        assert(es@ =~= equations(s, term));
        proof {
            lemma_equations(s, term);
        }
        let mut n: usize = 0;
        assert(es@.take(0).len() == 0);
        while n < es.len()
            invariant
                n <= es.len(),
                store.wf(),
                s == store.terms(),
                names == store.names@,
                before == old(self)@,
                es@ == equations(s, term),
                forall|k: int|
                    0 <= k < es@.len() ==> (#[trigger] es@[k]) < s.len() && s[es@[k] as int].op
                        == Op::Eq,
                equations_noted(s, names, before, es@.take(n as int)) == Some(self@),
            decreases es.len() - n,
        {
            assert(es@[n as int] < s.len());
            let ghost so_far = es@.take(n + 1);
            proof {
                assert(so_far.drop_last() =~= es@.take(n as int));
                assert(so_far.last() == es@[n as int]);
            }
            if self.note_equation(store, es[n]) {
                proof {
                    assert(equations_noted(s, names, before, so_far) is None);
                    lemma_conflict_stays(s, names, before, es@, n + 1);
                }
                return true;
            }
            n = n + 1;
        }
        assert(es@.take(es@.len() as int) =~= es@);
        false
    }
}

/// A contradiction stays one.
proof fn lemma_conflict_stays(
    s: Seq<TermView>,
    names: Seq<String>,
    facts: FactsView,
    es: Seq<TermId>,
    n: int,
)
    requires
        0 <= n <= es.len(),
        equations_noted(s, names, facts, es.take(n)) is None,
    ensures
        equations_noted(s, names, facts, es) is None,
    decreases es.len(),
{
    if n == es.len() {
        assert(es.take(n) =~= es);
    } else {
        assert(es.drop_last().take(n) =~= es.take(n));
        lemma_conflict_stays(s, names, facts, es.drop_last(), n);
    }
}

proof fn lemma_equations(s: Seq<TermView>, t: TermId)
    ensures
        forall|k: int|
            0 <= k < equations(s, t).len() ==> (#[trigger] equations(s, t)[k]) < s.len() && s[equations(s, t)[k] as int].op == Op::Eq,
    decreases t, 1int, 0int,
{
    if t < s.len() {
        lemma_equations_below(s, t, s[t as int].args.len() as int);
    }
}

proof fn lemma_equations_below(s: Seq<TermView>, t: TermId, n: int)
    ensures
        forall|k: int|
            0 <= k < equations_below(s, t, n).len() ==> (#[trigger] equations_below(
                s,
                t,
                n,
            )[k]) < s.len() && s[equations_below(s, t, n)[k] as int].op == Op::Eq,
    decreases t, 0int, n,
{
    if n <= 0 || n > s[t as int].args.len() || s[t as int].args[n - 1] >= t {
    } else {
        lemma_equations_below(s, t, n - 1);
        lemma_equations(s, s[t as int].args[n - 1]);
    }
}

/// Each occurrence of the pattern, from the left, replaced.
pub open spec fn replaced_all(text: Seq<char>, pattern: Seq<char>, by: Seq<char>) -> Seq<char>
    decreases text.len(),
{
    if pattern.len() == 0 || text.len() == 0 {
        text
    } else if crate::text::is_prefix(pattern, text) {
        by + replaced_all(text.skip(pattern.len() as int), pattern, by)
    } else {
        seq![text[0]] + replaced_all(text.skip(1), pattern, by)
    }
}

/// The pattern occurs in the text at `k`.
pub open spec fn occurs_at(pattern: Seq<char>, text: Seq<char>, k: int) -> bool {
    0 <= k && k + pattern.len() <= text.len() && text.subrange(k, k + pattern.len()) == pattern
}

pub open spec fn occurs(pattern: Seq<char>, text: Seq<char>) -> bool {
    exists|k: int| occurs_at(pattern, text, k)
}

fn matches_at(text: &Vec<char>, pattern: &Vec<char>, k: usize) -> (b: bool)
    requires
        k <= text@.len(),
    ensures
        b == occurs_at(pattern@, text@, k as int),
{
    if pattern.len() > text.len() - k {
        return false;
    }
    let mut j: usize = 0;
    while j < pattern.len()
        invariant
            j <= pattern.len(),
            k + pattern@.len() <= text.len(),
            forall|m: int| 0 <= m < j ==> pattern@[m] == text@[k + m],
        decreases pattern.len() - j,
    {
        if pattern[j] != text[k + j] {
            assert(text@.subrange(k as int, k + pattern@.len())[j as int] != pattern@[j as int]);
            return false;
        }
        j = j + 1;
    }
    assert(text@.subrange(k as int, k + pattern@.len()) =~= pattern@);
    true
}

pub(crate) fn contains_text(text: &Vec<char>, pattern: &Vec<char>) -> (b: bool)
    ensures
        b == occurs(pattern@, text@),
{
    let mut k: usize = 0;
    while k < text.len()
        invariant
            k <= text.len(),
            forall|m: int| 0 <= m < k ==> !occurs_at(pattern@, text@, m),
        decreases text.len() - k,
    {
        if matches_at(text, pattern, k) {
            return true;
        }
        k = k + 1;
    }
    matches_at(text, pattern, k)
}

fn append(out: &mut Vec<char>, more: &Vec<char>)
    ensures
        final(out)@ == old(out)@ + more@,
{
    let ghost first = out@;
    let mut k: usize = 0;
    assert(out@ =~= first + more@.take(0));
    while k < more.len()
        invariant
            k <= more.len(),
            out@ == first + more@.take(k as int),
        decreases more.len() - k,
    {
        out.push(more[k]);
        assert(out@ =~= first + more@.take(k + 1));
        k = k + 1;
    }
    assert(more@.take(more@.len() as int) =~= more@);
}

fn replace_all(text: &Vec<char>, pattern: &Vec<char>, by: &Vec<char>) -> (r: Vec<char>)
    ensures
        r@ == replaced_all(text@, pattern@, by@),
{
    if pattern.len() == 0 {
        return copy_chars(text);
    }
    let mut out: Vec<char> = Vec::new();
    let mut k: usize = 0;
    assert(text@.skip(0) =~= text@);
    assert(out@ + replaced_all(text@, pattern@, by@) =~= replaced_all(text@, pattern@, by@));
    while k < text.len()
        invariant
            k <= text.len(),
            pattern@.len() > 0,
            out@ + replaced_all(text@.skip(k as int), pattern@, by@) == replaced_all(
                text@,
                pattern@,
                by@,
            ),
        decreases text.len() - k,
    {
        let ghost rest = text@.skip(k as int);
        let ghost before = out@;
        proof {
            if pattern@.len() <= rest.len() {
                assert(rest.take(pattern@.len() as int) =~= text@.subrange(
                    k as int,
                    k + pattern@.len(),
                ));
            }
            assert(crate::text::is_prefix(pattern@, rest) == occurs_at(
                pattern@,
                text@,
                k as int,
            ));
        }
        if matches_at(text, pattern, k) {
            append(&mut out, by);
            proof {
                assert(rest.skip(pattern@.len() as int) =~= text@.skip(k + pattern@.len()));
                assert(out@ + replaced_all(text@.skip(k + pattern@.len()), pattern@, by@)
                    =~= before + replaced_all(rest, pattern@, by@));
            }
            k = k + pattern.len();
        } else {
            out.push(text[k]);
            proof {
                assert(rest[0] == text@[k as int]);
                assert(rest.skip(1) =~= text@.skip(k + 1));
                assert(out@ + replaced_all(text@.skip(k + 1), pattern@, by@) =~= before
                    + replaced_all(rest, pattern@, by@));
            }
            k = k + 1;
        }
    }
    assert(text@.skip(k as int).len() == 0);
    assert(out@ =~= replaced_all(text@, pattern@, by@));
    out
}

/// The text of an operand that is known.
pub open spec fn operand_text(
    s: Seq<TermView>,
    names: Seq<String>,
    facts: FactsView,
    t: TermId,
) -> Option<Seq<char>> {
    either_text(assigned_text(facts.assigned, t), literal_text(s, names, t))
}

/// All operands are known.
pub open spec fn all_known(
    s: Seq<TermView>,
    names: Seq<String>,
    facts: FactsView,
    ops: Seq<TermId>,
) -> bool {
    forall|k: int|
        0 <= k < ops.len() ==> operand_text(s, names, facts, #[trigger] ops[k]) is Some
}

/// The texts of the known operands, joined.
pub open spec fn joined(
    s: Seq<TermView>,
    names: Seq<String>,
    facts: FactsView,
    ops: Seq<TermId>,
) -> Seq<char>
    decreases ops.len(),
{
    if ops.len() == 0 {
        Seq::empty()
    } else {
        joined(s, names, facts, ops.drop_last()) + match operand_text(
            s,
            names,
            facts,
            ops.last(),
        ) {
            Some(v) => v,
            None => Seq::empty(),
        }
    }
}

/// How many of the first operands are known.
pub open spec fn known_front(
    s: Seq<TermView>,
    names: Seq<String>,
    facts: FactsView,
    ops: Seq<TermId>,
) -> int
    decreases ops.len(),
{
    if ops.len() == 0 {
        0
    } else {
        let n = known_front(s, names, facts, ops.drop_last());
        if n == ops.len() - 1 && operand_text(s, names, facts, ops.last()) is Some {
            n + 1
        } else {
            n
        }
    }
}

/// How many of the last operands are known.
pub open spec fn known_back(
    s: Seq<TermView>,
    names: Seq<String>,
    facts: FactsView,
    ops: Seq<TermId>,
) -> int
    decreases ops.len(),
{
    if ops.len() == 0 || operand_text(s, names, facts, ops.last()) is None {
        0
    } else {
        known_back(s, names, facts, ops.drop_last()) + 1
    }
}

/// The number of characters that the known texts and lengths account for.
pub open spec fn known_length(
    s: Seq<TermView>,
    names: Seq<String>,
    facts: FactsView,
    ops: Seq<TermId>,
) -> int
    decreases ops.len(),
{
    if ops.len() == 0 {
        0
    } else {
        known_length(s, names, facts, ops.drop_last()) + match operand_text(
            s,
            names,
            facts,
            ops.last(),
        ) {
            Some(v) => v.len() as int,
            None => if facts.lengths.contains_key(ops.last()) {
                facts.lengths[ops.last()] as int
            } else {
                0
            },
        }
    }
}

pub open spec fn is_suffix(p: Seq<char>, s: Seq<char>) -> bool {
    p.len() <= s.len() && s.skip(s.len() - p.len()) == p
}

/// A concatenation cannot equal the text: its operands are known and differ, or
/// its known ends do not fit, or it is too long.
pub open spec fn concat_conflict(
    s: Seq<TermView>,
    names: Seq<String>,
    facts: FactsView,
    ops: Seq<TermId>,
    text: Seq<char>,
) -> bool {
    if all_known(s, names, facts, ops) {
        joined(s, names, facts, ops) != text
    } else {
        let front = joined(s, names, facts, ops.take(known_front(s, names, facts, ops)));
        let back = joined(s, names, facts, ops.skip(ops.len() - known_back(s, names, facts, ops)));
        ||| !crate::text::is_prefix(front, text)
        ||| !is_suffix(back, text)
        ||| known_length(s, names, facts, ops) > text.len()
    }
}

/// A string has another length than its text.
pub open spec fn length_conflict(facts: FactsView, t: TermId) -> bool {
    facts.lengths.contains_key(t) && facts.assigned.contains_key(t) && facts.assigned[t].len()
        != facts.lengths[t]
}

/// A replacement has another result than it is said to have.
pub open spec fn replace_conflict(facts: FactsView, p: ReplacementView) -> bool {
    &&& facts.assigned.contains_key(p.result)
    &&& p.pattern.len() > 0 && occurs(p.pattern, p.text) && p.pattern != p.by
    &&& replaced_all(p.text, p.pattern, p.by) != facts.assigned[p.result] || (
    facts.lengths.contains_key(p.source) && p.text == facts.assigned[p.result])
}

/// The facts contradict each other.
pub open spec fn facts_conflict(s: Seq<TermView>, names: Seq<String>, facts: FactsView) -> bool {
    ||| exists|t: TermId| length_conflict(facts, t)
    ||| exists|k: int|
        0 <= k < facts.concats.len() && concat_conflict(
            s,
            names,
            facts,
            (#[trigger] facts.concats[k]).0,
            facts.concats[k].1,
        )
    ||| exists|k: int|
        0 <= k < facts.replaced.len() && replace_conflict(facts, #[trigger] facts.replaced[k])
}

pub(crate) proof fn lemma_known_front(
    s: Seq<TermView>,
    names: Seq<String>,
    facts: FactsView,
    ops: Seq<TermId>,
)
    ensures
        0 <= known_front(s, names, facts, ops) <= ops.len(),
        0 <= known_back(s, names, facts, ops) <= ops.len(),
    decreases ops.len(),
{
    if ops.len() > 0 {
        lemma_known_front(s, names, facts, ops.drop_last());
    }
}

pub(crate) proof fn lemma_joined_split(
    s: Seq<TermView>,
    names: Seq<String>,
    facts: FactsView,
    a: Seq<TermId>,
    b: Seq<TermId>,
)
    ensures
        joined(s, names, facts, a + b) == joined(s, names, facts, a) + joined(s, names, facts, b),
    decreases b.len(),
{
    if b.len() == 0 {
        assert(a + b =~= a);
        assert(joined(s, names, facts, a) + joined(s, names, facts, b) =~= joined(
            s,
            names,
            facts,
            a,
        ));
    } else {
        assert((a + b).drop_last() =~= a + b.drop_last());
        assert((a + b).last() == b.last());
        lemma_joined_split(s, names, facts, a, b.drop_last());
        assert(joined(s, names, facts, a + b) =~= joined(s, names, facts, a) + joined(
            s,
            names,
            facts,
            b,
        ));
    }
}

impl StringFacts {
    fn operand(&self, store: &TermStore, t: TermId) -> (r: Option<Vec<char>>)
        ensures
            text_of(r) == operand_text(store.terms(), store.names@, self@, t),
    {
        match self.text_assigned(t) {
            Some(v) => Some(v),
            None => get_string_literal(store, t),
        }
    }

    /// Whether the text of the last known operands ends the result.
    fn back_fits(&self, store: &TermStore, ops: &Vec<TermId>, text: &Vec<char>) -> (b: bool)
        ensures
            b == is_suffix(
                joined(
                    store.terms(),
                    store.names@,
                    self@,
                    ops@.skip(
                        ops@.len() - known_back(store.terms(), store.names@, self@, ops@),
                    ),
                ),
                text@,
            ),
    {
        let ghost s = store.terms();
        let ghost names = store.names@;
        let ghost f = self@;
        let mut back: Vec<char> = Vec::new();
        let mut n: usize = ops.len();
        proof {
            lemma_known_front(s, names, f, ops@);
            assert(ops@.skip(ops@.len() as int).len() == 0);
            assert(ops@.take(ops@.len() as int) =~= ops@);
            assert(back@ =~= joined(s, names, f, ops@.skip(ops@.len() as int)));
        }
        while n > 0
            invariant_except_break
                n <= ops.len(),
                s == store.terms(),
                names == store.names@,
                f == self@,
                back@ == joined(s, names, f, ops@.skip(n as int)),
                known_back(s, names, f, ops@) == ops@.len() - n + known_back(
                    s,
                    names,
                    f,
                    ops@.take(n as int),
                ),
            ensures
                back@ == joined(
                    s,
                    names,
                    f,
                    ops@.skip(ops@.len() - known_back(s, names, f, ops@)),
                ),
            decreases n,
        {
            let ghost upto = ops@.take(n as int);
            proof {
                assert(upto.last() == ops@[n - 1]);
                assert(upto.drop_last() =~= ops@.take(n - 1));
            }
            match self.operand(store, ops[n - 1]) {
                None => {
                    assert(known_back(s, names, f, upto) == 0);
                    break;
                },
                Some(v) => {
                    let ghost rest = ops@.skip(n as int);
                    let mut longer = v;
                    let ghost first = longer@;
                    append(&mut longer, &back);
                    proof {
                        let one = seq![ops@[n - 1]];
                        assert(ops@.skip(n - 1) =~= one + rest);
                        lemma_joined_split(s, names, f, one, rest);
                        assert(one.drop_last().len() == 0);
                        assert(one.last() == ops@[n - 1]);
                        assert(joined(s, names, f, one.drop_last()).len() == 0);
                        assert(joined(s, names, f, one) =~= first);
                    }
                    back = longer;
                    n = n - 1;
                    proof {
                        if n == 0 {
                            assert(ops@.take(0).len() == 0);
                            assert(known_back(s, names, f, ops@.take(0)) == 0);
                        }
                    }
                },
            }
        }
        if back.len() > text.len() {
            return false;
        }
        let from: usize = text.len() - back.len();
        let b = matches_at(text, &back, from);
        assert(text@.subrange(from as int, from + back@.len()) =~= text@.skip(from as int));
        b
    }

    /// Whether a concatenation cannot equal a text.
    fn concat_clashes(&self, store: &TermStore, ops: &Vec<TermId>, text: &Vec<char>) -> (b: bool)
        ensures
            b == concat_conflict(store.terms(), store.names@, self@, ops@, text@),
    {
        let ghost s = store.terms();
        let ghost names = store.names@;
        let ghost f = self@;
        let mut measured: i128 = 0;
        let mut every = true;
        let mut cat: Vec<char> = Vec::new();
        let mut front: Vec<char> = Vec::new();
        let ghost mut run: int = 0;
        let mut n: usize = 0;
        proof {
            assert(ops@.take(0).len() == 0);
            assert(cat@ =~= joined(s, names, f, ops@.take(0)));
            assert(front@ =~= joined(s, names, f, ops@.take(0)));
        }
        while n < ops.len()
            invariant
                n <= ops.len(),
                s == store.terms(),
                names == store.names@,
                f == self@,
                measured + cat@.len() == known_length(s, names, f, ops@.take(n as int)),
                -(n * 0x8000_0000_0000_0000) <= measured <= n * 0x8000_0000_0000_0000,
                every == all_known(s, names, f, ops@.take(n as int)),
                cat@ == joined(s, names, f, ops@.take(n as int)),
                run == known_front(s, names, f, ops@.take(n as int)),
                0 <= run <= n,
                every == (run == n),
                front@ == joined(s, names, f, ops@.take(run)),
            decreases ops.len() - n,
        {
            let t: TermId = ops[n];
            let ghost upto = ops@.take(n + 1);
            let ghost before = ops@.take(n as int);
            let ghost all_before = every;
            proof {
                assert(upto.last() == ops@[n as int]);
                assert(upto.drop_last() =~= before);
                assert((n + 1) * 0x8000_0000_0000_0000 == n * 0x8000_0000_0000_0000
                    + 0x8000_0000_0000_0000);
                assert((n + 1) * 0x8000_0000_0000_0000 <= 0xffff_ffff_ffff_ffff
                    * 0x8000_0000_0000_0000) by (nonlinear_arith)
                    requires
                        n + 1 <= 0xffff_ffff_ffff_ffff,
                ;
            }
            match self.operand(store, t) {
                Some(v) => {
                    append(&mut cat, &v);
                    if every {
                        append(&mut front, &v);
                    }
                },
                None => {
                    if let Some(len) = map_get(&self.lengths, t) {
                        measured = measured + *len as i128;
                    }
                    every = false;
                },
            }
            proof {
                let known = operand_text(s, names, f, t) is Some;
                assert(all_known(s, names, f, upto) == (all_before && known)) by {
                    if all_before && known {
                        assert forall|k: int| 0 <= k < upto.len() implies operand_text(
                            s,
                            names,
                            f,
                            #[trigger] upto[k],
                        ) is Some by {
                            if k < n {
                                assert(before[k] == upto[k]);
                            }
                        }
                    }
                    if all_known(s, names, f, upto) {
                        assert(upto[n as int] == t);
                        assert(operand_text(s, names, f, upto[n as int]) is Some);
                        assert forall|k: int| 0 <= k < before.len() implies operand_text(
                            s,
                            names,
                            f,
                            #[trigger] before[k],
                        ) is Some by {
                            assert(before[k] == upto[k]);
                        }
                    }
                }
                if all_before && known {
                    assert(ops@.take(run) =~= before);
                    run = run + 1;
                    assert(ops@.take(run) =~= upto);
                }
            }
            n = n + 1;
        }
        assert(ops@.take(ops@.len() as int) =~= ops@);
        if every {
            return !same_chars(&cat, text);
        }
        let fits_front = front.len() <= text.len() && matches_at(text, &front, 0);
        proof {
            if front@.len() <= text@.len() {
                assert(text@.subrange(0, front@.len() as int) =~= text@.take(front@.len() as int));
            }
        }
        if !fits_front {
            return true;
        }
        if !self.back_fits(store, ops, text) {
            return true;
        }
        measured > text.len() as i128 - cat.len() as i128
    }

    fn length_clashes(&self) -> (b: bool)
        ensures
            b == exists|t: TermId| length_conflict(self@, t),
    {
        let terms = map_sorted_keys(&self.lengths);
        let mut n: usize = 0;
        while n < terms.len()
            invariant
                n <= terms.len(),
                terms@.to_set() == self@.lengths.dom(),
                forall|j: int| 0 <= j < n ==> !length_conflict(self@, #[trigger] terms@[j]),
            decreases terms.len() - n,
        {
            let t: TermId = terms[n];
            proof {
                assert(terms@.contains(t));
                assert(terms@.to_set().contains(t));
                assert(self@.lengths.contains_key(t));
            }
            let declared: i64 = match map_get(&self.lengths, t) {
                Some(len) => *len,
                None => 0,
            };
            if let Some(text) = map_get(&self.assigned, t) {
                if text.len() as i128 != declared as i128 {
                    assert(length_conflict(self@, t));
                    return true;
                }
            }
            n = n + 1;
        }
        proof {
            assert forall|t: TermId| !length_conflict(self@, t) by {
                if length_conflict(self@, t) {
                    assert(terms@.to_set().contains(t));
                    let j = choose|j: int| 0 <= j < terms@.len() && terms@[j] == t;
                    assert(!length_conflict(self@, terms@[j]));
                }
            }
        }
        false
    }

    fn replacement_clashes(&self, p: &Replacement) -> (b: bool)
        ensures
            b == replace_conflict(self@, p@),
    {
        match map_get(&self.assigned, p.result) {
            None => false,
            Some(result) => {
                if p.pattern.len() == 0 || !contains_text(&p.text, &p.pattern) || same_chars(
                    &p.pattern,
                    &p.by,
                ) {
                    return false;
                }
                let actual = replace_all(&p.text, &p.pattern, &p.by);
                if !same_chars(&actual, result) {
                    return true;
                }
                let measured = match map_get(&self.lengths, p.source) {
                    Some(_) => true,
                    None => false,
                };
                measured && same_chars(&p.text, result)
            },
        }
    }

    /// Whether the facts contradict each other.
    fn clashes(&self, store: &TermStore) -> (b: bool)
        ensures
            b == facts_conflict(store.terms(), store.names@, self@),
    {
        if self.length_clashes() {
            return true;
        }
        let mut n: usize = 0;
        while n < self.concats.len()
            invariant
                n <= self.concats.len(),
                forall|k: int|
                    0 <= k < n ==> !concat_conflict(
                        store.terms(),
                        store.names@,
                        self@,
                        (#[trigger] self@.concats[k]).0,
                        self@.concats[k].1,
                    ),
            decreases self.concats.len() - n,
        {
            assert(self@.concats[n as int] == (
                self.concats@[n as int].0@,
                self.concats@[n as int].1@,
            ));
            if self.concat_clashes(store, &self.concats[n].0, &self.concats[n].1) {
                return true;
            }
            n = n + 1;
        }
        let mut m: usize = 0;
        while m < self.replaced.len()
            invariant
                m <= self.replaced.len(),
                forall|k: int|
                    0 <= k < m ==> !replace_conflict(self@, #[trigger] self@.replaced[k]),
            decreases self.replaced.len() - m,
        {
            assert(self@.replaced[m as int] == self.replaced@[m as int]@);
            if self.replacement_clashes(&self.replaced[m]) {
                return true;
            }
            m = m + 1;
        }
        false
    }
}

/// The facts with the replacement that an equation states of a source that is
/// assigned a text, unless it is listed already.
pub open spec fn equation_resolved(
    s: Seq<TermView>,
    names: Seq<String>,
    facts: FactsView,
    e: TermId,
) -> FactsView {
    match known_replacement(
        s,
        names,
        s[e as int].args[0],
        s[e as int].args[1],
        false,
        facts.assigned,
    ) {
        Some(p) => if facts.replaced.contains(p) {
            facts
        } else {
            FactsView { replaced: facts.replaced.push(p), ..facts }
        },
        None => facts,
    }
}

pub open spec fn equations_resolved(
    s: Seq<TermView>,
    names: Seq<String>,
    facts: FactsView,
    es: Seq<TermId>,
) -> FactsView
    decreases es.len(),
{
    if es.len() == 0 {
        facts
    } else {
        equation_resolved(s, names, equations_resolved(s, names, facts, es.drop_last()), es.last())
    }
}

/// The facts of the first `n` assertions.
pub open spec fn assertions_noted(
    s: Seq<TermView>,
    names: Seq<String>,
    assertions: Seq<TermId>,
    n: int,
) -> Option<FactsView>
    decreases n,
{
    if n <= 0 {
        Some(no_facts())
    } else {
        match assertions_noted(s, names, assertions, n - 1) {
            Some(f) => equations_noted(s, names, f, equations(s, assertions[n - 1])),
            None => None,
        }
    }
}

/// The facts with the sources of the first `n` assertions resolved.
pub open spec fn assertions_resolved(
    s: Seq<TermView>,
    names: Seq<String>,
    facts: FactsView,
    assertions: Seq<TermId>,
    n: int,
) -> FactsView
    decreases n,
{
    if n <= 0 {
        facts
    } else {
        equations_resolved(
            s,
            names,
            assertions_resolved(s, names, facts, assertions, n - 1),
            equations(s, assertions[n - 1]),
        )
    }
}

/// The assertions contradict each other on strings.
pub open spec fn strings_conflict(
    s: Seq<TermView>,
    names: Seq<String>,
    assertions: Seq<TermId>,
) -> bool {
    match assertions_noted(s, names, assertions, assertions.len() as int) {
        None => true,
        Some(f) => facts_conflict(
            s,
            names,
            assertions_resolved(s, names, f, assertions, assertions.len() as int),
        ),
    }
}

fn same_replacement(a: &Replacement, b: &Replacement) -> (r: bool)
    ensures
        r == (a@ == b@),
{
    a.result == b.result && a.source == b.source && same_chars(&a.text, &b.text) && same_chars(
        &a.pattern,
        &b.pattern,
    ) && same_chars(&a.by, &b.by)
}

impl StringFacts {
    fn lists(&self, p: &Replacement) -> (b: bool)
        ensures
            b == self@.replaced.contains(p@),
    {
        let mut k: usize = 0;
        while k < self.replaced.len()
            invariant
                k <= self.replaced.len(),
                forall|j: int| 0 <= j < k ==> self@.replaced[j] != p@,
            decreases self.replaced.len() - k,
        {
            assert(self@.replaced[k as int] == self.replaced@[k as int]@);
            if same_replacement(&self.replaced[k], p) {
                return true;
            }
            k = k + 1;
        }
        false
    }

    /// Adds the replacements of a formula whose sources are assigned.
    pub fn collect_replace_all_with_resolved_vars(&mut self, store: &TermStore, term: TermId)
        requires
            store.wf(),
        ensures
            final(self)@ == equations_resolved(
                store.terms(),
                store.names@,
                old(self)@,
                equations(store.terms(), term),
            ),
    {
        let ghost s = store.terms();
        let ghost names = store.names@;
        let ghost before = self@;
        let mut es: Vec<TermId> = Vec::new();
        collect_equations(store, term, &mut es);
        assert(es@ =~= equations(s, term));
        proof {
            lemma_equations(s, term);
        }
        let mut n: usize = 0;
        assert(es@.take(0).len() == 0);
        while n < es.len()
            invariant
                n <= es.len(),
                store.wf(),
                s == store.terms(),
                names == store.names@,
                forall|k: int|
                    0 <= k < es@.len() ==> (#[trigger] es@[k]) < s.len() && s[es@[k] as int].op
                        == Op::Eq,
                self@ == equations_resolved(s, names, before, es@.take(n as int)),
            decreases es.len() - n,
        {
            let ghost f1 = self@;
            let e: TermId = es[n];
            proof {
                assert(es@[n as int] < s.len());
                assert(node_below(s, e as int));
                let so_far = es@.take(n + 1);
                assert(so_far.drop_last() =~= es@.take(n as int));
                assert(so_far.last() == e);
            }
            let l: TermId = store.nodes[e].args[0];
            let r: TermId = store.nodes[e].args[1];
            if let Some(p) = self.replacement(store, l, r, false) {
                if !self.lists(&p) {
                    let ghost shown = p@;
                    self.replaced.push(p);
                    assert(self@.replaced =~= f1.replaced.push(shown));
                    assert(self@.assigned =~= f1.assigned);
                    assert(self@.concats =~= f1.concats);
                }
            }
            n = n + 1;
        }
        assert(es@.take(es@.len() as int) =~= es@);
    }
}

/// Whether the assertions contradict each other on strings.
pub fn check_string_constraints(store: &TermStore, assertions: &Vec<TermId>) -> (conflict: bool)
    requires
        store.wf(),
    ensures
        conflict == strings_conflict(store.terms(), store.names@, assertions@),
        conflict && strings_sorted(store.terms()) ==> forall|i: Interp, read: Reader|
            #[trigger] reads_strings(i, store.names@, read) ==> !all_hold(
                store.terms(),
                i,
                assertions@,
            ),
{
    let ghost s = store.terms();
    let ghost names = store.names@;
    let ghost satisfiable = !strings_conflict(s, names, assertions@);
    proof {
        assert forall|i: Interp, read: Reader|
            strings_sorted(s) && #[trigger] reads_strings(i, names, read) && all_hold(
                s,
                i,
                assertions@,
            ) implies satisfiable by {
            string_conflicts_are_real(s, names, i, read, assertions@);
        }
    }
    let mut facts = StringFacts::new();
    let mut n: usize = 0;
    while n < assertions.len()
        invariant
            n <= assertions.len(),
            store.wf(),
            s == store.terms(),
            names == store.names@,
            assertions_noted(s, names, assertions@, n as int) == Some(facts@),
            satisfiable == !strings_conflict(s, names, assertions@),
            forall|i: Interp, read: Reader|
                strings_sorted(s) && #[trigger] reads_strings(i, names, read) && all_hold(
                    s,
                    i,
                    assertions@,
                ) ==> satisfiable,
        decreases assertions.len() - n,
    {
        if facts.collect_string_constraints(store, assertions[n]) {
            proof {
                assert(assertions_noted(s, names, assertions@, n + 1) is None);
                lemma_none_stays(s, names, assertions@, n + 1, assertions@.len() as int);
            }
            return true;
        }
        n = n + 1;
    }
    let ghost noted = facts@;
    let mut m: usize = 0;
    while m < assertions.len()
        invariant
            m <= assertions.len(),
            store.wf(),
            s == store.terms(),
            names == store.names@,
            facts@ == assertions_resolved(s, names, noted, assertions@, m as int),
        decreases assertions.len() - m,
    {
        facts.collect_replace_all_with_resolved_vars(store, assertions[m]);
        m = m + 1;
    }
    facts.clashes(store)
}

proof fn lemma_none_stays(
    s: Seq<TermView>,
    names: Seq<String>,
    assertions: Seq<TermId>,
    n: int,
    m: int,
)
    requires
        n <= m,
        assertions_noted(s, names, assertions, n) is None,
    ensures
        assertions_noted(s, names, assertions, m) is None,
    decreases m,
{
    if n < m {
        lemma_none_stays(s, names, assertions, n, m - 1);
    }
}

/// A string operation or predicate whose value the checks here do not settle.
pub open spec fn string_atom(op: Op) -> bool {
    match op {
        Op::StrConcat | Op::StrLen | Op::StrSubstr | Op::StrAt | Op::StrContains | Op::StrPrefixOf
        | Op::StrSuffixOf | Op::StrIndexOf | Op::StrReplace | Op::StrReplaceAll | Op::StrToInt
        | Op::IntToStr | Op::StrInRe => true,
        _ => false,
    }
}

pub fn is_string_theory_atom(op: Op) -> (b: bool)
    ensures
        b == string_atom(op),
{
    match op {
        Op::StrConcat | Op::StrLen | Op::StrSubstr | Op::StrAt | Op::StrContains | Op::StrPrefixOf
        | Op::StrSuffixOf | Op::StrIndexOf | Op::StrReplace | Op::StrReplaceAll | Op::StrToInt
        | Op::IntToStr | Op::StrInRe => true,
        _ => false,
    }
}

/// Some subterm of the term is a string operation.
pub open spec fn has_string_atom(s: Seq<TermView>, t: TermId) -> bool {
    exists|x: TermId| #[trigger] crate::walk::subterm(s, t, x) && x < s.len() && string_atom(
        s[x as int].op,
    )
}

fn term_has_string_atom(store: &TermStore, t: TermId) -> (b: bool)
    requires
        store.wf(),
        t < store.terms().len(),
    ensures
        b == has_string_atom(store.terms(), t),
{
    let ghost s = store.terms();
    let list = crate::walk::collect_subterms(store, t);
    let mut n: usize = 0;
    while n < list.len()
        invariant
            n <= list.len(),
            store.wf(),
            s == store.terms(),
            t < s.len(),
            crate::walk::lists_reach(list@, s, Map::empty(), t),
            forall|k: int| 0 <= k < n ==> !string_atom(s[(#[trigger] list@[k]) as int].op),
        decreases list.len() - n,
    {
        let x: TermId = list[n];
        proof {
            assert(list@.contains(x));
            crate::walk::lemma_reach_le(s, Map::empty(), t, x);
            assert(crate::walk::subterm(s, t, x));
        }
        if is_string_theory_atom(store.nodes[x].op) {
            return true;
        }
        n = n + 1;
    }
    proof {
        assert forall|x: TermId| #[trigger] crate::walk::subterm(s, t, x) && x < s.len() implies !string_atom(
            s[x as int].op,
        ) by {
            assert(list@.contains(x));
            let k = choose|k: int| 0 <= k < list@.len() && list@[k] == x;
            assert(!string_atom(s[list@[k] as int].op));
        }
    }
    false
}

/// Whether the assertions hold string operations that need a string solver.
pub fn string_atoms_need_theory(store: &TermStore, assertions: &Vec<TermId>) -> (b: bool)
    requires
        store.wf(),
        forall|k: int| 0 <= k < assertions@.len() ==> (#[trigger] assertions@[k]) < store.terms().len(),
    ensures
        b == exists|k: int|
            0 <= k < assertions@.len() && has_string_atom(
                store.terms(),
                #[trigger] assertions@[k],
            ),
{
    let mut n: usize = 0;
    while n < assertions.len()
        invariant
            n <= assertions.len(),
            store.wf(),
            forall|k: int|
                0 <= k < assertions@.len() ==> (#[trigger] assertions@[k]) < store.terms().len(),
            forall|k: int|
                0 <= k < n ==> !has_string_atom(store.terms(), #[trigger] assertions@[k]),
        decreases assertions.len() - n,
    {
        assert(assertions@[n as int] < store.terms().len());
        if term_has_string_atom(store, assertions[n]) {
            return true;
        }
        n = n + 1;
    }
    false
}

/// Reads strings off values.
pub type Reader = spec_fn(Value) -> Seq<char>;

/// The interpretation gives literals, lengths, concatenations and replacements
/// their meaning, where `read` gives the string that a value is.
pub open spec fn reads_strings(i: Interp, names: Seq<String>, read: Reader) -> bool {
    &&& forall|n: NameId, sort: crate::terms::SortId, vals: Seq<Value>|
        n < names.len() ==> read(
            #[trigger] (i.fun)(Op::StringLit, DataView::Name(n), sort, vals),
        ) == names[n as int]@
    &&& forall|data: DataView, sort: crate::terms::SortId, vals: Seq<Value>|
        vals.len() == 1 ==> num(#[trigger] (i.fun)(Op::StrLen, data, sort, vals)) == read(
            vals[0],
        ).len() as int as real
    &&& forall|data: DataView, sort: crate::terms::SortId, vals: Seq<Value>|
        vals.len() == 2 ==> read(#[trigger] (i.fun)(Op::StrConcat, data, sort, vals)) == read(
            vals[0],
        ) + read(vals[1])
    &&& forall|data: DataView, sort: crate::terms::SortId, vals: Seq<Value>|
        vals.len() == 3 ==> read(#[trigger] (i.fun)(Op::StrReplaceAll, data, sort, vals))
            == replaced_all(read(vals[0]), read(vals[1]), read(vals[2]))
}

/// Strings have the sort of strings, lengths that of integers.
pub open spec fn strings_sorted(s: Seq<TermView>) -> bool {
    forall|t: int|
        0 <= t < s.len() ==> match (#[trigger] s[t]).op {
            Op::StringLit | Op::StrConcat | Op::StrReplaceAll => s[t].sort == STRING_SORT,
            Op::StrLen => s[t].sort == INT_SORT,
            _ => true,
        }
}

/// The string that a term is.
pub open spec fn text_at(s: Seq<TermView>, i: Interp, read: Reader, t: TermId) -> Seq<char> {
    read(eval(s, i, t as int))
}

pub open spec fn texts_at(s: Seq<TermView>, i: Interp, read: Reader, ops: Seq<TermId>) -> Seq<char>
    decreases ops.len(),
{
    if ops.len() == 0 {
        Seq::empty()
    } else {
        texts_at(s, i, read, ops.drop_last()) + text_at(s, i, read, ops.last())
    }
}

/// The facts are true.
pub open spec fn facts_true(
    s: Seq<TermView>,
    i: Interp,
    read: Reader,
    facts: FactsView,
) -> bool {
    &&& forall|t: TermId| #[trigger]
        facts.assigned.contains_key(t) ==> text_at(s, i, read, t) == facts.assigned[t]
    &&& forall|t: TermId| #[trigger]
        facts.lengths.contains_key(t) ==> text_at(s, i, read, t).len() == facts.lengths[t]
    &&& forall|k: int|
        0 <= k < facts.concats.len() ==> texts_at(s, i, read, (#[trigger] facts.concats[k]).0)
            == facts.concats[k].1
    &&& forall|k: int|
        0 <= k < facts.replaced.len() ==> {
            let p = #[trigger] facts.replaced[k];
            &&& text_at(s, i, read, p.source) == p.text
            &&& text_at(s, i, read, p.result) == replaced_all(p.text, p.pattern, p.by)
        }
}

proof fn lemma_literal_at(
    s: Seq<TermView>,
    names: Seq<String>,
    i: Interp,
    read: Reader,
    t: TermId,
)
    requires
        terms_wf(s),
        reads_strings(i, names, read),
        literal_text(s, names, t) is Some,
    ensures
        text_at(s, i, read, t) == literal_text(s, names, t)->0,
{
    lemma_eval(s, i, t);
    assert(node_below(s, t as int));
    let n = s[t as int].data->Name_0;
    assert(s[t as int].data == DataView::Name(n));
}

proof fn lemma_texts_split(
    s: Seq<TermView>,
    i: Interp,
    read: Reader,
    a: Seq<TermId>,
    b: Seq<TermId>,
)
    ensures
        texts_at(s, i, read, a + b) == texts_at(s, i, read, a) + texts_at(s, i, read, b),
    decreases b.len(),
{
    if b.len() == 0 {
        assert(a + b =~= a);
        assert(texts_at(s, i, read, a) + texts_at(s, i, read, b) =~= texts_at(s, i, read, a));
    } else {
        assert((a + b).drop_last() =~= a + b.drop_last());
        assert((a + b).last() == b.last());
        lemma_texts_split(s, i, read, a, b.drop_last());
        assert(texts_at(s, i, read, a + b) =~= texts_at(s, i, read, a) + texts_at(s, i, read, b));
    }
}

proof fn lemma_concat_at(
    s: Seq<TermView>,
    names: Seq<String>,
    i: Interp,
    read: Reader,
    t: TermId,
)
    requires
        terms_wf(s),
        t < s.len(),
        reads_strings(i, names, read),
    ensures
        texts_at(s, i, read, concat_leaves(s, t)) == text_at(s, i, read, t),
    decreases t,
{
    assert(node_below(s, t as int));
    if s[t as int].op == Op::StrConcat {
        let (a, b) = (s[t as int].args[0], s[t as int].args[1]);
        lemma_concat_at(s, names, i, read, a);
        lemma_concat_at(s, names, i, read, b);
        lemma_texts_split(s, i, read, concat_leaves(s, a), concat_leaves(s, b));
        lemma_eval(s, i, t);
        let vals = eval_args(s, i, s[t as int].args);
        assert(vals.len() == 2);
        assert(vals[0] == eval(s, i, a as int) && vals[1] == eval(s, i, b as int));
        assert(eval(s, i, t as int) == (i.fun)(
            Op::StrConcat,
            s[t as int].data,
            s[t as int].sort,
            vals,
        ));
    } else {
        let one = seq![t];
        assert(one.drop_last().len() == 0);
        assert(one.last() == t);
        assert(texts_at(s, i, read, one.drop_last()).len() == 0);
        assert(texts_at(s, i, read, one) =~= text_at(s, i, read, t));
    }
}

/// Two terms that an equation of the sort of strings equates are one string.
proof fn lemma_equal_texts(s: Seq<TermView>, i: Interp, read: Reader, e: TermId)
    requires
        terms_wf(s),
        e < s.len(),
        s[e as int].op == Op::Eq,
        holds(s, i, e),
    ensures
        s[s[e as int].args[0] as int].sort == STRING_SORT || s[s[e as int].args[1] as int].sort
            == STRING_SORT ==> text_at(s, i, read, s[e as int].args[0]) == text_at(
            s,
            i,
            read,
            s[e as int].args[1],
        ),
        s[s[e as int].args[0] as int].sort == INT_SORT || s[s[e as int].args[1] as int].sort
            == INT_SORT ==> num(eval(s, i, s[e as int].args[0] as int)) == num(
            eval(s, i, s[e as int].args[1] as int),
        ),
        s[e as int].args[0] < s.len(),
        s[e as int].args[1] < s.len(),
{
    assert(node_below(s, e as int));
    lemma_eval(s, i, e);
    let (l, r) = (s[e as int].args[0], s[e as int].args[1]);
    let vals = eval_args(s, i, s[e as int].args);
    assert(vals[0] == eval(s, i, l as int) && vals[1] == eval(s, i, r as int));
    assert(arg_sorts(s, s[e as int])[0] == s[l as int].sort);
    assert(eqv(s[l as int].sort, vals[0], vals[1]));
}

proof fn lemma_length_at(
    s: Seq<TermView>,
    names: Seq<String>,
    i: Interp,
    read: Reader,
    l: TermId,
    r: TermId,
)
    requires
        terms_wf(s),
        l < s.len(),
        reads_strings(i, names, read),
        length_equation(s, l, r) is Some,
        num(eval(s, i, l as int)) == num(eval(s, i, r as int)),
    ensures
        ({
            let (t, n) = length_equation(s, l, r)->0;
            text_at(s, i, read, t).len() == n
        }),
{
    let (t, n) = length_equation(s, l, r)->0;
    assert(node_below(s, l as int));
    lemma_eval(s, i, l);
    lemma_eval(s, i, r);
    let vals = eval_args(s, i, s[l as int].args);
    assert(vals.len() == 1 && vals[0] == eval(s, i, t as int));
    assert(num(eval(s, i, l as int)) == read(vals[0]).len() as int as real);
    assert(num(eval(s, i, r as int)) == n as int as real);
}

proof fn lemma_replacement_at(
    s: Seq<TermView>,
    names: Seq<String>,
    i: Interp,
    read: Reader,
    l: TermId,
    r: TermId,
    literal_source: bool,
    assigned: Map<TermId, Seq<char>>,
)
    requires
        terms_wf(s),
        reads_strings(i, names, read),
        text_at(s, i, read, l) == text_at(s, i, read, r),
        forall|t: TermId| #[trigger]
            assigned.contains_key(t) ==> text_at(s, i, read, t) == assigned[t],
        known_replacement(s, names, l, r, literal_source, assigned) is Some,
    ensures
        ({
            let p = known_replacement(s, names, l, r, literal_source, assigned)->0;
            &&& text_at(s, i, read, p.source) == p.text
            &&& text_at(s, i, read, p.result) == replaced_all(p.text, p.pattern, p.by)
        }),
{
    let (result, (source, pattern, by)) = replace_equation(s, l, r)->0;
    let x = if replace_all_of(s, r) is Some { r } else { l };
    assert(node_below(s, x as int));
    lemma_eval(s, i, x);
    let vals = eval_args(s, i, s[x as int].args);
    assert(vals.len() == 3);
    assert(vals[0] == eval(s, i, source as int));
    assert(vals[1] == eval(s, i, pattern as int));
    assert(vals[2] == eval(s, i, by as int));
    assert(eval(s, i, x as int) == (i.fun)(
        Op::StrReplaceAll,
        s[x as int].data,
        s[x as int].sort,
        vals,
    ));
    lemma_literal_at(s, names, i, read, pattern);
    lemma_literal_at(s, names, i, read, by);
    if literal_text(s, names, source) is Some {
        lemma_literal_at(s, names, i, read, source);
    }
}

/// A true equation does not contradict true facts, and adds true ones.
proof fn lemma_equation_noted(
    s: Seq<TermView>,
    names: Seq<String>,
    i: Interp,
    read: Reader,
    facts: FactsView,
    e: TermId,
)
    requires
        terms_wf(s),
        strings_sorted(s),
        reads_strings(i, names, read),
        e < s.len(),
        s[e as int].op == Op::Eq,
        holds(s, i, e),
        facts_true(s, i, read, facts),
    ensures
        equation_noted(s, names, facts, e) is Some,
        facts_true(s, i, read, equation_noted(s, names, facts, e)->0),
{
    let (l, r) = (s[e as int].args[0], s[e as int].args[1]);
    lemma_equal_texts(s, i, read, e);
    assert(strings_sorted(s));
    assert(s[l as int].op == Op::StringLit || s[l as int].op == Op::StrConcat || s[l as int].op
        == Op::StrReplaceAll ==> s[l as int].sort == STRING_SORT);
    assert(s[r as int].op == Op::StringLit || s[r as int].op == Op::StrConcat || s[r as int].op
        == Op::StrReplaceAll ==> s[r as int].sort == STRING_SORT);
    if literal_text(s, names, l) is Some {
        lemma_literal_at(s, names, i, read, l);
    }
    if literal_text(s, names, r) is Some {
        lemma_literal_at(s, names, i, read, r);
    }
    let after = equation_noted(s, names, facts, e);
    assert(after is Some);
    let f = after->0;
    assert forall|t: TermId| #[trigger] f.assigned.contains_key(t) implies text_at(s, i, read, t)
        == f.assigned[t] by {
        if facts.assigned.contains_key(t) {
        }
    }
    if length_equation(s, l, r) is Some {
        lemma_length_at(s, names, i, read, l, r);
    } else if length_equation(s, r, l) is Some {
        lemma_length_at(s, names, i, read, r, l);
    }
    assert forall|t: TermId| #[trigger] f.lengths.contains_key(t) implies text_at(
        s,
        i,
        read,
        t,
    ).len() == f.lengths[t] by {
        if facts.lengths.contains_key(t) {
        }
    }
    lemma_concat_at(s, names, i, read, l);
    lemma_concat_at(s, names, i, read, r);
    assert forall|k: int| 0 <= k < f.concats.len() implies texts_at(
        s,
        i,
        read,
        (#[trigger] f.concats[k]).0,
    ) == f.concats[k].1 by {
        if k < facts.concats.len() {
            assert(f.concats[k] == facts.concats[k]);
        }
    }
    if known_replacement(s, names, l, r, true, f.assigned) is Some {
        lemma_replacement_at(s, names, i, read, l, r, true, f.assigned);
    }
    assert forall|k: int| 0 <= k < f.replaced.len() implies {
        let p = #[trigger] f.replaced[k];
        &&& text_at(s, i, read, p.source) == p.text
        &&& text_at(s, i, read, p.result) == replaced_all(p.text, p.pattern, p.by)
    } by {
        if k < facts.replaced.len() {
            assert(f.replaced[k] == facts.replaced[k]);
        }
    }
}

proof fn lemma_equation_resolved(
    s: Seq<TermView>,
    names: Seq<String>,
    i: Interp,
    read: Reader,
    facts: FactsView,
    e: TermId,
)
    requires
        terms_wf(s),
        strings_sorted(s),
        reads_strings(i, names, read),
        e < s.len(),
        s[e as int].op == Op::Eq,
        holds(s, i, e),
        facts_true(s, i, read, facts),
    ensures
        facts_true(s, i, read, equation_resolved(s, names, facts, e)),
{
    let (l, r) = (s[e as int].args[0], s[e as int].args[1]);
    lemma_equal_texts(s, i, read, e);
    assert(s[l as int].op == Op::StrReplaceAll ==> s[l as int].sort == STRING_SORT);
    assert(s[r as int].op == Op::StrReplaceAll ==> s[r as int].sort == STRING_SORT);
    if known_replacement(s, names, l, r, false, facts.assigned) is Some {
        lemma_replacement_at(s, names, i, read, l, r, false, facts.assigned);
    }
    let f = equation_resolved(s, names, facts, e);
    assert forall|k: int| 0 <= k < f.replaced.len() implies {
        let p = #[trigger] f.replaced[k];
        &&& text_at(s, i, read, p.source) == p.text
        &&& text_at(s, i, read, p.result) == replaced_all(p.text, p.pattern, p.by)
    } by {
        if k < facts.replaced.len() {
            assert(f.replaced[k] == facts.replaced[k]);
        }
    }
}

proof fn lemma_joined_at(
    s: Seq<TermView>,
    names: Seq<String>,
    i: Interp,
    read: Reader,
    facts: FactsView,
    ops: Seq<TermId>,
)
    requires
        terms_wf(s),
        reads_strings(i, names, read),
        facts_true(s, i, read, facts),
    ensures
        all_known(s, names, facts, ops) ==> joined(s, names, facts, ops) == texts_at(
            s,
            i,
            read,
            ops,
        ),
        known_length(s, names, facts, ops) <= texts_at(s, i, read, ops).len(),
    decreases ops.len(),
{
    if ops.len() > 0 {
        let rest = ops.drop_last();
        lemma_joined_at(s, names, i, read, facts, rest);
        if all_known(s, names, facts, ops) {
            assert forall|k: int| 0 <= k < rest.len() implies operand_text(
                s,
                names,
                facts,
                #[trigger] rest[k],
            ) is Some by {
                assert(rest[k] == ops[k]);
            }
            assert(operand_text(s, names, facts, ops[ops.len() - 1]) is Some);
        }
        let t = ops.last();
        if literal_text(s, names, t) is Some {
            lemma_literal_at(s, names, i, read, t);
        }
    }
}

proof fn lemma_ends_known(
    s: Seq<TermView>,
    names: Seq<String>,
    facts: FactsView,
    ops: Seq<TermId>,
)
    ensures
        all_known(s, names, facts, ops.take(known_front(s, names, facts, ops))),
        all_known(s, names, facts, ops.skip(ops.len() - known_back(s, names, facts, ops))),
    decreases ops.len(),
{
    lemma_known_front(s, names, facts, ops);
    if ops.len() > 0 {
        let rest = ops.drop_last();
        lemma_known_front(s, names, facts, rest);
        lemma_ends_known(s, names, facts, rest);
        let n = known_front(s, names, facts, ops);
        let m = known_front(s, names, facts, rest);
        assert forall|k: int| 0 <= k < n implies operand_text(
            s,
            names,
            facts,
            #[trigger] ops.take(n)[k],
        ) is Some by {
            if k < m {
                assert(rest.take(m)[k] == ops.take(n)[k]);
            }
        }
        let b = known_back(s, names, facts, ops);
        let c = known_back(s, names, facts, rest);
        assert forall|k: int| 0 <= k < b implies operand_text(
            s,
            names,
            facts,
            #[trigger] ops.skip(ops.len() - b)[k],
        ) is Some by {
            if k < b - 1 {
                assert(rest.skip(rest.len() - c)[k] == ops.skip(ops.len() - b)[k]);
            }
        }
    }
}

/// Replacing an occurrence by something else changes the text.
proof fn lemma_replacing_changes(text: Seq<char>, pattern: Seq<char>, by: Seq<char>)
    requires
        pattern.len() > 0,
        pattern != by,
        occurs(pattern, text),
    ensures
        replaced_all(text, pattern, by) != text,
    decreases text.len(),
{
    let k = choose|k: int| occurs_at(pattern, text, k);
    if crate::text::is_prefix(pattern, text) {
        let rest = text.skip(pattern.len() as int);
        let out = replaced_all(text, pattern, by);
        lemma_replaced_length(rest, pattern, by);
        if out == text {
            let tail = replaced_all(rest, pattern, by);
            if by.len() == pattern.len() {
                assert(out.take(by.len() as int) =~= by);
                assert(text.take(by.len() as int) == pattern);
            } else {
                assert(out.len() == by.len() + tail.len());
                assert(text.len() == pattern.len() + rest.len());
            }
        }
    } else {
        let rest = text.skip(1);
        assert(k > 0) by {
            if k == 0 {
                assert(text.take(pattern.len() as int) =~= text.subrange(0, pattern.len() as int));
            }
        }
        assert(rest.subrange(k - 1, k - 1 + pattern.len()) =~= text.subrange(
            k,
            k + pattern.len(),
        ));
        assert(occurs_at(pattern, rest, k - 1));
        lemma_replacing_changes(rest, pattern, by);
        let out = replaced_all(text, pattern, by);
        if out == text {
            assert(out.skip(1) =~= replaced_all(rest, pattern, by));
        }
    }
}

/// Replacing by longer texts does not shorten, by shorter ones not lengthen.
proof fn lemma_replaced_length(text: Seq<char>, pattern: Seq<char>, by: Seq<char>)
    requires
        pattern.len() > 0,
    ensures
        by.len() >= pattern.len() ==> replaced_all(text, pattern, by).len() >= text.len(),
        by.len() <= pattern.len() ==> replaced_all(text, pattern, by).len() <= text.len(),
    decreases text.len(),
{
    if text.len() == 0 {
    } else if crate::text::is_prefix(pattern, text) {
        lemma_replaced_length(text.skip(pattern.len() as int), pattern, by);
    } else {
        lemma_replaced_length(text.skip(1), pattern, by);
    }
}

/// True facts do not contradict each other.
proof fn lemma_no_conflict(
    s: Seq<TermView>,
    names: Seq<String>,
    i: Interp,
    read: Reader,
    facts: FactsView,
)
    requires
        terms_wf(s),
        reads_strings(i, names, read),
        facts_true(s, i, read, facts),
    ensures
        !facts_conflict(s, names, facts),
{
    assert forall|t: TermId| !length_conflict(facts, t) by {}
    assert forall|k: int| 0 <= k < facts.concats.len() implies !concat_conflict(
        s,
        names,
        facts,
        (#[trigger] facts.concats[k]).0,
        facts.concats[k].1,
    ) by {
        let (ops, text) = facts.concats[k];
        lemma_joined_at(s, names, i, read, facts, ops);
        lemma_known_front(s, names, facts, ops);
        lemma_ends_known(s, names, facts, ops);
        let n = known_front(s, names, facts, ops);
        let b = ops.len() - known_back(s, names, facts, ops);
        lemma_joined_at(s, names, i, read, facts, ops.take(n));
        lemma_joined_at(s, names, i, read, facts, ops.skip(b));
        assert(ops =~= ops.take(n) + ops.skip(n));
        assert(ops =~= ops.take(b) + ops.skip(b));
        lemma_texts_split(s, i, read, ops.take(n), ops.skip(n));
        lemma_texts_split(s, i, read, ops.take(b), ops.skip(b));
        let front = joined(s, names, facts, ops.take(n));
        let back = joined(s, names, facts, ops.skip(b));
        assert(text.take(front.len() as int) =~= front);
        assert(text.skip(text.len() - back.len()) =~= back);
    }
    assert forall|k: int| 0 <= k < facts.replaced.len() implies !replace_conflict(
        facts,
        #[trigger] facts.replaced[k],
    ) by {
        let p = facts.replaced[k];
        if p.pattern.len() > 0 && occurs(p.pattern, p.text) && p.pattern != p.by {
            lemma_replacing_changes(p.text, p.pattern, p.by);
        }
    }
}

proof fn lemma_conjuncts_hold(s: Seq<TermView>, i: Interp, t: TermId)
    requires
        terms_wf(s),
        t < s.len(),
        holds(s, i, t),
    ensures
        forall|k: int|
            0 <= k < equations(s, t).len() ==> holds(
                s,
                i,
                #[trigger] equations(s, t)[k],
            ),
    decreases t, 1int, 0int,
{
    assert(node_below(s, t as int));
    let n = s[t as int].args.len() as int;
    if s[t as int].op == Op::And {
        lemma_eval(s, i, t);
        let vals = eval_args(s, i, s[t as int].args);
        assert forall|j: int| 0 <= j < s[t as int].args.len() implies holds(
            s,
            i,
            #[trigger] s[t as int].args[j],
        ) by {
            assert(is_true(vals[j]));
        }
        lemma_conjuncts_below(s, i, t, n);
        assert(equations(s, t) == equations_below(s, t, n));
    }
}

proof fn lemma_conjuncts_below(s: Seq<TermView>, i: Interp, t: TermId, n: int)
    requires
        terms_wf(s),
        t < s.len(),
        s[t as int].op == Op::And,
        0 <= n <= s[t as int].args.len(),
        forall|j: int|
            0 <= j < s[t as int].args.len() ==> holds(s, i, #[trigger] s[t as int].args[j]),
    ensures
        forall|k: int|
            0 <= k < equations_below(s, t, n).len() ==> holds(
                s,
                i,
                #[trigger] equations_below(s, t, n)[k],
            ),
    decreases t, 0int, n,
{
    assert(node_below(s, t as int));
    if n > 0 {
        lemma_conjuncts_below(s, i, t, n - 1);
        assert(s[t as int].args[n - 1] < t);
        lemma_conjuncts_hold(s, i, s[t as int].args[n - 1]);
        let a = equations_below(s, t, n - 1);
        let b = equations(s, s[t as int].args[n - 1]);
        let all = equations_below(s, t, n);
        assert(all == a + b);
        assert forall|k: int| 0 <= k < all.len() implies holds(s, i, #[trigger] all[k]) by {
            if k < a.len() {
                assert(all[k] == a[k]);
            } else {
                assert(all[k] == b[k - a.len()]);
            }
        }
    }
}

proof fn lemma_list_noted(
    s: Seq<TermView>,
    names: Seq<String>,
    i: Interp,
    read: Reader,
    facts: FactsView,
    es: Seq<TermId>,
)
    requires
        terms_wf(s),
        strings_sorted(s),
        reads_strings(i, names, read),
        forall|k: int|
            0 <= k < es.len() ==> (#[trigger] es[k]) < s.len() && s[es[k] as int].op == Op::Eq
                && holds(s, i, es[k]),
        facts_true(s, i, read, facts),
    ensures
        equations_noted(s, names, facts, es) is Some,
        facts_true(s, i, read, equations_noted(s, names, facts, es)->0),
        facts_true(s, i, read, equations_resolved(s, names, facts, es)),
    decreases es.len(),
{
    if es.len() > 0 {
        let rest = es.drop_last();
        assert forall|k: int| 0 <= k < rest.len() implies (#[trigger] rest[k]) < s.len()
            && s[rest[k] as int].op == Op::Eq && holds(s, i, rest[k]) by {
            assert(rest[k] == es[k]);
        }
        lemma_list_noted(s, names, i, read, facts, rest);
        assert(es[es.len() - 1] < s.len());
        lemma_equation_noted(
            s,
            names,
            i,
            read,
            equations_noted(s, names, facts, rest)->0,
            es.last(),
        );
        lemma_equation_resolved(
            s,
            names,
            i,
            read,
            equations_resolved(s, names, facts, rest),
            es.last(),
        );
    }
}

proof fn lemma_assertions_noted(
    s: Seq<TermView>,
    names: Seq<String>,
    i: Interp,
    read: Reader,
    assertions: Seq<TermId>,
    n: int,
)
    requires
        terms_wf(s),
        strings_sorted(s),
        reads_strings(i, names, read),
        n <= assertions.len(),
        all_hold(s, i, assertions),
    ensures
        assertions_noted(s, names, assertions, n) is Some,
        facts_true(s, i, read, assertions_noted(s, names, assertions, n)->0),
        forall|f: FactsView|
            facts_true(s, i, read, f) ==> facts_true(
                s,
                i,
                read,
                #[trigger] assertions_resolved(s, names, f, assertions, n),
            ),
    decreases n,
{
    if n > 0 {
        lemma_assertions_noted(s, names, i, read, assertions, n - 1);
        let t = assertions[n - 1];
        lemma_conjuncts_hold(s, i, t);
        lemma_equations(s, t);
        lemma_list_noted(
            s,
            names,
            i,
            read,
            assertions_noted(s, names, assertions, n - 1)->0,
            equations(s, t),
        );
        assert forall|f: FactsView| facts_true(s, i, read, f) implies facts_true(
            s,
            i,
            read,
            #[trigger] assertions_resolved(s, names, f, assertions, n),
        ) by {
            let g = assertions_resolved(s, names, f, assertions, n - 1);
            lemma_list_noted(s, names, i, read, g, equations(s, t));
        }
    } else {
        let f = no_facts();
        assert(facts_true(s, i, read, f));
    }
}

/// A conflict is never reported of assertions that are true together.
pub proof fn string_conflicts_are_real(
    s: Seq<TermView>,
    names: Seq<String>,
    i: Interp,
    read: Reader,
    assertions: Seq<TermId>,
)
    requires
        terms_wf(s),
        strings_sorted(s),
        reads_strings(i, names, read),
        all_hold(s, i, assertions),
    ensures
        !strings_conflict(s, names, assertions),
{
    let n = assertions.len() as int;
    lemma_assertions_noted(s, names, i, read, assertions, n);
    let f = assertions_noted(s, names, assertions, n)->0;
    lemma_no_conflict(s, names, i, read, assertions_resolved(s, names, f, assertions, n));
}

} // verus!
