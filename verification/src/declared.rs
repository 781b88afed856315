//! Declared symbols and their values.

use crate::collections::map_get;
use crate::model::Model;
use crate::render::{
    append_witness, default_text, default_value, format_value, value_text, witness_text,
};
use crate::sorts::{env_of, format_sort_name, sort_text, sorts_wf, SortEnv, SortNames};
use crate::terms::{same_ids, Op, SortId, SortKind, TermId, TermStore, TermView};
use crate::text::{copy_text, same_text};
use rustc_hash::FxHashMap;
use vstd::prelude::*;

verus! {

/// A declared constant.
pub struct DeclaredConst {
    pub term: TermId,
    pub sort: SortId,
    pub name: String,
}

/// A declared function.
pub struct DeclaredFun {
    pub name: String,
    pub arg_sorts: Vec<SortId>,
    pub ret_sort: SortId,
}

/// What a model is read with: what the printer says of terms, and the
/// representatives of the terms that congruence closure knows.
pub struct ModelSource {
    pub printed: FxHashMap<TermId, String>,
    pub representatives: FxHashMap<TermId, usize>,
}

/// What tells elements of an uninterpreted sort apart: the representative where
/// there is one, and else the constant itself.
#[derive(Clone, Copy, PartialEq, Eq, Debug, Structural)]
pub enum ClassKey {
    Class(usize),
    Alone(TermId),
}

pub open spec fn class_of(reps: Map<TermId, usize>, t: TermId) -> ClassKey {
    if reps.contains_key(t) {
        ClassKey::Class(reps[t])
    } else {
        ClassKey::Alone(t)
    }
}

pub open spec fn uninterpreted(sorts: Seq<SortKind>, id: SortId) -> bool {
    id < sorts.len() && sorts[id as int] is Uninterpreted
}

/// The constant gets a witness as its value.
pub open spec fn witnessed(sorts: Seq<SortKind>, m: Map<TermId, TermId>, d: DeclaredConst) -> bool {
    !m.contains_key(d.term) && uninterpreted(sorts, d.sort)
}

/// The classes that need witnesses among the first `n` constants, each once, in
/// the order in which they appear.
pub open spec fn classes(
    sorts: Seq<SortKind>,
    m: Map<TermId, TermId>,
    reps: Map<TermId, usize>,
    decls: Seq<DeclaredConst>,
    n: int,
) -> Seq<(SortId, ClassKey)>
    decreases n,
{
    if n <= 0 {
        Seq::empty()
    } else {
        let before = classes(sorts, m, reps, decls, n - 1);
        let d = decls[n - 1];
        let key = (d.sort, class_of(reps, d.term));
        if witnessed(sorts, m, d) && !before.contains(key) {
            before.push(key)
        } else {
            before
        }
    }
}

/// How many of the first `n` classes are of the sort.
pub open spec fn classes_of_sort(list: Seq<(SortId, ClassKey)>, sort: SortId, n: int) -> nat
    decreases n,
{
    if n <= 0 {
        0
    } else {
        classes_of_sort(list, sort, n - 1) + (if list[n - 1].0 == sort {
            1nat
        } else {
            0nat
        })
    }
}

/// The number of a class among those of its sort.
pub open spec fn witness_index(list: Seq<(SortId, ClassKey)>, key: (SortId, ClassKey)) -> nat {
    classes_of_sort(list, key.0, list.index_of(key))
}

/// The value of a constant.
pub open spec fn constant_text(
    s: Seq<TermView>,
    env: SortEnv,
    known: &SortNames,
    m: Map<TermId, TermId>,
    source: &ModelSource,
    list: Seq<(SortId, ClassKey)>,
    d: DeclaredConst,
) -> Seq<char> {
    if m.contains_key(d.term) {
        value_text(s, source.printed@, m[d.term])
    } else if uninterpreted(env.sorts, d.sort) {
        witness_text(
            env,
            d.sort,
            witness_index(list, (d.sort, class_of(source.representatives@, d.term))),
        )
    } else {
        default_text(env, known.defaults@, d.sort)
    }
}

proof fn lemma_sort_count(list: Seq<(SortId, ClassKey)>, sort: SortId, a: int, b: int)
    requires
        0 <= a <= b <= list.len(),
    ensures
        classes_of_sort(list, sort, a) <= classes_of_sort(list, sort, b),
        classes_of_sort(list, sort, b) <= b,
        a < b && list[a].0 == sort ==> classes_of_sort(list, sort, a) < classes_of_sort(
            list,
            sort,
            b,
        ),
    decreases b,
{
    if a < b {
        lemma_sort_count(list, sort, a, b - 1);
    } else if b > 0 {
        lemma_sort_count(list, sort, b - 1, b - 1);
    }
}

proof fn lemma_sort_count_push(
    list: Seq<(SortId, ClassKey)>,
    more: (SortId, ClassKey),
    sort: SortId,
    n: int,
)
    requires
        0 <= n <= list.len(),
    ensures
        classes_of_sort(list.push(more), sort, n) == classes_of_sort(list, sort, n),
    decreases n,
{
    if n > 0 {
        lemma_sort_count_push(list, more, sort, n - 1);
        assert(list.push(more)[n - 1] == list[n - 1]);
    }
}

/// Classes of one sort have different numbers.
pub proof fn witnesses_tell_classes_apart(
    list: Seq<(SortId, ClassKey)>,
    a: (SortId, ClassKey),
    b: (SortId, ClassKey),
)
    requires
        list.contains(a),
        list.contains(b),
        a.0 == b.0,
        witness_index(list, a) == witness_index(list, b),
    ensures
        a == b,
{
    let j = list.index_of(a);
    let k = list.index_of(b);
    assert(list[j] == a && list[k] == b);
    if j < k {
        lemma_sort_count(list, a.0, j, k);
    }
    if k < j {
        lemma_sort_count(list, b.0, k, j);
    }
}

/// A class keeps its number when more classes appear.
proof fn lemma_index_push(list: Seq<(SortId, ClassKey)>, more: (SortId, ClassKey), key: (SortId, ClassKey))
    requires
        list.contains(key),
        list.no_duplicates(),
        !list.contains(more),
    ensures
        witness_index(list.push(more), key) == witness_index(list, key),
{
    let j = list.index_of(key);
    let l = list.push(more);
    assert(list[j] == key);
    assert(l[j] == key);
    let k = l.index_of(key);
    assert(l[k] == key);
    assert(k < list.len()) by {
        if k == list.len() {
            assert(more == key);
        }
    }
    assert(list[k] == key);
    assert(j == k);
    lemma_sort_count_push(list, more, key.0, j);
}

proof fn lemma_classes_distinct(
    sorts: Seq<SortKind>,
    m: Map<TermId, TermId>,
    reps: Map<TermId, usize>,
    decls: Seq<DeclaredConst>,
    n: int,
)
    ensures
        classes(sorts, m, reps, decls, n).no_duplicates(),
    decreases n,
{
    if n > 0 {
        lemma_classes_distinct(sorts, m, reps, decls, n - 1);
    }
}

/// Name, sort and value of each constant.
pub open spec fn lists_constants(
    s: Seq<TermView>,
    env: SortEnv,
    known: &SortNames,
    m: Map<TermId, TermId>,
    source: &ModelSource,
    decls: Seq<DeclaredConst>,
    n: int,
    list: Seq<(SortId, ClassKey)>,
    out: Seq<(String, String, String)>,
) -> bool {
    &&& out.len() == n
    &&& forall|k: int|
        0 <= k < n ==> (#[trigger] out[k]).0@ == decls[k].name@ && out[k].1@ == sort_text(
            env,
            decls[k].sort,
        ) && out[k].2@ == constant_text(s, env, known, m, source, list, decls[k])
}

proof fn lemma_listed_class(
    sorts: Seq<SortKind>,
    m: Map<TermId, TermId>,
    reps: Map<TermId, usize>,
    decls: Seq<DeclaredConst>,
    n: int,
    k: int,
)
    requires
        0 <= k < n,
        witnessed(sorts, m, decls[k]),
    ensures
        classes(sorts, m, reps, decls, n).contains(
            (decls[k].sort, class_of(reps, decls[k].term)),
        ),
    decreases n,
{
    let before = classes(sorts, m, reps, decls, n - 1);
    let key = (decls[k].sort, class_of(reps, decls[k].term));
    let all = classes(sorts, m, reps, decls, n);
    if k < n - 1 {
        lemma_listed_class(sorts, m, reps, decls, n - 1, k);
        let j = choose|j: int| 0 <= j < before.len() && before[j] == key;
        assert(all[j] == key);
    } else if before.contains(key) {
    } else {
        assert(all[before.len() as int] == key);
    }
}

/// The constants with their sorts and values in a model.
pub fn list_constants(
    store: &TermStore,
    known: &SortNames,
    m: &Model,
    source: &ModelSource,
    decls: &Vec<DeclaredConst>,
) -> (out: Vec<(String, String, String)>)
    requires
        sorts_wf(store.sorts@),
        known.defaults.wf(),
    ensures
        lists_constants(
            store.terms(),
            env_of(store, known),
            known,
            m.assignments@,
            source,
            decls@,
            decls@.len() as int,
            classes(
                store.sorts@,
                m.assignments@,
                source.representatives@,
                decls@,
                decls@.len() as int,
            ),
            out@,
        ),
{
    let ghost s = store.terms();
    let ghost env = env_of(store, known);
    let ghost sorts = store.sorts@;
    let ghost am = m.assignments@;
    let ghost reps = source.representatives@;
    let mut seen: Vec<(SortId, ClassKey)> = Vec::new();
    let mut out: Vec<(String, String, String)> = Vec::new();
    let mut k: usize = 0;
    assert(seen@ =~= classes(sorts, am, reps, decls@, 0));
    while k < decls.len()
        invariant
            k <= decls.len(),
            sorts_wf(store.sorts@),
            known.defaults.wf(),
            s == store.terms(),
            env == env_of(store, known),
            sorts == store.sorts@,
            am == m.assignments@,
            reps == source.representatives@,
            seen@ == classes(sorts, am, reps, decls@, k as int),
            lists_constants(s, env, known, am, source, decls@, k as int, seen@, out@),
        decreases decls.len() - k,
    {
        let d = &decls[k];
        let ghost before = seen@;
        proof {
            lemma_classes_distinct(sorts, am, reps, decls@, k as int);
        }
        let ghost listed = out@;
        let sort = format_sort_name(store, known, d.sort);
        let value = match m.get(d.term) {
            Some(v) => format_value(store, &source.printed, v),
            None => {
                let open = d.sort < store.sorts.len() && match store.sorts[d.sort] {
                    SortKind::Uninterpreted(_) => true,
                    _ => false,
                };
                if open {
                    let class = match map_get(&source.representatives, d.term) {
                        Some(r) => ClassKey::Class(*r),
                        None => ClassKey::Alone(d.term),
                    };
                    let index = number_class(&mut seen, (d.sort, class));
                    let mut text = String::new();
                    append_witness(store, known, &mut text, d.sort, index);
                    assert(text@ =~= witness_text(env, d.sort, index as nat));
                    text
                } else {
                    default_value(store, known, d.sort)
                }
            },
        };
        let name = copy_text(d.name.as_str());
        out.push((name, sort, value));
        proof {
            assert(seen@ == classes(sorts, am, reps, decls@, k + 1));
            assert forall|j: int| 0 <= j < k + 1 implies (#[trigger] out@[j]).0@ == decls@[j].name@
                && out@[j].1@ == sort_text(env, decls@[j].sort) && out@[j].2@ == constant_text(
                s,
                env,
                known,
                am,
                source,
                seen@,
                decls@[j],
            ) by {
                if j < k {
                    assert(out@[j] == listed[j]);
                    if witnessed(sorts, am, decls@[j]) && seen@ != before {
                        lemma_listed_class(sorts, am, reps, decls@, k as int, j);
                        lemma_index_push(
                            before,
                            (decls@[k as int].sort, class_of(reps, decls@[k as int].term)),
                            (decls@[j].sort, class_of(reps, decls@[j].term)),
                        );
                    }
                }
            }
        }
        k = k + 1;
    }
    out
}

/// The number of a class, which is added where it is new.
fn number_class(seen: &mut Vec<(SortId, ClassKey)>, key: (SortId, ClassKey)) -> (index: u64)
    requires
        old(seen)@.no_duplicates(),
    ensures
        final(seen)@ == (if old(seen)@.contains(key) {
            old(seen)@
        } else {
            old(seen)@.push(key)
        }),
        index == witness_index(final(seen)@, key),
{
    let ghost before = seen@;
    let mut count: u64 = 0;
    let mut k: usize = 0;
    while k < seen.len()
        invariant
            k <= seen.len(),
            seen@ == before,
            before.no_duplicates(),
            count == classes_of_sort(before, key.0, k as int),
            count <= k,
            forall|j: int| 0 <= j < k ==> #[trigger] before[j] != key,
        decreases seen.len() - k,
    {
        if seen[k].0 == key.0 && seen[k].1 == key.1 {
            proof {
                assert(before[k as int] == key);
                assert(before.contains(key));
                let at = before.index_of(key);
                assert(before[at] == key);
                assert(at == k);
            }
            return count;
        }
        if seen[k].0 == key.0 {
            count = count + 1;
        }
        k = k + 1;
    }
    seen.push(key);
    proof {
        let l = before.push(key);
        assert(!before.contains(key));
        assert(l[before.len() as int] == key);
        let at = l.index_of(key);
        assert(l[at] == key);
        assert(at == before.len()) by {
            if at < before.len() {
                assert(before[at] == key);
            }
        }
        lemma_sort_count_push(before, key, key.0, before.len() as int);
    }
    count
}

/// An application that congruence closure knows, with the classes of its
/// arguments and of its result.
pub struct FuncAppEntry {
    pub arg_reps: Vec<usize>,
    pub arg_class_terms: Vec<Vec<TermId>>,
    pub result_class_terms: Vec<TermId>,
}

/// A term that is its own value.
pub open spec fn literal_value(op: Op) -> bool {
    op == Op::True || op == Op::False || op == Op::IntConst || op == Op::RealConst || op
        == Op::BitVecConst
}

/// The value that a member of a class shows, if it shows one.
pub open spec fn member_text(
    s: Seq<TermView>,
    m: Map<TermId, TermId>,
    printed: Map<TermId, String>,
    t: TermId,
) -> Option<Seq<char>> {
    if m.contains_key(t) {
        Some(value_text(s, printed, m[t]))
    } else if t < s.len() && literal_value(s[t as int].op) {
        Some(value_text(s, printed, t))
    } else {
        None
    }
}

/// The value of a class: that of its first member from `k` on that shows one.
pub open spec fn class_text(
    s: Seq<TermView>,
    m: Map<TermId, TermId>,
    printed: Map<TermId, String>,
    members: Seq<TermId>,
    k: int,
) -> Option<Seq<char>>
    decreases members.len() - k,
{
    if 0 <= k < members.len() {
        match member_text(s, m, printed, members[k]) {
            Some(x) => Some(x),
            None => class_text(s, m, printed, members, k + 1),
        }
    } else {
        None
    }
}

pub open spec fn text_view(x: Option<String>) -> Option<Seq<char>> {
    match x {
        Some(t) => Some(t@),
        None => None,
    }
}

fn class_value_string(
    store: &TermStore,
    m: &Model,
    printed: &FxHashMap<TermId, String>,
    members: &Vec<TermId>,
) -> (r: Option<String>)
    ensures
        text_view(r) == class_text(store.terms(), m.assignments@, printed@, members@, 0),
{
    let ghost s = store.terms();
    let mut k: usize = 0;
    while k < members.len()
        invariant
            k <= members.len(),
            s == store.terms(),
            class_text(s, m.assignments@, printed@, members@, 0) == class_text(
                s,
                m.assignments@,
                printed@,
                members@,
                k as int,
            ),
        decreases members.len() - k,
    {
        let t: TermId = members[k];
        if let Some(v) = m.get(t) {
            return Some(format_value(store, printed, v));
        }
        if t < store.nodes.len() {
            assert(store.nodes@[t as int]@ == s[t as int]);
            let own = match store.nodes[t].op {
                Op::True | Op::False | Op::IntConst | Op::RealConst | Op::BitVecConst => true,
                _ => false,
            };
            if own {
                return Some(format_value(store, printed, t));
            }
        }
        k = k + 1;
    }
    None
}

/// The text for the argument at `k`: the value of its class, or else the default
/// of its sort.
pub open spec fn argument_text(
    s: Seq<TermView>,
    env: SortEnv,
    known: &SortNames,
    m: Map<TermId, TermId>,
    printed: Map<TermId, String>,
    members: Seq<TermId>,
    sorts: Seq<SortId>,
    k: int,
) -> Seq<char> {
    match class_text(s, m, printed, members, 0) {
        Some(x) => x,
        None => if k < sorts.len() {
            default_text(env, known.defaults@, sorts[k])
        } else {
            "?"@
        },
    }
}

/// An entry of an interpretation.
pub open spec fn entry_shown(
    s: Seq<TermView>,
    env: SortEnv,
    known: &SortNames,
    m: Map<TermId, TermId>,
    printed: Map<TermId, String>,
    sorts: Seq<SortId>,
    entry: FuncAppEntry,
    out: (Vec<String>, String),
) -> bool {
    &&& class_text(s, m, printed, entry.result_class_terms@, 0) == Some(out.1@)
    &&& out.0@.len() == entry.arg_class_terms@.len()
    &&& forall|k: int|
        0 <= k < out.0@.len() ==> (#[trigger] out.0@[k])@ == argument_text(
            s,
            env,
            known,
            m,
            printed,
            entry.arg_class_terms@[k]@,
            sorts,
            k,
        )
}

/// The entries that are shown among the first `n`: those whose result has a
/// value, the first for each list of argument classes.
pub open spec fn shown_places(
    s: Seq<TermView>,
    m: Map<TermId, TermId>,
    printed: Map<TermId, String>,
    entries: Seq<FuncAppEntry>,
    n: int,
) -> Seq<int>
    decreases n,
{
    if n <= 0 {
        Seq::empty()
    } else {
        let before = shown_places(s, m, printed, entries, n - 1);
        if class_text(s, m, printed, entries[n - 1].result_class_terms@, 0) is Some
            && !same_arguments(entries, before, entries[n - 1].arg_reps@) {
            before.push(n - 1)
        } else {
            before
        }
    }
}

pub open spec fn same_arguments(
    entries: Seq<FuncAppEntry>,
    places: Seq<int>,
    reps: Seq<usize>,
) -> bool {
    exists|j: int| 0 <= j < places.len() && entries[#[trigger] places[j]].arg_reps@ == reps
}

/// No two entries that are shown have the same argument classes.
pub proof fn shown_arguments_differ(
    s: Seq<TermView>,
    m: Map<TermId, TermId>,
    printed: Map<TermId, String>,
    entries: Seq<FuncAppEntry>,
    n: int,
    j: int,
    k: int,
)
    requires
        0 <= n <= entries.len(),
        0 <= j < k < shown_places(s, m, printed, entries, n).len(),
    ensures
        entries[shown_places(s, m, printed, entries, n)[j]].arg_reps@ != entries[shown_places(
            s,
            m,
            printed,
            entries,
            n,
        )[k]].arg_reps@,
    decreases n,
{
    if n > 0 {
        let before = shown_places(s, m, printed, entries, n - 1);
        if k < before.len() {
            shown_arguments_differ(s, m, printed, entries, n - 1, j, k);
        } else {
            assert(!same_arguments(entries, before, entries[n - 1].arg_reps@));
            assert(entries[before[j]].arg_reps@ != entries[n - 1].arg_reps@);
        }
    }
}

fn argument_strings(
    store: &TermStore,
    known: &SortNames,
    m: &Model,
    printed: &FxHashMap<TermId, String>,
    sorts: &Vec<SortId>,
    entry: &FuncAppEntry,
) -> (out: Vec<String>)
    requires
        sorts_wf(store.sorts@),
        known.defaults.wf(),
    ensures
        out@.len() == entry.arg_class_terms@.len(),
        forall|k: int|
            0 <= k < out@.len() ==> (#[trigger] out@[k])@ == argument_text(
                store.terms(),
                env_of(store, known),
                known,
                m.assignments@,
                printed@,
                entry.arg_class_terms@[k]@,
                sorts@,
                k,
            ),
{
    let mut out: Vec<String> = Vec::new();
    let mut k: usize = 0;
    while k < entry.arg_class_terms.len()
        invariant
            k <= entry.arg_class_terms.len(),
            sorts_wf(store.sorts@),
            known.defaults.wf(),
            out@.len() == k,
            forall|j: int|
                0 <= j < k ==> (#[trigger] out@[j])@ == argument_text(
                    store.terms(),
                    env_of(store, known),
                    known,
                    m.assignments@,
                    printed@,
                    entry.arg_class_terms@[j]@,
                    sorts@,
                    j,
                ),
        decreases entry.arg_class_terms.len() - k,
    {
        let text = match class_value_string(store, m, printed, &entry.arg_class_terms[k]) {
            Some(x) => x,
            None => if k < sorts.len() {
                default_value(store, known, sorts[k])
            } else {
                copy_text("?")
            },
        };
        out.push(text);
        k = k + 1;
    }
    out
}

/// The entries that an interpretation shows.
pub fn shown_entries(
    store: &TermStore,
    known: &SortNames,
    m: &Model,
    printed: &FxHashMap<TermId, String>,
    sorts: &Vec<SortId>,
    entries: &Vec<FuncAppEntry>,
) -> (out: Vec<(Vec<String>, String)>)
    requires
        sorts_wf(store.sorts@),
        known.defaults.wf(),
    ensures
        entries_listed(
            store.terms(),
            env_of(store, known),
            known,
            m.assignments@,
            printed@,
            sorts@,
            entries@,
            shown_places(store.terms(), m.assignments@, printed@, entries@, entries@.len() as int),
            out@,
        ),
{
    let ghost s = store.terms();
    let ghost am = m.assignments@;
    let mut out: Vec<(Vec<String>, String)> = Vec::new();
    let mut places: Vec<usize> = Vec::new();
    let mut n: usize = 0;
    while n < entries.len()
        invariant
            n <= entries.len(),
            sorts_wf(store.sorts@),
            known.defaults.wf(),
            s == store.terms(),
            am == m.assignments@,
            places@.len() == shown_places(s, am, printed@, entries@, n as int).len(),
            forall|j: int|
                0 <= j < places@.len() ==> (#[trigger] places@[j]) < n && places@[j]
                    == shown_places(s, am, printed@, entries@, n as int)[j],
            entries_listed(
                s,
                env_of(store, known),
                known,
                am,
                printed@,
                sorts@,
                entries@,
                shown_places(s, am, printed@, entries@, n as int),
                out@,
            ),
        decreases entries.len() - n,
    {
        let entry = &entries[n];
        let ghost before = shown_places(s, am, printed@, entries@, n as int);
        let ghost old_out = out@;
        if let Some(value) = class_value_string(store, m, printed, &entry.result_class_terms) {
            let mut known_before = false;
            let mut j: usize = 0;
            while j < places.len() && !known_before
                invariant
                    j <= places.len(),
                    n < entries.len(),
                    *entry == entries@[n as int],
                    places@.len() == before.len(),
                    forall|i: int|
                        0 <= i < places@.len() ==> (#[trigger] places@[i]) < n && places@[i]
                            == before[i],
                    known_before ==> same_arguments(entries@, before, entry.arg_reps@),
                    !known_before ==> forall|i: int|
                        0 <= i < j ==> entries@[#[trigger] before[i]].arg_reps@ != entry.arg_reps@,
                decreases places.len() - j,
            {
                assert(places@[j as int] == before[j as int]);
                if same_ids(&entries[places[j]].arg_reps, &entry.arg_reps) {
                    assert(entries@[before[j as int]].arg_reps@ == entry.arg_reps@);
                    known_before = true;
                }
                j = j + 1;
            }
            if !known_before {
                let args = argument_strings(store, known, m, printed, sorts, entry);
                out.push((args, value));
                places.push(n);
                proof {
                    assert(!same_arguments(entries@, before, entry.arg_reps@));
                    let after = shown_places(s, am, printed@, entries@, n + 1);
                    assert(after == before.push(n as int));
                    assert forall|j: int| 0 <= j < after.len() implies entry_shown(
                        s,
                        env_of(store, known),
                        known,
                        am,
                        printed@,
                        sorts@,
                        entries@[after[j]],
                        #[trigger] out@[j],
                    ) by {
                        if j < before.len() {
                            assert(out@[j] == old_out[j]);
                        }
                    }
                }
            }
        }
        n = n + 1;
    }
    out
}

pub open spec fn entries_listed(
    s: Seq<TermView>,
    env: SortEnv,
    known: &SortNames,
    m: Map<TermId, TermId>,
    printed: Map<TermId, String>,
    sorts: Seq<SortId>,
    entries: Seq<FuncAppEntry>,
    places: Seq<int>,
    out: Seq<(Vec<String>, String)>,
) -> bool {
    &&& out.len() == places.len()
    &&& forall|j: int|
        0 <= j < out.len() ==> entry_shown(
            s,
            env,
            known,
            m,
            printed,
            sorts,
            entries[places[j]],
            #[trigger] out[j],
        )
}

/// How often the value occurs among the first `n` entries.
pub open spec fn occurrences(entries: Seq<(Vec<String>, String)>, value: Seq<char>, n: int) -> nat
    decreases n,
{
    if n <= 0 {
        0
    } else {
        occurrences(entries, value, n - 1) + (if entries[n - 1].1@ == value {
            1nat
        } else {
            0nat
        })
    }
}

/// The value at `k` occurs most often, and before others that do.
pub open spec fn most_common(entries: Seq<(Vec<String>, String)>, k: int) -> bool {
    let n = entries.len() as int;
    &&& 0 <= k < n
    &&& forall|j: int|
        0 <= j < n ==> occurrences(entries, (#[trigger] entries[j]).1@, n) < occurrences(
            entries,
            entries[k].1@,
            n,
        ) || (occurrences(entries, entries[j].1@, n) == occurrences(entries, entries[k].1@, n)
            && k <= j)
}

/// The value that occurs most often, the first of several.
pub fn most_common_value(entries: &Vec<(Vec<String>, String)>) -> (r: Option<String>)
    ensures
        r is Some == (entries@.len() > 0),
        r matches Some(x) ==> exists|k: int| #[trigger]
            most_common(entries@, k) && entries@[k].1@ == x@,
{
    if entries.len() == 0 {
        return None;
    }
    let ghost n = entries@.len() as int;
    let mut best: usize = 0;
    let mut best_count: usize = count_value(entries, 0);
    let mut k: usize = 1;
    while k < entries.len()
        invariant
            1 <= k <= entries.len(),
            best < k,
            n == entries@.len(),
            best_count == occurrences(entries@, entries@[best as int].1@, n),
            forall|j: int|
                0 <= j < k ==> occurrences(entries@, (#[trigger] entries@[j]).1@, n) < best_count
                    || (occurrences(entries@, entries@[j].1@, n) == best_count && best <= j),
        decreases entries.len() - k,
    {
        let count: usize = count_value(entries, k);
        if count > best_count {
            best = k;
            best_count = count;
        }
        k = k + 1;
    }
    assert(most_common(entries@, best as int));
    Some(copy_text(entries[best].1.as_str()))
}

fn count_value(entries: &Vec<(Vec<String>, String)>, at: usize) -> (count: usize)
    requires
        at < entries@.len(),
    ensures
        count == occurrences(entries@, entries@[at as int].1@, entries@.len() as int),
{
    let mut count: usize = 0;
    let mut k: usize = 0;
    while k < entries.len()
        invariant
            k <= entries.len(),
            at < entries@.len(),
            count <= k,
            count == occurrences(entries@, entries@[at as int].1@, k as int),
        decreases entries.len() - k,
    {
        if same_text(entries[k].1.as_str(), entries[at].1.as_str()) {
            count = count + 1;
        }
        k = k + 1;
    }
    count
}

} // verus!
