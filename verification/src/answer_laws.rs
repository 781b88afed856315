//! What answers are made of.

use crate::answers::{core_of, names_of, tighter};
use crate::declared::{
    argument_text, class_of, class_text, classes, constant_text, entry_shown, member_text,
    most_common, occurrences, same_arguments, shown_places, witness_index, witnessed,
    witnesses_tell_classes_apart, ClassKey, DeclaredConst, FuncAppEntry, ModelSource,
};
use crate::model::{false_names, false_places, given_names, name_at, texts, UnsatCore};
use crate::numbers::signed_value;
use crate::render::value_text;
use crate::render_laws::{values_read_back, witnesses_differ, written_bits, written_number};
use crate::search::{started, Action, Goal, SolverResult};
use crate::semantics::{eval, num, Interp};
use crate::solver::Solver;
use crate::sorts::{SortEnv, SortNames};
use crate::state::{GoalView, NamedAssertion};
use crate::terms::{terms_wf, DataView, Op, SortId, SortKind, TermId, TermView, FALSE_TERM};
use vstd::prelude::*;

verus! {

proof fn lemma_false_places(assertions: Seq<TermId>, n: int)
    requires
        0 <= n <= assertions.len() <= usize::MAX,
    ensures
        forall|k: usize| #[trigger]
            false_places(assertions, n).contains(k) <==> k < n && assertions[k as int]
                == FALSE_TERM,
        forall|i: int, j: int|
            0 <= i < j < false_places(assertions, n).len() ==> false_places(assertions, n)[i]
                < false_places(assertions, n)[j],
    decreases n,
{
    let all = false_places(assertions, n);
    if n > 0 {
        lemma_false_places(assertions, n - 1);
        let before = false_places(assertions, n - 1);
        let last = (n - 1) as usize;
        assert forall|k: usize| #[trigger] all.contains(k) <==> k < n && assertions[k as int]
            == FALSE_TERM by {
            if before.contains(k) {
                assert(all[before.index_of(k)] == k);
            }
            if k == last && assertions[n - 1] == FALSE_TERM {
                assert(all[before.len() as int] == k);
            }
            if all.contains(k) {
                let j = all.index_of(k);
                if j < before.len() {
                    assert(before[j] == k);
                    assert(before.contains(k));
                }
            }
        }
        assert forall|i: int, j: int| 0 <= i < j < all.len() implies all[i] < all[j] by {
            assert(before.contains(before[i]));
        }
    }
}

/// The place `k` is the first that names the assertion `index`.
pub open spec fn first_named(named: Seq<NamedAssertion>, index: int, k: int) -> bool {
    &&& 0 <= k < named.len() && named[k].index == index
    &&& forall|j: int| 0 <= j < k ==> (#[trigger] named[j]).index != index
}

proof fn lemma_name_at(named: Seq<NamedAssertion>, index: int, k: int, n: int)
    requires
        first_named(named, index, k),
        k < n <= named.len(),
    ensures
        name_at(named, index, n) == (match named[k].name {
            Some(x) => Some(x@),
            None => None,
        }),
    decreases n,
{
    if n - 1 > k {
        assert(named[k].index == index);
        lemma_name_at(named, index, k, n - 1);
    } else {
        assert(!(exists|j: int| 0 <= j < n - 1 && (#[trigger] named[j]).index == index));
    }
}

proof fn lemma_false_names(
    assertions: Seq<TermId>,
    named: Seq<NamedAssertion>,
    n: int,
    index: int,
    k: int,
)
    requires
        0 <= index < n <= assertions.len(),
        assertions[index] == FALSE_TERM,
        first_named(named, index, k),
        named[k].name is Some,
    ensures
        false_names(assertions, named, n).contains(named[k].name->0@),
    decreases n,
{
    let all = false_names(assertions, named, n);
    let before = false_names(assertions, named, n - 1);
    if index == n - 1 {
        lemma_name_at(named, index, k, named.len() as int);
        assert(all[before.len() as int] == named[k].name->0@);
    } else {
        lemma_false_names(assertions, named, n - 1, index, k);
        assert(all[before.index_of(named[k].name->0@)] == named[k].name->0@);
    }
}

/// The core of a check that the constant `false` decides holds just the places of
/// the assertions that are `false`, in order, and their names.
pub proof fn trivial_cores_list_what_is_false(e: GoalView, c: UnsatCore, index: usize, k: int)
    requires
        core_of(e, true, c),
        e.j.assertions.len() <= usize::MAX,
    ensures
        c.indices@.contains(index) <==> index < e.j.assertions.len()
            && e.j.assertions[index as int] == FALSE_TERM,
        forall|i: int, j: int| 0 <= i < j < c.indices@.len() ==> c.indices@[i] < c.indices@[j],
        c.indices@.contains(index) && first_named(e.j.named, index as int, k)
            && e.j.named[k].name is Some ==> texts(c.names@).contains(e.j.named[k].name->0@),
{
    lemma_false_places(e.j.assertions, e.j.assertions.len() as int);
    if c.indices@.contains(index) && first_named(e.j.named, index as int, k)
        && e.j.named[k].name is Some {
        lemma_false_names(
            e.j.assertions,
            e.j.named,
            e.j.assertions.len() as int,
            index as int,
            k,
        );
    }
}

proof fn lemma_given_names(named: Seq<NamedAssertion>, n: int, name: Seq<char>)
    requires
        0 <= n <= named.len(),
    ensures
        given_names(named, n).contains(name) <==> exists|k: int|
            0 <= k < n && (#[trigger] named[k]).name is Some && named[k].name->0@ == name,
    decreases n,
{
    let all = given_names(named, n);
    if n > 0 {
        lemma_given_names(named, n - 1, name);
        let before = given_names(named, n - 1);
        if before.contains(name) {
            assert(all[before.index_of(name)] == name);
        }
        if named[n - 1].name is Some && named[n - 1].name->0@ == name {
            assert(all[before.len() as int] == name);
        }
        if all.contains(name) {
            let j = all.index_of(name);
            if j < before.len() {
                assert(before[j] == name);
                let k = choose|k: int|
                    0 <= k < n - 1 && (#[trigger] named[k]).name is Some && named[k].name->0@
                        == name;
                assert(named[k].name is Some);
            } else {
                assert(named[n - 1].name is Some);
            }
        }
        if exists|k: int|
            0 <= k < n && (#[trigger] named[k]).name is Some && named[k].name->0@ == name {
            let k = choose|k: int|
                0 <= k < n && (#[trigger] named[k]).name is Some && named[k].name->0@ == name;
            if k < n - 1 {
                assert(named[k].name is Some);
                assert(before.contains(name));
            }
        }
    }
}

/// The core of a check that the search decides holds every assertion that was
/// noted, and just the names that were given.
pub proof fn cores_list_all_that_is_named(e: GoalView, c: UnsatCore, name: Seq<char>)
    requires
        core_of(e, false, c),
    ensures
        c.indices@.len() == e.j.named.len(),
        forall|k: int| 0 <= k < e.j.named.len() ==> (#[trigger] e.j.named[k]).index
            == c.indices@[k],
        texts(c.names@).contains(name) <==> exists|k: int|
            0 <= k < e.j.named.len() && (#[trigger] e.j.named[k]).name is Some
                && e.j.named[k].name->0@ == name,
{
    lemma_given_names(e.j.named, e.j.named.len() as int, name);
}

/// What is left of a core is told by its names.
pub proof fn minimized_cores_keep_their_names(
    named: Seq<NamedAssertion>,
    entries: Seq<(usize, TermId)>,
    n: int,
    i: int,
    k: int,
)
    requires
        0 <= i < n <= entries.len(),
        first_named(named, entries[i].0 as int, k),
        named[k].name is Some,
    ensures
        names_of(named, entries, n).contains(named[k].name->0@),
    decreases n,
{
    let all = names_of(named, entries, n);
    let before = names_of(named, entries, n - 1);
    if i == n - 1 {
        lemma_name_at(named, entries[i].0 as int, k, named.len() as int);
        assert(all[before.len() as int] == named[k].name->0@);
    } else {
        minimized_cores_keep_their_names(named, entries, n - 1, i, k);
        assert(all[before.index_of(named[k].name->0@)] == named[k].name->0@);
    }
}

/// The count is below the limit, where 0 is no limit.
pub open spec fn below_limit(limit: u64, count: int) -> bool {
    limit == 0 || count < limit
}

/// Under a limit for one check the search stays below that limit and below the one
/// that is set; without one, the limit that is set stands.
pub proof fn tighter_limits_hold_both(set: u64, limit: Option<u64>, count: int)
    ensures
        limit is None ==> tighter(set, limit) == set,
        limit matches Some(m) && m > 0 ==> (below_limit(tighter(set, limit), count) <==> below_limit(
            set,
            count,
        ) && below_limit(limit->0, count)),
{
}

/// A verdict that needs no search is the one that a check starts with.
pub proof fn early_verdicts_agree(x: &Solver, g: Goal, out_of_budget: bool, r: SolverResult)
    requires
        g.has_false == x.goal@.j.has_false,
        g.empty == (x.goal@.j.assertions.len() == 0),
        g.exceeded == x.goal@.exceeded,
    ensures
        x.early() == Some(r) <==> started(g, out_of_budget).action == Action::Answer(r),
{
}

/// How often a value occurs is how often it is among the values.
pub proof fn occurrences_count(
    entries: Seq<(Vec<String>, String)>,
    value: Seq<char>,
    n: int,
)
    requires
        0 <= n <= entries.len(),
    ensures
        occurrences(entries, value, n) == Seq::new(
            n as nat,
            |k: int| entries[k].1@,
        ).to_multiset().count(value),
    decreases n,
{
    broadcast use vstd::seq_lib::group_to_multiset_ensures;
    let values = Seq::new(n as nat, |k: int| entries[k].1@);
    if n > 0 {
        let before = Seq::new((n - 1) as nat, |k: int| entries[k].1@);
        occurrences_count(entries, value, n - 1);
        assert(values =~= before.push(entries[n - 1].1@));
    } else {
        assert(values =~= Seq::<Seq<char>>::empty());
    }
}

/// The value of a class is that of one of its members, and there is one as soon as
/// a member shows a value.
pub proof fn classes_have_values_of_members(
    s: Seq<TermView>,
    m: Map<TermId, TermId>,
    printed: Map<TermId, String>,
    members: Seq<TermId>,
    k: int,
)
    requires
        0 <= k <= members.len(),
    ensures
        match class_text(s, m, printed, members, k) {
            Some(x) => exists|j: int|
                k <= j < members.len() && (#[trigger] member_text(s, m, printed, members[j]))
                    == Some(x),
            None => forall|j: int|
                k <= j < members.len() ==> (#[trigger] member_text(s, m, printed, members[j])) is None,
        },
    decreases members.len() - k,
{
    if k < members.len() {
        if member_text(s, m, printed, members[k]) is None {
            classes_have_values_of_members(s, m, printed, members, k + 1);
        }
    }
}

/// A member that has a value in the model shows that value; a literal shows itself.
pub proof fn members_show_their_values(
    s: Seq<TermView>,
    i: Interp,
    m: Map<TermId, TermId>,
    printed: Map<TermId, String>,
    t: TermId,
)
    requires
        terms_wf(s),
        t < s.len(),
    ensures
        m.contains_key(t) && m[t] < s.len() && s[m[t] as int].op == Op::IntConst
            && s[m[t] as int].data is Int ==> member_text(s, m, printed, t) is Some
            && written_number(member_text(s, m, printed, t)->0) == Some(
            num(eval(s, i, m[t] as int)),
        ),
        !m.contains_key(t) && s[t as int].op == Op::IntConst && s[t as int].data is Int
            ==> member_text(s, m, printed, t) is Some && written_number(
            member_text(s, m, printed, t)->0,
        ) == Some(num(eval(s, i, t as int))),
        !m.contains_key(t) && s[t as int].op == Op::Var ==> member_text(s, m, printed, t) is None,
{
    values_read_back(s, printed, i, t);
    if m.contains_key(t) && m[t] < s.len() {
        values_read_back(s, printed, i, m[t]);
    }
}

/// A constant with a value in the model is shown with that value.
pub proof fn constants_show_their_values(
    s: Seq<TermView>,
    i: Interp,
    env: SortEnv,
    known: &SortNames,
    m: Map<TermId, TermId>,
    source: &ModelSource,
    list: Seq<(SortId, ClassKey)>,
    d: DeclaredConst,
)
    requires
        terms_wf(s),
        m.contains_key(d.term),
        m[d.term] < s.len(),
    ensures
        ({
            let v = s[m[d.term] as int];
            let text = constant_text(s, env, known, m, source, list, d);
            &&& v.op == Op::IntConst && v.data is Int ==> written_number(text) == Some(
                num(eval(s, i, m[d.term] as int)),
            )
            &&& v.op == Op::RealConst ==> (v.data matches DataView::Real(r) ==> r.wf()
                ==> written_number(text) == Some(num(eval(s, i, m[d.term] as int))))
            &&& v.op == Op::True ==> text == "true"@
            &&& v.op == Op::False ==> text == "false"@
            &&& v.op == Op::BitVecConst ==> (v.data matches DataView::Bits(negative, digits, w)
                ==> signed_value(negative, digits) >= 0 ==> (written_bits(text) matches Some(n) && n
                == signed_value(negative, digits)))
            &&& text == value_text(s, source.printed@, m[d.term])
        }),
{
    values_read_back(s, source.printed@, i, m[d.term]);
}

proof fn lemma_class_listed(
    sorts: Seq<SortKind>,
    m: Map<TermId, TermId>,
    reps: Map<TermId, usize>,
    decls: Seq<DeclaredConst>,
    n: int,
    k: int,
)
    requires
        0 <= k < n <= decls.len(),
        witnessed(sorts, m, decls[k]),
    ensures
        classes(sorts, m, reps, decls, n).contains(
            (decls[k].sort, class_of(reps, decls[k].term)),
        ),
    decreases n,
{
    let all = classes(sorts, m, reps, decls, n);
    let before = classes(sorts, m, reps, decls, n - 1);
    let key = (decls[k].sort, class_of(reps, decls[k].term));
    if k < n - 1 {
        lemma_class_listed(sorts, m, reps, decls, n - 1, k);
        assert(all[before.index_of(key)] == key);
    } else if before.contains(key) {
        assert(all[before.index_of(key)] == key);
    } else {
        assert(all[before.len() as int] == key);
    }
}

/// Two constants of an uninterpreted sort without values in the model are shown
/// with one element just where congruence closure has them in one class.
pub proof fn elements_tell_classes(
    s: Seq<TermView>,
    env: SortEnv,
    known: &SortNames,
    m: Map<TermId, TermId>,
    source: &ModelSource,
    decls: Seq<DeclaredConst>,
    j: int,
    k: int,
)
    requires
        0 <= j < decls.len() && 0 <= k < decls.len(),
        decls[j].sort == decls[k].sort,
        decls[j].sort < env.sorts.len() && env.sorts[decls[j].sort as int] is Uninterpreted,
        !m.contains_key(decls[j].term) && !m.contains_key(decls[k].term),
    ensures
        ({
            let reps = source.representatives@;
            let list = classes(env.sorts, m, reps, decls, decls.len() as int);
            let (a, b) = (decls[j].term, decls[k].term);
            constant_text(s, env, known, m, source, list, decls[j]) == constant_text(
                s,
                env,
                known,
                m,
                source,
                list,
                decls[k],
            ) <==> a == b || (reps.contains_key(a) && reps.contains_key(b) && reps[a] == reps[b])
        }),
{
    let reps = source.representatives@;
    let n = decls.len() as int;
    let list = classes(env.sorts, m, reps, decls, n);
    lemma_class_listed(env.sorts, m, reps, decls, n, j);
    lemma_class_listed(env.sorts, m, reps, decls, n, k);
    let x = (decls[j].sort, class_of(reps, decls[j].term));
    let y = (decls[k].sort, class_of(reps, decls[k].term));
    if x != y {
        if witness_index(list, x) == witness_index(list, y) {
            witnesses_tell_classes_apart(list, x, y);
        }
        witnesses_differ(env, decls[j].sort, witness_index(list, x), witness_index(list, y));
    }
}

/// Every application whose result has a value is shown, or another one on the same
/// arguments is.
pub proof fn valued_applications_are_shown(
    s: Seq<TermView>,
    m: Map<TermId, TermId>,
    printed: Map<TermId, String>,
    entries: Seq<FuncAppEntry>,
    n: int,
    k: int,
)
    requires
        0 <= k < n <= entries.len(),
        exists|j: int|
            0 <= j < entries[k].result_class_terms@.len() && (#[trigger] member_text(
                s,
                m,
                printed,
                entries[k].result_class_terms@[j],
            )) is Some,
    ensures
        exists|j: int|
            0 <= j < shown_places(s, m, printed, entries, n).len() && entries[
            #[trigger] shown_places(s, m, printed, entries, n)[j]].arg_reps@
                == entries[k].arg_reps@,
    decreases n,
{
    let all = shown_places(s, m, printed, entries, n);
    let before = shown_places(s, m, printed, entries, n - 1);
    if k < n - 1 {
        valued_applications_are_shown(s, m, printed, entries, n - 1, k);
        let j = choose|j: int|
            0 <= j < before.len() && entries[#[trigger] before[j]].arg_reps@
                == entries[k].arg_reps@;
        assert(all[j] == before[j]);
    } else {
        classes_have_values_of_members(s, m, printed, entries[k].result_class_terms@, 0);
        if same_arguments(entries, before, entries[k].arg_reps@) {
            let j = choose|j: int|
                0 <= j < before.len() && entries[#[trigger] before[j]].arg_reps@
                    == entries[k].arg_reps@;
            assert(all[j] == before[j]);
        } else {
            assert(all[before.len() as int] == k);
        }
    }
}

/// An entry of an interpretation shows for its result the value of a member of the
/// class of the result, and for each argument that of a member of its class, where
/// one has a value.
pub proof fn entries_show_values_of_members(
    s: Seq<TermView>,
    env: SortEnv,
    known: &SortNames,
    m: Map<TermId, TermId>,
    printed: Map<TermId, String>,
    sorts: Seq<SortId>,
    entry: FuncAppEntry,
    out: (Vec<String>, String),
    k: int,
)
    requires
        entry_shown(s, env, known, m, printed, sorts, entry, out),
    ensures
        exists|j: int|
            0 <= j < entry.result_class_terms@.len() && (#[trigger] member_text(
                s,
                m,
                printed,
                entry.result_class_terms@[j],
            )) == Some(out.1@),
        out.0@.len() == entry.arg_class_terms@.len(),
        0 <= k < out.0@.len() ==> {
            let members = entry.arg_class_terms@[k]@;
            (forall|j: int|
                0 <= j < members.len() ==> (#[trigger] member_text(s, m, printed, members[j])) is None)
                || exists|j: int|
                0 <= j < members.len() && (#[trigger] member_text(s, m, printed, members[j]))
                    == Some(out.0@[k]@)
        },
{
    classes_have_values_of_members(s, m, printed, entry.result_class_terms@, 0);
    if 0 <= k < out.0@.len() {
        assert(out.0@[k]@ == argument_text(
            s,
            env,
            known,
            m,
            printed,
            entry.arg_class_terms@[k]@,
            sorts,
            k,
        ));
        classes_have_values_of_members(s, m, printed, entry.arg_class_terms@[k]@, 0);
    }
}

/// No value occurs among the entries more often than the most common one.
pub proof fn the_most_common_value_is_it(entries: Seq<(Vec<String>, String)>, k: int, j: int)
    requires
        most_common(entries, k),
        0 <= j < entries.len(),
    ensures
        ({
            let values = Seq::new(entries.len(), |i: int| entries[i].1@).to_multiset();
            values.count(entries[j].1@) <= values.count(entries[k].1@)
        }),
{
    let n = entries.len() as int;
    occurrences_count(entries, entries[j].1@, n);
    occurrences_count(entries, entries[k].1@, n);
    assert(occurrences(entries, entries[j].1@, n) <= occurrences(entries, entries[k].1@, n));
}

} // verus!
