//! What declarations and logs hold.

use crate::context::{fun_names, latest, Context};
use crate::proof_log::{log_of, logged, LogView, ProofStep};
use crate::script::{
    datatype_funs, default_set, first_plain, fun_declared, selector_funs, selector_sorts,
    ConstructorDecl,
};
use crate::search::SolverResult;
use crate::terms::SortId;
use crate::text::{decimal, decimals_read_back};
use vstd::prelude::*;

verus! {

/// A name is found just where it was given, at the last place where it was.
pub proof fn latest_is_the_last(names: Seq<Seq<char>>, name: Seq<char>, k: int)
    requires
        names.len() <= usize::MAX,
    ensures
        latest(names).contains_key(name) <==> names.contains(name),
        0 <= k < names.len() && names[k] == name && (forall|j: int|
            k < j < names.len() ==> #[trigger] names[j] != name) ==> latest(names)[name] == k,
    decreases names.len(),
{
    if names.len() > 0 {
        let front = names.drop_last();
        latest_is_the_last(front, name, k);
        let n = names.len() - 1;
        assert(names[n] == names.last());
        if front.contains(name) {
            assert(names[front.index_of(name)] == name);
        }
        if names.contains(name) {
            let j = names.index_of(name);
            if j < n {
                assert(front[j] == name);
            }
        }
        if 0 <= k < n && names[k] == name && (forall|j: int|
            k < j < names.len() ==> #[trigger] names[j] != name) {
            assert(front[k] == name);
            assert forall|j: int| k < j < front.len() implies #[trigger] front[j] != name by {
                assert(front[j] == names[j]);
            }
            assert(names[n] != name);
        }
    }
}

/// A declaration hides earlier ones of the same name, and no others: the name now
/// leads to it, and every other name to where it led before.
pub proof fn declarations_hide_their_name_only(
    a: &Context,
    b: &Context,
    name: Seq<char>,
    args: Seq<SortId>,
    ret: SortId,
    other: Seq<char>,
)
    requires
        a.valid(),
        fun_declared(a, b, name, args, ret),
        b.declared_funs@.len() <= usize::MAX,
    ensures
        b.fun_index@.contains_key(name),
        b.declared_funs@[b.fun_index@[name] as int].name@ == name,
        b.declared_funs@[b.fun_index@[name] as int].arg_sorts@ == args,
        b.declared_funs@[b.fun_index@[name] as int].ret_sort == ret,
        other != name ==> b.fun_index@.contains_key(other) == a.fun_index@.contains_key(other),
        other != name && a.fun_index@.contains_key(other) ==> b.declared_funs@[b.fun_index@[other] as int]
            == a.declared_funs@[a.fun_index@[other] as int],
{
    let n = a.declared_funs@.len() as int;
    assert(b.declared_funs@[n] == b.declared_funs@.last());
    if other != name && a.fun_index@.contains_key(other) {
        let names = fun_names(a.declared_funs@);
        latest_is_the_last(names, other, 0);
        lemma_latest_within(names, other);
        let j = a.fun_index@[other] as int;
        assert(b.declared_funs@.drop_last()[j] == b.declared_funs@[j]);
    }
}

proof fn lemma_latest_within(names: Seq<Seq<char>>, name: Seq<char>)
    requires
        names.len() <= usize::MAX,
        latest(names).contains_key(name),
    ensures
        latest(names)[name] < names.len(),
        names[latest(names)[name] as int] == name,
    decreases names.len(),
{
    if names.len() > 0 && names.last() != name {
        lemma_latest_within(names.drop_last(), name);
    }
}

proof fn lemma_selector(selectors: Seq<(String, SortId)>, sort: SortId, n: int, j: int)
    requires
        0 <= j < n <= selectors.len(),
    ensures
        selector_funs(selectors, sort, n).contains((selectors[j].0@, seq![sort], selectors[j].1)),
    decreases n,
{
    let all = selector_funs(selectors, sort, n);
    let before = selector_funs(selectors, sort, n - 1);
    let f = (selectors[j].0@, seq![sort], selectors[j].1);
    if j == n - 1 {
        assert(all[before.len() as int] == f);
    } else {
        lemma_selector(selectors, sort, n - 1, j);
        assert(all[before.index_of(f)] == f);
    }
}

/// Declaring a data type declares each constructor as a function from the sorts of
/// its selectors to the data type, and each selector as one from the data type to
/// its sort.
pub proof fn datatypes_declare_their_functions(
    constructors: Seq<ConstructorDecl>,
    sort: SortId,
    n: int,
    k: int,
    j: int,
)
    requires
        0 <= k < n <= constructors.len(),
    ensures
        datatype_funs(constructors, sort, n).contains(
            (
                constructors[k].name@,
                Seq::new(
                    constructors[k].selectors@.len(),
                    |i: int| constructors[k].selectors@[i].1,
                ),
                sort,
            ),
        ),
        0 <= j < constructors[k].selectors@.len() ==> datatype_funs(constructors, sort, n).contains(
            (constructors[k].selectors@[j].0@, seq![sort], constructors[k].selectors@[j].1),
        ),
    decreases n,
{
    let c = constructors[k];
    let f = (c.name@, selector_sorts(c.selectors@), sort);
    assert(selector_sorts(c.selectors@) =~= Seq::new(
        c.selectors@.len(),
        |i: int| c.selectors@[i].1,
    ));
    let all = datatype_funs(constructors, sort, n);
    let before = datatype_funs(constructors, sort, n - 1);
    let last = constructors[n - 1];
    let more = selector_funs(last.selectors@, sort, last.selectors@.len() as int);
    let made = (last.name@, selector_sorts(last.selectors@), sort);
    assert(all == before.push(made) + more);
    if k == n - 1 {
        assert(all[before.len() as int] == f);
        if 0 <= j < c.selectors@.len() {
            lemma_selector(c.selectors@, sort, c.selectors@.len() as int, j);
            let g = (c.selectors@[j].0@, seq![sort], c.selectors@[j].1);
            assert(all[before.len() + 1 + more.index_of(g)] == g);
        }
    } else {
        datatypes_declare_their_functions(constructors, sort, n - 1, k, j);
        assert(all[before.index_of(f)] == f);
        if 0 <= j < c.selectors@.len() {
            let g = (c.selectors@[j].0@, seq![sort], c.selectors@[j].1);
            assert(all[before.index_of(g)] == g);
        }
    }
}

/// A data type with a constructor without selectors has the first such for its
/// default.
pub proof fn defaults_are_plain_constructors(
    a: Map<Seq<char>, String>,
    b: Map<Seq<char>, String>,
    name: Seq<char>,
    constructors: Seq<ConstructorDecl>,
    k: int,
)
    requires
        default_set(a, b, name, constructors),
        0 <= k < constructors.len(),
        constructors[k].selectors@.len() == 0,
        forall|j: int| 0 <= j < k ==> (#[trigger] constructors[j]).selectors@.len() > 0,
    ensures
        b.contains_key(name),
        b[name]@ == constructors[k].name@,
        forall|x: Seq<char>| x != name && #[trigger] a.contains_key(x) ==> b.contains_key(x) && b[x]
            == a[x],
{
    assert(first_plain(constructors, k));
    let i = choose|i: int| #[trigger]
        first_plain(constructors, i) && b[name]@ == constructors[i].name@;
    if i < k {
        assert(constructors[i].selectors@.len() > 0);
    }
    if k < i {
        assert(constructors[k].selectors@.len() > 0);
    }
}

/// The log of a refutation has an entry for each step of the proof, in order: a
/// resolution keeps its premises and its pivot, and other steps have none.  Any
/// other log holds the verdict alone.
pub proof fn proofs_are_logged(result: SolverResult, steps: Option<Seq<ProofStep>>, k: int)
    ensures
        result == SolverResult::Unsat && steps is Some && steps->0.len() > 0 ==> {
            &&& log_of(result, steps).len() == steps->0.len()
            &&& 0 <= k < steps->0.len() ==> match (steps->0[k], log_of(result, steps)[k]) {
                (
                    ProofStep::Resolution { index, left, right, pivot },
                    LogView::Inference { rule, left: l, right: r, conclusion, argument },
                ) => l == left && r == right && argument == pivot@,
                (ProofStep::Input { index }, LogView::Axiom { conclusion }) => true,
                (ProofStep::TheoryLemma { index, theory }, LogView::Axiom { conclusion }) => true,
                _ => false,
            }
        },
        !(result == SolverResult::Unsat && steps is Some && steps->0.len() > 0) ==> log_of(
            result,
            steps,
        ).len() == 1 && log_of(result, steps)[0] is Axiom,
{
}

/// Steps with different numbers have different conclusions.
pub proof fn conclusions_tell_steps_apart(a: u32, b: u32)
    requires
        a != b,
    ensures
        logged(ProofStep::Input { index: a }) != logged(ProofStep::Input { index: b }),
        forall|l: u32, r: u32, p: String, m: u32, q: u32, o: String|
            (#[trigger] logged(
                ProofStep::Resolution { index: a, left: l, right: r, pivot: p },
            ))->Inference_conclusion != (#[trigger] logged(
                ProofStep::Resolution { index: b, left: m, right: q, pivot: o },
            ))->Inference_conclusion,
{
    decimals_read_back(a as nat);
    decimals_read_back(b as nat);
    reveal_strlit("input-clause-");
    reveal_strlit("resolution-");
    let x = "input-clause-"@;
    assert((x + decimal(a as nat)).skip(x.len() as int) =~= decimal(a as nat));
    assert((x + decimal(b as nat)).skip(x.len() as int) =~= decimal(b as nat));
    let y = "resolution-"@;
    assert((y + decimal(a as nat)).skip(y.len() as int) =~= decimal(a as nat));
    assert((y + decimal(b as nat)).skip(y.len() as int) =~= decimal(b as nat));
}

} // verus!
