//! Which contradictions between strings are found.

use crate::aliases::is_var;
use crate::ite_table::int_literal;
use crate::strings::{
    all_known, assertions_noted, assertions_resolved, concat_conflict, concat_equation,
    concat_leaves, equation_noted, equation_resolved, equations, equations_below, equations_noted,
    equations_resolved, facts_conflict, has_string_atom, is_suffix, joined, known_back, known_front,
    known_length, known_replacement, lemma_joined_split, lemma_known_front, length_conflict,
    length_given, literal_equation, literal_text, occurs, occurs_at, operand_text, replace_conflict,
    replaced_all, strings_conflict, FactsView, ReplacementView,
};
use crate::terms::{node_below, terms_wf, Op, TermId, TermView};
use crate::text::is_prefix;
use vstd::prelude::*;

verus! {

/// `e` is a conjunct of `t`: `t` itself, or a conjunct of an argument where `t` is
/// a conjunction.
pub open spec fn conjunct(s: Seq<TermView>, t: TermId, e: TermId) -> bool
    decreases t,
{
    ||| t == e
    ||| t < s.len() && s[t as int].op == Op::And && exists|k: int|
        0 <= k < s[t as int].args.len() && #[trigger] s[t as int].args[k] < t && conjunct(
            s,
            s[t as int].args[k],
            e,
        )
}

/// The conjunct `e` of an assertion is the equation of `a` and `b`, in this order.
pub open spec fn states(
    s: Seq<TermView>,
    given: Seq<TermId>,
    e: TermId,
    a: TermId,
    b: TermId,
) -> bool {
    &&& e < s.len() && s[e as int].op == Op::Eq
    &&& s[e as int].args[0] == a && s[e as int].args[1] == b
    &&& exists|k: int| 0 <= k < given.len() && conjunct(s, #[trigger] given[k], e)
}

/// The conjunct `e` of an assertion is the equation of `a` and `b`, in either order.
pub open spec fn states_either(
    s: Seq<TermView>,
    given: Seq<TermId>,
    e: TermId,
    a: TermId,
    b: TermId,
) -> bool {
    states(s, given, e, a, b) || states(s, given, e, b, a)
}

/// The assertions say that `a` equals `b`.
pub open spec fn equated(s: Seq<TermView>, given: Seq<TermId>, a: TermId, b: TermId) -> bool {
    exists|e: TermId| #[trigger] states_either(s, given, e, a, b)
}

/// The assertions say that the term is a literal with this text.
pub open spec fn equals_text(
    s: Seq<TermView>,
    names: Seq<String>,
    given: Seq<TermId>,
    t: TermId,
    text: Seq<char>,
) -> bool {
    exists|c: TermId| #[trigger]
        equated(s, given, t, c) && literal_text(s, names, c) == Some(text)
}

/// The text of the term is plain: the term is a literal, or a variable that the
/// assertions equate with one.
pub open spec fn has_text(
    s: Seq<TermView>,
    names: Seq<String>,
    given: Seq<TermId>,
    t: TermId,
    text: Seq<char>,
) -> bool {
    ||| literal_text(s, names, t) == Some(text)
    ||| is_var(s, t) && equals_text(s, names, given, t, text)
}

/// The texts `w` are those of the operands of the concatenation, nested or not.
pub open spec fn spelled_by(
    s: Seq<TermView>,
    names: Seq<String>,
    given: Seq<TermId>,
    w: spec_fn(TermId) -> Seq<char>,
    t: TermId,
) -> bool
    decreases t,
{
    if t < s.len() && s[t as int].op == Op::StrConcat && s[t as int].args[0] < t
        && s[t as int].args[1] < t {
        spelled_by(s, names, given, w, s[t as int].args[0]) && spelled_by(
            s,
            names,
            given,
            w,
            s[t as int].args[1],
        )
    } else {
        has_text(s, names, given, t, w(t))
    }
}

/// The texts of the operands put together.
pub open spec fn put_together(
    s: Seq<TermView>,
    w: spec_fn(TermId) -> Seq<char>,
    t: TermId,
) -> Seq<char>
    decreases t,
{
    if t < s.len() && s[t as int].op == Op::StrConcat && s[t as int].args[0] < t
        && s[t as int].args[1] < t {
        put_together(s, w, s[t as int].args[0]) + put_together(s, w, s[t as int].args[1])
    } else {
        w(t)
    }
}

proof fn lemma_conjunct_collected(s: Seq<TermView>, t: TermId, e: TermId)
    requires
        terms_wf(s),
        t < s.len() && e < s.len(),
        conjunct(s, t, e),
        s[e as int].op == Op::Eq,
    ensures
        equations(s, t).contains(e),
    decreases t, s[t as int].args.len() + 1,
{
    if t == e {
        assert(equations(s, t) == seq![t]);
        assert(equations(s, t)[0] == e);
    } else {
        let k = choose|k: int|
            0 <= k < s[t as int].args.len() && #[trigger] s[t as int].args[k] < t && conjunct(
                s,
                s[t as int].args[k],
                e,
            );
        lemma_conjunct_collected(s, s[t as int].args[k], e);
        lemma_collected_below(s, t, e, k, s[t as int].args.len() as int);
    }
}

proof fn lemma_collected_below(s: Seq<TermView>, t: TermId, e: TermId, k: int, n: int)
    requires
        terms_wf(s),
        t < s.len(),
        0 <= k < n <= s[t as int].args.len(),
        equations(s, s[t as int].args[k]).contains(e),
    ensures
        equations_below(s, t, n).contains(e),
    decreases n,
{
    assert(node_below(s, t as int));
    assert(s[t as int].args[n - 1] < t);
    let front = equations_below(s, t, n - 1);
    let last = equations(s, s[t as int].args[n - 1]);
    if k < n - 1 {
        lemma_collected_below(s, t, e, k, n - 1);
        let j = front.index_of(e);
        assert((front + last)[j] == e);
    } else {
        let j = last.index_of(e);
        assert((front + last)[front.len() + j] == e);
    }
}

proof fn lemma_collected_conjunct(s: Seq<TermView>, t: TermId, e: TermId)
    requires
        t < s.len(),
        equations(s, t).contains(e),
    ensures
        conjunct(s, t, e),
        s[e as int].op == Op::Eq && e < s.len(),
    decreases t, 1int, 0int,
{
    let es = equations(s, t);
    let j = es.index_of(e);
    assert(es[j] == e);
    if s[t as int].op == Op::And {
        lemma_below_conjunct(s, t, e, s[t as int].args.len() as int);
    }
}

proof fn lemma_below_conjunct(s: Seq<TermView>, t: TermId, e: TermId, n: int)
    requires
        t < s.len(),
        s[t as int].op == Op::And,
        n <= s[t as int].args.len(),
        equations_below(s, t, n).contains(e),
    ensures
        conjunct(s, t, e),
        s[e as int].op == Op::Eq && e < s.len(),
    decreases t, 0int, n,
{
    let es = equations_below(s, t, n);
    let j = es.index_of(e);
    assert(es[j] == e);
    if n > 0 && s[t as int].args[n - 1] < t {
        let front = equations_below(s, t, n - 1);
        let last = equations(s, s[t as int].args[n - 1]);
        if j < front.len() {
            assert(front[j] == e);
            lemma_below_conjunct(s, t, e, n - 1);
        } else {
            assert(last[j - front.len()] == e);
            lemma_collected_conjunct(s, s[t as int].args[n - 1], e);
        }
    }
}

/// The facts hold what the equation says of texts and concatenations, and a length
/// for what it gives one.
spec fn covers(s: Seq<TermView>, names: Seq<String>, f: FactsView, e: TermId) -> bool {
    let l = s[e as int].args[0];
    let r = s[e as int].args[1];
    &&& literal_equation(s, names, l, r) matches Some((v, lit)) ==> f.assigned.contains_key(v)
        && f.assigned[v] == lit
    &&& concat_equation(s, names, l, r) matches Some(c) ==> f.concats.contains(c)
    &&& length_given(s, l, r) matches Some((v, n)) ==> f.lengths.contains_key(v)
    &&& known_replacement(s, names, l, r, true, Map::empty()) matches Some(p)
        ==> f.replaced.contains(p)
}

/// The equation gives the string its length.
spec fn gives_length(s: Seq<TermView>, e: TermId, v: TermId, n: i64) -> bool {
    length_given(s, s[e as int].args[0], s[e as int].args[1]) == Some((v, n))
}

/// The facts hold those of `f`.
spec fn keeps(f: FactsView, g: FactsView) -> bool {
    &&& forall|v: TermId| #[trigger]
        f.assigned.contains_key(v) ==> g.assigned.contains_key(v) && g.assigned[v] == f.assigned[v]
    &&& forall|c: (Seq<TermId>, Seq<char>)| #[trigger]
        f.concats.contains(c) ==> g.concats.contains(c)
    &&& forall|v: TermId| #[trigger] f.lengths.contains_key(v) ==> g.lengths.contains_key(v)
    &&& forall|p: ReplacementView| #[trigger] f.replaced.contains(p) ==> g.replaced.contains(p)
}

proof fn lemma_noted(s: Seq<TermView>, names: Seq<String>, f: FactsView, e: TermId)
    ensures
        equation_noted(s, names, f, e) matches Some(g) ==> {
            &&& keeps(f, g)
            &&& covers(s, names, g, e)
            &&& forall|v: TermId| #[trigger]
                g.assigned.contains_key(v) ==> f.assigned.contains_key(v) || is_var(s, v)
            &&& forall|v: TermId| #[trigger]
                g.lengths.contains_key(v) ==> gives_length(s, e, v, g.lengths[v]) || (
                f.lengths.contains_key(v) && f.lengths[v] == g.lengths[v])
        },
{
    let l = s[e as int].args[0];
    let r = s[e as int].args[1];
    if let Some(g) = equation_noted(s, names, f, e) {
        if let Some(c) = concat_equation(s, names, l, r) {
            assert(g.concats[f.concats.len() as int] == c);
        }
        assert forall|c: (Seq<TermId>, Seq<char>)| #[trigger]
            f.concats.contains(c) implies g.concats.contains(c) by {
            let j = f.concats.index_of(c);
            assert(g.concats[j] == c);
        }
        if let Some(p) = known_replacement(s, names, l, r, true, g.assigned) {
            assert(g.replaced[f.replaced.len() as int] == p);
        }
        assert forall|p: ReplacementView| #[trigger]
            f.replaced.contains(p) implies g.replaced.contains(p) by {
            let j = f.replaced.index_of(p);
            assert(g.replaced[j] == p);
        }
    }
}

proof fn lemma_keeps_covers(
    s: Seq<TermView>,
    names: Seq<String>,
    f: FactsView,
    g: FactsView,
    e: TermId,
)
    requires
        keeps(f, g),
        covers(s, names, f, e),
    ensures
        covers(s, names, g, e),
{
}

proof fn lemma_all_noted(s: Seq<TermView>, names: Seq<String>, f: FactsView, es: Seq<TermId>)
    ensures
        equations_noted(s, names, f, es) matches Some(g) ==> {
            &&& keeps(f, g)
            &&& forall|e: TermId| #[trigger] es.contains(e) ==> covers(s, names, g, e)
            &&& forall|v: TermId| #[trigger]
                g.assigned.contains_key(v) ==> f.assigned.contains_key(v) || is_var(s, v)
            &&& forall|v: TermId| #[trigger]
                g.lengths.contains_key(v) ==> (f.lengths.contains_key(v) && f.lengths[v]
                    == g.lengths[v]) || exists|e: TermId|
                    es.contains(e) && #[trigger] gives_length(s, e, v, g.lengths[v])
        },
    decreases es.len(),
{
    if es.len() > 0 {
        let front = es.drop_last();
        lemma_all_noted(s, names, f, front);
        if let Some(m) = equations_noted(s, names, f, front) {
            lemma_noted(s, names, m, es.last());
            if let Some(g) = equation_noted(s, names, m, es.last()) {
                assert forall|e: TermId| #[trigger] es.contains(e) implies covers(s, names, g, e) by {
                    let j = es.index_of(e);
                    assert(es[j] == e);
                    if j < front.len() {
                        assert(front[j] == e);
                        assert(front.contains(e));
                        lemma_keeps_covers(s, names, m, g, e);
                    }
                }
                assert forall|v: TermId| #[trigger] g.lengths.contains_key(v) implies (
                f.lengths.contains_key(v) && f.lengths[v] == g.lengths[v]) || exists|e: TermId|
                    es.contains(e) && #[trigger] gives_length(s, e, v, g.lengths[v]) by {
                    if gives_length(s, es.last(), v, g.lengths[v]) {
                        assert(es[es.len() - 1] == es.last());
                        assert(es.contains(es.last()));
                    } else {
                        assert(m.lengths.contains_key(v));
                        if !(f.lengths.contains_key(v) && f.lengths[v] == g.lengths[v]) {
                            let e = choose|e: TermId|
                                front.contains(e) && #[trigger] gives_length(s, e, v, m.lengths[v]);
                            let j = front.index_of(e);
                            assert(es[j] == e);
                            assert(es.contains(e));
                        }
                    }
                }
            }
        }
    }
}

/// The equation is a conjunct of one of the first `n` assertions.
spec fn asserted_upto(s: Seq<TermView>, given: Seq<TermId>, n: int, e: TermId) -> bool {
    exists|k: int| 0 <= k < n && equations(s, #[trigger] given[k]).contains(e)
}

proof fn lemma_facts(s: Seq<TermView>, names: Seq<String>, given: Seq<TermId>, n: int)
    requires
        0 <= n <= given.len(),
    ensures
        assertions_noted(s, names, given, n) matches Some(f) ==> {
            &&& forall|e: TermId| #[trigger]
                asserted_upto(s, given, n, e) ==> covers(s, names, f, e)
            &&& forall|v: TermId| #[trigger] f.assigned.contains_key(v) ==> is_var(s, v)
            &&& forall|v: TermId| #[trigger]
                f.lengths.contains_key(v) ==> exists|e: TermId|
                    asserted_upto(s, given, n, e) && #[trigger] gives_length(s, e, v, f.lengths[v])
        },
    decreases n,
{
    if n > 0 {
        lemma_facts(s, names, given, n - 1);
        let es = equations(s, given[n - 1]);
        if let Some(m) = assertions_noted(s, names, given, n - 1) {
            lemma_all_noted(s, names, m, es);
            if let Some(f) = equations_noted(s, names, m, es) {
                assert forall|e: TermId| #[trigger] asserted_upto(s, given, n, e) implies covers(
                    s,
                    names,
                    f,
                    e,
                ) by {
                    let k = choose|k: int|
                        0 <= k < n && equations(s, #[trigger] given[k]).contains(e);
                    if k < n - 1 {
                        assert(asserted_upto(s, given, n - 1, e));
                        lemma_keeps_covers(s, names, m, f, e);
                    } else {
                        assert(es.contains(e));
                    }
                }
                assert forall|v: TermId| #[trigger] f.lengths.contains_key(v) implies exists|
                    e: TermId,
                | asserted_upto(s, given, n, e) && #[trigger] gives_length(s, e, v, f.lengths[v]) by {
                    if m.lengths.contains_key(v) && m.lengths[v] == f.lengths[v] {
                        let e = choose|e: TermId|
                            asserted_upto(s, given, n - 1, e) && #[trigger] gives_length(
                                s,
                                e,
                                v,
                                m.lengths[v],
                            );
                        let k = choose|k: int|
                            0 <= k < n - 1 && equations(s, #[trigger] given[k]).contains(e);
                        assert(equations(s, given[k]).contains(e));
                        assert(asserted_upto(s, given, n, e));
                    } else {
                        let e = choose|e: TermId|
                            es.contains(e) && #[trigger] gives_length(s, e, v, f.lengths[v]);
                        assert(equations(s, given[n - 1]).contains(e));
                        assert(asserted_upto(s, given, n, e));
                    }
                }
            }
        }
    }
}

/// Resolving keeps the facts but for replacements, and those it keeps too.
spec fn resolves(f: FactsView, g: FactsView) -> bool {
    &&& g.assigned == f.assigned && g.lengths == f.lengths && g.concats == f.concats
    &&& forall|p: ReplacementView| #[trigger] f.replaced.contains(p) ==> g.replaced.contains(p)
}

spec fn resolved_of(
    s: Seq<TermView>,
    names: Seq<String>,
    f: FactsView,
    e: TermId,
) -> Option<ReplacementView> {
    known_replacement(s, names, s[e as int].args[0], s[e as int].args[1], false, f.assigned)
}

proof fn lemma_resolved(s: Seq<TermView>, names: Seq<String>, f: FactsView, e: TermId)
    ensures
        resolves(f, equation_resolved(s, names, f, e)),
        resolved_of(s, names, f, e) matches Some(p) ==> equation_resolved(
            s,
            names,
            f,
            e,
        ).replaced.contains(p),
{
    let g = equation_resolved(s, names, f, e);
    if let Some(p) = resolved_of(s, names, f, e) {
        if !f.replaced.contains(p) {
            assert(g.replaced[f.replaced.len() as int] == p);
            assert forall|q: ReplacementView| #[trigger]
                f.replaced.contains(q) implies g.replaced.contains(q) by {
                let j = f.replaced.index_of(q);
                assert(g.replaced[j] == q);
            }
        }
    }
}

proof fn lemma_all_resolved(s: Seq<TermView>, names: Seq<String>, f: FactsView, es: Seq<TermId>)
    ensures
        resolves(f, equations_resolved(s, names, f, es)),
        forall|e: TermId| #[trigger]
            es.contains(e) ==> (resolved_of(s, names, f, e) matches Some(p) ==> equations_resolved(
                s,
                names,
                f,
                es,
            ).replaced.contains(p)),
    decreases es.len(),
{
    if es.len() > 0 {
        let front = es.drop_last();
        lemma_all_resolved(s, names, f, front);
        let m = equations_resolved(s, names, f, front);
        lemma_resolved(s, names, m, es.last());
        assert forall|e: TermId| #[trigger] es.contains(e) implies (resolved_of(
            s,
            names,
            f,
            e,
        ) matches Some(p) ==> equations_resolved(s, names, f, es).replaced.contains(p)) by {
            let j = es.index_of(e);
            assert(es[j] == e);
            if j < front.len() {
                assert(front[j] == e);
                assert(front.contains(e));
            }
        }
    }
}

proof fn lemma_assertions_resolved(
    s: Seq<TermView>,
    names: Seq<String>,
    f: FactsView,
    given: Seq<TermId>,
    n: int,
)
    requires
        0 <= n <= given.len(),
    ensures
        resolves(f, assertions_resolved(s, names, f, given, n)),
        forall|e: TermId| #[trigger]
            asserted_upto(s, given, n, e) ==> (resolved_of(s, names, f, e) matches Some(p)
                ==> assertions_resolved(s, names, f, given, n).replaced.contains(p)),
    decreases n,
{
    if n > 0 {
        lemma_assertions_resolved(s, names, f, given, n - 1);
        let m = assertions_resolved(s, names, f, given, n - 1);
        let es = equations(s, given[n - 1]);
        lemma_all_resolved(s, names, m, es);
        assert forall|e: TermId| #[trigger] asserted_upto(s, given, n, e) implies (resolved_of(
            s,
            names,
            f,
            e,
        ) matches Some(p) ==> assertions_resolved(s, names, f, given, n).replaced.contains(p)) by {
            let k = choose|k: int| 0 <= k < n && equations(s, #[trigger] given[k]).contains(e);
            if k < n - 1 {
                assert(asserted_upto(s, given, n - 1, e));
            } else {
                assert(es.contains(e));
            }
        }
    }
}

/// The facts that a conflict is looked for in.
spec fn gathered(s: Seq<TermView>, names: Seq<String>, given: Seq<TermId>) -> FactsView {
    assertions_resolved(
        s,
        names,
        assertions_noted(s, names, given, given.len() as int)->0,
        given,
        given.len() as int,
    )
}

proof fn lemma_gathered(s: Seq<TermView>, names: Seq<String>, given: Seq<TermId>)
    requires
        terms_wf(s),
        forall|k: int| 0 <= k < given.len() ==> (#[trigger] given[k]) < s.len(),
        !strings_conflict(s, names, given),
    ensures
        ({
            let f = gathered(s, names, given);
            &&& !facts_conflict(s, names, f)
            &&& forall|v: TermId| #[trigger] f.assigned.contains_key(v) ==> is_var(s, v)
            &&& forall|a: TermId, b: TermId, e: TermId| #[trigger]
                states(s, given, e, a, b) ==> covers(s, names, f, e) && (resolved_of(
                    s,
                    names,
                    f,
                    e,
                ) matches Some(p) ==> f.replaced.contains(p))
            &&& forall|v: TermId| #[trigger]
                f.lengths.contains_key(v) ==> exists|e: TermId|
                    states(s, given, e, s[e as int].args[0], s[e as int].args[1])
                        && #[trigger] gives_length(s, e, v, f.lengths[v])
        }),
{
    let n = given.len() as int;
    lemma_facts(s, names, given, n);
    let m = assertions_noted(s, names, given, n)->0;
    lemma_assertions_resolved(s, names, m, given, n);
    let f = gathered(s, names, given);
    assert forall|a: TermId, b: TermId, e: TermId| #[trigger]
        states(s, given, e, a, b) implies covers(s, names, f, e) && (resolved_of(
        s,
        names,
        f,
        e,
    ) matches Some(p) ==> f.replaced.contains(p)) by {
        let k = choose|k: int| 0 <= k < given.len() && conjunct(s, #[trigger] given[k], e);
        lemma_conjunct_collected(s, given[k], e);
        assert(asserted_upto(s, given, n, e));
        assert(covers(s, names, m, e));
    }
    assert forall|v: TermId| #[trigger] f.lengths.contains_key(v) implies exists|e: TermId|
        states(s, given, e, s[e as int].args[0], s[e as int].args[1]) && #[trigger] gives_length(
            s,
            e,
            v,
            f.lengths[v],
        ) by {
        let e = choose|e: TermId|
            asserted_upto(s, given, n, e) && #[trigger] gives_length(s, e, v, m.lengths[v]);
        let k = choose|k: int| 0 <= k < n && equations(s, #[trigger] given[k]).contains(e);
        lemma_collected_conjunct(s, given[k], e);
        assert(states(s, given, e, s[e as int].args[0], s[e as int].args[1]));
    }
}

proof fn lemma_text_gathered(
    s: Seq<TermView>,
    names: Seq<String>,
    given: Seq<TermId>,
    t: TermId,
    text: Seq<char>,
)
    requires
        terms_wf(s),
        forall|k: int| 0 <= k < given.len() ==> (#[trigger] given[k]) < s.len(),
        !strings_conflict(s, names, given),
    ensures
        has_text(s, names, given, t, text) ==> operand_text(
            s,
            names,
            gathered(s, names, given),
            t,
        ) == Some(text),
        is_var(s, t) && equals_text(s, names, given, t, text) ==> gathered(
            s,
            names,
            given,
        ).assigned.contains_key(t) && gathered(s, names, given).assigned[t] == text,
{
    lemma_gathered(s, names, given);
    if is_var(s, t) && equals_text(s, names, given, t, text) {
        let c = choose|c: TermId| #[trigger]
            equated(s, given, t, c) && literal_text(s, names, c) == Some(text);
        let e = choose|e: TermId| #[trigger] states_either(s, given, e, t, c);
        let f = gathered(s, names, given);
        assert(literal_text(s, names, t) is None);
        if states(s, given, e, t, c) {
            assert(covers(s, names, f, e));
        } else {
            assert(states(s, given, e, c, t));
            assert(covers(s, names, f, e));
        }
    }
}

proof fn lemma_leaves_spelled(
    s: Seq<TermView>,
    names: Seq<String>,
    given: Seq<TermId>,
    w: spec_fn(TermId) -> Seq<char>,
    t: TermId,
)
    requires
        terms_wf(s),
        forall|k: int| 0 <= k < given.len() ==> (#[trigger] given[k]) < s.len(),
        !strings_conflict(s, names, given),
        spelled_by(s, names, given, w, t),
    ensures
        all_known(s, names, gathered(s, names, given), concat_leaves(s, t)),
        joined(s, names, gathered(s, names, given), concat_leaves(s, t)) == put_together(s, w, t),
    decreases t,
{
    let f = gathered(s, names, given);
    if t < s.len() && s[t as int].op == Op::StrConcat && s[t as int].args[0] < t
        && s[t as int].args[1] < t {
        let a = s[t as int].args[0];
        let b = s[t as int].args[1];
        lemma_leaves_spelled(s, names, given, w, a);
        lemma_leaves_spelled(s, names, given, w, b);
        lemma_joined_split(s, names, f, concat_leaves(s, a), concat_leaves(s, b));
        let ops = concat_leaves(s, t);
        assert forall|k: int| 0 <= k < ops.len() implies operand_text(
            s,
            names,
            f,
            #[trigger] ops[k],
        ) is Some by {
            let n = concat_leaves(s, a).len();
            if k < n {
                assert(ops[k] == concat_leaves(s, a)[k]);
            } else {
                assert(ops[k] == concat_leaves(s, b)[k - n]);
            }
        }
    } else {
        lemma_text_gathered(s, names, given, t, w(t));
        let ops = seq![t];
        assert(ops.drop_last() =~= Seq::<TermId>::empty());
        assert(joined(s, names, f, Seq::<TermId>::empty()) == Seq::<char>::empty());
        assert(joined(s, names, f, ops) =~= w(t));
    }
}

proof fn lemma_concat_gathered(
    s: Seq<TermView>,
    names: Seq<String>,
    given: Seq<TermId>,
    t: TermId,
    text: Seq<char>,
)
    requires
        terms_wf(s),
        forall|k: int| 0 <= k < given.len() ==> (#[trigger] given[k]) < s.len(),
        !strings_conflict(s, names, given),
        t < s.len() && s[t as int].op == Op::StrConcat,
        equals_text(s, names, given, t, text),
    ensures
        !concat_conflict(s, names, gathered(s, names, given), concat_leaves(s, t), text),
{
    lemma_gathered(s, names, given);
    let f = gathered(s, names, given);
    let c = choose|c: TermId| #[trigger]
        equated(s, given, t, c) && literal_text(s, names, c) == Some(text);
    let e = choose|e: TermId| #[trigger] states_either(s, given, e, t, c);
    if states(s, given, e, t, c) {
        assert(covers(s, names, f, e));
    } else {
        assert(states(s, given, e, c, t));
        assert(covers(s, names, f, e));
    }
    let pair = (concat_leaves(s, t), text);
    assert(f.concats.contains(pair));
    let k = f.concats.index_of(pair);
    assert(f.concats[k] == pair);
}

/// A concatenation of texts that are known is compared with its text: where the
/// assertions give each operand a text, and the concatenation a text other than
/// those put together, they conflict.
pub proof fn concatenations_are_compared(
    s: Seq<TermView>,
    names: Seq<String>,
    given: Seq<TermId>,
    w: spec_fn(TermId) -> Seq<char>,
    t: TermId,
    text: Seq<char>,
)
    requires
        terms_wf(s),
        forall|k: int| 0 <= k < given.len() ==> (#[trigger] given[k]) < s.len(),
        t < s.len() && s[t as int].op == Op::StrConcat,
        spelled_by(s, names, given, w, t),
        equals_text(s, names, given, t, text),
        put_together(s, w, t) != text,
    ensures
        strings_conflict(s, names, given),
{
    if !strings_conflict(s, names, given) {
        lemma_leaves_spelled(s, names, given, w, t);
        lemma_concat_gathered(s, names, given, t, text);
    }
}

proof fn lemma_front(
    s: Seq<TermView>,
    names: Seq<String>,
    f: FactsView,
    a: Seq<TermId>,
    b: Seq<TermId>,
)
    requires
        all_known(s, names, f, a),
    ensures
        known_front(s, names, f, a + b) >= a.len(),
    decreases a.len() + b.len(),
{
    let ops = a + b;
    if b.len() > 0 {
        assert(ops.drop_last() =~= a + b.drop_last());
        lemma_front(s, names, f, a, b.drop_last());
    } else if a.len() > 0 {
        assert(ops =~= a);
        assert(a.drop_last() + Seq::<TermId>::empty() =~= a.drop_last());
        assert(operand_text(s, names, f, a[a.len() - 1]) is Some);
        assert forall|k: int| 0 <= k < a.drop_last().len() implies operand_text(
            s,
            names,
            f,
            #[trigger] a.drop_last()[k],
        ) is Some by {
            assert(a.drop_last()[k] == a[k]);
        }
        lemma_front(s, names, f, a.drop_last(), Seq::empty());
        lemma_known_front(s, names, f, a.drop_last());
    }
}

proof fn lemma_back(
    s: Seq<TermView>,
    names: Seq<String>,
    f: FactsView,
    a: Seq<TermId>,
    b: Seq<TermId>,
)
    requires
        all_known(s, names, f, b),
    ensures
        known_back(s, names, f, a + b) >= b.len(),
    decreases b.len(),
{
    let ops = a + b;
    lemma_known_front(s, names, f, ops);
    if b.len() > 0 {
        assert(ops.drop_last() =~= a + b.drop_last());
        assert(ops.last() == b[b.len() - 1]);
        assert forall|k: int| 0 <= k < b.drop_last().len() implies operand_text(
            s,
            names,
            f,
            #[trigger] b.drop_last()[k],
        ) is Some by {
            assert(b.drop_last()[k] == b[k]);
        }
        lemma_back(s, names, f, a, b.drop_last());
    }
}

/// A text that a concatenation begins with is compared with the beginning of the
/// text that the concatenation is given.
pub proof fn beginnings_are_compared(
    s: Seq<TermView>,
    names: Seq<String>,
    given: Seq<TermId>,
    w: spec_fn(TermId) -> Seq<char>,
    t: TermId,
    text: Seq<char>,
)
    requires
        terms_wf(s),
        forall|k: int| 0 <= k < given.len() ==> (#[trigger] given[k]) < s.len(),
        t < s.len() && s[t as int].op == Op::StrConcat,
        spelled_by(s, names, given, w, s[t as int].args[0]),
        equals_text(s, names, given, t, text),
        !is_prefix(put_together(s, w, s[t as int].args[0]), text),
    ensures
        strings_conflict(s, names, given),
{
    if !strings_conflict(s, names, given) {
        assert(node_below(s, t as int));
        let f = gathered(s, names, given);
        let a = concat_leaves(s, s[t as int].args[0]);
        let b = concat_leaves(s, s[t as int].args[1]);
        let ops = concat_leaves(s, t);
        let start = put_together(s, w, s[t as int].args[0]);
        lemma_leaves_spelled(s, names, given, w, s[t as int].args[0]);
        lemma_concat_gathered(s, names, given, t, text);
        lemma_joined_split(s, names, f, a, b);
        lemma_front(s, names, f, a, b);
        lemma_known_front(s, names, f, ops);
        if all_known(s, names, f, ops) {
            assert((start + joined(s, names, f, b)).take(start.len() as int) =~= start);
        } else {
            let n = known_front(s, names, f, ops);
            let more = ops.subrange(a.len() as int, n);
            assert(ops.take(n) =~= a + more);
            lemma_joined_split(s, names, f, a, more);
            let front = joined(s, names, f, ops.take(n));
            assert(front == start + joined(s, names, f, more));
            assert(is_prefix(front, text));
            assert(text.take(start.len() as int) =~= text.take(front.len() as int).take(
                start.len() as int,
            ));
            assert(front.take(start.len() as int) =~= start);
        }
    }
}

proof fn lemma_end_fits(
    s: Seq<TermView>,
    names: Seq<String>,
    f: FactsView,
    a: Seq<TermId>,
    b: Seq<TermId>,
    text: Seq<char>,
)
    requires
        all_known(s, names, f, b),
        !concat_conflict(s, names, f, a + b, text),
    ensures
        exists|before: Seq<char>| text == #[trigger] (before + joined(s, names, f, b)),
{
    let ops = a + b;
    let end = joined(s, names, f, b);
    lemma_joined_split(s, names, f, a, b);
    lemma_back(s, names, f, a, b);
    lemma_known_front(s, names, f, ops);
    if all_known(s, names, f, ops) {
        assert(text == joined(s, names, f, a) + end);
    } else {
        let n = ops.len() - known_back(s, names, f, ops);
        let more = ops.subrange(n, a.len() as int);
        assert(ops.skip(n) =~= more + b);
        lemma_joined_split(s, names, f, more, b);
        let back = joined(s, names, f, ops.skip(n));
        assert(is_suffix(back, text));
        let before = text.take(text.len() - back.len()) + joined(s, names, f, more);
        assert(text =~= text.take(text.len() - back.len()) + text.skip(text.len() - back.len()));
        assert(text =~= before + end);
    }
}

/// A text that a concatenation ends with is compared with the end of the text that
/// the concatenation is given.
pub proof fn ends_are_compared(
    s: Seq<TermView>,
    names: Seq<String>,
    given: Seq<TermId>,
    w: spec_fn(TermId) -> Seq<char>,
    t: TermId,
    text: Seq<char>,
)
    requires
        terms_wf(s),
        forall|k: int| 0 <= k < given.len() ==> (#[trigger] given[k]) < s.len(),
        t < s.len() && s[t as int].op == Op::StrConcat,
        spelled_by(s, names, given, w, s[t as int].args[1]),
        equals_text(s, names, given, t, text),
        !(exists|before: Seq<char>|
            text == #[trigger] (before + put_together(s, w, s[t as int].args[1]))),
    ensures
        strings_conflict(s, names, given),
{
    if !strings_conflict(s, names, given) {
        assert(node_below(s, t as int));
        let f = gathered(s, names, given);
        let a = concat_leaves(s, s[t as int].args[0]);
        let b = concat_leaves(s, s[t as int].args[1]);
        lemma_leaves_spelled(s, names, given, w, s[t as int].args[1]);
        lemma_concat_gathered(s, names, given, t, text);
        assert(concat_leaves(s, t) == a + b);
        lemma_end_fits(s, names, f, a, b, text);
    }
}

/// A variable that is given two texts makes a conflict.
pub proof fn different_texts_conflict(
    s: Seq<TermView>,
    names: Seq<String>,
    given: Seq<TermId>,
    v: TermId,
    one: Seq<char>,
    other: Seq<char>,
)
    requires
        terms_wf(s),
        forall|k: int| 0 <= k < given.len() ==> (#[trigger] given[k]) < s.len(),
        is_var(s, v),
        equals_text(s, names, given, v, one),
        equals_text(s, names, given, v, other),
        one != other,
    ensures
        strings_conflict(s, names, given),
{
    if !strings_conflict(s, names, given) {
        lemma_text_gathered(s, names, given, v, one);
        lemma_text_gathered(s, names, given, v, other);
    }
}

/// The assertions say that the string has the length.
pub open spec fn has_length(s: Seq<TermView>, given: Seq<TermId>, v: TermId, n: int) -> bool {
    exists|l: TermId, c: TermId| #[trigger]
        equated(s, given, l, c) && l < s.len() && s[l as int].op == Op::StrLen
            && s[l as int].args[0] == v && int_literal(s, c) == Some(n as i64) && n as i64 == n
}

proof fn lemma_length_gathered(
    s: Seq<TermView>,
    names: Seq<String>,
    given: Seq<TermId>,
    v: TermId,
)
    requires
        terms_wf(s),
        forall|k: int| 0 <= k < given.len() ==> (#[trigger] given[k]) < s.len(),
        !strings_conflict(s, names, given),
    ensures
        ({
            let f = gathered(s, names, given);
            &&& f.lengths.contains_key(v) ==> has_length(s, given, v, f.lengths[v] as int)
            &&& (exists|n: int| has_length(s, given, v, n)) ==> f.lengths.contains_key(v)
        }),
{
    lemma_gathered(s, names, given);
    let f = gathered(s, names, given);
    if f.lengths.contains_key(v) {
        let e = choose|e: TermId|
            states(s, given, e, s[e as int].args[0], s[e as int].args[1])
                && #[trigger] gives_length(s, e, v, f.lengths[v]);
        let l = s[e as int].args[0];
        let r = s[e as int].args[1];
        assert(states_either(s, given, e, l, r) && states_either(s, given, e, r, l));
        assert(equated(s, given, l, r) && equated(s, given, r, l));
    }
    if exists|n: int| has_length(s, given, v, n) {
        let n = choose|n: int| has_length(s, given, v, n);
        let (l, c) = choose|l: TermId, c: TermId| #[trigger]
            equated(s, given, l, c) && l < s.len() && s[l as int].op == Op::StrLen
                && s[l as int].args[0] == v && int_literal(s, c) == Some(n as i64) && n as i64 == n;
        let e = choose|e: TermId| #[trigger] states_either(s, given, e, l, c);
        if states(s, given, e, l, c) {
            assert(covers(s, names, f, e));
        } else {
            assert(states(s, given, e, c, l));
            assert(covers(s, names, f, e));
        }
    }
}

/// A variable with a text, whose length is said to be another, makes a conflict.
pub proof fn lengths_are_compared(
    s: Seq<TermView>,
    names: Seq<String>,
    given: Seq<TermId>,
    v: TermId,
    text: Seq<char>,
)
    requires
        terms_wf(s),
        forall|k: int| 0 <= k < given.len() ==> (#[trigger] given[k]) < s.len(),
        is_var(s, v),
        equals_text(s, names, given, v, text),
        exists|n: int| has_length(s, given, v, n),
        !has_length(s, given, v, text.len() as int),
    ensures
        strings_conflict(s, names, given),
{
    if !strings_conflict(s, names, given) {
        let f = gathered(s, names, given);
        lemma_gathered(s, names, given);
        lemma_text_gathered(s, names, given, v, text);
        lemma_length_gathered(s, names, given, v);
        assert(!length_conflict(f, v));
    }
}

/// The numbers `n` are lengths of the operands of the concatenation as far as the
/// assertions tell: of texts, of variables whose length they give, or 0.
pub open spec fn measured_by(
    s: Seq<TermView>,
    names: Seq<String>,
    given: Seq<TermId>,
    n: spec_fn(TermId) -> int,
    t: TermId,
) -> bool
    decreases t,
{
    if t < s.len() && s[t as int].op == Op::StrConcat && s[t as int].args[0] < t
        && s[t as int].args[1] < t {
        measured_by(s, names, given, n, s[t as int].args[0]) && measured_by(
            s,
            names,
            given,
            n,
            s[t as int].args[1],
        )
    } else {
        ||| n(t) == 0
        ||| exists|text: Seq<char>| #[trigger]
            has_text(s, names, given, t, text) && text.len() == n(t)
        ||| is_var(s, t) && has_length(s, given, t, n(t)) && forall|k: int|
            has_length(s, given, t, k) ==> k == n(t)
    }
}

/// The lengths of the operands together.
pub open spec fn measure(s: Seq<TermView>, n: spec_fn(TermId) -> int, t: TermId) -> int
    decreases t,
{
    if t < s.len() && s[t as int].op == Op::StrConcat && s[t as int].args[0] < t
        && s[t as int].args[1] < t {
        measure(s, n, s[t as int].args[0]) + measure(s, n, s[t as int].args[1])
    } else {
        n(t)
    }
}

proof fn lemma_known_split(
    s: Seq<TermView>,
    names: Seq<String>,
    f: FactsView,
    a: Seq<TermId>,
    b: Seq<TermId>,
)
    ensures
        known_length(s, names, f, a + b) == known_length(s, names, f, a) + known_length(
            s,
            names,
            f,
            b,
        ),
    decreases b.len(),
{
    if b.len() == 0 {
        assert(a + b =~= a);
    } else {
        assert((a + b).drop_last() =~= a + b.drop_last());
        lemma_known_split(s, names, f, a, b.drop_last());
    }
}

proof fn lemma_measured(
    s: Seq<TermView>,
    names: Seq<String>,
    given: Seq<TermId>,
    n: spec_fn(TermId) -> int,
    t: TermId,
)
    requires
        terms_wf(s),
        forall|k: int| 0 <= k < given.len() ==> (#[trigger] given[k]) < s.len(),
        !strings_conflict(s, names, given),
        forall|v: TermId, k: int| has_length(s, given, v, k) ==> k >= 0,
        measured_by(s, names, given, n, t),
    ensures
        known_length(s, names, gathered(s, names, given), concat_leaves(s, t)) >= measure(s, n, t),
    decreases t,
{
    let f = gathered(s, names, given);
    if t < s.len() && s[t as int].op == Op::StrConcat && s[t as int].args[0] < t
        && s[t as int].args[1] < t {
        let a = s[t as int].args[0];
        let b = s[t as int].args[1];
        lemma_measured(s, names, given, n, a);
        lemma_measured(s, names, given, n, b);
        lemma_known_split(s, names, f, concat_leaves(s, a), concat_leaves(s, b));
    } else {
        lemma_gathered(s, names, given);
        lemma_length_gathered(s, names, given, t);
        let ops = seq![t];
        assert(ops.drop_last() =~= Seq::<TermId>::empty());
        assert(known_length(s, names, f, Seq::<TermId>::empty()) == 0);
        assert(!length_conflict(f, t));
        if exists|text: Seq<char>| #[trigger]
            has_text(s, names, given, t, text) && text.len() == n(t) {
            let text = choose|text: Seq<char>| #[trigger]
                has_text(s, names, given, t, text) && text.len() == n(t);
            lemma_text_gathered(s, names, given, t, text);
        } else if n(t) != 0 {
            assert(literal_text(s, names, t) is None);
            assert(f.lengths.contains_key(t));
            assert(has_length(s, given, t, f.lengths[t] as int));
        }
    }
}

proof fn lemma_joined_length(
    s: Seq<TermView>,
    names: Seq<String>,
    f: FactsView,
    ops: Seq<TermId>,
)
    requires
        all_known(s, names, f, ops),
    ensures
        joined(s, names, f, ops).len() == known_length(s, names, f, ops),
    decreases ops.len(),
{
    if ops.len() > 0 {
        let front = ops.drop_last();
        assert forall|k: int| 0 <= k < front.len() implies operand_text(
            s,
            names,
            f,
            #[trigger] front[k],
        ) is Some by {
            assert(front[k] == ops[k]);
        }
        assert(operand_text(s, names, f, ops[ops.len() - 1]) is Some);
        lemma_joined_length(s, names, f, front);
    }
}

/// A concatenation whose operands are together longer than its text makes a
/// conflict.
pub proof fn long_concatenations_conflict(
    s: Seq<TermView>,
    names: Seq<String>,
    given: Seq<TermId>,
    n: spec_fn(TermId) -> int,
    t: TermId,
    text: Seq<char>,
)
    requires
        terms_wf(s),
        forall|k: int| 0 <= k < given.len() ==> (#[trigger] given[k]) < s.len(),
        forall|v: TermId, k: int| has_length(s, given, v, k) ==> k >= 0,
        t < s.len() && s[t as int].op == Op::StrConcat,
        measured_by(s, names, given, n, t),
        equals_text(s, names, given, t, text),
        measure(s, n, t) > text.len(),
    ensures
        strings_conflict(s, names, given),
{
    if !strings_conflict(s, names, given) {
        let f = gathered(s, names, given);
        lemma_measured(s, names, given, n, t);
        lemma_concat_gathered(s, names, given, t, text);
        if all_known(s, names, f, concat_leaves(s, t)) {
            lemma_joined_length(s, names, f, concat_leaves(s, t));
        }
    }
}

/// A replacement of a known text that is there is compared with the text that its
/// result is given.
pub proof fn replacements_are_compared(
    s: Seq<TermView>,
    names: Seq<String>,
    given: Seq<TermId>,
    y: TermId,
    t: TermId,
    text: Seq<char>,
    pattern: Seq<char>,
    by: Seq<char>,
    result: Seq<char>,
)
    requires
        terms_wf(s),
        forall|k: int| 0 <= k < given.len() ==> (#[trigger] given[k]) < s.len(),
        t < s.len() && s[t as int].op == Op::StrReplaceAll,
        has_text(s, names, given, s[t as int].args[0], text),
        literal_text(s, names, s[t as int].args[1]) == Some(pattern),
        literal_text(s, names, s[t as int].args[2]) == Some(by),
        equated(s, given, y, t),
        is_var(s, y),
        equals_text(s, names, given, y, result),
        pattern.len() > 0,
        pattern != by,
        occurs(pattern, text),
        replaced_all(text, pattern, by) != result,
    ensures
        strings_conflict(s, names, given),
{
    if !strings_conflict(s, names, given) {
        lemma_gathered(s, names, given);
        let f = gathered(s, names, given);
        let source = s[t as int].args[0];
        lemma_text_gathered(s, names, given, y, result);
        lemma_text_gathered(s, names, given, source, text);
        let e = choose|e: TermId| #[trigger] states_either(s, given, e, y, t);
        if !states(s, given, e, y, t) {
            assert(states(s, given, e, t, y));
        }
        assert(covers(s, names, f, e));
        let p = ReplacementView { result: y, source, text, pattern, by };
        if literal_text(s, names, source) is Some {
            assert(known_replacement(
                s,
                names,
                s[e as int].args[0],
                s[e as int].args[1],
                true,
                Map::empty(),
            ) == Some(p));
        } else {
            assert(resolved_of(s, names, f, e) == Some(p));
        }
        assert(f.replaced.contains(p));
        let k = f.replaced.index_of(p);
        assert(f.replaced[k] == p);
        assert(replace_conflict(f, f.replaced[k]));
    }
}

/// Replacing goes from the left: up to the first occurrence nothing changes, the
/// occurrence is replaced, and what is behind it is replaced alike.
pub proof fn replacing_goes_from_the_left(
    text: Seq<char>,
    pattern: Seq<char>,
    by: Seq<char>,
    k: int,
)
    requires
        pattern.len() > 0,
        occurs_at(pattern, text, k),
        forall|j: int| 0 <= j < k ==> !occurs_at(pattern, text, j),
    ensures
        replaced_all(text, pattern, by) == text.take(k) + by + replaced_all(
            text.skip(k + pattern.len()),
            pattern,
            by,
        ),
    decreases k,
{
    if k == 0 {
        assert(text.take(pattern.len() as int) =~= text.subrange(0, pattern.len() as int));
        assert(text.take(0) + by =~= by);
    } else {
        assert(!occurs_at(pattern, text, 0));
        assert(text.take(pattern.len() as int) =~= text.subrange(0, pattern.len() as int));
        let rest = text.skip(1);
        assert(rest.subrange(k - 1, k - 1 + pattern.len()) =~= text.subrange(
            k,
            k + pattern.len(),
        ));
        assert(occurs_at(pattern, rest, k - 1));
        assert forall|j: int| 0 <= j < k - 1 implies !occurs_at(pattern, rest, j) by {
            assert(rest.subrange(j, j + pattern.len()) =~= text.subrange(
                j + 1,
                j + 1 + pattern.len(),
            ));
            assert(!occurs_at(pattern, text, j + 1));
        }
        replacing_goes_from_the_left(rest, pattern, by, k - 1);
        assert(rest.skip(k - 1 + pattern.len()) =~= text.skip(k + pattern.len()));
        assert(seq![text[0]] + rest.take(k - 1) =~= text.take(k));
        assert(replaced_all(text, pattern, by) =~= text.take(k) + by + replaced_all(
            text.skip(k + pattern.len()),
            pattern,
            by,
        ));
    }
}

/// A text without the pattern stays as it is.
pub proof fn replacing_keeps_other_texts(text: Seq<char>, pattern: Seq<char>, by: Seq<char>)
    requires
        !occurs(pattern, text),
    ensures
        replaced_all(text, pattern, by) == text,
    decreases text.len(),
{
    if text.len() > 0 && pattern.len() > 0 {
        assert(!occurs_at(pattern, text, 0));
        if pattern.len() <= text.len() {
            assert(text.take(pattern.len() as int) =~= text.subrange(0, pattern.len() as int));
        }
        let rest = text.skip(1);
        assert forall|j: int| !occurs_at(pattern, rest, j) by {
            if 0 <= j && j + pattern.len() <= rest.len() {
                assert(rest.subrange(j, j + pattern.len()) =~= text.subrange(
                    j + 1,
                    j + 1 + pattern.len(),
                ));
                assert(!occurs_at(pattern, text, j + 1));
            }
        }
        replacing_keeps_other_texts(rest, pattern, by);
        assert(seq![text[0]] + rest =~= text);
    }
}

/// A term with a string operation in it is left to the theory of strings.
pub proof fn string_operations_need_the_theory(s: Seq<TermView>, t: TermId, x: TermId)
    requires
        crate::walk::subterm(s, t, x),
        x < s.len(),
    ensures
        match s[x as int].op {
            Op::StrConcat | Op::StrLen | Op::StrSubstr | Op::StrAt | Op::StrContains
            | Op::StrPrefixOf | Op::StrSuffixOf | Op::StrIndexOf | Op::StrReplace
            | Op::StrReplaceAll | Op::StrToInt | Op::IntToStr | Op::StrInRe => has_string_atom(
                s,
                t,
            ),
            _ => true,
        },
        has_string_atom(s, t) ==> exists|y: TermId| #[trigger] crate::walk::subterm(s, t, y) && y
            < s.len() && s[y as int].op != Op::StringLit && s[y as int].op != Op::Var
            && s[y as int].op != Op::Eq,
{
}

} // verus!
