//! What commands and their answers amount to.

use crate::commands::{
    answered, asks_encoding, assertion_entered, body_equated, const_defined, const_written,
    executed, option_set, piece_kept, pieces_from, popped_once, popped_times, pushed, pushed_times,
    runs, Command, Reply, Request, Step,
};
use crate::constructors::eq_built;
use crate::context::{shortened, Context};
use crate::declared::{DeclaredConst, DeclaredFun};
use crate::replies::{
    assignment_parts, info_text, joined, listed, model_lines, model_text, plain_key, says,
    statistics_text, word_named,
};
use crate::search::SolverResult;
use crate::semantics::{holds, Interp};
use crate::solver::{SolverConfig, Statistics, TheoryMode};
use crate::strings::{occurs, occurs_at};
use crate::terms::{comparable, terms_wf, Op, SortId, TermId, TermView, BOOL_SORT};
use crate::text::{decimal, decimals_read_back, digit, lemma_trimmed, white};
use vstd::prelude::*;

verus! {

proof fn lemma_word_read(n: u64)
    ensures
        word_named(decimal(n as nat)) == Some(n),
{
    decimals_read_back(n as nat);
    let d = decimal(n as nat);
    assert(digit(d[0]) is Some);
    assert(digit(d[d.len() - 1]) is Some);
    lemma_trimmed(d);
    assert(d[0] != '+');
}

proof fn lemma_keys()
    ensures
        "timeout"@.len() == 7 && "simplify"@.len() == 8 && "produce-proofs"@.len() == 14,
        "produce-unsat-cores"@.len() == 19,
        "max-conflicts"@.len() == 13 && "max_conflicts"@.len() == 13,
        "max-decisions"@.len() == 13 && "max_decisions"@.len() == 13,
        "theory-mode"@.len() == 11 && "theory_mode"@.len() == 11,
        "random-seed"@.len() == 11 && "random_seed"@.len() == 11,
        "max-conflicts"@[4] == 'c' && "max_conflicts"@[4] == 'c',
        "max-decisions"@[4] == 'd' && "max_decisions"@[4] == 'd',
        "theory-mode"@[0] == 't' && "theory_mode"@[0] == 't',
        "random-seed"@[0] == 'r' && "random_seed"@[0] == 'r',
{
    reveal_strlit("timeout");
    reveal_strlit("simplify");
    reveal_strlit("produce-proofs");
    reveal_strlit("produce-unsat-cores");
    reveal_strlit("max-conflicts");
    reveal_strlit("max_conflicts");
    reveal_strlit("max-decisions");
    reveal_strlit("max_decisions");
    reveal_strlit("theory-mode");
    reveal_strlit("theory_mode");
    reveal_strlit("random-seed");
    reveal_strlit("random_seed");
}

/// A limit that is set to a number is that number, and nothing else of the
/// configuration changes.
pub proof fn limits_are_set(a: &Context, b: &Context, key: Seq<char>, n: u64)
    requires
        option_set(a, b, key, decimal(n as nat)),
    ensures
        key == "timeout"@ ==> b.solver.config == (SolverConfig {
            timeout_ms: n,
            ..a.solver.config
        }) && b.random_seed == a.random_seed,
        key == "max-conflicts"@ || key == "max_conflicts"@ ==> b.solver.config == (SolverConfig {
            max_conflicts: n,
            ..a.solver.config
        }) && b.random_seed == a.random_seed,
        key == "max-decisions"@ || key == "max_decisions"@ ==> b.solver.config == (SolverConfig {
            max_decisions: n,
            ..a.solver.config
        }) && b.random_seed == a.random_seed,
        key == "random-seed"@ || key == "random_seed"@ ==> b.random_seed == n && b.solver.config
            == a.solver.config,
{
    lemma_word_read(n);
    lemma_keys();
}

/// A switch is on after it was set to `true`, and off after it was set to `false`.
pub proof fn switches_are_set(a: &Context, b: &Context, key: Seq<char>, on: bool)
    requires
        option_set(
            a,
            b,
            key,
            if on {
                "true"@
            } else {
                "false"@
            },
        ),
    ensures
        key == "produce-proofs"@ ==> b.solver.config == (SolverConfig {
            proof: on,
            ..a.solver.config
        }) && b.solver.produce_unsat_cores == a.solver.produce_unsat_cores,
        key == "simplify"@ ==> b.solver.config == (SolverConfig {
            simplify: on,
            ..a.solver.config
        }) && b.solver.produce_unsat_cores == a.solver.produce_unsat_cores,
        key == "produce-unsat-cores"@ ==> b.solver.produce_unsat_cores == on && b.solver.config
            == a.solver.config,
{
    reveal_strlit("true");
    reveal_strlit("false");
    assert("true"@.len() != "false"@.len());
    lemma_keys();
}

/// The theory mode is the one that is named, in whatever case.
pub proof fn modes_are_set(a: &Context, b: &Context, key: Seq<char>, value: Seq<char>)
    requires
        option_set(a, b, key, value),
        key == "theory-mode"@ || key == "theory_mode"@,
        value == "lazy"@ || value == "LAZY"@ || value == "eager"@ || value == "EAGER"@,
    ensures
        b.solver.config == (SolverConfig {
            theory_mode: if value == "lazy"@ || value == "LAZY"@ {
                TheoryMode::Lazy
            } else {
                TheoryMode::Eager
            },
            ..a.solver.config
        }),
{
    reveal_strlit("lazy");
    reveal_strlit("LAZY");
    reveal_strlit("eager");
    reveal_strlit("EAGER");
    lemma_keys();
    lemma_trimmed(value);
    if value == "lazy"@ || value == "LAZY"@ {
        assert(says(value, "lazy"@));
    } else {
        assert(value.len() == 5);
        assert(says(value, "eager"@));
    }
}

/// An option that was set is given back.
pub proof fn options_are_given_back(
    a: &Context,
    b: &Context,
    c: &Context,
    key: String,
    value: String,
    step: Step,
    said: Step,
)
    requires
        plain_key(key@) == key@,
        executed(a, Command::SetOption(key, value), b, step),
        executed(b, Command::GetOption(key), c, said),
    ensures
        *c == *b,
        said matches Step::Say(text) && text@ == value@,
{
}

/// The lists of a context that scopes cut back, with the marks.
pub struct Lists {
    pub assertions: Seq<TermId>,
    pub consts: Seq<DeclaredConst>,
    pub funs: Seq<DeclaredFun>,
    pub assertion_marks: Seq<usize>,
    pub const_marks: Seq<usize>,
    pub fun_marks: Seq<usize>,
}

pub open spec fn lists_of(c: &Context) -> Lists {
    Lists {
        assertions: c.assertions@,
        consts: c.declared_consts@,
        funs: c.declared_funs@,
        assertion_marks: c.assertion_stack@,
        const_marks: c.const_stack@,
        fun_marks: c.fun_stack@,
    }
}

spec fn cut_once(x: Lists) -> Lists {
    if x.assertion_marks.len() == 0 {
        x
    } else {
        Lists {
            assertions: shortened(x.assertions, x.assertion_marks.last() as int),
            consts: shortened(x.consts, x.const_marks.last() as int),
            funs: shortened(x.funs, x.fun_marks.last() as int),
            assertion_marks: x.assertion_marks.drop_last(),
            const_marks: x.const_marks.drop_last(),
            fun_marks: x.fun_marks.drop_last(),
        }
    }
}

spec fn cut_times(x: Lists, n: int) -> Lists
    decreases n,
{
    if n <= 0 {
        x
    } else {
        cut_once(cut_times(x, n - 1))
    }
}

proof fn lemma_cut_first(x: Lists, n: int)
    requires
        n > 0,
    ensures
        cut_times(x, n) == cut_times(cut_once(x), n - 1),
    decreases n,
{
    if n > 1 {
        lemma_cut_first(x, n - 1);
    } else {
        assert(cut_times(x, 0) == x);
    }
}

proof fn lemma_popped_lists(a: &Context, n: int, b: &Context)
    requires
        popped_times(a, n, b),
    ensures
        lists_of(b) == cut_times(lists_of(a), n),
    decreases n,
{
    if n > 0 {
        let c = choose|c: Context| popped_times(a, n - 1, &c) && #[trigger] popped_once(&c, b);
        lemma_popped_lists(a, n - 1, &c);
    }
}

proof fn lemma_push_then_cut(a: &Context, n: int, b: &Context)
    requires
        n >= 0,
        pushed_times(a, n, b),
    ensures
        cut_times(lists_of(b), n) == lists_of(a),
        b.assertion_stack@.len() == a.assertion_stack@.len() + n,
    decreases n,
{
    if n > 0 {
        let p = choose|p: Context| pushed_times(a, n - 1, &p) && #[trigger] pushed(&p, b);
        lemma_push_then_cut(a, n - 1, &p);
        lemma_cut_first(lists_of(b), n);
        assert(b.assertion_stack@.drop_last() =~= p.assertion_stack@);
        assert(b.const_stack@.drop_last() =~= p.const_stack@);
        assert(b.fun_stack@.drop_last() =~= p.fun_stack@);
        assert(cut_once(lists_of(b)) == lists_of(&p));
    }
}

/// Closing as many scopes as were opened gives back the assertions, the
/// declarations and the scopes that were open before.
pub proof fn closing_undoes_opening_many(a: &Context, n: int, b: &Context, c: &Context)
    requires
        n >= 0,
        pushed_times(a, n, b),
        popped_times(b, n, c),
    ensures
        lists_of(c) == lists_of(a),
        b.assertion_stack@.len() == a.assertion_stack@.len() + n,
{
    lemma_push_then_cut(a, n, b);
    lemma_popped_lists(b, n, c);
}

/// What is said of a check is its verdict, and the context remembers it: `sat` only
/// where no array atom was left open.
pub proof fn verdicts_are_told(
    a: &Context,
    b: &Context,
    request: Request,
    result: SolverResult,
    arrays_open: bool,
    said: Option<String>,
)
    requires
        request is CheckSat || request is CheckSatAssuming,
        answered(a, request, Reply::Checked { result, arrays_open }, b, said),
    ensures
        said is Some,
        said->0@ == "sat"@ <==> result == SolverResult::Sat && !arrays_open,
        said->0@ == "unsat"@ <==> result == SolverResult::Unsat,
        said->0@ == "unknown"@ <==> result == SolverResult::Unknown || (result == SolverResult::Sat
            && arrays_open),
        b.last_result == Some(SolverResult::Sat) <==> said->0@ == "sat"@,
        b.last_result == Some(SolverResult::Unsat) <==> said->0@ == "unsat"@,
        b.last_assumptions@ == (match request {
            Request::CheckSatAssuming(list) => list@,
            _ => Seq::empty(),
        }),
        b.assertions == a.assertions && b.solver == a.solver && b.terms == a.terms,
{
    reveal_strlit("sat");
    reveal_strlit("unsat");
    reveal_strlit("unknown");
    assert("sat"@.len() == 3 && "unsat"@.len() == 5 && "unknown"@.len() == 7);
}

/// The commands that only say a text, the next one last.
pub open spec fn all_echo(left: Seq<Command>) -> bool {
    forall|k: int| 0 <= k < left.len() ==> (#[trigger] left[k]) is Echo
}

/// Commands are run one after the other, the first one first: texts come out in
/// the order in which they stand in the script.
pub proof fn texts_come_in_order(
    a: &Context,
    commands: Seq<Command>,
    said: Seq<Seq<char>>,
    b: &Context,
    left: Seq<Command>,
    after: Seq<Seq<char>>,
    ask: Option<Request>,
)
    requires
        all_echo(commands),
        runs(a, commands.reverse(), said, b, left, after, ask),
    ensures
        ask is None,
        left.len() == 0,
        *b == *a,
        after == said + Seq::new(commands.len(), |k: int| commands[k]->Echo_0@),
    decreases commands.len(),
{
    let rest = commands.reverse();
    if commands.len() > 0 {
        let (c, step) = choose|c: Context, step: Step|
            #[trigger] executed(a, rest.last(), &c, step) && match step {
                Step::Silent => runs(&c, rest.drop_last(), said, b, left, after, ask),
                Step::Say(text) => runs(
                    &c,
                    rest.drop_last(),
                    said.push(text@),
                    b,
                    left,
                    after,
                    ask,
                ),
                Step::Ask(request) => *b == c && left == rest.drop_last() && after == said && ask
                    == Some(request),
                Step::Stop => *b == c && left.len() == 0 && after == said && ask is None,
            };
        assert(rest.last() == commands[0]);
        assert(commands[0] is Echo);
        let next = commands.drop_first();
        assert(next.reverse() =~= rest.drop_last());
        assert forall|k: int| 0 <= k < next.len() implies (#[trigger] next[k]) is Echo by {
            assert(next[k] == commands[k + 1]);
        }
        let text = commands[0]->Echo_0@;
        texts_come_in_order(&c, next, said.push(text), b, left, after, ask);
        assert(said.push(text) + Seq::new(next.len(), |k: int| next[k]->Echo_0@) =~= said
            + Seq::new(commands.len(), |k: int| commands[k]->Echo_0@));
    } else {
        assert(rest =~= Seq::<Command>::empty());
        assert(after =~= said + Seq::new(commands.len(), |k: int| commands[k]->Echo_0@));
    }
}

/// Nothing that stands behind `exit` in a script is run.
pub proof fn scripts_stop_at_exit(
    a: &Context,
    left: Seq<Command>,
    said: Seq<Seq<char>>,
    b: &Context,
    left_after: Seq<Command>,
    after: Seq<Seq<char>>,
    ask: Option<Request>,
)
    requires
        left.len() > 0 && left.last() == Command::Exit,
        runs(a, left, said, b, left_after, after, ask),
    ensures
        *b == *a && left_after.len() == 0 && after == said && ask is None,
{
}

/// Joining puts the first part before the rest.
pub proof fn joining_starts_with_the_first(
    parts: Seq<Seq<char>>,
    separator: Seq<char>,
    n: int,
)
    requires
        1 < n <= parts.len(),
    ensures
        joined(parts, separator, n) == parts[0] + separator + joined(
            parts.drop_first(),
            separator,
            n - 1,
        ),
    decreases n,
{
    let rest = parts.drop_first();
    if n == 2 {
        assert(joined(parts, separator, 1) == parts[0]);
        assert(joined(rest, separator, 1) == parts[1]);
    } else {
        joining_starts_with_the_first(parts, separator, n - 1);
        assert(rest[n - 2] == parts[n - 1]);
        assert(joined(parts, separator, n) =~= parts[0] + separator + joined(
            rest,
            separator,
            n - 1,
        ));
    }
}

proof fn lemma_occurs(part: Seq<char>, before: Seq<char>, behind: Seq<char>)
    ensures
        occurs(part, before + part + behind),
{
    let all = before + part + behind;
    assert(all.subrange(before.len() as int, (before.len() + part.len()) as int) =~= part);
    assert(occurs_at(part, all, before.len() as int));
}

proof fn lemma_occurs_within(
    part: Seq<char>,
    text: Seq<char>,
    before: Seq<char>,
    behind: Seq<char>,
)
    requires
        occurs(part, text),
    ensures
        occurs(part, before + text + behind),
{
    let k = choose|k: int| occurs_at(part, text, k);
    let all = before + text + behind;
    let j = before.len() + k;
    assert(all.subrange(j, j + part.len()) =~= text.subrange(k, k + part.len()));
    assert(occurs_at(part, all, j));
}

/// Every part is there in what joining makes of the parts.
pub proof fn joining_keeps_the_parts(
    parts: Seq<Seq<char>>,
    separator: Seq<char>,
    n: int,
    k: int,
)
    requires
        0 <= k < n <= parts.len(),
    ensures
        occurs(parts[k], joined(parts, separator, n)),
    decreases n,
{
    if n == 1 {
        lemma_occurs_self(parts[0]);
    } else {
        let front = joined(parts, separator, n - 1);
        assert(joined(parts, separator, n) == front + separator + parts[n - 1]);
        if k == n - 1 {
            lemma_occurs_behind(front + separator, parts[k]);
        } else {
            joining_keeps_the_parts(parts, separator, n - 1, k);
            lemma_occurs_more(parts[k], front, separator);
            lemma_occurs_more(parts[k], front + separator, parts[n - 1]);
        }
    }
}

proof fn lemma_occurs_behind(before: Seq<char>, a: Seq<char>)
    ensures
        occurs(a, before + a),
{
    let none = Seq::<char>::empty();
    lemma_occurs(a, before, none);
    assert(before + a + none =~= before + a);
}

/// A list that is written holds every part, between parentheses.
pub proof fn lists_hold_their_parts(parts: Seq<Seq<char>>, separator: Seq<char>, k: int)
    ensures
        listed(parts, separator).len() >= 2,
        listed(parts, separator)[0] == '(' && listed(parts, separator).last() == ')',
        parts.len() == 0 ==> listed(parts, separator) == seq!['(', ')'],
        0 <= k < parts.len() ==> occurs(parts[k], listed(parts, separator)),
{
    reveal_strlit("(");
    reveal_strlit(")");
    let inner = joined(parts, separator, parts.len() as int);
    if parts.len() == 0 {
        assert(listed(parts, separator) =~= seq!['(', ')']);
    }
    if 0 <= k < parts.len() {
        joining_keeps_the_parts(parts, separator, parts.len() as int, k);
        lemma_occurs_within(parts[k], inner, "("@, ")"@);
    }
}

/// A model that is written defines each of its constants with its sort and its
/// value.
pub proof fn models_define_their_constants(model: Seq<(String, String, String)>, k: int)
    requires
        0 <= k < model.len(),
    ensures
        occurs(
            "  (define-fun "@ + model[k].0@ + " () "@ + model[k].1@ + " "@ + model[k].2@ + ")"@,
            model_text(Some(model)),
        ),
{
    let lines = model_lines(model);
    assert(lines[k + 1] == "  (define-fun "@ + model[k].0@ + " () "@ + model[k].1@ + " "@
        + model[k].2@ + ")"@);
    joining_keeps_the_parts(lines, "\n"@, (model.len() + 2) as int, k + 1);
}

/// Every Boolean constant is told with the truth value of its value in the model.
pub proof fn assignments_tell_truth(
    s: Seq<TermView>,
    i: Interp,
    m: Map<TermId, TermId>,
    decls: Seq<DeclaredConst>,
    n: int,
    k: int,
)
    requires
        terms_wf(s),
        0 <= k < n <= decls.len(),
        decls[k].sort == BOOL_SORT,
        m.contains_key(decls[k].term),
        m[decls[k].term] < s.len(),
        s[m[decls[k].term] as int].op == Op::True || s[m[decls[k].term] as int].op == Op::False,
    ensures
        assignment_parts(s, m, decls, n).contains(
            "("@ + decls[k].name@ + " "@ + (if holds(s, i, m[decls[k].term]) {
                "true"@
            } else {
                "false"@
            }) + ")"@,
        ),
    decreases n,
{
    let part = "("@ + decls[k].name@ + " "@ + (if holds(s, i, m[decls[k].term]) {
        "true"@
    } else {
        "false"@
    }) + ")"@;
    let all = assignment_parts(s, m, decls, n);
    let before = assignment_parts(s, m, decls, n - 1);
    if k == n - 1 {
        crate::semantics::lemma_eval(s, i, m[decls[k].term]);
        assert(all[before.len() as int] == part);
    } else {
        assignments_tell_truth(s, i, m, decls, n - 1, k);
        let j = before.index_of(part);
        assert(all[j] == part);
    }
}

/// A name that is written without white space at its ends and without commas.
pub open spec fn plain_name(name: Seq<char>) -> bool {
    &&& name.len() > 0
    &&& !white(name[0]) && !white(name.last())
    &&& forall|k: int| 0 <= k < name.len() ==> #[trigger] name[k] != ','
}

proof fn lemma_piece(text: Seq<char>, k: int, n: int, piece: Seq<char>)
    requires
        0 <= k <= n <= text.len(),
        forall|j: int| k <= j < n ==> #[trigger] text[j] != ',',
        n == text.len() || text[n] == ',',
    ensures
        pieces_from(text, k, piece) == (if n == text.len() {
            piece_kept(piece + text.subrange(k, n))
        } else {
            piece_kept(piece + text.subrange(k, n)) + pieces_from(text, n + 1, Seq::empty())
        }),
    decreases n - k,
{
    if k < n {
        lemma_piece(text, k + 1, n, piece.push(text[k]));
        assert(piece.push(text[k]) + text.subrange(k + 1, n) =~= piece + text.subrange(k, n));
    } else {
        assert(piece + text.subrange(k, n) =~= piece);
    }
}

proof fn lemma_pieces(
    names: Seq<Seq<char>>,
    text: Seq<char>,
    k: int,
)
    requires
        names.len() > 0,
        forall|j: int| 0 <= j < names.len() ==> plain_name(#[trigger] names[j]),
        0 <= k <= text.len(),
        text.skip(k) == joined(names, seq![','], names.len() as int),
    ensures
        pieces_from(text, k, Seq::empty()) == names,
    decreases names.len(),
{
    let name = names[0];
    let n = k + name.len();
    let rest = names.drop_first();
    let tail = text.skip(k);
    assert(plain_name(names[0]));
    if names.len() > 1 {
        joining_starts_with_the_first(names, seq![','], names.len() as int);
        assert(tail == name + seq![','] + joined(rest, seq![','], rest.len() as int));
        assert(tail[name.len() as int] == ',');
        assert(text[n] == tail[name.len() as int]);
        assert(text.skip(n + 1) =~= joined(rest, seq![','], rest.len() as int)) by {
            assert(text.skip(n + 1) =~= tail.skip((name.len() + 1) as int));
        }
        assert forall|j: int| 0 <= j < rest.len() implies plain_name(#[trigger] rest[j]) by {
            assert(rest[j] == names[j + 1]);
        }
        lemma_pieces(rest, text, n + 1);
    } else {
        assert(tail == name);
    }
    assert(text.subrange(k, n) =~= name) by {
        assert forall|j: int| 0 <= j < name.len() implies text.subrange(k, n)[j] == name[j] by {
            assert(text[k + j] == tail[j]);
        }
    }
    assert forall|j: int| k <= j < n implies #[trigger] text[j] != ',' by {
        assert(text[j] == name[j - k]);
    }
    lemma_piece(text, k, n, Seq::empty());
    assert(Seq::<char>::empty() + name =~= name);
    lemma_trimmed(name);
    if names.len() > 1 {
        assert(seq![name] + rest =~= names);
    } else {
        assert(seq![name] =~= names);
    }
}

/// Names that are written with commas between them are split into the names.
pub proof fn joined_names_are_split(names: Seq<Seq<char>>)
    requires
        forall|j: int| 0 <= j < names.len() ==> plain_name(#[trigger] names[j]),
    ensures
        pieces_from(joined(names, seq![','], names.len() as int), 0, Seq::empty()) == names,
{
    let text = joined(names, seq![','], names.len() as int);
    if names.len() > 0 {
        assert(text.skip(0) =~= text);
        lemma_pieces(names, text, 0);
    } else {
        assert(pieces_from(text, 0, Seq::empty()) =~= names);
    }
}

/// Asserting adds the assertion to the list of the context and what it is rewritten
/// to to that of the solver; declarations stay.
pub proof fn asserting_adds_assertions(a: &Context, b: &Context, t: TermId, step: Step)
    requires
        executed(a, Command::Assert(t), b, step),
    ensures
        b.assertions@ == a.assertions@.push(t),
        b.solver.goal@.j.assertions.len() == a.solver.goal@.j.assertions.len() + 1,
        b.solver.goal@.j.assertions.drop_last() == a.solver.goal@.j.assertions,
        b.declared_consts == a.declared_consts && b.declared_funs == a.declared_funs,
        b.solver.last_check is None && b.solver.model is None,
        b.solver.config == a.solver.config,
        step is Ask || step is Silent,
{
    let r = choose|r: (TermId, usize, bool)| #[trigger]
        crate::commands::assertion_entered(a, b, t, r) && crate::commands::asks_encoding(r, step);
    assert(b.solver.goal@.j.assertions.drop_last() =~= a.solver.goal@.j.assertions);
}

/// A reset forgets assertions, scopes, declarations, options and answers; a reset of
/// the assertions keeps the declarations and the options.
pub proof fn resets_forget(a: &Context, b: &Context, step: Step)
    ensures
        executed(a, Command::Reset, b, step) ==> {
            &&& b.assertions@.len() == 0 && b.assertion_stack@.len() == 0
            &&& b.declared_consts@.len() == 0 && b.declared_funs@.len() == 0
            &&& b.options@.dom() == Set::<Seq<char>>::empty()
            &&& b.last_result is None && b.logic is None
            &&& b.solver.goal@.j.assertions.len() == 0 && b.solver.goal@.clauses.len() == 0
            &&& b.solver.model is None && b.solver.unsat_core is None
            &&& b.solver.config == a.solver.config
        },
        executed(a, Command::ResetAssertions, b, step) ==> {
            &&& b.assertions@.len() == 0 && b.assertion_stack@.len() == 0
            &&& b.declared_consts == a.declared_consts && b.declared_funs == a.declared_funs
            &&& b.options == a.options
            &&& b.last_result is None
            &&& b.solver.goal@.j.assertions.len() == 0
            &&& b.solver.model is None && b.solver.unsat_core is None
            &&& b.solver.config == a.solver.config
        },
{
}

/// Questions change nothing, and are put to the engines where they need them.
pub proof fn questions_change_nothing(a: &Context, cmd: Command, b: &Context, step: Step)
    requires
        executed(a, cmd, b, step),
    ensures
        cmd is CheckSat ==> *b == *a && step == Step::Ask(Request::CheckSat),
        cmd is GetModel ==> *b == *a && step == Step::Ask(Request::ShowModel),
        cmd is GetAssertions ==> *b == *a && step == Step::Ask(Request::PrintAssertions),
        cmd is GetProof ==> *b == *a && step == Step::Ask(Request::ShowProof),
        cmd is GetUnsatAssumptions ==> *b == *a && step == Step::Ask(Request::PrintAssumptions),
        cmd matches Command::Simplify(t) ==> *b == *a && step == Step::Ask(Request::Simplify(t)),
        cmd matches Command::CheckSatAssuming(list) ==> *b == *a && step == Step::Ask(
            Request::CheckSatAssuming(list),
        ),
        cmd matches Command::GetValue(list) ==> *b == *a && (a.last_result == Some(
            SolverResult::Sat,
        ) && a.solver.model is Some ==> step == Step::Ask(Request::Evaluate(list))) && (!(
        a.last_result == Some(SolverResult::Sat) && a.solver.model is Some) ==> step is Say),
        cmd is GetUnsatCore ==> *b == *a && step is Say,
        cmd is GetAssignment ==> *b == *a && step is Say,
        cmd is GetInfo ==> *b == *a && step is Say,
        cmd is GetOption ==> *b == *a && step is Say,
        cmd is SetInfo ==> *b == *a && step == Step::Silent,
        cmd is Exit ==> *b == *a && step == Step::Stop,
{
}

/// The core that is shown names each assertion of it.
pub proof fn cores_are_shown(a: &Context, b: &Context, step: Step, k: int)
    requires
        executed(a, Command::GetUnsatCore, b, step),
        a.solver.unsat_core is Some,
        0 <= k < a.solver.unsat_core->0.names@.len(),
    ensures
        step matches Step::Say(text) && occurs(a.solver.unsat_core->0.names@[k]@, text@),
{
    let parts = crate::sorts::texts_of(a.solver.unsat_core->0.names@);
    lists_hold_their_parts(parts, " "@, k);
}

/// What is printed of assertions, of assumptions and of values is shown, each part
/// of it.
pub proof fn printed_parts_are_shown(
    a: &Context,
    b: &Context,
    request: Request,
    reply: Reply,
    said: Option<String>,
    k: int,
)
    requires
        answered(a, request, reply, b, said),
    ensures
        request is PrintAssertions ==> (reply matches Reply::Texts(list) ==> *b == *a && said is Some
            && (0 <= k < list@.len() ==> occurs(list@[k]@, said->0@))),
        request is PrintAssumptions && a.last_result == Some(SolverResult::Unsat) ==> (
        reply matches Reply::Texts(list) ==> *b == *a && said is Some && (0 <= k < list@.len()
            ==> occurs(list@[k]@, said->0@))),
        request is Evaluate && a.last_result == Some(SolverResult::Sat) && a.solver.model is Some
            ==> (reply matches Reply::Pairs(list) ==> *b == *a && said is Some && (0 <= k
            < list@.len() ==> occurs(
            "("@ + list@[k].0@ + " "@ + list@[k].1@ + ")"@,
            said->0@,
        ))),
        request is Simplify ==> (reply matches Reply::Text(text) ==> *b == *a && said is Some
            && said->0@ == text@),
        request is ShowProof && a.last_result == Some(SolverResult::Unsat) ==> (
        reply matches Reply::Written(Some(text)) ==> *b == *a && said is Some && said->0@ == text@),
{
    match (request, reply) {
        (Request::PrintAssertions, Reply::Texts(list)) => {
            lists_hold_their_parts(crate::sorts::texts_of(list@), "\n "@, k);
        },
        (Request::PrintAssumptions, Reply::Texts(list)) => {
            lists_hold_their_parts(crate::sorts::texts_of(list@), " "@, k);
        },
        (Request::Evaluate(_), Reply::Pairs(list)) => {
            lists_hold_their_parts(crate::replies::pair_texts(list@), "\n "@, k);
        },
        _ => {},
    }
}

/// What a script has said stays said.
pub proof fn what_was_said_stays(
    a: &Context,
    left: Seq<Command>,
    said: Seq<Seq<char>>,
    b: &Context,
    left_after: Seq<Command>,
    after: Seq<Seq<char>>,
    ask: Option<Request>,
)
    requires
        runs(a, left, said, b, left_after, after, ask),
    ensures
        said.len() <= after.len(),
        after.take(said.len() as int) == said,
        left_after.len() <= left.len(),
        ask is Some ==> left_after == left.take(left_after.len() as int),
    decreases left.len(),
{
    if left.len() == 0 {
        assert(after.take(said.len() as int) =~= said);
    } else {
        let (c, step) = choose|c: Context, step: Step|
            #[trigger] executed(a, left.last(), &c, step) && match step {
                Step::Silent => runs(&c, left.drop_last(), said, b, left_after, after, ask),
                Step::Say(text) => runs(
                    &c,
                    left.drop_last(),
                    said.push(text@),
                    b,
                    left_after,
                    after,
                    ask,
                ),
                Step::Ask(request) => *b == c && left_after == left.drop_last() && after == said
                    && ask == Some(request),
                Step::Stop => *b == c && left_after.len() == 0 && after == said && ask is None,
            };
        let rest = left.drop_last();
        match step {
            Step::Silent => {
                what_was_said_stays(&c, rest, said, b, left_after, after, ask);
                assert(rest.take(left_after.len() as int) =~= left.take(left_after.len() as int));
            },
            Step::Say(text) => {
                let more = said.push(text@);
                what_was_said_stays(&c, rest, more, b, left_after, after, ask);
                assert(after.take(said.len() as int) =~= after.take(more.len() as int).take(
                    said.len() as int,
                ));
                assert(more.take(said.len() as int) =~= said);
                assert(rest.take(left_after.len() as int) =~= left.take(left_after.len() as int));
            },
            Step::Ask(_) => {
                assert(after.take(said.len() as int) =~= said);
                assert(left.take(left_after.len() as int) =~= left.drop_last());
            },
            Step::Stop => {
                assert(after.take(said.len() as int) =~= said);
            },
        }
    }
}

/// The first `n` pieces one after the other.
spec fn chained(pieces: Seq<Seq<char>>, n: int) -> Seq<char>
    decreases n,
{
    if n <= 1 {
        pieces[0]
    } else {
        chained(pieces, n - 1) + pieces[n - 1]
    }
}

proof fn lemma_occurs_last(before: Seq<char>, a: Seq<char>, b: Seq<char>)
    ensures
        occurs(a + b, before + a + b),
{
    let all = before + a + b;
    let part = a + b;
    let k = before.len() as int;
    let found = all.subrange(k, k + part.len());
    assert(found.len() == part.len());
    assert forall|j: int| 0 <= j < part.len() implies found[j] == part[j] by {
        assert(found[j] == all[k + j]);
    }
    assert(found =~= part);
    assert(occurs_at(part, all, k));
}

proof fn lemma_occurs_self(a: Seq<char>)
    ensures
        occurs(a, a),
{
    assert(a.subrange(0, a.len() as int) =~= a);
    assert(occurs_at(a, a, 0));
}

proof fn lemma_occurs_more(part: Seq<char>, text: Seq<char>, more: Seq<char>)
    requires
        occurs(part, text),
    ensures
        occurs(part, text + more),
{
    let none = Seq::<char>::empty();
    lemma_occurs_within(part, text, none, more);
    assert(none + text + more =~= text + more);
}

proof fn lemma_chained(pieces: Seq<Seq<char>>, n: int, k: int)
    requires
        0 <= k && k + 1 < n <= pieces.len(),
    ensures
        occurs(pieces[k] + pieces[k + 1], chained(pieces, n)),
    decreases n,
{
    let front = chained(pieces, n - 1);
    assert(chained(pieces, n) == front + pieces[n - 1]);
    if k + 1 == n - 1 {
        if k == 0 {
            lemma_occurs_self(pieces[0] + pieces[1]);
        } else {
            lemma_occurs_last(chained(pieces, n - 2), pieces[k], pieces[k + 1]);
        }
    } else {
        lemma_chained(pieces, n - 1, k);
        lemma_occurs_more(pieces[k] + pieces[k + 1], front, pieces[n - 1]);
    }
}

/// The statistics tell each count under its name.
pub proof fn statistics_tell_their_counts(x: Statistics)
    ensures
        occurs("(:decisions "@ + decimal(x.decisions as nat), statistics_text(x)),
        occurs(" :conflicts "@ + decimal(x.conflicts as nat), statistics_text(x)),
        occurs(" :propagations "@ + decimal(x.propagations as nat), statistics_text(x)),
        occurs(" :restarts "@ + decimal(x.restarts as nat), statistics_text(x)),
        occurs(" :learned-clauses "@ + decimal(x.learned_clauses as nat), statistics_text(x)),
        occurs(
            " :theory-propagations "@ + decimal(x.theory_propagations as nat),
            statistics_text(x),
        ),
        occurs(" :theory-conflicts "@ + decimal(x.theory_conflicts as nat), statistics_text(x)),
{
    let pieces = seq![
        "(:decisions "@,
        decimal(x.decisions as nat),
        " :conflicts "@,
        decimal(x.conflicts as nat),
        " :propagations "@,
        decimal(x.propagations as nat),
        " :restarts "@,
        decimal(x.restarts as nat),
        " :learned-clauses "@,
        decimal(x.learned_clauses as nat),
        " :theory-propagations "@,
        decimal(x.theory_propagations as nat),
        " :theory-conflicts "@,
        decimal(x.theory_conflicts as nat),
        ")"@,
    ];
    assert(chained(pieces, 15) == statistics_text(x)) by {
        reveal_with_fuel(chained, 16);
    }
    lemma_chained(pieces, 15, 0);
    lemma_chained(pieces, 15, 2);
    lemma_chained(pieces, 15, 4);
    lemma_chained(pieces, 15, 6);
    lemma_chained(pieces, 15, 8);
    lemma_chained(pieces, 15, 10);
    lemma_chained(pieces, 15, 12);
}

/// A reason for an unknown answer is told just after one.
pub proof fn reasons_follow_unknown_answers(x: Statistics, result: Option<SolverResult>)
    ensures
        occurs("incomplete"@, info_text("reason-unknown"@, x, result)) <==> result == Some(
            SolverResult::Unknown,
        ),
{
    reveal_strlit("all-statistics");
    reveal_strlit("name");
    reveal_strlit("version");
    reveal_strlit("authors");
    reveal_strlit("error-behavior");
    reveal_strlit("reason-unknown");
    reveal_strlit("incomplete");
    reveal_strlit("(:reason-unknown incomplete)");
    reveal_strlit("(:reason-unknown \"not applicable\")");
    let key = "reason-unknown"@;
    assert(key.len() == 14);
    assert("all-statistics"@[0] == 'a' && key[0] == 'r');
    assert("error-behavior"@[0] == 'e');
    let text = info_text(key, x, result);
    let word = "incomplete"@;
    if result == Some(SolverResult::Unknown) {
        assert(text.subrange(17, 27) =~= word);
        assert(occurs_at(word, text, 17));
    } else {
        assert forall|k: int| !occurs_at(word, text, k) by {
            if 0 <= k && k + 10 <= text.len() {
                let part = text.subrange(k, k + 10);
                assert(part[0] == text[k] && part[3] == text[k + 3] && part[4] == text[k + 4]);
                assert(word[0] == 'i' && word[3] == 'o' && word[4] == 'm');
                assert(text.len() == 34);
            }
        }
    }
}

/// A switch that was never set is off.
pub proof fn switches_are_off_at_first(a: &Context, b: &Context, key: String, said: Step)
    requires
        executed(a, Command::GetOption(key), b, said),
        !a.options@.contains_key(key@),
        key@ == "produce-models"@ || key@ == "produce-unsat-cores"@ || key@ == "produce-proofs"@
            || key@ == "produce-assignments"@ || key@ == "print-success"@,
    ensures
        *b == *a,
        said matches Step::Say(text) && text@ == "false"@,
{
}

/// A Boolean constant without a truth value in the model is told as false, and
/// nothing but Boolean constants is told.
pub proof fn open_assignments_are_false(
    s: Seq<TermView>,
    m: Map<TermId, TermId>,
    decls: Seq<DeclaredConst>,
    n: int,
    k: int,
)
    requires
        0 <= n <= decls.len(),
    ensures
        0 <= k < n && decls[k].sort == BOOL_SORT && !(m.contains_key(decls[k].term)
            && m[decls[k].term] < s.len() && s[m[decls[k].term] as int].op == Op::True)
            ==> assignment_parts(s, m, decls, n).contains(
            "("@ + decls[k].name@ + " "@ + "false"@ + ")"@,
        ),
        forall|j: int|
            0 <= j < assignment_parts(s, m, decls, n).len() ==> tells_constant(
                decls,
                n,
                #[trigger] assignment_parts(s, m, decls, n)[j],
            ),
    decreases n,
{
    let all = assignment_parts(s, m, decls, n);
    if n > 0 {
        open_assignments_are_false(s, m, decls, n - 1, k);
        let before = assignment_parts(s, m, decls, n - 1);
        let part = "("@ + decls[k].name@ + " "@ + "false"@ + ")"@;
        if 0 <= k < n && decls[k].sort == BOOL_SORT && !(m.contains_key(decls[k].term)
            && m[decls[k].term] < s.len() && s[m[decls[k].term] as int].op == Op::True) {
            if k == n - 1 {
                assert(all[before.len() as int] == part);
            } else {
                assert(all[before.index_of(part)] == part);
            }
        }
        assert forall|j: int| 0 <= j < all.len() implies tells_constant(decls, n, #[trigger] all[j]) by {
            if j < before.len() {
                assert(tells_constant(decls, n - 1, before[j]));
                let i = choose|i: int|
                    0 <= i < n - 1 && (#[trigger] decls[i]).sort == BOOL_SORT && (before[j] == "("@
                        + decls[i].name@ + " "@ + "true"@ + ")"@ || before[j] == "("@
                        + decls[i].name@ + " "@ + "false"@ + ")"@);
                assert(decls[i].sort == BOOL_SORT);
                assert(all[j] == before[j]);
            } else {
                assert(decls[n - 1].sort == BOOL_SORT);
            }
        }
    }
}

/// The text tells one of the first `n` constants, a Boolean one, with a truth value.
pub open spec fn tells_constant(decls: Seq<DeclaredConst>, n: int, text: Seq<char>) -> bool {
    exists|i: int|
        0 <= i < n && (#[trigger] decls[i]).sort == BOOL_SORT && (text == "("@ + decls[i].name@
            + " "@ + "true"@ + ")"@ || text == "("@ + decls[i].name@ + " "@ + "false"@ + ")"@)
}

/// A constant that is defined is declared under its name, and its equation with the
/// body is asserted, where their sorts can be compared.
pub proof fn definitions_are_asserted(
    a: &Context,
    b: &Context,
    name: Seq<char>,
    sort: Seq<char>,
    body: TermId,
    step: Step,
)
    requires
        const_defined(a, b, name, sort, body, step),
    ensures
        b.declared_consts@.len() == a.declared_consts@.len() + 1,
        b.declared_consts@.last().name@ == name,
        b.declared_consts@.drop_last() == a.declared_consts@,
        step is Say ==> b.assertions@ == a.assertions@,
        !(step is Say) ==> b.assertions@.len() == a.assertions@.len() + 1
            && b.assertions@.drop_last() == a.assertions@ && {
            let t = b.declared_consts@.last().term;
            let eq = b.assertions@.last();
            let s = b.terms.terms();
            eq < s.len() && (t == body || (s[eq as int].op == Op::Eq && s[eq as int].args == seq![
                t,
                body,
            ]))
        },
{
    let (c, id, t) = choose|c: Context, id: SortId, t: TermId| #[trigger]
        const_written(a, &c, name, sort, id, t) && body_equated(&c, b, t, body, step);
    let s = c.terms.terms();
    if comparable(s[t as int].sort, s[body as int].sort) {
        let (d, eq, r) = choose|d: Context, eq: TermId, r: (TermId, usize, bool)|
            d == (Context { terms: d.terms, ..c }) && eq_built(
                s,
                d.terms.terms(),
                t,
                body,
                eq,
            ) && #[trigger] assertion_entered(&d, b, eq, r) && asks_encoding(r, step);
        assert(b.assertions@ == a.assertions@.push(eq));
        assert(b.assertions@.drop_last() =~= a.assertions@);
        assert(b.terms.terms()[eq as int] == d.terms.terms()[eq as int]);
    }
}

} // verus!
