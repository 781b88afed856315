//! Running a script command by command.
//!
//! What only the engines can do is asked for: a [`Request`] is handed out, and
//! the run goes on with the [`Reply`].

use crate::assertion::{entered, nesting};
use crate::constructors::{eq_built, grew};
use crate::context::{withdrawn, Context};
use crate::declared::{classes, lists_constants, ModelSource};
use crate::encode::ENCODE_DEPTH_LIMIT;
use crate::replies::{
    assignment_parts, colons_do_not_matter, configured, info_text, is_setting, listed, mode_named,
    model_text, option_default, pair_texts, plain_key, seeded, word_named,
};
use crate::script::{
    all_denote, const_declared, datatype_funs, default_set, fun_declared, funs_added, is_datatype,
    store_grew, ConstructorDecl,
};
use crate::search::SolverResult;
use crate::solver::{rewritten, Solver};
use crate::sorts::{denotes, env_of, texts_of};
use crate::terms::{are_comparable, comparable, SortId, TermId, FALSE_TERM, TRUE_TERM};
use crate::text::{chars_of, copy_text, string_of, trim, trim_range};
use vstd::prelude::*;

verus! {

/// A command of a script.
pub enum Command {
    SetLogic(String),
    DeclareConst(String, String),
    DeclareFun(String, Vec<String>, String),
    Assert(TermId),
    CheckSat,
    Push(u32),
    Pop(u32),
    Reset,
    ResetAssertions,
    Exit,
    Echo(String),
    GetModel,
    GetAssertions,
    GetAssignment,
    GetProof,
    GetOption(String),
    SetOption(String, String),
    CheckSatAssuming(Vec<TermId>),
    Simplify(TermId),
    GetUnsatCore,
    GetUnsatAssumptions,
    GetValue(Vec<TermId>),
    GetInfo(String),
    SetInfo,
    DeclareSort(String, u32),
    /// Name, parameters, and what the name stands for.
    DefineSort(String, Vec<String>, String),
    /// Name, sorts of the parameters, sort of the result, and body.
    DefineFun(String, Vec<String>, String, TermId),
    /// Names with their constructors.
    DeclareDatatypes(Vec<(String, Vec<ConstructorDecl>)>),
}

/// Work for the engines, the simplifier or the printer.
pub enum Request {
    /// Simplify and expand the assertion at `index`, and finish it.
    Encode { term: TermId, index: usize },
    CheckSat,
    CheckSatAssuming(Vec<TermId>),
    /// Tell what the model is to be read with.
    ShowModel,
    /// Print the assertions.
    PrintAssertions,
    /// Print the assumptions of the last check.
    PrintAssumptions,
    /// Evaluate terms in the model, and print them with their values.
    Evaluate(Vec<TermId>),
    /// Simplify a term and print it.
    Simplify(TermId),
    /// Print the proof.
    ShowProof,
}

/// The outcome of a request.
pub enum Reply {
    Done,
    Checked { result: SolverResult, arrays_open: bool },
    Model(ModelSource),
    Texts(Vec<String>),
    Pairs(Vec<(String, String)>),
    Text(String),
    Written(Option<String>),
}

/// What a command leads to.
pub enum Step {
    /// Nothing is said.
    Silent,
    Say(String),
    Ask(Request),
    /// The script ends.
    Stop,
}

/// The terms of the command are among the first `n`.
pub open spec fn command_within(cmd: Command, n: int) -> bool {
    match cmd {
        Command::Assert(t) => t < n,
        Command::DefineFun(_, _, _, body) => body < n,
        _ => true,
    }
}

pub open spec fn says_text(step: Step, text: Seq<char>) -> bool {
    step matches Step::Say(x) && x@ == text
}

/// A scope was opened.
pub open spec fn pushed(a: &Context, b: &Context) -> bool {
    &&& b.solver.opened(&a.solver)
    &&& b.assertion_stack@ == a.assertion_stack@.push(a.assertions.len())
    &&& b.const_stack@ == a.const_stack@.push(a.declared_consts.len())
    &&& b.fun_stack@ == a.fun_stack@.push(a.declared_funs.len())
    &&& *b == (Context {
        solver: b.solver,
        assertion_stack: b.assertion_stack,
        const_stack: b.const_stack,
        fun_stack: b.fun_stack,
        ..*a
    })
}

pub open spec fn pushed_times(a: &Context, n: int, b: &Context) -> bool
    decreases n,
{
    if n <= 0 {
        *b == *a
    } else {
        exists|c: Context| pushed_times(a, n - 1, &c) && #[trigger] pushed(&c, b)
    }
}

/// A scope was closed, if there was one.
pub open spec fn popped_once(a: &Context, b: &Context) -> bool {
    if a.assertion_stack@.len() == 0 {
        *b == *a
    } else {
        b.popped(a)
    }
}

pub open spec fn popped_times(a: &Context, n: int, b: &Context) -> bool
    decreases n,
{
    if n <= 0 {
        *b == *a
    } else {
        exists|c: Context| popped_times(a, n - 1, &c) && #[trigger] popped_once(&c, b)
    }
}

/// Everything but the terms and the names of sorts was forgotten.
pub open spec fn was_reset(a: &Context, b: &Context) -> bool {
    &&& b.solver.fresh()
    &&& b.solver.keeps_settings(&a.solver)
    &&& b.solver.logic is None
    &&& b.assertions@.len() == 0
    &&& b.assertion_stack@.len() == 0
    &&& b.declared_consts@.len() == 0
    &&& b.const_stack@.len() == 0
    &&& b.const_index@ == Map::<Seq<char>, usize>::empty()
    &&& b.declared_funs@.len() == 0
    &&& b.fun_stack@.len() == 0
    &&& b.fun_index@ == Map::<Seq<char>, usize>::empty()
    &&& b.logic is None
    &&& b.last_result is None
    &&& b.last_assumptions@.len() == 0
    &&& b.options@ == Map::<Seq<char>, String>::empty()
    &&& b.terms == a.terms
    &&& b.sort_names == a.sort_names
    &&& b.declared_sorts == a.declared_sorts
    &&& b.random_seed == a.random_seed
}

/// The assertions were forgotten.
pub open spec fn assertions_reset(a: &Context, b: &Context) -> bool {
    &&& b.solver.fresh()
    &&& b.solver.keeps_settings(&a.solver)
    &&& b.solver.logic is None
    &&& b.assertions@.len() == 0
    &&& b.assertion_stack@.len() == 0
    &&& b.last_assumptions@.len() == 0
    &&& *b == (Context {
        solver: b.solver,
        assertions: b.assertions,
        assertion_stack: b.assertion_stack,
        last_result: None,
        last_assumptions: b.last_assumptions,
        ..*a
    })
}

/// The logic was set.
pub open spec fn logic_set(a: &Context, b: &Context, logic: Seq<char>) -> bool {
    &&& b.logic matches Some(x) && x@ == logic
    &&& b.solver.logic matches Some(y) && y@ == logic
    &&& b.solver == (Solver { logic: b.solver.logic, last_check: None, ..a.solver })
    &&& *b == (Context { logic: b.logic, solver: b.solver, ..*a })
}

/// An option was set.
pub open spec fn option_set(a: &Context, b: &Context, key: Seq<char>, value: Seq<char>) -> bool {
    &&& b.options@.contains_key(key)
    &&& b.options@[key]@ == value
    &&& forall|x: Seq<char>|
        x != key ==> (#[trigger] b.options@.contains_key(x) == a.options@.contains_key(x))
    &&& forall|x: Seq<char>|
        x != key && a.options@.contains_key(x) ==> (#[trigger] b.options@[x]) == a.options@[x]
    &&& b.solver == (Solver {
        config: configured(a.solver.config, key, value),
        produce_unsat_cores: if key == "produce-unsat-cores"@ {
            value == "true"@
        } else {
            a.solver.produce_unsat_cores
        },
        last_check: if is_setting(key) {
            None
        } else {
            a.solver.last_check
        },
        ..a.solver
    })
    &&& b.random_seed == seeded(a.random_seed, key, value)
    &&& *b == (Context {
        options: b.options,
        solver: b.solver,
        random_seed: b.random_seed,
        ..*a
    })
}

/// A constant of a written sort was declared.
pub open spec fn const_written(
    a: &Context,
    b: &Context,
    name: Seq<char>,
    sort: Seq<char>,
    id: SortId,
    t: TermId,
) -> bool {
    &&& store_grew(&a.terms, &b.terms)
    &&& denotes(env_of(&b.terms, &b.sort_names), sort, id)
    &&& const_declared(a, b, name, id, t)
    &&& *b == (Context {
        terms: b.terms,
        declared_consts: b.declared_consts,
        const_index: b.const_index,
        ..*a
    })
}

/// A function of written sorts was declared.
pub open spec fn fun_written(
    a: &Context,
    b: &Context,
    name: Seq<char>,
    args: Seq<Seq<char>>,
    ret: Seq<char>,
    ids: Seq<SortId>,
    id: SortId,
) -> bool {
    &&& store_grew(&a.terms, &b.terms)
    &&& all_denote(&b.terms, &b.sort_names, args, ids)
    &&& denotes(env_of(&b.terms, &b.sort_names), ret, id)
    &&& fun_declared(a, b, name, ids, id)
    &&& *b == (Context {
        terms: b.terms,
        declared_funs: b.declared_funs,
        fun_index: b.fun_index,
        ..*a
    })
}

/// An assertion was entered; `r` is what it was rewritten to, with its place,
/// and whether there is more to do.
pub open spec fn assertion_entered(
    a: &Context,
    b: &Context,
    term: TermId,
    r: (TermId, usize, bool),
) -> bool {
    &&& grew(&a.terms, &b.terms)
    &&& b.assertions@ == a.assertions@.push(term)
    &&& b.solver.only_asserts(&a.solver)
    &&& rewritten(
        a.terms.terms(),
        &a.solver.tables,
        b.terms.terms(),
        &b.solver.tables,
        term,
        r.0,
    )
    &&& r.1 == a.solver.goal@.j.assertions.len()
    &&& r.2 == (r.0 != FALSE_TERM && r.0 != TRUE_TERM && nesting(b.terms.terms(), r.0 as int)
        <= ENCODE_DEPTH_LIMIT)
    &&& entered(b.terms.terms(), a.solver.goal@, b.solver.goal@, r.0, None)
    &&& *b == (Context { terms: b.terms, solver: b.solver, assertions: b.assertions, ..*a })
}

/// The value is none that the limit, or the mode, can have.
pub open spec fn malformed(key: Seq<char>, value: Seq<char>) -> bool {
    ||| (key == "timeout"@ || key == "max-conflicts"@ || key == "max_conflicts"@ || key
        == "max-decisions"@ || key == "max_decisions"@) && word_named(value) is None
    ||| (key == "theory-mode"@ || key == "theory_mode"@) && mode_named(value) is None
}

/// Setting an option records the value and leaves the other options alone, a
/// malformed limit or mode leaves the configuration alone, and a colon before
/// the key changes nothing.
pub proof fn options_are_recorded(a: &Context, b: &Context, key: Seq<char>, value: Seq<char>)
    requires
        option_set(a, b, plain_key(key), value),
    ensures
        b.options@.contains_key(plain_key(key)),
        b.options@[plain_key(key)]@ == value,
        forall|x: Seq<char>|
            x != plain_key(key) ==> (#[trigger] b.options@.contains_key(x)
                == a.options@.contains_key(x)),
        forall|x: Seq<char>|
            x != plain_key(key) && a.options@.contains_key(x) ==> (#[trigger] b.options@[x])
                == a.options@[x],
        malformed(plain_key(key), value) ==> b.solver == (Solver { last_check: None, ..a.solver }),
        !is_setting(plain_key(key)) ==> b.solver == a.solver && b.random_seed == a.random_seed,
        option_set(a, b, plain_key(seq![':'] + key), value),
{
    colons_do_not_matter(key);
    reveal_strlit("produce-proofs");
    reveal_strlit("produce-unsat-cores");
    reveal_strlit("timeout");
    reveal_strlit("max-conflicts");
    reveal_strlit("max_conflicts");
    reveal_strlit("max-decisions");
    reveal_strlit("max_decisions");
    reveal_strlit("theory-mode");
    reveal_strlit("theory_mode");
    let k = plain_key(key);
    if malformed(k, value) {
        assert(k.len() == 7 || k.len() == 11 || k.len() == 13);
        assert("produce-proofs"@.len() == 14 && "produce-unsat-cores"@.len() == 19);
        assert("timeout"@.len() == 7 && "theory-mode"@.len() == 11 && "theory_mode"@.len() == 11);
        assert("max-conflicts"@.len() == 13 && "max_conflicts"@.len() == 13);
        assert("max-decisions"@.len() == 13 && "max_decisions"@.len() == 13);
    }
    assert("max-conflicts"@[4] == 'c' && "max_conflicts"@[4] == 'c');
    assert("max-decisions"@[4] == 'd' && "max_decisions"@[4] == 'd');
}

/// What is asked for after an assertion was entered.
pub open spec fn asks_encoding(r: (TermId, usize, bool), step: Step) -> bool {
    if r.2 {
        step == Step::Ask(Request::Encode { term: r.0, index: r.1 })
    } else {
        step == Step::Silent
    }
}

/// A constant was defined: declared, and equated with its body.  A body that is
/// of no sort that the constant can be equated with is reported.
pub open spec fn const_defined(
    a: &Context,
    b: &Context,
    name: Seq<char>,
    sort: Seq<char>,
    body: TermId,
    step: Step,
) -> bool {
    exists|c: Context, id: SortId, t: TermId| #[trigger]
        const_written(a, &c, name, sort, id, t) && body_equated(&c, b, t, body, step)
}

pub open spec fn body_equated(
    c: &Context,
    b: &Context,
    t: TermId,
    body: TermId,
    step: Step,
) -> bool {
    let s = c.terms.terms();
    if comparable(s[t as int].sort, s[body as int].sort) {
        exists|d: Context, eq: TermId, r: (TermId, usize, bool)|
            d == (Context { terms: d.terms, ..*c }) && eq_built(
                s,
                d.terms.terms(),
                t,
                body,
                eq,
            ) && #[trigger] assertion_entered(&d, b, eq, r) && asks_encoding(r, step)
    } else {
        *b == *c && says_text(step, "(error \"the body has another sort\")"@)
    }
}

/// A data type was declared.
pub open spec fn datatype_declared(
    a: &Context,
    b: &Context,
    name: Seq<char>,
    constructors: Seq<ConstructorDecl>,
) -> bool {
    exists|sort: SortId| #[trigger]
        is_datatype(&b.terms, name, sort) && store_grew(&a.terms, &b.terms) && b.terms.terms()
            == a.terms.terms() && texts_of(b.sort_names.datatypes@) == texts_of(
            a.sort_names.datatypes@,
        ).push(name) && b.sort_names.aliases@ == a.sort_names.aliases@ && default_set(
            a.sort_names.defaults@,
            b.sort_names.defaults@,
            name,
            constructors,
        ) && funs_added(
            &Context { terms: b.terms, sort_names: b.sort_names, ..*a },
            b,
            datatype_funs(constructors, sort, constructors.len() as int),
        )
}

pub open spec fn datatypes_declared(
    a: &Context,
    list: Seq<(String, Vec<ConstructorDecl>)>,
    n: int,
    b: &Context,
) -> bool
    decreases n,
{
    if n <= 0 {
        *b == *a
    } else {
        exists|c: Context|
            datatypes_declared(a, list, n - 1, &c) && #[trigger] datatype_declared(
                &c,
                b,
                list[n - 1].0@,
                list[n - 1].1@,
            )
    }
}

/// What a command does, and what it leads to.
pub open spec fn executed(a: &Context, cmd: Command, b: &Context, step: Step) -> bool {
    match cmd {
        Command::SetLogic(logic) => logic_set(a, b, logic@) && step == Step::Silent,
        Command::DeclareConst(name, sort) => step == Step::Silent && exists|id: SortId, t: TermId|
         #[trigger]
            const_written(a, b, name@, sort@, id, t),
        Command::DeclareFun(name, args, ret) => step == Step::Silent && if args@.len() == 0 {
            exists|id: SortId, t: TermId| #[trigger] const_written(a, b, name@, ret@, id, t)
        } else {
            exists|ids: Seq<SortId>, id: SortId| #[trigger]
                fun_written(a, b, name@, texts_of(args@), ret@, ids, id)
        },
        Command::Assert(t) => exists|r: (TermId, usize, bool)| #[trigger]
            assertion_entered(a, b, t, r) && asks_encoding(r, step),
        Command::CheckSat => *b == *a && step == Step::Ask(Request::CheckSat),
        Command::Push(n) => pushed_times(a, n as int, b) && step == Step::Silent,
        Command::Pop(n) => popped_times(a, n as int, b) && step == Step::Silent,
        Command::Reset => was_reset(a, b) && step == Step::Silent,
        Command::ResetAssertions => assertions_reset(a, b) && step == Step::Silent,
        Command::Exit => *b == *a && step == Step::Stop,
        Command::Echo(text) => *b == *a && says_text(step, text@),
        Command::GetModel => *b == *a && step == Step::Ask(Request::ShowModel),
        Command::GetAssertions => *b == *a && step == Step::Ask(Request::PrintAssertions),
        Command::GetAssignment => *b == *a && says_text(
            step,
            if a.has_model() {
                listed(
                    assignment_parts(
                        a.terms.terms(),
                        a.solver.model->0.assignments@,
                        a.declared_consts@,
                        a.declared_consts@.len() as int,
                    ),
                    " "@,
                )
            } else {
                "()"@
            },
        ),
        Command::GetProof => *b == *a && step == Step::Ask(Request::ShowProof),
        Command::GetOption(key) => *b == *a && says_text(
            step,
            if a.options@.contains_key(key@) {
                a.options@[key@]@
            } else {
                option_default(key@)
            },
        ),
        Command::SetOption(key, value) => option_set(a, b, plain_key(key@), value@) && step
            == Step::Silent,
        Command::CheckSatAssuming(list) => *b == *a && step == Step::Ask(
            Request::CheckSatAssuming(list),
        ),
        Command::Simplify(t) => *b == *a && step == Step::Ask(Request::Simplify(t)),
        Command::GetUnsatCore => *b == *a && says_text(
            step,
            match a.solver.unsat_core {
                Some(core) => listed(texts_of(core.names@), " "@),
                None => "(error \"No unsat core available\")"@,
            },
        ),
        Command::GetUnsatAssumptions => *b == *a && step == Step::Ask(Request::PrintAssumptions),
        Command::GetValue(list) => *b == *a && if a.has_model() {
            step == Step::Ask(Request::Evaluate(list))
        } else {
            says_text(step, "(error \"No model available\")"@)
        },
        Command::GetInfo(key) => *b == *a && says_text(
            step,
            info_text(plain_key(key@), a.solver.statistics, a.last_result),
        ),
        Command::SetInfo => *b == *a && step == Step::Silent,
        Command::DeclareSort(name, arity) => {
            &&& step == Step::Silent
            &&& b.declared_sorts@ == a.declared_sorts@.insert(name@, arity)
            &&& store_grew(&a.terms, &b.terms)
            &&& if arity == 0 {
                exists|id: SortId| #[trigger]
                    denotes(env_of(&b.terms, &b.sort_names), name@, id)
            } else {
                b.terms == a.terms
            }
            &&& *b == (Context { terms: b.terms, declared_sorts: b.declared_sorts, ..*a })
        },
        Command::DefineSort(name, params, sort) => step == Step::Silent && if params@.len() == 0 {
            &&& store_grew(&a.terms, &b.terms)
            &&& b.sort_names.datatypes == a.sort_names.datatypes
            &&& b.sort_names.defaults == a.sort_names.defaults
            &&& exists|id: SortId|
                #[trigger] denotes(env_of(&b.terms, &a.sort_names), sort@, id)
                    && b.sort_names.aliases@ == a.sort_names.aliases@.insert(name@, id)
            &&& *b == (Context { terms: b.terms, sort_names: b.sort_names, ..*a })
        } else {
            *b == *a
        },
        Command::DefineFun(name, params, ret, body) => if params@.len() == 0 {
            const_defined(a, b, name@, ret@, body, step)
        } else {
            step == Step::Silent && exists|ids: Seq<SortId>, id: SortId| #[trigger]
                fun_written(a, b, name@, texts_of(params@), ret@, ids, id)
        },
        Command::DeclareDatatypes(list) => datatypes_declared(a, list@, list@.len() as int, b)
            && step == Step::Silent,
    }
}

impl Context {
    fn push_times(&mut self, n: u32)
        requires
            old(self).valid(),
        ensures
            final(self).valid(),
            pushed_times(old(self), n as int, final(self)),
    {
        let ghost a = *self;
        let mut k: u32 = 0;
        while k < n
            invariant
                k <= n,
                self.valid(),
                pushed_times(&a, k as int, self),
            decreases n - k,
        {
            let ghost c = *self;
            self.push();
            proof {
                let m = k + 1;
                assert(pushed_times(&a, m - 1, &c) && pushed(&c, self));
            }
            k = k + 1;
        }
    }

    fn pop_times(&mut self, n: u32)
        requires
            old(self).valid(),
        ensures
            final(self).valid(),
            popped_times(old(self), n as int, final(self)),
    {
        let ghost a = *self;
        let mut k: u32 = 0;
        while k < n
            invariant
                k <= n,
                self.valid(),
                popped_times(&a, k as int, self),
            decreases n - k,
        {
            let ghost c = *self;
            self.pop();
            proof {
                let m = k + 1;
                assert(popped_times(&a, m - 1, &c) && popped_once(&c, self));
            }
            k = k + 1;
        }
    }

    fn enter_assertion(&mut self, term: TermId) -> (step: Step)
        requires
            old(self).valid(),
            term < old(self).terms.terms().len(),
        ensures
            final(self).valid(),
            exists|r: (TermId, usize, bool)| #[trigger]
                assertion_entered(old(self), final(self), term, r) && asks_encoding(r, step),
    {
        let ghost a = *self;
        let r = self.assert_term(term);
        assert(assertion_entered(&a, self, term, r));
        if r.2 {
            Step::Ask(Request::Encode { term: r.0, index: r.1 })
        } else {
            Step::Silent
        }
    }

    fn define_const(&mut self, name: &str, sort: &str, body: TermId) -> (step: Step)
        requires
            old(self).valid(),
            body < old(self).terms.terms().len(),
        ensures
            final(self).valid(),
            const_defined(old(self), final(self), name@, sort@, body, step),
    {
        let ghost a = *self;
        let (id, t) = self.declare_written(name, sort);
        let ghost c = *self;
        assert(const_written(&a, &c, name@, sort@, id, t));
        assert(self.terms.nodes@[t as int]@ == self.terms.terms()[t as int]);
        assert(self.terms.nodes@[body as int]@ == self.terms.terms()[body as int]);
        if !are_comparable(self.terms.nodes[t].sort, self.terms.nodes[body].sort) {
            let step = Step::Say(copy_text("(error \"the body has another sort\")"));
            assert(body_equated(&c, self, t, body, step));
            return step;
        }
        let eq = self.terms.mk_eq(t, body);
        let ghost d = *self;
        proof {
            assert(d == (Context { terms: d.terms, ..c }));
            assert(d.valid());
        }
        let step = self.enter_assertion(eq);
        assert(body_equated(&c, self, t, body, step));
        step
    }

    fn declare_written_fun(&mut self, name: &str, args: &Vec<String>, ret: &str)
        requires
            old(self).valid(),
        ensures
            final(self).valid(),
            exists|ids: Seq<SortId>, id: SortId| #[trigger]
                fun_written(
                    old(self),
                    final(self),
                    name@,
                    texts_of(args@),
                    ret@,
                    ids,
                    id,
                ),
    {
        let ghost a = *self;
        let (ids, id) = self.parse_signature(args, ret);
        let ghost seq = ids@;
        self.declare_fun(name, ids, id);
        assert(fun_written(&a, self, name@, texts_of(args@), ret@, seq, id));
    }

    fn define_sort(&mut self, name: &str, sort: &str)
        requires
            old(self).valid(),
        ensures
            final(self).valid(),
            store_grew(&old(self).terms, &final(self).terms),
            final(self).sort_names.datatypes == old(self).sort_names.datatypes,
            final(self).sort_names.defaults == old(self).sort_names.defaults,
            exists|id: SortId|
                #[trigger] denotes(env_of(&final(self).terms, &old(self).sort_names), sort@, id)
                    && final(self).sort_names.aliases@ == old(self).sort_names.aliases@.insert(
                    name@,
                    id,
                ),
            *final(self) == (Context {
                terms: final(self).terms,
                sort_names: final(self).sort_names,
                ..*old(self)
            }),
    {
        let ghost a = *self;
        let id = self.parse_sort(sort);
        self.sort_names.aliases.insert(copy_text(name), id);
        assert(denotes(env_of(&self.terms, &a.sort_names), sort@, id));
    }

    fn declare_datatypes(&mut self, list: &Vec<(String, Vec<ConstructorDecl>)>)
        requires
            old(self).valid(),
        ensures
            final(self).valid(),
            datatypes_declared(old(self), list@, list@.len() as int, final(self)),
    {
        let ghost a = *self;
        let mut k: usize = 0;
        while k < list.len()
            invariant
                k <= list.len(),
                self.valid(),
                datatypes_declared(&a, list@, k as int, self),
            decreases list.len() - k,
        {
            let ghost c = *self;
            let sort = self.declare_datatype(list[k].0.as_str(), &list[k].1);
            proof {
                let m = k + 1;
                assert(is_datatype(&self.terms, list@[m - 1].0@, sort));
                assert(datatype_declared(&c, self, list@[m - 1].0@, list@[m - 1].1@));
                assert(datatypes_declared(&a, list@, m - 1, &c));
            }
            k = k + 1;
        }
    }

    /// Carries out a command.
    pub fn execute(&mut self, cmd: Command) -> (step: Step)
        requires
            old(self).valid(),
            command_within(cmd, old(self).terms.terms().len() as int),
        ensures
            final(self).valid(),
            executed(old(self), cmd, final(self), step),
    {
        let ghost a = *self;
        match cmd {
            Command::SetLogic(logic) => {
                self.set_logic(logic.as_str());
                Step::Silent
            },
            Command::DeclareConst(name, sort) => {
                let (id, t) = self.declare_written(name.as_str(), sort.as_str());
                assert(const_written(&a, self, name@, sort@, id, t));
                Step::Silent
            },
            Command::DeclareFun(name, args, ret) => {
                if args.len() == 0 {
                    let (id, t) = self.declare_written(name.as_str(), ret.as_str());
                    assert(const_written(&a, self, name@, ret@, id, t));
                } else {
                    self.declare_written_fun(name.as_str(), &args, ret.as_str());
                }
                Step::Silent
            },
            Command::Assert(t) => self.enter_assertion(t),
            Command::CheckSat => Step::Ask(Request::CheckSat),
            Command::Push(n) => {
                self.push_times(n);
                Step::Silent
            },
            Command::Pop(n) => {
                self.pop_times(n);
                Step::Silent
            },
            Command::Reset => {
                self.reset();
                Step::Silent
            },
            Command::ResetAssertions => {
                self.reset_assertions();
                Step::Silent
            },
            Command::Exit => Step::Stop,
            Command::Echo(text) => Step::Say(text),
            Command::GetModel => Step::Ask(Request::ShowModel),
            Command::GetAssertions => Step::Ask(Request::PrintAssertions),
            Command::GetAssignment => Step::Say(self.get_assignment()),
            Command::GetProof => Step::Ask(Request::ShowProof),
            Command::GetOption(key) => Step::Say(self.format_option(key.as_str())),
            Command::SetOption(key, value) => {
                self.set_option(key.as_str(), value.as_str());
                Step::Silent
            },
            Command::CheckSatAssuming(list) => Step::Ask(Request::CheckSatAssuming(list)),
            Command::Simplify(t) => Step::Ask(Request::Simplify(t)),
            Command::GetUnsatCore => Step::Say(self.format_unsat_core()),
            Command::GetUnsatAssumptions => Step::Ask(Request::PrintAssumptions),
            Command::GetValue(list) => {
                match (self.last_result, &self.solver.model) {
                    (Some(SolverResult::Sat), Some(_)) => Step::Ask(Request::Evaluate(list)),
                    _ => Step::Say(copy_text("(error \"No model available\")")),
                }
            },
            Command::GetInfo(key) => Step::Say(self.get_info(key.as_str())),
            Command::SetInfo => Step::Silent,
            Command::DeclareSort(name, arity) => {
                if arity == 0 {
                    let id = self.parse_sort(name.as_str());
                    assert(denotes(env_of(&self.terms, &self.sort_names), name@, id));
                }
                self.declared_sorts.insert(name, arity);
                Step::Silent
            },
            Command::DefineSort(name, params, sort) => {
                if params.len() == 0 {
                    self.define_sort(name.as_str(), sort.as_str());
                }
                Step::Silent
            },
            Command::DefineFun(name, params, ret, body) => {
                if params.len() == 0 {
                    self.define_const(name.as_str(), ret.as_str(), body)
                } else {
                    self.declare_written_fun(name.as_str(), &params, ret.as_str());
                    Step::Silent
                }
            },
            Command::DeclareDatatypes(list) => {
                self.declare_datatypes(&list);
                Step::Silent
            },
        }
    }
}

/// The word for a verdict.
pub open spec fn verdict_text(result: SolverResult) -> Seq<char> {
    match result {
        SolverResult::Sat => "sat"@,
        SolverResult::Unsat => "unsat"@,
        SolverResult::Unknown => "unknown"@,
    }
}

fn verdict_word(result: SolverResult) -> (text: String)
    ensures
        text@ == verdict_text(result),
{
    match result {
        SolverResult::Sat => copy_text("sat"),
        SolverResult::Unsat => copy_text("unsat"),
        SolverResult::Unknown => copy_text("unknown"),
    }
}

/// The reply is of the kind that the request asks for.
pub open spec fn reply_fits(a: &Context, request: Request, reply: Reply) -> bool {
    match request {
        Request::Encode { .. } => reply == Reply::Done,
        Request::CheckSat | Request::CheckSatAssuming(_) => reply is Checked,
        Request::ShowModel => reply is Model,
        Request::PrintAssertions => reply matches Reply::Texts(list) && list@.len()
            == a.assertions@.len(),
        Request::PrintAssumptions => reply matches Reply::Texts(list) && list@.len()
            == a.last_assumptions@.len(),
        Request::Evaluate(_) => reply is Pairs,
        Request::Simplify(_) => reply is Text,
        Request::ShowProof => reply is Written,
    }
}

/// A check was concluded, with these assumptions.
pub open spec fn concluded(
    a: &Context,
    b: &Context,
    assumptions: Seq<TermId>,
    result: SolverResult,
    arrays_open: bool,
) -> bool {
    &&& b.last_assumptions@ == assumptions
    &&& *b == (Context {
        last_result: Some(withdrawn(result, arrays_open)),
        last_assumptions: b.last_assumptions,
        ..*a
    })
}

/// The model is shown.
pub open spec fn model_shown(a: &Context, source: &ModelSource, text: Seq<char>) -> bool {
    if a.has_model() {
        exists|out: Seq<(String, String, String)>|
            #[trigger] lists_constants(
                a.terms.terms(),
                env_of(&a.terms, &a.sort_names),
                &a.sort_names,
                a.solver.model->0.assignments@,
                source,
                a.declared_consts@,
                a.declared_consts@.len() as int,
                classes(
                    a.terms.sorts@,
                    a.solver.model->0.assignments@,
                    source.representatives@,
                    a.declared_consts@,
                    a.declared_consts@.len() as int,
                ),
                out,
            ) && text == model_text(Some(out))
    } else {
        text == model_text(None)
    }
}

/// What a reply does, and what is said.
pub open spec fn answered(
    a: &Context,
    request: Request,
    reply: Reply,
    b: &Context,
    said: Option<String>,
) -> bool {
    match (request, reply) {
        (Request::CheckSat, Reply::Checked { result, arrays_open }) => concluded(
            a,
            b,
            Seq::empty(),
            result,
            arrays_open,
        ) && (said matches Some(x) && x@ == verdict_text(withdrawn(result, arrays_open))),
        (Request::CheckSatAssuming(list), Reply::Checked { result, arrays_open }) => concluded(
            a,
            b,
            list@,
            result,
            arrays_open,
        ) && (said matches Some(x) && x@ == verdict_text(withdrawn(result, arrays_open))),
        (Request::ShowModel, Reply::Model(source)) => *b == *a && (said matches Some(x)
            && model_shown(a, &source, x@)),
        (Request::PrintAssertions, Reply::Texts(list)) => *b == *a && (said matches Some(x) && x@
            == listed(texts_of(list@), "\n "@)),
        (Request::PrintAssumptions, Reply::Texts(list)) => *b == *a && (said matches Some(x) && x@
            == (if a.last_result == Some(SolverResult::Unsat) {
            listed(texts_of(list@), " "@)
        } else {
            "(error \"unsat assumptions are only available after an unsat check-sat-assuming\")"@
        })),
        (Request::Evaluate(_), Reply::Pairs(list)) => *b == *a && (said matches Some(x) && x@ == (
        if a.has_model() {
            listed(pair_texts(list@), "\n "@)
        } else {
            "(error \"No model available\")"@
        })),
        (Request::Simplify(_), Reply::Text(text)) => *b == *a && (said matches Some(x) && x@
            == text@),
        (Request::ShowProof, Reply::Written(written)) => *b == *a && (said matches Some(x) && x@
            == (if a.last_result == Some(SolverResult::Unsat) {
            match written {
                Some(text) => text@,
                None => "(error \"Proof generation not enabled. Set :produce-proofs to true\")"@,
            }
        } else {
            "(error \"Proof is only available after unsat result\")"@
        })),
        _ => *b == *a && said is None,
    }
}

impl Context {
    /// Goes on after a request.
    pub fn answer(&mut self, request: Request, reply: Reply) -> (said: Option<String>)
        requires
            old(self).valid(),
            reply_fits(old(self), request, reply),
        ensures
            final(self).valid(),
            answered(old(self), request, reply, final(self), said),
    {
        match (request, reply) {
            (Request::CheckSat, Reply::Checked { result, arrays_open }) => {
                let none: Vec<TermId> = Vec::new();
                assert(none@ =~= Seq::<TermId>::empty());
                let r = self.conclude_check(none, result, arrays_open);
                Some(verdict_word(r))
            },
            (Request::CheckSatAssuming(list), Reply::Checked { result, arrays_open }) => {
                let r = self.conclude_check(list, result, arrays_open);
                Some(verdict_word(r))
            },
            (Request::ShowModel, Reply::Model(source)) => Some(self.format_model(&source)),
            (Request::PrintAssertions, Reply::Texts(list)) => Some(self.format_assertions(&list)),
            (Request::PrintAssumptions, Reply::Texts(list)) => Some(
                self.get_unsat_assumptions(&list),
            ),
            (Request::Evaluate(_), Reply::Pairs(list)) => Some(self.format_values(&list)),
            (Request::Simplify(_), Reply::Text(text)) => Some(text),
            (Request::ShowProof, Reply::Written(written)) => Some(self.get_proof(written)),
            _ => None,
        }
    }
}

/// A script that is being run.
pub struct Script {
    /// The commands that are left, the next one last.
    pub commands: Vec<Command>,
    pub output: Vec<String>,
}

/// A run over the commands that are left, up to a request or the end.
pub open spec fn runs(
    a: &Context,
    left: Seq<Command>,
    said: Seq<Seq<char>>,
    b: &Context,
    left_after: Seq<Command>,
    said_after: Seq<Seq<char>>,
    ask: Option<Request>,
) -> bool
    decreases left.len(),
{
    if left.len() == 0 {
        *b == *a && left_after == left && said_after == said && ask is None
    } else {
        exists|c: Context, step: Step|
            #[trigger] executed(a, left.last(), &c, step) && match step {
                Step::Silent => runs(&c, left.drop_last(), said, b, left_after, said_after, ask),
                Step::Say(text) => runs(
                    &c,
                    left.drop_last(),
                    said.push(text@),
                    b,
                    left_after,
                    said_after,
                    ask,
                ),
                Step::Ask(request) => *b == c && left_after == left.drop_last() && said_after
                    == said && ask == Some(request),
                Step::Stop => *b == c && left_after.len() == 0 && said_after == said && ask is None,
            }
    }
}

pub open spec fn commands_within(list: Seq<Command>, n: int) -> bool {
    forall|k: int| 0 <= k < list.len() ==> command_within(#[trigger] list[k], n)
}

/// Carrying out commands adds terms and takes none away.
proof fn lemma_terms_grow(a: &Context, cmd: Command, b: &Context, step: Step)
    requires
        a.valid(),
        executed(a, cmd, b, step),
    ensures
        a.terms.terms().len() <= b.terms.terms().len(),
{
    match cmd {
        Command::Push(n) => lemma_pushes_keep_terms(a, n as int, b),
        Command::Pop(n) => lemma_pops_keep_terms(a, n as int, b),
        Command::DeclareDatatypes(list) => lemma_datatypes_keep_terms(
            a,
            list@,
            list@.len() as int,
            b,
        ),
        Command::DefineFun(name, params, ret, body) => {
            if params@.len() == 0 {
                let (c, id, t) = choose|c: Context, id: SortId, t: TermId| #[trigger]
                    const_written(a, &c, name@, ret@, id, t) && body_equated(
                        &c,
                        b,
                        t,
                        body,
                        step,
                    );
                assert(const_written(a, &c, name@, ret@, id, t));
            }
        },
        _ => {},
    }
}

proof fn lemma_pushes_keep_terms(a: &Context, n: int, b: &Context)
    requires
        pushed_times(a, n, b),
    ensures
        b.terms == a.terms,
    decreases n,
{
    if n > 0 {
        let c = choose|c: Context| pushed_times(a, n - 1, &c) && #[trigger] pushed(&c, b);
        lemma_pushes_keep_terms(a, n - 1, &c);
    }
}

proof fn lemma_pops_keep_terms(a: &Context, n: int, b: &Context)
    requires
        popped_times(a, n, b),
    ensures
        b.terms == a.terms,
    decreases n,
{
    if n > 0 {
        let c = choose|c: Context| popped_times(a, n - 1, &c) && #[trigger] popped_once(&c, b);
        lemma_pops_keep_terms(a, n - 1, &c);
    }
}

proof fn lemma_datatypes_keep_terms(
    a: &Context,
    list: Seq<(String, Vec<ConstructorDecl>)>,
    n: int,
    b: &Context,
)
    requires
        datatypes_declared(a, list, n, b),
    ensures
        b.terms.terms() == a.terms.terms(),
    decreases n,
{
    if n > 0 {
        let c = choose|c: Context|
            datatypes_declared(a, list, n - 1, &c) && #[trigger] datatype_declared(
                &c,
                b,
                list[n - 1].0@,
                list[n - 1].1@,
            );
        lemma_datatypes_keep_terms(a, list, n - 1, &c);
    }
}

impl Script {
    /// A script from its commands, the first one first.
    pub fn new(commands: Vec<Command>) -> (r: Script)
        ensures
            r.commands@ == commands@.reverse(),
            r.output@.len() == 0,
    {
        let mut rest = commands;
        let ghost all = rest@;
        let mut reversed: Vec<Command> = Vec::new();
        assert(reversed@ =~= all.skip(all.len() as int).reverse());
        assert(all.take(all.len() as int) =~= all);
        while rest.len() > 0
            invariant
                rest@.len() <= all.len(),
                rest@ == all.take(rest@.len() as int),
                reversed@ == all.skip(rest@.len() as int).reverse(),
            decreases rest.len(),
        {
            let ghost n = rest@.len() as int;
            if let Some(c) = rest.pop() {
                reversed.push(c);
                proof {
                    assert(c == all[n - 1]);
                    assert(all.skip(n - 1).reverse() =~= all.skip(n).reverse().push(c));
                    assert(rest@ =~= all.take(n - 1));
                }
            }
        }
        assert(all.skip(0) =~= all);
        Script { commands: reversed, output: Vec::new() }
    }

    /// Runs commands until one of them asks for something, or the script ends.
    pub fn run(&mut self, ctx: &mut Context) -> (ask: Option<Request>)
        requires
            old(ctx).valid(),
            commands_within(old(self).commands@, old(ctx).terms.terms().len() as int),
        ensures
            final(ctx).valid(),
            commands_within(final(self).commands@, final(ctx).terms.terms().len() as int),
            ask is None ==> final(self).commands@.len() == 0,
            runs(
                old(ctx),
                old(self).commands@,
                texts_of(old(self).output@),
                final(ctx),
                final(self).commands@,
                texts_of(final(self).output@),
                ask,
            ),
    {
        let ghost a = *ctx;
        let ghost left = self.commands@;
        let ghost said = texts_of(self.output@);
        while self.commands.len() > 0
            invariant
                a == *old(ctx),
                left == old(self).commands@,
                said == texts_of(old(self).output@),
                ctx.valid(),
                commands_within(self.commands@, ctx.terms.terms().len() as int),
                forall|b: &Context, l: Seq<Command>, o: Seq<Seq<char>>, q: Option<Request>|
                    #[trigger] runs(ctx, self.commands@, texts_of(self.output@), b, l, o, q)
                        ==> runs(&a, left, said, b, l, o, q),
            decreases self.commands.len(),
        {
            let ghost now = *ctx;
            let ghost here = self.commands@;
            let ghost before = self.output@;
            if let Some(cmd) = self.commands.pop() {
                assert(cmd == here.last());
                assert(self.commands@ =~= here.drop_last());
                assert(command_within(here[here.len() - 1], now.terms.terms().len() as int));
                let step = ctx.execute(cmd);
                let ghost seen = step;
                proof {
                    lemma_terms_grow(&now, cmd, ctx, step);
                    assert forall|k: int| 0 <= k < self.commands@.len() implies command_within(
                        #[trigger] self.commands@[k],
                        ctx.terms.terms().len() as int,
                    ) by {
                        assert(self.commands@[k] == here[k]);
                    }
                    assert(executed(&now, here.last(), ctx, step));
                }
                match step {
                    Step::Silent => {
                        proof {
                            assert forall|
                                b: &Context,
                                l: Seq<Command>,
                                o: Seq<Seq<char>>,
                                q: Option<Request>,
                            | #[trigger]
                                runs(ctx, self.commands@, texts_of(self.output@), b, l, o, q)
                                    implies runs(&a, left, said, b, l, o, q) by {
                                assert(executed(&now, here.last(), ctx, seen));
                                assert(runs(&now, here, texts_of(before), b, l, o, q));
                            }
                        }
                    },
                    Step::Say(text) => {
                        let ghost spoken = text@;
                        self.output.push(text);
                        proof {
                            assert(texts_of(self.output@) =~= texts_of(before).push(spoken));
                            assert forall|
                                b: &Context,
                                l: Seq<Command>,
                                o: Seq<Seq<char>>,
                                q: Option<Request>,
                            | #[trigger]
                                runs(ctx, self.commands@, texts_of(self.output@), b, l, o, q)
                                    implies runs(&a, left, said, b, l, o, q) by {
                                assert(executed(&now, here.last(), ctx, seen));
                                assert(runs(&now, here, texts_of(before), b, l, o, q));
                            }
                        }
                    },
                    Step::Ask(request) => {
                        proof {
                            assert(runs(
                                &now,
                                here,
                                texts_of(before),
                                ctx,
                                self.commands@,
                                texts_of(self.output@),
                                Some(request),
                            ));
                        }
                        return Some(request);
                    },
                    Step::Stop => {
                        self.commands.clear();
                        proof {
                            assert(runs(
                                &now,
                                here,
                                texts_of(before),
                                ctx,
                                self.commands@,
                                texts_of(self.output@),
                                None,
                            ));
                        }
                        return None;
                    },
                }
            }
        }
        proof {
            assert(runs(
                ctx,
                self.commands@,
                texts_of(self.output@),
                ctx,
                self.commands@,
                texts_of(self.output@),
                None,
            ));
        }
        None
    }

    /// Takes the reply to a request, and notes what is said.
    pub fn resume(&mut self, ctx: &mut Context, request: Request, reply: Reply)
        requires
            old(ctx).valid(),
            reply_fits(old(ctx), request, reply),
        ensures
            final(ctx).valid(),
            final(self).commands == old(self).commands,
            exists|said: Option<String>| #[trigger]
                answered(old(ctx), request, reply, final(ctx), said) && texts_of(
                    final(self).output@,
                ) == (match said {
                    Some(x) => texts_of(old(self).output@).push(x@),
                    None => texts_of(old(self).output@),
                }),
    {
        let ghost before = self.output@;
        let said = ctx.answer(request, reply);
        let ghost spoken = said;
        if let Some(text) = said {
            self.output.push(text);
            assert(texts_of(self.output@) =~= texts_of(before).push(spoken->0@));
        }
    }
}

/// The pieces of a text between commas, from place `k` on; `piece` is what the
/// current piece holds so far.
pub open spec fn pieces_from(s: Seq<char>, k: int, piece: Seq<char>) -> Seq<Seq<char>>
    decreases s.len() - k,
{
    if 0 <= k < s.len() {
        if s[k] == ',' {
            piece_kept(piece) + pieces_from(s, k + 1, Seq::empty())
        } else {
            pieces_from(s, k + 1, piece.push(s[k]))
        }
    } else {
        piece_kept(piece)
    }
}

/// The piece without white space around it, if anything is left.
pub open spec fn piece_kept(piece: Seq<char>) -> Seq<Seq<char>> {
    if trim(piece).len() > 0 {
        seq![trim(piece)]
    } else {
        Seq::empty()
    }
}

fn keep_piece(out: &mut Vec<String>, piece: &Vec<char>)
    ensures
        texts_of(final(out)@) == texts_of(old(out)@) + piece_kept(piece@),
{
    let ghost before = out@;
    let (a, b) = trim_range(piece);
    if a < b {
        let text = string_of(piece, a, b);
        let ghost kept = text@;
        out.push(text);
        assert(texts_of(out@) =~= texts_of(before) + seq![kept]);
    } else {
        assert(texts_of(out@) =~= texts_of(before) + Seq::<Seq<char>>::empty());
    }
}

/// The names in a list with commas.
pub fn split_names(text: &str) -> (names: Vec<String>)
    ensures
        texts_of(names@) == pieces_from(text@, 0, Seq::empty()),
{
    let v = chars_of(text);
    let mut out: Vec<String> = Vec::new();
    let mut piece: Vec<char> = Vec::new();
    let mut k: usize = 0;
    assert(piece@ =~= Seq::<char>::empty());
    assert(texts_of(out@) + pieces_from(v@, 0, piece@) =~= pieces_from(v@, 0, piece@));
    while k < v.len()
        invariant
            k <= v.len(),
            v@ == text@,
            texts_of(out@) + pieces_from(v@, k as int, piece@) == pieces_from(
                v@,
                0,
                Seq::empty(),
            ),
        decreases v.len() - k,
    {
        let c = v[k];
        let ghost done = texts_of(out@);
        if c == ',' {
            let ghost held = piece@;
            keep_piece(&mut out, &piece);
            piece.clear();
            proof {
                assert(piece@ =~= Seq::<char>::empty());
                assert(done + (piece_kept(held) + pieces_from(v@, k + 1, Seq::empty())) =~= (done
                    + piece_kept(held)) + pieces_from(v@, k + 1, Seq::empty()));
            }
        } else {
            piece.push(c);
        }
        k = k + 1;
    }
    keep_piece(&mut out, &piece);
    out
}

} // verus!
