//! What a session answers: options, models, cores and statistics as text.

use crate::context::Context;
use crate::declared::{
    classes, entries_listed, list_constants, lists_constants, most_common, most_common_value,
    shown_entries, shown_places, DeclaredConst, DeclaredFun, FuncAppEntry, ModelSource,
};
use crate::render::{default_text, default_value};
use crate::search::SolverResult;
use crate::solver::{Solver, SolverConfig, Statistics, TheoryMode};
use crate::sorts::{env_of, texts_of};
use crate::terms::{DataView, Op, TermId, TermStore, TermView, BOOL_SORT};
use crate::text::{
    append, append_decimal, chars_of, copy_text, decimal, number_upto, read_number, same_text,
    string_of, trim, trim_range,
};
use vstd::prelude::*;

verus! {

/// The parts with the separator between them.
pub open spec fn joined(parts: Seq<Seq<char>>, separator: Seq<char>, n: int) -> Seq<char>
    decreases n,
{
    if n <= 0 {
        Seq::empty()
    } else if n == 1 {
        parts[0]
    } else {
        joined(parts, separator, n - 1) + separator + parts[n - 1]
    }
}

pub(crate) fn join(parts: &Vec<String>, separator: &str) -> (r: String)
    ensures
        r@ == joined(texts_of(parts@), separator@, parts@.len() as int),
{
    let mut r = String::new();
    let mut k: usize = 0;
    assert(r@ =~= joined(texts_of(parts@), separator@, 0));
    while k < parts.len()
        invariant
            k <= parts.len(),
            r@ == joined(texts_of(parts@), separator@, k as int),
        decreases parts.len() - k,
    {
        let ghost before = r@;
        if k > 0 {
            append(&mut r, separator);
        }
        append(&mut r, parts[k].as_str());
        proof {
            assert(texts_of(parts@)[k as int] == parts@[k as int]@);
            assert(r@ =~= joined(texts_of(parts@), separator@, k + 1));
        }
        k = k + 1;
    }
    r
}

/// The parts in parentheses.
pub open spec fn listed(parts: Seq<Seq<char>>, separator: Seq<char>) -> Seq<char> {
    "("@ + joined(parts, separator, parts.len() as int) + ")"@
}

pub(crate) fn list(parts: &Vec<String>, separator: &str) -> (r: String)
    ensures
        r@ == listed(texts_of(parts@), separator@),
{
    let mut r = String::new();
    append(&mut r, "(");
    let inner = join(parts, separator);
    append(&mut r, inner.as_str());
    append(&mut r, ")");
    assert(r@ =~= listed(texts_of(parts@), separator@));
    r
}

/// The key without colons before it.
pub open spec fn plain_key(key: Seq<char>) -> Seq<char>
    decreases key.len(),
{
    if key.len() > 0 && key[0] == ':' {
        plain_key(key.drop_first())
    } else {
        key
    }
}

/// A key means the same with a colon before it.
pub proof fn colons_do_not_matter(key: Seq<char>)
    ensures
        plain_key(seq![':'] + key) == plain_key(key),
{
    let with = seq![':'] + key;
    assert(with[0] == ':');
    assert(with.drop_first() =~= key);
}

fn strip_colons(key: &str) -> (r: String)
    ensures
        r@ == plain_key(key@),
{
    let v = chars_of(key);
    let mut k: usize = 0;
    assert(v@.skip(0) =~= v@);
    while k < v.len() && v[k] == ':'
        invariant
            k <= v.len(),
            plain_key(v@) == plain_key(v@.skip(k as int)),
        decreases v.len() - k,
    {
        assert(v@.skip(k as int).drop_first() =~= v@.skip(k + 1));
        k = k + 1;
    }
    assert(v@.subrange(k as int, v@.len() as int) =~= v@.skip(k as int));
    string_of(&v, k, v.len())
}

/// A letter's code without regard to its case.
pub open spec fn folded(c: char) -> int {
    let x = c as u32 as int;
    if 65 <= x <= 90 {
        x + 32
    } else {
        x
    }
}

/// The text is the word in lower case, whatever the case of its letters.
pub open spec fn says(text: Seq<char>, word: Seq<char>) -> bool {
    text.len() == word.len() && forall|k: int|
        0 <= k < text.len() ==> folded(#[trigger] text[k]) == word[k] as u32 as int
}

fn is_saying(text: &Vec<char>, from: usize, to: usize, word: &str) -> (b: bool)
    requires
        from <= to <= text@.len(),
    ensures
        b == says(text@.subrange(from as int, to as int), word@),
{
    let w = chars_of(word);
    let ghost part = text@.subrange(from as int, to as int);
    if w.len() != to - from {
        return false;
    }
    let mut k: usize = 0;
    while k < w.len()
        invariant
            k <= w.len(),
            w@ == word@,
            w.len() == to - from,
            from <= to <= text@.len(),
            part == text@.subrange(from as int, to as int),
            forall|j: int| 0 <= j < k ==> folded(#[trigger] part[j]) == w@[j] as u32 as int,
        decreases w.len() - k,
    {
        let c: u32 = text[from + k] as u32;
        let low: u32 = if c >= 65 && c <= 90 {
            c + 32
        } else {
            c
        };
        let want: u32 = w[k] as u32;
        assert(part[k as int] == text@[from + k]);
        if low != want {
            return false;
        }
        k = k + 1;
    }
    true
}

/// The mode that the text names.
pub open spec fn mode_named(text: Seq<char>) -> Option<TheoryMode> {
    if says(trim(text), "lazy"@) {
        Some(TheoryMode::Lazy)
    } else if says(trim(text), "eager"@) {
        Some(TheoryMode::Eager)
    } else {
        None
    }
}

/// The number that the text is.
pub open spec fn word_named(text: Seq<char>) -> Option<u64> {
    match number_upto(trim(text), u64::MAX as nat) {
        Some(n) => Some(n as u64),
        None => None,
    }
}

fn read_word(text: &str) -> (r: Option<u64>)
    ensures
        r == word_named(text@),
{
    let v = chars_of(text);
    let (a, b) = trim_range(&v);
    read_number(&v, a, b, u64::MAX)
}

fn read_mode(text: &str) -> (r: Option<TheoryMode>)
    ensures
        r == mode_named(text@),
{
    let v = chars_of(text);
    let (a, b) = trim_range(&v);
    if is_saying(&v, a, b, "lazy") {
        Some(TheoryMode::Lazy)
    } else if is_saying(&v, a, b, "eager") {
        Some(TheoryMode::Eager)
    } else {
        None
    }
}

/// The configuration after an option was set.  A value that is no value of the
/// option changes nothing.
pub open spec fn configured(c: SolverConfig, key: Seq<char>, value: Seq<char>) -> SolverConfig {
    if key == "produce-proofs"@ {
        SolverConfig { proof: value == "true"@, ..c }
    } else if key == "timeout"@ {
        match word_named(value) {
            Some(n) => SolverConfig { timeout_ms: n, ..c },
            None => c,
        }
    } else if key == "max-conflicts"@ || key == "max_conflicts"@ {
        match word_named(value) {
            Some(n) => SolverConfig { max_conflicts: n, ..c },
            None => c,
        }
    } else if key == "max-decisions"@ || key == "max_decisions"@ {
        match word_named(value) {
            Some(n) => SolverConfig { max_decisions: n, ..c },
            None => c,
        }
    } else if key == "theory-mode"@ || key == "theory_mode"@ {
        match mode_named(value) {
            Some(m) => SolverConfig { theory_mode: m, ..c },
            None => c,
        }
    } else if key == "simplify"@ {
        SolverConfig { simplify: value == "true"@, ..c }
    } else {
        c
    }
}

fn configure(c: &SolverConfig, key: &str, value: &str) -> (r: SolverConfig)
    ensures
        r == configured(*c, key@, value@),
{
    if same_text(key, "produce-proofs") {
        SolverConfig { proof: same_text(value, "true"), ..*c }
    } else if same_text(key, "timeout") {
        match read_word(value) {
            Some(n) => SolverConfig { timeout_ms: n, ..*c },
            None => *c,
        }
    } else if same_text(key, "max-conflicts") || same_text(key, "max_conflicts") {
        match read_word(value) {
            Some(n) => SolverConfig { max_conflicts: n, ..*c },
            None => *c,
        }
    } else if same_text(key, "max-decisions") || same_text(key, "max_decisions") {
        match read_word(value) {
            Some(n) => SolverConfig { max_decisions: n, ..*c },
            None => *c,
        }
    } else if same_text(key, "theory-mode") || same_text(key, "theory_mode") {
        match read_mode(value) {
            Some(m) => SolverConfig { theory_mode: m, ..*c },
            None => *c,
        }
    } else if same_text(key, "simplify") {
        SolverConfig { simplify: same_text(value, "true"), ..*c }
    } else {
        *c
    }
}

/// The seed after an option was set.
pub open spec fn seeded(seed: u64, key: Seq<char>, value: Seq<char>) -> u64 {
    if key == "random-seed"@ || key == "random_seed"@ {
        match word_named(value) {
            Some(n) => n,
            None => seed,
        }
    } else {
        seed
    }
}

/// The option is one that a check reads.
pub open spec fn is_setting(key: Seq<char>) -> bool {
    key == "produce-proofs"@ || key == "produce-unsat-cores"@ || key == "timeout"@ || key
        == "max-conflicts"@ || key == "max_conflicts"@ || key == "max-decisions"@ || key
        == "max_decisions"@ || key == "theory-mode"@ || key == "theory_mode"@ || key
        == "simplify"@ || key == "random-seed"@ || key == "random_seed"@
}

fn names_setting(key: &str) -> (b: bool)
    ensures
        b == is_setting(key@),
{
    same_text(key, "produce-proofs") || same_text(key, "produce-unsat-cores") || same_text(
        key,
        "timeout",
    ) || same_text(key, "max-conflicts") || same_text(key, "max_conflicts") || same_text(
        key,
        "max-decisions",
    ) || same_text(key, "max_decisions") || same_text(key, "theory-mode") || same_text(
        key,
        "theory_mode",
    ) || same_text(key, "simplify") || same_text(key, "random-seed") || same_text(
        key,
        "random_seed",
    )
}

/// What an option that was not set is.
pub open spec fn option_default(key: Seq<char>) -> Seq<char> {
    if key == "produce-models"@ || key == "produce-unsat-cores"@ || key == "produce-proofs"@ || key
        == "produce-assignments"@ || key == "print-success"@ {
        "false"@
    } else {
        "unsupported"@
    }
}

/// Options.
impl Context {
    /// Sets an option.  Every option is recorded; those that are known take
    /// effect.
    pub fn set_option(&mut self, key: &str, value: &str)
        requires
            old(self).valid(),
        ensures
            final(self).valid(),
            final(self).options@.contains_key(plain_key(key@)),
            final(self).options@[plain_key(key@)]@ == value@,
            forall|x: Seq<char>|
                x != plain_key(key@) ==> (#[trigger] final(self).options@.contains_key(x) == old(self).options@.contains_key(x)),
            forall|x: Seq<char>|
                x != plain_key(key@) && old(self).options@.contains_key(x) ==> (
                #[trigger] final(self).options@[x]) == old(self).options@[x],
            final(self).solver == (Solver {
                config: configured(old(self).solver.config, plain_key(key@), value@),
                produce_unsat_cores: if plain_key(key@) == "produce-unsat-cores"@ {
                    value@ == "true"@
                } else {
                    old(self).solver.produce_unsat_cores
                },
                last_check: if is_setting(plain_key(key@)) {
                    None
                } else {
                    old(self).solver.last_check
                },
                ..old(self).solver
            }),
            final(self).random_seed == seeded(old(self).random_seed, plain_key(key@), value@),
            *final(self) == (Context {
                options: final(self).options,
                solver: final(self).solver,
                random_seed: final(self).random_seed,
                ..*old(self)
            }),
    {
        let ghost before = *self;
        let plain = strip_colons(key);
        self.options.insert(copy_text(plain.as_str()), copy_text(value));
        self.solver.config = configure(&self.solver.config, plain.as_str(), value);
        if same_text(plain.as_str(), "produce-unsat-cores") {
            self.solver.produce_unsat_cores = same_text(value, "true");
        }
        if names_setting(plain.as_str()) {
            self.solver.last_check = None;
        }
        if same_text(plain.as_str(), "random-seed") || same_text(plain.as_str(), "random_seed") {
            if let Some(seed) = read_word(value) {
                self.random_seed = seed;
            }
        }
    }

    pub fn get_option(&self, key: &str) -> (r: Option<&String>)
        requires
            self.options.wf(),
        ensures
            r is Some == self.options@.contains_key(key@),
            r matches Some(x) ==> *x == self.options@[key@],
    {
        self.options.get(key)
    }

    /// The value of an option, as text.
    pub fn format_option(&self, key: &str) -> (r: String)
        requires
            self.options.wf(),
        ensures
            r@ == (if self.options@.contains_key(key@) {
                self.options@[key@]@
            } else {
                option_default(key@)
            }),
    {
        match self.options.get(key) {
            Some(x) => copy_text(x.as_str()),
            None => if same_text(key, "produce-models") || same_text(key, "produce-unsat-cores")
                || same_text(key, "produce-proofs") || same_text(key, "produce-assignments")
                || same_text(key, "print-success") {
                copy_text("false")
            } else {
                copy_text("unsupported")
            },
        }
    }

    pub fn solver_config(&self) -> (c: &SolverConfig)
        ensures
            *c == self.solver.config,
    {
        &self.solver.config
    }

    pub fn set_solver_config(&mut self, config: SolverConfig)
        requires
            old(self).valid(),
        ensures
            final(self).valid(),
            *final(self) == (Context {
                solver: Solver { config, last_check: None, ..old(self).solver },
                ..*old(self)
            }),
    {
        self.solver.set_config(config);
    }

    pub fn set_timeout_ms(&mut self, timeout_ms: u64)
        requires
            old(self).valid(),
        ensures
            final(self).valid(),
            *final(self) == (Context {
                solver: Solver {
                    config: SolverConfig { timeout_ms, ..old(self).solver.config },
                    last_check: None,
                    ..old(self).solver
                },
                ..*old(self)
            }),
    {
        self.solver.config.timeout_ms = timeout_ms;
        self.solver.last_check = None;
    }

    pub fn set_max_conflicts(&mut self, max_conflicts: u64)
        requires
            old(self).valid(),
        ensures
            final(self).valid(),
            *final(self) == (Context {
                solver: Solver {
                    config: SolverConfig { max_conflicts, ..old(self).solver.config },
                    last_check: None,
                    ..old(self).solver
                },
                ..*old(self)
            }),
    {
        self.solver.config.max_conflicts = max_conflicts;
        self.solver.last_check = None;
    }

    pub fn set_max_decisions(&mut self, max_decisions: u64)
        requires
            old(self).valid(),
        ensures
            final(self).valid(),
            *final(self) == (Context {
                solver: Solver {
                    config: SolverConfig { max_decisions, ..old(self).solver.config },
                    last_check: None,
                    ..old(self).solver
                },
                ..*old(self)
            }),
    {
        self.solver.config.max_decisions = max_decisions;
        self.solver.last_check = None;
    }

    pub fn set_theory_mode(&mut self, theory_mode: TheoryMode)
        requires
            old(self).valid(),
        ensures
            final(self).valid(),
            *final(self) == (Context {
                solver: Solver {
                    config: SolverConfig { theory_mode, ..old(self).solver.config },
                    last_check: None,
                    ..old(self).solver
                },
                ..*old(self)
            }),
    {
        self.solver.config.theory_mode = theory_mode;
        self.solver.last_check = None;
    }

    pub fn set_simplify(&mut self, simplify: bool)
        requires
            old(self).valid(),
        ensures
            final(self).valid(),
            *final(self) == (Context {
                solver: Solver {
                    config: SolverConfig { simplify, ..old(self).solver.config },
                    last_check: None,
                    ..old(self).solver
                },
                ..*old(self)
            }),
    {
        self.solver.config.simplify = simplify;
        self.solver.last_check = None;
    }
}

/// The statistics as text.
pub open spec fn statistics_text(x: Statistics) -> Seq<char> {
    "(:decisions "@ + decimal(x.decisions as nat) + " :conflicts "@ + decimal(x.conflicts as nat)
        + " :propagations "@ + decimal(x.propagations as nat) + " :restarts "@ + decimal(
        x.restarts as nat,
    ) + " :learned-clauses "@ + decimal(x.learned_clauses as nat) + " :theory-propagations "@
        + decimal(x.theory_propagations as nat) + " :theory-conflicts "@ + decimal(
        x.theory_conflicts as nat,
    ) + ")"@
}

/// The answer to a request for information.
pub open spec fn info_text(
    key: Seq<char>,
    statistics: Statistics,
    result: Option<SolverResult>,
) -> Seq<char> {
    if key == "all-statistics"@ {
        statistics_text(statistics)
    } else if key == "name"@ {
        "(:name \"oxiz\")"@
    } else if key == "version"@ {
        "(:version \"0.1.0\")"@
    } else if key == "authors"@ {
        "(:authors \"COOLJAPAN OU (Team Kitasan)\")"@
    } else if key == "error-behavior"@ {
        "(:error-behavior continued-execution)"@
    } else if key == "reason-unknown"@ {
        if result == Some(SolverResult::Unknown) {
            "(:reason-unknown incomplete)"@
        } else {
            "(:reason-unknown \"not applicable\")"@
        }
    } else {
        "(error \"unsupported info keyword: :"@ + key + "\")"@
    }
}

/// Information.
impl Context {
    pub fn get_statistics(&self) -> (r: String)
        ensures
            r@ == statistics_text(self.solver.statistics),
    {
        let x = &self.solver.statistics;
        let mut r = String::new();
        append(&mut r, "(:decisions ");
        append_decimal(&mut r, x.decisions);
        append(&mut r, " :conflicts ");
        append_decimal(&mut r, x.conflicts);
        append(&mut r, " :propagations ");
        append_decimal(&mut r, x.propagations);
        append(&mut r, " :restarts ");
        append_decimal(&mut r, x.restarts);
        append(&mut r, " :learned-clauses ");
        append_decimal(&mut r, x.learned_clauses);
        append(&mut r, " :theory-propagations ");
        append_decimal(&mut r, x.theory_propagations);
        append(&mut r, " :theory-conflicts ");
        append_decimal(&mut r, x.theory_conflicts);
        append(&mut r, ")");
        assert(r@ =~= statistics_text(self.solver.statistics));
        r
    }

    pub fn get_info(&self, keyword: &str) -> (r: String)
        ensures
            r@ == info_text(plain_key(keyword@), self.solver.statistics, self.last_result),
    {
        let plain = strip_colons(keyword);
        let key = plain.as_str();
        if same_text(key, "all-statistics") {
            self.get_statistics()
        } else if same_text(key, "name") {
            copy_text("(:name \"oxiz\")")
        } else if same_text(key, "version") {
            copy_text("(:version \"0.1.0\")")
        } else if same_text(key, "authors") {
            copy_text("(:authors \"COOLJAPAN OU (Team Kitasan)\")")
        } else if same_text(key, "error-behavior") {
            copy_text("(:error-behavior continued-execution)")
        } else if same_text(key, "reason-unknown") {
            match self.last_result {
                Some(SolverResult::Unknown) => copy_text("(:reason-unknown incomplete)"),
                _ => copy_text("(:reason-unknown \"not applicable\")"),
            }
        } else {
            let mut r = String::new();
            append(&mut r, "(error \"unsupported info keyword: :");
            append(&mut r, key);
            append(&mut r, "\")");
            assert(r@ =~= "(error \"unsupported info keyword: :"@ + plain_key(keyword@) + "\")"@);
            r
        }
    }

    /// The assertions, as the printer writes them.
    pub fn format_assertions(&self, printed: &Vec<String>) -> (r: String)
        requires
            printed@.len() == self.assertions@.len(),
        ensures
            r@ == listed(texts_of(printed@), "\n "@),
    {
        list(printed, "\n ")
    }

    /// The assumptions of the last check, as the printer writes them, where the
    /// check found them unsatisfiable.
    pub fn get_unsat_assumptions(&self, printed: &Vec<String>) -> (r: String)
        requires
            printed@.len() == self.last_assumptions@.len(),
        ensures
            r@ == (if self.last_result == Some(SolverResult::Unsat) {
                listed(texts_of(printed@), " "@)
            } else {
                "(error \"unsat assumptions are only available after an unsat check-sat-assuming\")"@
            }),
    {
        match self.last_result {
            Some(SolverResult::Unsat) => list(printed, " "),
            _ => copy_text(
                "(error \"unsat assumptions are only available after an unsat check-sat-assuming\")",
            ),
        }
    }

    /// The proof, as text, where there is one.
    pub fn get_proof(&self, written: Option<String>) -> (r: String)
        ensures
            r@ == (if self.last_result == Some(SolverResult::Unsat) {
                match written {
                    Some(x) => x@,
                    None => "(error \"Proof generation not enabled. Set :produce-proofs to true\")"@,
                }
            } else {
                "(error \"Proof is only available after unsat result\")"@
            }),
    {
        match self.last_result {
            Some(SolverResult::Unsat) => match written {
                Some(x) => x,
                None => copy_text(
                    "(error \"Proof generation not enabled. Set :produce-proofs to true\")",
                ),
            },
            _ => copy_text("(error \"Proof is only available after unsat result\")"),
        }
    }

    /// The names of the core, as text.
    pub fn format_unsat_core(&self) -> (r: String)
        ensures
            r@ == (match self.solver.unsat_core {
                Some(core) => listed(texts_of(core.names@), " "@),
                None => "(error \"No unsat core available\")"@,
            }),
    {
        match &self.solver.unsat_core {
            Some(core) => list(&core.names, " "),
            None => copy_text("(error \"No unsat core available\")"),
        }
    }

    /// The values of terms, as the printer writes them.
    pub fn format_values(&self, printed: &Vec<(String, String)>) -> (r: String)
        ensures
            r@ == (if self.last_result == Some(SolverResult::Sat) && self.solver.model is Some {
                listed(pair_texts(printed@), "\n "@)
            } else {
                "(error \"No model available\")"@
            }),
    {
        match (self.last_result, &self.solver.model) {
            (Some(SolverResult::Sat), Some(_)) => {
                let mut parts: Vec<String> = Vec::new();
                let mut k: usize = 0;
                while k < printed.len()
                    invariant
                        k <= printed.len(),
                        parts@.len() == k,
                        forall|j: int|
                            0 <= j < k ==> (#[trigger] parts@[j])@ == pair_texts(printed@)[j],
                    decreases printed.len() - k,
                {
                    let mut one = String::new();
                    append(&mut one, "(");
                    append(&mut one, printed[k].0.as_str());
                    append(&mut one, " ");
                    append(&mut one, printed[k].1.as_str());
                    append(&mut one, ")");
                    assert(one@ =~= pair_texts(printed@)[k as int]);
                    parts.push(one);
                    k = k + 1;
                }
                assert(texts_of(parts@) =~= pair_texts(printed@));
                list(&parts, "\n ")
            },
            _ => copy_text("(error \"No model available\")"),
        }
    }
}

/// Each pair in parentheses.
pub open spec fn pair_texts(pairs: Seq<(String, String)>) -> Seq<Seq<char>> {
    Seq::new(pairs.len(), |k: int| "("@ + pairs[k].0@ + " "@ + pairs[k].1@ + ")"@)
}

/// The truth value that a model shows for a constant; `false` where it shows
/// none.
pub open spec fn truth_text(s: Seq<TermView>, m: Map<TermId, TermId>, t: TermId) -> Seq<char> {
    if m.contains_key(t) && m[t] < s.len() && s[m[t] as int].op == Op::True {
        "true"@
    } else {
        "false"@
    }
}

/// The Boolean constants among the first `n` with their truth values.
pub open spec fn assignment_parts(
    s: Seq<TermView>,
    m: Map<TermId, TermId>,
    decls: Seq<DeclaredConst>,
    n: int,
) -> Seq<Seq<char>>
    decreases n,
{
    if n <= 0 {
        Seq::empty()
    } else {
        let before = assignment_parts(s, m, decls, n - 1);
        if decls[n - 1].sort == BOOL_SORT {
            before.push(
                "("@ + decls[n - 1].name@ + " "@ + truth_text(s, m, decls[n - 1].term) + ")"@,
            )
        } else {
            before
        }
    }
}

/// A line for each constant of a model.
pub open spec fn model_lines(model: Seq<(String, String, String)>) -> Seq<Seq<char>> {
    Seq::new(
        model.len() + 2,
        |k: int|
            if k == 0 {
                "(model"@
            } else if k <= model.len() {
                "  (define-fun "@ + model[k - 1].0@ + " () "@ + model[k - 1].1@ + " "@
                    + model[k - 1].2@ + ")"@
            } else {
                ")"@
            },
    )
}

/// The model as text.
pub open spec fn model_text(model: Option<Seq<(String, String, String)>>) -> Seq<char> {
    match model {
        None => "(error \"No model available\")"@,
        Some(list) => if list.len() == 0 {
            "(model)"@
        } else {
            joined(model_lines(list), "\n"@, list.len() as int + 2)
        },
    }
}

/// The function of that name that was declared first.
pub open spec fn function_at(funs: Seq<DeclaredFun>, name: Seq<char>, k: int) -> bool {
    &&& 0 <= k < funs.len()
    &&& funs[k].name@ == name
    &&& forall|j: int| 0 <= j < k ==> (#[trigger] funs[j]).name@ != name
}

/// The function is applied in some term.
pub open spec fn applied(store: &TermStore, name: Seq<char>) -> bool {
    exists|t: int| #[trigger] applies(store, name, t)
}

pub open spec fn applies(store: &TermStore, name: Seq<char>, t: int) -> bool {
    &&& 0 <= t < store.terms().len()
    &&& store.terms()[t].op == Op::Apply
    &&& store.terms()[t].data matches DataView::Name(n) && n < store.names@.len()
        && store.names@[n as int]@ == name
}

/// Models.
impl Context {
    /// There is a model to show.
    pub open spec fn has_model(&self) -> bool {
        self.last_result == Some(SolverResult::Sat) && self.solver.model is Some
    }

    /// Whether terms can be evaluated: the last check found a model.
    pub fn can_evaluate(&self) -> (b: bool)
        ensures
            b == self.has_model(),
    {
        match self.last_result {
            Some(SolverResult::Sat) => self.solver.model.is_some(),
            _ => false,
        }
    }

    /// Name, sort and value of each declared constant, where there is a model.
    pub fn get_model(&self, source: &ModelSource) -> (r: Option<Vec<(String, String, String)>>)
        requires
            self.valid(),
        ensures
            r is Some == self.has_model(),
            r matches Some(out) ==> lists_constants(
                self.terms.terms(),
                env_of(&self.terms, &self.sort_names),
                &self.sort_names,
                self.solver.model->0.assignments@,
                source,
                self.declared_consts@,
                self.declared_consts@.len() as int,
                classes(
                    self.terms.sorts@,
                    self.solver.model->0.assignments@,
                    source.representatives@,
                    self.declared_consts@,
                    self.declared_consts@.len() as int,
                ),
                out@,
            ),
    {
        match (self.last_result, &self.solver.model) {
            (Some(SolverResult::Sat), Some(m)) => Some(
                list_constants(&self.terms, &self.sort_names, m, source, &self.declared_consts),
            ),
            _ => None,
        }
    }

    /// The model as text.
    pub fn format_model(&self, source: &ModelSource) -> (r: String)
        requires
            self.valid(),
        ensures
            !self.has_model() ==> r@ == model_text(None),
            self.has_model() ==> exists|out: Seq<(String, String, String)>|
                #[trigger] lists_constants(
                    self.terms.terms(),
                    env_of(&self.terms, &self.sort_names),
                    &self.sort_names,
                    self.solver.model->0.assignments@,
                    source,
                    self.declared_consts@,
                    self.declared_consts@.len() as int,
                    classes(
                        self.terms.sorts@,
                        self.solver.model->0.assignments@,
                        source.representatives@,
                        self.declared_consts@,
                        self.declared_consts@.len() as int,
                    ),
                    out,
                ) && r@ == model_text(Some(out)),
    {
        match self.get_model(source) {
            None => copy_text("(error \"No model available\")"),
            Some(model) => {
                if model.len() == 0 {
                    return copy_text("(model)");
                }
                let mut lines: Vec<String> = Vec::new();
                lines.push(copy_text("(model"));
                let mut k: usize = 0;
                while k < model.len()
                    invariant
                        k <= model.len(),
                        lines@.len() == k + 1,
                        forall|j: int|
                            0 <= j < lines@.len() ==> (#[trigger] lines@[j])@ == model_lines(
                                model@,
                            )[j],
                    decreases model.len() - k,
                {
                    let mut one = String::new();
                    append(&mut one, "  (define-fun ");
                    append(&mut one, model[k].0.as_str());
                    append(&mut one, " () ");
                    append(&mut one, model[k].1.as_str());
                    append(&mut one, " ");
                    append(&mut one, model[k].2.as_str());
                    append(&mut one, ")");
                    assert(one@ =~= model_lines(model@)[k + 1]);
                    lines.push(one);
                    k = k + 1;
                }
                lines.push(copy_text(")"));
                assert(texts_of(lines@) =~= model_lines(model@));
                join(&lines, "\n")
            },
        }
    }

    /// The truth values of the Boolean constants, as text.
    pub fn get_assignment(&self) -> (r: String)
        ensures
            r@ == (if self.has_model() {
                listed(
                    assignment_parts(
                        self.terms.terms(),
                        self.solver.model->0.assignments@,
                        self.declared_consts@,
                        self.declared_consts@.len() as int,
                    ),
                    " "@,
                )
            } else {
                "()"@
            }),
    {
        match (self.last_result, &self.solver.model) {
            (Some(SolverResult::Sat), Some(m)) => {
                let ghost s = self.terms.terms();
                let ghost am = m.assignments@;
                let mut parts: Vec<String> = Vec::new();
                let mut k: usize = 0;
                assert(texts_of(parts@) =~= assignment_parts(s, am, self.declared_consts@, 0));
                while k < self.declared_consts.len()
                    invariant
                        k <= self.declared_consts.len(),
                        s == self.terms.terms(),
                        am == m.assignments@,
                        texts_of(parts@) == assignment_parts(
                            s,
                            am,
                            self.declared_consts@,
                            k as int,
                        ),
                    decreases self.declared_consts.len() - k,
                {
                    let d = &self.declared_consts[k];
                    if d.sort == BOOL_SORT {
                        let holds = match m.get(d.term) {
                            Some(v) => if v < self.terms.nodes.len() {
                                assert(self.terms.nodes@[v as int]@ == s[v as int]);
                                match self.terms.nodes[v].op {
                                    Op::True => true,
                                    _ => false,
                                }
                            } else {
                                false
                            },
                            None => false,
                        };
                        let ghost before = parts@;
                        let mut one = String::new();
                        append(&mut one, "(");
                        append(&mut one, d.name.as_str());
                        append(&mut one, " ");
                        if holds {
                            append(&mut one, "true");
                        } else {
                            append(&mut one, "false");
                        }
                        append(&mut one, ")");
                        let ghost text = one@;
                        assert(text =~= "("@ + d.name@ + " "@ + truth_text(s, am, d.term) + ")"@);
                        parts.push(one);
                        assert(texts_of(parts@) =~= texts_of(before).push(text));
                    }
                    k = k + 1;
                }
                list(&parts, " ")
            },
            _ => copy_text("()"),
        }
    }

    /// The interpretation of a declared function: its entries, the value
    /// elsewhere, and its arity.  `entries` are the applications that
    /// congruence closure knows; without an application there are none.
    pub fn get_func_interp_raw(
        &self,
        name: &str,
        source: &ModelSource,
        entries: &Vec<FuncAppEntry>,
    ) -> (r: Option<(Vec<(Vec<String>, String)>, String, usize)>)
        requires
            self.valid(),
        ensures
            r is Some == (self.has_model() && exists|k: int| #[trigger]
                function_at(self.declared_funs@, name@, k)),
            r matches Some(interp) ==> exists|k: int| #[trigger]
                function_at(self.declared_funs@, name@, k) && self.interprets(
                    &self.declared_funs@[k],
                    name@,
                    source,
                    entries@,
                    interp,
                ),
    {
        let m = match (self.last_result, &self.solver.model) {
            (Some(SolverResult::Sat), Some(m)) => m,
            _ => {
                return None;
            },
        };
        let mut k: usize = 0;
        while k < self.declared_funs.len() && !same_text(self.declared_funs[k].name.as_str(), name)
            invariant
                k <= self.declared_funs.len(),
                forall|j: int|
                    0 <= j < k ==> (#[trigger] self.declared_funs@[j]).name@ != name@,
            decreases self.declared_funs.len() - k,
        {
            k = k + 1;
        }
        if k >= self.declared_funs.len() {
            return None;
        }
        assert(function_at(self.declared_funs@, name@, k as int));
        let decl = &self.declared_funs[k];
        let arity = decl.arg_sorts.len();
        let otherwise = default_value(&self.terms, &self.sort_names, decl.ret_sort);
        if !self.is_applied(name) {
            let none: Vec<(Vec<String>, String)> = Vec::new();
            let interp = (none, otherwise, arity);
            assert(self.interprets(&self.declared_funs@[k as int], name@, source, entries@, interp));
            return Some(interp);
        }
        let shown = shown_entries(
            &self.terms,
            &self.sort_names,
            m,
            &source.printed,
            &decl.arg_sorts,
            entries,
        );
        let value = match most_common_value(&shown) {
            Some(x) => x,
            None => otherwise,
        };
        let interp = (shown, value, arity);
        assert(self.interprets(&self.declared_funs@[k as int], name@, source, entries@, interp));
        Some(interp)
    }

    /// What the interpretation of a function holds.
    pub open spec fn interprets(
        &self,
        decl: &DeclaredFun,
        name: Seq<char>,
        source: &ModelSource,
        entries: Seq<FuncAppEntry>,
        interp: (Vec<(Vec<String>, String)>, String, usize),
    ) -> bool {
        let s = self.terms.terms();
        let env = env_of(&self.terms, &self.sort_names);
        let m = self.solver.model->0.assignments@;
        &&& interp.2 == decl.arg_sorts@.len()
        &&& if applied(&self.terms, name) {
            entries_listed(
                s,
                env,
                &self.sort_names,
                m,
                source.printed@,
                decl.arg_sorts@,
                entries,
                shown_places(s, m, source.printed@, entries, entries.len() as int),
                interp.0@,
            )
        } else {
            interp.0@.len() == 0
        }
        &&& if interp.0@.len() > 0 {
            exists|k: int| #[trigger] most_common(interp.0@, k) && interp.0@[k].1@ == interp.1@
        } else {
            interp.1@ == default_text(env, self.sort_names.defaults@, decl.ret_sort)
        }
    }

    fn is_applied(&self, name: &str) -> (b: bool)
        ensures
            b == applied(&self.terms, name@),
    {
        let mut t: usize = 0;
        while t < self.terms.nodes.len()
            invariant
                t <= self.terms.nodes.len(),
                forall|j: int| 0 <= j < t ==> !(#[trigger] applies(&self.terms, name@, j)),
            decreases self.terms.nodes.len() - t,
        {
            let node = &self.terms.nodes[t];
            assert(node@ == self.terms.terms()[t as int]);
            if let Op::Apply = node.op {
                if let crate::terms::Data::Name(n) = &node.data {
                    if *n < self.terms.names.len() && same_text(
                        self.terms.names[*n].as_str(),
                        name,
                    ) {
                        assert(applies(&self.terms, name@, t as int));
                        return true;
                    }
                }
            }
            t = t + 1;
        }
        false
    }
}

} // verus!
