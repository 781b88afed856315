//! What is written to a proof log.

use crate::search::SolverResult;
use crate::text::{append, append_decimal, copy_text, decimal};
use vstd::prelude::*;

verus! {

/// A step of a proof of unsatisfiability.
pub enum ProofStep {
    Input { index: u32 },
    Resolution { index: u32, left: u32, right: u32, pivot: String },
    TheoryLemma { index: u32, theory: String },
}

/// An entry of the log.
pub enum LogEntry {
    Axiom { conclusion: String },
    Inference { rule: String, left: u32, right: u32, conclusion: String, argument: String },
}

/// Mathematical content of a [`LogEntry`].
pub enum LogView {
    Axiom { conclusion: Seq<char> },
    Inference {
        rule: Seq<char>,
        left: u32,
        right: u32,
        conclusion: Seq<char>,
        argument: Seq<char>,
    },
}

impl View for LogEntry {
    type V = LogView;

    open spec fn view(&self) -> LogView {
        match self {
            LogEntry::Axiom { conclusion } => LogView::Axiom { conclusion: conclusion@ },
            LogEntry::Inference { rule, left, right, conclusion, argument } => LogView::Inference {
                rule: rule@,
                left: *left,
                right: *right,
                conclusion: conclusion@,
                argument: argument@,
            },
        }
    }
}

/// How a proof step is logged.
pub open spec fn logged(step: ProofStep) -> LogView {
    match step {
        ProofStep::Input { index } => LogView::Axiom {
            conclusion: "input-clause-"@ + decimal(index as nat),
        },
        ProofStep::Resolution { index, left, right, pivot } => LogView::Inference {
            rule: "resolution"@,
            left,
            right,
            conclusion: "resolution-"@ + decimal(index as nat),
            argument: pivot@,
        },
        ProofStep::TheoryLemma { index, theory } => LogView::Axiom {
            conclusion: "theory-lemma-"@ + theory@ + "-"@ + decimal(index as nat),
        },
    }
}

/// The entries of a log; its nodes are numbered in their order.  There is always
/// an entry: the steps of the proof, or else the verdict.
pub open spec fn log_of(result: SolverResult, steps: Option<Seq<ProofStep>>) -> Seq<LogView> {
    let verdict = match result {
        SolverResult::Sat => "sat"@,
        SolverResult::Unsat => "unsat"@,
        SolverResult::Unknown => "unknown"@,
    };
    match (result, steps) {
        (SolverResult::Unsat, Some(list)) => if list.len() > 0 {
            Seq::new(list.len(), |k: int| logged(list[k]))
        } else {
            seq![LogView::Axiom { conclusion: verdict }]
        },
        _ => seq![LogView::Axiom { conclusion: verdict }],
    }
}

fn log_step(step: &ProofStep) -> (entry: LogEntry)
    ensures
        entry@ == logged(*step),
{
    match step {
        ProofStep::Input { index } => {
            let mut conclusion = String::new();
            append(&mut conclusion, "input-clause-");
            append_decimal(&mut conclusion, *index as u64);
            assert(conclusion@ =~= "input-clause-"@ + decimal(*index as nat));
            LogEntry::Axiom { conclusion }
        },
        ProofStep::Resolution { index, left, right, pivot } => {
            let mut conclusion = String::new();
            append(&mut conclusion, "resolution-");
            append_decimal(&mut conclusion, *index as u64);
            assert(conclusion@ =~= "resolution-"@ + decimal(*index as nat));
            LogEntry::Inference {
                rule: copy_text("resolution"),
                left: *left,
                right: *right,
                conclusion,
                argument: copy_text(pivot.as_str()),
            }
        },
        ProofStep::TheoryLemma { index, theory } => {
            let mut conclusion = String::new();
            append(&mut conclusion, "theory-lemma-");
            append(&mut conclusion, theory.as_str());
            append(&mut conclusion, "-");
            append_decimal(&mut conclusion, *index as u64);
            assert(conclusion@ =~= "theory-lemma-"@ + theory@ + "-"@ + decimal(*index as nat));
            LogEntry::Axiom { conclusion }
        },
    }
}

pub open spec fn log_views(entries: Seq<LogEntry>) -> Seq<LogView> {
    Seq::new(entries.len(), |k: int| entries[k]@)
}

pub open spec fn steps_given(steps: Option<&Vec<ProofStep>>) -> Option<Seq<ProofStep>> {
    match steps {
        Some(list) => Some(list@),
        None => None,
    }
}

/// The entries to write for a verdict and the proof behind it.
pub fn proof_log(result: SolverResult, steps: Option<&Vec<ProofStep>>) -> (entries: Vec<LogEntry>)
    ensures
        log_views(entries@) == log_of(result, steps_given(steps)),
{
    let mut entries: Vec<LogEntry> = Vec::new();
    if let SolverResult::Unsat = result {
        if let Some(list) = steps {
            let mut k: usize = 0;
            while k < list.len()
                invariant
                    k <= list.len(),
                    entries@.len() == k,
                    forall|j: int| 0 <= j < k ==> (#[trigger] entries@[j])@ == logged(list@[j]),
                decreases list.len() - k,
            {
                entries.push(log_step(&list[k]));
                k = k + 1;
            }
            if entries.len() > 0 {
                assert(log_views(entries@) =~= log_of(result, steps_given(steps)));
                return entries;
            }
        }
    }
    let conclusion = match result {
        SolverResult::Sat => copy_text("sat"),
        SolverResult::Unsat => copy_text("unsat"),
        SolverResult::Unknown => copy_text("unknown"),
    };
    entries.push(LogEntry::Axiom { conclusion });
    assert(log_views(entries@) =~= log_of(result, steps_given(steps)));
    entries
}

} // verus!
