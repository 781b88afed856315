//! Verified core of an SMT solver front end.

pub mod aliases;
pub mod answer_laws;
pub mod answers;
pub mod asserted;
pub mod assertion;
pub mod assertion_laws;
pub mod axiom_laws;
pub mod axioms;
pub mod bound_laws;
pub mod chordal;
pub mod collections;
pub mod command_laws;
pub mod commands;
pub mod constants;
pub mod constructors;
pub mod context;
pub mod context_laws;
pub mod declared;
pub mod descent;
pub mod domain_laws;
pub mod domains;
pub mod encode;
pub mod equality_graph;
pub mod equality_laws;
pub mod instances;
pub mod int_case_split;
pub mod ite_table;
pub mod linear;
pub mod linear_laws;
pub mod links;
pub mod model;
pub mod model_laws;
pub mod model_splits;
pub mod names;
pub mod nonlinear;
pub mod nonlinear_laws;
pub mod numbers;
pub mod proof_log;
pub mod purify_arith;
pub mod render;
pub mod render_laws;
pub mod replies;
pub mod rewrite;
pub mod rewrite_laws;
pub mod runs;
pub mod scopes;
pub mod script;
pub mod search;
pub mod search_laws;
pub mod search_steps;
pub mod semantics;
pub mod solver;
pub mod sorts;
pub mod soundness;
pub mod state;
pub mod string_laws;
pub mod strings;
pub mod tables;
pub mod terms;
pub mod text;
pub mod walk;
pub mod zero_one;
