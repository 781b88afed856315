# oxiz_solver

The front end of an SMT solver, verified with Verus: terms, sorts and scripts;
the rewriting of assertions; their encoding as clauses; the axioms that are
added for the theories; scopes; models and cores; and the decisions of a check.

- `src/` is the library.  Every function states what it does, and the laws that
  hold across functions are public proof functions.
- `tests/` runs the library.
- `app/` drives the library with the engines behind it: the propositional
  search, the theories, the simplifier, the parser and the printer.

How the parts fit together:

| Modules | What they hold |
| --- | --- |
| `terms`, `constructors`, `semantics`, `walk`, `descent` | terms and what they mean |
| `numbers`, `text`, `names`, `collections` | numbers, text and collections |
| `rewrite`, `ite_table`, `zero_one`, `aliases`, `tables`, `purify_arith`, `soundness` | the rewriting of assertions |
| `state`, `encode`, `linear`, `assertion`, `scopes`, `solver`, `runs` | clauses, assertions and scopes |
| `axioms`, `domains`, `links`, `int_case_split`, `instances`, `model_splits`, `search_steps` | what a check adds |
| `chordal`, `equality_graph`, `strings`, `nonlinear`, `asserted` | decisions for single theories |
| `search`, `answers`, `model` | checks, models and cores |
| `context`, `script`, `commands`, `replies`, `declared`, `render`, `sorts`, `constants`, `proof_log` | sessions and scripts |
