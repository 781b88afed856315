//! The steps of a check that add to the solver's clauses.
//!
//! Each of them leaves the open scopes as they are: closing a scope takes back
//! what a check added in it.

use crate::assertion::with_clause;
use crate::axioms::{
    asserted_literal, canonical, care_created, integer_results, new_ties, numeric_equation,
    split_pair, ties_apply, undecided_at, MAX_CARE_ATOMS, MAX_CARE_INTERFACE,
};
use crate::collections::{map_new, set_new};
use crate::constructors::grew;
use crate::domains::{
    asserted_bounds, domain_clauses_true, domain_step, domains_grown, domains_hinted, domains_inv,
    in_decision_order, name_done, one_of, pair_lits, range_pairs, split_is_entailed, DomainHints,
};
use crate::encode::{bv_term, good, keeps, terms_added};
use crate::equality_graph::{assertion_atoms, pure_equality, transitivity_added};
use crate::instances::{instances_taken, instances_used, lemmas_taken, InstanceKind};
use crate::int_case_split::{split_round, splits_added, MAX_CASE_SPLIT_ROUNDS};
use crate::ite_table::named;
use crate::links::{comparison_linked, link_clauses_true, link_of};
use crate::model_splits::differs;
use crate::scopes::{grown_from, lemma_grown_trans};
use crate::solver::{lemma_scopes_grow, lemma_stated_carry, lemma_store_grown, Solver};
use crate::state::{goal_inv, growth, step, GoalView, Journaled, Lit, Var};
use crate::tables::{ascending_keys, TableState};
use crate::terms::{extends, numeric_sort, terms_wf, TermId, TermStore, TermView};
use crate::walk::subterm;
use rustc_hash::{FxHashMap, FxHashSet};
use vstd::prelude::*;

verus! {

impl Solver {
    /// Only the clauses, and what belongs to them, have grown.
    pub open spec fn searches(&self, before: &Solver, s0: Seq<TermView>, s1: Seq<TermView>) -> bool {
        &&& growth(s0, before.goal@, s1, self.goal@)
        &&& *self == (Solver {
            goal: self.goal,
            tables: self.tables,
            case_split_rounds: self.case_split_rounds,
            terms: self.terms,
            ..*before
        })
    }

    /// What grew fits the longer store.
    proof fn lemma_searched(&self, before: &Solver, s0: Seq<TermView>, store: &TermStore)
        requires
            before.valid(),
            terms_wf(s0),
            extends(before.terms@, s0),
            store.wf(),
            self.terms@ == store.terms(),
            growth(s0, before.goal@, store.terms(), self.goal@),
            self.tables.wf(store.terms()),
            domains_inv(store.terms(), self.goal@, &self.tables),
            self.saved@ == before.saved@,
            self.context_stack@ == before.context_stack@,
            self.entailed == before.entailed,
        ensures
            self.fits(store),
    {
        lemma_store_grown(before.terms@, s0, before.goal@);
        assert(grown_from(s0, before.goal@, store.terms(), self.goal@));
        lemma_grown_trans(
            before.terms@,
            before.goal@,
            s0,
            before.goal@,
            store.terms(),
            self.goal@,
        );
        lemma_scopes_grow(
            before.saved@,
            before.context_stack@,
            before.terms@,
            before.goal@,
            self.terms@,
            self.goal@,
        );
        lemma_stated_carry(
            before.terms@,
            self.terms@,
            before.goal@.j.assertions,
            self.goal@.j.assertions,
            &before.entailed,
        );
    }

    /// Begins a check: no term has been split into cases yet.
    pub fn begin_search(&mut self)
        requires
            old(self).valid(),
        ensures
            final(self).valid(),
            final(self).case_split_rounds == 0,
            final(self).tables.case_split_terms@ == Set::<TermId>::empty(),
            final(self).tables.table_index_domain_eqs@.dom() == Set::<TermId>::empty(),
            final(self).tables == (TableState {
                case_split_terms: final(self).tables.case_split_terms,
                table_index_domain_eqs: final(self).tables.table_index_domain_eqs,
                ..old(self).tables
            }),
            *final(self) == (Solver {
                tables: final(self).tables,
                case_split_rounds: 0,
                ..*old(self)
            }),
    {
        self.tables.case_split_terms = set_new();
        self.tables.table_index_domain_eqs = map_new();
        self.case_split_rounds = 0;
    }

    /// Splits the domains of table indices into cases.
    pub fn split_table_domains(&mut self, store: &mut TermStore) -> (hints: DomainHints)
        requires
            old(self).fits(old(store)),
        ensures
            grew(old(store), final(store)),
            final(self).fits(final(store)),
            final(self).searches(old(self), old(store).terms(), final(store).terms()),
            final(self).case_split_rounds == old(self).case_split_rounds,
            ({
                let bounds = asserted_bounds(
                    old(store).terms(),
                    old(self).tables.unit_eq_rep@,
                    old(self).goal@.j.assertions,
                    old(self).goal@.j.assertions.len() as int,
                );
                &&& domain_step(
                    old(store).terms(),
                    old(self).goal@,
                    &old(self).tables,
                    final(store).terms(),
                    final(self).goal@,
                    &final(self).tables,
                    bounds,
                )
                &&& forall|t: TermId|
                    old(self).tables.table_index_terms@.contains(t) ==> #[trigger] name_done(
                        old(store).terms(),
                        &old(self).tables,
                        &final(self).tables,
                        bounds,
                        named(old(self).tables.unit_eq_rep@, t),
                    )
            }),
            split_is_entailed(
                old(store).terms(),
                final(store).terms(),
                old(self).goal@,
                &old(self).tables,
                final(self).goal@,
            ),
            in_decision_order(hints.priority@),
            domains_hinted(&old(self).tables, final(self).goal@, &final(self).tables, &hints),
    {
        let ghost before = *self;
        let ghost s0 = store.terms();
        proof {
            lemma_store_grown(before.terms@, s0, before.goal@);
            self.tables.lemma_wf_extend(before.terms@, s0);
            lemma_domains_longer(before.terms@, s0, before.goal@, &before.tables);
        }
        let hints = self.goal.eager_table_index_case_split(&mut self.tables, store);
        proof {
            self.terms@ = store.terms();
            self.lemma_searched(&before, s0, store);
        }
        hints
    }

    /// Splits the results of tables with entries 0 and 1 into cases.
    pub fn split_binary_results(&mut self, store: &mut TermStore)
        requires
            old(self).fits(old(store)),
        ensures
            grew(old(store), final(store)),
            final(self).fits(final(store)),
            final(self).searches(old(self), old(store).terms(), final(store).terms()),
            final(self).case_split_rounds == old(self).case_split_rounds,
            domains_grown(&old(self).tables, &final(self).tables),
            domain_clauses_true(
                final(store).terms(),
                final(self).goal@,
                old(self).goal@.clauses.len() as int,
                &final(self).tables,
            ),
            forall|t: TermId| #[trigger]
                old(self).tables.binary_table_results@.contains(t) ==> final(self).tables.case_split_terms@.contains(t),
            forall|t: TermId| #[trigger]
                final(self).tables.table_index_domain_eqs@.contains_key(t)
                    && !old(self).tables.table_index_domain_eqs@.contains_key(t)
                    ==> old(self).tables.binary_table_results@.contains(t) && range_pairs(
                    final(self).tables.table_index_domain_eqs@[t]@,
                    0,
                    1,
                ) && one_of(
                    final(self).goal@.clauses,
                    pair_lits(final(self).tables.table_index_domain_eqs@[t]@),
                ),
    {
        let ghost before = *self;
        let ghost s0 = store.terms();
        proof {
            lemma_store_grown(before.terms@, s0, before.goal@);
            self.tables.lemma_wf_extend(before.terms@, s0);
            lemma_domains_longer(before.terms@, s0, before.goal@, &before.tables);
        }
        self.goal.eager_binary_result_case_split(&mut self.tables, store);
        proof {
            self.terms@ = store.terms();
            self.lemma_searched(&before, s0, store);
        }
    }

    /// Links comparisons with constants to the values of domains.
    pub fn link_comparisons(&mut self, store: &mut TermStore)
        requires
            old(self).fits(old(store)),
        ensures
            grew(old(store), final(store)),
            final(self).fits(final(store)),
            final(self).searches(old(self), old(store).terms(), final(store).terms()),
            final(self).tables == old(self).tables,
            final(self).case_split_rounds == old(self).case_split_rounds,
            final(store).terms() == old(store).terms(),
            link_clauses_true(
                old(store).terms(),
                final(self).goal@,
                old(self).goal@.clauses.len() as int,
                &old(self).tables,
            ),
            forall|v: Var| #[trigger]
                old(self).goal@.j.constraint.contains_key(v) ==> match link_of(
                    old(store).terms(),
                    &old(self).tables,
                    old(self).goal@.j.constraint[v],
                ) {
                    Some((t, c, kind)) => comparison_linked(
                        final(self).goal@.clauses,
                        Lit { var: v, positive: true },
                        old(self).tables.table_index_domain_eqs@[t]@,
                        kind,
                        c,
                    ),
                    None => true,
                },
    {
        let ghost before = *self;
        let ghost s0 = store.terms();
        proof {
            lemma_store_grown(before.terms@, s0, before.goal@);
            self.tables.lemma_wf_extend(before.terms@, s0);
            lemma_domains_longer(before.terms@, s0, before.goal@, &before.tables);
        }
        self.goal.link_table_index_comparisons(&self.tables, store);
        proof {
            self.terms@ = store.terms();
            assert(growth(s0, before.goal@, store.terms(), self.goal@));
            lemma_grown_domains(s0, before.goal@, store.terms(), self.goal@, &before.tables);
            self.tables.lemma_wf_extend(s0, store.terms());
            self.lemma_searched(&before, s0, store);
        }
    }

    /// Splits integer arguments of functions into cases.
    pub fn refine_cases(
        &mut self,
        store: &mut TermStore,
        integer_arithmetic: bool,
        forced: &FxHashSet<Var>,
        values: &FxHashMap<TermId, i64>,
    ) -> (r: bool)
        requires
            old(self).fits(old(store)),
        ensures
            grew(old(store), final(store)),
            final(self).fits(final(store)),
            final(self).searches(old(self), old(store).terms(), final(store).terms()),
            final(self).tables == (TableState {
                case_split_terms: final(self).tables.case_split_terms,
                ..old(self).tables
            }),
            !r ==> final(self).goal@ == old(self).goal@ && final(store).terms()
                == old(store).terms() && final(self).case_split_rounds
                == old(self).case_split_rounds && final(self).tables.case_split_terms@
                == old(self).tables.case_split_terms@,
            r ==> integer_arithmetic && old(self).case_split_rounds < MAX_CASE_SPLIT_ROUNDS && final(self).case_split_rounds == old(self).case_split_rounds + 1,
            integer_arithmetic && old(self).case_split_rounds < MAX_CASE_SPLIT_ROUNDS ==> exists|
                list: Seq<(TermId, i64, i64)>,
                args: Seq<TermId>,
                b: Map<TermId, (Option<i64>, Option<i64>)>,
            | #[trigger]
                split_round(
                    old(store),
                    old(self).goal@,
                    forced@,
                    values@,
                    old(self).tables.case_split_terms@,
                    args,
                    b,
                    list,
                ) && r == (list.len() > 0) && splits_added(
                    old(self).goal@,
                    final(store).terms(),
                    final(self).goal@,
                    list,
                    list.len() as int,
                ) && forall|t: TermId| #[trigger]
                    final(self).tables.case_split_terms@.contains(t)
                        <==> old(self).tables.case_split_terms@.contains(t) || exists|k: int|
                        0 <= k < list.len() && (#[trigger] list[k]).0 == t,
    {
        let ghost before = *self;
        let ghost s0 = store.terms();
        proof {
            lemma_store_grown(before.terms@, s0, before.goal@);
            self.tables.lemma_wf_extend(before.terms@, s0);
            lemma_domains_longer(before.terms@, s0, before.goal@, &before.tables);
        }
        let r = self.goal.refine_int_case_split(
            store,
            &mut self.tables.case_split_terms,
            &mut self.case_split_rounds,
            integer_arithmetic,
            forced,
            values,
        );
        proof {
            self.terms@ = store.terms();
            lemma_grown_domains(s0, before.goal@, store.terms(), self.goal@, &before.tables);
            assert(domains_inv(store.terms(), self.goal@, &self.tables));
            before.tables.lemma_wf_extend(s0, store.terms());
            assert(self.tables.wf(store.terms()));
            self.lemma_searched(&before, s0, store);
        }
        r
    }

    /// Ties the variables that stand for conditionals to the integers of the assertions.
    pub fn tie_constants(&mut self, store: &mut TermStore)
        requires
            old(self).fits(old(store)),
        ensures
            grew(old(store), final(store)),
            final(self).fits(final(store)),
            final(self).searches(old(self), old(store).terms(), final(store).terms()),
            final(self).tables == old(self).tables,
            final(self).case_split_rounds == old(self).case_split_rounds,
            keeps(
                old(store).terms(),
                old(self).goal@,
                final(store).terms(),
                final(self).goal@,
            ),
            new_ties(final(store).terms(), old(self).goal@, final(self).goal@),
            exists|terms: Seq<TermId>, consts: Seq<i64>|
                #[trigger] integer_results(
                    old(store).terms(),
                    old(self).tables.ite_result_terms@,
                    terms,
                ) && #[trigger] ascending_keys(consts) && (forall|c: i64| #[trigger]
                    consts.contains(c) <==> asserted_literal(
                        old(store).terms(),
                        old(self).goal@.j.assertions,
                        old(self).goal@.j.assertions.len() as int,
                        c,
                    )) && if ties_apply(
                    old(self).goal@,
                    terms.len() as int,
                    consts.len() as int,
                ) {
                    forall|j: int, k: int|
                        0 <= j < terms.len() && 0 <= k < consts.len()
                            ==> final(self).goal@.j.const_axioms.contains(
                            (#[trigger] terms[j], #[trigger] consts[k]),
                        )
                } else {
                    final(self).goal@ == old(self).goal@ && final(store).terms()
                        == old(store).terms()
                },
    {
        let ghost before = *self;
        let ghost s0 = store.terms();
        proof {
            lemma_store_grown(before.terms@, s0, before.goal@);
            self.tables.lemma_wf_extend(before.terms@, s0);
            lemma_domains_longer(before.terms@, s0, before.goal@, &before.tables);
        }
        self.goal.axiomatize_arith_constant_equalities(store, &self.tables.ite_result_terms);
        proof {
            self.terms@ = store.terms();
            assert(growth(s0, before.goal@, store.terms(), self.goal@));
            lemma_grown_domains(s0, before.goal@, store.terms(), self.goal@, &before.tables);
            self.tables.lemma_wf_extend(s0, store.terms());
            self.lemma_searched(&before, s0, store);
        }
    }

    /// Creates the equations between shared terms that are undecided.
    pub fn create_care_atoms(
        &mut self,
        store: &mut TermStore,
        shared: &Vec<TermId>,
        undecided: &Vec<Vec<bool>>,
    ) -> (vars: Vec<Var>)
        requires
            old(self).fits(old(store)),
            forall|k: int|
                0 <= k < shared@.len() ==> (#[trigger] shared@[k]) < old(store).terms().len(),
        ensures
            grew(old(store), final(store)),
            final(self).fits(final(store)),
            final(self).searches(old(self), old(store).terms(), final(store).terms()),
            final(self).tables == old(self).tables,
            final(self).case_split_rounds == old(self).case_split_rounds,
            keeps(
                old(store).terms(),
                old(self).goal@,
                final(store).terms(),
                final(self).goal@,
            ),
            vars@.len() <= MAX_CARE_ATOMS,
            final(self).goal@.j.care_pairs.len() == old(self).goal@.j.care_pairs.len()
                + vars@.len(),
            forall|n: int|
                0 <= n < vars@.len() ==> care_created(
                    old(store).terms(),
                    final(store).terms(),
                    final(self).goal@,
                    shared@,
                    undecided@,
                    final(self).goal@.j.care_pairs[old(self).goal@.j.care_pairs.len() + n],
                    #[trigger] vars@[n],
                ),
            old(self).goal@.quantified || shared@.len() > MAX_CARE_INTERFACE ==> final(self).goal@
                == old(self).goal@ && final(store).terms() == old(store).terms(),
            !old(self).goal@.quantified && shared@.len() <= MAX_CARE_INTERFACE && vars@.len()
                < MAX_CARE_ATOMS ==> forall|i: int, j: int|
                0 <= i < j < shared@.len() && undecided_at(undecided@, i, j)
                    && old(store).terms()[#[trigger] shared@[i] as int].sort
                    == old(store).terms()[#[trigger] shared@[j] as int].sort
                    ==> final(self).goal@.j.care_pairs.contains(canonical(shared@[i], shared@[j])),
    {
        let ghost before = *self;
        let ghost s0 = store.terms();
        proof {
            lemma_store_grown(before.terms@, s0, before.goal@);
            self.tables.lemma_wf_extend(before.terms@, s0);
            lemma_domains_longer(before.terms@, s0, before.goal@, &before.tables);
        }
        let vars = self.goal.pre_encode_care_graph_atoms(store, shared, undecided);
        proof {
            self.terms@ = store.terms();
            assert(growth(s0, before.goal@, store.terms(), self.goal@));
            lemma_grown_domains(s0, before.goal@, store.terms(), self.goal@, &before.tables);
            self.tables.lemma_wf_extend(s0, store.terms());
            self.lemma_searched(&before, s0, store);
        }
        vars
    }

    /// Adds transitivity clauses where the assertions are equations only.
    pub fn add_transitivity(&mut self, store: &mut TermStore) -> (applies: bool)
        requires
            old(self).fits(old(store)),
        ensures
            grew(old(store), final(store)),
            final(self).fits(final(store)),
            final(self).searches(old(self), old(store).terms(), final(store).terms()),
            final(self).tables == old(self).tables,
            final(self).case_split_rounds == old(self).case_split_rounds,
            step(
                old(store).terms(),
                old(self).goal@,
                final(store).terms(),
                final(self).goal@,
            ),
            ({
                let given = old(self).goal@.j.assertions;
                let atoms = assertion_atoms(old(store).terms(), given, given.len() as int);
                &&& applies == (!old(self).goal@.quantified && !old(self).goal@.arrays && (forall|
                    k: int,
                |
                    0 <= k < given.len() ==> pure_equality(
                        old(store).terms(),
                        old(self).goal@.j.var_of,
                        #[trigger] given[k],
                    )) && atoms.len() > 0)
                &&& !applies ==> final(self).goal@ == old(self).goal@ && final(store).terms()
                    == old(store).terms()
                &&& applies ==> exists|
                    verts: Seq<TermId>,
                    vars: Seq<Seq<Option<Var>>>,
                    order: Seq<int>,
                | #[trigger]
                    transitivity_added(
                        old(store).terms(),
                        old(self).goal@,
                        atoms,
                        final(store).terms(),
                        final(self).goal@,
                        verts,
                        vars,
                        order,
                    )
            }),
    {
        let ghost before = *self;
        let ghost s0 = store.terms();
        proof {
            lemma_store_grown(before.terms@, s0, before.goal@);
            self.tables.lemma_wf_extend(before.terms@, s0);
            lemma_domains_longer(before.terms@, s0, before.goal@, &before.tables);
        }
        let applies = self.goal.equality_transitivity_preprocess(store);
        proof {
            self.terms@ = store.terms();
            assert(growth(s0, before.goal@, store.terms(), self.goal@));
            lemma_grown_domains(s0, before.goal@, store.terms(), self.goal@, &before.tables);
            self.tables.lemma_wf_extend(s0, store.terms());
            self.lemma_searched(&before, s0, store);
        }
        applies
    }

    /// Says of the sides of numeric equations that they are equal or one is less.
    pub fn split_equalities(&mut self, store: &mut TermStore)
        requires
            old(self).fits(old(store)),
        ensures
            grew(old(store), final(store)),
            final(self).fits(final(store)),
            final(self).searches(old(self), old(store).terms(), final(store).terms()),
            final(self).tables == old(self).tables,
            final(self).case_split_rounds == old(self).case_split_rounds,
            good(
                old(store).terms(),
                old(self).goal@,
                final(store).terms(),
                final(self).goal@,
            ),
            forall|k: int, x: TermId|
                0 <= k < old(self).goal@.j.assertions.len() && #[trigger] subterm(
                    old(store).terms(),
                    old(self).goal@.j.assertions[k],
                    x,
                ) && numeric_equation(old(store).terms(), x) ==> {
                    let a = old(store).terms()[x as int].args[0];
                    let b = old(store).terms()[x as int].args[1];
                    split_pair(final(store).terms(), final(self).goal@, a, b) || split_pair(
                        final(store).terms(),
                        final(self).goal@,
                        b,
                        a,
                    )
                },
    {
        let ghost before = *self;
        let ghost s0 = store.terms();
        proof {
            lemma_store_grown(before.terms@, s0, before.goal@);
            self.tables.lemma_wf_extend(before.terms@, s0);
            lemma_domains_longer(before.terms@, s0, before.goal@, &before.tables);
        }
        self.goal.ensure_numeric_equality_splits(store);
        proof {
            self.terms@ = store.terms();
            assert(growth(s0, before.goal@, store.terms(), self.goal@));
            lemma_grown_domains(s0, before.goal@, store.terms(), self.goal@, &before.tables);
            self.tables.lemma_wf_extend(s0, store.terms());
            self.lemma_searched(&before, s0, store);
        }
    }

    /// Says of the sides of the numeric equations that a model makes false that
    /// they are equal or one is less.
    pub fn order_false_equations(&mut self, store: &mut TermStore, model: &Vec<Option<bool>>)
        requires
            old(self).fits(old(store)),
        ensures
            grew(old(store), final(store)),
            final(self).fits(final(store)),
            final(self).searches(old(self), old(store).terms(), final(store).terms()),
            final(self).tables == old(self).tables,
            final(self).case_split_rounds == old(self).case_split_rounds,
            good(
                old(store).terms(),
                old(self).goal@,
                final(store).terms(),
                final(self).goal@,
            ),
            forall|v: Var, a: TermId, b: TermId| #[trigger]
                differs(old(store).terms(), old(self).goal@, model@, v, a, b) ==> split_pair(
                    final(store).terms(),
                    final(self).goal@,
                    a,
                    b,
                ),
            (forall|v: Var, a: TermId, b: TermId|
                !#[trigger] differs(old(store).terms(), old(self).goal@, model@, v, a, b))
                ==> final(self).goal@ == old(self).goal@ && final(store).terms() == old(store).terms(),
    {
        let ghost before = *self;
        let ghost s0 = store.terms();
        proof {
            lemma_store_grown(before.terms@, s0, before.goal@);
            self.tables.lemma_wf_extend(before.terms@, s0);
            lemma_domains_longer(before.terms@, s0, before.goal@, &before.tables);
        }
        self.goal.add_arith_diseq_splits_for_sat_model(store, model);
        proof {
            self.terms@ = store.terms();
            assert(growth(s0, before.goal@, store.terms(), self.goal@));
            lemma_grown_domains(s0, before.goal@, store.terms(), self.goal@, &before.tables);
            self.tables.lemma_wf_extend(s0, store.terms());
            self.lemma_searched(&before, s0, store);
        }
    }

    /// Registers terms below the operands of theory atoms, as the engines find
    /// them: see
    /// [`GoalState::register_theory_terms`](crate::state::GoalState::register_theory_terms).
    pub fn register_theory_terms(&mut self, store: &TermStore, list: &Vec<TermId>)
        requires
            old(self).fits(store),
            forall|k: int| 0 <= k < list@.len() ==> (#[trigger] list@[k]) < store.terms().len(),
        ensures
            final(self).fits(store),
            final(self).searches(old(self), store.terms(), store.terms()),
            final(self).tables == old(self).tables,
            final(self).case_split_rounds == old(self).case_split_rounds,
            final(self).goal@ == (GoalView {
                j: Journaled {
                    arith: final(self).goal@.j.arith,
                    bv: final(self).goal@.j.bv,
                    ..old(self).goal@.j
                },
                trail: final(self).goal@.trail,
                requests: final(self).goal@.requests,
                ..old(self).goal@
            }),
            terms_added(
                old(self).goal@.j.arith,
                final(self).goal@.j.arith,
                list@,
                |t: TermId| numeric_sort(store.terms()[t as int].sort),
            ),
            terms_added(
                old(self).goal@.j.bv,
                final(self).goal@.j.bv,
                list@,
                |t: TermId| bv_term(store.sorts@, store.terms()[t as int]),
            ),
    {
        let ghost before = *self;
        let ghost s0 = store.terms();
        proof {
            lemma_store_grown(before.terms@, s0, before.goal@);
            self.tables.lemma_wf_extend(before.terms@, s0);
            lemma_domains_longer(before.terms@, s0, before.goal@, &before.tables);
        }
        self.goal.register_theory_terms(store, list);
        proof {
            self.terms@ = store.terms();
            assert(growth(s0, before.goal@, s0, self.goal@));
            lemma_grown_domains(s0, before.goal@, s0, self.goal@, &before.tables);
            self.lemma_searched(&before, s0, store);
        }
    }

    /// Asserts instances of quantified formulas: see
    /// [`GoalState::assert_instances`](crate::state::GoalState::assert_instances).
    pub fn take_instances(
        &mut self,
        store: &mut TermStore,
        list: &Vec<TermId>,
        kind: InstanceKind,
    ) -> (n: usize)
        requires
            old(self).fits(old(store)),
            forall|k: int|
                0 <= k < list@.len() ==> (#[trigger] list@[k]) < old(store).terms().len(),
        ensures
            grew(old(store), final(store)),
            final(self).fits(final(store)),
            final(self).searches(old(self), old(store).terms(), final(store).terms()),
            final(self).tables == old(self).tables,
            final(self).case_split_rounds == old(self).case_split_rounds,
            instances_used(list@, n as int, kind),
            instances_taken(
                old(store).terms(),
                old(self).goal@,
                list@,
                n as int,
                final(store).terms(),
                final(self).goal@,
                kind,
            ),
    {
        let ghost before = *self;
        let ghost s0 = store.terms();
        proof {
            lemma_store_grown(before.terms@, s0, before.goal@);
            self.tables.lemma_wf_extend(before.terms@, s0);
            lemma_domains_longer(before.terms@, s0, before.goal@, &before.tables);
        }
        let n = self.goal.assert_instances(store, list, kind);
        proof {
            self.terms@ = store.terms();
            assert(growth(s0, before.goal@, store.terms(), self.goal@));
            lemma_grown_domains(s0, before.goal@, store.terms(), self.goal@, &before.tables);
            self.tables.lemma_wf_extend(s0, store.terms());
            self.lemma_searched(&before, s0, store);
        }
        n
    }

    /// Asserts lemmas that the engines found beside the instances: see
    /// [`GoalState::assert_lemmas`](crate::state::GoalState::assert_lemmas).
    pub fn take_lemmas(&mut self, store: &mut TermStore, list: &Vec<TermId>)
        requires
            old(self).fits(old(store)),
            forall|k: int|
                0 <= k < list@.len() ==> (#[trigger] list@[k]) < old(store).terms().len(),
        ensures
            grew(old(store), final(store)),
            final(self).fits(final(store)),
            final(self).searches(old(self), old(store).terms(), final(store).terms()),
            final(self).tables == old(self).tables,
            final(self).case_split_rounds == old(self).case_split_rounds,
            lemmas_taken(
                old(store).terms(),
                old(self).goal@,
                list@,
                list@.len() as int,
                final(store).terms(),
                final(self).goal@,
            ),
    {
        let ghost before = *self;
        let ghost s0 = store.terms();
        proof {
            lemma_store_grown(before.terms@, s0, before.goal@);
            self.tables.lemma_wf_extend(before.terms@, s0);
            lemma_domains_longer(before.terms@, s0, before.goal@, &before.tables);
        }
        self.goal.assert_lemmas(store, list);
        proof {
            self.terms@ = store.terms();
            assert(growth(s0, before.goal@, store.terms(), self.goal@));
            lemma_grown_domains(s0, before.goal@, store.terms(), self.goal@, &before.tables);
            self.tables.lemma_wf_extend(s0, store.terms());
            self.lemma_searched(&before, s0, store);
        }
    }

    /// Rules out the assignment that the terms of a conflict describe.
    pub fn block(&mut self, store: &mut TermStore, reason: &Vec<TermId>) -> (added: bool)
        requires
            old(self).fits(old(store)),
        ensures
            grew(old(store), final(store)),
            final(self).fits(final(store)),
            final(self).searches(old(self), old(store).terms(), final(store).terms()),
            final(self).tables == old(self).tables,
            final(self).case_split_rounds == old(self).case_split_rounds,
            final(store).terms() == old(store).terms(),
            added == (reason@.len() > 0 && forall|k: int|
                0 <= k < reason@.len() ==> old(self).goal@.j.var_of.contains_key(
                    #[trigger] reason@[k],
                )),
            !added ==> final(self).goal@ == old(self).goal@,
            added ==> final(self).goal@ == with_clause(
                old(self).goal@,
                Seq::new(
                    reason@.len(),
                    |k: int| Lit { var: old(self).goal@.j.var_of[reason@[k]], positive: false },
                ),
            ),
    {
        let ghost before = *self;
        let ghost s0 = store.terms();
        proof {
            lemma_store_grown(before.terms@, s0, before.goal@);
            self.tables.lemma_wf_extend(before.terms@, s0);
            lemma_domains_longer(before.terms@, s0, before.goal@, &before.tables);
        }
        let added = self.goal.block_conflict(store, reason);
        proof {
            self.terms@ = store.terms();
            assert(growth(s0, before.goal@, store.terms(), self.goal@));
            lemma_grown_domains(s0, before.goal@, store.terms(), self.goal@, &before.tables);
            self.tables.lemma_wf_extend(s0, store.terms());
            self.lemma_searched(&before, s0, store);
        }
        added
    }
}

/// Domains keep their literals over a longer store.
proof fn lemma_domains_longer(s0: Seq<TermView>, s1: Seq<TermView>, e: GoalView, tables: &TableState)
    requires
        goal_inv(s0, e),
        terms_wf(s1),
        extends(s0, s1),
        domains_inv(s0, e, tables),
    ensures
        domains_inv(s1, e, tables),
{
    lemma_store_grown(s0, s1, e);
    crate::solver::lemma_domains_kept(s0, e, s1, e, tables, tables);
}

/// Domains keep their literals when clauses and variables are added.
proof fn lemma_grown_domains(
    s0: Seq<TermView>,
    e0: GoalView,
    s1: Seq<TermView>,
    e1: GoalView,
    tables: &TableState,
)
    requires
        goal_inv(s0, e0),
        growth(s0, e0, s1, e1),
        domains_inv(s0, e0, tables),
    ensures
        domains_inv(s1, e1, tables),
{
    assert(grown_from(s0, e0, s1, e1));
    crate::solver::lemma_domains_kept(s0, e0, s1, e1, tables, tables);
}

} // verus!
