//! The front end: declarations, options and scopes around a [`Solver`].

use crate::constructors::var_node;
use crate::declared::{DeclaredConst, DeclaredFun};
use crate::instances::grew_names;
use crate::names::NameMap;
use crate::search::SolverResult;
use crate::solver::Solver;
use crate::sorts::{sorts_wf, text_at, texts_of, SortNames};
use crate::terms::{node_at, SortId, Symbol, TermId, TermStore};
use crate::text::{copy_text, same_text};
use vstd::prelude::*;

verus! {

/// Declarations, assertions and options of a session.
pub struct Context {
    pub terms: TermStore,
    pub solver: Solver,
    pub sort_names: SortNames,
    pub logic: Option<String>,
    pub assertions: Vec<TermId>,
    pub assertion_stack: Vec<usize>,
    pub declared_consts: Vec<DeclaredConst>,
    pub const_stack: Vec<usize>,
    /// The place of the constant declared last under a name.
    pub const_index: NameMap<usize>,
    pub declared_funs: Vec<DeclaredFun>,
    pub fun_stack: Vec<usize>,
    /// The place of the function declared last under a name.
    pub fun_index: NameMap<usize>,
    pub last_result: Option<SolverResult>,
    /// The assumptions of the last check.
    pub last_assumptions: Vec<TermId>,
    pub options: NameMap<String>,
    /// Sorts that were declared, with their arities.
    pub declared_sorts: NameMap<u32>,
    /// The seed of the search.
    pub random_seed: u64,
}

impl Context {
    /// The parts fit together.
    pub open spec fn valid(&self) -> bool {
        &&& sorts_wf(self.terms.sorts@)
        &&& self.sort_names.wf(self.terms.sorts@.len() as int)
        &&& self.solver.fits(&self.terms)
        &&& self.const_index.wf()
        &&& self.const_index@ == latest(const_names(self.declared_consts@))
        &&& self.fun_index.wf()
        &&& self.fun_index@ == latest(fun_names(self.declared_funs@))
        &&& self.options.wf()
        &&& self.declared_sorts.wf()
        &&& forall|k: int|
            0 <= k < self.assertions@.len() ==> (#[trigger] self.assertions@[k])
                < self.terms.terms().len()
        &&& forall|k: int|
            0 <= k < self.declared_consts@.len() ==> (#[trigger] self.declared_consts@[k]).term
                < self.terms.terms().len()
        &&& self.const_stack@.len() >= self.assertion_stack@.len()
        &&& self.fun_stack@.len() >= self.assertion_stack@.len()
    }

    pub fn new() -> (r: Context)
        ensures
            r.valid(),
            r.solver.fresh(),
            r.terms.terms().len() == 2,
            r.logic is None,
            r.assertions@.len() == 0,
            r.assertion_stack@.len() == 0,
            r.declared_consts@.len() == 0,
            r.declared_funs@.len() == 0,
            r.const_index@ == Map::<Seq<char>, usize>::empty(),
            r.fun_index@ == Map::<Seq<char>, usize>::empty(),
            r.last_result is None,
            r.last_assumptions@.len() == 0,
            r.options@ == Map::<Seq<char>, String>::empty(),
            r.declared_sorts@ == Map::<Seq<char>, u32>::empty(),
            r.random_seed == 0,
    {
        let terms = TermStore::new();
        let solver = Solver::new();
        assert(solver.fits(&terms));
        proof {
            assert(latest(Seq::<Seq<char>>::empty()) =~= Map::<Seq<char>, usize>::empty());
        }
        let r = Context {
            terms,
            solver,
            sort_names: SortNames::new(),
            logic: None,
            assertions: Vec::new(),
            assertion_stack: Vec::new(),
            declared_consts: Vec::new(),
            const_stack: Vec::new(),
            const_index: NameMap::new(),
            declared_funs: Vec::new(),
            fun_stack: Vec::new(),
            fun_index: NameMap::new(),
            last_result: None,
            last_assumptions: Vec::new(),
            options: NameMap::new(),
            declared_sorts: NameMap::new(),
            random_seed: 0,
        };
        assert(const_names(r.declared_consts@) =~= Seq::<Seq<char>>::empty());
        assert(fun_names(r.declared_funs@) =~= Seq::<Seq<char>>::empty());
        r
    }

    /// Declares a constant: the variable of that name and sort.
    pub fn declare_const(&mut self, name: &str, sort: SortId) -> (t: TermId)
        requires
            old(self).valid(),
        ensures
            final(self).valid(),
            grew_names(&old(self).terms, &final(self).terms),
            is_variable(&final(self).terms, name@, sort, t),
            final(self).declared_consts@.len() == old(self).declared_consts@.len() + 1,
            final(self).declared_consts@.drop_last() == old(self).declared_consts@,
            final(self).declared_consts@.last().term == t,
            final(self).declared_consts@.last().sort == sort,
            final(self).declared_consts@.last().name@ == name@,
            final(self).const_index@ == old(self).const_index@.insert(
                name@,
                old(self).declared_consts@.len() as usize,
            ),
            *final(self) == (Context {
                terms: final(self).terms,
                declared_consts: final(self).declared_consts,
                const_index: final(self).const_index,
                ..*old(self)
            }),
    {
        let ghost before = *self;
        let n = self.terms.intern_name(copy_text(name));
        let ghost mid = self.terms;
        assert(mid.terms() =~= before.terms.terms());
        let t = self.terms.mk_var(Symbol::User(n), sort);
        let index = self.declared_consts.len();
        self.declared_consts.push(DeclaredConst { term: t, sort, name: copy_text(name) });
        self.const_index.insert(copy_text(name), index);
        proof {
            assert(texts_of(self.terms.names@) == texts_of(mid.names@));
            assert(self.declared_consts@.drop_last() =~= before.declared_consts@);
            let names = const_names(self.declared_consts@);
            assert(names.drop_last() =~= const_names(before.declared_consts@));
            assert(names.last() == name@);
            assert(text_at(texts_of(self.terms.names@), n, name@) && node_at(
                self.terms.terms(),
                t,
                var_node(Symbol::User(n), sort),
            ));
        }
        t
    }

    /// Declares a function.
    pub fn declare_fun(&mut self, name: &str, arg_sorts: Vec<SortId>, ret_sort: SortId)
        requires
            old(self).valid(),
        ensures
            final(self).valid(),
            final(self).declared_funs@.len() == old(self).declared_funs@.len() + 1,
            final(self).declared_funs@.drop_last() == old(self).declared_funs@,
            final(self).declared_funs@.last().name@ == name@,
            final(self).declared_funs@.last().arg_sorts == arg_sorts,
            final(self).declared_funs@.last().ret_sort == ret_sort,
            final(self).fun_index@ == old(self).fun_index@.insert(
                name@,
                old(self).declared_funs@.len() as usize,
            ),
            *final(self) == (Context {
                declared_funs: final(self).declared_funs,
                fun_index: final(self).fun_index,
                ..*old(self)
            }),
    {
        let ghost before = *self;
        let index = self.declared_funs.len();
        self.declared_funs.push(DeclaredFun { name: copy_text(name), arg_sorts, ret_sort });
        self.fun_index.insert(copy_text(name), index);
        proof {
            assert(self.declared_funs@.drop_last() =~= before.declared_funs@);
            let names = fun_names(self.declared_funs@);
            assert(names.drop_last() =~= fun_names(before.declared_funs@));
            assert(names.last() == name@);
        }
    }

    /// The signature of the function that was declared last under the name.
    pub fn get_fun_signature(&self, name: &str) -> (r: Option<(Vec<SortId>, SortId)>)
        requires
            self.valid(),
        ensures
            r is Some == fun_names(self.declared_funs@).contains(name@),
            r matches Some(sig) ==> exists|k: int| #[trigger]
                last_named(fun_names(self.declared_funs@), name@, k) && sig.0@
                    == self.declared_funs@[k].arg_sorts@ && sig.1
                    == self.declared_funs@[k].ret_sort,
    {
        let count: usize = self.declared_funs.len();
        proof {
            assert(fun_names(self.declared_funs@).len() == count);
            lemma_latest(fun_names(self.declared_funs@), name@);
        }
        match self.fun_index.get(name) {
            Some(k) => {
                assert(last_named(fun_names(self.declared_funs@), name@, *k as int));
                let f = &self.declared_funs[*k];
                Some((crate::collections::copy_words(&f.arg_sorts), f.ret_sort))
            },
            None => None,
        }
    }

    /// The names of the declared functions, in the order of declaration.
    pub fn declared_function_names(&self) -> (names: Vec<String>)
        ensures
            names@.len() == self.declared_funs@.len(),
            forall|k: int|
                0 <= k < names@.len() ==> (#[trigger] names@[k])@ == self.declared_funs@[k].name@,
    {
        let mut names: Vec<String> = Vec::new();
        let mut k: usize = 0;
        while k < self.declared_funs.len()
            invariant
                k <= self.declared_funs.len(),
                names@.len() == k,
                forall|j: int|
                    0 <= j < k ==> (#[trigger] names@[j])@ == self.declared_funs@[j].name@,
            decreases self.declared_funs.len() - k,
        {
            names.push(copy_text(self.declared_funs[k].name.as_str()));
            k = k + 1;
        }
        names
    }

    /// The declared sorts with their arities.
    pub fn declared_sort_names(&self) -> (list: Vec<(String, u32)>)
        requires
            self.declared_sorts.wf(),
        ensures
            list@.len() == self.declared_sorts.entries@.len(),
            forall|k: int|
                0 <= k < list@.len() ==> (#[trigger] list@[k]).0@
                    == self.declared_sorts.entries@[k].0@ && list@[k].1
                    == self.declared_sorts.entries@[k].1,
    {
        let mut list: Vec<(String, u32)> = Vec::new();
        let mut k: usize = 0;
        while k < self.declared_sorts.entries.len()
            invariant
                k <= self.declared_sorts.entries.len(),
                list@.len() == k,
                forall|j: int|
                    0 <= j < k ==> (#[trigger] list@[j]).0@ == self.declared_sorts.entries@[j].0@
                        && list@[j].1 == self.declared_sorts.entries@[j].1,
            decreases self.declared_sorts.entries.len() - k,
        {
            let entry = &self.declared_sorts.entries[k];
            list.push((copy_text(entry.0.as_str()), entry.1));
            k = k + 1;
        }
        list
    }

    pub fn set_logic(&mut self, logic: &str)
        requires
            old(self).valid(),
        ensures
            final(self).valid(),
            final(self).logic matches Some(x) && x@ == logic@,
            final(self).solver.logic matches Some(x) && x@ == logic@,
            final(self).solver == (Solver {
                logic: final(self).solver.logic,
                last_check: None,
                ..old(self).solver
            }),
            *final(self) == (Context {
                logic: final(self).logic,
                solver: final(self).solver,
                ..*old(self)
            }),
    {
        self.logic = Some(copy_text(logic));
        self.solver.set_logic(copy_text(logic));
    }

    pub fn logic(&self) -> (r: Option<&String>)
        ensures
            r is Some == self.logic is Some,
            r matches Some(x) ==> Some(*x) == self.logic,
    {
        self.logic.as_ref()
    }

    pub fn get_assertions(&self) -> (r: &Vec<TermId>)
        ensures
            *r == self.assertions,
    {
        &self.assertions
    }

    /// Opens a scope.
    pub fn push(&mut self)
        requires
            old(self).valid(),
        ensures
            final(self).valid(),
            final(self).solver.opened(&old(self).solver),
            final(self).assertion_stack@ == old(self).assertion_stack@.push(
                old(self).assertions.len(),
            ),
            final(self).const_stack@ == old(self).const_stack@.push(
                old(self).declared_consts.len(),
            ),
            final(self).fun_stack@ == old(self).fun_stack@.push(old(self).declared_funs.len()),
            *final(self) == (Context {
                solver: final(self).solver,
                assertion_stack: final(self).assertion_stack,
                const_stack: final(self).const_stack,
                fun_stack: final(self).fun_stack,
                ..*old(self)
            }),
    {
        self.assertion_stack.push(self.assertions.len());
        self.const_stack.push(self.declared_consts.len());
        self.fun_stack.push(self.declared_funs.len());
        self.solver.push();
    }

    /// Closes the innermost scope: the assertions and declarations made in it
    /// are gone, and names stand for what they stood for before it.
    pub fn pop(&mut self)
        requires
            old(self).valid(),
        ensures
            final(self).valid(),
            old(self).assertion_stack@.len() == 0 ==> *final(self) == *old(self),
            old(self).assertion_stack@.len() > 0 ==> final(self).popped(old(self)),
    {
        if self.assertion_stack.len() == 0 {
            return;
        }
        let ghost before = *self;
        if let Some(n) = self.assertion_stack.pop() {
            self.assertions.truncate(n);
            if let Some(m) = self.const_stack.pop() {
                self.drop_consts(m);
            }
            if let Some(m) = self.fun_stack.pop() {
                self.drop_funs(m);
            }
            self.solver.pop();
            proof {
                assert(self.assertion_stack@ =~= before.assertion_stack@.drop_last());
                assert(self.const_stack@ =~= before.const_stack@.drop_last());
                assert(self.fun_stack@ =~= before.fun_stack@.drop_last());
                assert(self.assertions@ =~= shortened(before.assertions@, n as int));
                assert forall|k: int| 0 <= k < self.assertions@.len() implies (
                #[trigger] self.assertions@[k]) < self.terms.terms().len() by {
                    assert(self.assertions@[k] == before.assertions@[k]);
                }
                assert forall|k: int| 0 <= k < self.declared_consts@.len() implies (
                #[trigger] self.declared_consts@[k]).term < self.terms.terms().len() by {
                    assert(self.declared_consts@[k] == before.declared_consts@[k]);
                }
            }
        }
    }

    /// What closing a scope does.
    pub open spec fn popped(&self, before: &Context) -> bool {
        let n = before.assertion_stack@.last() as int;
        let c = before.const_stack@.last() as int;
        let f = before.fun_stack@.last() as int;
        &&& self.assertion_stack@ == before.assertion_stack@.drop_last()
        &&& self.const_stack@ == before.const_stack@.drop_last()
        &&& self.fun_stack@ == before.fun_stack@.drop_last()
        &&& self.assertions@ == shortened(before.assertions@, n)
        &&& self.declared_consts@ == shortened(before.declared_consts@, c)
        &&& self.const_index@ == latest(const_names(self.declared_consts@))
        &&& self.declared_funs@ == shortened(before.declared_funs@, f)
        &&& self.fun_index@ == latest(fun_names(self.declared_funs@))
        &&& if before.solver.context_stack@.len() > 0 {
            self.solver.closed(&before.solver)
        } else {
            self.solver == before.solver
        }
        &&& *self == (Context {
            solver: self.solver,
            assertions: self.assertions,
            assertion_stack: self.assertion_stack,
            declared_consts: self.declared_consts,
            const_stack: self.const_stack,
            const_index: self.const_index,
            declared_funs: self.declared_funs,
            fun_stack: self.fun_stack,
            fun_index: self.fun_index,
            ..*before
        })
    }

    fn drop_consts(&mut self, n: usize)
        requires
            old(self).const_index.wf(),
            old(self).const_index@ == latest(const_names(old(self).declared_consts@)),
        ensures
            final(self).const_index.wf(),
            final(self).declared_consts@ == shortened(old(self).declared_consts@, n as int),
            final(self).const_index@ == latest(const_names(final(self).declared_consts@)),
            *final(self) == (Context {
                declared_consts: final(self).declared_consts,
                const_index: final(self).const_index,
                ..*old(self)
            }),
    {
        let ghost decls = self.declared_consts@;
        assert(decls.take(decls.len() as int) =~= decls);
        while self.declared_consts.len() > n
            invariant
                self.const_index.wf(),
                self.const_index@ == latest(const_names(self.declared_consts@)),
                self.declared_consts@.len() <= decls.len(),
                self.declared_consts@ == decls.take(self.declared_consts@.len() as int),
                self.declared_consts@.len() >= shortened(decls, n as int).len(),
                *self == (Context {
                    declared_consts: self.declared_consts,
                    const_index: self.const_index,
                    ..*old(self)
                }),
            decreases self.declared_consts.len(),
        {
            let ghost now = self.declared_consts@;
            let ghost all = const_names(now);
            if let Some(d) = self.declared_consts.pop() {
                let ghost rest = const_names(self.declared_consts@);
                proof {
                    assert(self.declared_consts@ =~= now.drop_last());
                    assert(self.declared_consts@ =~= decls.take(now.len() - 1));
                    assert(d == now.last());
                    assert(rest =~= all.drop_last());
                    assert(all.last() == d.name@);
                }
                let mut k: usize = self.declared_consts.len();
                while k > 0 && !same_text(
                    self.declared_consts[k - 1].name.as_str(),
                    d.name.as_str(),
                )
                    invariant
                        k <= self.declared_consts.len(),
                        rest == const_names(self.declared_consts@),
                        forall|j: int| k <= j < rest.len() ==> #[trigger] rest[j] != d.name@,
                    decreases k,
                {
                    k = k - 1;
                }
                if k > 0 {
                    proof {
                        assert(last_named(rest, d.name@, k - 1));
                    }
                    self.const_index.insert(copy_text(d.name.as_str()), k - 1);
                } else {
                    self.const_index.remove(d.name.as_str());
                }
                proof {
                    lemma_latest_shorter(all, k as int);
                }
            }
        }
        assert(self.declared_consts@ =~= shortened(decls, n as int));
    }

    fn drop_funs(&mut self, n: usize)
        requires
            old(self).fun_index.wf(),
            old(self).fun_index@ == latest(fun_names(old(self).declared_funs@)),
        ensures
            final(self).fun_index.wf(),
            final(self).declared_funs@ == shortened(old(self).declared_funs@, n as int),
            final(self).fun_index@ == latest(fun_names(final(self).declared_funs@)),
            *final(self) == (Context {
                declared_funs: final(self).declared_funs,
                fun_index: final(self).fun_index,
                ..*old(self)
            }),
    {
        let ghost decls = self.declared_funs@;
        assert(decls.take(decls.len() as int) =~= decls);
        while self.declared_funs.len() > n
            invariant
                self.fun_index.wf(),
                self.fun_index@ == latest(fun_names(self.declared_funs@)),
                self.declared_funs@.len() <= decls.len(),
                self.declared_funs@ == decls.take(self.declared_funs@.len() as int),
                self.declared_funs@.len() >= shortened(decls, n as int).len(),
                *self == (Context {
                    declared_funs: self.declared_funs,
                    fun_index: self.fun_index,
                    ..*old(self)
                }),
            decreases self.declared_funs.len(),
        {
            let ghost now = self.declared_funs@;
            let ghost all = fun_names(now);
            if let Some(d) = self.declared_funs.pop() {
                let ghost rest = fun_names(self.declared_funs@);
                proof {
                    assert(self.declared_funs@ =~= now.drop_last());
                    assert(self.declared_funs@ =~= decls.take(now.len() - 1));
                    assert(d == now.last());
                    assert(rest =~= all.drop_last());
                    assert(all.last() == d.name@);
                }
                let mut k: usize = self.declared_funs.len();
                while k > 0 && !same_text(
                    self.declared_funs[k - 1].name.as_str(),
                    d.name.as_str(),
                )
                    invariant
                        k <= self.declared_funs.len(),
                        rest == fun_names(self.declared_funs@),
                        forall|j: int| k <= j < rest.len() ==> #[trigger] rest[j] != d.name@,
                    decreases k,
                {
                    k = k - 1;
                }
                if k > 0 {
                    proof {
                        assert(last_named(rest, d.name@, k - 1));
                    }
                    self.fun_index.insert(copy_text(d.name.as_str()), k - 1);
                } else {
                    self.fun_index.remove(d.name.as_str());
                }
                proof {
                    lemma_latest_shorter(all, k as int);
                }
            }
        }
        assert(self.declared_funs@ =~= shortened(decls, n as int));
    }

    /// Forgets everything but the terms and the names of sorts.
    pub fn reset(&mut self)
        requires
            old(self).valid(),
        ensures
            final(self).valid(),
            final(self).solver.fresh(),
            final(self).solver.keeps_settings(&old(self).solver),
            final(self).solver.logic is None,
            final(self).assertions@.len() == 0,
            final(self).assertion_stack@.len() == 0,
            final(self).declared_consts@.len() == 0,
            final(self).const_stack@.len() == 0,
            final(self).const_index@ == Map::<Seq<char>, usize>::empty(),
            final(self).declared_funs@.len() == 0,
            final(self).fun_stack@.len() == 0,
            final(self).fun_index@ == Map::<Seq<char>, usize>::empty(),
            final(self).logic is None,
            final(self).last_result is None,
            final(self).last_assumptions@.len() == 0,
            final(self).options@ == Map::<Seq<char>, String>::empty(),
            final(self).terms == old(self).terms,
            final(self).sort_names == old(self).sort_names,
            final(self).declared_sorts == old(self).declared_sorts,
            final(self).random_seed == old(self).random_seed,
    {
        self.solver.reset();
        self.assertions.clear();
        self.assertion_stack.clear();
        self.declared_consts.clear();
        self.const_stack.clear();
        self.const_index = NameMap::new();
        self.declared_funs.clear();
        self.fun_stack.clear();
        self.fun_index = NameMap::new();
        self.logic = None;
        self.last_result = None;
        self.last_assumptions.clear();
        self.options = NameMap::new();
    }

    /// Forgets the assertions; declarations and options stay.
    pub fn reset_assertions(&mut self)
        requires
            old(self).valid(),
        ensures
            final(self).valid(),
            final(self).solver.fresh(),
            final(self).solver.keeps_settings(&old(self).solver),
            final(self).solver.logic is None,
            final(self).assertions@.len() == 0,
            final(self).assertion_stack@.len() == 0,
            final(self).last_result is None,
            final(self).last_assumptions@.len() == 0,
            *final(self) == (Context {
                solver: final(self).solver,
                assertions: final(self).assertions,
                assertion_stack: final(self).assertion_stack,
                last_result: None,
                last_assumptions: final(self).last_assumptions,
                ..*old(self)
            }),
    {
        self.solver.reset();
        self.assertions.clear();
        self.assertion_stack.clear();
        self.last_result = None;
        self.last_assumptions.clear();
    }

    /// Records the answer of a check.  An answer of `sat` is withdrawn where
    /// array atoms were left to no theory.
    pub fn conclude_check(
        &mut self,
        assumptions: Vec<TermId>,
        result: SolverResult,
        arrays_open: bool,
    ) -> (r: SolverResult)
        requires
            old(self).valid(),
        ensures
            final(self).valid(),
            r == withdrawn(result, arrays_open),
            final(self).last_result == Some(r),
            final(self).last_assumptions == assumptions,
            *final(self) == (Context {
                last_result: Some(r),
                last_assumptions: assumptions,
                ..*old(self)
            }),
    {
        let r = match result {
            SolverResult::Sat => if arrays_open {
                SolverResult::Unknown
            } else {
                SolverResult::Sat
            },
            _ => result,
        };
        self.last_assumptions = assumptions;
        self.last_result = Some(r);
        r
    }
}

/// `t` is the variable of the name and sort.
pub open spec fn is_variable(store: &TermStore, name: Seq<char>, sort: SortId, t: TermId) -> bool {
    exists|n: usize|
        text_at(texts_of(store.names@), n, name) && #[trigger] node_at(
            store.terms(),
            t,
            var_node(Symbol::User(n), sort),
        )
}

/// An answer of `sat` is none where array atoms were left to no theory.
pub open spec fn withdrawn(result: SolverResult, arrays_open: bool) -> SolverResult {
    if result == SolverResult::Sat && arrays_open {
        SolverResult::Unknown
    } else {
        result
    }
}

/// The first `n` items.
pub open spec fn shortened<T>(list: Seq<T>, n: int) -> Seq<T> {
    if list.len() > n {
        list.take(n)
    } else {
        list
    }
}

pub open spec fn const_names(decls: Seq<DeclaredConst>) -> Seq<Seq<char>> {
    Seq::new(decls.len(), |k: int| decls[k].name@)
}

pub open spec fn fun_names(decls: Seq<DeclaredFun>) -> Seq<Seq<char>> {
    Seq::new(decls.len(), |k: int| decls[k].name@)
}

/// The last place of a name.
pub open spec fn last_named(names: Seq<Seq<char>>, name: Seq<char>, k: int) -> bool {
    &&& 0 <= k < names.len()
    &&& names[k] == name
    &&& forall|j: int| k < j < names.len() ==> #[trigger] names[j] != name
}

/// The last place of each name.
pub open spec fn latest(names: Seq<Seq<char>>) -> Map<Seq<char>, usize>
    decreases names.len(),
{
    if names.len() == 0 {
        Map::empty()
    } else {
        latest(names.drop_last()).insert(names.last(), (names.len() - 1) as usize)
    }
}

proof fn lemma_latest(names: Seq<Seq<char>>, name: Seq<char>)
    requires
        names.len() <= usize::MAX,
    ensures
        latest(names).contains_key(name) == names.contains(name),
        latest(names).contains_key(name) ==> last_named(names, name, latest(names)[name] as int),
    decreases names.len(),
{
    if names.len() > 0 {
        let rest = names.drop_last();
        lemma_latest(rest, name);
        if names.last() == name {
            assert(names[names.len() - 1] == name);
        } else {
            if rest.contains(name) {
                let k = choose|k: int| 0 <= k < rest.len() && rest[k] == name;
                assert(names[k] == name);
                let p = latest(rest)[name] as int;
                assert forall|j: int| p < j < names.len() implies #[trigger] names[j] != name by {
                    if j < rest.len() {
                        assert(rest[j] == names[j]);
                    }
                }
                assert(rest[p] == names[p]);
            }
            if names.contains(name) {
                let k = choose|k: int| 0 <= k < names.len() && names[k] == name;
                assert(rest[k] == name);
            }
        }
    }
}

/// The last places without the last name; `k` is one more than the last place
/// that its name has among the others, or 0.
proof fn lemma_latest_shorter(names: Seq<Seq<char>>, k: int)
    requires
        0 < names.len() <= usize::MAX,
        0 <= k < names.len(),
        k > 0 ==> last_named(names.drop_last(), names.last(), k - 1),
        k == 0 ==> !names.drop_last().contains(names.last()),
    ensures
        latest(names.drop_last()) == (if k > 0 {
            latest(names).insert(names.last(), (k - 1) as usize)
        } else {
            latest(names).remove(names.last())
        }),
{
    let rest = names.drop_last();
    let name = names.last();
    lemma_latest(rest, name);
    if k > 0 {
        assert(rest[k - 1] == name);
        assert(rest.contains(name));
        let p = latest(rest)[name] as int;
        assert(p == k - 1) by {
            if p < k - 1 {
                assert(rest[k - 1] != name);
            }
            if p > k - 1 {
                assert(rest[p] != name);
            }
        }
        assert(latest(rest) =~= latest(names).insert(name, (k - 1) as usize));
    } else {
        assert(latest(rest) =~= latest(names).remove(name));
    }
}

/// Closing a scope gives back the assertions and declarations that were there
/// when it was opened, if in between they were only added to.
pub proof fn popping_undoes_pushing(a: &Context, b: &Context, c: &Context)
    requires
        b.assertion_stack@ == a.assertion_stack@.push(a.assertions.len()),
        b.const_stack@ == a.const_stack@.push(a.declared_consts.len()),
        b.fun_stack@ == a.fun_stack@.push(a.declared_funs.len()),
        a.assertions@.len() <= b.assertions@.len(),
        b.assertions@.take(a.assertions@.len() as int) == a.assertions@,
        a.declared_consts@.len() <= b.declared_consts@.len(),
        b.declared_consts@.take(a.declared_consts@.len() as int) == a.declared_consts@,
        a.declared_funs@.len() <= b.declared_funs@.len(),
        b.declared_funs@.take(a.declared_funs@.len() as int) == a.declared_funs@,
        c.popped(b),
        a.valid(),
    ensures
        c.const_index@ == a.const_index@,
        c.fun_index@ == a.fun_index@,
        c.assertions@ == a.assertions@,
        c.declared_consts@ == a.declared_consts@,
        c.declared_funs@ == a.declared_funs@,
        c.assertion_stack@ == a.assertion_stack@,
        c.const_stack@ == a.const_stack@,
        c.fun_stack@ == a.fun_stack@,
{
    assert(b.assertion_stack@.drop_last() =~= a.assertion_stack@);
    assert(b.const_stack@.drop_last() =~= a.const_stack@);
    assert(b.fun_stack@.drop_last() =~= a.fun_stack@);
    assert(b.assertions@.take(b.assertions@.len() as int) =~= b.assertions@);
    assert(b.declared_consts@.take(b.declared_consts@.len() as int) =~= b.declared_consts@);
    assert(b.declared_funs@.take(b.declared_funs@.len() as int) =~= b.declared_funs@);
}

} // verus!
