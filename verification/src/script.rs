//! Scripts: commands, and what each of them does to a session.

use crate::asserted::AssertedQuantifier;
use crate::assertion::{
    clashes, completed, entered, lists_quantifiers, nesting, noted, readied, refuted,
};
use crate::constructors::grew;
use crate::context::{is_variable, Context};
use crate::declared::DeclaredFun;
use crate::encode::ENCODE_DEPTH_LIMIT;
use crate::solver::{noted_alias, rewritten, Solver};
use crate::sorts::{
    denotes, env_grows, env_of, kind_at, names_keep_their_sorts, parse_sort_name, sorts_grew,
    sorts_wf, text_at, texts_of, SortNames,
};
use crate::state::Polarity;
use crate::terms::{extends, NameId, SortId, SortKind, TermId, TermStore, FALSE_TERM, TRUE_TERM};
use crate::text::copy_text;
use vstd::prelude::*;

verus! {

/// More terms, sorts and names.
pub open spec fn store_grew(a: &TermStore, b: &TermStore) -> bool {
    &&& b.wf()
    &&& sorts_wf(b.sorts@)
    &&& extends(a.terms(), b.terms())
    &&& a.sorts@.len() <= b.sorts@.len()
    &&& forall|k: int| 0 <= k < a.sorts@.len() ==> #[trigger] b.sorts@[k] == a.sorts@[k]
    &&& a.names@.len() <= b.names@.len()
    &&& forall|k: int| 0 <= k < a.names@.len() ==> #[trigger] b.names@[k] == a.names@[k]
}

proof fn lemma_store_env(a: &TermStore, b: &TermStore, known: &SortNames)
    requires
        store_grew(a, b),
    ensures
        env_grows(env_of(a, known), env_of(b, known)),
{
    assert forall|k: int| 0 <= k < a.names@.len() implies #[trigger] texts_of(b.names@)[k]
        == texts_of(a.names@)[k] by {
        assert(b.names@[k] == a.names@[k]);
    }
}

proof fn lemma_store_trans(a: &TermStore, b: &TermStore, c: &TermStore)
    requires
        store_grew(a, b),
        store_grew(b, c),
    ensures
        store_grew(a, c),
{
    assert forall|k: int| 0 <= k < a.sorts@.len() implies #[trigger] c.sorts@[k] == a.sorts@[k] by {
        assert(b.sorts@[k] == a.sorts@[k]);
    }
    assert forall|k: int| 0 <= k < a.names@.len() implies #[trigger] c.names@[k] == a.names@[k] by {
        assert(b.names@[k] == a.names@[k]);
    }
}

/// A constant was declared as the variable `t`.
pub open spec fn const_declared(
    a: &Context,
    b: &Context,
    name: Seq<char>,
    sort: SortId,
    t: TermId,
) -> bool {
    &&& is_variable(&b.terms, name, sort, t)
    &&& b.declared_consts@.len() == a.declared_consts@.len() + 1
    &&& b.declared_consts@.drop_last() == a.declared_consts@
    &&& b.declared_consts@.last().term == t
    &&& b.declared_consts@.last().sort == sort
    &&& b.declared_consts@.last().name@ == name
    &&& b.const_index@ == a.const_index@.insert(name, a.declared_consts@.len() as usize)
}

/// A function was declared.
pub open spec fn fun_declared(
    a: &Context,
    b: &Context,
    name: Seq<char>,
    args: Seq<SortId>,
    ret: SortId,
) -> bool {
    &&& b.declared_funs@.len() == a.declared_funs@.len() + 1
    &&& b.declared_funs@.drop_last() == a.declared_funs@
    &&& b.declared_funs@.last().name@ == name
    &&& b.declared_funs@.last().arg_sorts@ == args
    &&& b.declared_funs@.last().ret_sort == ret
    &&& b.fun_index@ == a.fun_index@.insert(name, a.declared_funs@.len() as usize)
}

/// The texts denote the sorts.
pub open spec fn all_denote(
    store: &TermStore,
    known: &SortNames,
    written: Seq<Seq<char>>,
    ids: Seq<SortId>,
) -> bool {
    ids.len() == written.len() && forall|k: int|
        0 <= k < ids.len() ==> denotes(env_of(store, known), written[k], #[trigger] ids[k])
}

impl Context {
    /// The sort that a text denotes, which is added where it is not there yet.
    pub fn parse_sort(&mut self, text: &str) -> (id: SortId)
        requires
            old(self).valid(),
        ensures
            final(self).valid(),
            *final(self) == (Context { terms: final(self).terms, ..*old(self) }),
            sorts_grew(&old(self).terms, &final(self).terms),
            store_grew(&old(self).terms, &final(self).terms),
            id < final(self).terms.sorts@.len(),
            denotes(env_of(&final(self).terms, &final(self).sort_names), text@, id),
    {
        let ghost before = *self;
        let id = parse_sort_name(&mut self.terms, &self.sort_names, text);
        proof {
            assert(self.terms.terms() =~= before.terms.terms());
        }
        id
    }

    fn parse_sorts(&mut self, written: &Vec<String>) -> (ids: Vec<SortId>)
        requires
            old(self).valid(),
        ensures
            final(self).valid(),
            *final(self) == (Context { terms: final(self).terms, ..*old(self) }),
            store_grew(&old(self).terms, &final(self).terms),
            all_denote(
                &final(self).terms,
                &final(self).sort_names,
                texts_of(written@),
                ids@,
            ),
    {
        let ghost before = *self;
        let mut ids: Vec<SortId> = Vec::new();
        let mut k: usize = 0;
        while k < written.len()
            invariant
                k <= written.len(),
                self.valid(),
                *self == (Context { terms: self.terms, ..before }),
                store_grew(&before.terms, &self.terms),
                ids@.len() == k,
                forall|j: int|
                    0 <= j < k ==> denotes(
                        env_of(&self.terms, &self.sort_names),
                        texts_of(written@)[j],
                        #[trigger] ids@[j],
                    ),
            decreases written.len() - k,
        {
            let ghost now = self.terms;
            let id = self.parse_sort(written[k].as_str());
            proof {
                lemma_store_trans(&before.terms, &now, &self.terms);
                lemma_store_env(&now, &self.terms, &self.sort_names);
                assert forall|j: int| 0 <= j < k implies denotes(
                    env_of(&self.terms, &self.sort_names),
                    texts_of(written@)[j],
                    #[trigger] ids@[j],
                ) by {
                    names_keep_their_sorts(
                        env_of(&now, &self.sort_names),
                        env_of(&self.terms, &self.sort_names),
                        texts_of(written@)[j],
                        ids@[j],
                    );
                }
            }
            ids.push(id);
            k = k + 1;
        }
        ids
    }

    /// The sorts of a signature.
    pub(crate) fn parse_signature(&mut self, args: &Vec<String>, ret: &str) -> (r: (
        Vec<SortId>,
        SortId,
    ))
        requires
            old(self).valid(),
        ensures
            final(self).valid(),
            *final(self) == (Context { terms: final(self).terms, ..*old(self) }),
            store_grew(&old(self).terms, &final(self).terms),
            all_denote(&final(self).terms, &final(self).sort_names, texts_of(args@), r.0@),
            denotes(env_of(&final(self).terms, &final(self).sort_names), ret@, r.1),
    {
        let ghost before = *self;
        let ids = self.parse_sorts(args);
        let ghost mid = *self;
        let id = self.parse_sort(ret);
        proof {
            lemma_store_trans(&before.terms, &mid.terms, &self.terms);
            lemma_store_env(&mid.terms, &self.terms, &self.sort_names);
            assert forall|k: int| 0 <= k < ids@.len() implies denotes(
                env_of(&self.terms, &self.sort_names),
                texts_of(args@)[k],
                #[trigger] ids@[k],
            ) by {
                names_keep_their_sorts(
                    env_of(&mid.terms, &self.sort_names),
                    env_of(&self.terms, &self.sort_names),
                    texts_of(args@)[k],
                    ids@[k],
                );
            }
        }
        (ids, id)
    }

    /// Declares a constant of a sort that is written out.
    pub(crate) fn declare_written(&mut self, name: &str, sort: &str) -> (r: (SortId, TermId))
        requires
            old(self).valid(),
        ensures
            final(self).valid(),
            store_grew(&old(self).terms, &final(self).terms),
            denotes(env_of(&final(self).terms, &final(self).sort_names), sort@, r.0),
            const_declared(old(self), final(self), name@, r.0, r.1),
            *final(self) == (Context {
                terms: final(self).terms,
                declared_consts: final(self).declared_consts,
                const_index: final(self).const_index,
                ..*old(self)
            }),
    {
        let ghost before = *self;
        let id = self.parse_sort(sort);
        let ghost mid = *self;
        let t = self.declare_const(name, id);
        proof {
            lemma_store_trans(&before.terms, &mid.terms, &self.terms);
            lemma_store_env(&mid.terms, &self.terms, &self.sort_names);
            names_keep_their_sorts(
                env_of(&mid.terms, &self.sort_names),
                env_of(&self.terms, &self.sort_names),
                sort@,
                id,
            );
        }
        (id, t)
    }

    /// Enters an assertion; what is left to do for it is as for
    /// [`Solver::assert_term`].
    pub fn assert_term(&mut self, term: TermId) -> (r: (TermId, usize, bool))
        requires
            old(self).valid(),
            term < old(self).terms.terms().len(),
        ensures
            final(self).valid(),
            grew(&old(self).terms, &final(self).terms),
            final(self).assertions@ == old(self).assertions@.push(term),
            final(self).solver.only_asserts(&old(self).solver),
            rewritten(
                old(self).terms.terms(),
                &old(self).solver.tables,
                final(self).terms.terms(),
                &final(self).solver.tables,
                term,
                r.0,
            ),
            r.0 < final(self).terms.terms().len(),
            r.1 == old(self).solver.goal@.j.assertions.len(),
            r.2 == (r.0 != FALSE_TERM && r.0 != TRUE_TERM && nesting(
                final(self).terms.terms(),
                r.0 as int,
            ) <= ENCODE_DEPTH_LIMIT),
            entered(
                final(self).terms.terms(),
                old(self).solver.goal@,
                final(self).solver.goal@,
                r.0,
                None,
            ),
            *final(self) == (Context {
                terms: final(self).terms,
                solver: final(self).solver,
                assertions: final(self).assertions,
                ..*old(self)
            }),
    {
        let ghost before = *self;
        self.assertions.push(term);
        let r = self.solver.assert_term(term, &mut self.terms);
        proof {
            assert forall|k: int| 0 <= k < self.assertions@.len() implies (
            #[trigger] self.assertions@[k]) < self.terms.terms().len() by {
                if k < before.assertions@.len() {
                    assert(self.assertions@[k] == before.assertions@[k]);
                }
            }
        }
        r
    }

    /// Takes in what an assertion has become: see [`Solver::finish_assertion`].
    pub fn finish_assertion(
        &mut self,
        term: TermId,
        index: usize,
        t: TermId,
        built: Option<(TermId, NameId)>,
        occurrences: &Vec<(TermId, Polarity)>,
    ) -> (found: Vec<AssertedQuantifier>)
        requires
            old(self).valid(),
            t < old(self).terms.terms().len(),
        ensures
            final(self).valid(),
            grew(&old(self).terms, &final(self).terms),
            *final(self) == (Context {
                terms: final(self).terms,
                solver: final(self).solver,
                ..*old(self)
            }),
            final(self).solver == (Solver {
                goal: final(self).solver.goal,
                tables: final(self).solver.tables,
                terms: final(self).solver.terms,
                ..old(self).solver
            }),
            t == TRUE_TERM || t == FALSE_TERM || clashes(old(self).solver.goal@, built)
                ==> found@.len() == 0 && final(self).terms.terms() == old(self).terms.terms()
                && final(self).solver.tables == old(self).solver.tables,
            t == FALSE_TERM || (t != TRUE_TERM && clashes(old(self).solver.goal@, built)) ==> final(self).solver.goal@ == refuted(old(self).solver.goal@),
            t == TRUE_TERM ==> final(self).solver.goal@ == old(self).solver.goal@,
            t != TRUE_TERM && t != FALSE_TERM && !clashes(old(self).solver.goal@, built)
                ==> lists_quantifiers(old(self).terms.terms(), t, found@) && noted_alias(
                final(self).terms.terms(),
                &old(self).solver.tables,
                &final(self).solver.tables,
                t,
            ) && completed(
                old(self).terms.terms(),
                readied(noted(old(self).solver.goal@, built), occurrences@),
                final(self).terms.terms(),
                final(self).solver.goal@,
                term,
                None,
                index,
                t,
            ),
    {
        self.solver.finish_assertion(&mut self.terms, term, index, t, built, occurrences)
    }

    /// Drops the assertions, to make them anew with constants substituted.
    pub fn restart(&mut self)
        requires
            old(self).valid(),
        ensures
            final(self).valid(),
            final(self).solver.fresh(),
            final(self).solver.keeps_settings(&old(self).solver),
            final(self).solver.logic is None,
            final(self).assertions@.len() == 0,
            *final(self) == (Context {
                solver: final(self).solver,
                assertions: final(self).assertions,
                ..*old(self)
            }),
    {
        self.solver.reset();
        self.assertions.clear();
    }
}

/// A constructor of a data type, with its selectors.
pub struct ConstructorDecl {
    pub name: String,
    pub selectors: Vec<(String, SortId)>,
}

/// The functions that the first `n` selectors are.
pub open spec fn selector_funs(
    selectors: Seq<(String, SortId)>,
    sort: SortId,
    n: int,
) -> Seq<(Seq<char>, Seq<SortId>, SortId)>
    decreases n,
{
    if n <= 0 {
        Seq::empty()
    } else {
        selector_funs(selectors, sort, n - 1).push(
            (selectors[n - 1].0@, seq![sort], selectors[n - 1].1),
        )
    }
}

pub open spec fn selector_sorts(selectors: Seq<(String, SortId)>) -> Seq<SortId> {
    Seq::new(selectors.len(), |k: int| selectors[k].1)
}

/// The functions that the first `n` constructors and their selectors are.
pub open spec fn datatype_funs(
    constructors: Seq<ConstructorDecl>,
    sort: SortId,
    n: int,
) -> Seq<(Seq<char>, Seq<SortId>, SortId)>
    decreases n,
{
    if n <= 0 {
        Seq::empty()
    } else {
        let c = constructors[n - 1];
        datatype_funs(constructors, sort, n - 1).push(
            (c.name@, selector_sorts(c.selectors@), sort),
        ) + selector_funs(c.selectors@, sort, c.selectors@.len() as int)
    }
}

pub open spec fn fun_view(f: DeclaredFun) -> (Seq<char>, Seq<SortId>, SortId) {
    (f.name@, f.arg_sorts@, f.ret_sort)
}

pub open spec fn fun_views(funs: Seq<DeclaredFun>) -> Seq<(Seq<char>, Seq<SortId>, SortId)> {
    Seq::new(funs.len(), |k: int| fun_view(funs[k]))
}

/// The index after the functions from `from` up to `to` were declared.
pub open spec fn indexed(
    index: Map<Seq<char>, usize>,
    funs: Seq<(Seq<char>, Seq<SortId>, SortId)>,
    from: int,
    to: int,
) -> Map<Seq<char>, usize>
    decreases to - from,
{
    if to <= from {
        index
    } else {
        indexed(index, funs, from, to - 1).insert(funs[to - 1].0, (to - 1) as usize)
    }
}

/// The functions `more` were declared after those there were.
pub open spec fn funs_added(
    a: &Context,
    b: &Context,
    more: Seq<(Seq<char>, Seq<SortId>, SortId)>,
) -> bool {
    &&& fun_views(b.declared_funs@) == fun_views(a.declared_funs@) + more
    &&& b.fun_index@ == indexed(
        a.fun_index@,
        fun_views(b.declared_funs@),
        a.declared_funs@.len() as int,
        b.declared_funs@.len() as int,
    )
    &&& *b == (Context { declared_funs: b.declared_funs, fun_index: b.fun_index, ..*a })
}

proof fn lemma_indexed_same(
    index: Map<Seq<char>, usize>,
    f: Seq<(Seq<char>, Seq<SortId>, SortId)>,
    g: Seq<(Seq<char>, Seq<SortId>, SortId)>,
    from: int,
    to: int,
)
    requires
        0 <= from,
        to <= f.len(),
        to <= g.len(),
        forall|k: int| from <= k < to ==> #[trigger] f[k] == g[k],
    ensures
        indexed(index, f, from, to) == indexed(index, g, from, to),
    decreases to - from,
{
    if to > from {
        lemma_indexed_same(index, f, g, from, to - 1);
    }
}

/// One more function.
proof fn lemma_fun_added(
    a: &Context,
    b: &Context,
    c: &Context,
    more: Seq<(Seq<char>, Seq<SortId>, SortId)>,
    f: (Seq<char>, Seq<SortId>, SortId),
)
    requires
        funs_added(a, b, more),
        c.declared_funs@.len() == b.declared_funs@.len() + 1,
        c.declared_funs@.drop_last() == b.declared_funs@,
        fun_view(c.declared_funs@.last()) == f,
        c.fun_index@ == b.fun_index@.insert(f.0, b.declared_funs@.len() as usize),
        *c == (Context { declared_funs: c.declared_funs, fun_index: c.fun_index, ..*b }),
    ensures
        funs_added(a, c, more.push(f)),
{
    let fb = fun_views(b.declared_funs@);
    let fc = fun_views(c.declared_funs@);
    let n = b.declared_funs@.len() as int;
    assert forall|k: int| 0 <= k < n implies #[trigger] fc[k] == fb[k] by {
        assert(c.declared_funs@.drop_last()[k] == c.declared_funs@[k]);
    }
    assert(fc[n] == f) by {
        assert(c.declared_funs@[n] == c.declared_funs@.last());
    }
    assert(fc =~= fb.push(f));
    assert(fb.push(f) =~= fun_views(a.declared_funs@) + more.push(f));
    lemma_indexed_same(a.fun_index@, fb, fc, a.declared_funs@.len() as int, n);
}

impl Context {
    fn declare_constructor(
        &mut self,
        c: &ConstructorDecl,
        sort: SortId,
        Ghost(first): Ghost<Context>,
        Ghost(more): Ghost<Seq<(Seq<char>, Seq<SortId>, SortId)>>,
    )
        requires
            old(self).valid(),
            funs_added(&first, old(self), more),
        ensures
            final(self).valid(),
            funs_added(
                &first,
                final(self),
                more.push((c.name@, selector_sorts(c.selectors@), sort)) + selector_funs(
                    c.selectors@,
                    sort,
                    c.selectors@.len() as int,
                ),
            ),
    {
        let mut sorts: Vec<SortId> = Vec::new();
        let mut k: usize = 0;
        while k < c.selectors.len()
            invariant
                k <= c.selectors.len(),
                sorts@.len() == k,
                forall|j: int| 0 <= j < k ==> #[trigger] sorts@[j] == c.selectors@[j].1,
            decreases c.selectors.len() - k,
        {
            sorts.push(c.selectors[k].1);
            k = k + 1;
        }
        assert(sorts@ =~= selector_sorts(c.selectors@));
        let ghost b0 = *self;
        self.declare_fun(c.name.as_str(), sorts, sort);
        let ghost head = more.push((c.name@, selector_sorts(c.selectors@), sort));
        proof {
            lemma_fun_added(&first, &b0, self, more, (c.name@, selector_sorts(c.selectors@), sort));
            assert(head + selector_funs(c.selectors@, sort, 0) =~= head);
        }
        let mut n: usize = 0;
        while n < c.selectors.len()
            invariant
                n <= c.selectors.len(),
                self.valid(),
                funs_added(&first, self, head + selector_funs(c.selectors@, sort, n as int)),
            decreases c.selectors.len() - n,
        {
            let ghost b1 = *self;
            let mut args: Vec<SortId> = Vec::new();
            args.push(sort);
            assert(args@ =~= seq![sort]);
            self.declare_fun(c.selectors[n].0.as_str(), args, c.selectors[n].1);
            proof {
                let f = (c.selectors@[n as int].0@, seq![sort], c.selectors@[n as int].1);
                let so_far = head + selector_funs(c.selectors@, sort, n as int);
                lemma_fun_added(&first, &b1, self, so_far, f);
                assert(so_far.push(f) =~= head + selector_funs(c.selectors@, sort, n + 1));
            }
            n = n + 1;
        }
    }

    /// Declares a data type: its sort, its constructors and selectors as
    /// functions, and its first constructor without arguments as the default.
    pub fn declare_datatype(&mut self, name: &str, constructors: &Vec<ConstructorDecl>) -> (sort: SortId)
        requires
            old(self).valid(),
        ensures
            final(self).valid(),
            store_grew(&old(self).terms, &final(self).terms),
            final(self).terms.terms() == old(self).terms.terms(),
            is_datatype(&final(self).terms, name@, sort),
            texts_of(final(self).sort_names.datatypes@) == texts_of(
                old(self).sort_names.datatypes@,
            ).push(name@),
            final(self).sort_names.aliases@ == old(self).sort_names.aliases@,
            default_set(
                old(self).sort_names.defaults@,
                final(self).sort_names.defaults@,
                name@,
                constructors@,
            ),
            funs_added(
                &Context {
                    terms: final(self).terms,
                    sort_names: final(self).sort_names,
                    ..*old(self)
                },
                final(self),
                datatype_funs(constructors@, sort, constructors@.len() as int),
            ),
    {
        let ghost before = *self;
        let n = self.terms.intern_name(copy_text(name));
        let ghost mid = self.terms;
        let sort = self.terms.intern_sort(SortKind::Datatype(n));
        let ghost listed_before = self.sort_names.datatypes@;
        self.sort_names.datatypes.push(copy_text(name));
        proof {
            assert(texts_of(self.terms.names@) == texts_of(mid.names@));
            assert(self.terms.terms() =~= before.terms.terms());
            assert(text_at(texts_of(self.terms.names@), n, name@) && kind_at(
                self.terms.sorts@,
                sort,
                SortKind::Datatype(n),
            ));
            assert(texts_of(self.sort_names.datatypes@) =~= texts_of(listed_before).push(name@));
        }
        let mut k: usize = 0;
        while k < constructors.len() && constructors[k].selectors.len() > 0
            invariant
                k <= constructors.len(),
                forall|j: int|
                    0 <= j < k ==> (#[trigger] constructors@[j]).selectors@.len() > 0,
            decreases constructors.len() - k,
        {
            k = k + 1;
        }
        if k < constructors.len() {
            self.sort_names.defaults.insert(
                copy_text(name),
                copy_text(constructors[k].name.as_str()),
            );
            proof {
                assert(first_plain(constructors@, k as int));
            }
        }
        let ghost first = *self;
        let ghost start: Seq<(Seq<char>, Seq<SortId>, SortId)> = Seq::empty();
        proof {
            assert(fun_views(first.declared_funs@) + start =~= fun_views(first.declared_funs@));
            assert(default_set(
                before.sort_names.defaults@,
                self.sort_names.defaults@,
                name@,
                constructors@,
            )) by {
                if k >= constructors@.len() {
                    assert forall|j: int| !(#[trigger] first_plain(constructors@, j)) by {}
                }
            }
        }
        let mut c: usize = 0;
        while c < constructors.len()
            invariant
                c <= constructors.len(),
                self.valid(),
                funs_added(&first, self, datatype_funs(constructors@, sort, c as int)),
            decreases constructors.len() - c,
        {
            self.declare_constructor(
                &constructors[c],
                sort,
                Ghost(first),
                Ghost(datatype_funs(constructors@, sort, c as int)),
            );
            c = c + 1;
        }
        sort
    }
}

/// The sort of the data type of that name.
pub open spec fn is_datatype(store: &TermStore, name: Seq<char>, sort: SortId) -> bool {
    exists|n: NameId|
        text_at(texts_of(store.names@), n, name) && #[trigger] kind_at(
            store.sorts@,
            sort,
            SortKind::Datatype(n),
        )
}

/// The first constructor without arguments.
pub open spec fn first_plain(constructors: Seq<ConstructorDecl>, k: int) -> bool {
    &&& 0 <= k < constructors.len()
    &&& constructors[k].selectors@.len() == 0
    &&& forall|j: int| 0 <= j < k ==> (#[trigger] constructors[j]).selectors@.len() > 0
}

/// The default of the data type was set, where it has a constructor without
/// arguments.
pub open spec fn default_set(
    a: Map<Seq<char>, String>,
    b: Map<Seq<char>, String>,
    name: Seq<char>,
    constructors: Seq<ConstructorDecl>,
) -> bool {
    if exists|k: int| #[trigger] first_plain(constructors, k) {
        &&& b == a.insert(name, b[name])
        &&& exists|k: int| #[trigger]
            first_plain(constructors, k) && b[name]@ == constructors[k].name@
    } else {
        b == a
    }
}

} // verus!
