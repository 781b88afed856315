//! Taking an assertion into the state.

use crate::asserted::{asserts, describes, register_asserted_quantifiers, AssertedQuantifier};
use crate::axioms::disequality_split;
use crate::collections::{map_get, map_insert, map_new};
use crate::constructors::grew;
use crate::descent::{visits, Descent};
use crate::encode::{
    agrees, coherent, complete, coverage, covered, encoded, good, lit_val, sat_all, Assignment,
    ENCODE_DEPTH_LIMIT,
};
use crate::scopes::{grown_from, lemma_grown_refl, lemma_grown_trans};
use crate::semantics::{holds, Interp};
use crate::state::{
    clause_true, goal_inv, lemma_clause_extend, lemma_growth_clause, lemma_undo_last, lit_true,
    lits_within, polarity_of, remembered, step, undo, valid_clause, GoalState, GoalView, Journaled,
    Lit, NamedAssertion, Polarity, TrailOp,
};
use crate::terms::{
    node_below, terms_wf, NameId, Op, TermId, TermStore, TermView, FALSE_TERM, TRUE_TERM,
};
use crate::walk::{collect_subterms, lemma_reach_le, lists_reach, subterm};
use rustc_hash::FxHashMap;
use vstd::prelude::*;

verus! {

/// How deeply a term is nested.
pub open spec fn nesting(s: Seq<TermView>, t: int) -> nat
    decreases t, 1int,
{
    if 0 <= t < s.len() && node_below(s, t) {
        nesting_below(s, t, s[t].args.len() as int)
    } else {
        0
    }
}

/// One more than the deepest of the first `k` arguments.
pub open spec fn nesting_below(s: Seq<TermView>, t: int, k: int) -> nat
    decreases t, 0int, k,
{
    if k <= 0 || !(0 <= t < s.len() && node_below(s, t)) || k > s[t].args.len() {
        0
    } else {
        let rest = nesting_below(s, t, k - 1);
        let this = 1 + nesting(s, s[t].args[k - 1] as int);
        if this > rest {
            this
        } else {
            rest
        }
    }
}

/// The state with one more assertion.
pub open spec fn added(e: GoalView, term: TermId) -> GoalView {
    GoalView {
        j: Journaled { assertions: e.j.assertions.push(term), ..e.j },
        trail: e.trail.push(TrailOp::AssertionAdded { index: e.j.assertions.len() as usize }),
        ..e
    }
}

/// The state in which `false` has been asserted.
pub open spec fn refuted(e: GoalView) -> GoalView {
    if e.j.has_false {
        e
    } else {
        GoalView {
            j: Journaled { has_false: true, ..e.j },
            trail: e.trail.push(TrailOp::FalseAssertionSet),
            ..e
        }
    }
}

pub open spec fn text_of(name: Option<String>) -> Option<Seq<char>> {
    match name {
        Some(x) => Some(x@),
        None => None,
    }
}

/// The assertion at `index` has been entered into the list of names.
pub open spec fn identified(
    e0: GoalView,
    e1: GoalView,
    term: TermId,
    name: Option<Seq<char>>,
    index: usize,
) -> bool {
    &&& e1.j.named.len() == e0.j.named.len() + 1
    &&& e1.j.named.last().term == term
    &&& text_of(e1.j.named.last().name) == name
    &&& e1.j.named.last().index == index
    &&& e1 == (GoalView {
        j: Journaled { named: e0.j.named.push(e1.j.named.last()), ..e0.j },
        trail: e0.trail.push(
            TrailOp::NamedAssertionAdded { index: e0.j.named.len() as usize },
        ),
        ..e0
    })
}

/// The constructor of a variable has been recorded.
pub open spec fn built_by(e: GoalView, var: TermId, constructor: NameId) -> GoalView {
    if e.j.dt.contains_key(var) {
        e
    } else {
        GoalView {
            j: Journaled { dt: e.j.dt.insert(var, constructor), ..e.j },
            trail: e.trail.push(TrailOp::DtVarConstructorAdded { term: var }),
            ..e
        }
    }
}

/// A polarity that covers both.
pub open spec fn widest(known: Option<Polarity>, p: Polarity) -> Polarity {
    match known {
        Some(q) => if q == p {
            p
        } else {
            Polarity::Both
        },
        None => p,
    }
}

pub open spec fn known_polarity(pols: Map<TermId, Polarity>, t: TermId) -> Option<Polarity> {
    if pols.contains_key(t) {
        Some(pols[t])
    } else {
        None
    }
}

/// The polarities after the first `n` occurrences.
pub open spec fn widened(
    pols: Map<TermId, Polarity>,
    occurrences: Seq<(TermId, Polarity)>,
    n: int,
) -> Map<TermId, Polarity>
    decreases n,
{
    if n <= 0 {
        pols
    } else {
        let before = widened(pols, occurrences, n - 1);
        let (t, p) = occurrences[n - 1];
        before.insert(t, widest(known_polarity(before, t), p))
    }
}

/// The state before `t` is encoded.
pub open spec fn readied(e: GoalView, occurrences: Seq<(TermId, Polarity)>) -> GoalView {
    if e.aware {
        GoalView { pols: widened(e.pols, occurrences, occurrences.len() as int), ..e }
    } else {
        e
    }
}

/// `t` was encoded from the state `e0`, its literal was made a clause, and its
/// disequalities got theirs.
pub open spec fn taken_in(
    s0: Seq<TermView>,
    e0: GoalView,
    s1: Seq<TermView>,
    e1: GoalView,
    t: TermId,
) -> bool {
    exists|sm: Seq<TermView>, em: GoalView, l: Lit| #[trigger]
        taken_through(s0, e0, sm, em, l, s1, e1, t)
}

pub open spec fn taken_through(
    s0: Seq<TermView>,
    e0: GoalView,
    sm: Seq<TermView>,
    em: GoalView,
    l: Lit,
    s1: Seq<TermView>,
    e1: GoalView,
    t: TermId,
) -> bool {
    &&& encoded(s0, e0, sm, em, t, l, 0)
    &&& remembered(em, t) && em.j.memo[t].0 == l
    &&& good(sm, with_clause(em, seq![l]), s1, e1)
    &&& forall|x: TermId| #[trigger]
        visits(sm, Descent::Disequalities, t, x) ==> disequality_split(s1, e1, x)
}

pub open spec fn with_clause(e: GoalView, c: Seq<Lit>) -> GoalView {
    GoalView { clauses: e.clauses.push(c), ..e }
}

/// The interpretation makes every clause true.
pub open spec fn clauses_true(s: Seq<TermView>, i: Interp, e: GoalView) -> bool {
    forall|k: int|
        0 <= k < e.clauses.len() ==> clause_true(s, i, e.term_of, #[trigger] e.clauses[k])
}

/// Encoding an assertion loses no model: where the assertion and the clauses so
/// far are true, all the clauses are.
pub proof fn assertions_keep_models(
    s0: Seq<TermView>,
    e0: GoalView,
    s1: Seq<TermView>,
    e1: GoalView,
    t: TermId,
    i: Interp,
)
    requires
        goal_inv(s0, e0),
        taken_in(s0, e0, s1, e1, t),
        t < s0.len(),
        clauses_true(s0, i, e0),
        holds(s0, i, t),
    ensures
        clauses_true(s1, i, e1),
{
    let (sm, em, l) = choose|sm: Seq<TermView>, em: GoalView, l: Lit| #[trigger]
        taken_through(s0, e0, sm, em, l, s1, e1, t);
    let ec = with_clause(em, seq![l]);
    crate::semantics::lemma_extend(s0, sm, i, t);
    assert(lit_true(sm, i, em.term_of, l));
    assert forall|k: int| 0 <= k < e1.clauses.len() implies clause_true(
        s1,
        i,
        e1.term_of,
        #[trigger] e1.clauses[k],
    ) by {
        if k < ec.clauses.len() {
            assert(e1.clauses[k] == ec.clauses[k]);
            if k < em.clauses.len() {
                assert(ec.clauses[k] == em.clauses[k]);
                if k < e0.clauses.len() {
                    assert(em.clauses[k] == e0.clauses[k]);
                    assert(clause_true(s0, i, e0.term_of, e0.clauses[k]));
                    lemma_clause_extend(s0, e0.term_of, sm, em.term_of, i, e0.clauses[k]);
                } else {
                    assert(valid_clause(sm, em.term_of, em.clauses[k]));
                }
            } else {
                assert(ec.clauses[k] == seq![l]);
                assert(seq![l][0] == l);
                assert(clause_true(sm, i, em.term_of, seq![l]));
            }
            assert(lits_within(ec.clauses[k], em.term_of.len() as int));
            lemma_clause_extend(sm, em.term_of, s1, e1.term_of, i, ec.clauses[k]);
        } else {
            assert(valid_clause(s1, e1.term_of, e1.clauses[k]));
        }
    }
}

/// The clauses entail the assertion: an assignment that satisfies them, and that
/// agrees with an interpretation on the atoms, makes the assertion true there.
pub proof fn assertions_are_entailed(
    s0: Seq<TermView>,
    e0: GoalView,
    s1: Seq<TermView>,
    e1: GoalView,
    t: TermId,
    g: Assignment,
    i: Interp,
)
    requires
        goal_inv(s0, e0),
        complete(s0, e0),
        taken_in(s0, e0, s1, e1, t),
        !e1.exceeded,
        t < s0.len(),
        coherent(s0, e0, t),
        coverage(s0, e0, t) != Polarity::Negative,
        agrees(s1, e1, g, i),
        sat_all(g, e1.clauses),
    ensures
        holds(s1, i, t),
        complete(s1, e1),
{
    let (sm, em, l) = choose|sm: Seq<TermView>, em: GoalView, l: Lit| #[trigger]
        taken_through(s0, e0, sm, em, l, s1, e1, t);
    let ec = with_clause(em, seq![l]);
    crate::encode::lemma_coherent_extend(s0, e0, sm, em, t);
    assert(covered(sm, em, l, t, coverage(sm, em, t)));
    assert(complete(sm, em));
    assert forall|k: int| 0 <= k < em.clauses.len() implies #[trigger] ec.clauses[k]
        == em.clauses[k] by {}
    crate::encode::lemma_agrees_back(sm, ec, s1, e1, g, i);
    assert(agrees(sm, em, g, i));
    assert forall|k: int| 0 <= k < ec.clauses.len() implies crate::encode::clause_sat(
        g,
        #[trigger] ec.clauses[k],
    ) by {
        assert(e1.clauses[k] == ec.clauses[k]);
    }
    assert forall|k: int| 0 <= k < em.clauses.len() implies crate::encode::clause_sat(
        g,
        #[trigger] em.clauses[k],
    ) by {
        assert(ec.clauses[k] == em.clauses[k]);
    }
    assert(sat_all(g, em.clauses));
    assert(ec.clauses[em.clauses.len() as int] == seq![l]);
    assert(crate::encode::clause_sat(g, seq![l]));
    assert(lit_val(g, l));
    assert(holds(sm, i, t));
    crate::semantics::lemma_extend(sm, s1, i, t);
    assert(complete(sm, ec)) by {
        assert forall|x: TermId| #[trigger] ec.j.memo.contains_key(x) && coherent(sm, ec, x)
            implies covered(sm, ec, ec.j.memo[x].0, x, coverage(sm, ec, x)) by {
            crate::encode::lemma_coherent_extend(sm, em, sm, ec, x);
            assert(em.j.memo.contains_key(x) && coherent(sm, em, x));
            assert(covered(sm, em, em.j.memo[x].0, x, coverage(sm, em, x)));
            assert forall|h: Assignment, j: Interp| #[trigger]
                agrees(sm, ec, h, j) && sat_all(h, ec.clauses) implies agrees(sm, em, h, j)
                && sat_all(h, em.clauses) by {
                assert forall|k: int| 0 <= k < em.clauses.len() implies crate::encode::clause_sat(
                    h,
                    #[trigger] em.clauses[k],
                ) by {
                    assert(ec.clauses[k] == em.clauses[k]);
                    assert(crate::encode::clause_sat(h, ec.clauses[k]));
                }
            }
        }
    }
}

/// Whether the term is nested more deeply than the encoder descends.
pub fn term_exceeds_encode_depth(store: &TermStore, term: TermId) -> (b: bool)
    requires
        store.wf(),
        term < store.terms().len(),
    ensures
        b == (nesting(store.terms(), term as int) > ENCODE_DEPTH_LIMIT),
{
    let ghost s = store.terms();
    let list = collect_subterms(store, term);
    let mut depth: FxHashMap<TermId, u32> = map_new();
    let limit: u32 = ENCODE_DEPTH_LIMIT + 1;
    let mut n: usize = 0;
    while n < list.len()
        invariant
            n <= list.len(),
            store.wf(),
            s == store.terms(),
            term < s.len(),
            limit == ENCODE_DEPTH_LIMIT + 1,
            lists_reach(list@, s, Map::empty(), term),
            forall|x: TermId| #[trigger]
                depth@.contains_key(x) <==> list@.take(n as int).contains(x),
            forall|x: TermId| #[trigger]
                depth@.contains_key(x) ==> x < s.len() && depth@[x] == (if nesting(s, x as int)
                    > limit {
                    limit as nat
                } else {
                    nesting(s, x as int)
                }),
        decreases list.len() - n,
    {
        let x: TermId = list[n];
        proof {
            assert(list@.contains(x));
            lemma_reach_le(s, Map::empty(), term, x);
            assert(node_below(s, x as int));
        }
        let args = &store.nodes[x].args;
        assert(args@ == s[x as int].args);
        let mut d: u32 = 0;
        let mut k: usize = 0;
        while k < args.len()
            invariant
                k <= args.len(),
                args@ == s[x as int].args,
                x < s.len(),
                n < list.len(),
                list@[n as int] == x,
                terms_wf(s),
                node_below(s, x as int),
                term < s.len(),
                subterm(s, term, x),
                limit == ENCODE_DEPTH_LIMIT + 1,
                lists_reach(list@, s, Map::empty(), term),
                forall|y: TermId| #[trigger]
                    depth@.contains_key(y) <==> list@.take(n as int).contains(y),
                forall|y: TermId| #[trigger]
                    depth@.contains_key(y) ==> y < s.len() && depth@[y] == (if nesting(
                        s,
                        y as int,
                    ) > limit {
                        limit as nat
                    } else {
                        nesting(s, y as int)
                    }),
                d == (if nesting_below(s, x as int, k as int) > limit {
                    limit as nat
                } else {
                    nesting_below(s, x as int, k as int)
                }),
            decreases args.len() - k,
        {
            let a: TermId = args[k];
            proof {
                assert(s[x as int].args[k as int] == a);
                crate::walk::lemma_reach_step(s, Map::empty(), term, x, k as int);
                assert(list@.contains(a));
                let p = choose|p: int| 0 <= p < list@.len() && list@[p] == a;
                assert(a < x);
                assert(p < n);
                assert(list@.take(n as int)[p] == a);
                assert(depth@.contains_key(a));
            }
            let below: u32 = match map_get(&depth, a) {
                Some(v) => *v,
                None => 0,
            };
            let this: u32 = if below >= limit {
                limit
            } else {
                below + 1
            };
            if this > d {
                d = this;
            }
            k = k + 1;
        }
        let ghost before = depth@;
        map_insert(&mut depth, x, d);
        proof {
            let all = list@.take(n + 1);
            assert(all =~= list@.take(n as int).push(x));
            assert forall|y: TermId| #[trigger] depth@.contains_key(y) <==> list@.take(
                n + 1,
            ).contains(y) by {
                if depth@.contains_key(y) && y != x {
                    let p = choose|p: int|
                        0 <= p < list@.take(n as int).len() && list@.take(n as int)[p] == y;
                    assert(list@.take(n + 1)[p] == y);
                }
                if y == x {
                    assert(list@.take(n + 1)[n as int] == x);
                }
                if list@.take(n + 1).contains(y) && y != x {
                    let p = choose|p: int| 0 <= p < all.len() && all[p] == y;
                    assert(list@.take(n as int)[p] == y);
                }
            }
        }
        n = n + 1;
    }
    proof {
        assert(list@.take(n as int) =~= list@);
        assert(subterm(s, term, term));
        assert(list@.contains(term));
        assert(depth@.contains_key(term));
    }
    match map_get(&depth, term) {
        Some(v) => *v > ENCODE_DEPTH_LIMIT,
        None => false,
    }
}

/// A journalled change that leaves variables and clauses alone.
proof fn lemma_journalled(s: Seq<TermView>, e0: GoalView, e1: GoalView, op: TrailOp)
    requires
        goal_inv(s, e0),
        e1.trail == e0.trail.push(op),
        undo(e1.j, op) == e0.j,
        e1 == (GoalView { j: e1.j, trail: e1.trail, pols: e1.pols, exceeded: e1.exceeded, ..e0 }),
        e0.exceeded ==> e1.exceeded,
        e1.j.var_of == e0.j.var_of,
        e1.j.memo == e0.j.memo,
        e1.j.constraint == e0.j.constraint,
        e1.j.arith == e0.j.arith,
        e1.j.bv == e0.j.bv,
    ensures
        grown_from(s, e0, s, e1),
{
    lemma_undo_last(e0, e1, op);
    assert(e1.requests.take(e1.requests.len() as int) =~= e1.requests);
    lemma_same_core(s, e0, e1);
}

/// The invariant speaks of variables, clauses, memo, constraints, cache, requests
/// and flags only.
pub(crate) proof fn lemma_same_core(s: Seq<TermView>, e0: GoalView, e1: GoalView)
    requires
        goal_inv(s, e0),
        e1.term_of == e0.term_of,
        e1.clauses == e0.clauses,
        e1.parsed == e0.parsed,
        e1.cache == e0.cache,
        e1.requests == e0.requests,
        e1.quantified == e0.quantified,
        e1.arrays == e0.arrays,
        e1.bv_arith == e0.bv_arith,
        e0.exceeded ==> e1.exceeded,
        e1.j.var_of == e0.j.var_of,
        e1.j.memo == e0.j.memo,
        e1.j.constraint == e0.j.constraint,
        e1.j.arith == e0.j.arith,
        e1.j.bv == e0.j.bv,
    ensures
        goal_inv(s, e1),
{
}

/// A step is growth of the state.
pub(crate) proof fn lemma_step_grown(s0: Seq<TermView>, e0: GoalView, s1: Seq<TermView>, e1: GoalView)
    requires
        goal_inv(s0, e0),
        step(s0, e0, s1, e1),
    ensures
        grown_from(s0, e0, s1, e1),
{
}

proof fn lemma_clause_grown(s: Seq<TermView>, e0: GoalView, c: Seq<Lit>)
    requires
        goal_inv(s, e0),
        lits_within(c, e0.term_of.len() as int),
    ensures
        grown_from(s, e0, s, with_clause(e0, c)),
{
    lemma_growth_clause(s, e0, with_clause(e0, c), c);
}

impl GoalState {
    fn push_assertion(&mut self, Ghost(s): Ghost<Seq<TermView>>, term: TermId) -> (index: usize)
        requires
            goal_inv(s, old(self)@),
        ensures
            index == old(self)@.j.assertions.len(),
            final(self)@ == added(old(self)@, term),
            grown_from(s, old(self)@, s, final(self)@),
    {
        let ghost e0 = self@;
        let index = self.assertions.len();
        self.assertions.push(term);
        self.trail.push(TrailOp::AssertionAdded { index });
        proof {
            assert(self@.parsed =~= e0.parsed);
            assert(self@.cache =~= e0.cache);
            assert(self@.clauses =~= e0.clauses);
            assert(self@.j.assertions.take(index as int) =~= e0.j.assertions);
            lemma_journalled(s, e0, self@, TrailOp::AssertionAdded { index });
        }
        index
    }

    fn set_false(&mut self, Ghost(s): Ghost<Seq<TermView>>)
        requires
            goal_inv(s, old(self)@),
        ensures
            final(self)@ == refuted(old(self)@),
            grown_from(s, old(self)@, s, final(self)@),
    {
        let ghost e0 = self@;
        if !self.has_false_assertion {
            self.has_false_assertion = true;
            self.trail.push(TrailOp::FalseAssertionSet);
            proof {
                assert(self@.parsed =~= e0.parsed);
                assert(self@.cache =~= e0.cache);
                assert(self@.clauses =~= e0.clauses);
                lemma_journalled(s, e0, self@, TrailOp::FalseAssertionSet);
            }
        } else {
            proof {
                lemma_grown_refl(s, e0);
            }
        }
    }

    fn record_assertion_identity(
        &mut self,
        Ghost(s): Ghost<Seq<TermView>>,
        term: TermId,
        name: Option<String>,
        index: usize,
    )
        requires
            goal_inv(s, old(self)@),
        ensures
            identified(old(self)@, final(self)@, term, text_of(name), index),
            grown_from(s, old(self)@, s, final(self)@),
    {
        let ghost e0 = self@;
        let place = self.named_assertions.len();
        let entry = NamedAssertion { term, name, index };
        self.named_assertions.push(entry);
        self.trail.push(TrailOp::NamedAssertionAdded { index: place });
        proof {
            assert(self@.parsed =~= e0.parsed);
            assert(self@.cache =~= e0.cache);
            assert(self@.clauses =~= e0.clauses);
            assert(self@.j.named.take(place as int) =~= e0.j.named);
            lemma_journalled(s, e0, self@, TrailOp::NamedAssertionAdded { index: place });
        }
    }

    fn record_constructor(
        &mut self,
        Ghost(s): Ghost<Seq<TermView>>,
        var: TermId,
        constructor: NameId,
    ) -> (clash: bool)
        requires
            goal_inv(s, old(self)@),
        ensures
            clash == (old(self)@.j.dt.contains_key(var) && old(self)@.j.dt[var] != constructor),
            final(self)@ == built_by(old(self)@, var, constructor),
            grown_from(s, old(self)@, s, final(self)@),
    {
        let ghost e0 = self@;
        match map_get(&self.dt_var_constructors, var) {
            Some(known) => {
                proof {
                    lemma_grown_refl(s, e0);
                }
                *known != constructor
            },
            None => {
                map_insert(&mut self.dt_var_constructors, var, constructor);
                self.trail.push(TrailOp::DtVarConstructorAdded { term: var });
                proof {
                    assert(self@.parsed =~= e0.parsed);
                    assert(self@.cache =~= e0.cache);
                    assert(self@.clauses =~= e0.clauses);
                    assert(self@.j.dt.remove(var) =~= e0.j.dt);
                    lemma_journalled(s, e0, self@, TrailOp::DtVarConstructorAdded { term: var });
                }
                false
            },
        }
    }

    fn widen_polarities(
        &mut self,
        Ghost(s): Ghost<Seq<TermView>>,
        occurrences: &Vec<(TermId, Polarity)>,
    )
        requires
            goal_inv(s, old(self)@),
        ensures
            final(self)@ == readied(old(self)@, occurrences@),
            grown_from(s, old(self)@, s, final(self)@),
    {
        let ghost e0 = self@;
        if self.polarity_aware {
            let mut n: usize = 0;
            while n < occurrences.len()
                invariant
                    n <= occurrences.len(),
                    self@ == (GoalView {
                        pols: widened(e0.pols, occurrences@, n as int),
                        ..e0
                    }),
                decreases occurrences.len() - n,
            {
                let ghost before = self@;
                let (t, p) = occurrences[n];
                let w: Polarity = match map_get(&self.polarities, t) {
                    Some(q) => if *q == p {
                        p
                    } else {
                        Polarity::Both
                    },
                    None => p,
                };
                map_insert(&mut self.polarities, t, w);
                proof {
                    assert(self@.parsed =~= before.parsed);
                    assert(self@.cache =~= before.cache);
                    assert(self@.clauses =~= before.clauses);
                }
                n = n + 1;
            }
        }
        proof {
            lemma_same_core(s, e0, self@);
            assert(self@.trail.take(self@.trail.len() as int) =~= self@.trail);
            assert(self@.requests.take(self@.requests.len() as int) =~= self@.requests);
        }
    }

    /// Enters an assertion.  A constant is dealt with at once, and a term that
    /// is nested too deeply only marks the state as incomplete; whether there
    /// is more to do is returned.
    pub fn begin_assertion(&mut self, store: &TermStore, term: TermId, name: Option<String>) -> (r:
        (bool, usize))
        requires
            goal_inv(store.terms(), old(self)@),
            store.wf(),
            term < store.terms().len(),
        ensures
            r.1 == old(self)@.j.assertions.len(),
            r.0 == (term != FALSE_TERM && term != TRUE_TERM && nesting(
                store.terms(),
                term as int,
            ) <= ENCODE_DEPTH_LIMIT),
            entered(store.terms(), old(self)@, final(self)@, term, text_of(name)),
            grown_from(store.terms(), old(self)@, store.terms(), final(self)@),
    {
        let ghost s = store.terms();
        let ghost e0 = self@;
        let index = self.push_assertion(Ghost(s), term);
        let ghost e1 = self@;
        let more = if term == FALSE_TERM {
            self.set_false(Ghost(s));
            let ghost e2 = self@;
            self.record_assertion_identity(Ghost(s), term, name, index);
            proof {
                lemma_grown_trans(s, e1, s, e2, s, self@);
            }
            false
        } else if term == TRUE_TERM {
            self.record_assertion_identity(Ghost(s), term, name, index);
            false
        } else if term_exceeds_encode_depth(store, term) {
            self.encode_depth_exceeded = true;
            let ghost e2 = self@;
            proof {
                assert(e2.parsed =~= e1.parsed);
                assert(e2.cache =~= e1.cache);
                assert(e2.clauses =~= e1.clauses);
                lemma_same_core(s, e1, e2);
                assert(e1.trail.take(e1.trail.len() as int) =~= e1.trail);
                assert(e1.requests.take(e1.requests.len() as int) =~= e1.requests);
            }
            self.record_assertion_identity(Ghost(s), term, name, index);
            proof {
                lemma_grown_trans(s, e1, s, e2, s, self@);
            }
            false
        } else {
            proof {
                lemma_grown_refl(s, e1);
            }
            true
        };
        proof {
            lemma_grown_trans(s, e0, s, e1, s, self@);
        }
        (more, index)
    }

    /// Takes in what an assertion has become.
    ///
    /// `term` is the assertion at `index`, and `t` is what stands for it after
    /// simplification.  A constant is dealt with at once.  Where `t` says that a
    /// variable is built by a constructor, `built` names the two; a second
    /// constructor refutes the assertions.  `occurrences` lists the polarities
    /// with which formulas occur in `t`.  The quantified formulas that may be
    /// instantiated are returned.
    pub fn encode_assertion(
        &mut self,
        store: &mut TermStore,
        term: TermId,
        index: usize,
        t: TermId,
        built: Option<(TermId, NameId)>,
        occurrences: &Vec<(TermId, Polarity)>,
    ) -> (found: Vec<AssertedQuantifier>)
        requires
            goal_inv(old(store).terms(), old(self)@),
            old(store).wf(),
            t < old(store).terms().len(),
        ensures
            grew(old(store), final(store)),
            grown_from(old(store).terms(), old(self)@, final(store).terms(), final(self)@),
            t == TRUE_TERM || t == FALSE_TERM || clashes(old(self)@, built) ==> found@.len() == 0
                && final(store).terms() == old(store).terms(),
            t == FALSE_TERM || (t != TRUE_TERM && clashes(old(self)@, built)) ==> final(self)@
                == refuted(old(self)@),
            t == TRUE_TERM ==> final(self)@ == old(self)@,
            t != TRUE_TERM && t != FALSE_TERM && !clashes(old(self)@, built) ==> lists_quantifiers(
                old(store).terms(),
                t,
                found@,
            ) && completed(
                old(store).terms(),
                readied(noted(old(self)@, built), occurrences@),
                final(store).terms(),
                final(self)@,
                term,
                None,
                index,
                t,
            ),
    {
        let ghost s0 = store.terms();
        let ghost e0 = self@;
        if t == FALSE_TERM {
            self.set_false(Ghost(s0));
            return Vec::new();
        }
        if t == TRUE_TERM {
            proof {
                lemma_grown_refl(s0, e0);
            }
            return Vec::new();
        }
        if let Some((var, constructor)) = built {
            let clash = self.record_constructor(Ghost(s0), var, constructor);
            if clash {
                self.set_false(Ghost(s0));
                return Vec::new();
            }
        } else {
            proof {
                lemma_grown_refl(s0, e0);
            }
        }
        let ghost e1 = self@;
        let found = self.take_in(store, term, index, None, t, occurrences);
        proof {
            lemma_grown_trans(s0, e0, s0, e1, store.terms(), self@);
        }
        found
    }

    /// Takes in a named assertion, as it stands.
    pub fn encode_named_assertion(
        &mut self,
        store: &mut TermStore,
        term: TermId,
        index: usize,
        name: String,
        t: TermId,
        occurrences: &Vec<(TermId, Polarity)>,
    ) -> (found: Vec<AssertedQuantifier>)
        requires
            goal_inv(old(store).terms(), old(self)@),
            old(store).wf(),
            t < old(store).terms().len(),
        ensures
            grew(old(store), final(store)),
            grown_from(old(store).terms(), old(self)@, final(store).terms(), final(self)@),
            lists_quantifiers(old(store).terms(), t, found@),
            completed(
                old(store).terms(),
                readied(old(self)@, occurrences@),
                final(store).terms(),
                final(self)@,
                term,
                Some(name@),
                index,
                t,
            ),
    {
        self.take_in(store, term, index, Some(name), t, occurrences)
    }

    fn take_in(
        &mut self,
        store: &mut TermStore,
        term: TermId,
        index: usize,
        name: Option<String>,
        t: TermId,
        occurrences: &Vec<(TermId, Polarity)>,
    ) -> (found: Vec<AssertedQuantifier>)
        requires
            goal_inv(old(store).terms(), old(self)@),
            old(store).wf(),
            t < old(store).terms().len(),
        ensures
            grew(old(store), final(store)),
            grown_from(old(store).terms(), old(self)@, final(store).terms(), final(self)@),
            lists_quantifiers(old(store).terms(), t, found@),
            completed(
                old(store).terms(),
                readied(old(self)@, occurrences@),
                final(store).terms(),
                final(self)@,
                term,
                text_of(name),
                index,
                t,
            ),
    {
        let ghost s0 = store.terms();
        let ghost e0 = self@;
        self.widen_polarities(Ghost(s0), occurrences);
        let ghost e1 = self@;
        let found = register_asserted_quantifiers(store, t);
        let l = self.encode(t, store);
        let ghost s2 = store.terms();
        let ghost e2 = self@;
        let mut unit: Vec<Lit> = Vec::new();
        unit.push(l);
        assert(unit@ =~= seq![l]);
        proof {
            lemma_step_grown(s0, e1, s2, e2);
            assert forall|k: int| 0 <= k < seq![l].len() implies (#[trigger] seq![l][k]).var
                < e2.term_of.len() by {}
            lemma_clause_grown(s2, e2, seq![l]);
        }
        self.add_clause(unit);
        let ghost e3 = self@;
        assert(e3 == with_clause(e2, seq![l]));
        self.add_arith_diseq_split(store, t);
        let ghost s4 = store.terms();
        let ghost e4 = self@;
        proof {
            lemma_step_grown(s2, e3, s4, e4);
            assert(taken_through(s0, e1, s2, e2, l, s4, e4, t));
        }
        self.record_assertion_identity(Ghost(s4), term, name, index);
        proof {
            lemma_grown_trans(s0, e0, s0, e1, s2, e2);
            lemma_grown_trans(s0, e0, s2, e2, s2, e3);
            lemma_grown_trans(s0, e0, s2, e3, s4, e4);
            lemma_grown_trans(s0, e0, s4, e4, s4, self@);
            assert(completed_through(s0, e1, e4, s4, self@, term, text_of(name), index, t));
        }
        found
    }
}

/// What entering an assertion does.
pub open spec fn entered(
    s: Seq<TermView>,
    e0: GoalView,
    e1: GoalView,
    term: TermId,
    name: Option<Seq<char>>,
) -> bool {
    let index = e0.j.assertions.len() as usize;
    let e = added(e0, term);
    if term == FALSE_TERM {
        identified(refuted(e), e1, term, name, index)
    } else if term == TRUE_TERM {
        identified(e, e1, term, name, index)
    } else if nesting(s, term as int) > ENCODE_DEPTH_LIMIT {
        identified(GoalView { exceeded: true, ..e }, e1, term, name, index)
    } else {
        e1 == e
    }
}

/// The variable is built by another constructor already.
pub open spec fn clashes(e: GoalView, built: Option<(TermId, NameId)>) -> bool {
    match built {
        Some((var, constructor)) => e.j.dt.contains_key(var) && e.j.dt[var] != constructor,
        None => false,
    }
}

pub open spec fn noted(e: GoalView, built: Option<(TermId, NameId)>) -> GoalView {
    match built {
        Some((var, constructor)) => built_by(e, var, constructor),
        None => e,
    }
}

/// The list holds the quantified formulas that `t` states unconditionally.
pub open spec fn lists_quantifiers(
    s: Seq<TermView>,
    t: TermId,
    found: Seq<AssertedQuantifier>,
) -> bool {
    &&& forall|k: int|
        0 <= k < found.len() ==> describes(s, #[trigger] found[k]) && asserts(
            s,
            t,
            true,
            found[k].term,
            true,
        )
    &&& forall|x: TermId|
        #[trigger] asserts(s, t, true, x, true) && (s[x as int].op == Op::Forall || s[x as int].op
            == Op::Exists) ==> exists|k: int|
            0 <= k < found.len() && (#[trigger] found[k]).term == x
}

/// `t` was taken in, and the assertion was entered into the list of names.
pub open spec fn completed(
    s0: Seq<TermView>,
    e0: GoalView,
    s1: Seq<TermView>,
    e1: GoalView,
    term: TermId,
    name: Option<Seq<char>>,
    index: usize,
    t: TermId,
) -> bool {
    exists|e: GoalView| #[trigger] completed_through(s0, e0, e, s1, e1, term, name, index, t)
}

pub open spec fn completed_through(
    s0: Seq<TermView>,
    e0: GoalView,
    e: GoalView,
    s1: Seq<TermView>,
    e1: GoalView,
    term: TermId,
    name: Option<Seq<char>>,
    index: usize,
    t: TermId,
) -> bool {
    taken_in(s0, e0, s1, e, t) && identified(e, e1, term, name, index)
}

/// Coherence depends on the polarities below the term alone.
proof fn lemma_coherent_same(s: Seq<TermView>, e0: GoalView, e1: GoalView, t: TermId)
    requires
        terms_wf(s),
        t < s.len(),
        forall|x: TermId| #[trigger]
            subterm(s, t, x) ==> polarity_of(e1, x) == polarity_of(e0, x),
    ensures
        coherent(s, e1, t) == coherent(s, e0, t),
        coverage(s, e1, t) == coverage(s, e0, t),
    decreases t,
{
    assert(node_below(s, t as int));
    assert(subterm(s, t, t));
    let args = s[t as int].args;
    assert forall|k: int| 0 <= k < args.len() implies polarity_of(e1, #[trigger] args[k])
        == polarity_of(e0, args[k]) && coherent(s, e1, args[k]) == coherent(s, e0, args[k]) by {
        let a = args[k];
        assert(s[t as int].args[k] == a);
        crate::walk::lemma_reach_step(s, Map::empty(), t, t, k);
        assert(subterm(s, t, a));
        assert forall|x: TermId| #[trigger] subterm(s, a, x) implies polarity_of(e1, x)
            == polarity_of(e0, x) by {
            lemma_subterm_below(s, t, k, x);
        }
        lemma_coherent_same(s, e0, e1, a);
    }
}

proof fn lemma_subterm_below(s: Seq<TermView>, t: TermId, k: int, x: TermId)
    requires
        terms_wf(s),
        t < s.len(),
        0 <= k < s[t as int].args.len(),
        subterm(s, s[t as int].args[k], x),
    ensures
        subterm(s, t, x),
{
    assert(node_below(s, t as int));
    assert(s[t as int].args[k] < t);
    assert(crate::walk::reach(s, Map::empty(), s[t as int].args[k], x));
}

/// Polarities of new formulas leave the clauses as complete as they were: so
/// long as the polarities within remembered terms stay, those terms need no
/// more clauses.
pub proof fn new_polarities_keep_completeness(s: Seq<TermView>, e: GoalView, occurrences: Seq<(TermId, Polarity)>)
    requires
        goal_inv(s, e),
        complete(s, e),
        forall|t: TermId, x: TermId| #[trigger]
            subterm(s, t, x) && e.j.memo.contains_key(t) ==> polarity_of(
                readied(e, occurrences),
                x,
            ) == polarity_of(e, x),
    ensures
        complete(s, readied(e, occurrences)),
{
    let e1 = readied(e, occurrences);
    assert forall|t: TermId| #[trigger] e1.j.memo.contains_key(t) && coherent(s, e1, t) implies covered(
        s,
        e1,
        e1.j.memo[t].0,
        t,
        coverage(s, e1, t),
    ) by {
        assert(e.j.memo.contains_key(t));
        lemma_coherent_same(s, e, e1, t);
        assert(covered(s, e, e.j.memo[t].0, t, coverage(s, e, t)));
        assert forall|g: Assignment, i: Interp| #[trigger]
            agrees(s, e1, g, i) && sat_all(g, e1.clauses) implies agrees(s, e, g, i) by {}
    }
}

/// Without remembered terms nothing is missing.
pub proof fn fresh_states_are_complete(s: Seq<TermView>, e: GoalView)
    requires
        e.j.memo.dom() == Set::<TermId>::empty(),
    ensures
        complete(s, e),
{
}

/// What was asserted so far is entailed by the clauses, one assertion after the
/// other: a completed assertion is true wherever an assignment satisfies the
/// clauses and agrees with an interpretation on the atoms, and the clauses are
/// complete for the next one.
pub proof fn completed_assertions_are_entailed(
    s0: Seq<TermView>,
    e0: GoalView,
    s1: Seq<TermView>,
    e1: GoalView,
    term: TermId,
    name: Option<Seq<char>>,
    index: usize,
    t: TermId,
    g: Assignment,
    i: Interp,
)
    requires
        goal_inv(s0, e0),
        complete(s0, e0),
        completed(s0, e0, s1, e1, term, name, index, t),
        !e1.exceeded,
        t < s0.len(),
        coherent(s0, e0, t),
        coverage(s0, e0, t) != Polarity::Negative,
        agrees(s1, e1, g, i),
        sat_all(g, e1.clauses),
    ensures
        holds(s1, i, t),
        complete(s1, e1),
{
    let e = choose|e: GoalView| #[trigger]
        completed_through(s0, e0, e, s1, e1, term, name, index, t);
    assert(agrees(s1, e, g, i)) by {
        assert forall|x: TermId| #[trigger]
            e.j.var_of.contains_key(x) && !crate::encode::gate(s1, x as int) implies g(
            e.j.var_of[x],
        ) == holds(s1, i, x) by {
            assert(e1.j.var_of.contains_key(x));
        }
    }
    assertions_are_entailed(s0, e0, s1, e, t, g, i);
    let (sm, em, l) = choose|sm: Seq<TermView>, em: GoalView, l: Lit| #[trigger]
        taken_through(s0, e0, sm, em, l, s1, e, t);
    assert forall|x: TermId| #[trigger] e1.j.memo.contains_key(x) && coherent(s1, e1, x) implies covered(
        s1,
        e1,
        e1.j.memo[x].0,
        x,
        coverage(s1, e1, x),
    ) by {
        assert(e.j.memo.contains_key(x));
        crate::encode::lemma_coherent_extend(s1, e, s1, e1, x);
        assert(covered(s1, e, e.j.memo[x].0, x, coverage(s1, e, x)));
        assert forall|h: Assignment, j: Interp| #[trigger]
            agrees(s1, e1, h, j) && sat_all(h, e1.clauses) implies agrees(s1, e, h, j) by {
            assert forall|y: TermId| #[trigger]
                e.j.var_of.contains_key(y) && !crate::encode::gate(s1, y as int) implies h(
                e.j.var_of[y],
            ) == holds(s1, j, y) by {
                assert(e1.j.var_of.contains_key(y));
            }
        }
    }
}

} // verus!
