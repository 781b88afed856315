//! Opening and closing scopes.
//!
//! Every change to the state is journalled, so that closing a scope takes back
//! exactly what was done in it.

use crate::collections::{map_insert, map_remove, set_remove};
use crate::linear::ParsedView;
use crate::state::{
    attached, constraint_ok, goal_inv, lemma_attached_extend, lemma_means_extend,
    lemma_rewind_split, means, operands_requested, parsed_ok, rewind, undo, undoes, GoalState,
    GoalView, Journaled, TrailOp, Var,
};
use crate::terms::{extends, TermId, TermView};
use rustc_hash::FxHashMap;
use vstd::prelude::*;

verus! {

/// What a scope found when it was opened.
#[derive(Debug)]
pub struct ContextState {
    pub num_assertions: usize,
    pub num_vars: usize,
    pub num_clauses: usize,
    pub trail_position: usize,
    pub has_false_assertion: bool,
    pub has_quantifiers: bool,
    pub has_bv_arith_ops: bool,
    pub has_array_ops: bool,
    pub encode_depth_exceeded: bool,
    pub dt_axioms_incomplete: bool,
    /// The aliases that were known.
    pub unit_eq_rep: FxHashMap<TermId, TermId>,
}

/// The state `e1` came from `e0` by additions, and its journal leads back.
pub open spec fn grown_from(s0: Seq<TermView>, e0: GoalView, s1: Seq<TermView>, e1: GoalView) -> bool {
    &&& goal_inv(s0, e0)
    &&& goal_inv(s1, e1)
    &&& extends(s0, s1)
    &&& e0.term_of.len() <= e1.term_of.len()
    &&& forall|v: int| 0 <= v < e0.term_of.len() ==> #[trigger] e1.term_of[v] == e0.term_of[v]
    &&& e0.clauses.len() <= e1.clauses.len()
    &&& forall|k: int| 0 <= k < e0.clauses.len() ==> #[trigger] e1.clauses[k] == e0.clauses[k]
    &&& forall|t: TermId| #[trigger] e0.j.memo.contains_key(t) ==> e1.j.memo.contains_key(t)
    &&& forall|v: Var| #[trigger] e0.parsed.contains_key(v) ==> e1.parsed.contains_key(v)
    &&& e0.requests.len() <= e1.requests.len()
    &&& e1.requests.take(e0.requests.len() as int) == e0.requests
    &&& undoes(e0, e1)
}

pub proof fn lemma_grown_refl(s: Seq<TermView>, e: GoalView)
    requires
        goal_inv(s, e),
    ensures
        grown_from(s, e, s, e),
{
    assert(e.trail.take(e.trail.len() as int) =~= e.trail);
    assert(e.requests.take(e.requests.len() as int) =~= e.requests);
}

pub proof fn lemma_grown_trans(
    s0: Seq<TermView>,
    e0: GoalView,
    s1: Seq<TermView>,
    e1: GoalView,
    s2: Seq<TermView>,
    e2: GoalView,
)
    requires
        grown_from(s0, e0, s1, e1),
        grown_from(s1, e1, s2, e2),
    ensures
        grown_from(s0, e0, s2, e2),
{
    assert forall|v: int| 0 <= v < e0.term_of.len() implies #[trigger] e2.term_of[v]
        == e0.term_of[v] by {
        assert(e1.term_of[v] == e0.term_of[v]);
    }
    assert forall|k: int| 0 <= k < e0.clauses.len() implies #[trigger] e2.clauses[k]
        == e0.clauses[k] by {
        assert(e1.clauses[k] == e0.clauses[k]);
    }
    assert forall|t: int| 0 <= t < s0.len() implies #[trigger] s2[t] == s0[t] by {
        assert(s1[t] == s0[t]);
    }
    assert(e2.requests.take(e0.requests.len() as int) =~= e2.requests.take(
        e1.requests.len() as int,
    ).take(e0.requests.len() as int));
    let n = e0.trail.len();
    let m = e1.trail.len();
    lemma_rewind_split(e2.j, e2.trail, m, n);
    assert(e2.trail.take(n as int) =~= e2.trail.take(m as int).take(n as int));
}

/// The linear forms that are left when the journal is `n` entries long: those of
/// constraints that were added since are gone.
pub open spec fn parsed_rewound(
    parsed: Map<Var, ParsedView>,
    trail: Seq<TrailOp>,
    n: nat,
) -> Map<Var, ParsedView>
    decreases trail.len(),
{
    if trail.len() <= n {
        parsed
    } else {
        parsed_rewound(
            match trail.last() {
                TrailOp::ConstraintAdded { var } => parsed.remove(var),
                _ => parsed,
            },
            trail.drop_last(),
            n,
        )
    }
}

impl GoalState {
    /// Takes back one change.
    fn undo_op(&mut self, op: TrailOp)
        ensures
            final(self)@ == (GoalView {
                j: undo(old(self)@.j, op),
                parsed: match op {
                    TrailOp::ConstraintAdded { var } => old(self)@.parsed.remove(var),
                    _ => old(self)@.parsed,
                },
                ..old(self)@
            }),
    {
        let ghost before = self@;
        match op {
            TrailOp::AssertionAdded { index } => {
                if index < self.assertions.len() {
                    self.assertions.truncate(index);
                    assert(self.assertions@ =~= before.j.assertions.take(index as int));
                }
            },
            TrailOp::VarCreated { var: _, term } => {
                map_remove(&mut self.term_to_var, term);
            },
            TrailOp::ConstraintAdded { var } => {
                map_remove(&mut self.var_to_constraint, var);
                map_remove(&mut self.var_to_parsed_arith, var);
                assert(self@.parsed =~= before.parsed.remove(var));
            },
            TrailOp::FalseAssertionSet => {
                self.has_false_assertion = false;
            },
            TrailOp::NamedAssertionAdded { index } => {
                if index < self.named_assertions.len() {
                    self.named_assertions.truncate(index);
                    assert(self.named_assertions@ =~= before.j.named.take(index as int));
                }
            },
            TrailOp::BvTermAdded { term } => {
                set_remove(&mut self.bv_terms, term);
            },
            TrailOp::ArithTermAdded { term } => {
                set_remove(&mut self.arith_terms, term);
            },
            TrailOp::DtVarConstructorAdded { term } => {
                map_remove(&mut self.dt_var_constructors, term);
            },
            TrailOp::TrackedCompoundAdded { term } => {
                set_remove(&mut self.tracked_compound_terms, term);
            },
            TrailOp::ArrayAxiomInstanceAdded { term } => {
                set_remove(&mut self.array_axiom_instances, term);
            },
            TrailOp::ArithDefinedTermAdded { term } => {
                set_remove(&mut self.arith_defined_terms, term);
            },
            TrailOp::ArithConstAxiomAdded { .. } => {
                let popped = self.arith_const_axiom_pairs.pop();
                assert(before.j.const_axioms.len() > 0 ==> self.arith_const_axiom_pairs@
                    =~= before.j.const_axioms.drop_last());
            },
            TrailOp::CareSplitAdded { .. } => {
                let popped = self.care_split_pairs.pop();
                assert(before.j.care_pairs.len() > 0 ==> self.care_split_pairs@
                    =~= before.j.care_pairs.drop_last());
            },
            TrailOp::EncodedTermAdded { term, previous } => {
                match previous {
                    Some(entry) => {
                        map_insert(&mut self.encoded_terms, term, entry);
                    },
                    None => {
                        map_remove(&mut self.encoded_terms, term);
                    },
                }
            },
            TrailOp::DtAxiomInstanceAdded { term } => {
                set_remove(&mut self.dt_axiom_instances, term);
            },
        }
        proof {
            assert(self@.clauses =~= before.clauses);
            assert(self@.cache =~= before.cache);
            assert(op is ConstraintAdded || self@.parsed =~= before.parsed);
            assert(self@.j == undo(before.j, op));
        }
    }

    /// Takes back the changes since the journal was `position` entries long.
    fn undo_to(&mut self, position: usize)
        requires
            position <= old(self)@.trail.len(),
            forall|v: Var| #[trigger]
                old(self)@.parsed.contains_key(v) ==> old(self)@.j.constraint.contains_key(v),
        ensures
            final(self)@ == (GoalView {
                j: rewind(old(self)@.j, old(self)@.trail, position as nat),
                trail: old(self)@.trail.take(position as int),
                parsed: parsed_rewound(old(self)@.parsed, old(self)@.trail, position as nat),
                ..old(self)@
            }),
            forall|v: Var| #[trigger]
                final(self)@.parsed.contains_key(v) ==> final(self)@.j.constraint.contains_key(v)
                    && old(self)@.parsed.contains_key(v) && final(self)@.parsed[v]
                    == old(self)@.parsed[v],
    {
        let ghost e0 = self@;
        let ghost n = position as nat;
        assert(e0.trail.take(e0.trail.len() as int) =~= e0.trail);
        while self.trail.len() > position
            invariant
                position <= self@.trail.len() <= e0.trail.len(),
                n == position as nat,
                self.trail@ == e0.trail.take(self.trail@.len() as int),
                self@ == (GoalView {
                    j: self@.j,
                    trail: self@.trail,
                    parsed: self@.parsed,
                    ..e0
                }),
                rewind(self@.j, self@.trail, n) == rewind(e0.j, e0.trail, n),
                parsed_rewound(self@.parsed, self@.trail, n) == parsed_rewound(
                    e0.parsed,
                    e0.trail,
                    n,
                ),
                forall|v: Var| #[trigger]
                    self@.parsed.contains_key(v) ==> self@.j.constraint.contains_key(v)
                        && e0.parsed.contains_key(v) && self@.parsed[v] == e0.parsed[v],
            decreases self.trail.len(),
        {
            let ghost before = self@;
            if let Some(op) = self.trail.pop() {
                let ghost mid = self@;
                proof {
                    assert(mid.trail =~= before.trail.drop_last());
                    assert(op == before.trail.last());
                    assert(mid.clauses =~= before.clauses);
                    assert(mid.parsed =~= before.parsed);
                    assert(mid.cache =~= before.cache);
                    assert(mid == (GoalView { trail: before.trail.drop_last(), ..before }));
                }
                self.undo_op(op);
                proof {
                    assert(self.trail@ =~= e0.trail.take(self.trail@.len() as int));
                }
            }
        }
    }

    /// Closes a scope: everything is as when it was opened.
    pub(crate) fn restore(&mut self, Ghost(s0): Ghost<Seq<TermView>>, Ghost(s1): Ghost<Seq<TermView>>, Ghost(e0): Ghost<GoalView>, ctx: &ContextState)
        requires
            grown_from(s0, e0, s1, old(self)@),
            describes_scope(e0, *ctx),
        ensures
            final(self)@.j == e0.j,
            final(self)@.trail == e0.trail,
            final(self)@.clauses == e0.clauses,
            final(self)@.term_of == e0.term_of,
            final(self)@.exceeded == e0.exceeded,
            final(self)@.quantified == e0.quantified,
            final(self)@.bv_arith == e0.bv_arith,
            final(self)@.arrays == e0.arrays,
            final(self)@.aware == old(self)@.aware,
            final(self)@.pols == old(self)@.pols,
            final(self)@.requests == old(self)@.requests,
            forall|v: Var| #[trigger]
                e0.parsed.contains_key(v) ==> final(self)@.parsed.contains_key(v),
            goal_inv(s1, final(self)@),
    {
        let ghost e1 = self@;
        self.undo_to(ctx.trail_position);
        let ghost e2 = self@;
        self.clauses.truncate(ctx.num_clauses);
        self.var_to_term.truncate(ctx.num_vars);
        self.has_quantifiers = ctx.has_quantifiers;
        self.has_bv_arith_ops = ctx.has_bv_arith_ops;
        self.has_array_ops = ctx.has_array_ops;
        self.encode_depth_exceeded = ctx.encode_depth_exceeded;
        proof {
            let e3 = self@;
            assert(e3.clauses =~= e1.clauses.take(ctx.num_clauses as int));
            assert(e3.clauses =~= e0.clauses) by {
                assert forall|k: int| 0 <= k < e0.clauses.len() implies e3.clauses[k]
                    == e0.clauses[k] by {
                    assert(e1.clauses[k] == e0.clauses[k]);
                }
            }
            assert(e3.term_of =~= e0.term_of) by {
                assert forall|v: int| 0 <= v < e0.term_of.len() implies e3.term_of[v]
                    == e0.term_of[v] by {
                    assert(e1.term_of[v] == e0.term_of[v]);
                }
            }
            assert(e3.parsed =~= e2.parsed);
            assert(e3.cache =~= e1.cache);
            assert forall|v: Var| #[trigger] e0.parsed.contains_key(v) implies
                e3.parsed.contains_key(v) by {
                lemma_forms_kept(e1.j, e1.parsed, e1.trail, e0.trail.len(), v);
            }
            lemma_restored(s0, e0, s1, e1, e3);
        }
    }
}

/// A constraint that was there before keeps its linear form.
proof fn lemma_forms_kept(
    j: Journaled,
    parsed: Map<Var, ParsedView>,
    trail: Seq<TrailOp>,
    n: nat,
    v: Var,
)
    requires
        parsed.contains_key(v),
        rewind(j, trail, n).constraint.contains_key(v),
    ensures
        parsed_rewound(parsed, trail, n).contains_key(v),
    decreases trail.len(),
{
    if trail.len() > n {
        let j1 = undo(j, trail.last());
        lemma_rewound_constraints(j1, trail.drop_last(), n, v);
        let left = match trail.last() {
            TrailOp::ConstraintAdded { var } => parsed.remove(var),
            _ => parsed,
        };
        lemma_forms_kept(j1, left, trail.drop_last(), n, v);
    }
}

/// Taking changes back adds no constraint.
proof fn lemma_rewound_constraints(j: Journaled, trail: Seq<TrailOp>, n: nat, v: Var)
    ensures
        rewind(j, trail, n).constraint.contains_key(v) ==> j.constraint.contains_key(v),
    decreases trail.len(),
{
    if trail.len() > n {
        lemma_rewound_constraints(undo(j, trail.last()), trail.drop_last(), n, v);
    }
}

/// The record is what a scope that was opened in state `e` found.
pub open spec fn describes_scope(e: GoalView, ctx: ContextState) -> bool {
    &&& ctx.num_assertions == e.j.assertions.len()
    &&& ctx.num_vars == e.term_of.len()
    &&& ctx.num_clauses == e.clauses.len()
    &&& ctx.trail_position == e.trail.len()
    &&& ctx.has_false_assertion == e.j.has_false
    &&& ctx.has_quantifiers == e.quantified
    &&& ctx.has_bv_arith_ops == e.bv_arith
    &&& ctx.has_array_ops == e.arrays
    &&& ctx.encode_depth_exceeded == e.exceeded
}

/// The restored state is consistent with the longer store.
proof fn lemma_restored(
    s0: Seq<TermView>,
    e0: GoalView,
    s1: Seq<TermView>,
    e1: GoalView,
    e: GoalView,
)
    requires
        grown_from(s0, e0, s1, e1),
        e.j == e0.j,
        e.clauses == e0.clauses,
        e.term_of == e0.term_of,
        e.quantified == e0.quantified,
        e.arrays == e0.arrays,
        e.bv_arith == e0.bv_arith,
        e.exceeded == e0.exceeded,
        e.requests == e1.requests,
        e.cache == e1.cache,
        forall|v: Var| #[trigger]
            e.parsed.contains_key(v) ==> e.j.constraint.contains_key(v) && e1.parsed.contains_key(v)
                && e.parsed[v] == e1.parsed[v],
        forall|v: Var| #[trigger] e0.parsed.contains_key(v) ==> e.parsed.contains_key(v),
    ensures
        goal_inv(s1, e),
{
    assert forall|t: TermId| #[trigger] e.j.memo.contains_key(t) implies t < s1.len() && means(
        s1,
        e.term_of,
        e.j.memo[t].0,
        t,
    ) && crate::state::flags_cover(e, s1[t as int].op) && attached(s1, e, t)
        && crate::state::atom_literal(s1, e, t, e.j.memo[t].0) && (e.exceeded
        || crate::state::parts_encoded(s1, e.j.memo, t)) by {
        assert(e0.j.memo.contains_key(t));
        if !e.exceeded {
            crate::state::lemma_parts_grow(s0, e0, s1, e, t);
        }
        lemma_attached_extend(s0, s1, e, t);
        assert(attached(s0, e0, t));
        assert(e0.j.memo.contains_key(t));
        lemma_means_extend(s0, e0.term_of, s1, e0.term_of, e0.j.memo[t].0, t);
        assert(s1[t as int] == s0[t as int]);
    }
    assert forall|v: Var| #[trigger] e.j.constraint.contains_key(v) implies v < e.term_of.len()
        && constraint_ok(s1[e.term_of[v as int] as int], e.term_of[v as int], e.j.constraint[v])
        && operands_requested(e.requests, e.j.constraint[v]) by {
        assert(e0.j.constraint.contains_key(v));
        let t = e0.term_of[v as int];
        assert(t < s0.len());
        assert(s1[t as int] == s0[t as int]);
        crate::state::lemma_requests_kept(e0.requests, e1.requests, e0.j.constraint[v]);
    }
    assert forall|v: Var| #[trigger] e.parsed.contains_key(v) implies e.j.constraint.contains_key(v)
        && parsed_ok(s1, e.term_of[v as int], e.parsed[v]) by {
        assert(e1.parsed.contains_key(v));
        assert(e0.j.constraint.contains_key(v));
        assert(e1.term_of[v as int] == e0.term_of[v as int]);
    }
    assert forall|v: int| 0 <= v < e.term_of.len() implies (#[trigger] e.term_of[v]) < s1.len() by {
        assert(e0.term_of[v] < s0.len());
    }
}

} // verus!
