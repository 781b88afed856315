//! Linking comparisons to the literals of finite domains.
//!
//! Where a term has a domain, the comparison of the term with a constant is
//! true exactly where one of the values that satisfy it is the term's.

use crate::collections::{copy_words, map_get, map_sorted_keys, set_contains, set_sorted_items};
use crate::constructors::grew;
use crate::domains::{
    added_true, domain_clauses_true, domain_pairs, domains_grown, domains_hold, domains_inv,
    in_domain, lemma_added_trans, lemma_contains_grow, lemma_domain_clauses_trans,
    lemma_domains_trans, lemma_value_pair, one_of, pair_lits, range_pairs,
};
use crate::ite_table::{int_const_val, int_literal};
use crate::semantics::{eval, eval_args, lemma_eval, num, Interp};
use crate::state::{
    clause_true, constraint_ok, goal_inv, growth, lemma_growth_clause, lemma_growth_refl,
    lemma_growth_trans, lit_true, lits_within, Constraint, GoalState, GoalView, Lit, Var,
};
use crate::tables::TableState;
use crate::terms::{terms_wf, Op, TermId, TermStore, TermView};
use vstd::prelude::*;

verus! {

/// How a term compares with a constant.
#[derive(Clone, Copy, PartialEq, Eq, Debug, Structural)]
pub enum CompKind {
    Lt,
    Le,
    Gt,
    Ge,
}

impl CompKind {
    /// The comparison of a value with a constant.
    pub open spec fn compares(self, k: int, c: int) -> bool {
        match self {
            CompKind::Lt => k < c,
            CompKind::Le => k <= c,
            CompKind::Gt => k > c,
            CompKind::Ge => k >= c,
        }
    }

    /// The same comparison seen from the other side.
    pub open spec fn mirrored(self) -> CompKind {
        match self {
            CompKind::Lt => CompKind::Gt,
            CompKind::Le => CompKind::Ge,
            CompKind::Gt => CompKind::Lt,
            CompKind::Ge => CompKind::Le,
        }
    }

    pub fn mirror(self) -> (r: CompKind)
        ensures
            r == self.mirrored(),
    {
        match self {
            CompKind::Lt => CompKind::Gt,
            CompKind::Le => CompKind::Ge,
            CompKind::Gt => CompKind::Lt,
            CompKind::Ge => CompKind::Le,
        }
    }

    pub fn test(self, k: i64, c: i64) -> (r: bool)
        ensures
            r == self.compares(k as int, c as int),
    {
        match self {
            CompKind::Lt => k < c,
            CompKind::Le => k <= c,
            CompKind::Gt => k > c,
            CompKind::Ge => k >= c,
        }
    }
}

/// The sides and the kind of a comparison.
pub open spec fn comparison_of(c: Constraint) -> Option<(TermId, TermId, CompKind)> {
    match c {
        Constraint::Lt(a, b) => Some((a, b, CompKind::Lt)),
        Constraint::Le(a, b) => Some((a, b, CompKind::Le)),
        Constraint::Gt(a, b) => Some((a, b, CompKind::Gt)),
        Constraint::Ge(a, b) => Some((a, b, CompKind::Ge)),
        _ => None,
    }
}

fn comparison(c: &Constraint) -> (r: Option<(TermId, TermId, CompKind)>)
    ensures
        r == comparison_of(*c),
{
    match c {
        Constraint::Lt(a, b) => Some((*a, *b, CompKind::Lt)),
        Constraint::Le(a, b) => Some((*a, *b, CompKind::Le)),
        Constraint::Gt(a, b) => Some((*a, *b, CompKind::Gt)),
        Constraint::Ge(a, b) => Some((*a, *b, CompKind::Ge)),
        _ => None,
    }
}

/// The term with a domain, the constant and the kind of a comparison that is
/// linked.
pub open spec fn link_of(
    s: Seq<TermView>,
    tables: &TableState,
    c: Constraint,
) -> Option<(TermId, i64, CompKind)> {
    match comparison_of(c) {
        None => None,
        Some((a, b, kind)) => if tables.table_index_domain_eqs@.contains_key(a) {
            match int_literal(s, b) {
                Some(n) => Some((a, n, kind)),
                None => None,
            }
        } else if tables.table_index_domain_eqs@.contains_key(b) {
            match int_literal(s, a) {
                Some(n) => Some((b, n, kind.mirrored())),
                None => None,
            }
        } else {
            None
        },
    }
}

fn has_domain(tables: &TableState, t: TermId) -> (b: bool)
    ensures
        b == tables.table_index_domain_eqs@.contains_key(t),
{
    match map_get(&tables.table_index_domain_eqs, t) {
        Some(_) => true,
        None => false,
    }
}

fn link(store: &TermStore, tables: &TableState, c: &Constraint) -> (r: Option<
    (TermId, i64, CompKind),
>)
    ensures
        r == link_of(store.terms(), tables, *c),
{
    match comparison(c) {
        None => None,
        Some((a, b, kind)) => {
            if has_domain(tables, a) {
                match int_const_val(b, store) {
                    Some(n) => Some((a, n, kind)),
                    None => None,
                }
            } else if has_domain(tables, b) {
                match int_const_val(a, store) {
                    Some(n) => Some((b, n, kind.mirror())),
                    None => None,
                }
            } else {
                None
            }
        },
    }
}

/// The literals of the values that satisfy the comparison.
pub open spec fn satisfying(pairs: Seq<(i64, Lit)>, kind: CompKind, c: i64) -> Seq<Lit>
    decreases pairs.len(),
{
    if pairs.len() == 0 {
        Seq::empty()
    } else if kind.compares(pairs.last().0 as int, c as int) {
        satisfying(pairs.drop_last(), kind, c).push(pairs.last().1)
    } else {
        satisfying(pairs.drop_last(), kind, c)
    }
}

/// The comparison is false, or one of the values that satisfy it is the term's.
pub open spec fn some_value(atom: Lit, pairs: Seq<(i64, Lit)>, kind: CompKind, c: i64) -> Seq<Lit> {
    seq![atom.negated()] + satisfying(pairs, kind, c)
}

/// A value decides the comparison.
pub open spec fn value_decides(atom: Lit, pair: (i64, Lit), kind: CompKind, c: i64) -> Seq<Lit> {
    seq![
        pair.1.negated(),
        if kind.compares(pair.0 as int, c as int) {
            atom
        } else {
            atom.negated()
        },
    ]
}

/// The clauses that link a comparison are there.
pub open spec fn comparison_linked(
    clauses: Seq<Seq<Lit>>,
    atom: Lit,
    pairs: Seq<(i64, Lit)>,
    kind: CompKind,
    c: i64,
) -> bool {
    &&& clauses.contains(some_value(atom, pairs, kind, c))
    &&& forall|j: int|
        0 <= j < pairs.len() ==> clauses.contains(
            value_decides(atom, #[trigger] pairs[j], kind, c),
        )
}

/// The comparison is true exactly where the term compares so with the constant.
pub open spec fn comparison_means(
    s: Seq<TermView>,
    e: GoalView,
    i: Interp,
    v: Var,
    t: TermId,
    kind: CompKind,
    c: i64,
) -> bool {
    lit_true(s, i, e.term_of, Lit { var: v, positive: true }) == real_compares(
        kind,
        num(eval(s, i, t as int)),
        c,
    )
}

pub open spec fn real_compares(kind: CompKind, x: real, c: i64) -> bool {
    match kind {
        CompKind::Lt => x < c as real,
        CompKind::Le => x <= c as real,
        CompKind::Gt => x > c as real,
        CompKind::Ge => x >= c as real,
    }
}

/// No comparison is a signed one of bit vectors.
pub open spec fn unsigned_only(s: Seq<TermView>, e: GoalView) -> bool {
    forall|v: Var| #[trigger]
        e.j.constraint.contains_key(v) ==> s[e.term_of[v as int] as int].op != Op::BvSlt
            && s[e.term_of[v as int] as int].op != Op::BvSle
}

proof fn lemma_comparison_means(
    s: Seq<TermView>,
    e: GoalView,
    tables: &TableState,
    i: Interp,
    v: Var,
    t: TermId,
    c: i64,
    kind: CompKind,
)
    requires
        goal_inv(s, e),
        unsigned_only(s, e),
        e.j.constraint.contains_key(v),
        link_of(s, tables, e.j.constraint[v]) == Some((t, c, kind)),
    ensures
        comparison_means(s, e, i, v, t, kind, c),
{
    let x = e.term_of[v as int];
    assert(constraint_ok(s[x as int], x, e.j.constraint[v]));
    let (a, b, k) = comparison_of(e.j.constraint[v])->0;
    assert(s[x as int].args == seq![a, b]);
    assert(s[x as int].args[0] == a && s[x as int].args[1] == b);
    lemma_eval(s, i, x);
    let vals = eval_args(s, i, s[x as int].args);
    assert(vals[0] == eval(s, i, a as int) && vals[1] == eval(s, i, b as int));
    if tables.table_index_domain_eqs@.contains_key(a) {
        lemma_eval(s, i, b);
        assert(num(vals[1]) == c as int as real);
    } else {
        lemma_eval(s, i, a);
        assert(num(vals[0]) == c as int as real);
    }
}

proof fn lemma_satisfying(
    s: Seq<TermView>,
    term_of: Seq<TermId>,
    pairs: Seq<(i64, Lit)>,
    kind: CompKind,
    c: i64,
    j: int,
)
    requires
        0 <= j < pairs.len(),
        kind.compares(pairs[j].0 as int, c as int),
    ensures
        satisfying(pairs, kind, c).contains(pairs[j].1),
    decreases pairs.len(),
{
    let rest = satisfying(pairs.drop_last(), kind, c);
    if j < pairs.len() - 1 {
        assert(pairs.drop_last()[j] == pairs[j]);
        lemma_satisfying(s, term_of, pairs.drop_last(), kind, c, j);
        let k = choose|k: int| 0 <= k < rest.len() && rest[k] == pairs[j].1;
        assert(satisfying(pairs, kind, c)[k] == pairs[j].1);
    } else {
        assert(satisfying(pairs, kind, c)[rest.len() as int] == pairs[j].1);
    }
}

proof fn lemma_satisfying_within(pairs: Seq<(i64, Lit)>, kind: CompKind, c: i64, n: int)
    requires
        lits_within(pair_lits(pairs), n),
    ensures
        lits_within(satisfying(pairs, kind, c), n),
    decreases pairs.len(),
{
    if pairs.len() > 0 {
        let rest = pairs.drop_last();
        assert forall|k: int| 0 <= k < rest.len() implies (#[trigger] pair_lits(rest)[k]).var < n by {
            assert(pair_lits(pairs)[k] == pair_lits(rest)[k]);
        }
        lemma_satisfying_within(rest, kind, c, n);
        assert(pair_lits(pairs)[pairs.len() - 1] == pairs.last().1);
    }
}

/// The clauses that link a comparison are true where the term has a value of
/// its domain.
pub proof fn links_are_entailed(
    s: Seq<TermView>,
    e: GoalView,
    i: Interp,
    v: Var,
    t: TermId,
    pairs: Seq<(i64, Lit)>,
    kind: CompKind,
    c: i64,
)
    requires
        terms_wf(s),
        domain_pairs(s, e, t, pairs),
        in_domain(s, i, t, pairs),
        comparison_means(s, e, i, v, t, kind, c),
    ensures
        clause_true(
            s,
            i,
            e.term_of,
            some_value(Lit { var: v, positive: true }, pairs, kind, c),
        ),
        forall|j: int|
            0 <= j < pairs.len() ==> clause_true(
                s,
                i,
                e.term_of,
                value_decides(Lit { var: v, positive: true }, #[trigger] pairs[j], kind, c),
            ),
{
    let atom = Lit { var: v, positive: true };
    let first = some_value(atom, pairs, kind, c);
    let m = choose|m: int|
        0 <= m < pairs.len() && num(eval(s, i, t as int)) == (#[trigger] pairs[m]).0 as real;
    lemma_value_pair(s, e, i, t, pairs, m);
    assert(first[0] == atom.negated());
    if lit_true(s, i, e.term_of, atom) {
        assert(kind.compares(pairs[m].0 as int, c as int));
        lemma_satisfying(s, e.term_of, pairs, kind, c, m);
        let lits = satisfying(pairs, kind, c);
        let k = choose|k: int| 0 <= k < lits.len() && lits[k] == pairs[m].1;
        assert(first[k + 1] == pairs[m].1);
    } else {
        assert(lit_true(s, i, e.term_of, first[0]));
    }
    assert forall|j: int| 0 <= j < pairs.len() implies clause_true(
        s,
        i,
        e.term_of,
        value_decides(atom, #[trigger] pairs[j], kind, c),
    ) by {
        lemma_value_pair(s, e, i, t, pairs, j);
        let cl = value_decides(atom, pairs[j], kind, c);
        assert(cl[0] == pairs[j].1.negated());
        assert(lit_true(s, i, e.term_of, cl[0]) || lit_true(s, i, e.term_of, cl[1]));
    }
}

/// The clauses added are true where the domains hold.
pub open spec fn link_clauses_true(
    s: Seq<TermView>,
    e: GoalView,
    from: int,
    tables: &TableState,
) -> bool {
    forall|i: Interp|
        unsigned_only(s, e) && domains_hold(s, i, tables)
            ==> #[trigger] added_true(s, e, from, i)
}

impl GoalState {
    /// Adds the clauses that link one comparison.
    fn link_comparison(
        &mut self,
        Ghost(s): Ghost<Seq<TermView>>,
        Ghost(t): Ghost<TermId>,
        atom: Lit,
        pairs: &Vec<(i64, Lit)>,
        kind: CompKind,
        c: i64,
    )
        requires
            goal_inv(s, old(self)@),
            atom.var < old(self)@.term_of.len(),
            atom.positive,
            domain_pairs(s, old(self)@, t, pairs@),
        ensures
            growth(s, old(self)@, s, final(self)@),
            final(self)@ == (GoalView { clauses: final(self)@.clauses, ..old(self)@ }),
            comparison_linked(final(self)@.clauses, atom, pairs@, kind, c),
            forall|i: Interp|
                in_domain(s, i, t, pairs@) && comparison_means(
                    s,
                    old(self)@,
                    i,
                    atom.var,
                    t,
                    kind,
                    c,
                ) ==> #[trigger] added_true(
                    s,
                    final(self)@,
                    old(self)@.clauses.len() as int,
                    i,
                ),
    {
        let ghost e0 = self@;
        let mut some: Vec<Lit> = Vec::new();
        some.push(atom.negate());
        let mut n: usize = 0;
        assert(pairs@.take(0).len() == 0);
        assert(some@ =~= some_value(atom, pairs@.take(0), kind, c));
        while n < pairs.len()
            invariant
                n <= pairs.len(),
                some@ == some_value(atom, pairs@.take(n as int), kind, c),
            decreases pairs.len() - n,
        {
            proof {
                let more = pairs@.take(n + 1);
                assert(more.drop_last() =~= pairs@.take(n as int));
                assert(more.last() == pairs@[n as int]);
            }
            if kind.test(pairs[n].0, c) {
                some.push(pairs[n].1);
            }
            assert(some@ =~= some_value(atom, pairs@.take(n + 1), kind, c));
            n = n + 1;
        }
        assert(pairs@.take(pairs@.len() as int) =~= pairs@);
        let ghost first = some@;
        proof {
            assert forall|j: int| 0 <= j < pairs@.len() implies (#[trigger] pair_lits(
                pairs@,
            )[j]).var < e0.term_of.len() by {
                assert(crate::int_case_split::value_literal(
                    s,
                    e0,
                    t,
                    pairs@[j].0,
                    pairs@[j].1,
                ));
            }
            lemma_satisfying_within(pairs@, kind, c, e0.term_of.len() as int);
            assert(lits_within(first, e0.term_of.len() as int));
        }
        self.add_clause(some);
        proof {
            lemma_growth_clause(s, e0, self@, first);
            assert(self@.clauses[e0.clauses.len() as int] == first);
        }
        let mut k: usize = 0;
        while k < pairs.len()
            invariant
                k <= pairs.len(),
                goal_inv(s, e0),
                atom.var < e0.term_of.len(),
                growth(s, e0, s, self@),
                self@ == (GoalView { clauses: self@.clauses, ..e0 }),
                lits_within(pair_lits(pairs@), e0.term_of.len() as int),
                self@.clauses.len() == e0.clauses.len() + 1 + k,
                first == some_value(atom, pairs@, kind, c),
                self@.clauses[e0.clauses.len() as int] == first,
                forall|j: int|
                    0 <= j < k ==> self@.clauses[e0.clauses.len() + 1 + j] == value_decides(
                        atom,
                        #[trigger] pairs@[j],
                        kind,
                        c,
                    ),
            decreases pairs.len() - k,
        {
            let ghost e1 = self@;
            let (value, lit) = pairs[k];
            assert(pair_lits(pairs@)[k as int] == lit);
            let mut clause: Vec<Lit> = Vec::new();
            clause.push(lit.negate());
            clause.push(if kind.test(value, c) {
                atom
            } else {
                atom.negate()
            });
            assert(clause@ =~= value_decides(atom, pairs@[k as int], kind, c));
            let ghost cl = clause@;
            self.add_clause(clause);
            proof {
                lemma_growth_clause(s, e1, self@, cl);
                lemma_growth_trans(s, e0, s, e1, s, self@);
            }
            k = k + 1;
        }
        proof {
            let e2 = self@;
            assert(e2.clauses.contains(first));
            assert forall|j: int| 0 <= j < pairs@.len() implies e2.clauses.contains(
                value_decides(atom, #[trigger] pairs@[j], kind, c),
            ) by {
                assert(e2.clauses[e0.clauses.len() + 1 + j] == value_decides(
                    atom,
                    pairs@[j],
                    kind,
                    c,
                ));
            }
            assert forall|i: Interp|
                in_domain(s, i, t, pairs@) && comparison_means(
                    s,
                    e0,
                    i,
                    atom.var,
                    t,
                    kind,
                    c,
                ) implies #[trigger] added_true(s, e2, e0.clauses.len() as int, i) by {
                links_are_entailed(s, e0, i, atom.var, t, pairs@, kind, c);
                assert(atom == (Lit { var: atom.var, positive: true }));
                assert forall|x: int| e0.clauses.len() <= x < e2.clauses.len() implies clause_true(
                    s,
                    i,
                    e2.term_of,
                    #[trigger] e2.clauses[x],
                ) by {
                    if x > e0.clauses.len() {
                        let j = x - e0.clauses.len() - 1;
                        assert(e2.clauses[e0.clauses.len() + 1 + j] == value_decides(
                            atom,
                            pairs@[j],
                            kind,
                            c,
                        ));
                    }
                }
            }
        }
    }

    /// Links the comparisons of terms that have a domain with constants.
    pub fn link_table_index_comparisons(&mut self, tables: &TableState, store: &TermStore)
        requires
            goal_inv(store.terms(), old(self)@),
            domains_inv(store.terms(), old(self)@, tables),
        ensures
            growth(store.terms(), old(self)@, store.terms(), final(self)@),
            final(self)@ == (GoalView { clauses: final(self)@.clauses, ..old(self)@ }),
            link_clauses_true(
                store.terms(),
                final(self)@,
                old(self)@.clauses.len() as int,
                tables,
            ),
            forall|v: Var| #[trigger]
                old(self)@.j.constraint.contains_key(v) ==> match link_of(
                    store.terms(),
                    tables,
                    old(self)@.j.constraint[v],
                ) {
                    Some((t, c, kind)) => comparison_linked(
                        final(self)@.clauses,
                        Lit { var: v, positive: true },
                        tables.table_index_domain_eqs@[t]@,
                        kind,
                        c,
                    ),
                    None => true,
                },
    {
        let ghost s = store.terms();
        let ghost e0 = self@;
        let vars = map_sorted_keys(&self.var_to_constraint);
        let mut n: usize = 0;
        proof {
            lemma_growth_refl(s, e0);
            assert forall|i: Interp| #[trigger] added_true(s, e0, e0.clauses.len() as int, i) by {}
        }
        while n < vars.len()
            invariant
                n <= vars.len(),
                s == store.terms(),
                goal_inv(s, e0),
                domains_inv(s, e0, tables),
                vars@.to_set() == e0.j.constraint.dom(),
                growth(s, e0, s, self@),
                self@ == (GoalView { clauses: self@.clauses, ..e0 }),
                link_clauses_true(s, self@, e0.clauses.len() as int, tables),
                forall|j: int|
                    0 <= j < n ==> match link_of(
                        s,
                        tables,
                        e0.j.constraint[#[trigger] vars@[j]],
                    ) {
                        Some((t, c, kind)) => comparison_linked(
                            self@.clauses,
                            Lit { var: vars@[j], positive: true },
                            tables.table_index_domain_eqs@[t]@,
                            kind,
                            c,
                        ),
                        None => true,
                    },
            decreases vars.len() - n,
        {
            let ghost e1 = self@;
            let v: Var = vars[n];
            proof {
                assert(vars@.contains(v));
                assert(vars@.to_set().contains(v));
                assert(e0.j.constraint.contains_key(v));
            }
            let found = match map_get(&self.var_to_constraint, v) {
                Some(c) => link(store, tables, c),
                None => None,
            };
            if let Some((t, c, kind)) = found {
                let pairs: Vec<(i64, Lit)> = match map_get(&tables.table_index_domain_eqs, t) {
                    Some(p) => copy_words(p),
                    None => Vec::new(),
                };
                proof {
                    assert(tables.table_index_domain_eqs@.contains_key(t));
                    assert(pairs@ == tables.table_index_domain_eqs@[t]@);
                    assert(domain_pairs(s, e0, t, pairs@));
                }
                self.link_comparison(Ghost(s), Ghost(t), Lit::pos(v), &pairs, kind, c);
                proof {
                    let e2 = self@;
                    lemma_growth_trans(s, e0, s, e1, s, e2);
                    assert forall|i: Interp|
                        unsigned_only(s, e2) && domains_hold(
                            s,
                            i,
                            tables,
                        ) implies #[trigger] added_true(s, e2, e0.clauses.len() as int, i) by {
                        assert(unsigned_only(s, e1));
                        assert(added_true(s, e1, e0.clauses.len() as int, i));
                        assert(in_domain(s, i, t, pairs@));
                        lemma_comparison_means(s, e1, tables, i, v, t, c, kind);
                        assert(added_true(s, e2, e1.clauses.len() as int, i));
                        lemma_added_trans(s, e1, s, e2, e0.clauses.len() as int, i);
                    }
                    assert forall|j: int| 0 <= j < n + 1 implies match link_of(
                        s,
                        tables,
                        e0.j.constraint[#[trigger] vars@[j]],
                    ) {
                        Some((t, c, kind)) => comparison_linked(
                            e2.clauses,
                            Lit { var: vars@[j], positive: true },
                            tables.table_index_domain_eqs@[t]@,
                            kind,
                            c,
                        ),
                        None => true,
                    } by {
                        if j < n {
                            lemma_linked_more(s, tables, e0, e1, e2, vars@[j]);
                        }
                    }
                }
            }
            n = n + 1;
        }
        proof {
            assert forall|v: Var| #[trigger] e0.j.constraint.contains_key(v) implies match link_of(
                s,
                tables,
                e0.j.constraint[v],
            ) {
                Some((t, c, kind)) => comparison_linked(
                    self@.clauses,
                    Lit { var: v, positive: true },
                    tables.table_index_domain_eqs@[t]@,
                    kind,
                    c,
                ),
                None => true,
            } by {
                assert(vars@.to_set().contains(v));
                let j = choose|j: int| 0 <= j < vars@.len() && vars@[j] == v;
                assert(vars@[j] == v);
            }
        }
    }

    /// Splits the results of 0/1 tables over their two values.
    pub fn eager_binary_result_case_split(&mut self, tables: &mut TableState, store: &mut TermStore)
        requires
            goal_inv(old(store).terms(), old(self)@),
            old(tables).wf(old(store).terms()),
            domains_inv(old(store).terms(), old(self)@, old(tables)),
        ensures
            grew(old(store), final(store)),
            growth(old(store).terms(), old(self)@, final(store).terms(), final(self)@),
            final(tables).wf(final(store).terms()),
            domains_inv(final(store).terms(), final(self)@, final(tables)),
            domains_grown(old(tables), final(tables)),
            domain_clauses_true(
                final(store).terms(),
                final(self)@,
                old(self)@.clauses.len() as int,
                final(tables),
            ),
            forall|t: TermId| #[trigger]
                old(tables).binary_table_results@.contains(t) ==> final(tables).case_split_terms@.contains(t),
            forall|t: TermId| #[trigger]
                final(tables).table_index_domain_eqs@.contains_key(t)
                    && !old(tables).table_index_domain_eqs@.contains_key(t) ==> old(tables).binary_table_results@.contains(t) && range_pairs(
                    final(tables).table_index_domain_eqs@[t]@,
                    0,
                    1,
                ) && one_of(
                    final(self)@.clauses,
                    pair_lits(final(tables).table_index_domain_eqs@[t]@),
                ),
    {
        let ghost s0 = store.terms();
        let ghost e0 = self@;
        let ghost t0 = *tables;
        let results = set_sorted_items(&tables.binary_table_results);
        let mut n: usize = 0;
        proof {
            lemma_growth_refl(s0, e0);
        }
        while n < results.len()
            invariant
                n <= results.len(),
                s0 == old(store).terms(),
                e0 == old(self)@,
                t0 == *old(tables),
                t0.wf(s0),
                goal_inv(s0, e0),
                results@.to_set() == t0.binary_table_results@,
                grew(old(store), store),
                growth(s0, e0, store.terms(), self@),
                tables.wf(store.terms()),
                domains_inv(store.terms(), self@, tables),
                domains_grown(&t0, tables),
                domain_clauses_true(store.terms(), self@, e0.clauses.len() as int, tables),
                forall|j: int|
                    0 <= j < n ==> tables.case_split_terms@.contains(#[trigger] results@[j]),
                forall|t: TermId| #[trigger]
                    tables.table_index_domain_eqs@.contains_key(t)
                        && !t0.table_index_domain_eqs@.contains_key(t)
                        ==> t0.binary_table_results@.contains(t) && range_pairs(
                        tables.table_index_domain_eqs@[t]@,
                        0,
                        1,
                    ) && one_of(self@.clauses, pair_lits(tables.table_index_domain_eqs@[t]@)),
            decreases results.len() - n,
        {
            let ghost s1 = store.terms();
            let ghost e1 = self@;
            let ghost t1 = *tables;
            let r: TermId = results[n];
            proof {
                assert(results@.contains(r));
                assert(results@.to_set().contains(r));
                assert(r < s0.len());
            }
            if !set_contains(&tables.case_split_terms, r) {
                self.split_recorded(tables, store, r, 0, 1);
                proof {
                    let s2 = store.terms();
                    let e2 = self@;
                    let t2 = *tables;
                    lemma_growth_trans(s0, e0, s1, e1, s2, e2);
                    lemma_domains_trans(&t0, &t1, &t2);
                    lemma_domain_clauses_trans(
                        s1,
                        e1,
                        &t1,
                        s2,
                        e2,
                        &t2,
                        e0.clauses.len() as int,
                    );
                    assert(t2.table_index_domain_eqs@.dom().contains(r));
                    assert(t2.table_index_domain_eqs@.contains_key(r));
                    assert forall|j: int| 0 <= j < n implies t2.case_split_terms@.contains(
                        #[trigger] results@[j],
                    ) by {
                        assert(t1.case_split_terms@.contains(results@[j]));
                    }
                    assert forall|t: TermId| #[trigger]
                        t2.table_index_domain_eqs@.contains_key(t)
                            && !t0.table_index_domain_eqs@.contains_key(
                            t,
                        ) implies t0.binary_table_results@.contains(t) && range_pairs(
                        t2.table_index_domain_eqs@[t]@,
                        0,
                        1,
                    ) && one_of(e2.clauses, pair_lits(t2.table_index_domain_eqs@[t]@)) by {
                        assert(t2.table_index_domain_eqs@.dom().contains(t));
                        if t != r {
                            assert(t1.table_index_domain_eqs@.contains_key(t));
                            lemma_one_of_more(
                                e1.clauses,
                                e2.clauses,
                                pair_lits(t1.table_index_domain_eqs@[t]@),
                            );
                        }
                    }
                }
            }
            n = n + 1;
        }
        proof {
            assert forall|t: TermId| #[trigger] t0.binary_table_results@.contains(
                t,
            ) implies tables.case_split_terms@.contains(t) by {
                assert(results@.to_set().contains(t));
                let j = choose|j: int| 0 <= j < results@.len() && results@[j] == t;
                assert(tables.case_split_terms@.contains(results@[j]));
            }
        }
    }
}

proof fn lemma_one_of_more(a: Seq<Seq<Lit>>, b: Seq<Seq<Lit>>, lits: Seq<Lit>)
    requires
        a.len() <= b.len(),
        forall|k: int| 0 <= k < a.len() ==> #[trigger] b[k] == a[k],
        one_of(a, lits),
    ensures
        one_of(b, lits),
{
    lemma_contains_grow(a, b, lits);
    assert forall|j: int, k: int| 0 <= j < k < lits.len() implies b.contains(
        crate::domains::exclusion(#[trigger] lits[j], #[trigger] lits[k]),
    ) by {
        lemma_contains_grow(a, b, crate::domains::exclusion(lits[j], lits[k]));
    }
}

proof fn lemma_linked_more(
    s: Seq<TermView>,
    tables: &TableState,
    e0: GoalView,
    e1: GoalView,
    e2: GoalView,
    v: Var,
)
    requires
        e1.clauses.len() <= e2.clauses.len(),
        forall|k: int| 0 <= k < e1.clauses.len() ==> #[trigger] e2.clauses[k] == e1.clauses[k],
        match link_of(s, tables, e0.j.constraint[v]) {
            Some((t, c, kind)) => comparison_linked(
                e1.clauses,
                Lit { var: v, positive: true },
                tables.table_index_domain_eqs@[t]@,
                kind,
                c,
            ),
            None => true,
        },
    ensures
        match link_of(s, tables, e0.j.constraint[v]) {
            Some((t, c, kind)) => comparison_linked(
                e2.clauses,
                Lit { var: v, positive: true },
                tables.table_index_domain_eqs@[t]@,
                kind,
                c,
            ),
            None => true,
        },
{
    if let Some((t, c, kind)) = link_of(s, tables, e0.j.constraint[v]) {
        let atom = Lit { var: v, positive: true };
        let pairs = tables.table_index_domain_eqs@[t]@;
        lemma_contains_grow(e1.clauses, e2.clauses, some_value(atom, pairs, kind, c));
        assert forall|j: int| 0 <= j < pairs.len() implies e2.clauses.contains(
            value_decides(atom, #[trigger] pairs[j], kind, c),
        ) by {
            lemma_contains_grow(
                e1.clauses,
                e2.clauses,
                value_decides(atom, pairs[j], kind, c),
            );
        }
    }
}

} // verus!
