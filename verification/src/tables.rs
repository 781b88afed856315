//! Bookkeeping of lookup tables.
//!
//! Tables are conditionals that compare one index term with constants.  The
//! state keeps, per index, the constants that occur, and the names that
//! equations of the form `(= name body)` give to terms.

use crate::collections::{
    copy_words, map_get, map_insert, map_new, map_sorted_keys, set_insert, set_new,
};
use crate::constructors::grew;
use crate::state::Lit;
use crate::terms::{extends, terms_wf, TermId, TermStore, TermView};
use crate::walk::{
    lemma_map_ok_extend, lemma_subst_extend, lemma_subst_sort, map_ok, subst, substitute,
};
use rustc_hash::{FxHashMap, FxHashSet};
use vstd::prelude::*;

verus! {

pub struct TableState {
    /// Terms that an asserted equation gives a name, by term.
    pub unit_eq_rep: FxHashMap<TermId, TermId>,
    /// Index terms of flattened tables.
    pub table_index_terms: FxHashSet<TermId>,
    /// The constants that an index is compared with, ascending.
    pub table_index_keys: FxHashMap<TermId, Vec<i64>>,
    /// How much the table entries at an index and a constant weigh.
    pub table_index_key_score: FxHashMap<TermId, Vec<(i64, i64)>>,
    /// Terms whose value is 0 or 1.
    pub zero_one_terms: FxHashSet<TermId>,
    /// Results of tables all of whose entries are 0 or 1.
    pub binary_table_results: FxHashSet<TermId>,
    /// Literals of the equations between a term and the values of its domain.
    pub table_index_domain_eqs: FxHashMap<TermId, Vec<(i64, Lit)>>,
    /// Terms whose domain has been split into cases.
    pub case_split_terms: FxHashSet<TermId>,
    /// Variables that stand for conditionals.
    pub ite_result_terms: FxHashSet<TermId>,
}

/// Ascending without repetition.
pub open spec fn ascending_keys(keys: Seq<i64>) -> bool {
    forall|j: int, k: int| 0 <= j < k < keys.len() ==> keys[j] < keys[k]
}

impl TableState {
    /// The terms mentioned are terms of the store, names have the sort of what
    /// they name, and key lists ascend.
    pub open spec fn wf(&self, s: Seq<TermView>) -> bool {
        &&& map_ok(s, self.unit_eq_rep@)
        &&& forall|t: TermId| #[trigger] self.table_index_terms@.contains(t) ==> t < s.len()
        &&& forall|t: TermId| #[trigger]
            self.table_index_keys@.contains_key(t) ==> t < s.len() && ascending_keys(
                self.table_index_keys@[t]@,
            ) && self.table_index_terms@.contains(t)
        &&& forall|t: TermId| #[trigger] self.zero_one_terms@.contains(t) ==> t < s.len()
        &&& forall|t: TermId| #[trigger] self.binary_table_results@.contains(t) ==> t < s.len()
        &&& forall|t: TermId| #[trigger]
            self.table_index_domain_eqs@.contains_key(t) ==> t < s.len()
        &&& forall|t: TermId| #[trigger] self.ite_result_terms@.contains(t) ==> t < s.len()
    }

    /// Nothing is known of tables.
    pub open spec fn blank(&self) -> bool {
        &&& self.unit_eq_rep@.dom() == Set::<TermId>::empty()
        &&& self.table_index_terms@ == Set::<TermId>::empty()
        &&& self.table_index_keys@.dom() == Set::<TermId>::empty()
        &&& self.table_index_key_score@.dom() == Set::<TermId>::empty()
        &&& self.zero_one_terms@ == Set::<TermId>::empty()
        &&& self.binary_table_results@ == Set::<TermId>::empty()
        &&& self.table_index_domain_eqs@.dom() == Set::<TermId>::empty()
        &&& self.case_split_terms@ == Set::<TermId>::empty()
        &&& self.ite_result_terms@ == Set::<TermId>::empty()
    }

    pub fn new() -> (r: TableState)
        ensures
            forall|s: Seq<TermView>| #[trigger] r.wf(s),
            r.blank(),
    {
        TableState {
            unit_eq_rep: map_new(),
            table_index_terms: set_new(),
            table_index_keys: map_new(),
            table_index_key_score: map_new(),
            zero_one_terms: set_new(),
            binary_table_results: set_new(),
            table_index_domain_eqs: map_new(),
            case_split_terms: set_new(),
            ite_result_terms: set_new(),
        }
    }

    pub proof fn lemma_wf_extend(&self, a: Seq<TermView>, b: Seq<TermView>)
        requires
            self.wf(a),
            extends(a, b),
        ensures
            self.wf(b),
    {
        lemma_map_ok_extend(a, b, self.unit_eq_rep@);
    }
}

/// An image of `k` is a key.
pub open spec fn image_bound(
    s: Seq<TermView>,
    m: Map<TermId, TermId>,
    k: TermId,
    keys: Set<TermId>,
) -> bool {
    exists|r: TermId| #[trigger] subst(s, m, k, r) && keys.contains(r)
}

/// What renaming the keys of `old_map` by a substitution gives: old keys stay,
/// the image of each key is a key, and each entry is an old one or that of a
/// key it is the image of.
pub open spec fn rebound(
    s: Seq<TermView>,
    m: Map<TermId, TermId>,
    old_map: Map<TermId, TermId>,
    new_map: Map<TermId, TermId>,
) -> bool {
    &&& forall|k: TermId| #[trigger] old_map.contains_key(k) ==> new_map.contains_key(k)
    &&& forall|k: TermId| #[trigger]
        old_map.contains_key(k) ==> image_bound(s, m, k, new_map.dom())
    &&& forall|k: TermId| #[trigger]
        new_map.contains_key(k) ==> (old_map.contains_key(k) && new_map[k] == old_map[k]) || exists|
            body: TermId,
        | #[trigger]
            old_map.contains_key(body) && body != k && subst(s, m, body, k) && new_map[k]
                == old_map[body]
}

impl TableState {
    /// Carries names over to the terms that a substitution turns the named
    /// terms into.
    pub fn rebind_aliases_through_map(&mut self, store: &mut TermStore, map: &FxHashMap<TermId, TermId>)
        requires
            old(store).wf(),
            old(self).wf(old(store).terms()),
            map_ok(old(store).terms(), map@),
        ensures
            grew(old(store), final(store)),
            final(self).wf(final(store).terms()),
            rebound(final(store).terms(), map@, old(self).unit_eq_rep@, final(self).unit_eq_rep@),
            *final(self) == (TableState { unit_eq_rep: final(self).unit_eq_rep, ..*old(self) }),
    {
        let ghost m = map@;
        let ghost s0 = store.terms();
        let ghost first = self.unit_eq_rep@;
        let keys = map_sorted_keys(&self.unit_eq_rep);
        let mut reps: Vec<TermId> = Vec::new();
        let mut n: usize = 0;
        proof {
            assert forall|j: int| 0 <= j < keys@.len() implies first.contains_key(
                #[trigger] keys@[j],
            ) by {
                assert(keys@.to_set().contains(keys@[j]));
            }
            assert forall|k: TermId| #[trigger] first.contains_key(k) implies keys@.contains(k) by {
                assert(keys@.to_set().contains(k));
            }
        }
        while n < keys.len()
            invariant
                n <= keys.len(),
                first == self.unit_eq_rep@,
                reps@.len() == n,
                forall|j: int| 0 <= j < keys@.len() ==> first.contains_key(#[trigger] keys@[j]),
                forall|j: int| 0 <= j < n ==> reps@[j] == first[#[trigger] keys@[j]],
            decreases keys.len() - n,
        {
            assert(first.contains_key(keys@[n as int]));
            let rep: TermId = match map_get(&self.unit_eq_rep, keys[n]) {
                Some(r) => *r,
                None => keys[n],
            };
            reps.push(rep);
            n = n + 1;
        }
        let mut n: usize = 0;
        while n < keys.len()
            invariant
                n <= keys.len(),
                m == map@,
                s0 == old(store).terms(),
                map_ok(s0, m),
                map_ok(s0, first),
                first == old(self).unit_eq_rep@,
                grew(old(store), store),
                reps@.len() == keys@.len(),
                forall|j: int| 0 <= j < keys@.len() ==> first.contains_key(#[trigger] keys@[j]),
                forall|k: TermId| #[trigger] first.contains_key(k) ==> keys@.contains(k),
                forall|j: int| 0 <= j < keys@.len() ==> reps@[j] == first[#[trigger] keys@[j]],
                *self == (TableState { unit_eq_rep: self.unit_eq_rep, ..*old(self) }),
                map_ok(store.terms(), self.unit_eq_rep@),
                forall|k: TermId| #[trigger]
                    first.contains_key(k) ==> self.unit_eq_rep@.contains_key(k),
                forall|j: int|
                    0 <= j < n ==> image_bound(
                        store.terms(),
                        m,
                        #[trigger] keys@[j],
                        self.unit_eq_rep@.dom(),
                    ),
                forall|k: TermId| #[trigger]
                    self.unit_eq_rep@.contains_key(k) ==> (first.contains_key(k)
                        && self.unit_eq_rep@[k] == first[k]) || exists|body: TermId| #[trigger]
                        first.contains_key(body) && body != k && subst(store.terms(), m, body, k)
                            && self.unit_eq_rep@[k] == first[body],
            decreases keys.len() - n,
        {
            let body: TermId = keys[n];
            let ghost s1 = store.terms();
            let ghost before = self.unit_eq_rep@;
            proof {
                assert(first.contains_key(body));
                assert(s1[body as int] == s0[body as int]);
                lemma_map_ok_extend(s0, s1, m);
            }
            let image = substitute(store, body, map);
            let ghost s2 = store.terms();
            proof {
                lemma_map_ok_extend(s0, s2, m);
                lemma_map_ok_extend(s1, s2, before);
                lemma_map_ok_extend(s0, s2, first);
                lemma_subst_sort(s2, m, body, image);
                assert forall|j: int| 0 <= j < n implies image_bound(
                    s2,
                    m,
                    #[trigger] keys@[j],
                    before.dom(),
                ) by {
                    let r = choose|r: TermId| #[trigger]
                        subst(s1, m, keys@[j], r) && before.dom().contains(r);
                    assert(first.contains_key(keys@[j]));
                    assert(before.contains_key(r));
                    lemma_subst_extend(s1, s2, m, keys@[j], r);
                }
                assert forall|k: TermId| #[trigger] before.contains_key(k) implies (
                first.contains_key(k) && before[k] == first[k]) || exists|b: TermId| #[trigger]
                    first.contains_key(b) && b != k && subst(s2, m, b, k) && before[k] == first[b] by {
                    if !(first.contains_key(k) && before[k] == first[k]) {
                        let b = choose|b: TermId| #[trigger]
                            first.contains_key(b) && b != k && subst(s1, m, b, k) && before[k]
                                == first[b];
                        lemma_subst_extend(s1, s2, m, b, k);
                    }
                }
            }
            if image != body {
                map_insert(&mut self.unit_eq_rep, image, reps[n]);
            }
            proof {
                let after = self.unit_eq_rep@;
                assert(after.contains_key(image));
                assert forall|j: int| 0 <= j < n + 1 implies image_bound(
                    s2,
                    m,
                    #[trigger] keys@[j],
                    after.dom(),
                ) by {
                    if j < n {
                        assert(image_bound(s2, m, keys@[j], before.dom()));
                        let r = choose|r: TermId| #[trigger]
                            subst(s2, m, keys@[j], r) && before.dom().contains(r);
                        assert(after.dom().contains(r));
                    } else {
                        assert(subst(s2, m, keys@[j], image));
                    }
                }
            }
            n = n + 1;
        }
        proof {
            let s2 = store.terms();
            let after = self.unit_eq_rep@;
            assert forall|k: TermId| #[trigger] first.contains_key(k) implies image_bound(
                s2,
                m,
                k,
                after.dom(),
            ) by {
                assert(keys@.contains(k));
                let j = choose|j: int| 0 <= j < keys@.len() && keys@[j] == k;
                assert(first.contains_key(keys@[j]));
            }
            old(self).lemma_wf_extend(s0, s2);
        }
    }
}

/// Adds a key at its place in an ascending list.
pub(crate) fn insert_key(v: &mut Vec<i64>, x: i64)
    requires
        ascending_keys(old(v)@),
    ensures
        ascending_keys(final(v)@),
        forall|y: i64| #[trigger] final(v)@.contains(y) <==> old(v)@.contains(y) || y == x,
{
    let ghost before = v@;
    let mut i: usize = v.len();
    while i > 0 && v[i - 1] > x
        invariant
            i <= v.len(),
            v@ == before,
            ascending_keys(before),
            forall|j: int| i <= j < before.len() ==> before[j] > x,
        decreases i,
    {
        i = i - 1;
    }
    if i > 0 && v[i - 1] == x {
        assert(before[i - 1] == x);
        return;
    }
    v.insert(i, x);
    proof {
        let after = v@;
        assert forall|j: int, k: int| 0 <= j < k < after.len() implies after[j] < after[k] by {
            let oj = if j < i { j } else { j - 1 };
            let ok = if k < i { k } else { k - 1 };
            if j != i && k != i {
                assert(before[oj] < before[ok]);
            } else if j == i {
                assert(before[ok] > x);
            } else if j < i - 1 {
                assert(before[j] < before[i - 1]);
            }
        }
        assert forall|y: i64| #[trigger] after.contains(y) <==> before.contains(y) || y == x by {
            if before.contains(y) {
                let j = choose|j: int| 0 <= j < before.len() && before[j] == y;
                assert(after[if j < i { j } else { j + 1 }] == y);
            }
            assert(after[i as int] == x);
            if after.contains(y) {
                let j = choose|j: int| 0 <= j < after.len() && after[j] == y;
                if j != i {
                    assert(before[if j < i { j } else { j - 1 }] == y);
                }
            }
        }
    }
}

/// Adds every key of one list to another.
pub(crate) fn merge_keys(v: &mut Vec<i64>, more: &Vec<i64>)
    requires
        ascending_keys(old(v)@),
    ensures
        ascending_keys(final(v)@),
        forall|y: i64| #[trigger]
            final(v)@.contains(y) <==> old(v)@.contains(y) || more@.contains(y),
{
    let ghost before = v@;
    let mut n: usize = 0;
    while n < more.len()
        invariant
            n <= more.len(),
            ascending_keys(v@),
            forall|y: i64| #[trigger]
                v@.contains(y) <==> before.contains(y) || more@.take(n as int).contains(y),
        decreases more.len() - n,
    {
        insert_key(v, more[n]);
        proof {
            let a = more@.take(n as int);
            let b = more@.take(n + 1);
            assert forall|y: i64| #[trigger] b.contains(y) <==> a.contains(y) || y == more@[n as int] by {
                if a.contains(y) {
                    let j = choose|j: int| 0 <= j < a.len() && a[j] == y;
                    assert(b[j] == y);
                }
                assert(b[n as int] == more@[n as int]);
                if b.contains(y) {
                    let j = choose|j: int| 0 <= j < b.len() && b[j] == y;
                    if j < n {
                        assert(a[j] == y);
                    }
                }
            }
        }
        n = n + 1;
    }
    assert(more@.take(more@.len() as int) =~= more@);
}

/// The keys listed for a term.
pub open spec fn keys_at(keys: Map<TermId, Vec<i64>>, t: TermId) -> Seq<i64> {
    if keys.contains_key(t) {
        keys[t]@
    } else {
        Seq::empty()
    }
}

/// All keys of `body` are listed for an image of it.
pub open spec fn keys_carried(
    s: Seq<TermView>,
    m: Map<TermId, TermId>,
    body: TermId,
    from: Seq<i64>,
    keys: Map<TermId, Vec<i64>>,
) -> bool {
    exists|r: TermId| #[trigger]
        subst(s, m, body, r) && keys.contains_key(r) && forall|y: i64| #[trigger]
            from.contains(y) ==> keys[r]@.contains(y)
}

/// What carrying key lists over to images gives: nothing is lost, images have
/// the keys of what they are images of, and no key comes from elsewhere.
pub open spec fn keys_rebound(
    s: Seq<TermView>,
    m: Map<TermId, TermId>,
    old_keys: Map<TermId, Vec<i64>>,
    new_keys: Map<TermId, Vec<i64>>,
) -> bool {
    &&& forall|k: TermId| #[trigger]
        old_keys.contains_key(k) ==> new_keys.contains_key(k) && keys_carried(
            s,
            m,
            k,
            old_keys[k]@,
            new_keys,
        )
    &&& forall|k: TermId, y: i64| #[trigger]
        keys_at(old_keys, k).contains(y) ==> keys_at(new_keys, k).contains(y)
    &&& forall|k: TermId, y: i64| #[trigger]
        keys_at(new_keys, k).contains(y) ==> key_origin(s, m, old_keys, k, y)
}

/// The key was listed for the term, or for one it is the image of.
pub open spec fn key_origin(
    s: Seq<TermView>,
    m: Map<TermId, TermId>,
    old_keys: Map<TermId, Vec<i64>>,
    k: TermId,
    y: i64,
) -> bool {
    keys_at(old_keys, k).contains(y) || exists|body: TermId| #[trigger]
        old_keys.contains_key(body) && subst(s, m, body, k) && old_keys[body]@.contains(y)
}

/// The indices after a substitution: those before, and images of indices with
/// keys.
pub open spec fn indices_rebound(
    s: Seq<TermView>,
    m: Map<TermId, TermId>,
    old_keys: Map<TermId, Vec<i64>>,
    old_terms: Set<TermId>,
    new_terms: Set<TermId>,
) -> bool {
    &&& old_terms.subset_of(new_terms)
    &&& forall|t: TermId| #[trigger]
        new_terms.contains(t) ==> old_terms.contains(t) || image_of_index(s, m, old_keys, t)
}

/// The term is what an index with keys turns into.
pub open spec fn image_of_index(
    s: Seq<TermView>,
    m: Map<TermId, TermId>,
    old_keys: Map<TermId, Vec<i64>>,
    t: TermId,
) -> bool {
    exists|body: TermId| #[trigger] old_keys.contains_key(body) && subst(s, m, body, t)
}

pub(crate) proof fn lemma_indices_rebound_extend(
    a: Seq<TermView>,
    b: Seq<TermView>,
    m: Map<TermId, TermId>,
    old_keys: Map<TermId, Vec<i64>>,
    old_terms: Set<TermId>,
    new_terms: Set<TermId>,
)
    requires
        terms_wf(a),
        terms_wf(b),
        extends(a, b),
        map_ok(a, m),
        forall|k: TermId| #[trigger] old_keys.contains_key(k) ==> k < a.len(),
        forall|t: TermId| #[trigger] new_terms.contains(t) ==> t < a.len(),
        indices_rebound(a, m, old_keys, old_terms, new_terms),
    ensures
        indices_rebound(b, m, old_keys, old_terms, new_terms),
{
    assert forall|t: TermId| #[trigger] new_terms.contains(t) implies old_terms.contains(t)
        || image_of_index(b, m, old_keys, t) by {
        if !old_terms.contains(t) {
            assert(image_of_index(a, m, old_keys, t));
            let body = choose|body: TermId| #[trigger]
                old_keys.contains_key(body) && subst(a, m, body, t);
            lemma_subst_extend(a, b, m, body, t);
            assert(old_keys.contains_key(body) && subst(b, m, body, t));
        }
    }
}

impl TableState {
    /// Carries the key lists of indices over to the terms that a substitution
    /// turns the indices into.
    pub fn rebind_table_indices_through_map(
        &mut self,
        store: &mut TermStore,
        map: &FxHashMap<TermId, TermId>,
    )
        requires
            old(store).wf(),
            old(self).wf(old(store).terms()),
            map_ok(old(store).terms(), map@),
        ensures
            grew(old(store), final(store)),
            final(self).wf(final(store).terms()),
            keys_rebound(
                final(store).terms(),
                map@,
                old(self).table_index_keys@,
                final(self).table_index_keys@,
            ),
            indices_rebound(
                final(store).terms(),
                map@,
                old(self).table_index_keys@,
                old(self).table_index_terms@,
                final(self).table_index_terms@,
            ),
            *final(self) == (TableState {
                table_index_terms: final(self).table_index_terms,
                table_index_keys: final(self).table_index_keys,
                ..*old(self)
            }),
    {
        let ghost m = map@;
        let ghost s0 = store.terms();
        let ghost first = self.table_index_keys@;
        let idxs = map_sorted_keys(&self.table_index_keys);
        let mut lists: Vec<Vec<i64>> = Vec::new();
        let mut n: usize = 0;
        proof {
            assert forall|j: int| 0 <= j < idxs@.len() implies first.contains_key(
                #[trigger] idxs@[j],
            ) by {
                assert(idxs@.to_set().contains(idxs@[j]));
            }
            assert forall|k: TermId| #[trigger] first.contains_key(k) implies idxs@.contains(k) by {
                assert(idxs@.to_set().contains(k));
            }
        }
        while n < idxs.len()
            invariant
                n <= idxs.len(),
                first == self.table_index_keys@,
                lists@.len() == n,
                forall|j: int| 0 <= j < idxs@.len() ==> first.contains_key(#[trigger] idxs@[j]),
                forall|j: int| 0 <= j < n ==> lists@[j]@ == first[#[trigger] idxs@[j]]@,
            decreases idxs.len() - n,
        {
            assert(first.contains_key(idxs@[n as int]));
            let list = match map_get(&self.table_index_keys, idxs[n]) {
                Some(l) => copy_words(l),
                None => Vec::new(),
            };
            lists.push(list);
            n = n + 1;
        }
        proof {
            assert forall|k: TermId, y: i64| #[trigger] keys_at(first, k).contains(y) implies key_origin(
                s0,
                m,
                first,
                k,
                y,
            ) by {}
        }
        let mut n: usize = 0;
        while n < idxs.len()
            invariant
                n <= idxs.len(),
                m == map@,
                s0 == old(store).terms(),
                terms_wf(s0),
                map_ok(s0, m),
                first == old(self).table_index_keys@,
                old(self).wf(s0),
                grew(old(store), store),
                lists@.len() == idxs@.len(),
                forall|j: int| 0 <= j < idxs@.len() ==> first.contains_key(#[trigger] idxs@[j]),
                forall|k: TermId| #[trigger] first.contains_key(k) ==> idxs@.contains(k),
                forall|j: int| 0 <= j < idxs@.len() ==> lists@[j]@ == first[#[trigger] idxs@[j]]@,
                *self == (TableState {
                    table_index_terms: self.table_index_terms,
                    table_index_keys: self.table_index_keys,
                    ..*old(self)
                }),
                indices_rebound(
                    store.terms(),
                    m,
                    first,
                    old(self).table_index_terms@,
                    self.table_index_terms@,
                ),
                forall|t: TermId| #[trigger]
                    self.table_index_terms@.contains(t) ==> t < store.terms().len(),
                forall|t: TermId| #[trigger]
                    self.table_index_keys@.contains_key(t) ==> t < store.terms().len()
                        && ascending_keys(self.table_index_keys@[t]@)
                        && self.table_index_terms@.contains(t),
                forall|k: TermId| #[trigger]
                    first.contains_key(k) ==> self.table_index_keys@.contains_key(k),
                forall|j: int|
                    0 <= j < n ==> keys_carried(
                        store.terms(),
                        m,
                        #[trigger] idxs@[j],
                        first[idxs@[j]]@,
                        self.table_index_keys@,
                    ),
                forall|k: TermId, y: i64| #[trigger]
                    keys_at(first, k).contains(y) ==> keys_at(self.table_index_keys@, k).contains(y),
                forall|k: TermId, y: i64| #[trigger]
                    keys_at(self.table_index_keys@, k).contains(y) ==> key_origin(
                        store.terms(),
                        m,
                        first,
                        k,
                        y,
                    ),
            decreases idxs.len() - n,
        {
            let idx: TermId = idxs[n];
            let ghost s1 = store.terms();
            let ghost before = self.table_index_keys@;
            proof {
                assert(first.contains_key(idx));
                lemma_map_ok_extend(s0, s1, m);
            }
            let image = substitute(store, idx, map);
            let ghost s2 = store.terms();
            let ghost terms1 = self.table_index_terms@;
            proof {
                assert forall|t: TermId| #[trigger] terms1.contains(t) implies old(self).table_index_terms@.contains(t) || image_of_index(s2, m, first, t) by {
                    if !old(self).table_index_terms@.contains(t) {
                        assert(image_of_index(s1, m, first, t));
                        let b = choose|b: TermId| #[trigger]
                            first.contains_key(b) && subst(s1, m, b, t);
                        lemma_subst_extend(s1, s2, m, b, t);
                        assert(first.contains_key(b) && subst(s2, m, b, t));
                    }
                }
                assert forall|j: int| 0 <= j < n implies keys_carried(
                    s2,
                    m,
                    #[trigger] idxs@[j],
                    first[idxs@[j]]@,
                    before,
                ) by {
                    let r = choose|r: TermId| #[trigger]
                        subst(s1, m, idxs@[j], r) && before.contains_key(r) && forall|y: i64|
                            #[trigger] first[idxs@[j]]@.contains(y) ==> before[r]@.contains(y);
                    assert(first.contains_key(idxs@[j]));
                    lemma_subst_extend(s1, s2, m, idxs@[j], r);
                }
                assert forall|k: TermId, y: i64| #[trigger] keys_at(before, k).contains(y) implies key_origin(
                    s2,
                    m,
                    first,
                    k,
                    y,
                ) by {
                    assert(key_origin(s1, m, first, k, y));
                    if !keys_at(first, k).contains(y) {
                        let b = choose|b: TermId| #[trigger]
                            first.contains_key(b) && subst(s1, m, b, k) && first[b]@.contains(y);
                        assert(before.contains_key(k));
                        lemma_subst_extend(s1, s2, m, b, k);
                    }
                }
            }
            if image != idx {
                set_insert(&mut self.table_index_terms, image);
                assert(image_of_index(s2, m, first, image)) by {
                    assert(first.contains_key(idx) && subst(s2, m, idx, image));
                }
                let mut list = match map_get(&self.table_index_keys, image) {
                    Some(l) => copy_words(l),
                    None => Vec::new(),
                };
                assert(list@ =~= keys_at(before, image));
                merge_keys(&mut list, &lists[n]);
                map_insert(&mut self.table_index_keys, image, list);
                proof {
                    assert(first[idx]@ == lists@[n as int]@);
                    assert forall|k: TermId, y: i64| #[trigger]
                        keys_at(self.table_index_keys@, k).contains(y) implies key_origin(
                        s2,
                        m,
                        first,
                        k,
                        y,
                    ) by {
                        if k == image && !keys_at(before, k).contains(y) {
                            assert(first.contains_key(idx));
                        } else {
                            assert(keys_at(before, k).contains(y));
                        }
                    }
                    assert forall|k: TermId, y: i64| #[trigger] keys_at(first, k).contains(y) implies keys_at(
                        self.table_index_keys@,
                        k,
                    ).contains(y) by {
                        assert(keys_at(before, k).contains(y));
                    }
                }
            }
            proof {
                let after = self.table_index_keys@;
                assert forall|k: TermId, y: i64| #[trigger] keys_at(before, k).contains(y) implies keys_at(
                    after,
                    k,
                ).contains(y) by {}
                assert forall|j: int| 0 <= j < n + 1 implies keys_carried(
                    s2,
                    m,
                    #[trigger] idxs@[j],
                    first[idxs@[j]]@,
                    after,
                ) by {
                    if j < n {
                        assert(keys_carried(s2, m, idxs@[j], first[idxs@[j]]@, before));
                        let r = choose|r: TermId| #[trigger]
                            subst(s2, m, idxs@[j], r) && before.contains_key(r) && forall|y: i64|
                                #[trigger] first[idxs@[j]]@.contains(y) ==> before[r]@.contains(y);
                        assert forall|y: i64| #[trigger] first[idxs@[j]]@.contains(y) implies after[r]@.contains(
                            y,
                        ) by {
                            assert(keys_at(before, r).contains(y));
                            assert(keys_at(after, r).contains(y));
                        }
                        assert(subst(s2, m, idxs@[j], r) && after.contains_key(r));
                    } else {
                        assert(subst(s2, m, idx, image));
                        assert forall|y: i64| #[trigger] first[idx]@.contains(y) implies after[image]@.contains(
                            y,
                        ) by {
                            if image == idx {
                                assert(keys_at(first, idx).contains(y));
                                assert(keys_at(after, idx).contains(y));
                            } else {
                                assert(lists@[n as int]@.contains(y));
                            }
                        }
                        assert(after.contains_key(image));
                    }
                }
            }
            n = n + 1;
        }
        proof {
            let s2 = store.terms();
            let after = self.table_index_keys@;
            assert forall|k: TermId| #[trigger] first.contains_key(k) implies after.contains_key(k)
                && keys_carried(s2, m, k, first[k]@, after) by {
                assert(idxs@.contains(k));
                let j = choose|j: int| 0 <= j < idxs@.len() && idxs@[j] == k;
                assert(first.contains_key(idxs@[j]));
            }
            old(self).lemma_wf_extend(s0, s2);
        }
    }
}

pub(crate) proof fn lemma_rebound_extend(
    a: Seq<TermView>,
    b: Seq<TermView>,
    m: Map<TermId, TermId>,
    old_map: Map<TermId, TermId>,
    new_map: Map<TermId, TermId>,
)
    requires
        terms_wf(a),
        extends(a, b),
        map_ok(a, old_map),
        map_ok(a, new_map),
        rebound(a, m, old_map, new_map),
    ensures
        rebound(b, m, old_map, new_map),
{
    assert forall|k: TermId| #[trigger] old_map.contains_key(k) implies image_bound(
        b,
        m,
        k,
        new_map.dom(),
    ) by {
        assert(image_bound(a, m, k, new_map.dom()));
        let r = choose|r: TermId| #[trigger] subst(a, m, k, r) && new_map.dom().contains(r);
        assert(new_map.contains_key(r));
        lemma_subst_extend(a, b, m, k, r);
    }
    assert forall|k: TermId| #[trigger] new_map.contains_key(k) implies (old_map.contains_key(k)
        && new_map[k] == old_map[k]) || exists|body: TermId| #[trigger]
        old_map.contains_key(body) && body != k && subst(b, m, body, k) && new_map[k]
            == old_map[body] by {
        if !(old_map.contains_key(k) && new_map[k] == old_map[k]) {
            let body = choose|body: TermId| #[trigger]
                old_map.contains_key(body) && body != k && subst(a, m, body, k) && new_map[k]
                    == old_map[body];
            lemma_subst_extend(a, b, m, body, k);
        }
    }
}

pub(crate) proof fn lemma_keys_rebound_extend(
    a: Seq<TermView>,
    b: Seq<TermView>,
    m: Map<TermId, TermId>,
    old_keys: Map<TermId, Vec<i64>>,
    new_keys: Map<TermId, Vec<i64>>,
)
    requires
        terms_wf(a),
        extends(a, b),
        forall|k: TermId| #[trigger] old_keys.contains_key(k) ==> k < a.len(),
        forall|k: TermId| #[trigger] new_keys.contains_key(k) ==> k < a.len(),
        keys_rebound(a, m, old_keys, new_keys),
    ensures
        keys_rebound(b, m, old_keys, new_keys),
{
    assert forall|k: TermId| #[trigger] old_keys.contains_key(k) implies keys_carried(
        b,
        m,
        k,
        old_keys[k]@,
        new_keys,
    ) by {
        let from = old_keys[k]@;
        assert(keys_carried(a, m, k, from, new_keys));
        let r = choose|r: TermId| #[trigger]
            subst(a, m, k, r) && new_keys.contains_key(r) && forall|y: i64| #[trigger]
                from.contains(y) ==> new_keys[r]@.contains(y);
        lemma_subst_extend(a, b, m, k, r);
    }
    assert forall|k: TermId, y: i64| #[trigger]
        keys_at(new_keys, k).contains(y) implies key_origin(b, m, old_keys, k, y) by {
        assert(key_origin(a, m, old_keys, k, y));
        if !keys_at(old_keys, k).contains(y) {
            let body = choose|body: TermId| #[trigger]
                old_keys.contains_key(body) && subst(a, m, body, k) && old_keys[body]@.contains(
                    y,
                );
            assert(new_keys.contains_key(k));
            lemma_subst_extend(a, b, m, body, k);
        }
    }
}

} // verus!
