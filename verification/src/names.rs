//! Finite maps from names.

use crate::text::same_text;
use vstd::prelude::*;

verus! {

/// A map from names, as a list of entries.
pub struct NameMap<V> {
    pub entries: Vec<(String, V)>,
}

/// The entry at `k` is for the name.
pub open spec fn names<V>(entries: Seq<(String, V)>, k: int, name: Seq<char>) -> bool {
    0 <= k < entries.len() && entries[k].0@ == name
}

impl<V> View for NameMap<V> {
    type V = Map<Seq<char>, V>;

    open spec fn view(&self) -> Map<Seq<char>, V> {
        Map::new(
            |name: Seq<char>| exists|k: int| names(self.entries@, k, name),
            |name: Seq<char>| self.entries@[choose|k: int| names(self.entries@, k, name)].1,
        )
    }
}

impl<V> NameMap<V> {
    /// Each name has one entry.
    pub open spec fn wf(&self) -> bool {
        forall|j: int, k: int|
            0 <= j < k < self.entries@.len() ==> (#[trigger] self.entries@[j]).0@ != (
            #[trigger] self.entries@[k]).0@
    }

    proof fn lemma_entry(&self, k: int)
        requires
            self.wf(),
            0 <= k < self.entries@.len(),
        ensures
            self@.contains_key(self.entries@[k].0@),
            self@[self.entries@[k].0@] == self.entries@[k].1,
    {
        let name = self.entries@[k].0@;
        assert(names(self.entries@, k, name));
        let j = choose|j: int| names(self.entries@, j, name);
        assert(j == k);
    }

    pub fn new() -> (m: NameMap<V>)
        ensures
            m.wf(),
            m@ == Map::<Seq<char>, V>::empty(),
    {
        let m = NameMap { entries: Vec::new() };
        assert(m@ =~= Map::<Seq<char>, V>::empty());
        m
    }

    fn find(&self, name: &str) -> (r: Option<usize>)
        requires
            self.wf(),
        ensures
            r matches Some(k) ==> names(self.entries@, k as int, name@),
            r is Some == self@.contains_key(name@),
    {
        let mut k: usize = 0;
        while k < self.entries.len()
            invariant
                k <= self.entries.len(),
                self.wf(),
                forall|j: int| 0 <= j < k ==> !names(self.entries@, j, name@),
            decreases self.entries.len() - k,
        {
            if same_text(self.entries[k].0.as_str(), name) {
                assert(names(self.entries@, k as int, name@));
                return Some(k);
            }
            k = k + 1;
        }
        None
    }

    pub fn get(&self, name: &str) -> (r: Option<&V>)
        requires
            self.wf(),
        ensures
            r is Some == self@.contains_key(name@),
            r matches Some(v) ==> *v == self@[name@],
    {
        match self.find(name) {
            Some(k) => {
                proof {
                    self.lemma_entry(k as int);
                }
                Some(&self.entries[k].1)
            },
            None => None,
        }
    }

    pub fn insert(&mut self, name: String, value: V)
        requires
            old(self).wf(),
        ensures
            final(self).wf(),
            final(self)@ == old(self)@.insert(name@, value),
    {
        let ghost before = *self;
        let ghost key = name@;
        match self.find(name.as_str()) {
            Some(k) => {
                self.entries.set(k, (name, value));
                proof {
                    assert forall|x: Seq<char>| #[trigger]
                        self@.contains_key(x) == before@.contains_key(x) by {
                        if self@.contains_key(x) {
                            let j = choose|j: int| names(self.entries@, j, x);
                            assert(names(before.entries@, j, x));
                        }
                        if before@.contains_key(x) {
                            let j = choose|j: int| names(before.entries@, j, x);
                            assert(names(self.entries@, j, x));
                        }
                    }
                    assert forall|x: Seq<char>| #[trigger]
                        self@.contains_key(x) && x != key implies self@[x] == before@[x] by {
                        let j = choose|j: int| names(self.entries@, j, x);
                        self.lemma_entry(j);
                        before.lemma_entry(j);
                    }
                    self.lemma_entry(k as int);
                    assert(self@ =~= before@.insert(key, value));
                }
            },
            None => {
                self.entries.push((name, value));
                proof {
                    let n = before.entries@.len() as int;
                    assert(forall|j: int| 0 <= j < n ==> !names(before.entries@, j, key));
                    assert forall|j: int, k: int| 0 <= j < k < self.entries@.len() implies (
                    #[trigger] self.entries@[j]).0@ != (#[trigger] self.entries@[k]).0@ by {
                        assert(!names(before.entries@, j, key));
                    }
                    assert(names(self.entries@, n, key));
                    assert forall|x: Seq<char>| x != key implies #[trigger] self@.contains_key(x)
                        == before@.contains_key(x) by {
                        if self@.contains_key(x) {
                            let j = choose|j: int| names(self.entries@, j, x);
                            assert(names(before.entries@, j, x));
                        }
                        if before@.contains_key(x) {
                            let j = choose|j: int| names(before.entries@, j, x);
                            assert(names(self.entries@, j, x));
                        }
                    }
                    assert forall|x: Seq<char>| #[trigger]
                        self@.contains_key(x) && x != key implies self@[x] == before@[x] by {
                        let j = choose|j: int| names(self.entries@, j, x);
                        self.lemma_entry(j);
                        before.lemma_entry(j);
                    }
                    self.lemma_entry(n);
                    assert(self@ =~= before@.insert(key, value));
                }
            },
        }
    }

    pub fn remove(&mut self, name: &str)
        requires
            old(self).wf(),
        ensures
            final(self).wf(),
            final(self)@ == old(self)@.remove(name@),
    {
        let ghost before = *self;
        let ghost key = name@;
        match self.find(name) {
            Some(k) => {
                self.entries.remove(k);
                proof {
                    let at = |j: int| if j < k { j } else { j + 1 };
                    assert(forall|j: int|
                        0 <= j < self.entries@.len() ==> self.entries@[j] == before.entries@[at(
                            j,
                        )]);
                    assert forall|i: int, j: int| 0 <= i < j < self.entries@.len() implies (
                    #[trigger] self.entries@[i]).0@ != (#[trigger] self.entries@[j]).0@ by {
                        assert(before.entries@[at(i)].0@ != before.entries@[at(j)].0@);
                    }
                    assert forall|x: Seq<char>| #[trigger] self@.contains_key(x) implies x != key
                        && before@.contains_key(x) && self@[x] == before@[x] by {
                        let j = choose|j: int| names(self.entries@, j, x);
                        self.lemma_entry(j);
                        before.lemma_entry(at(j));
                        assert(names(before.entries@, at(j), x));
                    }
                    assert forall|x: Seq<char>| #[trigger] before@.contains_key(x) && x != key
                        implies self@.contains_key(x) by {
                        let j = choose|j: int| names(before.entries@, j, x);
                        assert(names(self.entries@, if j < k { j } else { j - 1 }, x));
                    }
                    assert(self@ =~= before@.remove(key));
                }
            },
            None => {
                assert(self@ =~= before@.remove(key));
            },
        }
    }
}

} // verus!
