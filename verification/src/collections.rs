//! Integer-keyed hash maps and short inline vectors.
//!
//! The maps are `rustc_hash::FxHashMap`s; the functions below are the only
//! places that touch them, and state what each call does to the map's view.

use crate::numbers::Rat;
use rustc_hash::{FxHashMap, FxHashSet};
use smallvec::SmallVec;
use vstd::prelude::*;

verus! {

/// The hasher of `rustc_hash`, carried only as a type parameter of the maps.
#[verifier::external_type_specification]
#[verifier::external_body]
pub struct ExFxBuildHasher(rustc_hash::FxBuildHasher);

/// `HashMap::default` on an `FxHashMap`: the new map holds nothing.
#[verifier::external_body]
pub(crate) fn map_new<V>() -> (m: FxHashMap<usize, V>)
    ensures
        m@.dom() == Set::<usize>::empty(),
{
    FxHashMap::default()
}

/// `HashMap::insert` on an `FxHashMap`: the key now maps to the value, every
/// other key is untouched, and the previous value of the key is returned.
#[verifier::external_body]
pub(crate) fn map_insert<V>(m: &mut FxHashMap<usize, V>, key: usize, value: V) -> (prev: Option<V>)
    ensures
        final(m)@ == old(m)@.insert(key, value),
        prev == if old(m)@.contains_key(key) { Some(old(m)@[key]) } else { None },
{
    m.insert(key, value)
}

/// `HashMap::remove` on an `FxHashMap`: the key is gone, every other key is
/// untouched, and the removed value is returned.
#[verifier::external_body]
pub(crate) fn map_remove<V>(m: &mut FxHashMap<usize, V>, key: usize) -> (prev: Option<V>)
    ensures
        final(m)@ == old(m)@.remove(key),
        prev == if old(m)@.contains_key(key) { Some(old(m)@[key]) } else { None },
{
    m.remove(&key)
}

/// `HashMap::get` on an `FxHashMap`: a reference to the value of the key.
#[verifier::external_body]
pub(crate) fn map_get<V>(m: &FxHashMap<usize, V>, key: usize) -> (value: Option<&V>)
    ensures
        value == if m@.contains_key(key) { Some(&m@[key]) } else { None },
{
    m.get(&key)
}

/// `HashMap::keys` on an `FxHashMap`: every key once, in an order that is left
/// open.
#[verifier::external_body]
fn map_keys<V>(m: &FxHashMap<usize, V>) -> (keys: Vec<usize>)
    ensures
        keys@.to_set() == m@.dom(),
        keys@.no_duplicates(),
{
    m.keys().copied().collect()
}

/// Strictly ascending order.
pub open spec fn ascending(s: Seq<usize>) -> bool {
    forall|i: int, j: int| 0 <= i < j < s.len() ==> s[i] < s[j]
}

fn insert_ascending(v: &mut Vec<usize>, x: usize)
    requires
        ascending(old(v)@),
        !old(v)@.contains(x),
    ensures
        ascending(final(v)@),
        final(v)@.to_set() == old(v)@.to_set().insert(x),
{
    let mut i: usize = v.len();
    while i > 0 && v[i - 1] > x
        invariant
            i <= v.len(),
            ascending(v@),
            forall|j: int| i <= j < v.len() ==> v@[j] > x,
        decreases i,
    {
        i = i - 1;
    }
    let ghost before = v@;
    v.insert(i, x);
    proof {
        assert(i > 0 ==> before[i - 1] < x) by {
            if i > 0 {
                assert(before.contains(before[i - 1]));
            }
        }
        assert forall|j: int, k: int| 0 <= j < k < v@.len() implies v@[j] < v@[k] by {
            let oj = if j < i { j } else { j - 1 };
            let ok = if k < i { k } else { k - 1 };
            if j != i && k != i {
                assert(before[oj] < before[ok]);
            } else if j == i {
                assert(before[ok] > x);
            } else {
                if j < i - 1 {
                    assert(before[j] < before[i - 1]);
                }
            }
        }
        assert forall|y: usize| v@.to_set().contains(y) <==> before.to_set().insert(x).contains(y) by {
            if before.contains(y) {
                let j = choose|j: int| 0 <= j < before.len() && before[j] == y;
                if j < i {
                    assert(v@[j] == y);
                } else {
                    assert(v@[j + 1] == y);
                }
            }
            if v@.contains(y) {
                let j = choose|j: int| 0 <= j < v@.len() && v@[j] == y;
                if j < i {
                    assert(before[j] == y);
                } else if j > i {
                    assert(before[j - 1] == y);
                }
            }
            assert(v@[i as int] == x);
        }
        assert(v@.to_set() =~= before.to_set().insert(x));
    }
}

/// The same elements in ascending order.
fn sort_ascending(raw: &Vec<usize>) -> (sorted: Vec<usize>)
    requires
        raw@.no_duplicates(),
    ensures
        sorted@.to_set() == raw@.to_set(),
        ascending(sorted@),
{
    let mut out: Vec<usize> = Vec::new();
    let mut i: usize = 0;
    assert(out@.to_set() =~= raw@.take(0).to_set());
    while i < raw.len()
        invariant
            i <= raw.len(),
            raw@.no_duplicates(),
            ascending(out@),
            out@.to_set() == raw@.take(i as int).to_set(),
        decreases raw.len() - i,
    {
        proof {
            assert(!out@.contains(raw@[i as int])) by {
                if out@.contains(raw@[i as int]) {
                    assert(out@.to_set().contains(raw@[i as int]));
                    let pre = raw@.take(i as int);
                    assert(pre.contains(raw@[i as int]));
                    let j = choose|j: int| 0 <= j < pre.len() && pre[j] == raw@[i as int];
                    assert(raw@[j] == raw@[i as int]);
                }
            }
            assert(raw@.take(i + 1) =~= raw@.take(i as int).push(raw@[i as int]));
            assert(raw@.take(i as int).push(raw@[i as int]).to_set() =~= raw@.take(i as int).to_set().insert(raw@[i as int])) by {
                let pre = raw@.take(i as int);
                let x = raw@[i as int];
                assert forall|y: usize| pre.push(x).to_set().contains(y) <==> pre.to_set().insert(x).contains(y) by {
                    if pre.contains(y) {
                        let j = choose|j: int| 0 <= j < pre.len() && pre[j] == y;
                        assert(pre.push(x)[j] == y);
                    }
                    assert(pre.push(x)[pre.len() as int] == x);
                    if pre.push(x).contains(y) {
                        let j = choose|j: int| 0 <= j < pre.push(x).len() && pre.push(x)[j] == y;
                        if j < pre.len() {
                            assert(pre[j] == y);
                        }
                    }
                }
            }
        }
        insert_ascending(&mut out, raw[i]);
        i = i + 1;
    }
    assert(raw@.take(raw.len() as int) =~= raw@);
    out
}

/// The keys of a map in ascending order.
pub(crate) fn map_sorted_keys<V>(m: &FxHashMap<usize, V>) -> (keys: Vec<usize>)
    ensures
        keys@.to_set() == m@.dom(),
        ascending(keys@),
{
    let raw = map_keys(m);
    sort_ascending(&raw)
}

/// A copy of a map between integers.
pub(crate) fn map_copy(m: &FxHashMap<usize, usize>) -> (r: FxHashMap<usize, usize>)
    ensures
        r@ == m@,
{
    let keys = map_sorted_keys(m);
    let mut out: FxHashMap<usize, usize> = map_new();
    let mut n: usize = 0;
    while n < keys.len()
        invariant
            n <= keys.len(),
            keys@.to_set() == m@.dom(),
            forall|j: int| 0 <= j < n ==> out@.contains_key(#[trigger] keys@[j]),
            forall|k: usize| #[trigger] out@.contains_key(k) ==> m@.contains_key(k) && out@[k] == m@[k],
        decreases keys.len() - n,
    {
        let k: usize = keys[n];
        assert(keys@.contains(k));
        assert(m@.dom().contains(k));
        if let Some(v) = map_get(m, k) {
            map_insert(&mut out, k, *v);
        }
        n = n + 1;
    }
    proof {
        assert forall|k: usize| m@.contains_key(k) implies out@.contains_key(k) by {
            assert(keys@.to_set().contains(k));
            let j = choose|j: int| 0 <= j < keys@.len() && keys@[j] == k;
            assert(out@.contains_key(keys@[j]));
        }
        assert(out@ =~= m@);
    }
    out
}

/// A copy of a vector of plain values.
pub(crate) fn copy_words<T: Copy>(v: &Vec<T>) -> (r: Vec<T>)
    ensures
        r@ == v@,
{
    let mut out: Vec<T> = Vec::new();
    let mut i: usize = 0;
    while i < v.len()
        invariant
            i <= v.len(),
            out@ == v@.take(i as int),
        decreases v.len() - i,
    {
        proof {
            assert(v@.take(i + 1) =~= v@.take(i as int).push(v@[i as int]));
        }
        out.push(v[i]);
        i = i + 1;
    }
    assert(v@.take(v@.len() as int) =~= v@);
    out
}

/// Equality of two digit strings.
pub(crate) fn same_words(a: &Vec<u32>, b: &Vec<u32>) -> (r: bool)
    ensures
        r == (a@ == b@),
{
    if a.len() != b.len() {
        return false;
    }
    let mut i: usize = 0;
    while i < a.len()
        invariant
            i <= a.len(),
            a.len() == b.len(),
            forall|j: int| 0 <= j < i ==> a@[j] == b@[j],
        decreases a.len() - i,
    {
        if a[i] != b[i] {
            return false;
        }
        i = i + 1;
    }
    assert(a@ =~= b@);
    true
}

/// `HashSet::default` on an `FxHashSet`: the new set holds nothing.
#[verifier::external_body]
pub(crate) fn set_new() -> (s: FxHashSet<usize>)
    ensures
        s@ == Set::<usize>::empty(),
{
    FxHashSet::default()
}

/// `HashSet::insert` on an `FxHashSet`: the element is in the set afterwards,
/// and the result tells whether it was not there before.
#[verifier::external_body]
pub(crate) fn set_insert(s: &mut FxHashSet<usize>, x: usize) -> (new: bool)
    ensures
        final(s)@ == old(s)@.insert(x),
        new == !old(s)@.contains(x),
{
    s.insert(x)
}

/// `HashSet::remove` on an `FxHashSet`: the element is not in the set
/// afterwards, and the result tells whether it was there before.
#[verifier::external_body]
pub(crate) fn set_remove(s: &mut FxHashSet<usize>, x: usize) -> (had: bool)
    ensures
        final(s)@ == old(s)@.remove(x),
        had == old(s)@.contains(x),
{
    s.remove(&x)
}

/// `HashSet::contains` on an `FxHashSet`.
#[verifier::external_body]
pub(crate) fn set_contains(s: &FxHashSet<usize>, x: usize) -> (b: bool)
    ensures
        b == s@.contains(x),
{
    s.contains(&x)
}

/// `HashSet::iter` on an `FxHashSet`: every element once, in an order that is
/// left open.
#[verifier::external_body]
fn set_items(s: &FxHashSet<usize>) -> (items: Vec<usize>)
    ensures
        items@.to_set() == s@,
        items@.no_duplicates(),
{
    s.iter().copied().collect()
}

/// The elements of a set in ascending order.
pub(crate) fn set_sorted_items(s: &FxHashSet<usize>) -> (items: Vec<usize>)
    ensures
        items@.to_set() == s@,
        ascending(items@),
{
    let raw = set_items(s);
    sort_ascending(&raw)
}

/// A list of terms with coefficients, short lists kept inline by `smallvec`.
#[verifier::external_body]
pub struct CoeffVec {
    inner: SmallVec<[(usize, Rat); 4]>,
}

/// The elements of a [`CoeffVec`], in order.
pub uninterp spec fn coeffs(v: CoeffVec) -> Seq<(usize, Rat)>;

/// `SmallVec::new`: the new vector holds nothing.
#[verifier::external_body]
pub(crate) fn coeffs_new() -> (v: CoeffVec)
    ensures
        coeffs(v).len() == 0,
{
    CoeffVec { inner: SmallVec::new() }
}

/// `SmallVec::push`: the element is added at the end.
#[verifier::external_body]
pub(crate) fn coeffs_push(v: &mut CoeffVec, item: (usize, Rat))
    ensures
        coeffs(*final(v)) == coeffs(*old(v)).push(item),
{
    v.inner.push(item);
}

/// `SmallVec::len`: the number of elements.
#[verifier::external_body]
pub(crate) fn coeffs_len(v: &CoeffVec) -> (n: usize)
    ensures
        n == coeffs(*v).len(),
{
    v.inner.len()
}

/// Indexing of a `SmallVec`: the element at a position within the length.
#[verifier::external_body]
pub(crate) fn coeffs_get(v: &CoeffVec, i: usize) -> (item: (usize, Rat))
    requires
        i < coeffs(*v).len(),
    ensures
        item == coeffs(*v)[i as int],
{
    v.inner[i]
}

} // verus!
