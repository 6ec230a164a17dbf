//! Hash tables keyed by integers, hashed by `fxhash`.
//!
//! The order in which such a table is walked is left open everywhere: a walk is a sequence that
//! lists every key once.
//!
//! The specifications of `vstd` promise something of a table only where its hasher is known to be
//! valid, which they do not say of `FxHasher`; the operations that are used here have contracts of
//! their own.

use core::hash::Hash;
use fxhash::{FxHashMap, FxHashSet};
use vstd::prelude::*;
use vstd::std_specs::hash::obeys_key_model;

verus! {

broadcast use vstd::std_specs::hash::group_hash_axioms;

/// The hasher behind `FxHashMap` and `FxHashSet`; its state is never looked at.
#[verifier::external_type_specification]
#[verifier::external_body]
pub struct ExFxHasher(fxhash::FxHasher);

/// The builder that starts every hasher of type `H` from its default state.
#[verifier::external_type_specification]
#[verifier::external_body]
#[verifier::reject_recursive_types(H)]
pub struct ExBuildHasherDefault<H>(core::hash::BuildHasherDefault<H>);

/// `order` lists every element of `s` exactly once.
pub open spec fn enumerates<K>(order: Seq<K>, s: Set<K>) -> bool {
    &&& order.no_duplicates()
    &&& order.to_set() == s
}

/// `list` holds the value of every key of `m` once, in an order of the keys that is left open.
pub open spec fn lists_values<K, V>(list: Seq<V>, m: Map<K, V>) -> bool {
    exists|order: Seq<K>| #[trigger]
        enumerates(order, m.dom()) && list == order.map_values(|k: K| m[k])
}

/// The contents of a table of vectors.
pub open spec fn seq_views<K, T>(m: Map<K, Vec<T>>) -> Map<K, Seq<T>> {
    m.map_values(|v: Vec<T>| v@)
}

/// What `m` holds for `k`, and the empty sequence where it holds nothing.
pub open spec fn seq_at<K, T>(m: Map<K, Seq<T>>, k: K) -> Seq<T> {
    if m.contains_key(k) {
        m[k]
    } else {
        Seq::empty()
    }
}

/// `HashMap::insert` on a map hashed by `FxHasher`: the key maps to the value afterwards, every
/// other key is as before, and the value that the key had is handed back.
#[verifier::external_body]
pub(crate) fn map_insert<K: Eq + Hash, V>(m: &mut FxHashMap<K, V>, k: K, v: V) -> (res: Option<V>)
    requires
        obeys_key_model::<K>(),
    ensures
        final(m)@ == old(m)@.insert(k, v),
        res == (if old(m)@.contains_key(k) { Some(old(m)@[k]) } else { None }),
{
    m.insert(k, v)
}

/// `HashMap::get` on a map hashed by `FxHasher`: the value of the key, if it has one.
#[verifier::external_body]
pub(crate) fn map_get<'a, K: Eq + Hash, V>(m: &'a FxHashMap<K, V>, k: &K) -> (res: Option<&'a V>)
    requires
        obeys_key_model::<K>(),
    ensures
        res is Some <==> m@.contains_key(*k),
        res matches Some(v) ==> *v == m@[*k],
{
    m.get(k)
}

/// `HashMap::remove` on a map hashed by `FxHasher`: the key is gone afterwards, every other key is
/// as before, and the value that the key had is handed back.
#[verifier::external_body]
pub(crate) fn map_remove<K: Eq + Hash, V>(m: &mut FxHashMap<K, V>, k: &K) -> (res: Option<V>)
    requires
        obeys_key_model::<K>(),
    ensures
        final(m)@ == old(m)@.remove(*k),
        res == (if old(m)@.contains_key(*k) { Some(old(m)@[*k]) } else { None }),
{
    m.remove(k)
}

/// `HashMap::keys` on a map hashed by `FxHasher`: every key once, in an order that is left open.
#[verifier::external_body]
pub(crate) fn map_keys<K: Copy, V>(m: &FxHashMap<K, V>) -> (res: Vec<K>)
    requires
        obeys_key_model::<K>(),
    ensures
        enumerates(res@, m@.dom()),
{
    m.keys().copied().collect()
}

/// `HashSet::insert` on a set hashed by `FxHasher`: the element is in the set afterwards, and the
/// result says whether it is new.
#[verifier::external_body]
pub(crate) fn set_insert<K: Eq + Hash>(s: &mut FxHashSet<K>, k: K) -> (res: bool)
    requires
        obeys_key_model::<K>(),
    ensures
        final(s)@ == old(s)@.insert(k),
        res == !old(s)@.contains(k),
{
    s.insert(k)
}

/// `HashSet::contains` on a set hashed by `FxHasher`.
#[verifier::external_body]
pub(crate) fn set_contains<K: Eq + Hash>(s: &FxHashSet<K>, k: &K) -> (res: bool)
    requires
        obeys_key_model::<K>(),
    ensures
        res == s@.contains(*k),
{
    s.contains(k)
}

/// `HashSet::iter` on a set hashed by `FxHasher`: every element once, in an order that is left
/// open.
#[verifier::external_body]
pub(crate) fn set_elements<K: Copy>(s: &FxHashSet<K>) -> (res: Vec<K>)
    requires
        obeys_key_model::<K>(),
    ensures
        enumerates(res@, s@),
{
    s.iter().copied().collect()
}

/// Whether `m` maps `k`.
pub fn map_contains<K: Eq + Hash, V>(m: &FxHashMap<K, V>, k: &K) -> (res: bool)
    requires
        obeys_key_model::<K>(),
    ensures
        res == m@.contains_key(*k),
{
    map_get(m, k).is_some()
}

/// Appends `x` to what `m` holds for `k`.
pub fn push_at<K: Eq + Hash + Copy, T>(m: &mut FxHashMap<K, Vec<T>>, k: K, x: T)
    requires
        obeys_key_model::<K>(),
    ensures
        seq_views(final(m)@) == seq_views(old(m)@).insert(
            k,
            seq_at(seq_views(old(m)@), k).push(x),
        ),
{
    let mut v = match map_remove(m, &k) {
        Some(v) => v,
        None => Vec::new(),
    };
    v.push(x);
    map_insert(m, k, v);
    assert(seq_views(m@) =~= seq_views(old(m)@).insert(k, seq_at(seq_views(old(m)@), k).push(x)));
}

/// Adds every element of `other` to `s`.
pub fn set_extend<K: Eq + Hash + Copy>(s: &mut FxHashSet<K>, other: &FxHashSet<K>)
    requires
        obeys_key_model::<K>(),
    ensures
        final(s)@ == old(s)@.union(other@),
{
    let elements = set_elements(other);
    let mut i: usize = 0;
    while i < elements.len()
        invariant
            obeys_key_model::<K>(),
            i <= elements@.len(),
            s@ == old(s)@.union(elements@.take(i as int).to_set()),
        decreases elements.len() - i,
    {
        set_insert(s, elements[i]);
        proof {
            lemma_take_to_set(elements@, i as int);
        }
        i += 1;
    }
    assert(elements@.take(elements@.len() as int) =~= elements@);
}

/// A set with the elements of `other`.
pub fn set_copy<K: Eq + Hash + Copy>(other: &FxHashSet<K>) -> (res: FxHashSet<K>)
    requires
        obeys_key_model::<K>(),
    ensures
        res@ == other@,
{
    let mut res: FxHashSet<K> = FxHashSet::default();
    set_extend(&mut res, other);
    assert(res@ =~= other@);
    res
}

/// Whether every element of `other` is in `s`.
pub fn set_includes<K: Eq + Hash + Copy>(s: &FxHashSet<K>, other: &FxHashSet<K>) -> (res: bool)
    requires
        obeys_key_model::<K>(),
    ensures
        res == other@.subset_of(s@),
{
    let elements = set_elements(other);
    let mut i: usize = 0;
    while i < elements.len()
        invariant
            obeys_key_model::<K>(),
            enumerates(elements@, other@),
            i <= elements@.len(),
            forall|j: int| 0 <= j < i ==> s@.contains(#[trigger] elements@[j]),
        decreases elements.len() - i,
    {
        if !set_contains(s, &elements[i]) {
            assert(elements@.to_set().contains(elements@[i as int]));
            return false;
        }
        i += 1;
    }
    assert forall|k: K| other@.contains(k) implies s@.contains(k) by {
        assert(elements@.to_set().contains(k));
    }
    true
}

/// The number of elements of a set.
pub fn set_len<K: Copy>(s: &FxHashSet<K>) -> (res: usize)
    requires
        obeys_key_model::<K>(),
    ensures
        res == s@.len(),
{
    let elements = set_elements(s);
    proof {
        elements@.unique_seq_to_set();
    }
    elements.len()
}

/// A prefix grows by one element.
pub proof fn lemma_take_to_set<K>(s: Seq<K>, i: int)
    requires
        0 <= i < s.len(),
    ensures
        s.take(i + 1).to_set() == s.take(i).to_set().insert(s[i]),
{
    let a = s.take(i + 1);
    let b = s.take(i);
    assert(a =~= b.push(s[i]));
    assert forall|x: K| a.to_set().contains(x) <==> b.to_set().insert(s[i]).contains(x) by {
        if a.contains(x) {
            let j = choose|j: int| 0 <= j < a.len() && a[j] == x;
            if j < i {
                assert(b[j] == x);
            }
        }
        if b.contains(x) {
            let j = choose|j: int| 0 <= j < b.len() && b[j] == x;
            assert(a[j] == x);
        }
        if x == s[i] {
            assert(a[i] == x);
        }
    }
    assert(a.to_set() =~= b.to_set().insert(s[i]));
}

} // verus!
