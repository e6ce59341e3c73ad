//! The keys of maps and sets as vectors, so that loops can change the map they walk.

use std::collections::{BTreeMap, BTreeSet, HashMap};
use vstd::prelude::*;

verus! {

broadcast use {
    vstd::std_specs::hash::group_hash_axioms,
    vstd::std_specs::btree::group_btree_axioms,
};

/// Whether `keys` lists `set`, each member once.
pub open spec fn lists<K>(keys: Seq<K>, set: Set<K>) -> bool {
    &&& keys.no_duplicates()
    &&& keys.to_set() == set
}

/// What the next key adds to those that a loop has passed.
pub proof fn lemma_listed<K>(keys: Seq<K>, dom: Set<K>, i: int)
    requires
        lists(keys, dom),
        0 <= i < keys.len(),
    ensures
        dom.contains(keys[i]),
        !keys.take(i).contains(keys[i]),
        forall|k: K| #[trigger]
            keys.take(i + 1).contains(k) <==> keys.take(i).contains(k) || k == keys[i],
{
    assert(keys.to_set().contains(keys[i]));
    let longer = keys.take(i + 1);
    assert(longer =~= keys.take(i).push(keys[i]));
    assert forall|k: K| #[trigger] longer.contains(k) <==> keys.take(i).contains(k) || k
        == keys[i] by {
        assert(longer[i] == keys[i]);
        if keys.take(i).contains(k) {
            let at = choose|at: int| 0 <= at < i && #[trigger] keys.take(i)[at] == k;
            assert(longer[at] == k);
        }
    }
}

/// The keys of a hash map, in some order.
pub fn hash_map_keys<V>(m: &HashMap<u64, V>) -> (keys: Vec<u64>)
    ensures
        lists(keys@, m@.dom()),
{
    let mut keys: Vec<u64> = Vec::new();
    for k in it: m.keys()
        invariant
            it.seq().unref().to_set() == m@.dom(),
            it.seq().no_duplicates(),
            keys@ == it.seq().unref().take(it.index() as int),
            keys@.no_duplicates(),
            it.index() == it.seq().len() ==> keys@ =~= it.seq().unref(),
    {
        assert(forall|i: int| 0 <= i < keys@.len() ==> keys@[i] == *it.seq()[i]);
        keys.push(*k);
    }
    keys
}

/// The keys of a hash map with wide keys, in some order.
pub fn wide_hash_map_keys<V>(m: &HashMap<u128, V>) -> (keys: Vec<u128>)
    ensures
        lists(keys@, m@.dom()),
{
    let mut keys: Vec<u128> = Vec::new();
    for k in it: m.keys()
        invariant
            it.seq().unref().to_set() == m@.dom(),
            it.seq().no_duplicates(),
            keys@ == it.seq().unref().take(it.index() as int),
            keys@.no_duplicates(),
            it.index() == it.seq().len() ==> keys@ =~= it.seq().unref(),
    {
        assert(forall|i: int| 0 <= i < keys@.len() ==> keys@[i] == *it.seq()[i]);
        keys.push(*k);
    }
    keys
}

/// The keys of a B-tree map.
pub fn btree_map_keys<V>(m: &BTreeMap<u64, V>) -> (keys: Vec<u64>)
    ensures
        lists(keys@, m@.dom()),
{
    let mut keys: Vec<u64> = Vec::new();
    for k in it: m.keys()
        invariant
            it.seq().unref().to_set() == m@.dom(),
            it.seq().no_duplicates(),
            keys@ == it.seq().unref().take(it.index() as int),
            keys@.no_duplicates(),
            it.index() == it.seq().len() ==> keys@ =~= it.seq().unref(),
    {
        assert(forall|i: int| 0 <= i < keys@.len() ==> keys@[i] == *it.seq()[i]);
        keys.push(*k);
    }
    keys
}

/// The members of a B-tree set.
pub fn btree_set_keys(m: &BTreeSet<u64>) -> (keys: Vec<u64>)
    ensures
        lists(keys@, m@),
{
    let mut keys: Vec<u64> = Vec::new();
    for k in it: m.iter()
        invariant
            it.seq().unref().to_set() == m@,
            it.seq().no_duplicates(),
            keys@ == it.seq().unref().take(it.index() as int),
            keys@.no_duplicates(),
            it.index() == it.seq().len() ==> keys@ =~= it.seq().unref(),
    {
        assert(forall|i: int| 0 <= i < keys@.len() ==> keys@[i] == *it.seq()[i]);
        keys.push(*k);
    }
    keys
}

} // verus!
