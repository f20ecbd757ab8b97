//! Maps by register number, walked in ascending order of the numbers.

use std::collections::BTreeMap;
use std::collections::HashMap;
use vstd::prelude::*;
use vstd::std_specs::cmp::OrdSpec;
use vstd::std_specs::iter::IteratorSpec;

verus! {

/// Whether each number of the sequence is below the next.
pub open spec fn ascending(keys: Seq<u16>) -> bool {
    forall|i: int, j: int| 0 <= i < j < keys.len() ==> keys[i] < keys[j]
}

/// Whether `keys` lists the keys of a map with domain `domain`, each once,
/// in ascending order.
pub open spec fn lists_keys(keys: Seq<u16>, domain: Set<u16>) -> bool {
    &&& ascending(keys)
    &&& forall|i: int| 0 <= i < keys.len() ==> domain.contains(#[trigger] keys[i])
    &&& forall|key: u16| domain.contains(key) ==> keys.contains(key)
}

/// The keys of a map, in ascending order.
pub fn ascending_keys<V>(map: &BTreeMap<u16, V>) -> (keys: Vec<u16>)
    ensures
        lists_keys(keys@, map@.dom()),
{
    let mut keys: Vec<u16> = Vec::new();
    let iter = map.iter();
    let ghost entries = iter.remaining();
    proof {
        vstd::std_specs::btree::axiom_spec_btree_map_iter(map);
        vstd::std_specs::btree::axiom_increasing_seq_meaning(
            entries.map_values(|entry: (&u16, &V)| *entry.0),
        );
    }
    for entry in it: iter
        invariant
            it.seq() == entries,
            keys@.len() == it.index(),
            forall|i: int| 0 <= i < keys@.len() ==> keys@[i] == *(#[trigger] entries[i]).0,
    {
        keys.push(*entry.0);
    }
    proof {
        let numbers = entries.map_values(|entry: (&u16, &V)| *entry.0);
        assert forall|i: int, j: int| 0 <= i < j < keys@.len() implies keys@[i] < keys@[j] by {
            assert(numbers[i].cmp_spec(&numbers[j]) is Less);
        }
        assert forall|i: int| 0 <= i < keys@.len() implies map@.dom().contains(
            #[trigger] keys@[i],
        ) by {
            assert(map@.contains_key(*entries[i].0));
        }
    }
    keys
}

/// Whether `entries` lists the entries of `map`, each key once, in some
/// order.
pub open spec fn lists_entries(entries: Seq<(u16, u8)>, map: Map<u16, u8>) -> bool {
    &&& forall|i: int|
        0 <= i < entries.len() ==> map.contains_key((#[trigger] entries[i]).0) && map[entries[i].0]
            == entries[i].1
    &&& forall|i: int, j: int| 0 <= i < j < entries.len() ==> entries[i].0 != entries[j].0
    &&& forall|key: u16|
        map.contains_key(key) ==> exists|i: int| 0 <= i < entries.len() && entries[i].0 == key
}

/// The entries of a map, in the order in which the map hands them out.
pub fn entries_of(map: &HashMap<u16, u8>) -> (entries: Vec<(u16, u8)>)
    ensures
        lists_entries(entries@, map@),
{
    let mut entries: Vec<(u16, u8)> = Vec::new();
    let iter = map.iter();
    let ghost all = iter.remaining();
    proof {
        vstd::std_specs::hash::axiom_spec_hash_map_iter(map);
    }
    for entry in it: iter
        invariant
            it.seq() == all,
            entries@.len() == it.index(),
            forall|i: int|
                0 <= i < entries@.len() ==> entries@[i] == (
                    *(#[trigger] all[i]).0,
                    *all[i].1,
                ),
    {
        entries.push((*entry.0, *entry.1));
    }
    proof {
        assert forall|i: int| 0 <= i < entries@.len() implies map@.contains_key(
            (#[trigger] entries@[i]).0,
        ) && map@[entries@[i].0] == entries@[i].1 by {
            assert(map@.contains_key(*all[i].0));
        }
        assert forall|i: int, j: int| 0 <= i < j < entries@.len() implies entries@[i].0
            != entries@[j].0 by {
            assert(map@.contains_key(*all[i].0));
            assert(map@.contains_key(*all[j].0));
        }
    }
    entries
}

} // verus!
