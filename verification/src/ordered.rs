//! Reading a map from positions to values in the order of the positions.

use crate::data_type::FieldIndex;
use std::collections::BTreeMap;
use vstd::prelude::*;
use vstd::std_specs::cmp::OrdSpec;
use vstd::std_specs::iter::IteratorSpec;

verus! {

/// The place of `key` among `keys` in rising order: the number of keys below it.
pub open spec fn rank(keys: Set<FieldIndex>, key: FieldIndex) -> int {
    keys.filter(|other: FieldIndex| other < key).len() as int
}

/// Whether each of `keys` is below all that follow it.
pub open spec fn rising(keys: Seq<FieldIndex>) -> bool {
    forall|i: int, j: int| 0 <= i < j < keys.len() ==> keys[i] < keys[j]
}

/// In a rising sequence a key stands at the place that is its rank among all
/// the keys of the sequence.
pub proof fn lemma_rank_in_rising(keys: Seq<FieldIndex>, all: Set<FieldIndex>, i: int)
    requires
        rising(keys),
        keys.to_set() == all,
        0 <= i < keys.len(),
    ensures
        rank(all, keys[i]) == i,
{
    let below = all.filter(|other: FieldIndex| other < keys[i]);
    let front = keys.subrange(0, i);
    assert(front.no_duplicates());
    assert forall|key: FieldIndex| below.contains(key) <==> front.to_set().contains(key) by {
        if below.contains(key) {
            assert(keys.to_set().contains(key));
            let at = choose|at: int| 0 <= at < keys.len() && keys[at] == key;
            assert(at < i);
            assert(front[at] == key);
        }
        if front.to_set().contains(key) {
            let at = choose|at: int| 0 <= at < front.len() && front[at] == key;
            assert(keys[at] == key);
            assert(keys.to_set().contains(key));
        }
    }
    assert(below =~= front.to_set());
    front.unique_seq_to_set();
}

/// The entries of `map`, by rising key: the entry of a key stands at the
/// place that is the key's rank.
pub fn entries_by_key<V>(map: &BTreeMap<FieldIndex, V>) -> (entries: Vec<(FieldIndex, &V)>)
    ensures
        entries@.len() == map@.dom().len(),
        forall|key: FieldIndex| #[trigger]
            map@.contains_key(key) ==> 0 <= rank(map@.dom(), key) < entries@.len() && entries@[rank(
                map@.dom(),
                key,
            )] == (key, &map@[key]),
        forall|i: int|
            0 <= i < entries@.len() ==> map@.contains_key((#[trigger] entries@[i]).0) && rank(
                map@.dom(),
                entries@[i].0,
            ) == i,
{
    broadcast use vstd::std_specs::btree::group_btree_axioms;
    broadcast use vstd::laws_cmp::group_laws_cmp;

    let mut entries: Vec<(FieldIndex, &V)> = Vec::new();
    let ghost all = map.iter().remaining();
    for entry in it: map.iter()
        invariant
            it.seq() == all,
            entries@.len() == it.index(),
            forall|i: int|
                0 <= i < entries@.len() ==> entries@[i].0 == *all[i].0 && entries@[i].1 == all[i].1,
    {
        let (key, value) = entry;
        entries.push((*key, value));
    }
    proof {
        let keys = all.map_values(|entry: (&FieldIndex, &V)| *entry.0);
        assert(vstd::std_specs::btree::increasing_seq(keys));
        vstd::std_specs::btree::axiom_increasing_seq_meaning(keys);
        assert forall|i: int, j: int| 0 <= i < j < keys.len() implies keys[i] < keys[j] by {
            assert(keys[i].cmp_spec(&keys[j]) is Less);
        }
        assert forall|key: FieldIndex| keys.to_set().contains(key) <==> map@.dom().contains(
            key,
        ) by {
            if keys.to_set().contains(key) {
                let i = choose|i: int| 0 <= i < keys.len() && keys[i] == key;
                assert(map@.contains_key(*all[i].0));
            }
            if map@.dom().contains(key) {
                assert(map@.contains_key(key));
                assert(all.contains((&key, &map@[key])));
                let i = choose|i: int| 0 <= i < all.len() && all[i] == (&key, &map@[key]);
                assert(keys[i] == key);
            }
        }
        assert(keys.to_set() =~= map@.dom());
        assert forall|key: FieldIndex| #[trigger] map@.contains_key(key) implies 0 <= rank(
            map@.dom(),
            key,
        ) < entries@.len() && entries@[rank(map@.dom(), key)] == (key, &map@[key]) by {
            assert(keys.to_set().contains(key));
            let i = choose|i: int| 0 <= i < keys.len() && keys[i] == key;
            lemma_rank_in_rising(keys, map@.dom(), i);
            assert(map@.contains_key(*all[i].0));
        }
        assert forall|i: int| 0 <= i < entries@.len() implies map@.contains_key(
            (#[trigger] entries@[i]).0,
        ) && rank(map@.dom(), entries@[i].0) == i by {
            assert(keys[i] == entries@[i].0);
            assert(map@.contains_key(*all[i].0));
            lemma_rank_in_rising(keys, map@.dom(), i);
        }
    }
    entries
}

} // verus!
