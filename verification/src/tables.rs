//! The contents of hash tables as lists. The order of a list is not fixed: it is the order in
//! which the table happens to be walked.

use std::collections::{HashMap, HashSet};

use vstd::prelude::*;

verus! {

broadcast use vstd::std_specs::hash::group_hash_axioms;

/// The members of a set, each once.
pub fn members(set: &HashSet<u128>) -> (list: Vec<u128>)
    ensures
        list@.no_duplicates(),
        list@.to_set() == set@,
{
    let mut list: Vec<u128> = Vec::new();
    for x in it: set.iter()
        invariant
            list@ =~= it.seq().unref().take(it.index()),
            it.index() == it.seq().len() ==> list@ =~= it.seq().unref(),
    {
        list.push(*x);
    }
    list
}

/// The keys of a map, each once.
pub fn keys_of<V>(map: &HashMap<u64, V>) -> (list: Vec<u64>)
    ensures
        list@.no_duplicates(),
        list@.to_set() == map@.dom(),
{
    let mut list: Vec<u64> = Vec::new();
    for k in it: map.keys()
        invariant
            list@ =~= it.seq().unref().take(it.index()),
            it.index() == it.seq().len() ==> list@ =~= it.seq().unref(),
    {
        list.push(*k);
    }
    list
}

/// What the beginning of a list holds, with one more item.
pub proof fn lemma_take_contains<T>(list: Seq<T>, i: int)
    requires
        0 <= i < list.len(),
    ensures
        forall|x: T| #[trigger]
            list.take(i + 1).contains(x) <==> list.take(i).contains(x) || x == list[i],
{
    let a = list.take(i);
    let b = list.take(i + 1);
    assert(b[i] == list[i]);
    assert forall|x: T| #[trigger] b.contains(x) <==> a.contains(x) || x == list[i] by {
        if a.contains(x) {
            let k = choose|k: int| 0 <= k < a.len() && a[k] == x;
            assert(b[k] == x);
        }
        if b.contains(x) && x != list[i] {
            let k = choose|k: int| 0 <= k < b.len() && b[k] == x;
            assert(a[k] == x);
        }
    }
}

} // verus!
