//! Sorting.

use vstd::prelude::*;

verus! {

/// A list in ascending order.
pub open spec fn is_ascending(s: Seq<u128>) -> bool {
    forall|i: int, j: int| 0 <= i < j < s.len() ==> s[i] <= s[j]
}

/// Sorts a list with `slice::sort`, which puts the items of a slice in ascending order and keeps
/// every item.
#[verifier::external_body]
pub(crate) fn sort_ascending(v: &mut Vec<u128>)
    ensures
        is_ascending(final(v)@),
        final(v)@.to_multiset() == old(v)@.to_multiset(),
{
    v.sort();
}

/// Which items come first when a list is ordered from the largest key to the smallest, and items
/// with the same key keep their order.
pub open spec fn is_descending_order(order: Seq<usize>, keys: Seq<i32>) -> bool {
    &&& order.len() == keys.len()
    &&& order.no_duplicates()
    &&& forall|a: int| 0 <= a < order.len() ==> #[trigger] order[a] < keys.len()
    &&& forall|a: int, b: int|
        0 <= a < b < order.len() ==> comes_first(keys, #[trigger] order[a], #[trigger] order[b])
}

/// Item `i` comes before item `j`.
pub open spec fn comes_first(keys: Seq<i32>, i: usize, j: usize) -> bool {
    keys[i as int] > keys[j as int] || keys[i as int] == keys[j as int] && i < j
}

/// A key and a place as one number: the larger the key, the smaller the number; of equal keys the
/// first place has the smallest.
spec fn rank(keys: Seq<i32>, i: int) -> int {
    (0x7fff_ffff - keys[i]) * 0x1_0000_0000_0000_0000 + i
}

proof fn lemma_same_items(a: Seq<u128>, b: Seq<u128>)
    requires
        a.to_multiset() == b.to_multiset(),
        b.no_duplicates(),
    ensures
        a.len() == b.len(),
        a.no_duplicates(),
        forall|i: int| 0 <= i < a.len() ==> b.contains(#[trigger] a[i]),
{
    broadcast use vstd::seq_lib::group_to_multiset_ensures;

    a.to_multiset_ensures();
    b.to_multiset_ensures();
    b.lemma_multiset_has_no_duplicates();
    a.lemma_multiset_has_no_duplicates_conv();
    assert forall|i: int| 0 <= i < a.len() implies b.contains(#[trigger] a[i]) by {
        assert(a.contains(a[i]));
        assert(a.to_multiset().count(a[i]) > 0);
    }
}

/// The order of a list from the largest key to the smallest.
pub fn descending_order(keys: &Vec<i32>) -> (order: Vec<usize>)
    ensures
        is_descending_order(order@, keys@),
{
    let mut ranks: Vec<u128> = Vec::new();
    let n: usize = keys.len();
    let mut i: usize = 0;
    while i < n
        invariant
            i <= n,
            n == keys@.len(),
            ranks@.len() == i,
            forall|k: int| 0 <= k < i ==> #[trigger] ranks@[k] == rank(keys@, k),
        decreases n - i,
    {
        let lead: u128 = (0x7fff_ffffi64 - keys[i] as i64) as u128;
        ranks.push(lead * 0x1_0000_0000_0000_0000 + i as u128);
        i += 1;
    }
    let ghost unsorted = ranks@;
    sort_ascending(&mut ranks);
    proof {
        assert forall|a: int, b: int|
            0 <= a < n && 0 <= b < n && a != b implies unsorted[a] != unsorted[b] by {
            assert(unsorted[a] == rank(keys@, a));
            assert(unsorted[b] == rank(keys@, b));
        }
        lemma_same_items(ranks@, unsorted);
    }
    let mut order: Vec<usize> = Vec::new();
    let mut j: usize = 0;
    while j < n
        invariant
            j <= n,
            n == keys@.len(),
            ranks@.len() == n,
            unsorted.len() == n,
            forall|k: int| 0 <= k < n ==> #[trigger] unsorted[k] == rank(keys@, k),
            forall|k: int| 0 <= k < n ==> unsorted.contains(#[trigger] ranks@[k]),
            order@.len() == j,
            forall|k: int| 0 <= k < j ==> (#[trigger] order@[k]) < n,
            forall|k: int| 0 <= k < j ==> ranks@[k] == rank(keys@, #[trigger] order@[k] as int),
        decreases n - j,
    {
        assert(unsorted.contains(ranks@[j as int]));
        let ghost at = choose|k: int| 0 <= k < n && unsorted[k] == ranks@[j as int];
        assert(unsorted[at] == rank(keys@, at));
        assert(ranks@[j as int] % 0x1_0000_0000_0000_0000 == at);
        order.push((ranks[j] % 0x1_0000_0000_0000_0000) as usize);
        j += 1;
    }
    proof {
        assert forall|a: int, b: int| 0 <= a < b < order@.len() implies comes_first(
            keys@,
            #[trigger] order@[a],
            #[trigger] order@[b],
        ) by {
            assert(ranks@[a] <= ranks@[b]);
            assert(ranks@[a] != ranks@[b]);
        }
    }
    order
}

/// A list in strictly ascending order.
pub open spec fn is_rising(s: Seq<u128>) -> bool {
    forall|i: int, j: int| 0 <= i < j < s.len() ==> s[i] < s[j]
}

/// The items of a list in ascending order, each once.
pub fn ascending_set(mut items: Vec<u128>) -> (out: Vec<u128>)
    ensures
        is_rising(out@),
        forall|x: u128| #[trigger] out@.contains(x) <==> items@.contains(x),
{
    let ghost given = items@;
    sort_ascending(&mut items);
    proof {
        broadcast use vstd::seq_lib::group_to_multiset_ensures;

        given.to_multiset_ensures();
        items@.to_multiset_ensures();
        assert forall|x: u128| #[trigger] items@.contains(x) <==> given.contains(x) by {
            assert(items@.contains(x) <==> items@.to_multiset().count(x) > 0);
            assert(given.contains(x) <==> given.to_multiset().count(x) > 0);
        }
    }
    let ghost sorted = items@;
    let mut out: Vec<u128> = Vec::new();
    let mut i: usize = 0;
    while i < items.len()
        invariant
            i <= items@.len(),
            items@ == sorted,
            is_ascending(items@),
            is_rising(out@),
            out@.len() > 0 <==> i > 0,
            i > 0 ==> out@.last() == items@[i - 1],
            forall|x: u128| #[trigger] out@.contains(x) <==> items@.take(i as int).contains(x),
        decreases items@.len() - i,
    {
        let x: u128 = items[i];
        let ghost before = out@;
        proof {
            crate::tables::lemma_take_contains(items@, i as int);
        }
        let n: usize = out.len();
        if n == 0 || out[n - 1] != x {
            out.push(x);
            proof {
                assert forall|y: u128| #[trigger] out@.contains(y) <==> before.contains(y) || y
                    == x by {
                    assert(out@[n as int] == x);
                    if before.contains(y) {
                        let k = choose|k: int| 0 <= k < before.len() && before[k] == y;
                        assert(out@[k] == y);
                    }
                    if out@.contains(y) && y != x {
                        let k = choose|k: int| 0 <= k < out@.len() && out@[k] == y;
                        assert(before[k] == y);
                    }
                }
            }
        } else {
            assert(before.contains(x)) by {
                assert(before[n - 1] == x);
            }
        }
        i += 1;
    }
    assert(items@.take(i as int) =~= items@);
    out
}

/// Larger keys come first, and items with the same key keep their order; every item is named once.
pub proof fn law_equal_keys_keep_their_order(order: Seq<usize>, keys: Seq<i32>, a: int, b: int)
    requires
        is_descending_order(order, keys),
        0 <= a < b < order.len(),
    ensures
        keys[order[a] as int] >= keys[order[b] as int],
        keys[order[a] as int] == keys[order[b] as int] ==> order[a] < order[b],
        order[a] != order[b],
{
}

} // verus!
