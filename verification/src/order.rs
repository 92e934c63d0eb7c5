//! The order in which a dictionary's entries are written: ascending by key,
//! keys compared as raw bytes.

use crate::bytes::{
    bytes_less, bytes_lt, lemma_bytes_le_transitive, lemma_bytes_lt_asymmetric,
    lemma_bytes_lt_connected, lemma_bytes_lt_irreflexive,
};
use crate::value::{entries_of, keys_distinct, keys_of, BencodeValue};
use vstd::prelude::*;

verus! {

/// The entry at position `a` is written before the one at position `b`:
/// its key is smaller, or the keys are equal and it stands first.
pub open spec fn comes_before(keys: Seq<Seq<u8>>, a: int, b: int) -> bool {
    bytes_lt(keys[a], keys[b]) || (keys[a] == keys[b] && a < b)
}

/// `order` lists each of the first `n` positions of `keys` once, ascending
/// by key, positions with equal keys in their own order.
pub open spec fn is_key_order_upto(keys: Seq<Seq<u8>>, order: Seq<int>, n: int) -> bool {
    &&& order.len() == n
    &&& forall|j: int| 0 <= j < order.len() ==> 0 <= #[trigger] order[j] < n
    &&& forall|i: int| 0 <= i < n ==> order.contains(i)
    &&& forall|j: int, k: int|
        0 <= j < k < order.len() ==> comes_before(keys, #[trigger] order[j], #[trigger] order[k])
}

/// `order` lists each position of `keys` once, ascending by key, positions
/// with equal keys in their own order.
pub open spec fn is_key_order(keys: Seq<Seq<u8>>, order: Seq<int>) -> bool {
    is_key_order_upto(keys, order, keys.len() as int)
}

/// Where position `k` goes among the positions in `sorted`: behind the last
/// one whose key is not greater than that of `k`.
pub open spec fn insert_position(keys: Seq<Seq<u8>>, sorted: Seq<int>, k: int) -> int
    decreases sorted.len(),
{
    if sorted.len() == 0 || !bytes_lt(keys[k], keys[sorted.last()]) {
        sorted.len() as int
    } else {
        insert_position(keys, sorted.drop_last(), k)
    }
}

/// The first `n` positions of `keys`, in the order of their keys.
pub open spec fn key_order_upto(keys: Seq<Seq<u8>>, n: nat) -> Seq<int>
    decreases n,
{
    if n == 0 {
        Seq::empty()
    } else {
        let sorted = key_order_upto(keys, (n - 1) as nat);
        sorted.insert(insert_position(keys, sorted, n - 1), n - 1)
    }
}

/// The positions of `keys` in the order of their keys. [`lemma_key_order`]
/// says what that order is.
pub open spec fn key_order(keys: Seq<Seq<u8>>) -> Seq<int> {
    key_order_upto(keys, keys.len())
}

/// `parts`, taken in the order that `order` gives.
pub open spec fn arrange<T>(parts: Seq<T>, order: Seq<int>) -> Seq<T> {
    Seq::new(order.len(), |j: int| parts[order[j]])
}

/// The positions `0`, `1`, up to `n - 1`.
pub open spec fn identity_order(n: nat) -> Seq<int> {
    Seq::new(n, |i: int| i)
}

/// Every key stands at or after the ones before it.
pub open spec fn keys_ascending(keys: Seq<Seq<u8>>) -> bool {
    forall|i: int, j: int| 0 <= i < j < keys.len() ==> !bytes_lt(#[trigger] keys[j], #[trigger] keys[i])
}

/// Every key stands strictly after the ones before it.
pub open spec fn keys_strictly_ascending(keys: Seq<Seq<u8>>) -> bool {
    forall|i: int, j: int| 0 <= i < j < keys.len() ==> bytes_lt(#[trigger] keys[i], #[trigger] keys[j])
}

/// The position that [`insert_position`] gives separates the keys that are
/// not greater from those that are.
pub proof fn lemma_insert_position(keys: Seq<Seq<u8>>, sorted: Seq<int>, k: int)
    ensures
        0 <= insert_position(keys, sorted, k) <= sorted.len(),
        forall|j: int|
            insert_position(keys, sorted, k) <= j < sorted.len() ==> bytes_lt(
                keys[k],
                keys[#[trigger] sorted[j]],
            ),
        insert_position(keys, sorted, k) > 0 ==> !bytes_lt(
            keys[k],
            keys[sorted[insert_position(keys, sorted, k) - 1]],
        ),
    decreases sorted.len(),
{
    if sorted.len() == 0 || !bytes_lt(keys[k], keys[sorted.last()]) {
    } else {
        let front = sorted.drop_last();
        lemma_insert_position(keys, front, k);
        assert forall|j: int| insert_position(keys, sorted, k) <= j < sorted.len() implies bytes_lt(
            keys[k],
            keys[#[trigger] sorted[j]],
        ) by {
            if j < front.len() {
                assert(front[j] == sorted[j]);
            }
        }
        if insert_position(keys, sorted, k) > 0 {
            assert(front[insert_position(keys, sorted, k) - 1] == sorted[insert_position(
                keys,
                sorted,
                k,
            ) - 1]);
        }
    }
}

/// [`key_order_upto`] is the order that [`is_key_order_upto`] describes.
pub proof fn lemma_key_order_upto(keys: Seq<Seq<u8>>, n: nat)
    requires
        n <= keys.len(),
    ensures
        is_key_order_upto(keys, key_order_upto(keys, n), n as int),
    decreases n,
{
    if n > 0 {
        let k = n - 1;
        let sorted = key_order_upto(keys, k as nat);
        let p = insert_position(keys, sorted, k);
        let order = key_order_upto(keys, n);
        lemma_key_order_upto(keys, k as nat);
        lemma_insert_position(keys, sorted, k);
        assert(order == sorted.insert(p, k));
        assert forall|i: int| 0 <= i < n implies order.contains(i) by {
            if i == k {
                assert(order[p] == k);
            } else {
                assert(sorted.contains(i));
                let j = choose|j: int| 0 <= j < sorted.len() && sorted[j] == i;
                if j < p {
                    assert(order[j] == i);
                } else {
                    assert(order[j + 1] == i);
                }
            }
        }
        assert forall|a: int, b: int| 0 <= a < b < order.len() implies comes_before(
            keys,
            #[trigger] order[a],
            #[trigger] order[b],
        ) by {
            if b < p {
                assert(comes_before(keys, sorted[a], sorted[b]));
            } else if b == p {
                let last = sorted[p - 1];
                assert(0 <= sorted[a] < k);
                if a < p - 1 {
                    assert(comes_before(keys, sorted[a], sorted[p - 1]));
                    if bytes_lt(keys[sorted[a]], keys[last]) {
                        lemma_bytes_lt_asymmetric(keys[sorted[a]], keys[last]);
                    } else {
                        lemma_bytes_lt_irreflexive(keys[last]);
                    }
                } else {
                    lemma_bytes_lt_irreflexive(keys[last]);
                }
                lemma_bytes_lt_connected(keys[sorted[a]], keys[last]);
                if sorted[a] != last {
                    lemma_bytes_le_transitive(keys[sorted[a]], keys[last], keys[k]);
                }
                lemma_bytes_lt_connected(keys[sorted[a]], keys[k]);
            } else if a < p {
                assert(comes_before(keys, sorted[a], sorted[b - 1]));
            } else if a == p {
                assert(bytes_lt(keys[k], keys[sorted[b - 1]]));
            } else {
                assert(comes_before(keys, sorted[a - 1], sorted[b - 1]));
            }
        }
    }
}

/// The order in which entries are written lists each position once,
/// ascending by key, and leaves entries with equal keys in their own order.
pub proof fn lemma_key_order(keys: Seq<Seq<u8>>)
    ensures
        is_key_order(keys, key_order(keys)),
{
    lemma_key_order_upto(keys, keys.len());
}

/// Keys that already ascend are left in place.
pub proof fn lemma_key_order_of_ascending(keys: Seq<Seq<u8>>, n: nat)
    requires
        keys_ascending(keys),
        n <= keys.len(),
    ensures
        key_order_upto(keys, n) == identity_order(n),
    decreases n,
{
    if n > 0 {
        lemma_key_order_of_ascending(keys, (n - 1) as nat);
        let sorted = identity_order((n - 1) as nat);
        if n > 1 {
            assert(sorted.last() == n - 2);
            assert(!bytes_lt(keys[n - 1], keys[n - 2]));
        }
        assert(insert_position(keys, sorted, n - 1) == n - 1);
        assert(sorted.insert(n - 1, n - 1) =~= identity_order(n));
    }
}

/// Arranged in key order, the keys ascend; strictly, if no key occurs
/// twice.
pub proof fn lemma_arranged_keys_ascend(keys: Seq<Seq<u8>>)
    ensures
        keys_ascending(arrange(keys, key_order(keys))),
        keys_distinct(keys) ==> keys_strictly_ascending(arrange(keys, key_order(keys))),
{
    let order = key_order(keys);
    let sorted = arrange(keys, order);
    lemma_key_order(keys);
    assert forall|i: int, j: int| 0 <= i < j < sorted.len() implies !bytes_lt(
        #[trigger] sorted[j],
        #[trigger] sorted[i],
    ) by {
        assert(comes_before(keys, order[i], order[j]));
        if bytes_lt(keys[order[i]], keys[order[j]]) {
            lemma_bytes_lt_asymmetric(keys[order[i]], keys[order[j]]);
        } else {
            lemma_bytes_lt_irreflexive(keys[order[i]]);
        }
    }
    if keys_distinct(keys) {
        assert forall|i: int, j: int| 0 <= i < j < sorted.len() implies bytes_lt(
            #[trigger] sorted[i],
            #[trigger] sorted[j],
        ) by {
            assert(comes_before(keys, order[i], order[j]));
            let a = order[i];
            let b = order[j];
            if a < b {
                assert(keys[a] != keys[b]);
            } else if b < a {
                assert(keys[b] != keys[a]);
            }
        }
    }
}

/// The positions that a vector of indices holds.
pub open spec fn positions(order: Seq<usize>) -> Seq<int> {
    Seq::new(order.len(), |j: int| order[j] as int)
}

/// Computes the order in which the entries of a dictionary are written.
pub fn sorted_key_order(entries: &Vec<(Vec<u8>, BencodeValue)>) -> (order: Vec<usize>)
    ensures
        positions(order@) == key_order(keys_of(entries_of(entries@))),
        order@.len() == entries@.len(),
        forall|j: int| 0 <= j < order@.len() ==> #[trigger] order@[j] < entries@.len(),
{
    let ghost keys = keys_of(entries_of(entries@));
    let mut order: Vec<usize> = Vec::new();
    let mut k: usize = 0;
    assert(positions(order@) =~= key_order_upto(keys, 0));
    while k < entries.len()
        invariant
            k <= entries.len(),
            keys == keys_of(entries_of(entries@)),
            order@.len() == k,
            positions(order@) == key_order_upto(keys, k as nat),
            forall|j: int| 0 <= j < order@.len() ==> #[trigger] order@[j] < k,
        decreases entries.len() - k,
    {
        let ghost sorted = positions(order@);
        let mut p: usize = order.len();
        assert(sorted.take(p as int) =~= sorted);
        while p > 0 && bytes_less(entries[k].0.as_slice(), entries[order[p - 1]].0.as_slice())
            invariant
                p <= order@.len(),
                k < entries.len(),
                keys == keys_of(entries_of(entries@)),
                sorted == positions(order@),
                forall|j: int| 0 <= j < order@.len() ==> #[trigger] order@[j] < k,
                insert_position(keys, sorted, k as int) == insert_position(
                    keys,
                    sorted.take(p as int),
                    k as int,
                ),
            decreases p,
        {
            proof {
                assert(sorted.take(p as int).last() == order@[p - 1]);
                assert(sorted.take(p as int).drop_last() =~= sorted.take(p - 1));
            }
            p -= 1;
        }
        proof {
            if p > 0 {
                assert(sorted.take(p as int).last() == order@[p - 1]);
            }
            assert(insert_position(keys, sorted, k as int) == p);
        }
        order.insert(p, k);
        proof {
            assert(positions(order@) =~= sorted.insert(p as int, k as int));
        }
        k += 1;
    }
    order
}

} // verus!
