//! Canonical form: a value whose dictionaries all have their entries in
//! strictly ascending key order.

use crate::encode::{encode_spec, entry_encodings, item_encodings};
use crate::bytes::{bytes_lt, lemma_bytes_lt_asymmetric, lemma_bytes_lt_irreflexive};
use crate::order::{
    arrange, identity_order, key_order, keys_ascending, keys_strictly_ascending,
    lemma_arranged_keys_ascend, lemma_key_order, lemma_key_order_of_ascending,
};
use crate::value::{has_unique_keys, keys_distinct, keys_of, BencodeTree};
use vstd::prelude::*;

verus! {

/// Every dictionary in `v`, at any depth, has its entries in strictly
/// ascending key order.
pub open spec fn is_canonical(v: BencodeTree) -> bool
    decreases v,
{
    match v {
        BencodeTree::Integer(_) => true,
        BencodeTree::ByteString(_) => true,
        BencodeTree::List(items) => forall|i: int|
            0 <= i < items.len() ==> is_canonical(#[trigger] items[i]),
        BencodeTree::Dictionary(entries) => keys_strictly_ascending(keys_of(entries))
            && forall|i: int| 0 <= i < entries.len() ==> is_canonical((#[trigger] entries[i]).1),
    }
}

/// `v` with the entries of every dictionary, at any depth, put in key
/// order. Nothing else changes: a dictionary keeps its keys and what each
/// key stands for.
pub open spec fn canonical(v: BencodeTree) -> BencodeTree
    decreases v,
{
    match v {
        BencodeTree::Integer(n) => v,
        BencodeTree::ByteString(b) => v,
        BencodeTree::List(items) => BencodeTree::List(canonical_items(items)),
        BencodeTree::Dictionary(entries) => BencodeTree::Dictionary(
            arrange(canonical_entries(entries), key_order(keys_of(entries))),
        ),
    }
}

/// The canonical form of each item of a list.
pub open spec fn canonical_items(items: Seq<BencodeTree>) -> Seq<BencodeTree>
    decreases items,
{
    Seq::new(
        items.len(),
        |i: int|
            if 0 <= i < items.len() {
                canonical(items[i])
            } else {
                BencodeTree::Integer(0)
            },
    )
}

/// The entries of a dictionary in the order in which they stand, each
/// value in canonical form.
pub open spec fn canonical_entries(entries: Seq<(Seq<u8>, BencodeTree)>) -> Seq<
    (Seq<u8>, BencodeTree),
>
    decreases entries,
{
    Seq::new(
        entries.len(),
        |i: int|
            if 0 <= i < entries.len() {
                (entries[i].0, canonical(entries[i].1))
            } else {
                (Seq::empty(), BencodeTree::Integer(0))
            },
    )
}

/// `a` and `b` are the same value but for the order in which their
/// dictionaries list their entries.
pub open spec fn same_content(a: BencodeTree, b: BencodeTree) -> bool {
    canonical(a) == canonical(b)
}

/// Keys in strictly ascending order are distinct and ascending.
pub proof fn lemma_strictly_ascending(keys: Seq<Seq<u8>>)
    requires
        keys_strictly_ascending(keys),
    ensures
        keys_distinct(keys),
        keys_ascending(keys),
{
    assert forall|i: int, j: int| 0 <= i < j < keys.len() implies #[trigger] keys[i]
        != #[trigger] keys[j] && !bytes_lt(keys[j], keys[i]) by {
        assert(bytes_lt(keys[i], keys[j]));
        lemma_bytes_lt_irreflexive(keys[i]);
        lemma_bytes_lt_asymmetric(keys[i], keys[j]);
    }
}

/// A canonical value has no key twice.
pub proof fn lemma_canonical_has_unique_keys(v: BencodeTree)
    requires
        is_canonical(v),
    ensures
        has_unique_keys(v),
    decreases v,
{
    match v {
        BencodeTree::List(items) => {
            assert forall|i: int| 0 <= i < items.len() implies has_unique_keys(
                #[trigger] items[i],
            ) by {
                lemma_canonical_has_unique_keys(items[i]);
            }
        },
        BencodeTree::Dictionary(entries) => {
            lemma_strictly_ascending(keys_of(entries));
            assert forall|i: int| 0 <= i < entries.len() implies has_unique_keys(
                (#[trigger] entries[i]).1,
            ) by {
                lemma_canonical_has_unique_keys(entries[i].1);
            }
        },
        _ => {},
    }
}

/// Putting a canonical value in canonical form changes nothing.
pub proof fn lemma_canonical_of_canonical(v: BencodeTree)
    requires
        is_canonical(v),
    ensures
        canonical(v) == v,
    decreases v,
{
    match v {
        BencodeTree::List(items) => {
            assert forall|i: int| 0 <= i < items.len() implies canonical_items(items)[i]
                == items[i] by {
                lemma_canonical_of_canonical(items[i]);
            }
            assert(canonical_items(items) =~= items);
        },
        BencodeTree::Dictionary(entries) => {
            let keys = keys_of(entries);
            lemma_strictly_ascending(keys);
            lemma_key_order_of_ascending(keys, keys.len());
            assert forall|i: int| 0 <= i < entries.len() implies canonical_entries(entries)[i]
                == entries[i] by {
                lemma_canonical_of_canonical(entries[i].1);
            }
            assert(arrange(canonical_entries(entries), key_order(keys)) =~= entries);
        },
        _ => {},
    }
}

/// The canonical form of a value without a key twice is canonical.
pub proof fn lemma_canonical_is_canonical(v: BencodeTree)
    requires
        has_unique_keys(v),
    ensures
        is_canonical(canonical(v)),
    decreases v,
{
    match v {
        BencodeTree::List(items) => {
            let done = canonical_items(items);
            assert forall|i: int| 0 <= i < done.len() implies is_canonical(#[trigger] done[i]) by {
                assert(has_unique_keys(items[i]));
                lemma_canonical_is_canonical(items[i]);
            }
            assert(is_canonical(BencodeTree::List(done)));
        },
        BencodeTree::Dictionary(entries) => {
            let keys = keys_of(entries);
            let order = key_order(keys);
            let sorted = arrange(canonical_entries(entries), order);
            lemma_key_order(keys);
            lemma_arranged_keys_ascend(keys);
            assert(keys_of(sorted) =~= arrange(keys, order));
            assert forall|j: int| 0 <= j < sorted.len() implies is_canonical(
                (#[trigger] sorted[j]).1,
            ) by {
                assert(0 <= order[j] < entries.len());
                lemma_canonical_is_canonical(entries[order[j]].1);
            }
        },
        _ => {},
    }
}

/// Putting a value in canonical form twice is putting it there once: a
/// value without a key twice and its canonical form have the same content.
pub proof fn lemma_canonical_idempotent(v: BencodeTree)
    requires
        has_unique_keys(v),
    ensures
        canonical(canonical(v)) == canonical(v),
        same_content(canonical(v), v),
{
    lemma_canonical_is_canonical(v);
    lemma_canonical_of_canonical(canonical(v));
}

/// A value and its canonical form have the same encoding.
pub proof fn lemma_encode_canonical(v: BencodeTree)
    ensures
        encode_spec(canonical(v)) == encode_spec(v),
    decreases v,
{
    match v {
        BencodeTree::List(items) => {
            assert forall|i: int| 0 <= i < items.len() implies item_encodings(
                canonical_items(items),
            )[i] == item_encodings(items)[i] by {
                lemma_encode_canonical(items[i]);
            }
            assert(item_encodings(canonical_items(items)) =~= item_encodings(items));
        },
        BencodeTree::Dictionary(entries) => {
            let keys = keys_of(entries);
            let order = key_order(keys);
            let sorted = arrange(canonical_entries(entries), order);
            lemma_key_order(keys);
            lemma_arranged_keys_ascend(keys);
            assert(keys_of(sorted) =~= arrange(keys, order));
            lemma_key_order_of_ascending(keys_of(sorted), sorted.len());
            assert(key_order(keys_of(sorted)) == identity_order(sorted.len()));
            assert forall|j: int| 0 <= j < sorted.len() implies entry_encodings(sorted)[j]
                == entry_encodings(entries)[order[j]] by {
                assert(0 <= order[j] < entries.len());
                lemma_encode_canonical(entries[order[j]].1);
            }
            assert(arrange(entry_encodings(sorted), identity_order(sorted.len())) =~= arrange(
                entry_encodings(entries),
                order,
            ));
        },
        _ => {},
    }
}

} // verus!
