//! The value tree that decoding produces, and its mathematical model.

use vstd::prelude::*;

verus! {

/// A decoded bencode value.
///
/// Byte strings are kept as raw bytes. A dictionary keeps its entries in the
/// order in which they were given; the encoder is what puts them in order.
#[derive(Debug, PartialEq, Eq)]
pub enum BencodeValue {
    Integer(i64),
    ByteString(Vec<u8>),
    List(Vec<BencodeValue>),
    Dictionary(Vec<(Vec<u8>, BencodeValue)>),
}

/// The mathematical model of a [`BencodeValue`].
pub enum BencodeTree {
    Integer(i64),
    ByteString(Seq<u8>),
    List(Seq<BencodeTree>),
    Dictionary(Seq<(Seq<u8>, BencodeTree)>),
}

/// The models of a run of values.
pub open spec fn trees_of(items: Seq<BencodeValue>) -> Seq<BencodeTree>
    decreases items,
{
    Seq::new(
        items.len(),
        |i: int|
            if 0 <= i < items.len() {
                items[i].view()
            } else {
                BencodeTree::Integer(0)
            },
    )
}

/// The models of a run of dictionary entries.
pub open spec fn entries_of(entries: Seq<(Vec<u8>, BencodeValue)>) -> Seq<(Seq<u8>, BencodeTree)>
    decreases entries,
{
    Seq::new(
        entries.len(),
        |i: int|
            if 0 <= i < entries.len() {
                (entries[i].0@, entries[i].1.view())
            } else {
                (Seq::empty(), BencodeTree::Integer(0))
            },
    )
}

/// The keys of a run of dictionary entries, in their order.
pub open spec fn keys_of(entries: Seq<(Seq<u8>, BencodeTree)>) -> Seq<Seq<u8>> {
    Seq::new(entries.len(), |i: int| entries[i].0)
}

/// No key occurs twice.
pub open spec fn keys_distinct(keys: Seq<Seq<u8>>) -> bool {
    forall|i: int, j: int| 0 <= i < j < keys.len() ==> #[trigger] keys[i] != #[trigger] keys[j]
}

/// No dictionary in `v`, at any depth, holds a key twice.
pub open spec fn has_unique_keys(v: BencodeTree) -> bool
    decreases v,
{
    match v {
        BencodeTree::Integer(_) => true,
        BencodeTree::ByteString(_) => true,
        BencodeTree::List(items) => forall|i: int|
            0 <= i < items.len() ==> has_unique_keys(#[trigger] items[i]),
        BencodeTree::Dictionary(entries) => keys_distinct(keys_of(entries)) && forall|i: int|
            0 <= i < entries.len() ==> has_unique_keys((#[trigger] entries[i]).1),
    }
}

impl View for BencodeValue {
    type V = BencodeTree;

    open spec fn view(&self) -> BencodeTree
        decreases self,
    {
        match self {
            BencodeValue::Integer(n) => BencodeTree::Integer(*n),
            BencodeValue::ByteString(b) => BencodeTree::ByteString(b@),
            BencodeValue::List(items) => BencodeTree::List(trees_of(items@)),
            BencodeValue::Dictionary(entries) => BencodeTree::Dictionary(entries_of(entries@)),
        }
    }
}

} // verus!
