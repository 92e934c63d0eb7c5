//! Canonical encoding: the one byte string that stands for a value, with
//! the entries of every dictionary in key order.

use crate::decode::{COLON, MARK_DICTIONARY, MARK_END, MARK_INTEGER, MARK_LIST};
use crate::numeral::{int_digits, nat_digits, write_decimal, write_integer};
use crate::order::{arrange, key_order, positions, sorted_key_order};
use crate::value::{entries_of, keys_of, trees_of, BencodeTree, BencodeValue};
use vstd::prelude::*;

verus! {

/// A byte string on the wire: its length in decimal, a colon, its bytes.
pub open spec fn encode_bytes(b: Seq<u8>) -> Seq<u8> {
    nat_digits(b.len()) + seq![COLON] + b
}

/// The canonical encoding of a value.
///
/// A list is `l`, the encodings of its items in their order, and `e`. A
/// dictionary is `d`, its entries in key order, each as the key's encoding
/// followed by the value's, and `e`.
pub open spec fn encode_spec(v: BencodeTree) -> Seq<u8>
    decreases v,
{
    match v {
        BencodeTree::Integer(n) => seq![MARK_INTEGER] + int_digits(n as int) + seq![MARK_END],
        BencodeTree::ByteString(b) => encode_bytes(b),
        BencodeTree::List(items) => seq![MARK_LIST] + item_encodings(items).flatten()
            + seq![MARK_END],
        BencodeTree::Dictionary(entries) => seq![MARK_DICTIONARY] + arrange(
            entry_encodings(entries),
            key_order(keys_of(entries)),
        ).flatten() + seq![MARK_END],
    }
}

/// The encoding of each item of a list.
pub open spec fn item_encodings(items: Seq<BencodeTree>) -> Seq<Seq<u8>>
    decreases items,
{
    Seq::new(
        items.len(),
        |i: int|
            if 0 <= i < items.len() {
                encode_spec(items[i])
            } else {
                Seq::empty()
            },
    )
}

/// The encoding of each entry of a dictionary, in the order in which the
/// entries stand.
pub open spec fn entry_encodings(entries: Seq<(Seq<u8>, BencodeTree)>) -> Seq<Seq<u8>>
    decreases entries,
{
    Seq::new(
        entries.len(),
        |i: int|
            if 0 <= i < entries.len() {
                encode_bytes(entries[i].0) + encode_spec(entries[i].1)
            } else {
                Seq::empty()
            },
    )
}

/// Appends the encoding of the byte string `b` to `out`.
pub fn write_bytes(out: &mut Vec<u8>, b: &[u8])
    ensures
        final(out)@ == old(out)@ + encode_bytes(b@),
{
    write_decimal(out, b.len() as u64);
    out.push(COLON);
    out.extend_from_slice(b);
}

/// Appends the canonical encoding of `value` to `out`.
pub fn encode_into(value: &BencodeValue, out: &mut Vec<u8>)
    ensures
        final(out)@ == old(out)@ + encode_spec(value@),
    decreases value, 0int,
{
    match value {
        BencodeValue::Integer(n) => {
            out.push(MARK_INTEGER);
            write_integer(out, *n);
            out.push(MARK_END);
        },
        BencodeValue::ByteString(b) => {
            write_bytes(out, b.as_slice());
        },
        BencodeValue::List(items) => {
            out.push(MARK_LIST);
            encode_items_into(items, out);
            out.push(MARK_END);
        },
        BencodeValue::Dictionary(entries) => {
            out.push(MARK_DICTIONARY);
            encode_entries_into(entries, out);
            out.push(MARK_END);
        },
    }
}

/// Appends the encodings of the items of a list to `out`.
fn encode_items_into(items: &Vec<BencodeValue>, out: &mut Vec<u8>)
    ensures
        final(out)@ == old(out)@ + item_encodings(trees_of(items@)).flatten(),
    decreases items, 1int,
{
    let ghost parts = item_encodings(trees_of(items@));
    let ghost start = out@;
    let mut i: usize = 0;
    assert(parts.take(0) =~= Seq::<Seq<u8>>::empty());
    while i < items.len()
        invariant
            i <= items.len(),
            parts == item_encodings(trees_of(items@)),
            out@ == start + parts.take(i as int).flatten(),
        decreases items.len() - i,
    {
        encode_into(&items[i], out);
        proof {
            assert(parts.take(i + 1) =~= parts.take(i as int).push(parts[i as int]));
            parts.take(i as int).lemma_flatten_push(parts[i as int]);
        }
        i += 1;
    }
    assert(parts.take(i as int) =~= parts);
}

/// Appends the encodings of the entries of a dictionary to `out`, in key
/// order.
fn encode_entries_into(entries: &Vec<(Vec<u8>, BencodeValue)>, out: &mut Vec<u8>)
    ensures
        final(out)@ == old(out)@ + arrange(
            entry_encodings(entries_of(entries@)),
            key_order(keys_of(entries_of(entries@))),
        ).flatten(),
    decreases entries, 1int,
{
    let order = sorted_key_order(entries);
    let ghost parts = arrange(
        entry_encodings(entries_of(entries@)),
        key_order(keys_of(entries_of(entries@))),
    );
    let ghost start = out@;
    let mut j: usize = 0;
    assert(parts.take(0) =~= Seq::<Seq<u8>>::empty());
    while j < order.len()
        invariant
            j <= order.len(),
            order@.len() == entries@.len(),
            forall|j: int| 0 <= j < order@.len() ==> #[trigger] order@[j] < entries@.len(),
            positions(order@) == key_order(keys_of(entries_of(entries@))),
            parts == arrange(
                entry_encodings(entries_of(entries@)),
                key_order(keys_of(entries_of(entries@))),
            ),
            out@ == start + parts.take(j as int).flatten(),
        decreases order.len() - j,
    {
        let at = order[j];
        let ghost before = out@;
        write_bytes(out, entries[at].0.as_slice());
        encode_into(&entries[at].1, out);
        proof {
            assert(positions(order@)[j as int] == at);
            assert(parts[j as int] == encode_bytes(entries@[at as int].0@) + encode_spec(
                entries@[at as int].1@,
            ));
            assert(out@ == before + parts[j as int]);
            assert(parts.take(j + 1) =~= parts.take(j as int).push(parts[j as int]));
            parts.take(j as int).lemma_flatten_push(parts[j as int]);
        }
        j += 1;
    }
    assert(parts.take(j as int) =~= parts);
}

/// The canonical encoding of `value`.
pub fn encode(value: &BencodeValue) -> (out: Vec<u8>)
    ensures
        out@ == encode_spec(value@),
{
    let mut out: Vec<u8> = Vec::new();
    encode_into(value, &mut out);
    out
}

} // verus!
