//! What projection and hashing do not depend on: the order in which a
//! dictionary lists its entries.

use crate::bytes::{bytes_lt, lemma_bytes_lt_asymmetric, lemma_bytes_lt_at_first_difference};
use crate::canonical::{canonical, canonical_entries, same_content};
use crate::decode::{decode_spec, lemma_parsed_has_unique_keys, MARK_DICTIONARY, MARK_END};
use crate::encode::{encode_bytes, encode_spec, entry_encodings};
use crate::metadata::{
    bytes_field, count_field, encode_count, field, info_encoding, info_hash_spec, info_tree,
    key_announce, key_info, key_length, key_name, key_piece_length, key_pieces, lookup,
    project_info_spec, project_spec, text_field, InfoDictView,
};
use crate::order::{
    arrange, identity_order, key_order, keys_ascending, lemma_key_order,
    lemma_key_order_of_ascending,
};
use crate::value::{has_unique_keys, keys_distinct, keys_of, BencodeTree};
use vstd::prelude::*;
use vstd::utf8::encode_utf8;

verus! {

/// Putting the entries of a dictionary in key order changes no lookup: a
/// key is found if it was found before, with the canonical form of the same
/// value.
pub proof fn lemma_lookup_canonical(entries: Seq<(Seq<u8>, BencodeTree)>, key: Seq<u8>)
    requires
        keys_distinct(keys_of(entries)),
    ensures
        lookup(arrange(canonical_entries(entries), key_order(keys_of(entries))), key) == match lookup(
            entries,
            key,
        ) {
            Some(v) => Some(canonical(v)),
            None => None,
        },
{
    let keys = keys_of(entries);
    let order = key_order(keys);
    let sorted = arrange(canonical_entries(entries), order);
    let sorted_keys = keys_of(sorted);
    lemma_key_order(keys);
    keys.index_of_first_ensures(key);
    sorted_keys.index_of_first_ensures(key);
    assert forall|j: int| 0 <= j < sorted.len() implies sorted_keys[j] == keys[order[j]]
        && sorted[j].1 == canonical(entries[order[j]].1) by {
        assert(0 <= order[j] < entries.len());
    }
    if keys.contains(key) {
        let i = keys.index_of_first(key).unwrap();
        assert(order.contains(i));
        let j = choose|j: int| 0 <= j < order.len() && order[j] == i;
        assert(sorted_keys[j] == key);
        assert(sorted_keys.contains(key));
        let found = sorted_keys.index_of_first(key).unwrap();
        assert(keys[order[found]] == keys[i]);
        assert(0 <= order[found] < entries.len());
        if order[found] < i {
            assert(keys[order[found]] != keys[i]);
        } else if i < order[found] {
            assert(keys[i] != keys[order[found]]);
        }
    } else {
        if sorted_keys.contains(key) {
            let j = choose|j: int| 0 <= j < sorted_keys.len() && sorted_keys[j] == key;
            assert(0 <= order[j] < entries.len());
            assert(keys[order[j]] == key);
            assert(keys.contains(key));
        }
    }
}

/// The canonical form of a value has the same fields, each in canonical
/// form.
pub proof fn lemma_field_canonical(v: BencodeTree, key: Seq<u8>)
    requires
        has_unique_keys(v),
    ensures
        field(canonical(v), key) == match field(v, key) {
            Some(found) => Some(canonical(found)),
            None => None,
        },
        field(v, key) matches Some(found) ==> has_unique_keys(found),
        text_field(canonical(v), key) == text_field(v, key),
        count_field(canonical(v), key) == count_field(v, key),
        bytes_field(canonical(v), key) == bytes_field(v, key),
{
    if let BencodeTree::Dictionary(entries) = v {
        lemma_lookup_canonical(entries, key);
        keys_of(entries).index_of_first_ensures(key);
    }
}

/// The `info` part that a dictionary stands for does not depend on the
/// order of its entries.
pub proof fn lemma_project_info_canonical(v: BencodeTree)
    requires
        has_unique_keys(v),
    ensures
        project_info_spec(canonical(v)) == project_info_spec(v),
{
    lemma_field_canonical(v, key_name());
    lemma_field_canonical(v, key_length());
    lemma_field_canonical(v, key_piece_length());
    lemma_field_canonical(v, key_pieces());
}

/// The metadata that a value stands for does not depend on the order of
/// the entries of its dictionaries.
pub proof fn lemma_project_canonical(v: BencodeTree)
    requires
        has_unique_keys(v),
    ensures
        project_spec(canonical(v)) == project_spec(v),
{
    lemma_field_canonical(v, key_announce());
    lemma_field_canonical(v, key_info());
    if let Some(BencodeTree::Dictionary(entries)) = field(v, key_info()) {
        lemma_project_info_canonical(BencodeTree::Dictionary(entries));
    }
}

/// Two values that differ only in the order in which their dictionaries
/// list their entries stand for the same metadata, and so for the same info
/// hash.
pub proof fn lemma_project_ignores_key_order(a: BencodeTree, b: BencodeTree)
    requires
        has_unique_keys(a),
        has_unique_keys(b),
        same_content(a, b),
    ensures
        project_spec(a) == project_spec(b),
        project_spec(a) matches Ok(first) ==> project_spec(b) matches Ok(second)
            && info_hash_spec(first.info) == info_hash_spec(second.info),
{
    lemma_project_canonical(a);
    lemma_project_canonical(b);
}

/// Two inputs that decode to values which differ only in the order of
/// their dictionaries' entries stand for the same metadata and the same
/// info hash.
pub proof fn lemma_decoded_project_ignores_key_order(first: Seq<u8>, second: Seq<u8>)
    requires
        decode_spec(first) is Ok,
        decode_spec(second) is Ok,
        same_content(decode_spec(first)->Ok_0, decode_spec(second)->Ok_0),
    ensures
        project_spec(decode_spec(first)->Ok_0) == project_spec(decode_spec(second)->Ok_0),
{
    lemma_parsed_has_unique_keys(first);
    lemma_parsed_has_unique_keys(second);
    lemma_project_ignores_key_order(decode_spec(first)->Ok_0, decode_spec(second)->Ok_0);
}

/// The four keys of an `info` part ascend in the order `length`, `name`,
/// `piece length`, `pieces`.
pub proof fn lemma_info_keys_ascend()
    ensures
        keys_ascending(seq![key_length(), key_name(), key_piece_length(), key_pieces()]),
{
    let keys = seq![key_length(), key_name(), key_piece_length(), key_pieces()];
    lemma_bytes_lt_at_first_difference(key_length(), key_name(), 0);
    lemma_bytes_lt_at_first_difference(key_length(), key_piece_length(), 0);
    lemma_bytes_lt_at_first_difference(key_length(), key_pieces(), 0);
    lemma_bytes_lt_at_first_difference(key_name(), key_piece_length(), 0);
    lemma_bytes_lt_at_first_difference(key_name(), key_pieces(), 0);
    lemma_bytes_lt_at_first_difference(key_piece_length(), key_pieces(), 5);
    assert forall|i: int, j: int| 0 <= i < j < keys.len() implies !bytes_lt(
        #[trigger] keys[j],
        #[trigger] keys[i],
    ) by {
        assert(bytes_lt(keys[i], keys[j]));
        lemma_bytes_lt_asymmetric(keys[i], keys[j]);
    }
}

/// The bytes that are hashed are the canonical encoding of the `info` part
/// as a dictionary, where its counts fit an integer of the value tree.
pub proof fn lemma_info_encoding_is_canonical(info: InfoDictView)
    requires
        info.length <= i64::MAX,
        info.piece_length <= i64::MAX,
    ensures
        info_encoding(info) == encode_spec(info_tree(info)),
{
    let entries = seq![
        (key_length(), BencodeTree::Integer(info.length as i64)),
        (key_name(), BencodeTree::ByteString(encode_utf8(info.name))),
        (key_piece_length(), BencodeTree::Integer(info.piece_length as i64)),
        (key_pieces(), BencodeTree::ByteString(info.pieces)),
    ];
    let keys = keys_of(entries);
    assert(keys =~= seq![key_length(), key_name(), key_piece_length(), key_pieces()]);
    lemma_info_keys_ascend();
    lemma_key_order_of_ascending(keys, 4);
    let parts = entry_encodings(entries);
    assert(arrange(parts, identity_order(4)) =~= parts);
    let p0 = encode_bytes(key_length()) + encode_count(info.length);
    let p1 = encode_bytes(key_name()) + encode_bytes(encode_utf8(info.name));
    let p2 = encode_bytes(key_piece_length()) + encode_count(info.piece_length);
    let p3 = encode_bytes(key_pieces()) + encode_bytes(info.pieces);
    assert(parts[0] == p0);
    assert(parts[1] == p1);
    assert(parts[2] == p2);
    assert(parts[3] == p3);
    let none = Seq::<Seq<u8>>::empty();
    assert(parts =~= none.push(p0).push(p1).push(p2).push(p3));
    none.lemma_flatten_push(p0);
    none.push(p0).lemma_flatten_push(p1);
    none.push(p0).push(p1).lemma_flatten_push(p2);
    none.push(p0).push(p1).push(p2).lemma_flatten_push(p3);
    assert(parts.flatten() =~= p0 + p1 + p2 + p3);
    assert(info_encoding(info) =~= seq![MARK_DICTIONARY] + (p0 + p1 + p2 + p3) + seq![MARK_END]);
}

} // verus!
