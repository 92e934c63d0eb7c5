//! Decoding undoes encoding.

use crate::bytes::lemma_bytes_lt_irreflexive;
use crate::canonical::{
    canonical, canonical_entries, canonical_items, is_canonical, lemma_canonical_has_unique_keys,
    lemma_canonical_idempotent, lemma_canonical_of_canonical, lemma_encode_canonical,
    same_content,
};
use crate::decode::{
    decode_spec, lemma_parsed_has_unique_keys, parse_entries, parse_integer, parse_items,
    parse_string, parse_value, Failure, COLON, MARK_END, MARK_INTEGER,
};
use crate::encode::{encode_bytes, encode_spec, entry_encodings, item_encodings};
use crate::numeral::{
    all_digits, int_digits, is_digit, lemma_int_digits, lemma_nat_digits, nat_digits,
};
use crate::order::{arrange, comes_before, key_order, lemma_key_order};
use crate::value::{has_unique_keys, keys_distinct, keys_of, BencodeTree};
use vstd::prelude::*;

verus! {

/// In `head`, then `c`, then anything, the first `c` is the one after
/// `head`, if `head` holds none.
pub proof fn lemma_first_after_prefix(head: Seq<u8>, c: u8, tail: Seq<u8>)
    requires
        !head.contains(c),
    ensures
        (head + seq![c] + tail).index_of_first(c) == Some(head.len() as int),
{
    let s = head + seq![c] + tail;
    s.index_of_first_ensures(c);
    assert(s[head.len() as int] == c);
    assert(s.contains(c));
    let found = s.index_of_first(c).unwrap();
    if found < head.len() {
        assert(head[found] == c);
        assert(head.contains(c));
    }
}

/// A run of digits holds no byte that is no digit.
pub proof fn lemma_digits_exclude(s: Seq<u8>, c: u8)
    requires
        all_digits(s),
        !is_digit(c),
    ensures
        !s.contains(c),
{
    if s.contains(c) {
        let i = choose|i: int| 0 <= i < s.len() && s[i] == c;
        assert(is_digit(s[i]));
    }
}

/// An encoded byte string, followed by anything, decodes to the string and
/// leaves what follows.
pub proof fn lemma_parse_encoded_bytes(b: Seq<u8>, tail: Seq<u8>)
    ensures
        parse_string(encode_bytes(b) + tail) == Ok::<(BencodeTree, Seq<u8>), Failure>(
            (BencodeTree::ByteString(b), tail),
        ),
        is_digit((encode_bytes(b) + tail)[0]),
        encode_bytes(b).len() > 0,
{
    let digits = nat_digits(b.len());
    let s = encode_bytes(b) + tail;
    lemma_nat_digits(b.len());
    lemma_digits_exclude(digits, COLON);
    lemma_first_after_prefix(digits, COLON, b + tail);
    assert(s =~= digits + seq![COLON] + (b + tail));
    let k = digits.len() as int;
    assert(s.subrange(0, k) =~= digits);
    let body = s.subrange(k + 1, s.len() as int);
    assert(body =~= b + tail);
    assert(body.take(b.len() as int) =~= b);
    assert(body.skip(b.len() as int) =~= tail);
    assert(s[0] == digits[0]);
}

/// An encoded integer, followed by anything, decodes to the integer and
/// leaves what follows.
pub proof fn lemma_parse_encoded_integer(n: i64, tail: Seq<u8>)
    ensures
        parse_integer(seq![MARK_INTEGER] + int_digits(n as int) + seq![MARK_END] + tail) == Ok::<(BencodeTree, Seq<u8>), Failure>((BencodeTree::Integer(n), tail)),
{
    let digits = int_digits(n as int);
    let s = seq![MARK_INTEGER] + digits + seq![MARK_END] + tail;
    lemma_int_digits(n as int);
    if n < 0 {
        lemma_nat_digits((-n) as nat);
    } else {
        lemma_nat_digits(n as nat);
    }
    assert(!digits.contains(MARK_END)) by {
        if digits.contains(MARK_END) {
            let i = choose|i: int| 0 <= i < digits.len() && digits[i] == MARK_END;
            if n < 0 {
                if i > 0 {
                    assert(is_digit(nat_digits((-n) as nat)[i - 1]));
                }
            } else {
                assert(is_digit(digits[i]));
            }
        }
    }
    lemma_first_after_prefix(digits, MARK_END, tail);
    let body = s.drop_first();
    assert(body =~= digits + seq![MARK_END] + tail);
    let k = digits.len() as int;
    assert(body.subrange(0, k) =~= digits);
    assert(body.subrange(k + 1, body.len() as int) =~= tail);
}

/// An encoded value, followed by anything, decodes to the value's
/// canonical form and leaves what follows. An encoding is never empty and
/// never starts with the end marker.
pub proof fn lemma_parse_encoded(v: BencodeTree, tail: Seq<u8>)
    requires
        has_unique_keys(v),
    ensures
        parse_value(encode_spec(v) + tail) == Ok::<(BencodeTree, Seq<u8>), Failure>(
            (canonical(v), tail),
        ),
        encode_spec(v).len() > 0,
        encode_spec(v)[0] != MARK_END,
    decreases v, 0int,
{
    let s = encode_spec(v) + tail;
    match v {
        BencodeTree::Integer(n) => {
            lemma_parse_encoded_integer(n, tail);
            assert(s =~= seq![MARK_INTEGER] + int_digits(n as int) + seq![MARK_END] + tail);
        },
        BencodeTree::ByteString(b) => {
            lemma_parse_encoded_bytes(b, tail);
        },
        BencodeTree::List(items) => {
            let parts = item_encodings(items);
            lemma_parse_encoded_items(items, 0, tail);
            assert(parts.skip(0) =~= parts);
            assert(canonical_items(items).take(0) =~= Seq::<BencodeTree>::empty());
            assert(s.drop_first() =~= parts.flatten() + seq![MARK_END] + tail);
        },
        BencodeTree::Dictionary(entries) => {
            let order = key_order(keys_of(entries));
            let parts = arrange(entry_encodings(entries), order);
            let sorted = arrange(canonical_entries(entries), order);
            lemma_parse_encoded_entries(entries, 0, tail);
            assert(parts.skip(0) =~= parts);
            assert(sorted.take(0) =~= Seq::<(Seq<u8>, BencodeTree)>::empty());
            assert(s.drop_first() =~= parts.flatten() + seq![MARK_END] + tail);
        },
    }
}

/// The encoded items of a list from the one at `from` on, the end marker
/// and anything after it decode to the rest of the list.
pub proof fn lemma_parse_encoded_items(items: Seq<BencodeTree>, from: int, tail: Seq<u8>)
    requires
        0 <= from <= items.len(),
        forall|i: int| 0 <= i < items.len() ==> has_unique_keys(#[trigger] items[i]),
    ensures
        parse_items(
            item_encodings(items).skip(from).flatten() + seq![MARK_END] + tail,
            canonical_items(items).take(from),
        ) == Ok::<(Seq<BencodeTree>, Seq<u8>), Failure>((canonical_items(items), tail)),
    decreases items, items.len() - from,
{
    let parts = item_encodings(items);
    let done = canonical_items(items).take(from);
    let s = parts.skip(from).flatten() + seq![MARK_END] + tail;
    if from == items.len() {
        assert(parts.skip(from) =~= Seq::<Seq<u8>>::empty());
        assert(s =~= seq![MARK_END] + tail);
        assert(s.drop_first() =~= tail);
        assert(done =~= canonical_items(items));
    } else {
        let item = items[from];
        let later = parts.skip(from + 1);
        let after = later.flatten() + seq![MARK_END] + tail;
        assert(parts.skip(from).first() == encode_spec(item));
        assert(parts.skip(from).drop_first() =~= later);
        assert(parts.skip(from).flatten() == encode_spec(item) + later.flatten());
        assert(s =~= encode_spec(item) + after);
        lemma_parse_encoded(item, after);
        assert(s[0] == encode_spec(item)[0]);
        lemma_parse_encoded_items(items, from + 1, tail);
        assert(done.push(canonical(item)) =~= canonical_items(items).take(from + 1));
    }
}

/// The encoded entries of a dictionary from the one at place `from` of the
/// key order on, the end marker and anything after it decode to the rest of
/// the dictionary, in key order.
pub proof fn lemma_parse_encoded_entries(
    entries: Seq<(Seq<u8>, BencodeTree)>,
    from: int,
    tail: Seq<u8>,
)
    requires
        0 <= from <= entries.len(),
        keys_distinct(keys_of(entries)),
        forall|i: int| 0 <= i < entries.len() ==> has_unique_keys((#[trigger] entries[i]).1),
    ensures
        parse_entries(
            arrange(entry_encodings(entries), key_order(keys_of(entries))).skip(from).flatten()
                + seq![MARK_END] + tail,
            arrange(canonical_entries(entries), key_order(keys_of(entries))).take(from),
        ) == Ok::<(Seq<(Seq<u8>, BencodeTree)>, Seq<u8>), Failure>(
            (arrange(canonical_entries(entries), key_order(keys_of(entries))), tail),
        ),
    decreases entries, entries.len() - from,
{
    let keys = keys_of(entries);
    let order = key_order(keys);
    lemma_key_order(keys);
    let parts = arrange(entry_encodings(entries), order);
    let sorted = arrange(canonical_entries(entries), order);
    let done = sorted.take(from);
    let s = parts.skip(from).flatten() + seq![MARK_END] + tail;
    if from == entries.len() {
        assert(parts.skip(from) =~= Seq::<Seq<u8>>::empty());
        assert(s =~= seq![MARK_END] + tail);
        assert(s.drop_first() =~= tail);
        assert(done =~= sorted);
    } else {
        let at = order[from];
        assert(0 <= at < entries.len());
        let key = entries[at].0;
        let value = entries[at].1;
        let later = parts.skip(from + 1);
        let after = later.flatten() + seq![MARK_END] + tail;
        let after_key = encode_spec(value) + after;
        assert(parts.skip(from).first() == encode_bytes(key) + encode_spec(value));
        assert(parts.skip(from).drop_first() =~= later);
        assert(parts.skip(from).flatten() == encode_bytes(key) + encode_spec(value)
            + later.flatten());
        assert(s =~= encode_bytes(key) + after_key);
        lemma_parse_encoded_bytes(key, after_key);
        assert(has_unique_keys(entries[at].1));
        lemma_parse_encoded(value, after);
        assert(!keys_of(done).contains(key)) by {
            if keys_of(done).contains(key) {
                let j = choose|j: int| 0 <= j < keys_of(done).len() && keys_of(done)[j] == key;
                assert(0 <= order[j] < entries.len());
                assert(keys_of(done)[j] == keys[order[j]]);
                assert(comes_before(keys, order[j], order[from]));
                lemma_bytes_lt_irreflexive(key);
                assert(keys[order[j]] != keys[order[from]]);
            }
        }
        lemma_parse_encoded_entries(entries, from + 1, tail);
        assert(done.push((key, canonical(value))) =~= sorted.take(from + 1));
        assert(parse_value(s) == Ok::<(BencodeTree, Seq<u8>), Failure>(
            (BencodeTree::ByteString(key), after_key),
        ));
        assert(parse_entries(s, done) == parse_entries(after, done.push((key, canonical(value)))));
    }
}

/// Decoding the encoding of a value without a key twice gives the value
/// back, each dictionary with its entries in key order: a value of the
/// same content.
pub proof fn lemma_decode_encode(v: BencodeTree)
    requires
        has_unique_keys(v),
    ensures
        decode_spec(encode_spec(v)) == Ok::<BencodeTree, Failure>(canonical(v)),
        same_content(canonical(v), v),
{
    lemma_parse_encoded(v, Seq::empty());
    assert(encode_spec(v) + Seq::<u8>::empty() =~= encode_spec(v));
    lemma_canonical_idempotent(v);
}

/// Decoding the encoding of a canonical value gives that very value back.
pub proof fn lemma_decode_encode_canonical(v: BencodeTree)
    requires
        is_canonical(v),
    ensures
        decode_spec(encode_spec(v)) == Ok::<BencodeTree, Failure>(v),
{
    lemma_canonical_has_unique_keys(v);
    lemma_decode_encode(v);
    lemma_canonical_of_canonical(v);
}

/// The encoding tells values apart: two values without a key twice that
/// have the same encoding have the same content.
pub proof fn lemma_encode_injective(a: BencodeTree, b: BencodeTree)
    requires
        has_unique_keys(a),
        has_unique_keys(b),
        encode_spec(a) == encode_spec(b),
    ensures
        same_content(a, b),
{
    lemma_decode_encode(a);
    lemma_decode_encode(b);
}

/// Values of the same content have the same encoding.
pub proof fn lemma_same_content_same_encoding(a: BencodeTree, b: BencodeTree)
    requires
        same_content(a, b),
    ensures
        encode_spec(a) == encode_spec(b),
{
    lemma_encode_canonical(a);
    lemma_encode_canonical(b);
}

/// Encoding, decoding and encoding again gives the first encoding, for a
/// value without a key twice.
pub proof fn lemma_encode_decode_encode(v: BencodeTree)
    requires
        has_unique_keys(v),
    ensures
        decode_spec(encode_spec(v)) matches Ok(w) && encode_spec(w) == encode_spec(v),
{
    lemma_decode_encode(v);
    lemma_encode_canonical(v);
}

/// A decoded value holds no key twice, so that encoding it and decoding
/// again gives its canonical form.
pub proof fn lemma_decoded_round_trips(s: Seq<u8>)
    ensures
        decode_spec(s) matches Ok(v) ==> has_unique_keys(v) && decode_spec(encode_spec(v)) == Ok::<BencodeTree, Failure>(canonical(v)),
{
    lemma_parsed_has_unique_keys(s);
    if let Ok(v) = decode_spec(s) {
        lemma_decode_encode(v);
    }
}

} // verus!
