//! Decoding: the grammar as a function on byte sequences, and the decoder
//! that computes it.

use crate::bytes::{bytes_equal, is_suffix, split_bytes_at};
use crate::error::{BencodeError, DecodeError};
use crate::numeral::{
    all_digits, digits_value, int_value, is_canonical_int, is_digit, is_digit_run, read_decimal,
    read_integer,
};
use crate::value::{
    entries_of, has_unique_keys, keys_distinct, keys_of, trees_of, BencodeTree, BencodeValue,
};
use vstd::prelude::*;
use vstd::slice::{slice_subrange, slice_to_vec};

verus! {

/// `i`, which opens an integer.
pub const MARK_INTEGER: u8 = 0x69;

/// `l`, which opens a list.
pub const MARK_LIST: u8 = 0x6c;

/// `d`, which opens a dictionary.
pub const MARK_DICTIONARY: u8 = 0x64;

/// `e`, which closes an integer, a list or a dictionary.
pub const MARK_END: u8 = 0x65;

/// `:`, which stands between a string's length and its bytes.
pub const COLON: u8 = 0x3a;

/// Why a parser failed, and where: the part of the input that starts at
/// the place of the failure. An input that ends too early fails at its end.
pub type Failure = (BencodeError, Seq<u8>);

/// What a parser hands on: the value and the bytes it did not consume, or
/// its failure.
pub type Parsed<T> = Result<(T, Seq<u8>), Failure>;

/// A byte string: decimal digits up to the first colon give the length,
/// and that many bytes after the colon are the string. The length may have
/// leading zeros, and no length is too large to be read: one that exceeds
/// the bytes at hand is an input that ends too early. A length that is no
/// run of digits fails where it starts.
pub open spec fn parse_string(s: Seq<u8>) -> Parsed<BencodeTree> {
    match s.index_of_first(COLON) {
        None => Err((BencodeError::UnexpectedEndOfInput, Seq::empty())),
        Some(k) => {
            let digits = s.subrange(0, k);
            let body = s.subrange(k + 1, s.len() as int);
            if digits.len() == 0 || !all_digits(digits) {
                Err((BencodeError::InvalidNumeral, s))
            } else if digits_value(digits) > body.len() {
                Err((BencodeError::UnexpectedEndOfInput, Seq::empty()))
            } else {
                let n = digits_value(digits) as int;
                Ok((BencodeTree::ByteString(body.take(n)), body.skip(n)))
            }
        },
    }
}

/// An integer: `i`, a numeral of the integer grammar that fits in 64 bits,
/// and the first `e` after the `i`. A numeral that is none, or does not
/// fit, fails where it starts.
pub open spec fn parse_integer(s: Seq<u8>) -> Parsed<BencodeTree> {
    if s.len() == 0 || s[0] != MARK_INTEGER {
        Err((BencodeError::UnknownMarker, s))
    } else {
        let body = s.drop_first();
        match body.index_of_first(MARK_END) {
            None => Err((BencodeError::UnexpectedEndOfInput, Seq::empty())),
            Some(k) => {
                let digits = body.subrange(0, k);
                if !is_canonical_int(digits) || int_value(digits) < i64::MIN || int_value(digits)
                    > i64::MAX {
                    Err((BencodeError::InvalidNumeral, body))
                } else {
                    Ok(
                        (
                            BencodeTree::Integer(int_value(digits) as i64),
                            body.subrange(k + 1, body.len() as int),
                        ),
                    )
                }
            },
        }
    }
}

/// Any value, told apart by its first byte.
pub open spec fn parse_value(s: Seq<u8>) -> Parsed<BencodeTree>
    decreases s.len(), 2int,
{
    if s.len() == 0 {
        Err((BencodeError::UnknownMarker, s))
    } else if is_digit(s[0]) {
        parse_string(s)
    } else if s[0] == MARK_INTEGER {
        parse_integer(s)
    } else if s[0] == MARK_LIST {
        parse_list(s)
    } else if s[0] == MARK_DICTIONARY {
        parse_dict(s)
    } else {
        Err((BencodeError::UnknownMarker, s))
    }
}

/// A list: `l`, its items one after the other, and `e`.
pub open spec fn parse_list(s: Seq<u8>) -> Parsed<BencodeTree>
    decreases s.len(), 1int,
{
    if s.len() == 0 || s[0] != MARK_LIST {
        Err((BencodeError::UnknownMarker, s))
    } else {
        match parse_items(s.drop_first(), Seq::empty()) {
            Ok((items, rest)) => Ok((BencodeTree::List(items), rest)),
            Err(e) => Err(e),
        }
    }
}

/// The items of a list after those in `done`, up to and including the
/// closing `e`.
///
/// A value always consumes at least one byte ([`lemma_parse_value_rest`]);
/// the test on the remainder's length is there for the recursion to be
/// well founded, and its other branch is never taken.
pub open spec fn parse_items(s: Seq<u8>, done: Seq<BencodeTree>) -> Parsed<Seq<BencodeTree>>
    decreases s.len(), 3int,
{
    if s.len() == 0 {
        Err((BencodeError::UnexpectedEndOfInput, s))
    } else if s[0] == MARK_END {
        Ok((done, s.drop_first()))
    } else {
        match parse_value(s) {
            Err(e) => Err(e),
            Ok((item, rest)) => if rest.len() < s.len() {
                parse_items(rest, done.push(item))
            } else {
                Err((BencodeError::UnexpectedEndOfInput, Seq::empty()))
            },
        }
    }
}

/// A dictionary: `d`, its entries one after the other, and `e`.
pub open spec fn parse_dict(s: Seq<u8>) -> Parsed<BencodeTree>
    decreases s.len(), 1int,
{
    if s.len() == 0 || s[0] != MARK_DICTIONARY {
        Err((BencodeError::UnknownMarker, s))
    } else {
        match parse_entries(s.drop_first(), Seq::empty()) {
            Ok((entries, rest)) => Ok((BencodeTree::Dictionary(entries), rest)),
            Err(e) => Err(e),
        }
    }
}

/// The entries of a dictionary after those in `done`, up to and including
/// the closing `e`. An entry is a key, which must decode to a byte string
/// that no earlier entry has, and a value; an input that ends right after a
/// key ends too early. A key of the wrong kind, or one that an earlier
/// entry has, fails where the key starts. Entries stay in the order of the
/// input, whatever the order of their keys.
///
/// As in [`parse_items`], the tests that a remainder is shorter than the
/// input only make the recursion well founded.
pub open spec fn parse_entries(s: Seq<u8>, done: Seq<(Seq<u8>, BencodeTree)>) -> Parsed<
    Seq<(Seq<u8>, BencodeTree)>,
>
    decreases s.len(), 3int,
{
    if s.len() == 0 {
        Err((BencodeError::UnexpectedEndOfInput, s))
    } else if s[0] == MARK_END {
        Ok((done, s.drop_first()))
    } else {
        match parse_value(s) {
            Err(e) => Err(e),
            Ok((BencodeTree::ByteString(key), after_key)) => if after_key.len() == 0
                || after_key.len() >= s.len() {
                // The input ends where the key's value must start.
                Err((BencodeError::UnexpectedEndOfInput, Seq::empty()))
            } else {
                match parse_value(after_key) {
                    Err(e) => Err(e),
                    Ok((value, rest)) => if keys_of(done).contains(key) {
                        Err((BencodeError::DuplicateKey, s))
                    } else if rest.len() < s.len() {
                        parse_entries(rest, done.push((key, value)))
                    } else {
                        Err((BencodeError::UnexpectedEndOfInput, Seq::empty()))
                    },
                }
            },
            Ok(_) => Err((BencodeError::DictionaryKeyTypeError, s)),
        }
    }
}

/// A whole input: one value and nothing after it. Bytes after the value
/// are a failure at the first of them.
pub open spec fn decode_spec(s: Seq<u8>) -> Result<BencodeTree, Failure> {
    match parse_value(s) {
        Err(e) => Err(e),
        Ok((value, rest)) => if rest.len() == 0 {
            Ok(value)
        } else {
            Err((BencodeError::TrailingData, rest))
        },
    }
}

/// The model of what a decoding function returns.
pub open spec fn parsed_view(r: Result<(BencodeValue, &[u8]), (BencodeError, &[u8])>) -> Parsed<
    BencodeTree,
> {
    match r {
        Ok((value, rest)) => Ok((value@, rest@)),
        Err((kind, at)) => Err((kind, at@)),
    }
}

/// What [`parse_string`] leaves is a proper suffix of its input, and where
/// it fails is a place in its input.
pub proof fn lemma_parse_string_rest(s: Seq<u8>)
    ensures
        match parse_string(s) {
            Ok((value, rest)) => value is ByteString && rest.len() < s.len() && is_suffix(rest, s),
            Err((_, at)) => is_suffix(at, s),
        },
{
    s.index_of_first_ensures(COLON);
    match parse_string(s) {
        Ok((value, rest)) => {
            assert(rest =~= s.skip(s.len() - rest.len()));
        },
        Err((_, at)) => {
            assert(at =~= s.skip(s.len() - at.len()));
        },
    }
}

/// What [`parse_integer`] leaves is a proper suffix of its input, and
/// where it fails is a place in its input.
pub proof fn lemma_parse_integer_rest(s: Seq<u8>)
    ensures
        match parse_integer(s) {
            Ok((value, rest)) => value is Integer && rest.len() < s.len() && is_suffix(rest, s),
            Err((_, at)) => is_suffix(at, s),
        },
{
    if s.len() > 0 {
        s.drop_first().index_of_first_ensures(MARK_END);
    }
    match parse_integer(s) {
        Ok((value, rest)) => {
            assert(rest =~= s.skip(s.len() - rest.len()));
        },
        Err((_, at)) => {
            assert(at =~= s.skip(s.len() - at.len()));
        },
    }
}

/// A value consumes at least one byte, and what it leaves is the rest of
/// the input: the position in the input never moves backward. Where a value
/// fails is a place in the input.
pub proof fn lemma_parse_value_rest(s: Seq<u8>)
    ensures
        match parse_value(s) {
            Ok((_, rest)) => rest.len() < s.len() && is_suffix(rest, s),
            Err((_, at)) => is_suffix(at, s),
        },
    decreases s.len(), 2int,
{
    assert(s =~= s.skip(0));
    if s.len() == 0 {
    } else if is_digit(s[0]) {
        lemma_parse_string_rest(s);
    } else if s[0] == MARK_INTEGER {
        lemma_parse_integer_rest(s);
    } else if s[0] == MARK_LIST {
        lemma_parse_items_rest(s.drop_first(), Seq::empty());
        lemma_suffix_of_tail(s);
    } else if s[0] == MARK_DICTIONARY {
        lemma_parse_entries_rest(s.drop_first(), Seq::empty());
        lemma_suffix_of_tail(s);
    }
}

/// A suffix of all but the first byte is a suffix of the whole.
proof fn lemma_suffix_of_tail(s: Seq<u8>)
    requires
        s.len() > 0,
    ensures
        forall|t: Seq<u8>| #[trigger] is_suffix(t, s.drop_first()) ==> is_suffix(t, s),
{
    assert forall|t: Seq<u8>| #[trigger] is_suffix(t, s.drop_first()) implies is_suffix(t, s) by {
        assert(t =~= s.skip(s.len() - t.len()));
    }
}

/// A suffix of a suffix is a suffix.
proof fn lemma_suffix_of_suffix(s: Seq<u8>, mid: Seq<u8>)
    requires
        is_suffix(mid, s),
    ensures
        forall|t: Seq<u8>| #[trigger] is_suffix(t, mid) ==> is_suffix(t, s),
{
    assert forall|t: Seq<u8>| #[trigger] is_suffix(t, mid) implies is_suffix(t, s) by {
        assert(t =~= s.skip(s.len() - t.len()));
    }
}

/// What [`parse_items`] leaves is a proper suffix of its input, and where
/// it fails is a place in its input.
pub proof fn lemma_parse_items_rest(s: Seq<u8>, done: Seq<BencodeTree>)
    ensures
        match parse_items(s, done) {
            Ok((_, rest)) => rest.len() < s.len() && is_suffix(rest, s),
            Err((_, at)) => is_suffix(at, s),
        },
    decreases s.len(), 3int,
{
    assert(s =~= s.skip(0));
    assert(is_suffix(Seq::<u8>::empty(), s)) by {
        assert(Seq::<u8>::empty() =~= s.skip(s.len() as int));
    }
    if s.len() == 0 {
    } else if s[0] == MARK_END {
        assert(s.drop_first() =~= s.skip(1));
    } else {
        lemma_parse_value_rest(s);
        if let Ok((item, mid)) = parse_value(s) {
            lemma_parse_items_rest(mid, done.push(item));
            lemma_suffix_of_suffix(s, mid);
        }
    }
}

/// What [`parse_entries`] leaves is a proper suffix of its input, and
/// where it fails is a place in its input.
pub proof fn lemma_parse_entries_rest(s: Seq<u8>, done: Seq<(Seq<u8>, BencodeTree)>)
    ensures
        match parse_entries(s, done) {
            Ok((_, rest)) => rest.len() < s.len() && is_suffix(rest, s),
            Err((_, at)) => is_suffix(at, s),
        },
    decreases s.len(), 3int,
{
    assert(s =~= s.skip(0));
    assert(is_suffix(Seq::<u8>::empty(), s)) by {
        assert(Seq::<u8>::empty() =~= s.skip(s.len() as int));
    }
    if s.len() == 0 {
    } else if s[0] == MARK_END {
        assert(s.drop_first() =~= s.skip(1));
    } else {
        lemma_parse_value_rest(s);
        if let Ok((BencodeTree::ByteString(key), after_key)) = parse_value(s) {
            if after_key.len() > 0 {
                lemma_parse_value_rest(after_key);
                lemma_suffix_of_suffix(s, after_key);
                if let Ok((value, mid)) = parse_value(after_key) {
                    if !keys_of(done).contains(key) {
                        lemma_parse_entries_rest(mid, done.push((key, value)));
                        lemma_suffix_of_suffix(s, mid);
                    }
                }
            }
        }
    }
}

/// Whatever decodes holds no key twice, at any depth.
pub proof fn lemma_parsed_has_unique_keys(s: Seq<u8>)
    ensures
        parse_value(s) matches Ok((v, _)) ==> has_unique_keys(v),
    decreases s.len(), 2int,
{
    if s.len() == 0 {
    } else if is_digit(s[0]) {
        lemma_parse_string_rest(s);
    } else if s[0] == MARK_INTEGER {
        lemma_parse_integer_rest(s);
    } else if s[0] == MARK_LIST {
        lemma_parsed_items_have_unique_keys(s.drop_first(), Seq::empty());
    } else if s[0] == MARK_DICTIONARY {
        lemma_parsed_entries_have_unique_keys(s.drop_first(), Seq::empty());
    }
}

/// The items of a decoded list hold no key twice, if those decoded before
/// them do not.
pub proof fn lemma_parsed_items_have_unique_keys(s: Seq<u8>, done: Seq<BencodeTree>)
    requires
        forall|i: int| 0 <= i < done.len() ==> has_unique_keys(#[trigger] done[i]),
    ensures
        parse_items(s, done) matches Ok((items, _)) ==> forall|i: int|
            0 <= i < items.len() ==> has_unique_keys(#[trigger] items[i]),
    decreases s.len(), 3int,
{
    if s.len() == 0 {
    } else if s[0] == MARK_END {
    } else {
        lemma_parsed_has_unique_keys(s);
        if let Ok((item, rest)) = parse_value(s) {
            if rest.len() < s.len() {
                let next = done.push(item);
                assert forall|i: int| 0 <= i < next.len() implies has_unique_keys(
                    #[trigger] next[i],
                ) by {
                    if i < done.len() {
                        assert(next[i] == done[i]);
                    }
                }
                lemma_parsed_items_have_unique_keys(rest, next);
            }
        }
    }
}

/// The entries of a decoded dictionary have distinct keys and values that
/// hold no key twice, if that is so of those decoded before them.
pub proof fn lemma_parsed_entries_have_unique_keys(
    s: Seq<u8>,
    done: Seq<(Seq<u8>, BencodeTree)>,
)
    requires
        keys_distinct(keys_of(done)),
        forall|i: int| 0 <= i < done.len() ==> has_unique_keys((#[trigger] done[i]).1),
    ensures
        parse_entries(s, done) matches Ok((entries, _)) ==> keys_distinct(keys_of(entries))
            && forall|i: int|
            0 <= i < entries.len() ==> has_unique_keys((#[trigger] entries[i]).1),
    decreases s.len(), 3int,
{
    if s.len() == 0 {
    } else if s[0] == MARK_END {
    } else {
        lemma_parsed_has_unique_keys(s);
        if let Ok((BencodeTree::ByteString(key), after_key)) = parse_value(s) {
            if 0 < after_key.len() < s.len() {
                lemma_parsed_has_unique_keys(after_key);
                if let Ok((value, rest)) = parse_value(after_key) {
                    if !keys_of(done).contains(key) && rest.len() < s.len() {
                        let next = done.push((key, value));
                        assert forall|i: int| 0 <= i < next.len() implies has_unique_keys(
                            (#[trigger] next[i]).1,
                        ) by {
                            if i < done.len() {
                                assert(next[i] == done[i]);
                            }
                        }
                        assert forall|i: int, j: int|
                            0 <= i < j < keys_of(next).len() implies #[trigger] keys_of(next)[i]
                            != #[trigger] keys_of(next)[j] by {
                            assert(keys_of(next)[i] == keys_of(done)[i]);
                            if j < done.len() {
                                assert(keys_of(next)[j] == keys_of(done)[j]);
                            } else {
                                assert(keys_of(done).contains(keys_of(done)[i]));
                            }
                        }
                        lemma_parsed_entries_have_unique_keys(rest, next);
                    }
                }
            }
        }
    }
}

/// The empty slice at the end of `bytes`: where an input that ends too
/// early fails.
fn end_of(bytes: &[u8]) -> (end: &[u8])
    ensures
        end@ == Seq::<u8>::empty(),
{
    let end = slice_subrange(bytes, bytes.len(), bytes.len());
    assert(end@ =~= Seq::<u8>::empty());
    end
}

/// Decodes the byte string at the start of `encoded_value`, and hands back
/// the bytes after it, or the kind of the failure and the input from the
/// place of the failure on.
pub fn decode_bencoded_string(encoded_value: &[u8]) -> (r: Result<
    (BencodeValue, &[u8]),
    (BencodeError, &[u8]),
>)
    ensures
        parsed_view(r) == parse_string(encoded_value@),
{
    match split_bytes_at(encoded_value, ':') {
        None => Err((BencodeError::UnexpectedEndOfInput, end_of(encoded_value))),
        Some((number_string, string)) => {
            if number_string.len() == 0 || !is_digit_run(number_string) {
                return Err((BencodeError::InvalidNumeral, encoded_value));
            }
            match read_decimal(number_string, string.len() as u64) {
                None => Err((BencodeError::UnexpectedEndOfInput, end_of(encoded_value))),
                Some(number) => {
                    let n: usize = number as usize;
                    let bytes = slice_to_vec(slice_subrange(string, 0, n));
                    let remaining = slice_subrange(string, n, string.len());
                    Ok((BencodeValue::ByteString(bytes), remaining))
                },
            }
        },
    }
}

/// Decodes the integer at the start of `encoded_value`, and hands back the
/// bytes after it, or the kind of the failure and the input from the place
/// of the failure on.
pub fn decode_bencoded_number(encoded_value: &[u8]) -> (r: Result<
    (BencodeValue, &[u8]),
    (BencodeError, &[u8]),
>)
    ensures
        parsed_view(r) == parse_integer(encoded_value@),
{
    if encoded_value.len() == 0 || encoded_value[0] != MARK_INTEGER {
        return Err((BencodeError::UnknownMarker, encoded_value));
    }
    let body = slice_subrange(encoded_value, 1, encoded_value.len());
    match split_bytes_at(body, 'e') {
        None => Err((BencodeError::UnexpectedEndOfInput, end_of(encoded_value))),
        Some((number_string, remaining)) => match read_integer(number_string) {
            None => Err((BencodeError::InvalidNumeral, body)),
            Some(number) => Ok((BencodeValue::Integer(number), remaining)),
        },
    }
}

/// Decodes the list at the start of `encoded_value`, and hands back the
/// bytes after it, or the kind of the failure and the input from the place
/// of the failure on.
pub fn decode_bencoded_list(encoded_value: &[u8]) -> (r: Result<
    (BencodeValue, &[u8]),
    (BencodeError, &[u8]),
>)
    ensures
        parsed_view(r) == parse_list(encoded_value@),
    decreases encoded_value@.len(), 1int,
{
    if encoded_value.len() == 0 || encoded_value[0] != MARK_LIST {
        return Err((BencodeError::UnknownMarker, encoded_value));
    }
    let mut result: Vec<BencodeValue> = Vec::new();
    let mut remaining = slice_subrange(encoded_value, 1, encoded_value.len());
    assert(trees_of(result@) =~= Seq::empty());
    loop
        invariant
            encoded_value@.len() > 0,
            encoded_value@[0] == MARK_LIST,
            remaining@.len() < encoded_value@.len(),
            parse_items(encoded_value@.drop_first(), Seq::empty()) == parse_items(
                remaining@,
                trees_of(result@),
            ),
        decreases remaining@.len(),
    {
        if remaining.len() == 0 {
            return Err((BencodeError::UnexpectedEndOfInput, remaining));
        }
        if remaining[0] == MARK_END {
            let rest = slice_subrange(remaining, 1, remaining.len());
            return Ok((BencodeValue::List(result), rest));
        }
        match decode_bencoded_val(remaining) {
            Err(e) => {
                return Err(e);
            },
            Ok((value, rest)) => {
                proof {
                    assert(trees_of(result@.push(value)) =~= trees_of(result@).push(value@));
                }
                result.push(value);
                remaining = rest;
            },
        }
    }
}

/// Whether one of `entries` has the key `key`.
pub fn has_key(entries: &Vec<(Vec<u8>, BencodeValue)>, key: &[u8]) -> (r: bool)
    ensures
        r == keys_of(entries_of(entries@)).contains(key@),
{
    let mut i: usize = 0;
    while i < entries.len()
        invariant
            i <= entries.len(),
            forall|j: int| 0 <= j < i ==> keys_of(entries_of(entries@))[j] != key@,
        decreases entries.len() - i,
    {
        if bytes_equal(entries[i].0.as_slice(), key) {
            assert(keys_of(entries_of(entries@))[i as int] == key@);
            return true;
        }
        i += 1;
    }
    false
}

/// Decodes the dictionary at the start of `encoded_value`, and hands back
/// the bytes after it, or the kind of the failure and the input from the
/// place of the failure on.
pub fn decode_bencoded_dict(encoded_value: &[u8]) -> (r: Result<
    (BencodeValue, &[u8]),
    (BencodeError, &[u8]),
>)
    ensures
        parsed_view(r) == parse_dict(encoded_value@),
    decreases encoded_value@.len(), 1int,
{
    if encoded_value.len() == 0 || encoded_value[0] != MARK_DICTIONARY {
        return Err((BencodeError::UnknownMarker, encoded_value));
    }
    let mut result: Vec<(Vec<u8>, BencodeValue)> = Vec::new();
    let mut remaining = slice_subrange(encoded_value, 1, encoded_value.len());
    assert(entries_of(result@) =~= Seq::empty());
    loop
        invariant
            encoded_value@.len() > 0,
            encoded_value@[0] == MARK_DICTIONARY,
            remaining@.len() < encoded_value@.len(),
            parse_entries(encoded_value@.drop_first(), Seq::empty()) == parse_entries(
                remaining@,
                entries_of(result@),
            ),
        decreases remaining@.len(),
    {
        if remaining.len() == 0 {
            return Err((BencodeError::UnexpectedEndOfInput, remaining));
        }
        if remaining[0] == MARK_END {
            let rest = slice_subrange(remaining, 1, remaining.len());
            return Ok((BencodeValue::Dictionary(result), rest));
        }
        let (key, after_key) = match decode_bencoded_val(remaining) {
            Err(e) => {
                return Err(e);
            },
            Ok((BencodeValue::ByteString(key), after_key)) => (key, after_key),
            Ok(_) => {
                return Err((BencodeError::DictionaryKeyTypeError, remaining));
            },
        };
        if after_key.len() == 0 {
            assert(after_key@ =~= Seq::<u8>::empty());
            return Err((BencodeError::UnexpectedEndOfInput, after_key));
        }
        match decode_bencoded_val(after_key) {
            Err(e) => {
                return Err(e);
            },
            Ok((value, rest)) => {
                if has_key(&result, key.as_slice()) {
                    return Err((BencodeError::DuplicateKey, remaining));
                }
                proof {
                    assert(entries_of(result@.push((key, value))) =~= entries_of(result@).push(
                        (key@, value@),
                    ));
                }
                result.push((key, value));
                remaining = rest;
            },
        }
    }
}

/// Decodes the value at the start of `encoded_value`, whatever its kind, and
/// hands back the bytes after it: a proper suffix of the input, so that the
/// input's length less the suffix's is the number of bytes consumed. Where
/// it fails, it hands back the kind of the failure and the input from the
/// place of the failure on, a suffix of the input as well.
pub fn decode_bencoded_val(encoded_value: &[u8]) -> (r: Result<
    (BencodeValue, &[u8]),
    (BencodeError, &[u8]),
>)
    ensures
        parsed_view(r) == parse_value(encoded_value@),
        match r {
            Ok((value, rest)) => {
                &&& has_unique_keys(value@)
                &&& rest@.len() < encoded_value@.len()
                &&& is_suffix(rest@, encoded_value@)
            },
            Err((_, at)) => is_suffix(at@, encoded_value@),
        },
    decreases encoded_value@.len(), 2int,
{
    proof {
        lemma_parse_value_rest(encoded_value@);
        lemma_parsed_has_unique_keys(encoded_value@);
    }
    if encoded_value.len() == 0 {
        return Err((BencodeError::UnknownMarker, encoded_value));
    }
    let first = encoded_value[0];
    if 0x30 <= first && first <= 0x39 {
        decode_bencoded_string(encoded_value)
    } else if first == MARK_INTEGER {
        decode_bencoded_number(encoded_value)
    } else if first == MARK_LIST {
        decode_bencoded_list(encoded_value)
    } else if first == MARK_DICTIONARY {
        decode_bencoded_dict(encoded_value)
    } else {
        Err((BencodeError::UnknownMarker, encoded_value))
    }
}

/// Decodes a whole input: one value, with no byte left over. The value
/// holds no dictionary key twice. A failure says of what kind it is and at
/// which byte of the input it was found.
pub fn decode_bencoded_value(encoded_value: &[u8]) -> (r: Result<BencodeValue, DecodeError>)
    ensures
        match r {
            Ok(value) => decode_spec(encoded_value@) == Ok::<BencodeTree, Failure>(value@)
                && has_unique_keys(value@),
            Err(e) => decode_spec(encoded_value@) == Err::<BencodeTree, Failure>(
                (e.kind, encoded_value@.skip(e.position as int)),
            ) && e.position <= encoded_value@.len(),
        },
{
    match decode_bencoded_val(encoded_value) {
        Err((kind, at)) => Err(DecodeError { kind, position: encoded_value.len() - at.len() }),
        Ok((value, rest)) => if rest.len() == 0 {
            Ok(value)
        } else {
            Err(
                DecodeError {
                    kind: BencodeError::TrailingData,
                    position: encoded_value.len() - rest.len(),
                },
            )
        },
    }
}

} // verus!
