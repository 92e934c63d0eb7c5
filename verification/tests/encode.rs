use bencode::bytes::{bytes_equal, bytes_less};
use bencode::numeral::{is_digit_run, read_decimal, read_integer, write_decimal, write_integer};
use bencode::order::sorted_key_order;
use bencode::{decode_bencoded_value, encode, BencodeError, BencodeValue, DecodeError};

fn text(s: &str) -> BencodeValue {
    BencodeValue::ByteString(s.as_bytes().to_vec())
}

fn entry(key: &str, value: BencodeValue) -> (Vec<u8>, BencodeValue) {
    (key.as_bytes().to_vec(), value)
}

#[test]
fn integers_are_written_in_decimal() {
    assert_eq!(encode(&BencodeValue::Integer(0)), b"i0e".to_vec());
    assert_eq!(encode(&BencodeValue::Integer(3)), b"i3e".to_vec());
    assert_eq!(encode(&BencodeValue::Integer(-3)), b"i-3e".to_vec());
    assert_eq!(encode(&BencodeValue::Integer(1050)), b"i1050e".to_vec());
    assert_eq!(encode(&BencodeValue::Integer(i64::MAX)), b"i9223372036854775807e".to_vec());
    assert_eq!(encode(&BencodeValue::Integer(i64::MIN)), b"i-9223372036854775808e".to_vec());
}

#[test]
fn strings_are_written_with_their_length() {
    assert_eq!(encode(&text("spam")), b"4:spam".to_vec());
    assert_eq!(encode(&text("")), b"0:".to_vec());
    assert_eq!(encode(&text("hello world")), b"11:hello world".to_vec());
    assert_eq!(
        encode(&BencodeValue::ByteString(vec![0xff, 0x00])),
        vec![b'2', b':', 0xff, 0x00]
    );
}

#[test]
fn lists_are_written_in_their_order() {
    assert_eq!(encode(&BencodeValue::List(vec![])), b"le".to_vec());
    assert_eq!(
        encode(&BencodeValue::List(vec![text("spam"), text("eggs"), BencodeValue::Integer(-7)])),
        b"l4:spam4:eggsi-7ee".to_vec()
    );
}

#[test]
fn dictionaries_are_written_in_key_order() {
    assert_eq!(encode(&BencodeValue::Dictionary(vec![])), b"de".to_vec());
    let given = BencodeValue::Dictionary(vec![
        entry("foo", BencodeValue::Integer(42)),
        entry("bar", text("spam")),
    ]);
    assert_eq!(encode(&given), b"d3:bar4:spam3:fooi42ee".to_vec());
    let decoded = decode_bencoded_value(b"d3:bar4:spam3:fooi42ee").unwrap();
    assert_eq!(encode(&decoded), b"d3:bar4:spam3:fooi42ee".to_vec());
}

#[test]
fn key_order_goes_by_unsigned_bytes() {
    let given = BencodeValue::Dictionary(vec![
        (vec![0x80], BencodeValue::Integer(1)),
        (vec![0x7f], BencodeValue::Integer(2)),
        (vec![], BencodeValue::Integer(3)),
        (vec![0x7f, 0x00], BencodeValue::Integer(4)),
        (b"B".to_vec(), BencodeValue::Integer(5)),
        (b"a".to_vec(), BencodeValue::Integer(6)),
    ]);
    let mut expected = b"d0:i3e1:Bi5e1:ai6e1:".to_vec();
    expected.extend_from_slice(&[0x7f]);
    expected.extend_from_slice(b"i2e2:");
    expected.extend_from_slice(&[0x7f, 0x00]);
    expected.extend_from_slice(b"i4e1:");
    expected.extend_from_slice(&[0x80]);
    expected.extend_from_slice(b"i1ee");
    assert_eq!(encode(&given), expected);
}

#[test]
fn nested_dictionaries_are_ordered_too() {
    let given = BencodeValue::List(vec![BencodeValue::Dictionary(vec![
        entry(
            "z",
            BencodeValue::Dictionary(vec![
                entry("b", BencodeValue::Integer(2)),
                entry("a", BencodeValue::Integer(1)),
            ]),
        ),
        entry("y", BencodeValue::List(vec![])),
    ])]);
    assert_eq!(encode(&given), b"ld1:yle1:zd1:ai1e1:bi2eeee".to_vec());
}

#[test]
fn equal_keys_stay_in_their_order() {
    let given = BencodeValue::Dictionary(vec![
        entry("k", BencodeValue::Integer(1)),
        entry("a", BencodeValue::Integer(0)),
        entry("k", BencodeValue::Integer(2)),
    ]);
    assert_eq!(encode(&given), b"d1:ai0e1:ki1e1:ki2ee".to_vec());
    assert_eq!(sorted_key_order(&vec![
        entry("k", BencodeValue::Integer(1)),
        entry("a", BencodeValue::Integer(0)),
        entry("k", BencodeValue::Integer(2)),
    ]), vec![1, 0, 2]);
}

#[test]
fn decoding_undoes_encoding() {
    let canonical = BencodeValue::Dictionary(vec![
        entry("a", BencodeValue::List(vec![BencodeValue::Integer(-1), text("x")])),
        entry("b", BencodeValue::Dictionary(vec![entry("c", text(""))])),
        entry("c", BencodeValue::Integer(i64::MIN)),
    ]);
    assert_eq!(decode_bencoded_value(&encode(&canonical)), Ok(canonical));

    let unordered = BencodeValue::Dictionary(vec![
        entry("b", BencodeValue::Integer(2)),
        entry("a", BencodeValue::Integer(1)),
    ]);
    let ordered = BencodeValue::Dictionary(vec![
        entry("a", BencodeValue::Integer(1)),
        entry("b", BencodeValue::Integer(2)),
    ]);
    assert_eq!(decode_bencoded_value(&encode(&unordered)), Ok(ordered));
}

#[test]
fn encoding_again_changes_nothing() {
    let given = BencodeValue::Dictionary(vec![
        entry("spam", BencodeValue::List(vec![text("a"), text("b")])),
        entry("cow", text("moo")),
        entry("", BencodeValue::Integer(0)),
    ]);
    let once = encode(&given);
    let again = encode(&decode_bencoded_value(&once).unwrap());
    assert_eq!(again, once);
    assert_eq!(once, b"d0:i0e3:cow3:moo4:spaml1:a1:bee".to_vec());
}

#[test]
fn duplicate_keys_do_not_survive_a_round_trip() {
    let given = BencodeValue::Dictionary(vec![
        entry("a", BencodeValue::Integer(1)),
        entry("a", BencodeValue::Integer(2)),
    ]);
    assert_eq!(encode(&given), b"d1:ai1e1:ai2ee".to_vec());
    assert_eq!(
        decode_bencoded_value(&encode(&given)),
        Err(DecodeError { kind: BencodeError::DuplicateKey, position: 7 })
    );
}

#[test]
fn byte_strings_compare_bytewise() {
    assert!(bytes_less(b"", b"a"));
    assert!(!bytes_less(b"", b""));
    assert!(!bytes_less(b"a", b""));
    assert!(bytes_less(b"a", b"b"));
    assert!(!bytes_less(b"b", b"a"));
    assert!(bytes_less(b"a", b"aa"));
    assert!(!bytes_less(b"aa", b"a"));
    assert!(bytes_less(b"piece length", b"pieces"));
    assert!(bytes_less(&[0x7f], &[0x80]));
    assert!(!bytes_less(b"abc", b"abc"));
    assert!(bytes_equal(b"abc", b"abc"));
    assert!(!bytes_equal(b"abc", b"abd"));
    assert!(!bytes_equal(b"abc", b"ab"));
    assert!(bytes_equal(b"", b""));
}

#[test]
fn decimal_numerals_are_read_up_to_a_limit() {
    assert_eq!(read_decimal(b"0", 10), Some(0));
    assert_eq!(read_decimal(b"", 10), Some(0));
    assert_eq!(read_decimal(b"10", 10), Some(10));
    assert_eq!(read_decimal(b"11", 10), None);
    assert_eq!(read_decimal(b"007", 10), Some(7));
    assert_eq!(read_decimal(b"1a", 100), None);
    assert_eq!(read_decimal(b"18446744073709551615", u64::MAX), Some(u64::MAX));
    assert_eq!(read_decimal(b"18446744073709551616", u64::MAX), None);
    assert!(is_digit_run(b"0123456789"));
    assert!(is_digit_run(b""));
    assert!(!is_digit_run(b"12:"));
    assert!(!is_digit_run(b"/"));
}

#[test]
fn signed_numerals_are_read_strictly() {
    assert_eq!(read_integer(b"0"), Some(0));
    assert_eq!(read_integer(b"-1"), Some(-1));
    assert_eq!(read_integer(b"120"), Some(120));
    assert_eq!(read_integer(b"-0"), None);
    assert_eq!(read_integer(b"00"), None);
    assert_eq!(read_integer(b"01"), None);
    assert_eq!(read_integer(b""), None);
    assert_eq!(read_integer(b"-"), None);
    assert_eq!(read_integer(b"1-"), None);
    assert_eq!(read_integer(b"9223372036854775807"), Some(i64::MAX));
    assert_eq!(read_integer(b"-9223372036854775808"), Some(i64::MIN));
    assert_eq!(read_integer(b"9223372036854775808"), None);
}

#[test]
fn numerals_are_written_shortest() {
    let mut out = b"x".to_vec();
    write_decimal(&mut out, 0);
    write_decimal(&mut out, 907);
    write_decimal(&mut out, u64::MAX);
    assert_eq!(out, b"x090718446744073709551615".to_vec());
    let mut out = Vec::new();
    write_integer(&mut out, -10);
    write_integer(&mut out, 10);
    assert_eq!(out, b"-1010".to_vec());
}
