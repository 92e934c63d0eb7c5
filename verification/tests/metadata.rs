use bencode::metadata::{find_field, project_info};
use bencode::{
    decode_bencoded_value, encode, info_bytes, info_hash, info_hash_checked, project,
    BencodeError, BencodeValue, Field, InfoDict, TorrentMetadata,
};

fn pieces(n: usize) -> Vec<u8> {
    (0..n * 20).map(|i| i as u8).collect()
}

fn sample_info() -> InfoDict {
    InfoDict {
        name: String::from("sample.txt"),
        length: 92063,
        piece_length: 32768,
        pieces: pieces(3),
    }
}

fn torrent_file(info_fields: &[&[u8]]) -> Vec<u8> {
    let mut file = b"d8:announce31:http://tracker.example/announce4:infod".to_vec();
    for field in info_fields {
        file.extend_from_slice(field);
    }
    file.extend_from_slice(b"ee");
    file
}

fn pieces_field() -> Vec<u8> {
    let mut field = b"6:pieces60:".to_vec();
    field.extend_from_slice(&pieces(3));
    field
}

#[test]
fn metadata_is_projected_field_by_field() {
    let file = torrent_file(&[
        b"6:lengthi92063e",
        b"4:name10:sample.txt",
        b"12:piece lengthi32768e",
        &pieces_field(),
    ]);
    let tree = decode_bencoded_value(&file).unwrap();
    assert_eq!(
        project(&tree),
        Ok(TorrentMetadata {
            announce: String::from("http://tracker.example/announce"),
            info: sample_info(),
        })
    );
}

#[test]
fn info_hash_is_the_digest_of_the_canonical_encoding() {
    let info = sample_info();
    let mut expected = b"d6:lengthi92063e4:name10:sample.txt12:piece lengthi32768e6:pieces60:"
        .to_vec();
    expected.extend_from_slice(&pieces(3));
    expected.push(b'e');
    assert_eq!(info_bytes(&info), expected);
    assert_eq!(
        info_hash(&info),
        [
            0xf5, 0x19, 0xc3, 0xa2, 0x41, 0x44, 0xa8, 0x64, 0x9e, 0x58, 0xef, 0xc3, 0xe3, 0x59,
            0xb5, 0x1a, 0x38, 0x60, 0x54, 0xd6,
        ]
    );
}

#[test]
fn info_hash_of_an_empty_file() {
    let info = InfoDict { name: String::new(), length: 0, piece_length: 0, pieces: vec![] };
    assert_eq!(info_bytes(&info), b"d6:lengthi0e4:name0:12:piece lengthi0e6:pieces0:e".to_vec());
    assert_eq!(
        info_hash(&info),
        [
            0x85, 0xc1, 0x3b, 0x16, 0x2e, 0xf9, 0x08, 0x27, 0x2a, 0x8f, 0xc8, 0xd7, 0x21, 0x17,
            0x3e, 0x6d, 0x93, 0x2b, 0xc0, 0xf1,
        ]
    );
}

#[test]
fn checked_info_hash_is_the_info_hash() {
    let info = sample_info();
    assert_eq!(info_hash_checked(&info), Some(info_hash(&info)));
    let empty = InfoDict { name: String::new(), length: 0, piece_length: 0, pieces: vec![] };
    assert_eq!(
        info_hash_checked(&empty),
        Some([
            0x85, 0xc1, 0x3b, 0x16, 0x2e, 0xf9, 0x08, 0x27, 0x2a, 0x8f, 0xc8, 0xd7, 0x21, 0x17,
            0x3e, 0x6d, 0x93, 0x2b, 0xc0, 0xf1,
        ])
    );
}

#[test]
fn info_hash_is_deterministic() {
    let first = info_hash(&sample_info());
    let second = info_hash(&sample_info());
    assert_eq!(first, second);
    let mut other = sample_info();
    other.length += 1;
    assert_ne!(info_hash(&other), first);
}

#[test]
fn info_hash_does_not_depend_on_key_order() {
    let ordered = torrent_file(&[
        b"6:lengthi92063e",
        b"4:name10:sample.txt",
        b"12:piece lengthi32768e",
        &pieces_field(),
    ]);
    let shuffled = torrent_file(&[
        &pieces_field(),
        b"4:name10:sample.txt",
        b"6:lengthi92063e",
        b"12:piece lengthi32768e",
    ]);
    let first = project(&decode_bencoded_value(&ordered).unwrap()).unwrap();
    let second = project(&decode_bencoded_value(&shuffled).unwrap()).unwrap();
    assert_eq!(first, second);
    assert_eq!(info_hash(&first.info), info_hash(&second.info));
}

#[test]
fn info_bytes_are_the_encoding_of_the_info_dictionary() {
    let shuffled = torrent_file(&[
        &pieces_field(),
        b"4:name10:sample.txt",
        b"6:lengthi92063e",
        b"12:piece lengthi32768e",
    ]);
    let tree = decode_bencoded_value(&shuffled).unwrap();
    let info_tree = find_field(&tree, b"info").unwrap();
    let info = project_info(info_tree).unwrap();
    assert_eq!(info_bytes(&info), encode(info_tree));
}

#[test]
fn large_counts_are_hashed_as_they_are() {
    let info = InfoDict {
        name: String::from("x"),
        length: u64::MAX,
        piece_length: 1,
        pieces: vec![],
    };
    assert_eq!(
        info_bytes(&info),
        b"d6:lengthi18446744073709551615e4:name1:x12:piece lengthi1e6:pieces0:e".to_vec()
    );
}

#[test]
fn missing_length_is_reported() {
    let file = torrent_file(&[b"4:name10:sample.txt", b"12:piece lengthi32768e", &pieces_field()]);
    let tree = decode_bencoded_value(&file).unwrap();
    assert_eq!(project(&tree), Err(BencodeError::SchemaMismatch(Field::Length)));
}

#[test]
fn each_field_is_reported_when_absent() {
    let length: &[u8] = b"6:lengthi92063e";
    let name: &[u8] = b"4:name10:sample.txt";
    let piece_length: &[u8] = b"12:piece lengthi32768e";
    let all_pieces = pieces_field();
    let tree = decode_bencoded_value(&torrent_file(&[length, piece_length, &all_pieces])).unwrap();
    assert_eq!(project(&tree), Err(BencodeError::SchemaMismatch(Field::Name)));
    let tree = decode_bencoded_value(&torrent_file(&[length, name, &all_pieces])).unwrap();
    assert_eq!(project(&tree), Err(BencodeError::SchemaMismatch(Field::PieceLength)));
    let tree = decode_bencoded_value(&torrent_file(&[length, name, piece_length])).unwrap();
    assert_eq!(project(&tree), Err(BencodeError::SchemaMismatch(Field::Pieces)));
    let tree = decode_bencoded_value(b"d4:infodee").unwrap();
    assert_eq!(project(&tree), Err(BencodeError::SchemaMismatch(Field::Announce)));
    let tree = decode_bencoded_value(b"d8:announce1:ae").unwrap();
    assert_eq!(project(&tree), Err(BencodeError::SchemaMismatch(Field::Info)));
    let tree = decode_bencoded_value(b"de").unwrap();
    assert_eq!(project(&tree), Err(BencodeError::SchemaMismatch(Field::Announce)));
}

#[test]
fn the_first_failing_field_is_the_one_reported() {
    let tree = decode_bencoded_value(&torrent_file(&[])).unwrap();
    assert_eq!(project(&tree), Err(BencodeError::SchemaMismatch(Field::Name)));
    let tree = decode_bencoded_value(&torrent_file(&[b"4:name1:x"])).unwrap();
    assert_eq!(project(&tree), Err(BencodeError::SchemaMismatch(Field::Length)));
}

#[test]
fn fields_of_the_wrong_shape_are_reported() {
    let all_pieces = pieces_field();
    let length: &[u8] = b"6:lengthi92063e";
    let name: &[u8] = b"4:name10:sample.txt";
    let piece_length: &[u8] = b"12:piece lengthi32768e";

    let tree =
        decode_bencoded_value(&torrent_file(&[b"6:length5:92063", name, piece_length, &all_pieces]))
            .unwrap();
    assert_eq!(project(&tree), Err(BencodeError::SchemaMismatch(Field::Length)));

    let tree =
        decode_bencoded_value(&torrent_file(&[b"6:lengthi-1e", name, piece_length, &all_pieces]))
            .unwrap();
    assert_eq!(project(&tree), Err(BencodeError::SchemaMismatch(Field::Length)));

    let tree =
        decode_bencoded_value(&torrent_file(&[length, b"4:namei7e", piece_length, &all_pieces]))
            .unwrap();
    assert_eq!(project(&tree), Err(BencodeError::SchemaMismatch(Field::Name)));

    let tree = decode_bencoded_value(&torrent_file(&[length, name, b"12:piece lengthle", &all_pieces]))
        .unwrap();
    assert_eq!(project(&tree), Err(BencodeError::SchemaMismatch(Field::PieceLength)));

    let tree =
        decode_bencoded_value(&torrent_file(&[length, name, piece_length, b"6:piecesi0e"])).unwrap();
    assert_eq!(project(&tree), Err(BencodeError::SchemaMismatch(Field::Pieces)));

    let tree = decode_bencoded_value(b"d8:announcei1e4:infodee").unwrap();
    assert_eq!(project(&tree), Err(BencodeError::SchemaMismatch(Field::Announce)));

    let tree = decode_bencoded_value(b"d8:announce1:a4:info2:dee").unwrap();
    assert_eq!(project(&tree), Err(BencodeError::SchemaMismatch(Field::Info)));

    assert_eq!(
        project(&BencodeValue::List(vec![])),
        Err(BencodeError::SchemaMismatch(Field::Announce))
    );
}

#[test]
fn pieces_must_be_whole_digests() {
    let length: &[u8] = b"6:lengthi92063e";
    let name: &[u8] = b"4:name10:sample.txt";
    let piece_length: &[u8] = b"12:piece lengthi32768e";
    let tree = decode_bencoded_value(&torrent_file(&[
        length,
        name,
        piece_length,
        b"6:pieces19:0123456789012345678",
    ]))
    .unwrap();
    assert_eq!(project(&tree), Err(BencodeError::SchemaMismatch(Field::Pieces)));
    let tree = decode_bencoded_value(&torrent_file(&[
        length,
        name,
        piece_length,
        b"6:pieces21:012345678901234567890",
    ]))
    .unwrap();
    assert_eq!(project(&tree), Err(BencodeError::SchemaMismatch(Field::Pieces)));
    let tree =
        decode_bencoded_value(&torrent_file(&[length, name, piece_length, b"6:pieces0:"])).unwrap();
    assert_eq!(project(&tree).unwrap().info.pieces, Vec::<u8>::new());
}

#[test]
fn text_must_be_valid_utf8() {
    let all_pieces = pieces_field();
    let mut bad_name = b"4:name2:".to_vec();
    bad_name.extend_from_slice(&[0xff, 0xfe]);
    let tree = decode_bencoded_value(&torrent_file(&[
        b"6:lengthi1e",
        &bad_name,
        b"12:piece lengthi1e",
        &all_pieces,
    ]))
    .unwrap();
    assert_eq!(project(&tree), Err(BencodeError::SchemaMismatch(Field::Name)));

    let mut good_name = b"4:name2:".to_vec();
    good_name.extend_from_slice("é".as_bytes());
    let tree = decode_bencoded_value(&torrent_file(&[
        b"6:lengthi1e",
        &good_name,
        b"12:piece lengthi1e",
        &all_pieces,
    ]))
    .unwrap();
    let metadata = project(&tree).unwrap();
    assert_eq!(metadata.info.name, "é");
    let mut expected = b"d6:lengthi1e4:name2:".to_vec();
    expected.extend_from_slice("é".as_bytes());
    expected.extend_from_slice(b"12:piece lengthi1e");
    expected.extend_from_slice(&all_pieces);
    expected.push(b'e');
    assert_eq!(info_bytes(&metadata.info), expected);
}

#[test]
fn fields_are_found_by_key() {
    let tree = decode_bencoded_value(b"d1:ai1e1:bi2ee").unwrap();
    assert_eq!(find_field(&tree, b"b"), Some(&BencodeValue::Integer(2)));
    assert_eq!(find_field(&tree, b"c"), None);
    assert_eq!(find_field(&BencodeValue::Integer(1), b"a"), None);
    let twice = BencodeValue::Dictionary(vec![
        (b"k".to_vec(), BencodeValue::Integer(1)),
        (b"k".to_vec(), BencodeValue::Integer(2)),
    ]);
    assert_eq!(find_field(&twice, b"k"), Some(&BencodeValue::Integer(1)));
}
