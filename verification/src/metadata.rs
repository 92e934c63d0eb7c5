//! Torrent metadata: the fixed schema that a decoded value is projected
//! onto, and the hash of its `info` part.

use crate::bytes::bytes_equal;
use crate::decode::{MARK_DICTIONARY, MARK_END, MARK_INTEGER};
use crate::digest::{sha1_digest, sha1_of, MESSAGE_LIMIT};
use crate::encode::{encode_bytes, write_bytes};
use crate::error::{BencodeError, Field};
use crate::numeral::{nat_digits, write_decimal};
use crate::value::{entries_of, keys_of, BencodeTree, BencodeValue};
use vstd::prelude::*;
use vstd::slice::slice_to_vec;
use vstd::string::StringSliceAdditionalSpecFns;
use vstd::utf8::{decode_utf8, encode_utf8, encode_utf8_decode_utf8, valid_utf8};

verus! {

/// The `info` part of a torrent's metadata.
#[derive(Debug, Clone, PartialEq, Eq)]
pub struct InfoDict {
    /// The suggested file name.
    pub name: String,
    /// The file's length in bytes.
    pub length: u64,
    /// The number of bytes in each piece.
    pub piece_length: u64,
    /// The pieces' digests, twenty bytes each, one after the other.
    pub pieces: Vec<u8>,
}

/// A torrent's metadata.
#[derive(Debug, Clone, PartialEq, Eq)]
pub struct TorrentMetadata {
    /// The tracker's URL.
    pub announce: String,
    pub info: InfoDict,
}

/// The model of an [`InfoDict`].
pub struct InfoDictView {
    pub name: Seq<char>,
    pub length: nat,
    pub piece_length: nat,
    pub pieces: Seq<u8>,
}

/// The model of a [`TorrentMetadata`].
pub struct TorrentMetadataView {
    pub announce: Seq<char>,
    pub info: InfoDictView,
}

impl View for InfoDict {
    type V = InfoDictView;

    open spec fn view(&self) -> InfoDictView {
        InfoDictView {
            name: self.name@,
            length: self.length as nat,
            piece_length: self.piece_length as nat,
            pieces: self.pieces@,
        }
    }
}

impl View for TorrentMetadata {
    type V = TorrentMetadataView;

    open spec fn view(&self) -> TorrentMetadataView {
        TorrentMetadataView { announce: self.announce@, info: self.info@ }
    }
}

impl InfoDictView {
    /// The digests in `pieces` are whole: twenty bytes each.
    pub open spec fn is_well_formed(self) -> bool {
        self.pieces.len() % 20 == 0
    }
}

/// The key `announce`.
pub open spec fn key_announce() -> Seq<u8> {
    seq![0x61u8, 0x6e, 0x6e, 0x6f, 0x75, 0x6e, 0x63, 0x65]
}

/// The key `info`.
pub open spec fn key_info() -> Seq<u8> {
    seq![0x69u8, 0x6e, 0x66, 0x6f]
}

/// The key `length`.
pub open spec fn key_length() -> Seq<u8> {
    seq![0x6cu8, 0x65, 0x6e, 0x67, 0x74, 0x68]
}

/// The key `name`.
pub open spec fn key_name() -> Seq<u8> {
    seq![0x6eu8, 0x61, 0x6d, 0x65]
}

/// The key `piece length`.
pub open spec fn key_piece_length() -> Seq<u8> {
    seq![0x70u8, 0x69, 0x65, 0x63, 0x65, 0x20, 0x6c, 0x65, 0x6e, 0x67, 0x74, 0x68]
}

/// The key `pieces`.
pub open spec fn key_pieces() -> Seq<u8> {
    seq![0x70u8, 0x69, 0x65, 0x63, 0x65, 0x73]
}

/// What the first entry with the key `key` holds.
pub open spec fn lookup(entries: Seq<(Seq<u8>, BencodeTree)>, key: Seq<u8>) -> Option<
    BencodeTree,
> {
    match keys_of(entries).index_of_first(key) {
        Some(i) => Some(entries[i].1),
        None => None,
    }
}

/// What `v` holds under `key`, if `v` is a dictionary with that key.
pub open spec fn field(v: BencodeTree, key: Seq<u8>) -> Option<BencodeTree> {
    match v {
        BencodeTree::Dictionary(entries) => lookup(entries, key),
        _ => None,
    }
}

/// The text under `key`: a byte string that is valid UTF-8.
pub open spec fn text_field(v: BencodeTree, key: Seq<u8>) -> Option<Seq<char>> {
    match field(v, key) {
        Some(BencodeTree::ByteString(b)) => if valid_utf8(b) {
            Some(decode_utf8(b))
        } else {
            None
        },
        _ => None,
    }
}

/// The count under `key`: an integer that is not negative.
pub open spec fn count_field(v: BencodeTree, key: Seq<u8>) -> Option<nat> {
    match field(v, key) {
        Some(BencodeTree::Integer(n)) => if n >= 0 {
            Some(n as nat)
        } else {
            None
        },
        _ => None,
    }
}

/// The byte string under `key`.
pub open spec fn bytes_field(v: BencodeTree, key: Seq<u8>) -> Option<Seq<u8>> {
    match field(v, key) {
        Some(BencodeTree::ByteString(b)) => Some(b),
        _ => None,
    }
}

/// The `info` part that `v` stands for. The fields are looked at in the
/// order `name`, `length`, `piece length`, `pieces`, and the first that is
/// absent or of the wrong shape is the one reported.
pub open spec fn project_info_spec(v: BencodeTree) -> Result<InfoDictView, BencodeError> {
    match text_field(v, key_name()) {
        None => Err(BencodeError::SchemaMismatch(Field::Name)),
        Some(name) => match count_field(v, key_length()) {
            None => Err(BencodeError::SchemaMismatch(Field::Length)),
            Some(length) => match count_field(v, key_piece_length()) {
                None => Err(BencodeError::SchemaMismatch(Field::PieceLength)),
                Some(piece_length) => match bytes_field(v, key_pieces()) {
                    Some(pieces) => if pieces.len() % 20 == 0 {
                        Ok(InfoDictView { name, length, piece_length, pieces })
                    } else {
                        Err(BencodeError::SchemaMismatch(Field::Pieces))
                    },
                    None => Err(BencodeError::SchemaMismatch(Field::Pieces)),
                },
            },
        },
    }
}

/// The metadata that `v` stands for: `announce` first, then `info`, which
/// must be a dictionary, then the fields of `info`.
pub open spec fn project_spec(v: BencodeTree) -> Result<TorrentMetadataView, BencodeError> {
    match text_field(v, key_announce()) {
        None => Err(BencodeError::SchemaMismatch(Field::Announce)),
        Some(announce) => match field(v, key_info()) {
            Some(BencodeTree::Dictionary(entries)) => match project_info_spec(
                BencodeTree::Dictionary(entries),
            ) {
                Ok(info) => Ok(TorrentMetadataView { announce, info }),
                Err(e) => Err(e),
            },
            _ => Err(BencodeError::SchemaMismatch(Field::Info)),
        },
    }
}

/// A count on the wire: `i`, the shortest decimal numeral, `e`.
pub open spec fn encode_count(n: nat) -> Seq<u8> {
    seq![MARK_INTEGER] + nat_digits(n) + seq![MARK_END]
}

/// The canonical encoding of an `info` part: a dictionary of its four
/// fields under the keys `length`, `name`, `piece length` and `pieces`, in
/// that order, which is the order of the keys' bytes.
pub open spec fn info_encoding(info: InfoDictView) -> Seq<u8> {
    seq![MARK_DICTIONARY] + encode_bytes(key_length()) + encode_count(info.length) + encode_bytes(
        key_name(),
    ) + encode_bytes(encode_utf8(info.name)) + encode_bytes(key_piece_length()) + encode_count(
        info.piece_length,
    ) + encode_bytes(key_pieces()) + encode_bytes(info.pieces) + seq![MARK_END]
}

/// The info hash of an `info` part: the SHA-1 digest of its canonical
/// encoding.
pub open spec fn info_hash_spec(info: InfoDictView) -> Seq<u8> {
    sha1_of(info_encoding(info))
}

/// An `info` part as a dictionary. Its counts must fit an integer of the
/// value tree.
pub open spec fn info_tree(info: InfoDictView) -> BencodeTree {
    BencodeTree::Dictionary(
        seq![
            (key_length(), BencodeTree::Integer(info.length as i64)),
            (key_name(), BencodeTree::ByteString(encode_utf8(info.name))),
            (key_piece_length(), BencodeTree::Integer(info.piece_length as i64)),
            (key_pieces(), BencodeTree::ByteString(info.pieces)),
        ],
    )
}

/// Calls `core::str::from_utf8`: the bytes as text if they are valid UTF-8,
/// and nothing otherwise. The text has exactly these bytes.
#[verifier::external_body]
pub(crate) fn str_from_utf8(bytes: &[u8]) -> (r: Option<&str>)
    ensures
        r is Some <==> valid_utf8(bytes@),
        r matches Some(text) ==> text.spec_bytes() == bytes@,
{
    core::str::from_utf8(bytes).ok()
}

/// The bytes of the key `announce`.
fn announce_key() -> (key: [u8; 8])
    ensures
        key@ == key_announce(),
{
    let key: [u8; 8] = [0x61, 0x6e, 0x6e, 0x6f, 0x75, 0x6e, 0x63, 0x65];
    assert(key@ =~= key_announce());
    key
}

/// The bytes of the key `info`.
fn info_key() -> (key: [u8; 4])
    ensures
        key@ == key_info(),
{
    let key: [u8; 4] = [0x69, 0x6e, 0x66, 0x6f];
    assert(key@ =~= key_info());
    key
}

/// The bytes of the key `length`.
fn length_key() -> (key: [u8; 6])
    ensures
        key@ == key_length(),
{
    let key: [u8; 6] = [0x6c, 0x65, 0x6e, 0x67, 0x74, 0x68];
    assert(key@ =~= key_length());
    key
}

/// The bytes of the key `name`.
fn name_key() -> (key: [u8; 4])
    ensures
        key@ == key_name(),
{
    let key: [u8; 4] = [0x6e, 0x61, 0x6d, 0x65];
    assert(key@ =~= key_name());
    key
}

/// The bytes of the key `piece length`.
fn piece_length_key() -> (key: [u8; 12])
    ensures
        key@ == key_piece_length(),
{
    let key: [u8; 12] = [0x70, 0x69, 0x65, 0x63, 0x65, 0x20, 0x6c, 0x65, 0x6e, 0x67, 0x74, 0x68];
    assert(key@ =~= key_piece_length());
    key
}

/// The bytes of the key `pieces`.
fn pieces_key() -> (key: [u8; 6])
    ensures
        key@ == key_pieces(),
{
    let key: [u8; 6] = [0x70, 0x69, 0x65, 0x63, 0x65, 0x73];
    assert(key@ =~= key_pieces());
    key
}

/// Finds what the first entry of `value` with the key `key` holds.
pub fn find_field<'a>(value: &'a BencodeValue, key: &[u8]) -> (r: Option<&'a BencodeValue>)
    ensures
        match r {
            Some(found) => field(value@, key@) == Some(found@),
            None => field(value@, key@) is None,
        },
{
    match value {
        BencodeValue::Dictionary(entries) => {
            let ghost keys = keys_of(entries_of(entries@));
            let mut i: usize = 0;
            while i < entries.len()
                invariant
                    i <= entries.len(),
                    value@ == BencodeTree::Dictionary(entries_of(entries@)),
                    keys == keys_of(entries_of(entries@)),
                    forall|j: int| 0 <= j < i ==> keys[j] != key@,
                decreases entries.len() - i,
            {
                if bytes_equal(entries[i].0.as_slice(), key) {
                    proof {
                        keys.index_of_first_ensures(key@);
                        assert(keys[i as int] == key@);
                        assert(entries_of(entries@)[i as int].1 == entries@[i as int].1@);
                    }
                    return Some(&entries[i].1);
                }
                i += 1;
            }
            proof {
                keys.index_of_first_ensures(key@);
            }
            None
        },
        _ => None,
    }
}

/// Reads the text under `key`.
fn find_text(value: &BencodeValue, key: &[u8]) -> (r: Option<String>)
    ensures
        match r {
            Some(text) => text_field(value@, key@) == Some(text@),
            None => text_field(value@, key@) is None,
        },
{
    match find_field(value, key) {
        Some(BencodeValue::ByteString(b)) => match str_from_utf8(b.as_slice()) {
            Some(text) => {
                proof {
                    encode_utf8_decode_utf8(text@);
                }
                Some(text.to_owned())
            },
            None => None,
        },
        _ => None,
    }
}

/// Reads the count under `key`.
fn find_count(value: &BencodeValue, key: &[u8]) -> (r: Option<u64>)
    ensures
        match r {
            Some(n) => count_field(value@, key@) == Some(n as nat),
            None => count_field(value@, key@) is None,
        },
{
    match find_field(value, key) {
        Some(BencodeValue::Integer(n)) => if *n >= 0 {
            Some(*n as u64)
        } else {
            None
        },
        _ => None,
    }
}

/// Projects a decoded dictionary onto the `info` schema.
pub fn project_info(value: &BencodeValue) -> (r: Result<InfoDict, BencodeError>)
    ensures
        match r {
            Ok(info) => project_info_spec(value@) == Ok::<InfoDictView, BencodeError>(info@)
                && info@.is_well_formed(),
            Err(e) => project_info_spec(value@) == Err::<InfoDictView, BencodeError>(e),
        },
{
    let key_name = name_key();
    let key_length = length_key();
    let key_piece_length = piece_length_key();
    let key_pieces = pieces_key();
    let name = match find_text(value, key_name.as_slice()) {
        Some(name) => name,
        None => {
            return Err(BencodeError::SchemaMismatch(Field::Name));
        },
    };
    let length = match find_count(value, key_length.as_slice()) {
        Some(length) => length,
        None => {
            return Err(BencodeError::SchemaMismatch(Field::Length));
        },
    };
    let piece_length = match find_count(value, key_piece_length.as_slice()) {
        Some(piece_length) => piece_length,
        None => {
            return Err(BencodeError::SchemaMismatch(Field::PieceLength));
        },
    };
    let pieces = match find_field(value, key_pieces.as_slice()) {
        Some(BencodeValue::ByteString(b)) => {
            if b.len() % 20 != 0 {
                return Err(BencodeError::SchemaMismatch(Field::Pieces));
            }
            slice_to_vec(b.as_slice())
        },
        _ => {
            return Err(BencodeError::SchemaMismatch(Field::Pieces));
        },
    };
    Ok(InfoDict { name, length, piece_length, pieces })
}

/// Projects a decoded value onto the metadata schema. Either every field
/// is there and well shaped, or the first that is not is reported.
pub fn project(value: &BencodeValue) -> (r: Result<TorrentMetadata, BencodeError>)
    ensures
        match r {
            Ok(metadata) => project_spec(value@) == Ok::<TorrentMetadataView, BencodeError>(
                metadata@,
            ) && metadata@.info.is_well_formed(),
            Err(e) => project_spec(value@) == Err::<TorrentMetadataView, BencodeError>(e),
        },
{
    let key_announce = announce_key();
    let key_info = info_key();
    let announce = match find_text(value, key_announce.as_slice()) {
        Some(announce) => announce,
        None => {
            return Err(BencodeError::SchemaMismatch(Field::Announce));
        },
    };
    match find_field(value, key_info.as_slice()) {
        Some(info_value) => match info_value {
            BencodeValue::Dictionary(_) => match project_info(info_value) {
                Ok(info) => Ok(TorrentMetadata { announce, info }),
                Err(e) => Err(e),
            },
            _ => Err(BencodeError::SchemaMismatch(Field::Info)),
        },
        None => Err(BencodeError::SchemaMismatch(Field::Info)),
    }
}

/// Appends a count as it stands on the wire.
fn write_count(out: &mut Vec<u8>, n: u64)
    ensures
        final(out)@ == old(out)@ + encode_count(n as nat),
{
    out.push(MARK_INTEGER);
    write_decimal(out, n);
    out.push(MARK_END);
}

/// The canonical encoding of an `info` part: the bytes that are hashed.
pub fn info_bytes(info: &InfoDict) -> (out: Vec<u8>)
    ensures
        out@ == info_encoding(info@),
{
    let key_name = name_key();
    let key_length = length_key();
    let key_piece_length = piece_length_key();
    let key_pieces = pieces_key();
    let mut out: Vec<u8> = Vec::new();
    out.push(MARK_DICTIONARY);
    write_bytes(&mut out, key_length.as_slice());
    write_count(&mut out, info.length);
    write_bytes(&mut out, key_name.as_slice());
    write_bytes(&mut out, info.name.as_str().as_bytes());
    write_bytes(&mut out, key_piece_length.as_slice());
    write_count(&mut out, info.piece_length);
    write_bytes(&mut out, key_pieces.as_slice());
    write_bytes(&mut out, info.pieces.as_slice());
    out.push(MARK_END);
    out
}

/// The info hash: the SHA-1 digest of the canonical encoding of `info`.
/// It depends on the four fields alone. The encoding must be short enough
/// to be hashed; [`info_hash_checked`] is for a caller who does not know
/// that it is.
pub fn info_hash(info: &InfoDict) -> (digest: [u8; 20])
    requires
        info_encoding(info@).len() < MESSAGE_LIMIT,
    ensures
        digest@ == info_hash_spec(info@),
{
    let bytes = info_bytes(info);
    sha1_digest(bytes.as_slice())
}

/// The info hash of `info`, or nothing where the canonical encoding of
/// `info` is too long to be hashed.
pub fn info_hash_checked(info: &InfoDict) -> (r: Option<[u8; 20]>)
    ensures
        match r {
            Some(digest) => digest@ == info_hash_spec(info@),
            None => info_encoding(info@).len() >= MESSAGE_LIMIT,
        },
{
    let bytes = info_bytes(info);
    if bytes.len() as u64 >= MESSAGE_LIMIT {
        None
    } else {
        Some(sha1_digest(bytes.as_slice()))
    }
}

} // verus!
