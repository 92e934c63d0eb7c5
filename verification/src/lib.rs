//! Bencode decoding, canonical encoding, and torrent metadata hashing.
//!
//! [`decode_bencoded_value`] turns bytes into a [`BencodeValue`], [`encode`]
//! turns a value into its canonical bytes, [`project`] reads a value as
//! torrent metadata, and [`info_hash`] is the digest that identifies a
//! torrent's content. Each is proved to compute a function on plain
//! sequences of bytes: `decode_spec`, `encode_spec`, `project_spec` and
//! `info_hash_spec`. The modules `roundtrip`, `canonical` and `invariance`
//! hold what is proved of those functions together.

pub mod bytes;
pub mod canonical;
pub mod decode;
pub mod digest;
pub mod encode;
pub mod error;
pub mod invariance;
pub mod metadata;
pub mod numeral;
pub mod order;
pub mod roundtrip;
pub mod value;

pub use crate::decode::{decode_bencoded_val, decode_bencoded_value};
pub use crate::encode::encode;
pub use crate::error::{BencodeError, DecodeError, Field};
pub use crate::metadata::{
    info_bytes, info_hash, info_hash_checked, project, InfoDict, TorrentMetadata,
};
pub use crate::value::BencodeValue;
