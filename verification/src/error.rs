//! The ways in which decoding and projection fail.

use vstd::prelude::*;

verus! {

/// A field of the torrent metadata schema.
#[derive(Debug, Clone, Copy, PartialEq, Eq)]
pub enum Field {
    Announce,
    Info,
    Name,
    Length,
    PieceLength,
    Pieces,
}

/// Why a byte string could not be decoded, or a value not projected.
#[derive(Debug, Clone, Copy, PartialEq, Eq)]
pub enum BencodeError {
    /// A string length, an integer, a list or a dictionary was not
    /// terminated before the input ended.
    UnexpectedEndOfInput,
    /// The digits of a length or of an integer are no numeral of the
    /// grammar, or denote a number that does not fit.
    InvalidNumeral,
    /// A value starts with a byte that is no type marker, or the input is
    /// empty where a value must start.
    UnknownMarker,
    /// A dictionary key decoded to a value that is no byte string.
    DictionaryKeyTypeError,
    /// A dictionary holds the same key twice.
    DuplicateKey,
    /// A field of the metadata schema is absent or has the wrong shape.
    SchemaMismatch(Field),
    /// A complete value is followed by more bytes.
    TrailingData,
}

/// A failure to decode: its kind, and the position in the input of the
/// byte at which it was found. An input that ends too early fails at its
/// end, the position that is the input's length.
#[derive(Debug, Clone, Copy, PartialEq, Eq)]
pub struct DecodeError {
    pub kind: BencodeError,
    pub position: usize,
}

} // verus!
