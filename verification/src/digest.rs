//! The digest that identifies a torrent's content.

use sha1::{Digest, Sha1};
use vstd::prelude::*;

verus! {

/// The length in bytes from which on a message is too long to be hashed:
/// the hasher counts the bits of a message in a 64-bit number.
pub const MESSAGE_LIMIT: u64 = 0x2000_0000_0000_0000;

/// The SHA-1 digest of a byte string: twenty bytes that depend on the bytes
/// of the message and on nothing else.
pub uninterp spec fn sha1_of(message: Seq<u8>) -> Seq<u8>;

/// Calls `Sha1::digest` of the `sha1` crate. The contract names its result
/// and claims nothing of it but that it is the digest of these bytes. A
/// message of `MESSAGE_LIMIT` bytes or more is left out, because the crate
/// computes the message's length in bits without a check for overflow.
#[verifier::external_body]
pub(crate) fn sha1_digest(message: &[u8]) -> (digest: [u8; 20])
    requires
        message@.len() < MESSAGE_LIMIT,
    ensures
        digest@ == sha1_of(message@),
{
    Sha1::digest(message).into()
}

} // verus!
