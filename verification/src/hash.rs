//! The one-way hash function at the heart of every chain: SHA-1, with a
//! fixed 20-byte digest, reached through a single trusted wrapper.

use vstd::prelude::*;

verus! {

/// Width in bytes of a digest of the hash function.
pub const HASH_WIDTH: usize = 20;

/// The SHA-1 digest of a byte string. The digest is a pure function of the
/// input bytes alone; its value is stated nowhere, so everything proved
/// about chains holds for any fixed-width digest in its place.
pub uninterp spec fn digest_of(data: Seq<u8>) -> Seq<u8>;

/// Relies on openssl::sha::sha1: computes the 20-byte SHA-1 digest of the
/// input, a deterministic function of the input bytes alone.
#[verifier::external_body]
pub(crate) fn hash_bytes(data: &Vec<u8>) -> (r: Vec<u8>)
    ensures
        r@ == digest_of(data@),
        r@.len() == HASH_WIDTH,
{
    openssl::sha::sha1(data.as_slice()).to_vec()
}

} // verus!
