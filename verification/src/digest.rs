//! The digest primitive: an opaque 160-bit function over bytes, computed by
//! an outside library and named here so contracts can speak about it.

use vstd::prelude::*;

verus! {

/// The digest of a byte string.  The function is opaque: the library states
/// nothing about its value beyond its length, which the wrapper below
/// guarantees per call.
pub uninterp spec fn digest_of(data: Seq<u8>) -> Seq<u8>;

/// Relies on `sha1::Sha1::from` and `Digest::bytes`: a SHA-1 digest depends
/// on the input bytes alone and is exactly 20 bytes long.
#[verifier::external_body]
pub(crate) fn sha1_digest(data: &Vec<u8>) -> (r: Vec<u8>)
    ensures
        r@ == digest_of(data@),
        r@.len() == 20,
{
    sha1::Sha1::from(data.as_slice()).digest().bytes().to_vec()
}

} // verus!
