//! Content digests for chunk integrity, delegated to the `sha2` crate.

use vstd::prelude::*;

verus! {

/// The lower-case hex digest that SHA-256 assigns to a byte string: a
/// function of the bytes alone.
pub uninterp spec fn sha256_hex_of(bytes: Seq<u8>) -> Seq<char>;

/// Relies on sha2's `Sha256::digest` and its lower-hex formatting: the
/// digest depends on the input bytes alone.
#[verifier::external_body]
pub fn sha256_hex(bytes: &Vec<u8>) -> (r: String)
    ensures
        r@ == sha256_hex_of(bytes@),
{
    format!("{:x}", <sha2::Sha256 as sha2::Digest>::digest(bytes.as_slice()))
}

} // verus!
