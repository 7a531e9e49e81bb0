use sha2::Digest;
use vstd::prelude::*;

verus! {

/// The SHA-256 digest of a byte sequence, named but not written out: the
/// algorithm lives in the sha2 crate and every use in this library goes
/// through `sha256` below.
pub uninterp spec fn sha256_of(data: Seq<u8>) -> Seq<u8>;

/// The RIPEMD-160 digest of a byte sequence, named as `sha256_of` is.
pub uninterp spec fn ripemd160_of(data: Seq<u8>) -> Seq<u8>;

/// Relies on sha2::Sha256 (Digest::chain_update, Digest::finalize): the
/// digest depends on the input bytes alone and is 32 bytes long.
#[verifier::external_body]
pub fn sha256(data: &Vec<u8>) -> (r: Vec<u8>)
    ensures
        r@ == sha256_of(data@),
        r@.len() == 32,
{
    sha2::Sha256::new().chain_update(data).finalize().to_vec()
}

/// Relies on ripemd::Ripemd160 (Digest::chain_update, Digest::finalize): the
/// digest depends on the input bytes alone and is 20 bytes long.
#[verifier::external_body]
pub fn ripemd160(data: &Vec<u8>) -> (r: Vec<u8>)
    ensures
        r@ == ripemd160_of(data@),
        r@.len() == 20,
{
    ripemd::Ripemd160::new().chain_update(data).finalize().to_vec()
}

/// The hash that locks outputs and identifies key owners: RIPEMD-160 over
/// SHA-256 of the public key bytes.
pub open spec fn spec_hash160(data: Seq<u8>) -> Seq<u8> {
    ripemd160_of(sha256_of(data))
}

} // verus!
