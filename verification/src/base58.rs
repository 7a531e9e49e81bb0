use vstd::prelude::*;

verus! {

/// The base-58 rendering (Bitcoin alphabet) of a byte string, named but not
/// written out: the alphabet arithmetic lives in the bs58 crate and every
/// use in this library goes through the two functions below.
pub uninterp spec fn base58_of(data: Seq<u8>) -> Seq<u8>;

/// Relies on bs58::encode with the Bitcoin alphabet: the rendering depends
/// on the input bytes alone.
#[verifier::external_body]
pub fn base58_encode(data: &Vec<u8>) -> (r: Vec<u8>)
    ensures
        r@ == base58_of(data@),
{
    bs58::encode(data).with_alphabet(bs58::Alphabet::BITCOIN).into_vec()
}

/// Relies on bs58::decode with the Bitcoin alphabet. Decoding inverts
/// encoding exactly: it succeeds precisely on the encoder's outputs (a
/// leading-one prefix counts zero bytes and the remaining digits are the
/// canonical base-58 form of the remaining bytes, so each byte string has
/// one rendering and each valid rendering one byte string), and it returns
/// the bytes the encoder was given.
#[verifier::external_body]
pub fn base58_decode(data: &Vec<u8>) -> (r: Option<Vec<u8>>)
    ensures
        r is Some ==> data@ == base58_of(r->0@),
        forall|v: Seq<u8>| data@ == base58_of(v) ==> r is Some && r->0@ == v,
{
    bs58::decode(data).with_alphabet(bs58::Alphabet::BITCOIN).into_vec().ok()
}

} // verus!
