//! The content digest: BLAKE2b with 64-byte output, rendered as upper-case
//! hex. The hash itself comes from the blake2 crate; everything around the
//! call is verified against the name `blake2b_of`.

use vstd::prelude::*;
use crate::hex::{hex_of, to_upper_hex, lemma_hex_of_len};
use blake2::Digest;

verus! {

/// The 64-byte BLAKE2b-512 digest of a byte string, named but not spelled
/// out: it depends on the input bytes alone.
pub uninterp spec fn blake2b_of(data: Seq<u8>) -> Seq<u8>;

/// Relies on blake2's `Blake2b512` (BLAKE2b with 512-bit output): the digest
/// is a pure function of the input bytes, 64 bytes long.
#[verifier::external_body]
fn blake2b_digest(data: &[u8]) -> (r: Vec<u8>)
    ensures
        r@ == blake2b_of(data@),
        r@.len() == 64,
{
    blake2::Blake2b512::digest(data).to_vec()
}

/// The digest of a byte string as the 128 upper-case hex characters used to
/// key the hash index.
pub open spec fn digest_hex_of(data: Seq<u8>) -> Seq<char> {
    hex_of(blake2b_of(data))
}

/// Hash a byte string and render the digest as 128 upper-case hex characters.
pub fn blake2_hash(data: &[u8]) -> (r: String)
    ensures
        r@ == digest_hex_of(data@),
        r@.len() == 128,
{
    let d = blake2b_digest(data);
    proof {
        lemma_hex_of_len(d@);
    }
    to_upper_hex(&d)
}

} // verus!
