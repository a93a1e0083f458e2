//! SHA-256 of dumped data, as printed after a read.
use crate::text::{hex_lower_bytes, push_hex_bytes, string_from_chars};
use sha2::{Digest, Sha256};
use vstd::prelude::*;

verus! {

/// The SHA-256 digest of `data` (FIPS 180-4), as computed by the `sha2` crate.
pub uninterp spec fn sha256_of(data: Seq<u8>) -> Seq<u8>;

/// `sha2::Sha256::digest`: the 32-byte SHA-256 digest of `data`. The
/// digest itself is named, not restated; its length is the documented
/// output size.
#[verifier::external_body]
fn sha256(data: &[u8]) -> (r: Vec<u8>)
    ensures
        r@ == sha256_of(data@),
        r@.len() == 32,
{
    Sha256::digest(data).to_vec()
}

/// The SHA-256 digest of `data` as 64 lower-case hex digits.
pub fn sha256_hex(data: &[u8]) -> (r: String)
    ensures
        r@ == hex_lower_bytes(sha256_of(data@)),
{
    let d = sha256(data);
    let mut v: Vec<char> = Vec::new();
    push_hex_bytes(&mut v, d.as_slice());
    assert(v@ =~= hex_lower_bytes(sha256_of(data@)));
    string_from_chars(v.as_slice())
}

} // verus!
