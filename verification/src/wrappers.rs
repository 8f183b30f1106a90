//! The library's few calls into outside crates, each behind a contract.
use sha2::Digest;
use vstd::prelude::*;
use vstd::string::StringSliceAdditionalSpecFns;

verus! {

/// The SHA-256 digest of a byte sequence: 32 bytes determined by the input
/// alone.
pub uninterp spec fn sha256_of(data: Seq<u8>) -> Seq<u8>;

/// Relies on sha2's `Sha256::digest`: the SHA-256 digest, 32 bytes, a
/// function of the input bytes alone.
#[verifier::external_body]
pub fn sha256(data: &str) -> (r: Vec<u8>)
    ensures
        r@ == sha256_of(data.spec_bytes()),
        r@.len() == 32,
{
    sha2::Sha256::digest(data.as_bytes()).to_vec()
}

/// Relies on rand's `random_range`: a draw from the thread-local generator
/// within the given inclusive bounds.
#[verifier::external_body]
pub fn random_tag(lo: u32, hi: u32) -> (r: u32)
    requires
        lo <= hi,
    ensures
        lo <= r <= hi,
{
    rand::random_range(lo..=hi)
}

/// Relies on uuid's `Uuid::new_v4`: a freshly drawn random identifier, of
/// which nothing is promised.
#[verifier::external_body]
pub fn fresh_uuid() -> (r: u128) {
    uuid::Uuid::new_v4().as_u128()
}

} // verus!
