//! The handshake's keyed digest, computed by an outside library.
//!
//! The server tags each challenge timestamp with an HMAC-SHA256 over a
//! per-process secret, and later verifies the tag the client echoes. The
//! digest itself is outside code; the library names its result and states
//! only what the outside source plainly shows.

use vstd::prelude::*;

verus! {

/// The HMAC-SHA256 tag of `data` under `key`: a function of the two
/// arguments alone.
pub uninterp spec fn hmac_sha256(key: Seq<u8>, data: Seq<u8>) -> Seq<u8>;

/// Whether a tag is the one the key and data produce.
pub open spec fn tag_matches(key: Seq<u8>, data: Seq<u8>, tag: Seq<u8>) -> bool {
    tag == hmac_sha256(key, data)
}

/// Relies on ring::hmac::sign with HMAC_SHA256: the tag depends on the
/// key and message alone and is 32 bytes long.
#[verifier::external_body]
pub(crate) fn hmac_sign(key: &Vec<u8>, data: &Vec<u8>) -> (tag: Vec<u8>)
    requires
        key@.len() <= 64,
        data@.len() < 0x10000000,
    ensures
        tag@ == hmac_sha256(key@, data@),
        tag@.len() == 32,
{
    let k = ring::hmac::Key::new(ring::hmac::HMAC_SHA256, key);
    let tag = ring::hmac::sign(&k, data);
    tag.as_ref().to_vec()
}

/// Relies on ring::hmac::verify: accepts exactly when the tag equals the
/// HMAC of the data under the key, compared in constant time.
#[verifier::external_body]
pub(crate) fn hmac_verify(key: &Vec<u8>, data: &Vec<u8>, tag: &Vec<u8>) -> (ok: bool)
    requires
        key@.len() <= 64,
        data@.len() < 0x10000000,
    ensures
        ok == tag_matches(key@, data@, tag@),
{
    let k = ring::hmac::Key::new(ring::hmac::HMAC_SHA256, key);
    ring::hmac::verify(&k, data, tag).is_ok()
}

/// Relies on ring::rand::SystemRandom::fill: fills the buffer from the
/// system's secure random source. Nothing is assumed of the values; only
/// the length of a successful draw is stated.
#[verifier::external_body]
pub(crate) fn generate_key_bytes() -> (r: Option<Vec<u8>>)
    ensures
        match r {
            Some(key) => key@.len() == 32,
            None => true,
        },
{
    let rng = ring::rand::SystemRandom::new();
    let mut bytes = vec![0u8; 32];
    match ring::rand::SecureRandom::fill(&rng, &mut bytes) {
        Ok(()) => Some(bytes),
        Err(_) => None,
    }
}

/// Law: a tag signed for a timestamp verifies for that same timestamp,
/// and a different timestamp rejects it whenever its own tag differs.
/// (Equality of the two tags — an HMAC collision — is not ruled out by
/// the wire model, so the negative direction holds under that proviso.)
pub proof fn lemma_hmac_round_trip(key: Seq<u8>, ts: Seq<u8>, ts2: Seq<u8>)
    requires
        hmac_sha256(key, ts2) != hmac_sha256(key, ts),
    ensures
        tag_matches(key, ts, hmac_sha256(key, ts)),
        !tag_matches(key, ts2, hmac_sha256(key, ts)),
{
}

} // verus!
