//! The keyed tag that closes every frame.

use hmac::{Hmac, Mac, NewMac};
use sha2::Sha256;
use vstd::prelude::*;

verus! {

/// Length in bytes of the tag of a frame.
pub const HMAC_TAG_SIZE: usize = 32;

/// HMAC-SHA256 of `message` under `key`.
pub uninterp spec fn hmac_sha256(key: Seq<u8>, message: Seq<u8>) -> Seq<u8>;

/// `Hmac::<Sha256>::new_from_slice`, `update` and `finalize`: the tag of
/// `message` under `key`, of 32 bytes. A key of any length is accepted.
#[verifier::external_body]
fn compute_hmac(key: &[u8], message: &[u8]) -> (tag: Vec<u8>)
    ensures
        tag@ == hmac_sha256(key@, message@),
        tag@.len() == HMAC_TAG_SIZE,
{
    let mut mac = Hmac::<Sha256>::new_from_slice(key).unwrap();
    mac.update(message);
    mac.finalize().into_bytes().to_vec()
}

/// The tag of `message` under `key`: the 32 bytes of its HMAC-SHA256.
pub open spec fn tag_of(key: Seq<u8>, message: Seq<u8>) -> Seq<u8> {
    Seq::new(HMAC_TAG_SIZE as nat, |i: int| hmac_sha256(key, message)[i])
}

/// Computes the tag of `message` under `key`.
pub fn message_tag(key: &[u8], message: &[u8]) -> (tag: Vec<u8>)
    ensures
        tag@ == tag_of(key@, message@),
{
    let tag = compute_hmac(key, message);
    assert(tag@ =~= tag_of(key@, message@));
    tag
}

} // verus!
