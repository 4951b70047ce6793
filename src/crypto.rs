//! The keyed MAC (HMAC-SHA3-256) behind every signature chain.

use hmac::{Hmac, Mac};
use sha3::Sha3_256;
use vstd::prelude::*;

verus! {

/// Size of an HMAC-SHA3-256 tag in bytes.
pub const SIGNATURE_SIZE: usize = 32;

/// The HMAC-SHA3-256 tag of `message` under `key`.
pub uninterp spec fn hmac_sha3_of(key: Seq<u8>, message: Seq<u8>) -> Seq<u8>;

/// Relies on hmac's `Hmac<Sha3_256>` (`Mac::new_from_slice`, `update`,
/// `finalize`): the 32-byte tag depends on the key and message alone.
/// `new_from_slice` of hmac 0.12 accepts keys of every length, hashing
/// oversized ones as RFC 2104 asks, and never returns an error.
#[verifier::external_body]
pub fn hmac_sha3(key: &[u8], message: &[u8]) -> (tag: [u8; SIGNATURE_SIZE])
    ensures
        tag@ == hmac_sha3_of(key@, message@),
{
    let mut mac = <Hmac<Sha3_256> as Mac>::new_from_slice(key).expect("HMAC takes keys of any length");
    mac.update(message);
    mac.finalize().into_bytes().into()
}

/// One step of the signature chain: the previous signature keys the MAC of
/// the next binding input.
pub fn bind_caveat(signature: &[u8], caveat_id: &[u8]) -> (tag: [u8; SIGNATURE_SIZE])
    ensures
        tag@ == hmac_sha3_of(signature@, caveat_id@),
{
    hmac_sha3(signature, caveat_id)
}

} // verus!
