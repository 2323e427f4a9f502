//! Cryptographic primitives: SHA-256 hashing, Ed25519 signing and
//! verification, and base64 transport encoding of signatures.
//!
//! The outside calls stand behind trusted wrappers. The value each call
//! returns is given a name (an uninterpreted spec function), and the rest of
//! the library is verified against those names.

use vstd::prelude::*;
use sha2::Digest;
use ed25519_dalek::{Signer, Verifier};

verus! {

/// The SHA-256 digest of a byte string.
pub uninterp spec fn sha256_of(b: Seq<u8>) -> Seq<u8>;

/// The Ed25519 verifying key derived from a 32-byte seed.
pub uninterp spec fn ed25519_pk_of(seed: Seq<u8>) -> Seq<u8>;

/// The Ed25519 signature over a message by the signing key of a seed.
pub uninterp spec fn ed25519_sig_of(seed: Seq<u8>, msg: Seq<u8>) -> Seq<u8>;

/// Whether an Ed25519 signature verifies for a key and a message.
pub uninterp spec fn ed25519_verifies(pk: Seq<u8>, msg: Seq<u8>, sig: Seq<u8>) -> bool;

/// The base64 rendering of a byte string.
pub uninterp spec fn base64_of(b: Seq<u8>) -> Seq<char>;

/// What base64 decoding yields on a character string, if anything.
pub uninterp spec fn unbase64(s: Seq<char>) -> Option<Seq<u8>>;

/// A character of the standard base64 alphabet, padding included.
pub open spec fn base64_char(c: char) -> bool {
    ('a' <= c <= 'z') || ('A' <= c <= 'Z') || ('0' <= c <= '9') || c == '+' || c == '/' || c
        == '='
}

/// Relies on sha2's Sha256: the digest is 32 bytes and depends on the input
/// alone.
#[verifier::external_body]
pub fn sha256(b: &[u8]) -> (r: Vec<u8>)
    ensures
        r@ == sha256_of(b@),
        r@.len() == 32,
{
    let d = sha2::Sha256::digest(b);
    d.to_vec()
}

/// Relies on ed25519_dalek's SigningKey::from_bytes and verifying_key: the
/// verifying key is 32 bytes and a function of the seed alone.
#[verifier::external_body]
pub fn ed25519_derive_pk(seed: &[u8]) -> (r: Vec<u8>)
    requires
        seed@.len() == 32,
    ensures
        r@ == ed25519_pk_of(seed@),
        r@.len() == 32,
{
    let seed32: [u8; 32] = seed.try_into().unwrap();
    let sk = ed25519_dalek::SigningKey::from_bytes(&seed32);
    sk.verifying_key().to_bytes().to_vec()
}

/// Relies on ed25519_dalek's Signer::sign: Ed25519 signing is deterministic,
/// so the signature is 64 bytes and a function of the seed and the message
/// alone.
#[verifier::external_body]
pub fn ed25519_sign(seed: &[u8], msg: &[u8]) -> (r: Vec<u8>)
    requires
        seed@.len() == 32,
    ensures
        r@ == ed25519_sig_of(seed@, msg@),
        r@.len() == 64,
{
    let seed32: [u8; 32] = seed.try_into().unwrap();
    let sk = ed25519_dalek::SigningKey::from_bytes(&seed32);
    let sig: ed25519_dalek::Signature = sk.sign(msg);
    sig.to_bytes().to_vec()
}

/// Relies on ed25519_dalek's Verifier::verify: the outcome depends only on
/// the key, the message and the signature, and a signature made by the
/// signing key of a seed verifies under that seed's verifying key.
#[verifier::external_body]
pub fn ed25519_verify(pk: &[u8], msg: &[u8], sig: &[u8]) -> (r: bool)
    requires
        pk@.len() == 32,
        sig@.len() == 64,
    ensures
        r == ed25519_verifies(pk@, msg@, sig@),
        forall|seed: Seq<u8>|
            pk@ == ed25519_pk_of(seed) && sig@ == #[trigger] ed25519_sig_of(seed, msg@) ==> r,
{
    let pk32: [u8; 32] = pk.try_into().unwrap();
    let sig64: [u8; 64] = sig.try_into().unwrap();
    match ed25519_dalek::VerifyingKey::from_bytes(&pk32) {
        Ok(vk) => {
            let s = ed25519_dalek::Signature::from_bytes(&sig64);
            vk.verify(msg, &s).is_ok()
        },
        Err(_) => false,
    }
}

/// Relies on base64::encode: standard alphabet with padding, four output
/// characters for every three input bytes.
#[verifier::external_body]
pub fn base64_encode(b: &[u8]) -> (r: String)
    ensures
        r@ == base64_of(b@),
        r@.len() == 4 * ((b@.len() + 2) / 3),
        forall|i: int| 0 <= i < r@.len() ==> base64_char(#[trigger] r@[i]),
{
    base64::encode(b)
}

/// Relies on base64::decode: decoding is a function of the input alone, and
/// decoding an encoding returns the encoded bytes.
#[verifier::external_body]
pub fn base64_decode(s: &str) -> (r: Option<Vec<u8>>)
    ensures
        match r {
            Some(v) => unbase64(s@) == Some(v@),
            None => unbase64(s@) is None,
        },
        forall|b: Seq<u8>| s@ == #[trigger] base64_of(b) ==> r is Some && r.unwrap()@ == b,
{
    match base64::decode(s) {
        Ok(v) => Some(v),
        Err(_) => None,
    }
}

} // verus!
