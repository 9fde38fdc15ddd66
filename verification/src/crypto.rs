//! Cryptographic primitives, provided by `p2panda_core` (BLAKE3 hashing and
//! Ed25519 signatures) and used here through trusted wrappers over plain byte
//! values.
//!
//! The results of these primitives are functions of their arguments alone;
//! they are given names (`hash_of`, `public_key_of`, `signature_of`,
//! `sig_valid`) that the contracts of the rest of the library speak of.

use vstd::prelude::*;

verus! {

/// Length in bytes of a BLAKE3 content hash.
pub const HASH_LEN: usize = 32;

/// Length in bytes of an Ed25519 public (verifying) key.
pub const KEY_LEN: usize = 32;

/// Length in bytes of an Ed25519 signature.
pub const SIG_LEN: usize = 64;

/// The 32-byte BLAKE3 digest of a byte string.
pub uninterp spec fn hash_of(bytes: Seq<u8>) -> Seq<u8>;

/// The Ed25519 public key derived from a 32-byte private key.
pub uninterp spec fn public_key_of(secret: Seq<u8>) -> Seq<u8>;

/// The Ed25519 signature over a message with a 32-byte private key.
pub uninterp spec fn signature_of(secret: Seq<u8>, msg: Seq<u8>) -> Seq<u8>;

/// Strict Ed25519 signature verification of `sig` over `msg` under the
/// public key `key`; false whenever `key` or `sig` is malformed.
pub uninterp spec fn sig_valid(key: Seq<u8>, msg: Seq<u8>, sig: Seq<u8>) -> bool;

/// Relies on `p2panda_core::Hash::digest`: the 32-byte BLAKE3 hash of the
/// input bytes, a function of those bytes alone.
#[verifier::external_body]
pub fn hash_bytes(bytes: &[u8]) -> (r: Vec<u8>)
    ensures
        r@ == hash_of(bytes@),
        r@.len() == HASH_LEN,
{
    p2panda_core::Hash::digest(bytes).as_bytes().to_vec()
}

/// Relies on `p2panda_core::identity::SigningKey::verifying_key`: the public
/// key of an Ed25519 key pair, derived from the private key alone.
#[verifier::external_body]
pub fn derive_public_key(secret: &[u8]) -> (r: Vec<u8>)
    requires
        secret@.len() == KEY_LEN,
    ensures
        r@ == public_key_of(secret@),
        r@.len() == KEY_LEN,
{
    let arr: [u8; 32] = secret.try_into().unwrap();
    let key = p2panda_core::identity::SigningKey::from_bytes(&arr);
    key.verifying_key().as_bytes().to_vec()
}

/// Relies on `p2panda_core::identity::SigningKey::sign`: Ed25519 signing is
/// deterministic in the key and message, and the resulting signature
/// verifies under the key's public counterpart.
#[verifier::external_body]
pub fn sign_bytes(secret: &[u8], msg: &[u8]) -> (r: Vec<u8>)
    requires
        secret@.len() == KEY_LEN,
    ensures
        r@ == signature_of(secret@, msg@),
        r@.len() == SIG_LEN,
        sig_valid(public_key_of(secret@), msg@, r@),
{
    let arr: [u8; 32] = secret.try_into().unwrap();
    let key = p2panda_core::identity::SigningKey::from_bytes(&arr);
    key.sign(msg).to_bytes().to_vec()
}

/// Relies on `p2panda_core::identity::VerifyingKey::verify` (strict Ed25519
/// verification): deterministic in the key, message and signature; returns
/// false for a malformed key or signature.
#[verifier::external_body]
pub fn verify_signature(key: &[u8], msg: &[u8], sig: &[u8]) -> (r: bool)
    ensures
        r == sig_valid(key@, msg@, sig@),
{
    let Ok(key_arr) = <[u8; 32]>::try_from(key) else { return false };
    let Ok(sig_arr) = <[u8; 64]>::try_from(sig) else { return false };
    match p2panda_core::identity::VerifyingKey::from_bytes(&key_arr) {
        Ok(k) => k.verify(msg, &p2panda_core::identity::Signature::from_bytes(&sig_arr)),
        Err(_) => false,
    }
}

} // verus!
