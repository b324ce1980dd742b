//! The calls into outside cryptographic crates, each behind a small trusted
//! wrapper whose contract names what the crate computes.
use vstd::prelude::*;
use ed25519_dalek::{Signer, SigningKey};
use sha2::{Digest, Sha256};

verus! {

/// The 32-byte BLAKE3 digest that `blake3::hash` computes for `input`.
pub uninterp spec fn blake3_hash_of(input: Seq<u8>) -> Seq<u8>;

/// Calls `blake3::hash` and copies out the 32 digest bytes.
/// Trusted: the result is the BLAKE3 digest of `input` (named, not defined here).
#[verifier::external_body]
pub(crate) fn blake3_digest(input: &[u8]) -> (digest: [u8; 32])
    ensures
        digest@ == blake3_hash_of(input@),
{
    *blake3::hash(input).as_bytes()
}

/// The 32-byte SHA-256 digest of `data`.
pub uninterp spec fn sha256_of(data: Seq<u8>) -> Seq<u8>;

/// Hashes `data` with `sha2::Sha256` (`new`, `update`, `finalize`).
/// Trusted: the result is the SHA-256 digest of `data`, 32 bytes long.
#[verifier::external_body]
pub(crate) fn sha256_digest(data: &[u8]) -> (digest: Vec<u8>)
    ensures
        digest@ == sha256_of(data@),
        digest@.len() == 32,
{
    let mut hasher = Sha256::new();
    hasher.update(data);
    hasher.finalize().to_vec()
}

/// The Ed25519 public key (compressed, 32 bytes) of a 32-byte secret key.
pub uninterp spec fn ed25519_public_of(secret: Seq<u8>) -> Seq<u8>;

/// The Ed25519 signature (64 bytes) of `message` under a 32-byte secret key.
pub uninterp spec fn ed25519_signature_of(secret: Seq<u8>, message: Seq<u8>) -> Seq<u8>;

/// Whether `ed25519_dalek` accepts `signature` on `message` under the public
/// key given by its bytes (false where the key or signature bytes are not
/// well formed).
pub uninterp spec fn ed25519_accepts(public_key: Seq<u8>, message: Seq<u8>, signature: Seq<u8>) -> bool;

/// Derives the public key with `SigningKey::from_bytes(..).verifying_key()`.
/// Trusted: the result is the public key of `secret`.
#[verifier::external_body]
pub(crate) fn ed25519_public_key(secret: &[u8; 32]) -> (public_key: [u8; 32])
    ensures
        public_key@ == ed25519_public_of(secret@),
{
    SigningKey::from_bytes(secret).verifying_key().to_bytes()
}

/// Signs with `SigningKey::from_bytes(..).sign(..)`. Trusted: the result is the
/// (deterministic, RFC 8032) signature of `message` under `secret`, and
/// verification with the matching public key accepts it.
#[verifier::external_body]
pub(crate) fn ed25519_sign(secret: &[u8; 32], message: &[u8]) -> (signature: [u8; 64])
    ensures
        signature@ == ed25519_signature_of(secret@, message@),
        ed25519_accepts(ed25519_public_of(secret@), message@, signature@),
{
    SigningKey::from_bytes(secret).sign(message).to_bytes()
}

/// Draws a fresh secret key with `SigningKey::generate(&mut OsRng)`. Nothing is
/// stated of the bytes: they come from the operating system's random source.
#[verifier::external_body]
pub(crate) fn random_secret_key() -> (secret: [u8; 32]) {
    SigningKey::generate(&mut rand::rngs::OsRng).to_bytes()
}

/// The current time in seconds since the Unix epoch, from
/// `chrono::Utc::now().timestamp()`. Nothing is stated of it: it is the clock.
#[verifier::external_body]
pub(crate) fn unix_time_now() -> (seconds: i64) {
    chrono::Utc::now().timestamp()
}

} // verus!
