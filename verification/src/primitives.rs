//! Cryptographic primitives and randomness, as other crates provide them.
use ed25519_dalek::Signer;
use sha2::Digest;
use vstd::prelude::*;

verus! {

/// The 32 bytes of the SHA-256 digest of a byte string.
pub uninterp spec fn sha256_bytes(data: Seq<u8>) -> [u8; 32];

/// The SHA-256 digest of a byte string.
pub open spec fn sha256(data: Seq<u8>) -> Seq<u8> {
    sha256_bytes(data)@
}

/// `sha2::Sha256::digest`: the SHA-256 digest of the data, 32 bytes that depend
/// on the data alone.
#[verifier::external_body]
pub(crate) fn sha256_digest(data: &[u8]) -> (r: [u8; 32])
    ensures
        r@ == sha256_bytes(data@)@,
{
    sha2::Sha256::digest(data).into()
}

/// The 64 bytes of the Ed25519 signature of `data` under the secret key `seed`.
pub uninterp spec fn ed25519_signature_bytes(seed: Seq<u8>, data: Seq<u8>) -> [u8; 64];

/// The Ed25519 signature of `data` under the secret key `seed`.
pub open spec fn ed25519_signature(seed: Seq<u8>, data: Seq<u8>) -> Seq<u8> {
    ed25519_signature_bytes(seed, data)@
}

/// Whether the first half of a signature is the neutral element of the curve. Strict
/// verification turns such a signature down. It takes a digest that is a multiple of
/// the order of the curve for one to come about.
pub open spec fn is_degenerate(signature: Seq<u8>) -> bool {
    signature.subrange(0, 32) == seq![1u8] + Seq::new(31, |i: int| 0u8)
}

/// Whether a signature by a secret key is accepted under the public key, as it is
/// unless it is degenerate.
pub open spec fn own_signature_holds(seed: Seq<u8>, data: Seq<u8>, signature: Seq<u8>) -> bool {
    is_degenerate(signature) || ed25519_verifies(ed25519_public_key(seed), data, signature)
}

/// `ed25519_dalek::SigningKey::sign`. Ed25519 signs without randomness: the
/// signature depends on the key and the data alone. Strict verification accepts it
/// under the public key of the same secret key, unless it is degenerate.
#[verifier::external_body]
pub(crate) fn ed25519_sign(seed: &[u8; 32], data: &[u8]) -> (r: [u8; 64])
    ensures
        r@ == ed25519_signature_bytes(seed@, data@)@,
        own_signature_holds(seed@, data@, r@),
{
    ed25519_dalek::SigningKey::from_bytes(seed).sign(data).to_bytes()
}

/// The 32 bytes of the Ed25519 public key that belongs to the secret key `seed`.
pub uninterp spec fn ed25519_public_bytes(seed: Seq<u8>) -> [u8; 32];

/// The Ed25519 public key that belongs to the secret key `seed`.
pub open spec fn ed25519_public_key(seed: Seq<u8>) -> Seq<u8> {
    ed25519_public_bytes(seed)@
}

/// `ed25519_dalek::SigningKey::verifying_key`: the public key of a secret key.
#[verifier::external_body]
pub(crate) fn ed25519_public(seed: &[u8; 32]) -> (r: [u8; 32])
    ensures
        r@ == ed25519_public_bytes(seed@)@,
{
    ed25519_dalek::SigningKey::from_bytes(seed).verifying_key().to_bytes()
}

/// Whether 32 bytes are the encoding of a point on the curve.
pub uninterp spec fn ed25519_key_valid(key: Seq<u8>) -> bool;

/// `ed25519_dalek::VerifyingKey::from_bytes`: whether it takes the bytes for a
/// public key, which depends on the bytes alone.
#[verifier::external_body]
pub(crate) fn ed25519_is_key(key: &[u8; 32]) -> (r: bool)
    ensures
        r == ed25519_key_valid(key@),
{
    ed25519_dalek::VerifyingKey::from_bytes(key).is_ok()
}

/// Whether strict Ed25519 verification accepts a signature.
pub uninterp spec fn ed25519_verifies(key: Seq<u8>, data: Seq<u8>, signature: Seq<u8>) -> bool;

/// `ed25519_dalek::VerifyingKey::verify_strict`: whether the signature holds for
/// the data under the key. No signature holds under bytes that are no key.
#[verifier::external_body]
pub(crate) fn ed25519_verify(key: &[u8; 32], data: &[u8], signature: &[u8; 64]) -> (r: bool)
    ensures
        r == ed25519_verifies(key@, data@, signature@),
        r ==> ed25519_key_valid(key@),
{
    match ed25519_dalek::VerifyingKey::from_bytes(key) {
        Ok(k) => {
            k.verify_strict(data, &ed25519_dalek::Signature::from_bytes(signature)).is_ok()
        },
        Err(_) => false,
    }
}

/// The 32 bytes of the X25519 public key that belongs to a secret key.
pub uninterp spec fn x25519_public_bytes(secret: Seq<u8>) -> [u8; 32];

/// The X25519 public key that belongs to a secret key.
pub open spec fn x25519_public_key(secret: Seq<u8>) -> Seq<u8> {
    x25519_public_bytes(secret)@
}

/// `x25519_dalek::PublicKey::from`: the public key of a static secret.
#[verifier::external_body]
pub(crate) fn x25519_public(secret: &[u8; 32]) -> (r: [u8; 32])
    ensures
        r@ == x25519_public_bytes(secret@)@,
{
    x25519_dalek::PublicKey::from(&x25519_dalek::StaticSecret::from(*secret)).to_bytes()
}

/// `rand::random`: sixteen random bytes, any of which may come.
#[verifier::external_body]
pub(crate) fn random_16() -> (r: [u8; 16]) {
    rand::random::<[u8; 16]>()
}

/// `ed25519_dalek::SigningKey::generate` with the generator of the operating
/// system: a random secret key, any of which may come.
#[verifier::external_body]
pub(crate) fn random_seed() -> (r: [u8; 32]) {
    ed25519_dalek::SigningKey::generate(&mut rand::rngs::OsRng).to_bytes()
}

} // verus!
