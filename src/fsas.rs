//! Mutual challenge/response authentication with Ed25519.
//!
//! Each side proves its identity by signing 512 random bytes that the other
//! side sent, and checks the other side's signature over its own challenge.
use ed25519_dalek::{Signature, SignatureError, Signer, SigningKey, Verifier, VerifyingKey};
use rand::rngs::OsRng;
use rand::RngCore;
use vstd::prelude::*;

use crate::KeyError;

verus! {

/// Bytes in a challenge.
pub const CHALLENGE_LENGTH: usize = 512;

/// Bytes in a signature.
pub const SIGNATURE_LENGTH: usize = 64;

#[verifier::external_type_specification]
#[verifier::external_body]
pub struct ExSignatureError(ed25519_dalek::SignatureError);

/// The Ed25519 signature of a message under a secret key.
pub uninterp spec fn signature_of(secret: Seq<u8>, msg: Seq<u8>) -> Seq<u8>;

/// The Ed25519 public key of a secret key.
pub uninterp spec fn public_key_of(secret: Seq<u8>) -> Seq<u8>;

/// Whether a signature over a message checks under a public key.
pub uninterp spec fn signature_checks(public: Seq<u8>, msg: Seq<u8>, sig: Seq<u8>) -> bool;

/// `None` when the bytes are not a public key; otherwise whether that key
/// has small order.
pub uninterp spec fn key_weakness(public: Seq<u8>) -> Option<bool>;

/// Relies on `SigningKey::sign` of ed25519-dalek: deterministic Ed25519
/// signing, a function of the key and the message.
#[verifier::external_body]
fn ed25519_sign(secret: &[u8; 32], msg: &[u8]) -> (r: [u8; 64])
    ensures
        r@ == signature_of(secret@, msg@),
{
    SigningKey::from_bytes(secret).sign(msg).to_bytes()
}

/// Relies on `SigningKey::verifying_key` of ed25519-dalek: the public key
/// of a secret key.
#[verifier::external_body]
fn ed25519_public(secret: &[u8; 32]) -> (r: [u8; 32])
    ensures
        r@ == public_key_of(secret@),
{
    SigningKey::from_bytes(secret).verifying_key().to_bytes()
}

/// Relies on `VerifyingKey::verify` of ed25519-dalek: the outcome depends on
/// the key, the message and the signature alone (a key that does not decode
/// fails in `VerifyingKey::from_bytes`).
#[verifier::external_body]
fn ed25519_verify(public: &[u8; 32], msg: &[u8], sig: &[u8; 64]) -> (r: Result<(), SignatureError>)
    ensures
        r is Ok <==> signature_checks(public@, msg@, sig@),
{
    VerifyingKey::from_bytes(public)?.verify(msg, &Signature::from_bytes(sig))
}

/// Relies on `VerifyingKey::is_weak` of ed25519-dalek, after
/// `VerifyingKey::from_bytes`: both depend on the bytes alone.
#[verifier::external_body]
fn ed25519_weakness(public: &[u8; 32]) -> (r: Result<bool, SignatureError>)
    ensures
        match r {
            Ok(w) => key_weakness(public@) == Some(w),
            Err(_) => key_weakness(public@) is None,
        },
{
    Ok(VerifyingKey::from_bytes(public)?.is_weak())
}

/// Relies on `SigningKey::generate` with the OS random source: a fresh
/// random secret key.
#[verifier::external_body]
fn random_signing_key() -> (r: [u8; 32]) {
    SigningKey::generate(&mut OsRng).to_bytes()
}

/// Relies on `RngCore::fill_bytes` of the OS random source: random bytes.
#[verifier::external_body]
fn random_bytes<const N: usize>() -> (r: [u8; N]) {
    let mut b = [0u8; N];
    OsRng.fill_bytes(&mut b);
    b
}

/// An Ed25519 key pair, as raw bytes.
#[derive(Debug, Clone, Copy)]
pub struct KeyPair {
    pub signing_key: [u8; 32],
    pub verifying_key: [u8; 32],
}

/// Why a peer was not authenticated.
#[derive(PartialEq, Eq, Structural, Debug, Clone, Copy)]
pub enum AuthError {
    /// The answer is not a 64-byte signature.
    MalformedAnswer,
    /// The signature does not check under the peer's public key.
    BadSignature,
}

/// The key pair of a secret key, refused where its public key is weak.
pub fn keypair_from_signing_key(secret: [u8; 32]) -> (r: Result<KeyPair, KeyError>)
    ensures
        match r {
            Ok(kp) => kp.signing_key == secret && kp.verifying_key@ == public_key_of(secret@)
                && key_weakness(public_key_of(secret@)) == Some(false),
            Err(e) => key_weakness(public_key_of(secret@)) != Some(false) && e
                == KeyError::WeakKey,
        },
{
    let public = ed25519_public(&secret);
    match ed25519_weakness(&public) {
        Ok(false) => Ok(KeyPair { signing_key: secret, verifying_key: public }),
        _ => Err(KeyError::WeakKey),
    }
}

/// A fresh random key pair; a draw whose public key is weak is refused.
pub fn generate_keypair() -> (r: Result<KeyPair, KeyError>)
    ensures
        match r {
            Ok(kp) => kp.verifying_key@ == public_key_of(kp.signing_key@) && key_weakness(
                kp.verifying_key@,
            ) == Some(false),
            Err(e) => e == KeyError::WeakKey,
        },
{
    keypair_from_signing_key(random_signing_key())
}

fn copy_32(bytes: &[u8]) -> (r: [u8; 32])
    requires
        bytes@.len() == 32,
    ensures
        r@ == bytes@,
{
    let mut out = [0u8; 32];
    let mut i: usize = 0;
    while i < 32
        invariant
            bytes@.len() == 32,
            i <= 32,
            forall|j: int| 0 <= j < i ==> out@[j] == bytes@[j],
        decreases 32 - i,
    {
        out[i] = bytes[i];
        i = i + 1;
    }
    assert(out@ =~= bytes@);
    out
}

/// A secret key from the contents of its key file, which must be exactly
/// 32 bytes.
pub fn read_signing_key(bytes: &[u8]) -> (r: Result<[u8; 32], KeyError>)
    ensures
        match r {
            Ok(k) => bytes@.len() == 32 && k@ == bytes@,
            Err(e) => bytes@.len() != 32 && e == KeyError::InvalidLength,
        },
{
    if bytes.len() != 32 {
        return Err(KeyError::InvalidLength);
    }
    Ok(copy_32(bytes))
}

/// A public key from the contents of its key file, which must be exactly 32
/// bytes that decode to a public key.
pub fn read_verifying_key(bytes: &[u8]) -> (r: Result<[u8; 32], KeyError>)
    ensures
        match r {
            Ok(k) => bytes@.len() == 32 && k@ == bytes@ && key_weakness(bytes@) is Some,
            Err(KeyError::InvalidLength) => bytes@.len() != 32,
            Err(KeyError::InvalidKey) => bytes@.len() == 32 && key_weakness(bytes@) is None,
            Err(KeyError::WeakKey) => false,
        },
{
    if bytes.len() != 32 {
        return Err(KeyError::InvalidLength);
    }
    let key = copy_32(bytes);
    match ed25519_weakness(&key) {
        Ok(_) => Ok(key),
        Err(_) => Err(KeyError::InvalidKey),
    }
}

/// A fresh random challenge for the peer to sign.
pub fn generate_challenge() -> (r: [u8; CHALLENGE_LENGTH]) {
    random_bytes::<CHALLENGE_LENGTH>()
}

/// The answer to a peer's challenge: its signature under our secret key.
pub fn answer_challenge(secret: &[u8; 32], challenge: &[u8]) -> (r: [u8; 64])
    ensures
        r@ == signature_of(secret@, challenge@),
{
    ed25519_sign(secret, challenge)
}

/// Checks the peer's answer to our challenge against the peer's public key.
pub fn verify_answer(public: &[u8; 32], challenge: &[u8], answer: &[u8]) -> (r: Result<
    (),
    AuthError,
>)
    ensures
        match r {
            Ok(()) => answer@.len() == 64 && signature_checks(public@, challenge@, answer@),
            Err(AuthError::MalformedAnswer) => answer@.len() != 64,
            Err(AuthError::BadSignature) => answer@.len() == 64 && !signature_checks(
                public@,
                challenge@,
                answer@,
            ),
        },
{
    if answer.len() != 64 {
        return Err(AuthError::MalformedAnswer);
    }
    let mut sig = [0u8; 64];
    let mut i: usize = 0;
    while i < 64
        invariant
            answer@.len() == 64,
            i <= 64,
            forall|j: int| 0 <= j < i ==> sig@[j] == answer@[j],
        decreases 64 - i,
    {
        sig[i] = answer[i];
        i = i + 1;
    }
    assert(sig@ =~= answer@);
    match ed25519_verify(public, challenge, &sig) {
        Ok(()) => Ok(()),
        Err(_) => Err(AuthError::BadSignature),
    }
}

} // verus!
