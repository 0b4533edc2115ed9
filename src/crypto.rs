//! The outside primitives the engine relies on: SHA-256, RSA signing and
//! verification, key generation, and the monotonic clock.
use openssl::error::ErrorStack;
use openssl::hash::MessageDigest;
use openssl::pkey::{PKey, Private};
use openssl::rsa::Rsa;
use openssl::sign::{Signer, Verifier};
use std::time::Instant;
use vstd::prelude::*;

verus! {

#[verifier::external_type_specification]
#[verifier::external_body]
#[verifier::reject_recursive_types(T)]
pub struct ExPKey<T>(PKey<T>);

#[verifier::external_type_specification]
#[verifier::external_body]
pub struct ExPrivate(Private);

#[verifier::external_type_specification]
#[verifier::external_body]
pub struct ExErrorStack(ErrorStack);

#[verifier::external_type_specification]
#[verifier::external_body]
pub struct ExInstant(Instant);

/// Relies on Instant's Clone, which copies the instant (Instant is Copy).
pub assume_specification[ <Instant as Clone>::clone ](t: &Instant) -> (r: Instant)
    ensures
        r == *t,
;

/// The SHA-256 digest of a byte string.
pub uninterp spec fn sha256_of(data: Seq<u8>) -> Seq<u8>;

/// Relies on openssl::sha::sha256: the 32-byte SHA-256 digest of `data`.
#[verifier::external_body]
pub(crate) fn sha256(data: &Vec<u8>) -> (r: Vec<u8>)
    ensures
        r@ == sha256_of(data@),
        r@.len() == 32,
{
    openssl::sha::sha256(data.as_slice()).to_vec()
}

/// Relies on openssl's Rsa::generate and PKey::from_rsa: a fresh 2048-bit RSA key pair.
#[verifier::external_body]
pub(crate) fn generate_keypair() -> (r: Result<PKey<Private>, ErrorStack>) {
    Rsa::generate(2048).and_then(PKey::from_rsa)
}

/// Relies on openssl's Signer: an RSA signature with SHA-256 of `msg` under `key`.
#[verifier::external_body]
pub(crate) fn sign(key: &PKey<Private>, msg: &Vec<u8>) -> (r: Result<Vec<u8>, ErrorStack>) {
    let mut signer = Signer::new(MessageDigest::sha256(), key)?;
    signer.update(msg.as_slice())?;
    signer.sign_to_vec()
}

/// Whether `sig` is an RSA signature with SHA-256 of `msg` under the public key
/// whose DER encoding is `pk_der`.
pub uninterp spec fn rsa_sha256_verifies(pk_der: Seq<u8>, msg: Seq<u8>, sig: Seq<u8>) -> bool;

/// Relies on openssl's PKey::public_key_from_der and Verifier: whether `sig` is
/// an RSA signature with SHA-256 of `msg` under the DER-encoded public key
/// `pk_der`; an error when the key does not parse or the library fails.
#[verifier::external_body]
pub(crate) fn verify(pk_der: &Vec<u8>, msg: &Vec<u8>, sig: &Vec<u8>) -> (r: Result<bool, ErrorStack>)
    ensures
        r matches Ok(b) ==> b == rsa_sha256_verifies(pk_der@, msg@, sig@),
{
    let key = PKey::public_key_from_der(pk_der.as_slice())?;
    let mut verifier = Verifier::new(MessageDigest::sha256(), &key)?;
    verifier.update(msg.as_slice())?;
    verifier.verify(sig.as_slice())
}

/// Relies on openssl's PKey::public_key_to_der: the DER encoding of the key's
/// public half.
#[verifier::external_body]
pub(crate) fn public_key_der(key: &PKey<Private>) -> (r: Result<Vec<u8>, ErrorStack>) {
    key.public_key_to_der()
}

/// Relies on std::time::Instant::now: the current monotonic instant.
#[verifier::external_body]
pub(crate) fn now() -> (r: Instant) {
    Instant::now()
}

/// Relies on std::time::Instant::elapsed: whole seconds since `t`.
#[verifier::external_body]
pub(crate) fn elapsed_secs(t: &Instant) -> (r: u64) {
    t.elapsed().as_secs()
}

} // verus!
