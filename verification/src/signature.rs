//! Asymmetric key primitives, provided by the secp256k1 library.
//!
//! The engine needs three operations: derive a public key from a secret key,
//! sign a message, and verify a signature.  Signing hashes the message with
//! SHA-256 and produces a deterministic (RFC 6979) ECDSA signature, so the
//! results of these operations are functions of their arguments alone; the
//! uninterpreted names below stand for those results.

use vstd::prelude::*;
use secp256k1::hashes::Hash as _;

verus! {

/// Whether secp256k1 accepts `sk` as a secret key: 32 bytes within the curve
/// order.  Names the success of `secp256k1::SecretKey::from_slice`.
pub uninterp spec fn sk_ok(sk: Seq<u8>) -> bool;

/// The 33-byte compressed serialization of the public key derived from `sk`.
/// Names `secp256k1::PublicKey::from_secret_key`.
pub uninterp spec fn pk_of(sk: Seq<u8>) -> Seq<u8>;

/// The 64-byte compact ECDSA signature over SHA-256(`msg`) by `sk`.
/// Names `Secp256k1::sign_ecdsa` composed with `sha256::Hash::hash`.
pub uninterp spec fn sig_of(msg: Seq<u8>, sk: Seq<u8>) -> Seq<u8>;

/// Whether `sig` parses as a compact signature, `pk` as a compressed public
/// key, and the signature verifies over SHA-256(`msg`).  Names
/// `Secp256k1::verify_ecdsa` composed with the two parses and the hash.
pub uninterp spec fn sig_valid(msg: Seq<u8>, pk: Seq<u8>, sig: Seq<u8>) -> bool;

/// Generates a fresh random key pair `(secret key bytes, public key bytes)`.
///
/// Relies on `secp256k1::Secp256k1::generate_keypair`: the returned secret key
/// is valid and the returned public key is the one derived from it.  The pair
/// itself is random, so nothing is promised about which pair comes back.
#[verifier::external_body]
pub fn new_pair() -> (r: (Vec<u8>, Vec<u8>))
    ensures
        r.0@.len() == 32,
        r.1@.len() == 33,
        sk_ok(r.0@),
        r.1@ == pk_of(r.0@),
{
    let secp = secp256k1::Secp256k1::new();
    let (sk, pk) = secp.generate_keypair(&mut secp256k1::rand::rng());
    (sk.secret_bytes().to_vec(), pk.serialize().to_vec())
}

/// Whether secp256k1 accepts `sk` as a secret key.
///
/// Relies on `secp256k1::SecretKey::from_slice`: it succeeds exactly on the
/// byte strings that form a valid secret key.
#[verifier::external_body]
pub fn secret_key_ok(sk: &[u8]) -> (r: bool)
    ensures
        r == sk_ok(sk@),
{
    secp256k1::SecretKey::from_slice(sk).is_ok()
}

/// Derives the compressed public key of `secret_key`.
///
/// Relies on `secp256k1::PublicKey::from_secret_key` and
/// `PublicKey::serialize`: a deterministic function of the secret key,
/// serialized to 33 bytes.
#[verifier::external_body]
pub fn generate_public_key(secret_key: &[u8]) -> (r: Vec<u8>)
    requires
        sk_ok(secret_key@),
    ensures
        r@ == pk_of(secret_key@),
        r@.len() == 33,
{
    let secp = secp256k1::Secp256k1::new();
    let sk = secp256k1::SecretKey::from_slice(secret_key).unwrap();
    secp256k1::PublicKey::from_secret_key(&secp, &sk).serialize().to_vec()
}

/// Signs SHA-256(`msg`) with `secret_key`; 64-byte compact form.
///
/// Relies on `Secp256k1::sign_ecdsa` (deterministic, RFC 6979) over
/// `sha256::Hash::hash(msg)`, and on `Secp256k1::verify_ecdsa` accepting a
/// signature produced this way for the matching public key.
#[verifier::external_body]
pub fn new_signature(msg: &[u8], secret_key: &[u8]) -> (r: Vec<u8>)
    requires
        sk_ok(secret_key@),
    ensures
        r@ == sig_of(msg@, secret_key@),
        r@.len() == 64,
        sig_valid(msg@, pk_of(secret_key@), r@),
{
    let secp = secp256k1::Secp256k1::new();
    let sk = secp256k1::SecretKey::from_slice(secret_key).unwrap();
    let digest = secp256k1::hashes::sha256::Hash::hash(msg);
    let m = secp256k1::Message::from_digest(digest.to_byte_array());
    secp.sign_ecdsa(m, &sk).serialize_compact().to_vec()
}

/// Verifies a compact ECDSA signature over SHA-256(`msg`).
///
/// Relies on `Secp256k1::verify_ecdsa`, `PublicKey::from_slice` and
/// `ecdsa::Signature::from_compact`: returns false when either input fails to
/// parse or the signature does not verify.
#[verifier::external_body]
pub fn verify_signature(msg: &[u8], public_key: &[u8], signature: &[u8]) -> (r: bool)
    ensures
        r == sig_valid(msg@, public_key@, signature@),
{
    let secp = secp256k1::Secp256k1::new();
    let digest = secp256k1::hashes::sha256::Hash::hash(msg);
    let m = secp256k1::Message::from_digest(digest.to_byte_array());
    match (
        secp256k1::PublicKey::from_slice(public_key),
        secp256k1::ecdsa::Signature::from_compact(signature),
    ) {
        (Ok(pk), Ok(sig)) => secp.verify_ecdsa(m, &sig, &pk).is_ok(),
        _ => false,
    }
}

} // verus!
