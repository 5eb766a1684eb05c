//! The node's cryptographic identity: an RSA keypair whose PEM-encoded
//! public key names the node on the network, blinded RSA-PSS signing over
//! packet content, and signature verification from a sender's PEM string.
//! The RSA work itself is the `rsa` crate's; this module states only what
//! the gossip protocol relies on.

use vstd::prelude::*;

verus! {

pub const RSA_BITS: usize = 2048;

/// An upper bound on the PEM encoding of a public key of `RSA_BITS` bits.
pub const RSA_PEM_SIZE: usize = 52 + RSA_BITS / 4 / 64 + RSA_BITS / 4;

/// The byte length of an RSA-PSS signature under a key of `RSA_BITS` bits.
pub const RSA_BYTES: usize = RSA_BITS / 8;

#[verifier::external_type_specification]
#[verifier::external_body]
pub struct ExRsaPrivateKey(rsa::RsaPrivateKey);

/// Relies on `rsa::RsaPrivateKey::new`, `rsa::RsaPublicKey::from` and
/// `rsa::pkcs8::EncodePublicKey::to_public_key_pem`: a fresh keypair,
/// returned as the public key's PEM string and the private key, or `None`
/// when key generation or encoding fails. Nothing can be promised of a
/// random key.
#[verifier::external_body]
pub fn create_key_pair() -> Option<(String, rsa::RsaPrivateKey)> {
    let mut rng = rand::thread_rng();
    let priv_key = rsa::RsaPrivateKey::new(&mut rng, RSA_BITS).ok()?;
    let pub_key = rsa::RsaPublicKey::from(&priv_key);
    let pem = rsa::pkcs8::EncodePublicKey::to_public_key_pem(
        &pub_key,
        rsa::pkcs8::LineEnding::LF,
    ).ok()?;
    Some((pem, priv_key))
}

/// Relies on `rsa::pss::BlindedSigningKey::from` and its
/// `try_sign_with_rng`, and the signature's `Box<[u8]>` conversion: the
/// RSA-PSS (SHA-256) signature bytes over `msg`, or `None` when signing
/// fails. The signature is randomized, so nothing can be promised of its
/// bytes.
#[verifier::external_body]
pub(crate) fn sign_bytes(key: &rsa::RsaPrivateKey, msg: &[u8]) -> Option<Vec<u8>> {
    let sign_key = rsa::pss::BlindedSigningKey::<rsa::sha2::Sha256>::from(key.clone());
    let mut rng = rand::thread_rng();
    let sig: rsa::pss::Signature = rsa::signature::RandomizedSigner::try_sign_with_rng(
        &sign_key,
        &mut rng,
        msg,
    ).ok()?;
    Some(Box::<[u8]>::from(sig).into_vec())
}

/// Whether RSA-PSS (SHA-256) verification accepts the signature `sig` over
/// `content` under the public key whose PEM string is `sender`.
/// Verification is deterministic in these three values alone.
pub uninterp spec fn sig_ok(sender: Seq<char>, content: Seq<u8>, sig: Seq<u8>) -> bool;

/// Relies on `rsa::pkcs8::DecodePublicKey::from_public_key_pem`,
/// `rsa::pss::VerifyingKey::from`, `rsa::pss::Signature::try_from` and
/// `rsa::signature::Verifier::verify`: true exactly when the sender's PEM
/// parses, the signature bytes parse, and the signature verifies over
/// `content` — all deterministic in the arguments.
#[verifier::external_body]
pub(crate) fn verify_bytes(sender: &str, content: &[u8], sig: &[u8]) -> (r: bool)
    ensures
        r == sig_ok(sender@, content@, sig@),
{
    let pub_key: rsa::RsaPublicKey =
        match rsa::pkcs8::DecodePublicKey::from_public_key_pem(sender) {
            Ok(k) => k,
            Err(_) => return false,
        };
    let verify_key = rsa::pss::VerifyingKey::<rsa::sha2::Sha256>::from(pub_key);
    let signature = match rsa::pss::Signature::try_from(sig) {
        Ok(s) => s,
        Err(_) => return false,
    };
    rsa::signature::Verifier::verify(&verify_key, content, &signature).is_ok()
}

} // verus!
