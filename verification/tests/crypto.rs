//! RSA-PSS signing and verification against the real crate, as the node
//! relies on them.

use greychain::RSA_BITS;
use rsa::{
    pss::{BlindedSigningKey, VerifyingKey},
    sha2::Sha256,
    signature::{Keypair, RandomizedSigner, Verifier},
    RsaPrivateKey, RsaPublicKey,
};

#[test]
pub fn sign() {
    let mut rng = rand::thread_rng();
    let priv_key = RsaPrivateKey::new(&mut rng, RSA_BITS).expect("ERROR: could not create key");

    let sign_key = BlindedSigningKey::<Sha256>::from(priv_key);
    let veri_key = sign_key.verifying_key();

    let msg = "test message";
    let sign = sign_key.sign_with_rng(&mut rng, msg.as_bytes());
    assert_ne!(msg.to_string(), sign.to_string());

    veri_key.verify(msg.as_bytes(), &sign).unwrap();
}

#[test]
pub fn sign_verify_key_from_pub() {
    let mut rng = rand::thread_rng();
    let priv_key = RsaPrivateKey::new(&mut rng, RSA_BITS).expect("ERROR: could not create key");
    let pub_key = RsaPublicKey::from(&priv_key);

    let sign_key = BlindedSigningKey::<Sha256>::from(priv_key);
    let veri_key = VerifyingKey::<Sha256>::from(pub_key);

    let msg = "test message";
    let sign = sign_key.sign_with_rng(&mut rng, msg.as_bytes());
    assert_ne!(msg.to_string(), sign.to_string());

    veri_key.verify(msg.as_bytes(), &sign).unwrap();
}

#[test]
pub fn sign_verify_key_from_pub_fail() {
    let mut rng = rand::thread_rng();
    let priv_key = RsaPrivateKey::new(&mut rng, RSA_BITS).expect("ERROR: could not create key");
    let pub_key = RsaPublicKey::from(&priv_key);

    let sign_key = BlindedSigningKey::<Sha256>::from(priv_key);
    let veri_key = VerifyingKey::<Sha256>::from(pub_key);

    let msg = "test message";
    let sign = sign_key.sign_with_rng(&mut rng, msg.as_bytes());
    assert_ne!(msg.to_string(), sign.to_string());

    let wrong_msg = "wrong test message";
    if let Ok(()) = veri_key.verify(wrong_msg.as_bytes(), &sign) {
        println!("verify should return error");
        assert!(false);
    }
}

#[test]
pub fn generated_identity_signs_and_verifies() {
    let (pem, key) = greychain::create_key_pair().expect("ERROR: could not create key");
    assert!(pem.len() <= greychain::RSA_PEM_SIZE);
    let tx = greychain::Transaction::new(1, 0, &pem, &String::from("payee"));
    let pkg = greychain::Package::new_tx(tx, &key).unwrap();
    assert!(pkg.sign.len() <= greychain::RSA_BYTES);
    assert!(pkg.verify());
}
