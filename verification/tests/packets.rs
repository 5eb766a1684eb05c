//! Signed packets against the real RSA crate: construction, the wire round
//! trip, verification, and rejection of tampered content.

use greychain::{
    accept_packet, deserialize_nodes, deserialize_status, Node, Package, PackageType,
    Serializer, Transaction, PKG_CONTENT_SIZE, PKG_SIZE,
};
use rsa::pkcs8::EncodePublicKey;

/// A small test key: plenty for signing, quick to generate.
fn test_key() -> (String, rsa::RsaPrivateKey) {
    let mut rng = rand::thread_rng();
    let priv_key = rsa::RsaPrivateKey::new(&mut rng, 1024).expect("key generation failed");
    let pub_key = rsa::RsaPublicKey::from(&priv_key);
    let pem = pub_key.to_public_key_pem(rsa::pkcs8::LineEnding::LF).unwrap();
    (pem, priv_key)
}

#[test]
fn pkg_size_is_fixed() {
    assert_eq!(PKG_CONTENT_SIZE, 9000);
    assert_eq!(PKG_SIZE, 1 + 9000 + 8 + 572 + 8 + 256 + 1);
}

#[test]
fn tx_packet_round_trip_verifies() {
    let (pem, key) = test_key();
    let tx = Transaction::new(1, (420.69f64).to_bits(), &pem, &String::from("payee"));
    let pkg = Package::new_tx(tx, &key).unwrap();
    assert!(matches!(pkg.typ, PackageType::Tx));
    assert!(!pkg.is_forwarded);
    assert!(pkg.verify());

    let wire = pkg.serialize();
    assert_eq!(wire.len(), PKG_SIZE);
    let back = Package::deserialize(&wire).unwrap();
    assert!(matches!(back.typ, PackageType::Tx));
    assert_eq!(back.sender, pkg.sender);
    assert_eq!(back.content, pkg.content);
    assert_eq!(back.sign, pkg.sign);
    assert!(back.verify());

    let (_, tx_back) = Transaction::deserialize(&back.content, 0).unwrap();
    assert_eq!(tx_back.id, 1);
    assert_eq!(f64::from_bits(tx_back.amount_bits), 420.69f64);
}

#[test]
fn bit_flip_in_content_fails_verification() {
    let (pem, key) = test_key();
    let tx = Transaction::new(2, 0, &pem, &String::from("payee"));
    let pkg = Package::new_tx(tx, &key).unwrap();
    let mut wire = pkg.serialize();
    // flip one bit inside the content window
    wire[100] ^= 0x01;
    let back = Package::deserialize(&wire).unwrap();
    assert!(!back.verify());
    assert!(accept_packet(&wire).is_none());
    // the untampered buffer is accepted
    let wire_ok = pkg.serialize();
    assert!(accept_packet(&wire_ok).is_some());
}

#[test]
fn status_packet_carries_peer() {
    let (pem, key) = test_key();
    let pkg = Package::new_status(pem.clone(), 7007, true, &key).unwrap();
    assert!(matches!(pkg.typ, PackageType::Status));
    assert!(pkg.verify());
    let (online, node) = deserialize_status(&pkg.content).unwrap();
    assert!(online);
    assert_eq!(node.pub_key, pem);
    assert_eq!(node.port, 7007);

    let bye = Package::new_status(pem.clone(), 7007, false, &key).unwrap();
    let (online, node) = deserialize_status(&bye.content).unwrap();
    assert!(!online);
    assert_eq!(node.port, 7007);
}

#[test]
fn nodes_packet_carries_list() {
    let (pem, key) = test_key();
    let nodes = vec![
        Node { pub_key: String::from("alice"), port: 7000, online: true },
        Node { pub_key: String::from("bob"), port: 7001, online: true },
    ];
    let pkg = Package::new_nodes(&pem, nodes, &key).unwrap();
    assert!(matches!(pkg.typ, PackageType::NodesRes));
    assert!(pkg.verify());
    let back = deserialize_nodes(&pkg.content).unwrap();
    assert_eq!(back.len(), 2);
    assert_eq!(back[0].pub_key, "alice");
    assert_eq!(back[0].port, 7000);
    assert_eq!(back[1].pub_key, "bob");
    assert_eq!(back[1].port, 7001);
}

#[test]
fn garbage_buffer_is_rejected() {
    assert!(Package::deserialize(&vec![0u8; 10]).is_none());
    let mut wire = vec![0u8; PKG_SIZE];
    wire[0] = 9; // no such packet kind
    assert!(Package::deserialize(&wire).is_none());
    assert!(accept_packet(&vec![0u8; PKG_SIZE]).is_none());
}

#[test]
fn mismatched_key_yields_no_packet() {
    // a packet signed under a key that is not the sender's would be dropped
    // by every receiver, so construction refuses it
    let (pem_a, _key_a) = test_key();
    let (_pem_b, key_b) = test_key();
    let tx = Transaction::new(3, 0, &pem_a, &String::from("payee"));
    assert!(Package::new_tx(tx, &key_b).is_none());
    assert!(Package::new_status(pem_a.clone(), 7000, true, &key_b).is_none());
    assert!(Package::new_nodes(&pem_a, Vec::new(), &key_b).is_none());
}
