//! The membership table: upsert, removal, the new-peer test, and snapshots.

use greychain::{Network, Node};

#[test]
fn empty_network() {
    let mut net = Network::new_empty();
    assert_eq!(net.get_len(), 0);
    assert!(net.contains(&String::from("anyone")));
}

#[test]
fn register_is_idempotent_upsert() {
    let mut net = Network::new_empty();
    net.register(String::from("alice"), 7000);
    net.register(String::from("bob"), 7001);
    assert_eq!(net.get_len(), 2);
    // same key again: the port is updated, no new entry
    net.register(String::from("alice"), 7009);
    assert_eq!(net.get_len(), 2);
    let snap = net.to_nodes();
    let alice = snap.iter().find(|n| n.pub_key == "alice").unwrap();
    assert_eq!(alice.port, 7009);
}

#[test]
fn contains_answers_is_this_peer_new() {
    let mut net = Network::new_empty();
    assert!(net.contains(&String::from("alice")));
    net.register(String::from("alice"), 7000);
    assert!(!net.contains(&String::from("alice")));
    assert!(net.contains(&String::from("bob")));
}

#[test]
fn deregister_removes() {
    let mut net = Network::new_empty();
    net.register(String::from("alice"), 7000);
    net.register(String::from("bob"), 7001);
    net.deregister(String::from("alice"));
    assert_eq!(net.get_len(), 1);
    assert!(net.contains(&String::from("alice")));
    assert!(!net.contains(&String::from("bob")));
    // removing an unknown key changes nothing
    net.deregister(String::from("carol"));
    assert_eq!(net.get_len(), 1);
}

#[test]
fn seeded_network_and_snapshot() {
    let seeds = vec![
        Node { pub_key: String::from("alice"), port: 7000, online: true },
        Node { pub_key: String::from("bob"), port: 7001, online: false },
    ];
    let mut net = Network::new(&seeds);
    assert_eq!(net.get_len(), 2);
    assert!(!net.contains(&String::from("alice")));
    let snap = net.to_nodes();
    assert_eq!(snap.len(), 2);
    // a snapshot marks every listed peer online
    assert!(snap.iter().all(|n| n.online));
}
