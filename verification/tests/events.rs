//! The event-loop decisions: what each packet kind does to the node's state
//! and which packets go out in response.

use greychain::{
    handle_pkg, on_solution, Action, Blockchain, Miner, Network, Package, PackageType,
    Transaction, DIFFICULTY,
};
use rsa::pkcs8::EncodePublicKey;
use std::hash::Hasher;

/// Search the smallest solution to the puzzle for `nonce`, scanning with a
/// bare hasher over the byte stream the library hashes.
fn find_solution(nonce: u64) -> u64 {
    let mut solution: u64 = 0;
    loop {
        let mut h = std::collections::hash_map::DefaultHasher::new();
        h.write(&nonce.to_le_bytes());
        h.write(&solution.to_le_bytes());
        if h.finish() < DIFFICULTY {
            return solution;
        }
        solution += 1;
    }
}

fn test_key() -> (String, rsa::RsaPrivateKey) {
    let mut rng = rand::thread_rng();
    let priv_key = rsa::RsaPrivateKey::new(&mut rng, 1024).expect("key generation failed");
    let pub_key = rsa::RsaPublicKey::from(&priv_key);
    let pem = pub_key.to_public_key_pem(rsa::pkcs8::LineEnding::LF).unwrap();
    (pem, priv_key)
}

#[test]
fn tx_packet_queues_mining_work() {
    let (pem, key) = test_key();
    let tx = Transaction::new(1, 0, &pem, &String::from("payee"));
    let pkg = Package::new_tx(tx.clone(), &key).unwrap();
    let mut bc = Blockchain::new();
    let mut net = Network::new_empty();
    let mut miner = Miner::new();
    let actions = handle_pkg(&pem, &key, pkg.clone(), &mut bc, &mut net, &mut miner);
    assert_eq!(actions.len(), 1);
    match &actions[0] {
        Action::MineRequest(nonce) => assert_eq!(*nonce, tx.gen_nonce()),
        _ => panic!("expected a mine request"),
    }
    assert!(!miner.is_idling());
    // the same transaction again is dropped at the queue
    let actions = handle_pkg(&pem, &key, pkg, &mut bc, &mut net, &mut miner);
    assert!(actions.is_empty());
}

#[test]
fn status_online_replies_forwards_and_registers() {
    let (me_pem, me_key) = test_key();
    let (peer_pem, peer_key) = test_key();
    let pkg = Package::new_status(peer_pem.clone(), 7100, true, &peer_key).unwrap();
    let mut bc = Blockchain::new();
    let mut net = Network::new_empty();
    let mut miner = Miner::new();
    let actions = handle_pkg(&me_pem, &me_key, pkg, &mut bc, &mut net, &mut miner);
    // a direct announcement from a new peer: snapshot reply, then forward
    assert_eq!(actions.len(), 2);
    match &actions[0] {
        Action::SendTo(port, reply) => {
            assert_eq!(*port, 7100);
            assert!(matches!(reply.typ, PackageType::NodesRes));
            assert_eq!(reply.sender, me_pem);
        },
        _ => panic!("expected the snapshot reply first"),
    }
    match &actions[1] {
        Action::BroadcastForward(fwd) => {
            assert!(matches!(fwd.typ, PackageType::Status));
            assert!(fwd.is_forwarded);
        },
        _ => panic!("expected the forwarded announcement"),
    }
    assert_eq!(net.get_len(), 1);
    assert!(!net.contains(&peer_pem));

    // the same announcement again: a reply is still owed, but no forward
    let pkg = Package::new_status(peer_pem.clone(), 7100, true, &peer_key).unwrap();
    let actions = handle_pkg(&me_pem, &me_key, pkg, &mut bc, &mut net, &mut miner);
    assert_eq!(actions.len(), 1);
    assert!(matches!(&actions[0], Action::SendTo(_, _)));
    assert_eq!(net.get_len(), 1);
}

#[test]
fn forwarded_status_gets_no_reply() {
    let (me_pem, me_key) = test_key();
    let (peer_pem, peer_key) = test_key();
    let mut pkg = Package::new_status(peer_pem.clone(), 7200, true, &peer_key).unwrap();
    pkg.is_forwarded = true;
    let mut bc = Blockchain::new();
    let mut net = Network::new_empty();
    let mut miner = Miner::new();
    let actions = handle_pkg(&me_pem, &me_key, pkg, &mut bc, &mut net, &mut miner);
    assert_eq!(actions.len(), 1);
    assert!(matches!(&actions[0], Action::BroadcastForward(_)));
    assert_eq!(net.get_len(), 1);
}

#[test]
fn status_offline_deregisters() {
    let (me_pem, me_key) = test_key();
    let (peer_pem, peer_key) = test_key();
    let mut net = Network::new_empty();
    net.register(peer_pem.clone(), 7300);
    let pkg = Package::new_status(peer_pem.clone(), 7300, false, &peer_key).unwrap();
    let mut bc = Blockchain::new();
    let mut miner = Miner::new();
    let actions = handle_pkg(&me_pem, &me_key, pkg, &mut bc, &mut net, &mut miner);
    assert!(actions.is_empty());
    assert_eq!(net.get_len(), 0);
}

#[test]
fn nodes_packet_registers_all() {
    let (me_pem, me_key) = test_key();
    let (peer_pem, peer_key) = test_key();
    let listed = vec![
        greychain::Node { pub_key: String::from("alice"), port: 7000, online: true },
        greychain::Node { pub_key: String::from("bob"), port: 7001, online: true },
    ];
    let pkg = Package::new_nodes(&peer_pem, listed, &peer_key).unwrap();
    let mut bc = Blockchain::new();
    let mut net = Network::new_empty();
    let mut miner = Miner::new();
    let actions = handle_pkg(&me_pem, &me_key, pkg, &mut bc, &mut net, &mut miner);
    assert!(actions.is_empty());
    assert_eq!(net.get_len(), 2);
    assert!(!net.contains(&String::from("alice")));
    assert!(!net.contains(&String::from("bob")));
}

#[test]
fn block_packet_extends_ledger() {
    let (me_pem, me_key) = test_key();
    let tx = Transaction::new(4, 0, &me_pem, &String::from("payee"));
    let nonce = tx.gen_nonce();
    let block = greychain::Block::new(tx, 0, 0, 1_000, nonce, 77);
    let mut buf: Vec<u8> = Vec::new();
    let _ = greychain::Serializer::serialize(&block, &mut buf);
    while buf.len() < greychain::PKG_CONTENT_SIZE {
        buf.push(0);
    }
    let pkg = Package::assemble(PackageType::Block, buf, me_pem.clone(), Vec::new(), false)
        .unwrap();
    let mut bc = Blockchain::new();
    let mut net = Network::new_empty();
    let mut miner = Miner::new();
    let actions = handle_pkg(&me_pem, &me_key, pkg, &mut bc, &mut net, &mut miner);
    assert!(actions.is_empty());
    assert_eq!(bc.get_round(), 1);
    assert_eq!(bc.get_cur_hash(), block.hash);
}

#[test]
fn solution_becomes_block_and_broadcast() {
    let (me_pem, me_key) = test_key();
    let tx = Transaction::new(5, (64.42f64).to_bits(), &me_pem, &String::from("payee"));
    let nonce = tx.gen_nonce();
    let solution = find_solution(nonce);
    let mut bc = Blockchain::new();
    let pkg = on_solution(&me_pem, &me_key, tx, solution, 0, 55_000, &mut bc).unwrap();
    assert!(matches!(pkg.typ, PackageType::Block));
    assert_eq!(pkg.sender, me_pem);
    assert!(pkg.verify());
    // the block entered the local ledger
    assert_eq!(bc.get_round(), 1);
    let (_, block) = <greychain::Block as greychain::Serializer>::deserialize(
        &pkg.content,
        0,
    ).unwrap();
    assert_eq!(bc.get_cur_hash(), block.hash);
    assert!(block.get_minig_hash() < DIFFICULTY);
    assert_eq!(block.round, 0);
    assert_eq!(block.prev_hash, 0);
}

#[test]
fn bad_solution_is_dropped() {
    let (me_pem, me_key) = test_key();
    let tx = Transaction::new(6, 0, &me_pem, &String::from("payee"));
    let nonce = tx.gen_nonce();
    // search a solution that misses the difficulty target
    let mut bad = 0u64;
    while Miner::gen_mining_hash(nonce, bad) < DIFFICULTY {
        bad += 1;
    }
    let mut bc = Blockchain::new();
    assert!(on_solution(&me_pem, &me_key, tx, bad, 0, 55_000, &mut bc).is_none());
    assert_eq!(bc.get_round(), 0);
}
