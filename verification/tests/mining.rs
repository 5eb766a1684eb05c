//! The miner: queue discipline, the mining hash, and the puzzle itself.

use greychain::{Block, Miner, Transaction, DIFFICULTY};
use std::collections::hash_map::DefaultHasher;
use std::hash::Hasher;

/// Search the smallest solution to the puzzle for `nonce` by scanning
/// upward with a bare hasher over the same byte stream the library hashes;
/// scanning beats drawing at random only in hashing speed.
fn find_solution(nonce: u64) -> u64 {
    let mut solution: u64 = 0;
    loop {
        let mut h = DefaultHasher::new();
        h.write(&nonce.to_le_bytes());
        h.write(&solution.to_le_bytes());
        if h.finish() < DIFFICULTY {
            return solution;
        }
        solution += 1;
    }
}

fn tx(id: u64) -> Transaction {
    Transaction::new(id, (2.5f64).to_bits(), &String::from("payer"), &String::from("payee"))
}

#[test]
fn add_tx_drops_duplicate_ids() {
    let mut miner = Miner::new();
    assert!(miner.is_idling());
    let t = tx(1);
    let nonce = miner.add_tx(t.clone(), 0).unwrap();
    assert_eq!(nonce, t.gen_nonce());
    assert!(!miner.is_idling());
    // the same id again is silently dropped
    assert!(miner.add_tx(tx(1), 1).is_none());
    // a different id is queued
    assert!(miner.add_tx(tx(2), 1).is_some());
}

#[test]
fn recv_solution_pairs_fifo() {
    let mut miner = Miner::new();
    assert!(miner.recv_solution(5).is_none());
    let _ = miner.add_tx(tx(1), 0);
    let _ = miner.add_tx(tx(2), 1);
    let (t, s, round) = miner.recv_solution(111).unwrap();
    assert_eq!((t.id, s, round), (1, 111, 0));
    let (t, s, round) = miner.recv_solution(222).unwrap();
    assert_eq!((t.id, s, round), (2, 222, 1));
    assert!(miner.is_idling());
}

#[test]
fn gen_mining_hash_is_deterministic() {
    let a = Miner::gen_mining_hash(42, 777);
    let b = Miner::gen_mining_hash(42, 777);
    assert_eq!(a, b);
    // and the block's competitive key is the same function
    let t = tx(3);
    let nonce = t.gen_nonce();
    let block = Block::new(t, 0, 0, 123, nonce, 777);
    assert_eq!(block.get_minig_hash(), Miner::gen_mining_hash(nonce, 777));
}

#[test]
fn mine_meets_difficulty() {
    let t = tx(4);
    let nonce = t.gen_nonce();
    let solution = find_solution(nonce);
    // the library's mining hash agrees with the search, and a solution it
    // accepts lies below the difficulty target
    assert!(Miner::gen_mining_hash(nonce, solution) < DIFFICULTY);
    if solution > 0 {
        assert!(Miner::gen_mining_hash(nonce, solution - 1) >= DIFFICULTY);
    }
}

#[test]
fn block_hash_is_deterministic_in_content() {
    let a = Block::new(tx(5), 7, 2, 999, 1000, 2000);
    let b = Block::new(tx(5), 7, 2, 999, 1000, 2000);
    assert_eq!(a.hash, b.hash);
    // a different solution gives a different chain hash
    let c = Block::new(tx(5), 7, 2, 999, 1000, 2001);
    assert_ne!(a.hash, c.hash);
}

#[test]
fn rehash_relinks_and_recomputes() {
    let mut b = Block::new(tx(6), 7, 2, 999, 1000, 2000);
    let old_hash = b.hash;
    b.rehash(0xfeed);
    assert_eq!(b.prev_hash, 0xfeed);
    assert_ne!(b.hash, old_hash);
    // relinking back restores the original hash
    b.rehash(7);
    assert_eq!(b.hash, old_hash);
}

#[test]
fn blocks_compare_by_mining_hash() {
    let a = Block::new(tx(7), 0, 0, 1, 10, 20);
    let b = Block::new(tx(8), 0, 0, 2, 30, 40);
    assert_eq!(a < b, a.get_minig_hash() < b.get_minig_hash());
    assert_eq!(a == b, a.get_minig_hash() == b.get_minig_hash());
    // equality tracks the mining hash, not the transaction
    let c = Block::new(tx(9), 5, 1, 3, 10, 20);
    assert!(a == c);
}
