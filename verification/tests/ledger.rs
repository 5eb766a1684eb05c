//! The ledger engine: extension, conflict resolution, future blocks, forks,
//! and the chain invariants observable through the getters.

use greychain::{Block, Blockchain, Miner, Transaction};

fn tx(id: u64) -> Transaction {
    Transaction::new(id, (1.5f64).to_bits(), &String::from("payer"), &String::from("payee"))
}

/// A block for the given round linked onto the ledger, with an arbitrary
/// solution.
fn block_for(bc: &Blockchain, id: u64, round: usize, solution: u64) -> Block {
    let t = tx(id);
    let nonce = t.gen_nonce();
    let prev_hash = bc.get_prev_hash(round);
    Block::new(t, prev_hash, round, 1_000_000 + round as u128, nonce, solution)
}

#[test]
fn empty_ledger_reports_zero() {
    let bc = Blockchain::new();
    assert_eq!(bc.get_round(), 0);
    assert_eq!(bc.get_cur_hash(), 0);
    assert_eq!(bc.get_prev_hash(0), 0);
    assert_eq!(bc.get_tx_ids(), Vec::<u64>::new());
}

#[test]
fn extension_updates_cur_hash() {
    let mut bc = Blockchain::new();
    let b0 = block_for(&bc, 0, 0, 11);
    bc.add_block(&b0);
    assert_eq!(bc.get_round(), 1);
    assert_eq!(bc.get_cur_hash(), b0.hash);
    let b1 = block_for(&bc, 1, 1, 22);
    bc.add_block(&b1);
    assert_eq!(bc.get_round(), 2);
    assert_eq!(bc.get_cur_hash(), b1.hash);
    assert_eq!(bc.get_tx_ids(), vec![0, 1]);
}

#[test]
fn chain_links_hold() {
    let mut bc = Blockchain::new();
    for r in 0..4usize {
        let b = block_for(&bc, r as u64, r, 100 + r as u64);
        bc.add_block(&b);
    }
    let hashes = bc.get_hashes();
    assert_eq!(hashes.len(), 4);
    assert_eq!(hashes[0].0, 0);
    for i in 1..hashes.len() {
        assert_eq!(hashes[i].0, hashes[i - 1].1);
    }
    assert_eq!(bc.get_cur_hash(), hashes[3].1);
}

#[test]
fn link_mismatch_is_dropped() {
    let mut bc = Blockchain::new();
    let b0 = block_for(&bc, 0, 0, 11);
    bc.add_block(&b0);
    let t = tx(1);
    let nonce = t.gen_nonce();
    let stray = Block::new(t, 0xdead, 1, 2_000_000, nonce, 33);
    bc.add_block(&stray);
    assert_eq!(bc.get_round(), 1);
    assert_eq!(bc.get_cur_hash(), b0.hash);
}

#[test]
fn duplicate_tx_id_is_discarded() {
    let mut bc = Blockchain::new();
    let b0 = block_for(&bc, 0, 0, 11);
    bc.add_block(&b0);
    // a second block carrying the same transaction id at the next round
    let dup = block_for(&bc, 0, 1, 44);
    bc.add_block(&dup);
    assert_eq!(bc.get_round(), 1);
    assert_eq!(bc.get_tx_ids(), vec![0]);
}

#[test]
fn future_block_waits_and_lands() {
    let mut bc = Blockchain::new();
    let b0 = block_for(&bc, 0, 0, 11);
    let b1 = Block::new(tx(1), b0.hash, 1, 2_000_000, tx(1).gen_nonce(), 22);
    let b2 = Block::new(tx(2), b1.hash, 2, 3_000_000, tx(2).gen_nonce(), 33);
    // rounds 1 and 2 arrive before round 0
    bc.add_block(&b2);
    bc.add_block(&b1);
    assert_eq!(bc.get_round(), 0);
    bc.add_block(&b0);
    assert_eq!(bc.get_round(), 1);
    bc.drain_pending();
    assert_eq!(bc.get_round(), 3);
    let hashes = bc.get_hashes();
    for i in 1..hashes.len() {
        assert_eq!(hashes[i].0, hashes[i - 1].1);
    }
    for (i, b) in bc.blocks.iter().enumerate() {
        assert_eq!(b.round, i);
    }
    assert_eq!(bc.get_tx_ids(), vec![0, 1, 2]);
}

#[test]
fn smaller_mining_hash_wins_round() {
    let mut bc = Blockchain::new();
    let b0 = block_for(&bc, 0, 0, 11);
    bc.add_block(&b0);
    // two miners race for round 1 with different transactions
    let ours = block_for(&bc, 1, 1, 500);
    bc.add_block(&ours);
    let theirs = block_for(&bc, 2, 1, 777);
    bc.add_block(&theirs);
    assert_eq!(bc.get_round(), 3);
    let ids = bc.get_tx_ids();
    let winner_first = theirs.get_minig_hash() < ours.get_minig_hash();
    if winner_first {
        assert_eq!(ids, vec![0, 2, 1]);
    } else {
        assert_eq!(ids, vec![0, 1, 2]);
    }
    // the loser's transaction is kept, relinked behind the winner
    let hashes = bc.get_hashes();
    for i in 1..hashes.len() {
        assert_eq!(hashes[i].0, hashes[i - 1].1);
    }
    for (i, b) in bc.blocks.iter().enumerate() {
        assert_eq!(b.round, i);
    }
}

#[test]
fn same_tx_better_block_replaces_in_place() {
    let mut bc = Blockchain::new();
    let b0 = block_for(&bc, 0, 0, 11);
    bc.add_block(&b0);
    // two solutions for the same transaction at round 1
    let first = block_for(&bc, 1, 1, 1000);
    let second = block_for(&bc, 1, 1, 2000);
    let (worse, better) = if first.get_minig_hash() <= second.get_minig_hash() {
        (second, first)
    } else {
        (first, second)
    };
    bc.add_block(&worse);
    let cur_before = bc.get_cur_hash();
    bc.add_block(&better);
    assert_eq!(bc.get_round(), 2);
    assert_eq!(bc.get_tx_ids(), vec![0, 1]);
    assert_eq!(bc.get_cur_hash(), better.hash);
    assert_ne!(bc.get_cur_hash(), cur_before);
    // and the worse one bounces off afterwards
    bc.add_block(&worse);
    assert_eq!(bc.get_round(), 2);
    assert_eq!(bc.get_cur_hash(), better.hash);
}

#[test]
fn fork_truncates_and_replaces_tail() {
    let mut bc = Blockchain::new();
    for r in 0..3usize {
        let b = block_for(&bc, r as u64, r, 10 + r as u64);
        bc.add_block(&b);
    }
    assert_eq!(bc.get_hashes().len(), 3);
    // craft a competitor for round 1 sharing round 1's parent, and search a
    // solution that beats the occupant's mining hash
    let parent = bc.get_prev_hash(1);
    let t = tx(9);
    let nonce = t.gen_nonce();
    let occupant = block_for(&bc, 1, 1, 11); // same fields as the real round-1 block
    let mut solution = 0u64;
    while Miner::gen_mining_hash(nonce, solution) >= occupant.get_minig_hash() {
        solution += 1;
    }
    let fork = Block::new(t, parent, 1, 9_000_000, nonce, solution);
    bc.apply_fork(&fork);
    assert_eq!(bc.get_round(), 2);
    assert_eq!(bc.get_tx_ids(), vec![0, 9]);
    assert_eq!(bc.get_cur_hash(), fork.hash);
}

#[test]
fn fork_with_worse_hash_is_ignored() {
    let mut bc = Blockchain::new();
    for r in 0..2usize {
        let b = block_for(&bc, r as u64, r, 10 + r as u64);
        bc.add_block(&b);
    }
    let cur = bc.get_cur_hash();
    let parent = bc.get_prev_hash(1);
    let t = tx(9);
    let nonce = t.gen_nonce();
    let occupant = block_for(&bc, 1, 1, 11);
    let mut solution = 0u64;
    while Miner::gen_mining_hash(nonce, solution) <= occupant.get_minig_hash() {
        solution += 1;
    }
    let fork = Block::new(t, parent, 1, 9_000_000, nonce, solution);
    bc.apply_fork(&fork);
    assert_eq!(bc.get_round(), 2);
    assert_eq!(bc.get_cur_hash(), cur);
}
