//! The proof-of-work miner. The miner keeps a FIFO queue of
//! (transaction, round) pairs with at most one entry per transaction id;
//! solving a puzzle means finding a 64-bit solution whose combined hash with
//! the nonce falls below the difficulty target. The worker thread that calls
//! `mine` and the channels that carry nonces and solutions live outside the
//! library; the queue discipline and the puzzle itself are here.

use crate::block::spec_mining_hash;
use crate::transaction::{spec_tx_nonce, Transaction};
use std::collections::hash_map::DefaultHasher;
use std::hash::Hasher;
use vstd::prelude::*;

verus! {

/// The inclusive upper bound a valid mining hash must lie below.
pub const DIFFICULTY: u64 = u64::MAX >> 24;

/// Relies on `rand::random::<u64>`: an arbitrary machine word; nothing is
/// promised of its value.
#[verifier::external_body]
fn random_u64() -> u64 {
    rand::random::<u64>()
}

pub struct Miner {
    pub queue: Vec<(Transaction, usize)>,
}

impl Miner {
    /// The queued (transaction, round) pairs, oldest first.
    pub open spec fn view(&self) -> Seq<(crate::transaction::TxV, usize)> {
        Seq::new(self.queue@.len(), |i: int| (self.queue@[i].0.deep_view(), self.queue@[i].1))
    }

    /// Whether some queued pair carries the given transaction id.
    pub open spec fn has_queued_id(&self, id: u64) -> bool {
        exists|i: int| 0 <= i < self.view().len() && self.view()[i].0.id == id
    }

    pub fn new() -> (r: Miner)
        ensures
            r.view() == Seq::<(crate::transaction::TxV, usize)>::empty(),
    {
        let r = Miner { queue: Vec::new() };
        proof {
            assert(r.view() =~= Seq::<(crate::transaction::TxV, usize)>::empty());
        }
        r
    }

    /// Enqueue a transaction for mining at the given round, unless a pair
    /// with the same transaction id is already queued; return the puzzle
    /// nonce to hand to the worker, or `None` for a dropped duplicate.
    pub fn add_tx(&mut self, tx: Transaction, round: usize) -> (r: Option<u64>)
        ensures
            old(self).has_queued_id(tx.deep_view().id) ==> {
                &&& r is None
                &&& final(self).view() == old(self).view()
            },
            !old(self).has_queued_id(tx.deep_view().id) ==> {
                &&& r == Some(spec_tx_nonce(tx.deep_view()))
                &&& final(self).view() == old(self).view().push((tx.deep_view(), round))
            },
    {
        let mut i: usize = 0;
        while i < self.queue.len()
            invariant
                i <= self.queue@.len(),
                forall|k: int| 0 <= k < i ==> self.view()[k].0.id != tx.deep_view().id,
            decreases self.queue@.len() - i,
        {
            if self.queue[i].0.id == tx.id {
                proof {
                    assert(self.view()[i as int].0.id == tx.deep_view().id);
                }
                return None;
            }
            i = i + 1;
        }
        proof {
            assert(!self.has_queued_id(tx.deep_view().id));
        }
        let nonce = tx.gen_nonce();
        let ghost before = self.view();
        self.queue.push((tx, round));
        proof {
            assert(self.view() =~= before.push((tx.deep_view(), round)));
        }
        Some(nonce)
    }

    /// Pair a solution received from the worker with the oldest queued
    /// transaction; pop that pair and return it with the solution.
    pub fn recv_solution(&mut self, solution: u64) -> (r: Option<(Transaction, u64, usize)>)
        ensures
            old(self).view().len() == 0 ==> {
                &&& r is None
                &&& final(self).view() == old(self).view()
            },
            old(self).view().len() > 0 ==> {
                &&& r is Some
                &&& r->Some_0.0.deep_view() == old(self).view()[0].0
                &&& r->Some_0.1 == solution
                &&& r->Some_0.2 == old(self).view()[0].1
                &&& final(self).view() == old(self).view().drop_first()
            },
    {
        if self.queue.len() == 0 {
            return None;
        }
        let ghost before = self.view();
        let (tx, round) = self.queue.remove(0);
        proof {
            assert(self.view() =~= before.drop_first());
        }
        Some((tx, solution, round))
    }

    /// The 64-bit combined hash of a nonce and a solution.
    pub fn gen_mining_hash(nonce: u64, solution: u64) -> (r: u64)
        ensures
            r == spec_mining_hash(nonce, solution),
    {
        let mut h = DefaultHasher::new();
        let nonce_bytes = vstd::bytes::u64_to_le_bytes(nonce);
        h.write(nonce_bytes.as_slice());
        let solution_bytes = vstd::bytes::u64_to_le_bytes(solution);
        h.write(solution_bytes.as_slice());
        proof {
            assert(h@ =~= seq![
                vstd::bytes::spec_u64_to_le_bytes(nonce),
                vstd::bytes::spec_u64_to_le_bytes(solution),
            ]);
        }
        h.finish()
    }

    /// Whether the queue is empty: the miner has no work in flight.
    pub fn is_idling(&self) -> (r: bool)
        ensures
            r == (self.view().len() == 0),
    {
        self.queue.is_empty()
    }

    /// Solve the puzzle for a nonce: draw solutions at random until the
    /// mining hash falls below the difficulty target. The expected number of
    /// draws is about 2^24; the draw budget, 2^64, is past any horizon, so a
    /// `None` never comes back in practice.
    pub fn mine(nonce: u64) -> (r: Option<u64>)
        ensures
            r matches Some(solution) ==> spec_mining_hash(nonce, solution) < DIFFICULTY,
    {
        let mut attempts: u64 = 0;
        while attempts < u64::MAX
            invariant
                true,
            decreases u64::MAX - attempts,
        {
            let solution = random_u64();
            if Self::verify(nonce, solution) {
                return Some(solution);
            }
            attempts = attempts + 1;
        }
        None
    }

    /// Whether a solution answers the puzzle for a nonce.
    fn verify(nonce: u64, solution: u64) -> (r: bool)
        ensures
            r == (spec_mining_hash(nonce, solution) < DIFFICULTY),
    {
        Self::gen_mining_hash(nonce, solution) < DIFFICULTY
    }
}

} // verus!
