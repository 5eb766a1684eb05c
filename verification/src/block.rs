//! Ledger blocks. A block binds a transaction to a round, links to its
//! predecessor through `prev_hash`, and carries the miner's puzzle solution.
//! Its `hash` is a deterministic 64-bit hash of all other fields; its mining
//! hash — the hash of (nonce, solution) — is the competitive ordering key
//! among blocks racing for the same round.

use crate::serialize::Serializer;
use crate::transaction::{hash_tx_into, tx_writes, Transaction, TxV};
use std::collections::hash_map::DefaultHasher;
use std::hash::Hasher;
use vstd::bytes::{
    lemma_auto_spec_u64_to_from_le_bytes, spec_u128_to_le_bytes, spec_u64_to_le_bytes,
};
use vstd::prelude::*;
use vstd::std_specs::hash::DefaultHasherAdditionalSpecFns;

verus! {

/// The abstract content of a block.
pub struct BlockV {
    pub prev_hash: u64,
    pub round: usize,
    pub timestamp: u128,
    pub tx: TxV,
    pub nonce: u64,
    pub solution: u64,
    pub hash: u64,
}

pub struct Block {
    pub prev_hash: u64,
    pub round: usize,
    pub timestamp: u128,
    pub tx: Transaction,
    pub nonce: u64,
    pub solution: u64,
    pub hash: u64,
}

impl DeepView for Block {
    type V = BlockV;

    open spec fn deep_view(&self) -> BlockV {
        BlockV {
            prev_hash: self.prev_hash,
            round: self.round,
            timestamp: self.timestamp,
            tx: self.tx.deep_view(),
            nonce: self.nonce,
            solution: self.solution,
            hash: self.hash,
        }
    }
}

/// The byte strings a block feeds to the hasher that computes its chain
/// hash: every field but the hash itself, the transaction in the middle.
#[verifier::opaque]
pub open spec fn block_writes(b: BlockV) -> Seq<Seq<u8>> {
    seq![
        spec_u64_to_le_bytes(b.prev_hash),
        spec_u64_to_le_bytes(b.round as u64),
        spec_u128_to_le_bytes(b.timestamp),
    ] + tx_writes(b.tx) + seq![spec_u64_to_le_bytes(b.nonce), spec_u64_to_le_bytes(b.solution)]
}

/// The chain hash a block with the given content ought to carry.
pub open spec fn spec_block_hash(b: BlockV) -> u64 {
    DefaultHasher::spec_finish(block_writes(b))
}

/// Whether a block's stored hash matches its content.
pub open spec fn hash_ok(b: BlockV) -> bool {
    b.hash == spec_block_hash(b)
}

/// The mining hash: the 64-bit combined hash of a nonce and a solution.
pub open spec fn spec_mining_hash(nonce: u64, solution: u64) -> u64 {
    DefaultHasher::spec_finish(
        seq![spec_u64_to_le_bytes(nonce), spec_u64_to_le_bytes(solution)],
    )
}

/// The mining hash of a block.
pub open spec fn mhash(b: BlockV) -> u64 {
    spec_mining_hash(b.nonce, b.solution)
}

impl Clone for Block {
    fn clone(&self) -> (r: Self)
        ensures
            r == *self,
    {
        Block {
            prev_hash: self.prev_hash,
            round: self.round,
            timestamp: self.timestamp,
            tx: self.tx.clone(),
            nonce: self.nonce,
            solution: self.solution,
            hash: self.hash,
        }
    }
}

impl PartialEq for Block {
    fn eq(&self, other: &Self) -> (r: bool) {
        self.get_minig_hash() == other.get_minig_hash()
    }
}

impl vstd::std_specs::cmp::PartialEqSpecImpl for Block {
    open spec fn obeys_eq_spec() -> bool {
        true
    }

    open spec fn eq_spec(&self, other: &Block) -> bool {
        mhash(self.deep_view()) == mhash(other.deep_view())
    }
}

impl PartialOrd for Block {
    fn partial_cmp(&self, other: &Self) -> (r: Option<std::cmp::Ordering>) {
        let a = self.get_minig_hash();
        let b = other.get_minig_hash();
        if a < b {
            Some(std::cmp::Ordering::Less)
        } else if a == b {
            Some(std::cmp::Ordering::Equal)
        } else {
            Some(std::cmp::Ordering::Greater)
        }
    }
}

impl vstd::std_specs::cmp::PartialOrdSpecImpl for Block {
    open spec fn obeys_partial_cmp_spec() -> bool {
        true
    }

    open spec fn partial_cmp_spec(&self, other: &Block) -> Option<std::cmp::Ordering> {
        let a = mhash(self.deep_view());
        let b = mhash(other.deep_view());
        if a < b {
            Some(std::cmp::Ordering::Less)
        } else if a == b {
            Some(std::cmp::Ordering::Equal)
        } else {
            Some(std::cmp::Ordering::Greater)
        }
    }
}

/// Compute the chain hash of the given block content.
fn gen_hash(
    tx: &Transaction,
    prev_hash: u64,
    round: usize,
    timestamp: u128,
    nonce: u64,
    solution: u64,
) -> (r: u64)
    ensures
        r == spec_block_hash(
            BlockV {
                prev_hash,
                round,
                timestamp,
                tx: tx.deep_view(),
                nonce,
                solution,
                hash: 0,
            },
        ),
{
    let mut h = DefaultHasher::new();
    let prev_bytes = vstd::bytes::u64_to_le_bytes(prev_hash);
    h.write(prev_bytes.as_slice());
    let round_bytes = vstd::bytes::u64_to_le_bytes(round as u64);
    h.write(round_bytes.as_slice());
    let ts_bytes = vstd::bytes::u128_to_le_bytes(timestamp);
    h.write(ts_bytes.as_slice());
    hash_tx_into(&mut h, tx);
    let nonce_bytes = vstd::bytes::u64_to_le_bytes(nonce);
    h.write(nonce_bytes.as_slice());
    let solution_bytes = vstd::bytes::u64_to_le_bytes(solution);
    h.write(solution_bytes.as_slice());
    proof {
        reveal(block_writes);
        reveal(crate::transaction::tx_writes);
        assert(h@ =~= block_writes(
            BlockV {
                prev_hash,
                round,
                timestamp,
                tx: tx.deep_view(),
                nonce,
                solution,
                hash: 0,
            },
        ));
    }
    h.finish()
}

impl Block {
    /// Assemble a freshly mined block: its hash is computed from all the
    /// other fields. The timestamp is the creation time in microseconds
    /// since the Unix epoch, read by the caller.
    pub fn new(
        tx: Transaction,
        prev_hash: u64,
        round: usize,
        timestamp: u128,
        nonce: u64,
        solution: u64,
    ) -> (r: Block)
        ensures
            r.deep_view() == (BlockV {
                prev_hash,
                round,
                timestamp,
                tx: tx.deep_view(),
                nonce,
                solution,
                hash: r.hash,
            }),
            hash_ok(r.deep_view()),
    {
        proof {
            reveal(block_writes);
        }
        let hash = gen_hash(&tx, prev_hash, round, timestamp, nonce, solution);
        Block { prev_hash, round, timestamp, tx, nonce, solution, hash }
    }

    /// Relink this block under a new predecessor hash and recompute its
    /// chain hash.
    pub fn rehash(&mut self, new_prev_hash: u64)
        ensures
            final(self).deep_view() == (BlockV { prev_hash: new_prev_hash, ..old(self).deep_view() }).with_hash(
                final(self).hash,
            ),
            hash_ok(final(self).deep_view()),
    {
        proof {
            reveal(block_writes);
        }
        self.prev_hash = new_prev_hash;
        self.hash = gen_hash(
            &self.tx,
            self.prev_hash,
            self.round,
            self.timestamp,
            self.nonce,
            self.solution,
        );
    }

    /// Relink this block under a new predecessor hash and round, and
    /// recompute its chain hash. The ledger uses this to repair the tail
    /// after an insertion or removal.
    pub(crate) fn relink(&mut self, new_prev_hash: u64, new_round: usize)
        ensures
            final(self).deep_view() == (BlockV {
                prev_hash: new_prev_hash,
                round: new_round,
                ..old(self).deep_view()
            }).with_hash(final(self).hash),
            hash_ok(final(self).deep_view()),
    {
        proof {
            reveal(block_writes);
        }
        self.prev_hash = new_prev_hash;
        self.round = new_round;
        self.hash = gen_hash(
            &self.tx,
            self.prev_hash,
            self.round,
            self.timestamp,
            self.nonce,
            self.solution,
        );
    }

    /// The mining hash of this block: the tie-breaker among blocks of equal
    /// round; smaller wins.
    pub fn get_minig_hash(&self) -> (r: u64)
        ensures
            r == mhash(self.deep_view()),
    {
        crate::miner::Miner::gen_mining_hash(self.nonce, self.solution)
    }
}

impl BlockV {
    /// This content with its stored hash replaced.
    pub open spec fn with_hash(self, h: u64) -> BlockV {
        BlockV { hash: h, ..self }
    }
}

impl Serializer for Block {
    open spec fn enc(a: BlockV) -> Seq<u8> {
        spec_u64_to_le_bytes(a.prev_hash) + spec_u64_to_le_bytes(a.round as u64)
            + spec_u128_to_le_bytes(a.timestamp) + <Transaction as Serializer>::enc(a.tx)
            + spec_u64_to_le_bytes(a.nonce) + spec_u64_to_le_bytes(a.solution)
            + spec_u64_to_le_bytes(a.hash)
    }

    open spec fn encodable(a: BlockV) -> bool {
        &&& <Transaction as Serializer>::encodable(a.tx)
        &&& Self::enc(a).len() <= usize::MAX
    }

    open spec fn dec(s: Seq<u8>) -> Option<(int, BlockV)> {
        match <u64 as Serializer>::dec(s) {
            None => None,
            Some((n1, prev_hash)) => match <u64 as Serializer>::dec(s.skip(n1)) {
                None => None,
                Some((n2, round64)) => if round64 <= usize::MAX {
                    match <u128 as Serializer>::dec(s.skip(n1 + n2)) {
                        None => None,
                        Some((n3, timestamp)) => match <Transaction as Serializer>::dec(
                            s.skip(n1 + n2 + n3),
                        ) {
                            None => None,
                            Some((n4, tx)) => match <u64 as Serializer>::dec(
                                s.skip(n1 + n2 + n3 + n4),
                            ) {
                                None => None,
                                Some((n5, nonce)) => match <u64 as Serializer>::dec(
                                    s.skip(n1 + n2 + n3 + n4 + n5),
                                ) {
                                    None => None,
                                    Some((n6, solution)) => match <u64 as Serializer>::dec(
                                        s.skip(n1 + n2 + n3 + n4 + n5 + n6),
                                    ) {
                                        None => None,
                                        Some((n7, hash)) => Some(
                                            (
                                                n1 + n2 + n3 + n4 + n5 + n6 + n7,
                                                BlockV {
                                                    prev_hash,
                                                    round: round64 as usize,
                                                    timestamp,
                                                    tx,
                                                    nonce,
                                                    solution,
                                                    hash,
                                                },
                                            ),
                                        ),
                                    },
                                },
                            },
                        },
                    }
                } else {
                    None
                },
            },
        }
    }

    fn serialize(&self, dst: &mut Vec<u8>) -> (n: usize) {
        let n1 = self.prev_hash.serialize(dst);
        let n2 = (self.round as u64).serialize(dst);
        let n3 = self.timestamp.serialize(dst);
        let n4 = self.tx.serialize(dst);
        let n5 = self.nonce.serialize(dst);
        let n6 = self.solution.serialize(dst);
        let n7 = self.hash.serialize(dst);
        proof {
            assert(dst@ =~= old(dst)@ + Self::enc(self.deep_view()));
        }
        n1 + n2 + n3 + n4 + n5 + n6 + n7
    }

    fn deserialize(bytes: &[u8], start: usize) -> (r: Option<(usize, Block)>) {
        let ghost s = bytes@.skip(start as int);
        let total = bytes.len();
        match u64::deserialize(bytes, start) {
            None => None,
            Some((n1, prev_hash)) => {
                proof {
                    assert(bytes@.skip(start as int + n1 as int) =~= s.skip(n1 as int));
                }
                match u64::deserialize(bytes, start + n1) {
                    None => None,
                    Some((n2, round64)) => {
                        if round64 > (usize::MAX as u64) {
                            return None;
                        }
                        let round = round64 as usize;
                        proof {
                            assert(bytes@.skip(start as int + n1 as int + n2 as int) =~= s.skip(
                                n1 as int + n2 as int,
                            ));
                        }
                        match u128::deserialize(bytes, start + n1 + n2) {
                            None => None,
                            Some((n3, timestamp)) => {
                                proof {
                                    assert(bytes@.skip(
                                        start as int + n1 as int + n2 as int + n3 as int,
                                    ) =~= s.skip(n1 as int + n2 as int + n3 as int));
                                }
                                match Transaction::deserialize(bytes, start + n1 + n2 + n3) {
                                    None => None,
                                    Some((n4, tx)) => {
                                        let c4 = n1 + n2 + n3 + n4;
                                        proof {
                                            assert(bytes@.skip(start as int + c4 as int) =~= s.skip(
                                                c4 as int,
                                            ));
                                        }
                                        match u64::deserialize(bytes, start + c4) {
                                            None => None,
                                            Some((n5, nonce)) => {
                                                let c5 = c4 + n5;
                                                proof {
                                                    assert(bytes@.skip(start as int + c5 as int)
                                                        =~= s.skip(c5 as int));
                                                }
                                                match u64::deserialize(bytes, start + c5) {
                                                    None => None,
                                                    Some((n6, solution)) => {
                                                        let c6 = c5 + n6;
                                                        proof {
                                                            assert(bytes@.skip(
                                                                start as int + c6 as int,
                                                            ) =~= s.skip(c6 as int));
                                                        }
                                                        match u64::deserialize(bytes, start + c6) {
                                                            None => None,
                                                            Some((n7, hash)) => Some(
                                                                (
                                                                    c6 + n7,
                                                                    Block {
                                                                        prev_hash,
                                                                        round,
                                                                        timestamp,
                                                                        tx,
                                                                        nonce,
                                                                        solution,
                                                                        hash,
                                                                    },
                                                                ),
                                                            ),
                                                        }
                                                    },
                                                }
                                            },
                                        }
                                    },
                                }
                            },
                        }
                    },
                }
            },
        }
    }

    proof fn lemma_round_trip(a: BlockV, rest: Seq<u8>) {
        lemma_auto_spec_u64_to_from_le_bytes();
        vstd::bytes::lemma_auto_spec_u128_to_from_le_bytes();
        let e1 = spec_u64_to_le_bytes(a.prev_hash);
        let e2 = spec_u64_to_le_bytes(a.round as u64);
        let e3 = spec_u128_to_le_bytes(a.timestamp);
        let e4 = <Transaction as Serializer>::enc(a.tx);
        let e5 = spec_u64_to_le_bytes(a.nonce);
        let e6 = spec_u64_to_le_bytes(a.solution);
        let e7 = spec_u64_to_le_bytes(a.hash);
        let s = Self::enc(a) + rest;
        assert(s =~= e1 + (e2 + (e3 + (e4 + (e5 + (e6 + (e7 + rest)))))));
        <u64 as Serializer>::lemma_round_trip(a.prev_hash, e2 + (e3 + (e4 + (e5 + (e6 + (e7
            + rest))))));
        assert(s.skip(8) =~= e2 + (e3 + (e4 + (e5 + (e6 + (e7 + rest))))));
        <u64 as Serializer>::lemma_round_trip(a.round as u64, e3 + (e4 + (e5 + (e6 + (e7
            + rest)))));
        assert(s.skip(16) =~= e3 + (e4 + (e5 + (e6 + (e7 + rest)))));
        <u128 as Serializer>::lemma_round_trip(a.timestamp, e4 + (e5 + (e6 + (e7 + rest))));
        assert(s.skip(32) =~= e4 + (e5 + (e6 + (e7 + rest))));
        <Transaction as Serializer>::lemma_round_trip(a.tx, e5 + (e6 + (e7 + rest)));
        assert(s.skip(32 + e4.len() as int) =~= e5 + (e6 + (e7 + rest)));
        <u64 as Serializer>::lemma_round_trip(a.nonce, e6 + (e7 + rest));
        assert(s.skip(40 + e4.len() as int) =~= e6 + (e7 + rest));
        <u64 as Serializer>::lemma_round_trip(a.solution, e7 + rest);
        assert(s.skip(48 + e4.len() as int) =~= e7 + rest);
        <u64 as Serializer>::lemma_round_trip(a.hash, rest);
    }
}

} // verus!
