//! Value-transfer transactions. A transaction carries a process-wide unique
//! 64-bit id, the transferred amount as the bit pattern of its 64-bit
//! floating-point representation, and the payer's and payee's public-key PEM
//! strings. Transactions are content-hashable and equal by structural
//! content.

use crate::serialize::Serializer;
use std::collections::hash_map::DefaultHasher;
use std::hash::Hasher;
use vstd::bytes::{lemma_auto_spec_u64_to_from_le_bytes, spec_u64_to_le_bytes};
use vstd::prelude::*;
use vstd::std_specs::hash::DefaultHasherAdditionalSpecFns;

verus! {

/// The abstract content of a transaction.
pub struct TxV {
    pub id: u64,
    pub amount_bits: u64,
    pub payer: Seq<char>,
    pub payee: Seq<char>,
}

pub struct Transaction {
    pub id: u64,
    pub amount_bits: u64,
    pub payer: String,
    pub payee: String,
}

impl DeepView for Transaction {
    type V = TxV;

    open spec fn deep_view(&self) -> TxV {
        TxV {
            id: self.id,
            amount_bits: self.amount_bits,
            payer: self.payer@,
            payee: self.payee@,
        }
    }
}

impl Clone for Transaction {
    fn clone(&self) -> (r: Self)
        ensures
            r == *self,
    {
        Transaction {
            id: self.id,
            amount_bits: self.amount_bits,
            payer: self.payer.clone(),
            payee: self.payee.clone(),
        }
    }
}

impl PartialEq for Transaction {
    fn eq(&self, other: &Self) -> (r: bool) {
        self.id == other.id && self.amount_bits == other.amount_bits
            && self.payer == other.payer && self.payee == other.payee
    }
}

impl vstd::std_specs::cmp::PartialEqSpecImpl for Transaction {
    open spec fn obeys_eq_spec() -> bool {
        true
    }

    open spec fn eq_spec(&self, other: &Transaction) -> bool {
        self.deep_view() == other.deep_view()
    }
}

/// The byte strings a transaction feeds to a hasher, in order: id, amount
/// bits, payer bytes, payee bytes.
#[verifier::opaque]
pub open spec fn tx_writes(a: TxV) -> Seq<Seq<u8>> {
    seq![
        spec_u64_to_le_bytes(a.id),
        spec_u64_to_le_bytes(a.amount_bits),
        vstd::utf8::encode_utf8(a.payer),
        vstd::utf8::encode_utf8(a.payee),
    ]
}

/// The nonce derived from a transaction's content: the miner's puzzle input.
pub open spec fn spec_tx_nonce(a: TxV) -> u64 {
    DefaultHasher::spec_finish(tx_writes(a))
}

/// Feed a transaction's content to a hasher.
pub(crate) fn hash_tx_into(h: &mut DefaultHasher, tx: &Transaction)
    ensures
        final(h)@ == old(h)@ + tx_writes(tx.deep_view()),
{
    let ghost h0 = h@;
    let id_bytes = vstd::bytes::u64_to_le_bytes(tx.id);
    h.write(id_bytes.as_slice());
    let amount_bytes = vstd::bytes::u64_to_le_bytes(tx.amount_bits);
    h.write(amount_bytes.as_slice());
    h.write(tx.payer.as_str().as_bytes());
    h.write(tx.payee.as_str().as_bytes());
    proof {
        reveal(tx_writes);
        assert(h@ =~= h0 + tx_writes(tx.deep_view()));
    }
}

impl Transaction {
    /// Build a transaction. The id must be drawn from a process-wide
    /// monotonic counter so that no two live transactions share one.
    pub fn new(id: u64, amount_bits: u64, payer: &String, payee: &String) -> (r: Transaction)
        ensures
            r.deep_view() == (TxV { id, amount_bits, payer: payer@, payee: payee@ }),
    {
        Transaction { id, amount_bits, payer: payer.clone(), payee: payee.clone() }
    }

    /// The deterministic hash of this transaction's content, used as the
    /// mining puzzle's nonce.
    pub fn gen_nonce(&self) -> (r: u64)
        ensures
            r == spec_tx_nonce(self.deep_view()),
    {
        let mut h = DefaultHasher::new();
        hash_tx_into(&mut h, self);
        h.finish()
    }
}

impl Serializer for Transaction {
    open spec fn enc(a: TxV) -> Seq<u8> {
        spec_u64_to_le_bytes(a.id) + spec_u64_to_le_bytes(a.amount_bits)
            + <String as Serializer>::enc(a.payer) + <String as Serializer>::enc(a.payee)
    }

    open spec fn encodable(a: TxV) -> bool {
        &&& <String as Serializer>::encodable(a.payer)
        &&& <String as Serializer>::encodable(a.payee)
        &&& Self::enc(a).len() <= usize::MAX
    }

    open spec fn dec(s: Seq<u8>) -> Option<(int, TxV)> {
        match <u64 as Serializer>::dec(s) {
            None => None,
            Some((n1, id)) => match <u64 as Serializer>::dec(s.skip(n1)) {
                None => None,
                Some((n2, amount_bits)) => match <String as Serializer>::dec(s.skip(n1 + n2)) {
                    None => None,
                    Some((n3, payer)) => match <String as Serializer>::dec(
                        s.skip(n1 + n2 + n3),
                    ) {
                        None => None,
                        Some((n4, payee)) => Some(
                            (n1 + n2 + n3 + n4, TxV { id, amount_bits, payer, payee }),
                        ),
                    },
                },
            },
        }
    }

    fn serialize(&self, dst: &mut Vec<u8>) -> (n: usize) {
        let n1 = self.id.serialize(dst);
        let n2 = self.amount_bits.serialize(dst);
        let n3 = self.payer.serialize(dst);
        let n4 = self.payee.serialize(dst);
        proof {
            assert(dst@ =~= old(dst)@ + Self::enc(self.deep_view()));
        }
        n1 + n2 + n3 + n4
    }

    fn deserialize(bytes: &[u8], start: usize) -> (r: Option<(usize, Transaction)>) {
        let ghost s = bytes@.skip(start as int);
        let total = bytes.len();
        match u64::deserialize(bytes, start) {
            None => None,
            Some((n1, id)) => {
                proof {
                    assert(bytes@.skip(start as int + n1 as int) =~= s.skip(n1 as int));
                }
                match u64::deserialize(bytes, start + n1) {
                    None => None,
                    Some((n2, amount_bits)) => {
                        proof {
                            assert(bytes@.skip(start as int + n1 as int + n2 as int) =~= s.skip(
                                n1 as int + n2 as int,
                            ));
                        }
                        match String::deserialize(bytes, start + n1 + n2) {
                            None => None,
                            Some((n3, payer)) => {
                                proof {
                                    assert(bytes@.skip(
                                        start as int + n1 as int + n2 as int + n3 as int,
                                    ) =~= s.skip(n1 as int + n2 as int + n3 as int));
                                }
                                match String::deserialize(bytes, start + n1 + n2 + n3) {
                                    None => None,
                                    Some((n4, payee)) => Some(
                                        (
                                            n1 + n2 + n3 + n4,
                                            Transaction { id, amount_bits, payer, payee },
                                        ),
                                    ),
                                }
                            },
                        }
                    },
                }
            },
        }
    }

    proof fn lemma_round_trip(a: TxV, rest: Seq<u8>) {
        lemma_auto_spec_u64_to_from_le_bytes();
        let e1 = spec_u64_to_le_bytes(a.id);
        let e2 = spec_u64_to_le_bytes(a.amount_bits);
        let e3 = <String as Serializer>::enc(a.payer);
        let e4 = <String as Serializer>::enc(a.payee);
        let s = Self::enc(a) + rest;
        assert(s =~= e1 + (e2 + (e3 + (e4 + rest))));
        <u64 as Serializer>::lemma_round_trip(a.id, e2 + (e3 + (e4 + rest)));
        assert(s.skip(8) =~= e2 + (e3 + (e4 + rest)));
        <u64 as Serializer>::lemma_round_trip(a.amount_bits, e3 + (e4 + rest));
        assert(s.skip(16) =~= e3 + (e4 + rest));
        <String as Serializer>::lemma_round_trip(a.payer, e4 + rest);
        assert(s.skip(16 + e3.len() as int) =~= e4 + rest);
        <String as Serializer>::lemma_round_trip(a.payee, rest);
    }
}

} // verus!
