//! A peer-to-peer cryptocurrency node library: a byte codec for the wire
//! format, signed packets, a gossip membership table, a proof-of-work miner,
//! and a round-indexed, hash-linked ledger with a convergent insertion
//! algorithm.

mod block;
mod blockchain;
mod crypto;
mod handler;
mod miner;
mod network;
mod node;
mod pkg;
mod serialize;
mod stats;
mod transaction;

pub use block::{block_writes, hash_ok, mhash, spec_block_hash, spec_mining_hash, Block, BlockV};
pub use blockchain::{
    add_block_post, chain_linked, conflict_post, drain_post, has_tx_id, link_ok, payload,
    rounds_indexed, sorted_desc, tx_ids_unique, wf_chain, Blockchain,
};
pub use crypto::{create_key_pair, sig_ok, RSA_BITS, RSA_BYTES, RSA_PEM_SIZE};
pub use handler::{
    forward_tail_ok, handle_pkg, handled_nodes, handled_status, handled_tx, is_forward_of,
    is_nodes_reply, on_solution, status_online_actions_ok, Action,
};
pub use miner::{Miner, DIFFICULTY};
pub use network::{distinct_keys_upto, key_repeats_before, Network};
pub use node::{Node, NodeV};
pub use pkg::{
    accept_packet, deserialize_nodes, deserialize_status, lemma_payloads_fit,
    lemma_pkg_round_trip, pkg_dec, pkg_enc, pkg_wf, Package, PackageType, PackageV,
    NODES_MAX, NODE_SIZE, PKG_CONTENT_SIZE, PKG_SIZE,
};
pub use serialize::Serializer;
pub use stats::{get_pkgs_send, inc_pkgs_send, PkgCounter};
pub use transaction::{spec_tx_nonce, tx_writes, Transaction, TxV};
