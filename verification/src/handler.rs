//! The event-loop decisions. A node's receiver multiplexes inbound packets
//! and completed puzzle solutions; what each event does to the ledger, the
//! membership and the miner queue — and which packets go out in response —
//! is decided here, as a function from state and event to new state and
//! actions. The loop that accepts connections, performs the actions and
//! sleeps lives outside the library.

use crate::block::{hash_ok, mhash, spec_mining_hash, Block, BlockV};
use crate::blockchain::{add_block_post, Blockchain};
use crate::miner::{Miner, DIFFICULTY};
use crate::network::Network;
use crate::node::{Node, NodeV};
use crate::pkg::{zeros, Package, PackageType, PackageV, PKG_CONTENT_SIZE};
use crate::serialize::Serializer;
use crate::transaction::{spec_tx_nonce, Transaction, TxV};
use vstd::prelude::*;

verus! {

/// An outbound effect the event loop must perform: a direct reply to one
/// peer's port, a broadcast of a forwarded copy to every known peer, or a
/// puzzle nonce handed to the miner's worker.
pub enum Action {
    SendTo(u16, Package),
    BroadcastForward(Package),
    MineRequest(u64),
}

/// Whether an action is the membership-snapshot reply owed to a peer that
/// announced itself: a direct send to its port of a signed `NodesRes` packet
/// carrying the receiver's snapshot.
pub open spec fn is_nodes_reply(a: Action, port: u16, snap: Seq<NodeV>, me: Seq<char>) -> bool {
    &&& a matches Action::SendTo(p, pkg)
    &&& a->SendTo_0 == port
    &&& a->SendTo_1.deep_view().typ == PackageType::NodesRes
    &&& a->SendTo_1.deep_view().sender == me
    &&& !a->SendTo_1.deep_view().is_forwarded
    &&& a->SendTo_1.deep_view().content == <Vec<Node> as Serializer>::enc(snap) + zeros(
        PKG_CONTENT_SIZE - <Vec<Node> as Serializer>::enc(snap).len(),
    )
    &&& a->SendTo_1.wf()
    &&& crate::crypto::sig_ok(
        a->SendTo_1.deep_view().sender,
        a->SendTo_1.deep_view().content,
        a->SendTo_1.deep_view().sign,
    )
}

/// Whether an action re-broadcasts the given packet with its forwarded flag
/// set.
pub open spec fn is_forward_of(a: Action, orig: PackageV) -> bool {
    &&& a matches Action::BroadcastForward(pkg)
    &&& a->BroadcastForward_0.deep_view() == (PackageV { is_forwarded: true, ..orig })
}

/// The actions from position `from` on announce the packet to the rest of
/// the network exactly when the sender was a new peer.
pub open spec fn forward_tail_ok(
    acts: Seq<Action>,
    from: int,
    orig: PackageV,
    was_new: bool,
) -> bool {
    if was_new {
        acts.len() == from + 1 && is_forward_of(acts[from], orig)
    } else {
        acts.len() == from
    }
}

/// What the join protocol answers to a status announcement that a peer is
/// online. A forwarded announcement gets no reply; a direct one is answered
/// with the receiver's membership snapshot, unless signing the reply failed.
/// Either way, a new peer's announcement is forwarded once.
pub open spec fn status_online_actions_ok(
    acts: Seq<Action>,
    orig: PackageV,
    peer: NodeV,
    snap: Seq<NodeV>,
    me: Seq<char>,
    was_new: bool,
) -> bool {
    if orig.is_forwarded {
        forward_tail_ok(acts, 0, orig, was_new)
    } else {
        ||| (acts.len() >= 1 && is_nodes_reply(acts[0], peer.port, snap, me) && forward_tail_ok(
            acts,
            1,
            orig,
            was_new,
        ))
        ||| forward_tail_ok(acts, 0, orig, was_new)
    }
}

/// Handle one accepted packet: decode its payload by kind and let it act on
/// the ledger, the membership or the miner queue; return the packets owed in
/// response. The content of each kind must decode — a packet whose payload
/// cannot be read is a programming fault the caller rules out — and a
/// membership snapshot must fit a packet's content buffer.
#[verifier::rlimit(100)]
pub fn handle_pkg(
    pub_key: &String,
    sign_key: &rsa::RsaPrivateKey,
    pkg: Package,
    blockchain: &mut Blockchain,
    network: &mut Network,
    miner: &mut Miner,
) -> (actions: Vec<Action>)
    requires
        old(blockchain).wf(),
        old(network).wf(),
        pkg.typ == PackageType::Tx ==> <Transaction as Serializer>::dec(pkg.content@) is Some,
        pkg.typ == PackageType::Status ==> <Node as Serializer>::dec(pkg.content@) is Some,
        pkg.typ == PackageType::NodesRes ==> <Vec<Node> as Serializer>::dec(
            pkg.content@,
        ) is Some,
        pkg.typ == PackageType::Block || pkg.typ == PackageType::Fork ==> <Block as Serializer>::dec(
            pkg.content@,
        ) is Some,
        <Vec<Node> as Serializer>::encodable(old(network).snapshot()),
        <Vec<Node> as Serializer>::enc(old(network).snapshot()).len() <= PKG_CONTENT_SIZE,
    ensures
        final(blockchain).wf(),
        final(network).wf(),
        pkg.typ == PackageType::Tx ==> handled_tx(
            <Transaction as Serializer>::dec(pkg.content@)->Some_0.1,
            old(blockchain),
            final(blockchain),
            old(network),
            final(network),
            *old(miner),
            *final(miner),
            actions@,
        ),
        pkg.typ == PackageType::Status ==> handled_status(
            <Node as Serializer>::dec(pkg.content@)->Some_0.1,
            pkg.deep_view(),
            pub_key@,
            old(blockchain),
            final(blockchain),
            old(network),
            final(network),
            *old(miner),
            *final(miner),
            actions@,
        ),
        pkg.typ == PackageType::NodesRes ==> handled_nodes(
            <Vec<Node> as Serializer>::dec(pkg.content@)->Some_0.1,
            old(blockchain),
            final(blockchain),
            old(network),
            final(network),
            *old(miner),
            *final(miner),
            actions@,
        ),
        pkg.typ == PackageType::Block ==> {
            &&& add_block_post(
                old(blockchain).chain(),
                old(blockchain).buffered(),
                final(blockchain).chain(),
                final(blockchain).buffered(),
                <Block as Serializer>::dec(pkg.content@)->Some_0.1,
            )
            &&& *final(network) == *old(network)
            &&& *final(miner) == *old(miner)
            &&& actions@ == Seq::<Action>::empty()
        },
        pkg.typ == PackageType::Fork ==> {
            &&& forked(
                <Block as Serializer>::dec(pkg.content@)->Some_0.1,
                old(blockchain),
                final(blockchain),
            )
            &&& *final(network) == *old(network)
            &&& *final(miner) == *old(miner)
            &&& actions@ == Seq::<Action>::empty()
        },
{
    let mut actions: Vec<Action> = Vec::new();
    match pkg.typ {
        PackageType::Tx => {
            proof {
                assert(pkg.content@.skip(0) =~= pkg.content@);
            }
            let (_, tx) = Transaction::deserialize(pkg.content.as_slice(), 0).unwrap();
            let round = blockchain.get_round();
            match miner.add_tx(tx, round) {
                Some(nonce) => {
                    actions.push(Action::MineRequest(nonce));
                    proof {
                        assert(actions@ =~= seq![Action::MineRequest(nonce)]);
                    }
                },
                None => {},
            }
        },
        PackageType::Status => {
            proof {
                assert(pkg.content@.skip(0) =~= pkg.content@);
            }
            let (_, node) = Node::deserialize(pkg.content.as_slice(), 0).unwrap();
            if node.online {
                if !pkg.is_forwarded {
                    let nodes = network.to_nodes();
                    match Package::new_nodes(pub_key, nodes, sign_key) {
                        Some(reply) => {
                            actions.push(Action::SendTo(node.port, reply));
                        },
                        None => {},
                    }
                }
                let ghost mid = actions@;
                if network.contains(&node.pub_key) {
                    let mut fwd = pkg.clone();
                    fwd.is_forwarded = true;
                    actions.push(Action::BroadcastForward(fwd));
                    network.register(node.pub_key, node.port);
                    proof {
                        assert(actions@ =~= mid.push(Action::BroadcastForward(fwd)));
                        assert(is_forward_of(actions@[mid.len() as int], pkg.deep_view()));
                    }
                }
            } else {
                network.deregister(node.pub_key);
            }
        },
        PackageType::NodesRes => {
            proof {
                assert(pkg.content@.skip(0) =~= pkg.content@);
            }
            let (_, nodes) = <Vec<Node>>::deserialize(pkg.content.as_slice(), 0).unwrap();
            register_all(network, nodes);
        },
        PackageType::Block => {
            proof {
                assert(pkg.content@.skip(0) =~= pkg.content@);
            }
            let (_, block) = Block::deserialize(pkg.content.as_slice(), 0).unwrap();
            blockchain.add_block(&block);
        },
        PackageType::Fork => {
            proof {
                assert(pkg.content@.skip(0) =~= pkg.content@);
            }
            let (_, block) = Block::deserialize(pkg.content.as_slice(), 0).unwrap();
            blockchain.apply_fork(&block);
        },
    }
    actions
}

/// What a transaction packet does: the ledger and the membership stand
/// still; the transaction joins the miner's queue for the next round unless
/// its id is already queued, and the puzzle nonce goes out to the worker.
pub open spec fn handled_tx(
    tx: TxV,
    bc0: &Blockchain,
    bc1: &Blockchain,
    net0: &Network,
    net1: &Network,
    m0: Miner,
    m1: Miner,
    acts: Seq<Action>,
) -> bool {
    &&& bc1 == bc0
    &&& net1 == net0
    &&& if m0.has_queued_id(tx.id) {
        m1.view() == m0.view() && acts == Seq::<Action>::empty()
    } else {
        m1.view() == m0.view().push((tx, bc0.chain().len() as usize)) && acts == seq![
            Action::MineRequest(spec_tx_nonce(tx)),
        ]
    }
}

/// What a status packet does. An offline announcement removes the peer. An
/// online announcement is answered and forwarded as
/// `status_online_actions_ok` details; the peer is registered when new.
pub open spec fn handled_status(
    peer: NodeV,
    orig: PackageV,
    me: Seq<char>,
    bc0: &Blockchain,
    bc1: &Blockchain,
    net0: &Network,
    net1: &Network,
    m0: Miner,
    m1: Miner,
    acts: Seq<Action>,
) -> bool {
    &&& bc1 == bc0
    &&& m1 == m0
    &&& if peer.online {
        &&& status_online_actions_ok(
            acts,
            orig,
            peer,
            net0.snapshot(),
            me,
            !net0.spec_has(peer.pub_key),
        )
        &&& if !net0.spec_has(peer.pub_key) {
            &&& net1.spec_has(peer.pub_key)
            &&& net1.port_of(peer.pub_key) == peer.port
            &&& forall|k: Seq<char>|
                k != peer.pub_key ==> (net1.spec_has(k) <==> net0.spec_has(k))
            &&& forall|k: Seq<char>|
                k != peer.pub_key && net0.spec_has(k) ==> net1.port_of(k) == net0.port_of(k)
        } else {
            net1 == net0
        }
    } else {
        &&& acts == Seq::<Action>::empty()
        &&& !net1.spec_has(peer.pub_key)
        &&& forall|k: Seq<char>| k != peer.pub_key ==> (net1.spec_has(k) <==> net0.spec_has(k))
        &&& forall|k: Seq<char>|
            k != peer.pub_key && net0.spec_has(k) ==> net1.port_of(k) == net0.port_of(k)
    }
}

/// What a membership-snapshot packet does: every listed peer is registered —
/// the last listed port wins for a repeated key — and nothing else changes.
pub open spec fn handled_nodes(
    peers: Seq<NodeV>,
    bc0: &Blockchain,
    bc1: &Blockchain,
    net0: &Network,
    net1: &Network,
    m0: Miner,
    m1: Miner,
    acts: Seq<Action>,
) -> bool {
    &&& bc1 == bc0
    &&& m1 == m0
    &&& acts == Seq::<Action>::empty()
    &&& forall|i: int| 0 <= i < peers.len() ==> net1.spec_has((#[trigger] peers[i]).pub_key)
    &&& forall|k: Seq<char>|
        net1.spec_has(k) <==> (net0.spec_has(k) || exists|i: int|
            0 <= i < peers.len() && (#[trigger] peers[i]).pub_key == k)
    &&& forall|i: int|
        0 <= i < peers.len() && (forall|j: int|
            i < j < peers.len() ==> (#[trigger] peers[j]).pub_key != peers[i].pub_key)
            ==> net1.port_of((#[trigger] peers[i]).pub_key) == peers[i].port
    &&& forall|k: Seq<char>|
        net0.spec_has(k) && (forall|i: int|
            0 <= i < peers.len() ==> (#[trigger] peers[i]).pub_key != k) ==> net1.port_of(k)
            == net0.port_of(k)
}

/// What a fork packet does: when it names an occupied round, shares the
/// occupant's parent, beats it by mining hash and repeats no settled
/// transaction, the chain is cut back and the block appended; otherwise
/// nothing changes. No re-broadcast either way.
pub open spec fn forked(b: BlockV, bc0: &Blockchain, bc1: &Blockchain) -> bool {
    &&& bc1.buffered() == bc0.buffered()
    &&& ({
        let o = bc0.chain();
        if b.round < o.len() && b.prev_hash == o[b.round as int].prev_hash && mhash(b) < mhash(
            o[b.round as int],
        ) && !crate::blockchain::has_tx_id(o.take(b.round as int), b.tx.id) {
            bc1.chain() == o.take(b.round as int).push(b)
        } else {
            bc1.chain() == o
        }
    })
}

/// Register every peer in the list, in order.
fn register_all(network: &mut Network, nodes: Vec<Node>)
    requires
        old(network).wf(),
    ensures
        final(network).wf(),
        forall|i: int|
            0 <= i < nodes@.len() ==> final(network).spec_has(
                (#[trigger] nodes.deep_view()[i]).pub_key,
            ),
        forall|k: Seq<char>|
            final(network).spec_has(k) <==> (old(network).spec_has(k) || exists|i: int|
                0 <= i < nodes@.len() && (#[trigger] nodes.deep_view()[i]).pub_key == k),
        forall|i: int|
            0 <= i < nodes@.len() && (forall|j: int|
                i < j < nodes@.len() ==> (#[trigger] nodes.deep_view()[j]).pub_key
                    != nodes.deep_view()[i].pub_key) ==> final(network).port_of(
                (#[trigger] nodes.deep_view()[i]).pub_key,
            ) == nodes.deep_view()[i].port,
        forall|k: Seq<char>|
            old(network).spec_has(k) && (forall|i: int|
                0 <= i < nodes@.len() ==> (#[trigger] nodes.deep_view()[i]).pub_key != k)
                ==> final(network).port_of(k) == old(network).port_of(k),
{
    let len = nodes.len();
    let mut i: usize = 0;
    while i < len
        invariant
            i <= len == nodes@.len(),
            network.wf(),
            forall|j: int|
                0 <= j < i ==> network.spec_has((#[trigger] nodes.deep_view()[j]).pub_key)
                    || exists|j2: int|
                    j < j2 < i && (#[trigger] nodes.deep_view()[j2]).pub_key
                        == nodes.deep_view()[j].pub_key,
            forall|k: Seq<char>|
                network.spec_has(k) <==> (old(network).spec_has(k) || exists|j: int|
                    0 <= j < i && (#[trigger] nodes.deep_view()[j]).pub_key == k),
            forall|j: int|
                0 <= j < i && (forall|j2: int|
                    j < j2 < i ==> (#[trigger] nodes.deep_view()[j2]).pub_key
                        != nodes.deep_view()[j].pub_key) ==> network.port_of(
                    (#[trigger] nodes.deep_view()[j]).pub_key,
                ) == nodes.deep_view()[j].port,
            forall|k: Seq<char>|
                old(network).spec_has(k) && (forall|j: int|
                    0 <= j < i ==> (#[trigger] nodes.deep_view()[j]).pub_key != k)
                    ==> network.port_of(k) == old(network).port_of(k),
        decreases len - i,
    {
        let node = &nodes[i];
        proof {
            assert(nodes.deep_view()[i as int] == nodes@[i as int].deep_view());
        }
        network.register(node.pub_key.clone(), node.port);
        i = i + 1;
    }
    proof {
        assert forall|j: int|
            0 <= j < nodes@.len() implies network.spec_has(
            (#[trigger] nodes.deep_view()[j]).pub_key,
        ) by {
            lemma_registered_stays(nodes.deep_view(), *network, j, nodes@.len() as int);
        }
    }
}

/// A peer whose key recurs later in the list is still registered at the
/// end: induction on the distance to the last recurrence.
proof fn lemma_registered_stays(peers: Seq<NodeV>, net: Network, j: int, len: int)
    requires
        0 <= j < len == peers.len(),
        forall|j0: int|
            0 <= j0 < len ==> net.spec_has((#[trigger] peers[j0]).pub_key) || exists|j2: int|
                j0 < j2 < len && (#[trigger] peers[j2]).pub_key == peers[j0].pub_key,
    ensures
        net.spec_has(peers[j].pub_key),
    decreases len - j,
{
    if !net.spec_has(peers[j].pub_key) {
        let j2 = choose|j2: int| j < j2 < len && (#[trigger] peers[j2]).pub_key == peers[j].pub_key;
        lemma_registered_stays(peers, net, j2, len);
    }
}

/// Turn a completed puzzle into a ledger block and its broadcast packet: the
/// next link hash, the transaction's nonce and the solution make the block,
/// which first enters the local ledger; the signed block packet goes out to
/// the network. `None` — with the ledger untouched — when the solution does
/// not meet the difficulty, when the block cannot fit a packet, when
/// signing fails, or when the key is not the node's own.
pub fn on_solution(
    pub_key: &String,
    sign_key: &rsa::RsaPrivateKey,
    tx: Transaction,
    solution: u64,
    round: usize,
    timestamp: u128,
    blockchain: &mut Blockchain,
) -> (r: Option<Package>)
    requires
        old(blockchain).wf(),
    ensures
        final(blockchain).wf(),
        spec_mining_hash(spec_tx_nonce(tx.deep_view()), solution) >= DIFFICULTY ==> r is None
            && *final(blockchain) == *old(blockchain),
        vstd::utf8::encode_utf8(tx.payer@).len() > PKG_CONTENT_SIZE ==> r is None
            && *final(blockchain) == *old(blockchain),
        vstd::utf8::encode_utf8(tx.payee@).len() > PKG_CONTENT_SIZE ==> r is None
            && *final(blockchain) == *old(blockchain),
        56 + <Transaction as Serializer>::enc(tx.deep_view()).len() > PKG_CONTENT_SIZE ==> r
            is None && *final(blockchain) == *old(blockchain),
        r matches Some(p) ==> ({
            let b = BlockV {
                prev_hash: if 1 <= round <= old(blockchain).chain().len() {
                    old(blockchain).chain()[round - 1].hash
                } else {
                    0u64
                },
                round,
                timestamp,
                tx: tx.deep_view(),
                nonce: spec_tx_nonce(tx.deep_view()),
                solution,
                hash: <Block as Serializer>::dec(p.deep_view().content)->Some_0.1.hash,
            };
            &&& mhash(b) < DIFFICULTY
            &&& hash_ok(b)
            &&& add_block_post(
                old(blockchain).chain(),
                old(blockchain).buffered(),
                final(blockchain).chain(),
                final(blockchain).buffered(),
                b,
            )
            &&& p.typ == PackageType::Block
            &&& p.deep_view().sender == pub_key@
            &&& !p.is_forwarded
            &&& p.wf()
            &&& crate::crypto::sig_ok(
                p.deep_view().sender,
                p.deep_view().content,
                p.deep_view().sign,
            )
            &&& <Block as Serializer>::dec(p.deep_view().content) matches Some((n, bv)) && bv
                == b
        }),
{
    let nonce = tx.gen_nonce();
    if Miner::gen_mining_hash(nonce, solution) >= DIFFICULTY {
        return None;
    }
    let payer_len = tx.payer.as_str().as_bytes().len();
    let payee_len = tx.payee.as_str().as_bytes().len();
    if payer_len > PKG_CONTENT_SIZE || payee_len > PKG_CONTENT_SIZE {
        return None;
    }
    proof {
        vstd::bytes::lemma_auto_spec_u64_to_from_le_bytes();
        vstd::bytes::lemma_auto_spec_u128_to_from_le_bytes();
        assert(<Transaction as Serializer>::encodable(tx.deep_view()));
    }
    let prev_hash = blockchain.get_prev_hash(round);
    let block = Block::new(tx, prev_hash, round, timestamp, nonce, solution);
    let mut buf: Vec<u8> = Vec::new();
    let ghost bv = block.deep_view();
    proof {
        assert(<Block as Serializer>::encodable(bv));
    }
    let n = block.serialize(&mut buf);
    if n > PKG_CONTENT_SIZE {
        return None;
    }
    let content = crate::pkg::pad_content(buf);
    proof {
        <Block as Serializer>::lemma_round_trip(
            bv,
            zeros(PKG_CONTENT_SIZE - <Block as Serializer>::enc(bv).len()),
        );
        assert(content@ =~= <Block as Serializer>::enc(bv) + zeros(
            PKG_CONTENT_SIZE - <Block as Serializer>::enc(bv).len(),
        ));
    }
    let pkg = match Package::sign_and_assemble(
        PackageType::Block,
        content,
        pub_key.clone(),
        sign_key,
    ) {
        None => {
            return None;
        },
        Some(p) => p,
    };
    blockchain.add_block(&block);
    Some(pkg)
}

} // verus!
