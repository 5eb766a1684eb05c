//! Signed packets: the typed envelope every connection carries, at a fixed
//! on-wire size. A packet holds a kind, a zero-padded content buffer of
//! `PKG_CONTENT_SIZE` bytes, the sender's PEM string, an RSA-PSS signature
//! over the whole content buffer — padding included — and a forwarded flag.

use crate::crypto::{sig_ok, sign_bytes, verify_bytes, RSA_BYTES, RSA_PEM_SIZE};
use crate::node::{Node, NodeV};
use crate::serialize::Serializer;
use crate::transaction::{Transaction, TxV};
use vstd::prelude::*;

verus! {

/// The fixed size of a packet's content buffer. Every payload kind must
/// encode within it; construction checks that it does.
pub const PKG_CONTENT_SIZE: usize = 9000;

/// The fixed on-wire size of a whole packet: kind, content, length-prefixed
/// sender PEM and signature at their largest, and the forwarded flag.
pub const PKG_SIZE: usize = 1 + PKG_CONTENT_SIZE + 8 + RSA_PEM_SIZE + 8 + RSA_BYTES + 1;

/// The encoded size of one peer descriptor whose PEM is within the identity
/// bound: the length-prefixed key, the port, and the online flag.
pub const NODE_SIZE: usize = 8 + RSA_PEM_SIZE + 2 + 1;

/// The most descriptors a membership snapshot can carry in one packet:
/// the largest count whose list, behind its 1-byte prefix, still fits the
/// content buffer (`lemma_payloads_fit` shows that it does).
pub const NODES_MAX: usize = 15;

#[derive(Clone, Copy, PartialEq, Eq, Structural)]
pub enum PackageType {
    Tx,
    Status,
    NodesRes,
    Block,
    Fork,
}

impl DeepView for PackageType {
    type V = PackageType;

    open spec fn deep_view(&self) -> PackageType {
        *self
    }
}

/// The wire byte of a packet kind.
pub open spec fn kind_byte(t: PackageType) -> u8 {
    match t {
        PackageType::Tx => 0u8,
        PackageType::Status => 1u8,
        PackageType::NodesRes => 2u8,
        PackageType::Block => 3u8,
        PackageType::Fork => 4u8,
    }
}

impl Serializer for PackageType {
    open spec fn enc(a: PackageType) -> Seq<u8> {
        seq![kind_byte(a)]
    }

    open spec fn encodable(a: PackageType) -> bool {
        true
    }

    open spec fn dec(s: Seq<u8>) -> Option<(int, PackageType)> {
        if s.len() >= 1 {
            if s[0] == 0u8 {
                Some((1int, PackageType::Tx))
            } else if s[0] == 1u8 {
                Some((1int, PackageType::Status))
            } else if s[0] == 2u8 {
                Some((1int, PackageType::NodesRes))
            } else if s[0] == 3u8 {
                Some((1int, PackageType::Block))
            } else if s[0] == 4u8 {
                Some((1int, PackageType::Fork))
            } else {
                None
            }
        } else {
            None
        }
    }

    fn serialize(&self, dst: &mut Vec<u8>) -> (n: usize) {
        let b: u8 = match self {
            PackageType::Tx => 0,
            PackageType::Status => 1,
            PackageType::NodesRes => 2,
            PackageType::Block => 3,
            PackageType::Fork => 4,
        };
        dst.push(b);
        proof {
            assert(dst@ =~= old(dst)@ + Self::enc(*self));
        }
        1
    }

    fn deserialize(bytes: &[u8], start: usize) -> (r: Option<(usize, PackageType)>) {
        if start < bytes.len() {
            let b = bytes[start];
            proof {
                assert(bytes@.skip(start as int)[0] == b);
            }
            match b {
                0 => Some((1, PackageType::Tx)),
                1 => Some((1, PackageType::Status)),
                2 => Some((1, PackageType::NodesRes)),
                3 => Some((1, PackageType::Block)),
                4 => Some((1, PackageType::Fork)),
                _ => None,
            }
        } else {
            None
        }
    }

    proof fn lemma_round_trip(a: PackageType, rest: Seq<u8>) {
        assert((Self::enc(a) + rest)[0] == kind_byte(a));
    }
}

/// The abstract content of a packet.
pub struct PackageV {
    pub typ: PackageType,
    pub content: Seq<u8>,
    pub sender: Seq<char>,
    pub sign: Seq<u8>,
    pub is_forwarded: bool,
}

pub struct Package {
    pub typ: PackageType,
    pub content: Vec<u8>,
    pub sender: String,
    pub sign: Vec<u8>,
    pub is_forwarded: bool,
}

impl DeepView for Package {
    type V = PackageV;

    open spec fn deep_view(&self) -> PackageV {
        PackageV {
            typ: self.typ,
            content: self.content@,
            sender: self.sender@,
            sign: self.sign@,
            is_forwarded: self.is_forwarded,
        }
    }
}

impl Clone for Package {
    fn clone(&self) -> (r: Self)
        ensures
            r.deep_view() == self.deep_view(),
    {
        Package {
            typ: self.typ,
            content: self.content.clone(),
            sender: self.sender.clone(),
            sign: self.sign.clone(),
            is_forwarded: self.is_forwarded,
        }
    }
}

/// A sequence of `n` zero bytes.
pub open spec fn zeros(n: int) -> Seq<u8> {
    Seq::new(n as nat, |i: int| 0u8)
}

/// Whether a packet's parts are within the wire format's limits.
pub open spec fn pkg_wf(p: PackageV) -> bool {
    &&& p.content.len() == PKG_CONTENT_SIZE
    &&& vstd::utf8::encode_utf8(p.sender).len() <= RSA_PEM_SIZE
    &&& p.sign.len() <= RSA_BYTES
}

/// The on-wire encoding of a packet: its parts back to back, zero-padded to
/// the fixed size.
pub open spec fn pkg_enc(p: PackageV) -> Seq<u8> {
    let body = <PackageType as Serializer>::enc(p.typ) + p.content + <String as Serializer>::enc(
        p.sender,
    ) + <Vec<u8> as Serializer>::enc(p.sign) + <bool as Serializer>::enc(p.is_forwarded);
    body + zeros(PKG_SIZE - body.len())
}

/// The spec-level packet decoder over a fixed-size wire buffer.
pub open spec fn pkg_dec(s: Seq<u8>) -> Option<PackageV> {
    if s.len() != PKG_SIZE {
        None
    } else {
        match <PackageType as Serializer>::dec(s) {
            None => None,
            Some((n1, typ)) => {
                let content = s.subrange(n1, n1 + PKG_CONTENT_SIZE as int);
                let off1 = n1 + PKG_CONTENT_SIZE as int;
                match <String as Serializer>::dec(s.skip(off1)) {
                    None => None,
                    Some((n2, sender)) => if vstd::utf8::encode_utf8(sender).len()
                        <= RSA_PEM_SIZE {
                        let off2 = off1 + n2;
                        match <Vec<u8> as Serializer>::dec(s.skip(off2)) {
                            None => None,
                            Some((n3, sign)) => if sign.len() <= RSA_BYTES {
                                let off3 = off2 + n3;
                                match <bool as Serializer>::dec(s.skip(off3)) {
                                    None => None,
                                    Some((_, is_forwarded)) => Some(
                                        PackageV { typ, content, sender, sign, is_forwarded },
                                    ),
                                }
                            } else {
                                None
                            },
                        }
                    } else {
                        None
                    },
                }
            },
        }
    }
}

/// Decoding an encoded well-formed packet reads back the packet.
#[verifier::spinoff_prover]
#[verifier::rlimit(100)]
pub proof fn lemma_pkg_round_trip(p: PackageV)
    requires
        pkg_wf(p),
    ensures
        pkg_dec(pkg_enc(p)) == Some(p),
{
    vstd::bytes::lemma_auto_spec_u64_to_from_le_bytes();
    let e1 = <PackageType as Serializer>::enc(p.typ);
    let e2 = p.content;
    let e3 = <String as Serializer>::enc(p.sender);
    let e4 = <Vec<u8> as Serializer>::enc(p.sign);
    let e5 = <bool as Serializer>::enc(p.is_forwarded);
    let body = e1 + e2 + e3 + e4 + e5;
    let s = pkg_enc(p);
    let pad = zeros(PKG_SIZE - body.len());
    assert(body.len() == 1 + PKG_CONTENT_SIZE + (8 + vstd::utf8::encode_utf8(p.sender).len()) + (
    8 + p.sign.len()) + 1);
    assert(body.len() <= PKG_SIZE);
    assert(s.len() == PKG_SIZE);
    assert(s =~= e1 + (e2 + (e3 + (e4 + (e5 + pad)))));
    <PackageType as Serializer>::lemma_round_trip(p.typ, e2 + (e3 + (e4 + (e5 + pad))));
    assert(s.subrange(1, 1 + PKG_CONTENT_SIZE as int) =~= p.content);
    let off1 = 1 + PKG_CONTENT_SIZE as int;
    assert(s.skip(off1) =~= e3 + (e4 + (e5 + pad)));
    <String as Serializer>::lemma_round_trip(p.sender, e4 + (e5 + pad));
    let off2 = off1 + e3.len() as int;
    assert(s.skip(off2) =~= e4 + (e5 + pad));
    <Vec<u8> as Serializer>::lemma_round_trip(p.sign, e5 + pad);
    let off3 = off2 + e4.len() as int;
    assert(s.skip(off3) =~= e5 + pad);
    <bool as Serializer>::lemma_round_trip(p.is_forwarded, pad);
}

/// Every payload kind fits the fixed content buffer: a transaction whose
/// PEM strings are within the identity bound, a block carrying such a
/// transaction, and a peer list of at most `NODES_MAX` within-bound
/// descriptors all encode into `PKG_CONTENT_SIZE` bytes.
pub proof fn lemma_payloads_fit(tx: TxV, b: crate::block::BlockV, peers: Seq<NodeV>)
    requires
        vstd::utf8::encode_utf8(tx.payer).len() <= RSA_PEM_SIZE,
        vstd::utf8::encode_utf8(tx.payee).len() <= RSA_PEM_SIZE,
        b.tx == tx,
        peers.len() <= NODES_MAX,
        forall|i: int|
            0 <= i < peers.len() ==> vstd::utf8::encode_utf8(
                (#[trigger] peers[i]).pub_key,
            ).len() <= RSA_PEM_SIZE,
    ensures
        <Transaction as Serializer>::enc(tx).len() <= PKG_CONTENT_SIZE,
        <crate::block::Block as Serializer>::enc(b).len() <= PKG_CONTENT_SIZE,
        <Vec<Node> as Serializer>::enc(peers).len() <= PKG_CONTENT_SIZE,
{
    vstd::bytes::lemma_auto_spec_u64_to_from_le_bytes();
    vstd::bytes::lemma_auto_spec_u128_to_from_le_bytes();
    lemma_nodes_fit(peers);
    assert(NODE_SIZE == 583);
    assert(peers.len() * NODE_SIZE <= NODES_MAX * NODE_SIZE) by (nonlinear_arith)
        requires peers.len() <= NODES_MAX;
    assert(1 + NODES_MAX * NODE_SIZE <= PKG_CONTENT_SIZE);
}

/// The descriptors of a bounded peer list encode into at most `NODE_SIZE`
/// bytes each.
proof fn lemma_nodes_fit(peers: Seq<NodeV>)
    requires
        forall|i: int|
            0 <= i < peers.len() ==> vstd::utf8::encode_utf8(
                (#[trigger] peers[i]).pub_key,
            ).len() <= RSA_PEM_SIZE,
    ensures
        crate::node::nodes_body_enc(peers).len() <= peers.len() * NODE_SIZE,
    decreases peers.len(),
{
    vstd::bytes::lemma_auto_spec_u64_to_from_le_bytes();
    vstd::bytes::lemma_auto_spec_u16_to_from_le_bytes();
    if peers.len() > 0 {
        let t = peers.drop_first();
        assert forall|i: int|
            0 <= i < t.len() implies vstd::utf8::encode_utf8(
            (#[trigger] t[i]).pub_key,
        ).len() <= RSA_PEM_SIZE by {
            assert(t[i] == peers[i + 1]);
        }
        lemma_nodes_fit(t);
        assert(<Node as Serializer>::enc(peers[0]).len() <= NODE_SIZE);
        assert(peers.len() * NODE_SIZE == (t.len() * NODE_SIZE) + NODE_SIZE) by (nonlinear_arith)
            requires peers.len() == t.len() + 1;
    }
}

/// Zero-pad an encoded payload out to the fixed content size.
pub(crate) fn pad_content(buf: Vec<u8>) -> (r: Vec<u8>)
    requires
        buf@.len() <= PKG_CONTENT_SIZE,
    ensures
        r@ == buf@ + zeros(PKG_CONTENT_SIZE - buf@.len()),
        r@.len() == PKG_CONTENT_SIZE,
        r@.take(buf@.len() as int) == buf@,
{
    let ghost orig = buf@;
    let mut buf = buf;
    while buf.len() < PKG_CONTENT_SIZE
        invariant
            orig.len() <= buf@.len() <= PKG_CONTENT_SIZE,
            buf@ == orig + zeros(buf@.len() - orig.len()),
        decreases PKG_CONTENT_SIZE - buf@.len(),
    {
        buf.push(0);
        proof {
            assert(buf@ =~= orig + zeros(buf@.len() - orig.len()));
        }
    }
    proof {
        assert(buf@.take(orig.len() as int) =~= orig);
    }
    buf
}

impl Package {
    /// Whether this packet's parts are within the wire format's limits.
    pub open spec fn wf(&self) -> bool {
        pkg_wf(self.deep_view())
    }

    /// Put an envelope around signed parts, checking the wire limits: the
    /// sender PEM and the signature must fit their fixed budgets.
    pub fn assemble(
        typ: PackageType,
        content: Vec<u8>,
        sender: String,
        sign: Vec<u8>,
        is_forwarded: bool,
    ) -> (r: Option<Package>)
        requires
            content@.len() == PKG_CONTENT_SIZE,
        ensures
            r is Some <==> (vstd::utf8::encode_utf8(sender@).len() <= RSA_PEM_SIZE && sign@.len()
                <= RSA_BYTES),
            r matches Some(p) ==> {
                &&& p.deep_view() == (PackageV {
                    typ,
                    content: content@,
                    sender: sender@,
                    sign: sign@,
                    is_forwarded,
                })
                &&& p.wf()
            },
    {
        if sender.as_str().as_bytes().len() <= RSA_PEM_SIZE && sign.len() <= RSA_BYTES {
            Some(Package { typ, content, sender, sign, is_forwarded })
        } else {
            None
        }
    }

    /// Sign the content under the key, check that the signature verifies
    /// under the sender's PEM, and wrap the envelope. `None` when signing
    /// fails, when the signature does not verify under the sender — a
    /// signing key that is not the sender's — or when a part exceeds its
    /// wire budget. A packet that comes back is one every honest receiver
    /// accepts.
    pub(crate) fn sign_and_assemble(
        typ: PackageType,
        content: Vec<u8>,
        sender: String,
        sign_key: &rsa::RsaPrivateKey,
    ) -> (r: Option<Package>)
        requires
            content@.len() == PKG_CONTENT_SIZE,
        ensures
            r matches Some(p) ==> {
                &&& p.typ == typ
                &&& p.deep_view().content == content@
                &&& p.deep_view().sender == sender@
                &&& !p.is_forwarded
                &&& p.wf()
                &&& sig_ok(p.deep_view().sender, p.deep_view().content, p.deep_view().sign)
            },
    {
        let sign = match sign_bytes(sign_key, content.as_slice()) {
            None => {
                return None;
            },
            Some(s) => s,
        };
        if !verify_bytes(sender.as_str(), content.as_slice(), sign.as_slice()) {
            return None;
        }
        Self::assemble(typ, content, sender, sign, false)
    }

    /// Build a signed transaction packet: the transaction's encoding fills
    /// the content buffer, signed under the payer's key. `None` when signing
    /// fails, the key is not the payer's, or a part exceeds its wire budget.
    pub fn new_tx(tx: Transaction, sign_key: &rsa::RsaPrivateKey) -> (r: Option<Package>)
        requires
            <Transaction as Serializer>::encodable(tx.deep_view()),
            <Transaction as Serializer>::enc(tx.deep_view()).len() <= PKG_CONTENT_SIZE,
        ensures
            r matches Some(p) ==> {
                &&& p.typ == PackageType::Tx
                &&& p.deep_view().content == <Transaction as Serializer>::enc(tx.deep_view())
                    + zeros(
                    PKG_CONTENT_SIZE - <Transaction as Serializer>::enc(tx.deep_view()).len(),
                )
                &&& p.deep_view().sender == tx.payer@
                &&& !p.is_forwarded
                &&& p.wf()
                &&& sig_ok(p.deep_view().sender, p.deep_view().content, p.deep_view().sign)
            },
    {
        let mut buf: Vec<u8> = Vec::new();
        let _ = tx.serialize(&mut buf);
        let content = pad_content(buf);
        let sender = tx.payer;
        Self::sign_and_assemble(PackageType::Tx, content, sender, sign_key)
    }

    /// Build a signed status packet announcing that the peer with the given
    /// key and port went online or offline. `None` when signing fails, the
    /// key is not the peer's, or a part exceeds its wire budget.
    pub fn new_status(
        pub_key: String,
        port: u16,
        go_online: bool,
        sign_key: &rsa::RsaPrivateKey,
    ) -> (r: Option<Package>)
        requires
            <String as Serializer>::encodable(pub_key@),
            <Node as Serializer>::enc(
                NodeV { pub_key: pub_key@, port, online: go_online },
            ).len() <= PKG_CONTENT_SIZE,
        ensures
            r matches Some(p) ==> {
                &&& p.typ == PackageType::Status
                &&& ({
                    let e = <Node as Serializer>::enc(
                        NodeV { pub_key: pub_key@, port, online: go_online },
                    );
                    p.deep_view().content == e + zeros(PKG_CONTENT_SIZE - e.len())
                })
                &&& p.deep_view().sender == pub_key@
                &&& !p.is_forwarded
                &&& p.wf()
                &&& sig_ok(p.deep_view().sender, p.deep_view().content, p.deep_view().sign)
            },
    {
        let node = Node { pub_key: pub_key.clone(), port, online: go_online };
        let mut buf: Vec<u8> = Vec::new();
        let _ = node.serialize(&mut buf);
        let content = pad_content(buf);
        Self::sign_and_assemble(PackageType::Status, content, pub_key, sign_key)
    }

    /// Build a signed membership-snapshot packet carrying the given peer
    /// list. `None` when signing fails, the key is not the sender's, or a
    /// part exceeds its wire budget.
    pub fn new_nodes(
        sender: &String,
        nodes: Vec<Node>,
        sign_key: &rsa::RsaPrivateKey,
    ) -> (r: Option<Package>)
        requires
            <Vec<Node> as Serializer>::encodable(nodes.deep_view()),
            <Vec<Node> as Serializer>::enc(nodes.deep_view()).len() <= PKG_CONTENT_SIZE,
        ensures
            r matches Some(p) ==> {
                &&& p.typ == PackageType::NodesRes
                &&& ({
                    let e = <Vec<Node> as Serializer>::enc(nodes.deep_view());
                    p.deep_view().content == e + zeros(PKG_CONTENT_SIZE - e.len())
                })
                &&& p.deep_view().sender == sender@
                &&& !p.is_forwarded
                &&& p.wf()
                &&& sig_ok(p.deep_view().sender, p.deep_view().content, p.deep_view().sign)
            },
    {
        let mut buf: Vec<u8> = Vec::new();
        let _ = nodes.serialize(&mut buf);
        let content = pad_content(buf);
        Self::sign_and_assemble(PackageType::NodesRes, content, sender.clone(), sign_key)
    }

    /// Lay the packet out on the wire: its parts back to back, zero-padded
    /// to the fixed packet size.
    pub fn serialize(&self) -> (r: Vec<u8>)
        requires
            self.wf(),
        ensures
            r@ == pkg_enc(self.deep_view()),
            r@.len() == PKG_SIZE,
    {
        let mut buf: Vec<u8> = Vec::new();
        proof {
            vstd::bytes::lemma_auto_spec_u64_to_from_le_bytes();
            assert(self.content@.len() == PKG_CONTENT_SIZE);
            assert(vstd::utf8::encode_utf8(self.sender@).len() <= RSA_PEM_SIZE);
            assert(self.sign@.len() <= RSA_BYTES);
            assert(self.sign.deep_view() =~= self.sign@);
        }
        let _ = self.typ.serialize(&mut buf);
        buf.extend_from_slice(self.content.as_slice());
        let _ = self.sender.serialize(&mut buf);
        let _ = self.sign.serialize(&mut buf);
        let _ = self.is_forwarded.serialize(&mut buf);
        let ghost body = buf@;
        let mut i = buf.len();
        while i < PKG_SIZE
            invariant
                body.len() <= i == buf@.len() <= PKG_SIZE,
                buf@ == body + zeros(i - body.len()),
            decreases PKG_SIZE - i,
        {
            buf.push(0);
            i = i + 1;
            proof {
                assert(buf@ =~= body + zeros(i - body.len()));
            }
        }
        proof {
            assert(buf@ =~= pkg_enc(self.deep_view()));
        }
        buf
    }

    /// Read a packet back from a wire buffer; `None` when the buffer is not
    /// exactly one well-formed packet.
    pub fn deserialize(bytes: &Vec<u8>) -> (r: Option<Package>)
        ensures
            match pkg_dec(bytes@) {
                Some(v) => r matches Some(p) && p.deep_view() == v && p.wf(),
                None => r is None,
            },
    {
        if bytes.len() != PKG_SIZE {
            return None;
        }
        let slice = bytes.as_slice();
        let (n1, typ) = match PackageType::deserialize(slice, 0) {
            None => {
                return None;
            },
            Some(x) => x,
        };
        proof {
            assert(bytes@.skip(0) =~= bytes@);
        }
        let content = vstd::slice::slice_to_vec(
            vstd::slice::slice_subrange(slice, n1, n1 + PKG_CONTENT_SIZE),
        );
        let off1 = n1 + PKG_CONTENT_SIZE;
        let (n2, sender) = match String::deserialize(slice, off1) {
            None => {
                return None;
            },
            Some(x) => x,
        };
        if sender.as_str().as_bytes().len() > RSA_PEM_SIZE {
            return None;
        }
        let off2 = off1 + n2;
        let (n3, sign) = match <Vec<u8>>::deserialize(slice, off2) {
            None => {
                return None;
            },
            Some(x) => x,
        };
        if sign.len() > RSA_BYTES {
            return None;
        }
        let off3 = off2 + n3;
        let (_, is_forwarded) = match bool::deserialize(slice, off3) {
            None => {
                return None;
            },
            Some(x) => x,
        };
        proof {
            assert(sign.deep_view() =~= sign@);
        }
        Some(Package { typ, content, sender, sign, is_forwarded })
    }

    /// Whether this packet's signature verifies over its content under the
    /// sender's key.
    pub fn verify(&self) -> (r: bool)
        ensures
            r == sig_ok(self.sender@, self.content@, self.sign@),
    {
        verify_bytes(self.sender.as_str(), self.content.as_slice(), self.sign.as_slice())
    }
}

/// Accept one packet from a wire buffer: decode it and check its signature.
/// A packet comes back exactly when the buffer decodes and the signature
/// verifies under the sender's key.
pub fn accept_packet(bytes: &Vec<u8>) -> (r: Option<Package>)
    ensures
        match pkg_dec(bytes@) {
            Some(v) => {
                &&& r is Some <==> sig_ok(v.sender, v.content, v.sign)
                &&& (r matches Some(p) ==> p.deep_view() == v && p.wf())
            },
            None => r is None,
        },
{
    match Package::deserialize(bytes) {
        None => None,
        Some(p) => {
            if p.verify() {
                Some(p)
            } else {
                None
            }
        },
    }
}

/// Read the peer descriptor out of a status packet's content; the flag says
/// whether the peer went online.
pub fn deserialize_status(bytes: &Vec<u8>) -> (r: Option<(bool, Node)>)
    ensures
        match <Node as Serializer>::dec(bytes@) {
            Some((n, v)) => r matches Some(p) && p.0 == v.online && p.1.deep_view() == v,
            None => r is None,
        },
{
    proof {
        assert(bytes@.skip(0) =~= bytes@);
    }
    match Node::deserialize(bytes.as_slice(), 0) {
        None => None,
        Some((_, node)) => {
            let online = node.online;
            Some((online, node))
        },
    }
}

/// Read the peer list out of a membership-snapshot packet's content.
pub fn deserialize_nodes(bytes: &Vec<u8>) -> (r: Option<Vec<Node>>)
    ensures
        match <Vec<Node> as Serializer>::dec(bytes@) {
            Some((n, vs)) => r matches Some(ns) && ns.deep_view() == vs,
            None => r is None,
        },
{
    proof {
        assert(bytes@.skip(0) =~= bytes@);
    }
    match <Vec<Node>>::deserialize(bytes.as_slice(), 0) {
        None => None,
        Some((_, nodes)) => Some(nodes),
    }
}

} // verus!
