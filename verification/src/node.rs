//! Peer descriptors: a peer's public-key PEM string, its loopback port, and
//! whether it is online. Peer lists travel in gossip packets behind a 1-byte
//! count prefix, so a list holds at most 255 descriptors.

use crate::serialize::Serializer;
use vstd::bytes::spec_u16_to_le_bytes;
use vstd::prelude::*;

verus! {

/// The abstract content of a peer descriptor.
pub struct NodeV {
    pub pub_key: Seq<char>,
    pub port: u16,
    pub online: bool,
}

pub struct Node {
    pub pub_key: String,
    pub port: u16,
    pub online: bool,
}

impl DeepView for Node {
    type V = NodeV;

    open spec fn deep_view(&self) -> NodeV {
        NodeV { pub_key: self.pub_key@, port: self.port, online: self.online }
    }
}

impl Clone for Node {
    fn clone(&self) -> (r: Self)
        ensures
            r == *self,
    {
        Node { pub_key: self.pub_key.clone(), port: self.port, online: self.online }
    }
}

impl Serializer for Node {
    open spec fn enc(a: NodeV) -> Seq<u8> {
        <String as Serializer>::enc(a.pub_key) + spec_u16_to_le_bytes(a.port)
            + <bool as Serializer>::enc(a.online)
    }

    open spec fn encodable(a: NodeV) -> bool {
        &&& <String as Serializer>::encodable(a.pub_key)
        &&& Self::enc(a).len() <= usize::MAX
    }

    open spec fn dec(s: Seq<u8>) -> Option<(int, NodeV)> {
        match <String as Serializer>::dec(s) {
            None => None,
            Some((n1, pub_key)) => match <u16 as Serializer>::dec(s.skip(n1)) {
                None => None,
                Some((n2, port)) => match <bool as Serializer>::dec(s.skip(n1 + n2)) {
                    None => None,
                    Some((n3, online)) => Some((n1 + n2 + n3, NodeV { pub_key, port, online })),
                },
            },
        }
    }

    fn serialize(&self, dst: &mut Vec<u8>) -> (n: usize) {
        let n1 = self.pub_key.serialize(dst);
        let n2 = self.port.serialize(dst);
        let n3 = self.online.serialize(dst);
        proof {
            assert(dst@ =~= old(dst)@ + Self::enc(self.deep_view()));
        }
        n1 + n2 + n3
    }

    fn deserialize(bytes: &[u8], start: usize) -> (r: Option<(usize, Node)>) {
        let ghost s = bytes@.skip(start as int);
        let total = bytes.len();
        match String::deserialize(bytes, start) {
            None => None,
            Some((n1, pub_key)) => {
                proof {
                    assert(bytes@.skip(start as int + n1 as int) =~= s.skip(n1 as int));
                }
                match u16::deserialize(bytes, start + n1) {
                    None => None,
                    Some((n2, port)) => {
                        proof {
                            assert(bytes@.skip(start as int + n1 as int + n2 as int) =~= s.skip(
                                n1 as int + n2 as int,
                            ));
                        }
                        match bool::deserialize(bytes, start + n1 + n2) {
                            None => None,
                            Some((n3, online)) => Some(
                                (n1 + n2 + n3, Node { pub_key, port, online }),
                            ),
                        }
                    },
                }
            },
        }
    }

    proof fn lemma_round_trip(a: NodeV, rest: Seq<u8>) {
        let e1 = <String as Serializer>::enc(a.pub_key);
        let e2 = spec_u16_to_le_bytes(a.port);
        let e3 = <bool as Serializer>::enc(a.online);
        let s = Self::enc(a) + rest;
        assert(s =~= e1 + (e2 + (e3 + rest)));
        <String as Serializer>::lemma_round_trip(a.pub_key, e2 + (e3 + rest));
        assert(s.skip(e1.len() as int) =~= e2 + (e3 + rest));
        <u16 as Serializer>::lemma_round_trip(a.port, e3 + rest);
        assert(s.skip(e1.len() as int + 2) =~= e3 + rest);
        <bool as Serializer>::lemma_round_trip(a.online, rest);
    }
}

/// The encoding of the descriptors in a peer list, back to back.
pub open spec fn nodes_body_enc(a: Seq<NodeV>) -> Seq<u8>
    decreases a.len(),
{
    if a.len() == 0 {
        Seq::empty()
    } else {
        <Node as Serializer>::enc(a[0]) + nodes_body_enc(a.drop_first())
    }
}

/// The spec-level decoder for `count` descriptors from the front of `s`.
pub open spec fn nodes_body_dec(s: Seq<u8>, count: int) -> Option<(int, Seq<NodeV>)>
    decreases count,
{
    if count <= 0 {
        Some((0int, Seq::empty()))
    } else {
        match <Node as Serializer>::dec(s) {
            None => None,
            Some((n1, v)) => match nodes_body_dec(s.skip(n1), count - 1) {
                None => None,
                Some((n2, vs)) => Some((n1 + n2, seq![v] + vs)),
            },
        }
    }
}

impl Serializer for Vec<Node> {
    open spec fn enc(a: Seq<NodeV>) -> Seq<u8> {
        seq![a.len() as u8] + nodes_body_enc(a)
    }

    open spec fn encodable(a: Seq<NodeV>) -> bool {
        &&& a.len() <= 255
        &&& forall|i: int| 0 <= i < a.len() ==> <Node as Serializer>::encodable(#[trigger] a[i])
        &&& Self::enc(a).len() <= usize::MAX
    }

    open spec fn dec(s: Seq<u8>) -> Option<(int, Seq<NodeV>)> {
        if s.len() < 1 {
            None
        } else {
            match nodes_body_dec(s.skip(1), s[0] as int) {
                None => None,
                Some((n, vs)) => Some((1 + n, vs)),
            }
        }
    }

    fn serialize(&self, dst: &mut Vec<u8>) -> (n: usize) {
        let count = self.len();
        dst.push(count as u8);
        let ghost mark = dst@;
        let mut i: usize = 0;
        let mut written: usize = 1;
        while i < count
            invariant
                i <= count == self@.len(),
                <Vec<Node> as Serializer>::encodable(self.deep_view()),
                mark == old(dst)@ + seq![count as u8],
                dst@ == mark + nodes_body_enc(self.deep_view().take(i as int)),
                written == 1 + nodes_body_enc(self.deep_view().take(i as int)).len(),
                old(dst)@.len() + <Vec<Node> as Serializer>::enc(self.deep_view()).len()
                    <= usize::MAX,
            decreases count - i,
        {
            proof {
                lemma_nodes_body_enc_take(self.deep_view(), i as int);
                assert(<Node as Serializer>::encodable(self.deep_view()[i as int]));
                lemma_nodes_body_enc_prefix(self.deep_view(), i as int + 1);
            }
            let w = self[i].serialize(dst);
            written = written + w;
            i = i + 1;
            proof {
                assert(self.deep_view()[i - 1] == self@[i - 1].deep_view());
                lemma_nodes_body_enc_take(self.deep_view(), i - 1);
            }
        }
        proof {
            assert(self.deep_view().take(count as int) =~= self.deep_view());
            assert(dst@ =~= old(dst)@ + Self::enc(self.deep_view()));
        }
        written
    }

    fn deserialize(bytes: &[u8], start: usize) -> (r: Option<(usize, Vec<Node>)>) {
        let ghost s = bytes@.skip(start as int);
        let total = bytes.len();
        if start >= bytes.len() {
            return None;
        }
        let count = bytes[start];
        proof {
            assert(s[0] == count);
        }
        let mut nodes: Vec<Node> = Vec::new();
        let mut pos: usize = start + 1;
        let mut i: usize = 0;
        proof {
            assert(bytes@.skip(pos as int) =~= s.skip(1));
            assert(nodes.deep_view() =~= Seq::<NodeV>::empty());
            if nodes_body_dec(s.skip(1), count as int) is Some {
                let (nt, all) = nodes_body_dec(s.skip(1), count as int)->Some_0;
                assert(nodes.deep_view() + all =~= all);
            }
            assert(bytes@.subrange(start as int + 1, pos as int) =~= Seq::<u8>::empty());
            assert(nodes_body_enc(nodes.deep_view()) =~= Seq::<u8>::empty());
        }
        while i < count as usize
            invariant
                i <= count as usize,
                start + 1 <= pos <= bytes@.len() <= usize::MAX,
                nodes@.len() == i,
                s == bytes@.skip(start as int),
                s.len() >= 1,
                s[0] == count,
                bytes@.subrange(start as int + 1, pos as int) == nodes_body_enc(
                    nodes.deep_view(),
                ),
                forall|k: int|
                    0 <= k < i ==> <Node as Serializer>::encodable(
                        #[trigger] nodes.deep_view()[k],
                    ),
                ({
                    let rest = count as int - i as int;
                    match nodes_body_dec(bytes@.skip(pos as int), rest) {
                        Some((n2, vs)) => {
                            &&& nodes_body_dec(s.skip(1), count as int) matches Some((nt, all))
                            &&& all == nodes.deep_view() + vs
                            &&& 1 + nt == (pos - start) + n2
                        },
                        None => nodes_body_dec(s.skip(1), count as int) is None,
                    }
                }),
            decreases count as int - i,
        {
            let ghost pre = nodes.deep_view();
            let ghost prepos = pos as int;
            match Node::deserialize(bytes, pos) {
                None => {
                    return None;
                },
                Some((n1, node)) => {
                    proof {
                        assert(bytes@.skip(pos as int + n1 as int) =~= bytes@.skip(
                            pos as int,
                        ).skip(n1 as int));
                    }
                    nodes.push(node);
                    pos = pos + n1;
                    i = i + 1;
                    proof {
                        assert(nodes.deep_view() =~= pre.push(node.deep_view()));
                        lemma_nodes_body_enc_push(pre, node.deep_view());
                        assert(bytes@.skip(prepos).take(n1 as int) =~= bytes@.subrange(
                            prepos,
                            pos as int,
                        ));
                        assert(bytes@.subrange(start as int + 1, pos as int) =~= bytes@.subrange(
                            start as int + 1,
                            prepos,
                        ) + bytes@.subrange(prepos, pos as int));
                        let rest = count as int - i as int;
                        match nodes_body_dec(bytes@.skip(pos as int), rest) {
                            Some((n2, vs)) => {
                                assert(pre.push(node.deep_view()) + vs =~= pre + (seq![
                                    node.deep_view(),
                                ] + vs));
                            },
                            None => {},
                        }
                    }
                },
            }
        }
        proof {
            assert(nodes_body_dec(bytes@.skip(pos as int), 0) == Some(
                (0int, Seq::<NodeV>::empty()),
            ));
            assert(nodes.deep_view() + Seq::<NodeV>::empty() =~= nodes.deep_view());
            assert(s.take(pos - start) =~= seq![count] + bytes@.subrange(
                start as int + 1,
                pos as int,
            ));
            assert(s.take(pos - start) =~= <Vec<Node> as Serializer>::enc(nodes.deep_view()));
        }
        Some((pos - start, nodes))
    }

    proof fn lemma_round_trip(a: Seq<NodeV>, rest: Seq<u8>) {
        let s = Self::enc(a) + rest;
        assert(s[0] == a.len() as u8);
        assert(s.skip(1) =~= nodes_body_enc(a) + rest);
        lemma_nodes_body_round_trip(a, rest);
    }
}

proof fn lemma_nodes_body_enc_take(a: Seq<NodeV>, i: int)
    requires
        0 <= i < a.len(),
    ensures
        nodes_body_enc(a.take(i + 1)) == nodes_body_enc(a.take(i)) + <Node as Serializer>::enc(
            a[i],
        ),
    decreases i,
{
    if i == 0 {
        assert(a.take(1).drop_first() =~= Seq::<NodeV>::empty());
        assert(a.take(1)[0] == a[0]);
        assert(nodes_body_enc(a.take(1).drop_first()) =~= Seq::<u8>::empty());
        assert(nodes_body_enc(a.take(1)) =~= <Node as Serializer>::enc(a[0]));
        assert(a.take(0) =~= Seq::<NodeV>::empty());
        assert(nodes_body_enc(a.take(0)) =~= Seq::<u8>::empty());
        assert(nodes_body_enc(a.take(0)) + <Node as Serializer>::enc(a[0]) =~= <Node as Serializer>::enc(
            a[0],
        ));
    } else {
        let t = a.drop_first();
        assert(a.take(i + 1)[0] == a[0]);
        assert(a.take(i + 1).drop_first() =~= t.take(i));
        assert(a.take(i).drop_first() =~= t.take(i - 1));
        assert(a.take(i)[0] == a[0]);
        lemma_nodes_body_enc_take(t, i - 1);
        assert(t[i - 1] == a[i]);
        assert(nodes_body_enc(a.take(i + 1)) == <Node as Serializer>::enc(a[0])
            + nodes_body_enc(t.take(i)));
        assert(nodes_body_enc(a.take(i)) == <Node as Serializer>::enc(a[0]) + nodes_body_enc(
            t.take(i - 1),
        ));
        assert(nodes_body_enc(a.take(i + 1)) =~= nodes_body_enc(a.take(i))
            + <Node as Serializer>::enc(a[i]));
    }
}

proof fn lemma_nodes_body_enc_prefix(a: Seq<NodeV>, i: int)
    requires
        0 <= i <= a.len(),
    ensures
        nodes_body_enc(a.take(i)).len() <= nodes_body_enc(a).len(),
    decreases a.len() - i,
{
    if i == a.len() {
        assert(a.take(i) =~= a);
    } else {
        lemma_nodes_body_enc_take(a, i);
        lemma_nodes_body_enc_prefix(a, i + 1);
    }
}

proof fn lemma_nodes_body_enc_push(p: Seq<NodeV>, v: NodeV)
    ensures
        nodes_body_enc(p.push(v)) == nodes_body_enc(p) + <Node as Serializer>::enc(v),
    decreases p.len(),
{
    if p.len() == 0 {
        assert(p.push(v)[0] == v);
        assert(p.push(v).drop_first() =~= Seq::<NodeV>::empty());
        assert(nodes_body_enc(p.push(v)) == <Node as Serializer>::enc(p.push(v)[0])
            + nodes_body_enc(p.push(v).drop_first()));
        assert(nodes_body_enc(Seq::<NodeV>::empty()) =~= Seq::<u8>::empty());
        assert(nodes_body_enc(p.push(v)) =~= <Node as Serializer>::enc(v));
        assert(nodes_body_enc(p) =~= Seq::<u8>::empty());
        assert(nodes_body_enc(p) + <Node as Serializer>::enc(v) =~= <Node as Serializer>::enc(v));
    } else {
        assert(p.push(v)[0] == p[0]);
        assert(p.push(v).drop_first() =~= p.drop_first().push(v));
        lemma_nodes_body_enc_push(p.drop_first(), v);
        assert(nodes_body_enc(p.push(v)) =~= nodes_body_enc(p) + <Node as Serializer>::enc(v));
    }
}

proof fn lemma_nodes_body_round_trip(a: Seq<NodeV>, rest: Seq<u8>)
    requires
        forall|i: int| 0 <= i < a.len() ==> <Node as Serializer>::encodable(#[trigger] a[i]),
    ensures
        nodes_body_dec(nodes_body_enc(a) + rest, a.len() as int) == Some(
            (nodes_body_enc(a).len() as int, a),
        ),
    decreases a.len(),
{
    if a.len() == 0 {
        assert(nodes_body_enc(a) =~= Seq::<u8>::empty());
        assert(a =~= Seq::<NodeV>::empty());
    } else {
        let e0 = <Node as Serializer>::enc(a[0]);
        let t = a.drop_first();
        let s = nodes_body_enc(a) + rest;
        assert(s =~= e0 + (nodes_body_enc(t) + rest));
        <Node as Serializer>::lemma_round_trip(a[0], nodes_body_enc(t) + rest);
        assert(s.skip(e0.len() as int) =~= nodes_body_enc(t) + rest);
        assert forall|i: int| 0 <= i < t.len() implies <Node as Serializer>::encodable(
            #[trigger] t[i],
        ) by {
            assert(t[i] == a[i + 1]);
        }
        lemma_nodes_body_round_trip(t, rest);
        assert(seq![a[0]] + t =~= a);
    }
}

} // verus!
