//! The membership table: the set of known peers, keyed by their public-key
//! PEM string. Registration is an idempotent upsert; deregistration removes
//! a key; snapshots come out as peer-descriptor lists. The broadcast
//! primitives that carry packets to every known peer do socket work, so they
//! live outside the library and walk the snapshot this module hands out.

use crate::node::{Node, NodeV};
use vstd::pervasive::VecAdditionalExecFns;
use vstd::prelude::*;

verus! {

/// Whether some descriptor before position `i` carries the key at `i`.
pub open spec fn key_repeats_before(s: Seq<NodeV>, i: int) -> bool {
    exists|j: int| 0 <= j < i && (#[trigger] s[j]).pub_key == s[i].pub_key
}

/// The number of distinct keys among the first `upto` descriptors.
pub open spec fn distinct_keys_upto(s: Seq<NodeV>, upto: int) -> int
    decreases upto,
{
    if upto <= 0 {
        0
    } else {
        distinct_keys_upto(s, upto - 1) + if key_repeats_before(s, upto - 1) {
            0int
        } else {
            1int
        }
    }
}

pub struct Network {
    pub nodes: Vec<Node>,
}

impl Network {
    /// The membership as a map from peer key to port.
    pub open spec fn view(&self) -> Map<Seq<char>, u16> {
        Map::new(
            |k: Seq<char>| exists|i: int| 0 <= i < self.nodes@.len() && self.key_at(i) == k,
            |k: Seq<char>| self.port_of(k),
        )
    }

    /// The key stored at position `i`.
    pub open spec fn key_at(&self, i: int) -> Seq<char> {
        self.nodes@[i].pub_key@
    }

    /// The port stored under the first occurrence of key `k`.
    pub open spec fn port_of(&self, k: Seq<char>) -> u16 {
        self.nodes@[self.index_of(k)].port
    }

    /// The position of key `k`, where it exists.
    pub open spec fn index_of(&self, k: Seq<char>) -> int {
        choose|i: int| 0 <= i < self.nodes@.len() && self.key_at(i) == k
    }

    /// No two entries share a key.
    pub open spec fn wf(&self) -> bool {
        forall|i: int, j: int|
            0 <= i < self.nodes@.len() && 0 <= j < self.nodes@.len() && i != j
                ==> self.key_at(i) != self.key_at(j)
    }

    /// The membership snapshot as peer descriptors, in storage order, every
    /// entry marked online.
    pub open spec fn snapshot(&self) -> Seq<NodeV> {
        Seq::new(
            self.nodes@.len(),
            |i: int|
                NodeV { pub_key: self.key_at(i), port: self.nodes@[i].port, online: true },
        )
    }

    /// Whether some entry carries key `k`.
    pub open spec fn spec_has(&self, k: Seq<char>) -> bool {
        exists|i: int| 0 <= i < self.nodes@.len() && self.key_at(i) == k
    }

    /// Build a membership table holding the given seed peers: every listed
    /// key is registered, the last listed port wins for a repeated key, and
    /// the table holds one entry per distinct key.
    pub fn new(master_nodes: &Vec<Node>) -> (r: Network)
        ensures
            r.wf(),
            forall|k: Seq<char>|
                r.spec_has(k) <==> exists|i: int|
                    0 <= i < master_nodes@.len() && (#[trigger] master_nodes.deep_view()[i]).pub_key
                        == k,
            forall|i: int|
                0 <= i < master_nodes@.len() && (forall|j: int|
                    i < j < master_nodes@.len() ==> (#[trigger] master_nodes.deep_view()[j]).pub_key
                        != master_nodes.deep_view()[i].pub_key) ==> r.port_of(
                    (#[trigger] master_nodes.deep_view()[i]).pub_key,
                ) == master_nodes.deep_view()[i].port,
            r.nodes@.len() == distinct_keys_upto(
                master_nodes.deep_view(),
                master_nodes@.len() as int,
            ),
    {
        let ghost m = master_nodes.deep_view();
        let mut r = Network { nodes: Vec::new() };
        let mut i: usize = 0;
        proof {
            assert(r.nodes@.len() == 0);
        }
        while i < master_nodes.len()
            invariant
                i <= master_nodes@.len(),
                m == master_nodes.deep_view(),
                m.len() == master_nodes@.len(),
                r.wf(),
                forall|k: Seq<char>|
                    r.spec_has(k) <==> exists|j: int|
                        0 <= j < i && (#[trigger] m[j]).pub_key == k,
                forall|j: int|
                    0 <= j < i && (forall|j2: int|
                        j < j2 < i ==> (#[trigger] m[j2]).pub_key != m[j].pub_key)
                        ==> r.port_of((#[trigger] m[j]).pub_key) == m[j].port,
                r.nodes@.len() == distinct_keys_upto(m, i as int),
            decreases master_nodes@.len() - i,
        {
            let node = &master_nodes[i];
            proof {
                assert(m[i as int] == master_nodes@[i as int].deep_view());
            }
            r.register(node.pub_key.clone(), node.port);
            i = i + 1;
            proof {
                assert forall|k: Seq<char>| r.spec_has(k) implies exists|j: int|
                    0 <= j < i && (#[trigger] m[j]).pub_key == k by {
                    if k == m[i - 1].pub_key {
                        assert(m[i - 1].pub_key == k);
                    }
                }
                assert forall|k: Seq<char>|
                    (exists|j: int| 0 <= j < i && (#[trigger] m[j]).pub_key == k)
                    implies r.spec_has(k) by {}
                assert(key_repeats_before(m, i - 1) <==> (exists|j: int|
                    0 <= j < i - 1 && (#[trigger] m[j]).pub_key == m[i - 1].pub_key));
            }
        }
        r
    }

    /// An empty membership table, for the bootstrap node.
    pub fn new_empty() -> (r: Network)
        ensures
            r.wf(),
            forall|k: Seq<char>| !r.spec_has(k),
    {
        Network { nodes: Vec::new() }
    }

    /// Record that the peer with key `pub_key` listens on `port`: update its
    /// entry if the key is known, add one otherwise.
    pub fn register(&mut self, pub_key: String, port: u16)
        requires
            old(self).wf(),
        ensures
            final(self).wf(),
            final(self).spec_has(pub_key@),
            final(self).port_of(pub_key@) == port,
            forall|k: Seq<char>|
                k != pub_key@ ==> (final(self).spec_has(k) <==> old(self).spec_has(k)),
            forall|k: Seq<char>|
                k != pub_key@ && old(self).spec_has(k) ==> final(self).port_of(k) == old(
                    self,
                ).port_of(k),
            final(self).nodes@.len() == old(self).nodes@.len() + (
            if old(self).spec_has(pub_key@) {
                0int
            } else {
                1int
            }),
    {
        let ghost o = *self;
        let len = self.nodes.len();
        let mut i: usize = 0;
        while i < len
            invariant
                i <= len == self.nodes@.len(),
                *self == o,
                o == *old(self),
                o.wf(),
                forall|j: int| 0 <= j < i ==> self.key_at(j) != pub_key@,
            decreases len - i,
        {
            if self.nodes[i].pub_key == pub_key {
                let online = self.nodes[i].online;
                self.nodes.set(i, Node { pub_key, port, online });
                proof {
                    assert(self.key_at(i as int) == o.key_at(i as int));
                    assert forall|j: int|
                        0 <= j < self.nodes@.len() && j != i implies self.nodes@[j] == o.nodes@[j]
                        && self.key_at(j) == o.key_at(j) by {}
                    lemma_register_update(o, *self, i as int, port);
                }
                return ;
            }
            i = i + 1;
        }
        self.nodes.push(Node { pub_key, port, online: true });
        proof {
            assert forall|j: int|
                0 <= j < self.nodes@.len() - 1 implies self.nodes@[j] == o.nodes@[j]
                && self.key_at(j) == o.key_at(j) by {}
            lemma_register_push(o, *self, port);
        }
    }

    /// Whether the peer with key `pub_key` is new: true exactly when no
    /// entry carries the key. The join protocol asks "is this a new peer?"
    /// before forwarding, so absence — not presence — answers true.
    pub fn contains(&mut self, pub_key: &String) -> (r: bool)
        ensures
            *final(self) == *old(self),
            r == !old(self).spec_has(pub_key@),
    {
        let len = self.nodes.len();
        let mut i: usize = 0;
        while i < len
            invariant
                i <= len == self.nodes@.len(),
                *self == *old(self),
                forall|j: int| 0 <= j < i ==> self.key_at(j) != pub_key@,
            decreases len - i,
        {
            if self.nodes[i].pub_key == *pub_key {
                proof {
                    assert(old(self).key_at(i as int) == pub_key@);
                }
                return false;
            }
            i = i + 1;
        }
        true
    }

    /// Remove the entry carrying key `pub_key`, if one does.
    pub fn deregister(&mut self, pub_key: String)
        requires
            old(self).wf(),
        ensures
            final(self).wf(),
            !final(self).spec_has(pub_key@),
            forall|k: Seq<char>|
                k != pub_key@ ==> (final(self).spec_has(k) <==> old(self).spec_has(k)),
            forall|k: Seq<char>|
                k != pub_key@ && old(self).spec_has(k) ==> final(self).port_of(k) == old(
                    self,
                ).port_of(k),
            final(self).nodes@.len() == old(self).nodes@.len() - (
            if old(self).spec_has(pub_key@) {
                1int
            } else {
                0int
            }),
    {
        let ghost o = *self;
        let len = self.nodes.len();
        let mut i: usize = 0;
        while i < len
            invariant
                i <= len == self.nodes@.len(),
                *self == o,
                o == *old(self),
                o.wf(),
                forall|j: int| 0 <= j < i ==> self.key_at(j) != pub_key@,
            decreases len - i,
        {
            if self.nodes[i].pub_key == pub_key {
                proof {
                    assert(o.key_at(i as int) == pub_key@);
                    assert(o.spec_has(pub_key@));
                }
                let _ = self.nodes.remove(i);
                proof {
                    lemma_deregister(o, *self, i as int, pub_key@);
                }
                return ;
            }
            i = i + 1;
        }
    }

    /// A snapshot of the membership as a peer-descriptor list, every entry
    /// marked online.
    pub fn to_nodes(&self) -> (r: Vec<Node>)
        ensures
            r.deep_view() == self.snapshot(),
            r@.len() == self.nodes@.len(),
    {
        let mut out: Vec<Node> = Vec::new();
        let mut i: usize = 0;
        while i < self.nodes.len()
            invariant
                i <= self.nodes@.len(),
                out@.len() == i,
                forall|j: int|
                    0 <= j < i ==> (#[trigger] out.deep_view()[j]) == (NodeV {
                        pub_key: self.key_at(j),
                        port: self.nodes@[j].port,
                        online: true,
                    }),
            decreases self.nodes@.len() - i,
        {
            let ghost pre = out.deep_view();
            let n = &self.nodes[i];
            let fresh = Node { pub_key: n.pub_key.clone(), port: n.port, online: true };
            let ghost fv = fresh.deep_view();
            out.push(fresh);
            i = i + 1;
            proof {
                assert(out.deep_view() =~= pre.push(fv));
            }
        }
        proof {
            assert(out.deep_view() =~= self.snapshot());
        }
        out
    }

    /// How many peers are known.
    pub fn get_len(&self) -> (r: usize)
        ensures
            r == self.nodes@.len(),
    {
        self.nodes.len()
    }
}

proof fn lemma_register_update(o: Network, n: Network, i: int, port: u16)
    requires
        o.wf(),
        n.nodes@.len() == o.nodes@.len(),
        0 <= i < n.nodes@.len(),
        forall|j: int| 0 <= j < n.nodes@.len() && j != i ==> n.nodes@[j] == o.nodes@[j],
        n.key_at(i) == o.key_at(i),
        n.nodes@[i].port == port,
        forall|j: int| 0 <= j < i ==> o.key_at(j) != o.key_at(i),
    ensures
        n.wf(),
        n.spec_has(o.key_at(i)),
        n.port_of(o.key_at(i)) == port,
        forall|k: Seq<char>| k != o.key_at(i) ==> (n.spec_has(k) <==> o.spec_has(k)),
        forall|k: Seq<char>| k != o.key_at(i) && o.spec_has(k) ==> n.port_of(k) == o.port_of(k),
{
    assert forall|a: int, b: int|
        0 <= a < n.nodes@.len() && 0 <= b < n.nodes@.len() && a != b implies n.key_at(a)
        != n.key_at(b) by {
        assert(n.key_at(a) == o.key_at(a));
        assert(n.key_at(b) == o.key_at(b));
    }
    assert(n.key_at(i) == o.key_at(i));
    assert(n.spec_has(o.key_at(i)));
    assert(n.index_of(o.key_at(i)) == i) by {
        let w = n.index_of(o.key_at(i));
        assert(n.key_at(w) == o.key_at(i));
        if w != i {
            assert(n.key_at(w) == o.key_at(w));
        }
    }
    assert forall|k: Seq<char>| k != o.key_at(i) implies (n.spec_has(k) <==> o.spec_has(k)) by {
        if n.spec_has(k) {
            let w = choose|w: int| 0 <= w < n.nodes@.len() && n.key_at(w) == k;
            assert(o.key_at(w) == k);
        }
        if o.spec_has(k) {
            let w = choose|w: int| 0 <= w < o.nodes@.len() && o.key_at(w) == k;
            assert(n.key_at(w) == k);
        }
    }
    assert forall|k: Seq<char>| k != o.key_at(i) && o.spec_has(k) implies n.port_of(k)
        == o.port_of(k) by {
        let w = n.index_of(k);
        assert(n.key_at(w) == k);
        let w2 = o.index_of(k);
        assert(o.key_at(w2) == k);
        assert(n.key_at(w) == o.key_at(w));
        if w != w2 {
            assert(o.key_at(w) != o.key_at(w2));
        }
    }
}

proof fn lemma_register_push(o: Network, n: Network, port: u16)
    requires
        o.wf(),
        n.nodes@.len() == o.nodes@.len() + 1,
        forall|j: int| 0 <= j < o.nodes@.len() ==> n.nodes@[j] == o.nodes@[j],
        n.nodes@[o.nodes@.len() as int].port == port,
        !o.spec_has(n.key_at(o.nodes@.len() as int)),
    ensures
        n.wf(),
        n.spec_has(n.key_at(o.nodes@.len() as int)),
        n.port_of(n.key_at(o.nodes@.len() as int)) == port,
        forall|k: Seq<char>|
            k != n.key_at(o.nodes@.len() as int) ==> (n.spec_has(k) <==> o.spec_has(k)),
        forall|k: Seq<char>|
            k != n.key_at(o.nodes@.len() as int) && o.spec_has(k) ==> n.port_of(k) == o.port_of(
                k,
            ),
{
    let last = o.nodes@.len() as int;
    assert forall|a: int, b: int|
        0 <= a < n.nodes@.len() && 0 <= b < n.nodes@.len() && a != b implies n.key_at(a)
        != n.key_at(b) by {
        if a < last && b < last {
            assert(n.key_at(a) == o.key_at(a));
            assert(n.key_at(b) == o.key_at(b));
        } else if a == last {
            assert(n.key_at(b) == o.key_at(b));
        } else {
            assert(n.key_at(a) == o.key_at(a));
        }
    }
    assert(n.index_of(n.key_at(last)) == last) by {
        let w = n.index_of(n.key_at(last));
        assert(n.key_at(w) == n.key_at(last));
    }
    assert forall|k: Seq<char>| k != n.key_at(last) implies (n.spec_has(k) <==> o.spec_has(k)) by {
        if n.spec_has(k) {
            let w = choose|w: int| 0 <= w < n.nodes@.len() && n.key_at(w) == k;
            assert(w != last);
            assert(o.key_at(w) == k);
        }
        if o.spec_has(k) {
            let w = choose|w: int| 0 <= w < o.nodes@.len() && o.key_at(w) == k;
            assert(n.key_at(w) == k);
        }
    }
    assert forall|k: Seq<char>| k != n.key_at(last) && o.spec_has(k) implies n.port_of(k)
        == o.port_of(k) by {
        let w = n.index_of(k);
        assert(n.key_at(w) == k);
        assert(w != last);
        let w2 = o.index_of(k);
        assert(o.key_at(w2) == k);
        assert(n.key_at(w2) == k);
        if w != w2 {
            assert(n.key_at(w) != n.key_at(w2));
        }
    }
}

proof fn lemma_deregister(o: Network, n: Network, i: int, key: Seq<char>)
    requires
        o.wf(),
        0 <= i < o.nodes@.len(),
        o.key_at(i) == key,
        n.nodes@ == o.nodes@.remove(i),
        forall|j: int| 0 <= j < i ==> o.key_at(j) != key,
    ensures
        n.wf(),
        !n.spec_has(key),
        forall|k: Seq<char>| k != key ==> (n.spec_has(k) <==> o.spec_has(k)),
        forall|k: Seq<char>| k != key && o.spec_has(k) ==> n.port_of(k) == o.port_of(k),
{
    let ghost m = |j: int|
        if j < i {
            j
        } else {
            j + 1
        };
    assert forall|j: int| 0 <= j < n.nodes@.len() implies n.nodes@[j] == o.nodes@[m(j)]
        && n.key_at(j) == o.key_at(m(j)) by {}
    assert forall|a: int, b: int|
        0 <= a < n.nodes@.len() && 0 <= b < n.nodes@.len() && a != b implies n.key_at(a)
        != n.key_at(b) by {
        assert(n.key_at(a) == o.key_at(m(a)));
        assert(n.key_at(b) == o.key_at(m(b)));
    }
    assert forall|j: int| 0 <= j < n.nodes@.len() implies n.key_at(j) != key by {
        assert(n.key_at(j) == o.key_at(m(j)));
        if m(j) != i {
            assert(o.key_at(m(j)) != o.key_at(i));
        }
    }
    assert forall|k: Seq<char>| k != key implies (n.spec_has(k) <==> o.spec_has(k)) by {
        if n.spec_has(k) {
            let w = choose|w: int| 0 <= w < n.nodes@.len() && n.key_at(w) == k;
            assert(o.key_at(m(w)) == k);
        }
        if o.spec_has(k) {
            let w = choose|w: int| 0 <= w < o.nodes@.len() && o.key_at(w) == k;
            assert(w != i);
            if w < i {
                assert(n.key_at(w) == o.key_at(w));
            } else {
                assert(n.key_at(w - 1) == o.key_at(w));
            }
        }
    }
    assert forall|k: Seq<char>| k != key && o.spec_has(k) implies n.port_of(k) == o.port_of(k) by {
        let w = n.index_of(k);
        assert(n.key_at(w) == k);
        let w2 = o.index_of(k);
        assert(o.key_at(w2) == k);
        assert(n.nodes@[w] == o.nodes@[m(w)]);
        if m(w) != w2 {
            assert(o.key_at(m(w)) != o.key_at(w2));
        }
    }
}

} // verus!
