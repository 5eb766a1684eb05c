//! The round-indexed, hash-linked ledger and its convergent insertion
//! algorithm. Three invariants hold after every operation: the chain is
//! hash-linked (each block's `prev_hash` is its predecessor's `hash`), every
//! block's `round` equals its position, and no two blocks carry transactions
//! with equal ids. Blocks for future rounds wait in a side buffer sorted by
//! descending round and re-enter when their round comes up.

use crate::block::{hash_ok, mhash, Block, BlockV};
use crate::transaction::TxV;
use vstd::pervasive::VecAdditionalExecFns;
use vstd::prelude::*;

verus! {

/// Every block's round equals its position.
pub open spec fn rounds_indexed(s: Seq<BlockV>) -> bool {
    forall|i: int| 0 <= i < s.len() ==> (#[trigger] s[i]).round == i
}

/// The chain is hash-linked, starting from the zero hash.
pub open spec fn chain_linked(s: Seq<BlockV>) -> bool {
    &&& s.len() > 0 ==> s[0].prev_hash == 0
    &&& forall|i: int| 1 <= i < s.len() ==> (#[trigger] s[i]).prev_hash == s[i - 1].hash
}

/// No two blocks carry transactions with equal ids.
pub open spec fn tx_ids_unique(s: Seq<BlockV>) -> bool {
    forall|i: int, j: int|
        0 <= i < s.len() && 0 <= j < s.len() && i != j ==> (#[trigger] s[i]).tx.id != (
        #[trigger] s[j]).tx.id
}

/// The three ledger invariants together.
pub open spec fn wf_chain(s: Seq<BlockV>) -> bool {
    rounds_indexed(s) && chain_linked(s) && tx_ids_unique(s)
}

/// Whether some block in `s` carries the given transaction id.
pub open spec fn has_tx_id(s: Seq<BlockV>, id: u64) -> bool {
    exists|i: int| 0 <= i < s.len() && (#[trigger] s[i]).tx.id == id
}

/// Whether a block links onto the chain at its own round: its `prev_hash`
/// is the hash of the block before that round, or zero at round zero.
pub open spec fn link_ok(s: Seq<BlockV>, b: BlockV) -> bool {
    if b.round == 0 {
        b.prev_hash == 0
    } else {
        1 <= b.round <= s.len() && b.prev_hash == s[b.round - 1].hash
    }
}

/// The content of a block that survives relinking: its transaction,
/// timestamp, nonce and solution. Rounds, links and chain hashes are
/// recomputed when the tail moves; these fields never change.
pub open spec fn payload(b: BlockV) -> (TxV, u128, u64, u64) {
    (b.tx, b.timestamp, b.nonce, b.solution)
}

/// The buffer is sorted by descending round, so its last entry is the
/// nearest future round.
pub open spec fn sorted_desc(s: Seq<BlockV>) -> bool {
    forall|i: int, j: int|
        0 <= i < j < s.len() ==> (#[trigger] s[i]).round >= (#[trigger] s[j]).round
}

/// The smallest index at or after `from` whose block has a mining hash
/// above `m`, or the length of `s` when none has.
pub open spec fn first_worse(s: Seq<BlockV>, from: int, m: u64) -> int
    decreases s.len() - from,
{
    if from < 0 || from >= s.len() {
        s.len() as int
    } else if mhash(s[from]) > m {
        from
    } else {
        first_worse(s, from + 1, m)
    }
}

/// The smallest index at or after `from` whose block carries the given
/// transaction id, or the length of `s` when none does.
pub open spec fn tx_index(s: Seq<BlockV>, id: u64, from: int) -> int
    decreases s.len() - from,
{
    if from < 0 || from >= s.len() {
        s.len() as int
    } else if s[from].tx.id == id {
        from
    } else {
        tx_index(s, id, from + 1)
    }
}

/// The position at which a block of the given round keeps a
/// descending-by-round buffer sorted: just after the entries of rounds at
/// least as high.
pub open spec fn desc_pos(s: Seq<BlockV>, round: usize) -> int
    decreases s.len(),
{
    if s.len() == 0 {
        0
    } else if s[0].round >= round {
        1 + desc_pos(s.drop_first(), round)
    } else {
        0
    }
}

proof fn lemma_tx_index_of(s: Seq<BlockV>, id: u64, from: int, j: int)
    requires
        0 <= from <= j <= s.len(),
        forall|k: int| from <= k < j ==> (#[trigger] s[k]).tx.id != id,
        j == s.len() || s[j].tx.id == id,
    ensures
        tx_index(s, id, from) == j,
    decreases j - from,
{
    if from < j {
        lemma_tx_index_of(s, id, from + 1, j);
    }
}

proof fn lemma_first_worse_of(s: Seq<BlockV>, m: u64, from: int, i: int)
    requires
        0 <= from <= i <= s.len(),
        forall|k: int| from <= k < i ==> mhash(#[trigger] s[k]) <= m,
        i == s.len() || mhash(s[i]) > m,
    ensures
        first_worse(s, from, m) == i,
    decreases i - from,
{
    if from < i {
        lemma_first_worse_of(s, m, from + 1, i);
    }
}

proof fn lemma_desc_pos(s: Seq<BlockV>, round: usize, p: int)
    requires
        0 <= p <= s.len(),
        forall|k: int| 0 <= k < p ==> (#[trigger] s[k]).round >= round,
        p == s.len() || s[p].round < round,
    ensures
        desc_pos(s, round) == p,
    decreases p,
{
    if p > 0 {
        assert(s[0].round >= round);
        let t = s.drop_first();
        assert forall|k: int| 0 <= k < p - 1 implies (#[trigger] t[k]).round >= round by {
            assert(t[k] == s[k + 1]);
        }
        if p - 1 < t.len() {
            assert(t[p - 1] == s[p]);
        }
        lemma_desc_pos(t, round, p - 1);
    } else {
        if s.len() > 0 {
            assert(s[0].round < round);
        }
    }
}

/// What one call of the insertion algorithm does, given the old chain `o`,
/// the old buffer `po`, the new chain `n`, the new buffer `pn`, and the
/// incoming block `b`. A block for a round past the chain's end waits in
/// the buffer; one that does not link onto its round is dropped; one for
/// the next round extends the chain; one for an occupied round enters the
/// conflict logic of `conflict_post`.
pub open spec fn add_block_post(
    o: Seq<BlockV>,
    po: Seq<BlockV>,
    n: Seq<BlockV>,
    pn: Seq<BlockV>,
    b: BlockV,
) -> bool {
    if b.round > o.len() {
        n == o && pn == po.insert(desc_pos(po, b.round), b)
    } else if !link_ok(o, b) {
        n == o && pn == po
    } else if b.round == o.len() {
        pn == po && if has_tx_id(o, b.tx.id) {
            n == o
        } else {
            n == o.push(b)
        }
    } else {
        pn == po && conflict_post(o, n, b)
    }
}

/// What draining the future-block buffer does, step by step: while the
/// buffer's last entry — the nearest future round — is ripe, its round
/// exactly the next round to fill, it leaves the buffer and runs through the
/// insertion algorithm, `add_block_post` relating each pair of adjacent
/// states; the drain stops at the first state with no ripe entry.
pub open spec fn drain_post(
    o: Seq<BlockV>,
    po: Seq<BlockV>,
    n: Seq<BlockV>,
    pn: Seq<BlockV>,
) -> bool
    decreases po.len(),
{
    if po.len() == 0 || po.last().round != o.len() {
        n == o && pn == po
    } else {
        exists|n1: Seq<BlockV>|
            {
                &&& #[trigger] add_block_post(o, po.drop_last(), n1, po.drop_last(), po.last())
                &&& drain_post(n1, po.drop_last(), n, pn)
            }
    }
}

/// The conflict logic for a block `b` whose round `r` is already occupied
/// and whose link matches. If `b` beats the occupant by mining hash, it
/// takes position `r`: in place when the occupant carries the same
/// transaction; otherwise the first later duplicate of `b`'s transaction
/// (if any) leaves and the tail is relinked. If `b` does not beat the
/// occupant, it is dropped when its transaction is already placed, and
/// otherwise slides to the first tail position whose occupant has a larger
/// mining hash — or to the end, relinked under the tip. Every surviving
/// block keeps its payload; relinked blocks get correct recomputed hashes.
pub open spec fn conflict_post(o: Seq<BlockV>, n: Seq<BlockV>, b: BlockV) -> bool {
    let r = b.round as int;
    if mhash(b) < mhash(o[r]) {
        if o[r].tx.id == b.tx.id {
            &&& n.len() == o.len()
            &&& forall|k: int| 0 <= k < r ==> n[k] == o[k]
            &&& n[r] == b
            &&& forall|k: int|
                r < k < n.len() ==> payload(#[trigger] n[k]) == payload(o[k]) && hash_ok(n[k])
        } else if has_tx_id(o.take(r), b.tx.id) {
            n == o
        } else {
            let j = tx_index(o, b.tx.id, r);
            if j == o.len() {
                &&& n.len() == o.len() + 1
                &&& forall|k: int| 0 <= k < r ==> n[k] == o[k]
                &&& n[r] == b
                &&& forall|k: int|
                    r < k < n.len() ==> payload(#[trigger] n[k]) == payload(o[k - 1]) && hash_ok(
                        n[k],
                    )
            } else {
                &&& n.len() == o.len()
                &&& forall|k: int| 0 <= k < r ==> n[k] == o[k]
                &&& n[r] == b
                &&& forall|k: int|
                    r < k <= j ==> payload(#[trigger] n[k]) == payload(o[k - 1]) && hash_ok(n[k])
                &&& forall|k: int|
                    j < k < n.len() ==> payload(#[trigger] n[k]) == payload(o[k]) && hash_ok(n[k])
            }
        }
    } else {
        if has_tx_id(o, b.tx.id) {
            n == o
        } else {
            let i0 = first_worse(o, r, mhash(b));
            &&& n.len() == o.len() + 1
            &&& forall|k: int| 0 <= k < i0 ==> n[k] == o[k]
            &&& payload(n[i0]) == payload(b) && hash_ok(n[i0])
            &&& forall|k: int|
                i0 < k < n.len() ==> payload(#[trigger] n[k]) == payload(o[k - 1]) && hash_ok(n[k])
        }
    }
}

pub struct Blockchain {
    pub blocks: Vec<Block>,
    pub pending: Vec<Block>,
}

impl Blockchain {
    /// The abstract chain: the blocks in round order.
    pub open spec fn chain(&self) -> Seq<BlockV> {
        self.blocks.deep_view()
    }

    /// The abstract future-block buffer, descending by round.
    pub open spec fn buffered(&self) -> Seq<BlockV> {
        self.pending.deep_view()
    }

    /// The ledger's invariant: the chain invariants plus buffer order.
    pub open spec fn wf(&self) -> bool {
        wf_chain(self.chain()) && sorted_desc(self.buffered())
    }

    /// The hash of the last block, or zero when the ledger is empty.
    pub open spec fn spec_cur_hash(&self) -> u64 {
        if self.chain().len() == 0 {
            0
        } else {
            self.chain().last().hash
        }
    }

    pub fn new() -> (r: Blockchain)
        ensures
            r.chain() == Seq::<BlockV>::empty(),
            r.buffered() == Seq::<BlockV>::empty(),
            r.wf(),
    {
        let r = Blockchain { blocks: Vec::new(), pending: Vec::new() };
        proof {
            assert(r.chain() =~= Seq::<BlockV>::empty());
            assert(r.buffered() =~= Seq::<BlockV>::empty());
        }
        r
    }

    /// The next round to fill: the current chain length.
    pub fn get_round(&self) -> (r: usize)
        ensures
            r == self.chain().len(),
    {
        self.blocks.len()
    }

    /// The hash a block of the given round must link to: the hash of the
    /// block before it, or zero when the round is zero or out of range.
    pub fn get_prev_hash(&self, round: usize) -> (r: u64)
        ensures
            r == if 1 <= round <= self.chain().len() {
                self.chain()[round - 1].hash
            } else {
                0u64
            },
    {
        if round < 1 || round > self.blocks.len() {
            return 0;
        }
        self.blocks[round - 1].hash
    }

    /// The ids of the transactions on the chain, in round order.
    pub fn get_tx_ids(&self) -> (r: Vec<u64>)
        ensures
            r@.len() == self.chain().len(),
            forall|i: int| 0 <= i < r@.len() ==> r@[i] == self.chain()[i].tx.id,
    {
        let mut ids: Vec<u64> = Vec::new();
        let mut i: usize = 0;
        while i < self.blocks.len()
            invariant
                i <= self.blocks@.len(),
                ids@.len() == i,
                forall|k: int| 0 <= k < i ==> ids@[k] == self.chain()[k].tx.id,
            decreases self.blocks@.len() - i,
        {
            ids.push(self.blocks[i].tx.id);
            i = i + 1;
        }
        ids
    }

    /// The hash of the last block, or zero when the ledger is empty.
    pub fn get_cur_hash(&self) -> (r: u64)
        ensures
            r == self.spec_cur_hash(),
    {
        let len = self.blocks.len();
        if len == 0 {
            return 0;
        }
        self.blocks[len - 1].hash
    }

    /// The (prev_hash, hash) link pairs of the chain, in round order.
    pub fn get_hashes(&self) -> (r: Vec<(u64, u64)>)
        ensures
            r@.len() == self.chain().len(),
            forall|i: int|
                0 <= i < r@.len() ==> r@[i] == (self.chain()[i].prev_hash, self.chain()[i].hash),
    {
        let mut hs: Vec<(u64, u64)> = Vec::new();
        let mut i: usize = 0;
        while i < self.blocks.len()
            invariant
                i <= self.blocks@.len(),
                hs@.len() == i,
                forall|k: int|
                    0 <= k < i ==> hs@[k] == (self.chain()[k].prev_hash, self.chain()[k].hash),
            decreases self.blocks@.len() - i,
        {
            hs.push((self.blocks[i].prev_hash, self.blocks[i].hash));
            i = i + 1;
        }
        hs
    }

    /// Whether the incoming block links onto the chain at its own round.
    fn verify(&self, block: &Block) -> (r: bool)
        requires
            block.deep_view().round <= self.chain().len(),
        ensures
            r == link_ok(self.chain(), block.deep_view()),
    {
        if block.round == 0 {
            return block.prev_hash == 0;
        }
        block.prev_hash == self.blocks[block.round - 1].hash
    }

    /// The position of the first block carrying the given transaction id.
    fn find_tx_index(&self, id: u64) -> (r: Option<usize>)
        ensures
            match r {
                Some(j) => {
                    &&& j < self.chain().len()
                    &&& self.chain()[j as int].tx.id == id
                    &&& forall|k: int| 0 <= k < j ==> (#[trigger] self.chain()[k]).tx.id != id
                },
                None => !has_tx_id(self.chain(), id),
            },
    {
        let mut i: usize = 0;
        while i < self.blocks.len()
            invariant
                i <= self.blocks@.len(),
                forall|k: int| 0 <= k < i ==> (#[trigger] self.chain()[k]).tx.id != id,
            decreases self.blocks@.len() - i,
        {
            if self.blocks[i].tx.id == id {
                return Some(i);
            }
            i = i + 1;
        }
        None
    }

    /// Repair the tail from `start` on: every block from there gets its
    /// round set to its position, its `prev_hash` relinked to its
    /// predecessor, and its chain hash recomputed. Payloads do not move.
    fn rehash_from(&mut self, start: usize)
        requires
            start <= old(self).chain().len(),
            forall|i: int| 0 <= i < start ==> (#[trigger] old(self).chain()[i]).round == i,
            forall|i: int|
                1 <= i < start ==> (#[trigger] old(self).chain()[i]).prev_hash == old(
                    self,
                ).chain()[i - 1].hash,
            start > 0 ==> old(self).chain()[0].prev_hash == 0,
        ensures
            final(self).chain().len() == old(self).chain().len(),
            forall|i: int| 0 <= i < start ==> final(self).chain()[i] == old(self).chain()[i],
            forall|i: int|
                start <= i < old(self).chain().len() ==> payload(#[trigger] final(self).chain()[i])
                    == payload(old(self).chain()[i]),
            forall|i: int|
                start <= i < old(self).chain().len() ==> hash_ok(#[trigger] final(self).chain()[i]),
            rounds_indexed(final(self).chain()),
            chain_linked(final(self).chain()),
            final(self).buffered() == old(self).buffered(),
    {
        let mut i: usize = start;
        while i < self.blocks.len()
            invariant
                start <= i <= self.blocks@.len(),
                self.blocks@.len() == old(self).chain().len(),
                self.buffered() == old(self).buffered(),
                forall|k: int| 0 <= k < start ==> #[trigger] self.chain()[k] == old(self).chain()[k],
                forall|k: int|
                    i <= k < self.chain().len() ==> #[trigger] self.chain()[k] == old(
                        self,
                    ).chain()[k],
                forall|k: int|
                    start <= k < i ==> payload(#[trigger] self.chain()[k]) == payload(
                        old(self).chain()[k],
                    ),
                forall|k: int| start <= k < i ==> hash_ok(#[trigger] self.chain()[k]),
                forall|k: int| 0 <= k < i ==> (#[trigger] self.chain()[k]).round == k,
                forall|k: int|
                    1 <= k < i ==> (#[trigger] self.chain()[k]).prev_hash == self.chain()[k
                        - 1].hash,
                i > 0 ==> self.chain()[0].prev_hash == 0,
            decreases self.blocks@.len() - i,
        {
            let ghost pre = self.chain();
            let prev = if i == 0 {
                0u64
            } else {
                self.blocks[i - 1].hash
            };
            let mut b = self.blocks[i].clone();
            b.relink(prev, i);
            self.blocks.set(i, b);
            proof {
                assert(self.chain()[i as int] == b.deep_view());
                assert(pre[i as int] == old(self).chain()[i as int]);
                assert(payload(b.deep_view()) == payload(pre[i as int]));
                assert forall|k: int| 0 <= k < pre.len() && k != i implies #[trigger] self.chain()[k]
                    == pre[k] by {
                    assert(self.blocks@[k] == old(self).blocks@.update(i as int, b)[k] || true);
                }
            }
            i = i + 1;
        }
    }

    /// Put a future block into the buffer, keeping it sorted by descending
    /// round.
    fn push_pending(&mut self, block: &Block)
        requires
            sorted_desc(old(self).buffered()),
        ensures
            final(self).chain() == old(self).chain(),
            final(self).buffered() == old(self).buffered().insert(
                desc_pos(old(self).buffered(), block.deep_view().round),
                block.deep_view(),
            ),
            sorted_desc(final(self).buffered()),
    {
        let ghost po = self.buffered();
        let mut p: usize = 0;
        while p < self.pending.len() && self.pending[p].round >= block.round
            invariant
                p <= self.pending@.len(),
                self == old(self),
                forall|k: int| 0 <= k < p ==> (#[trigger] self.buffered()[k]).round
                    >= block.deep_view().round,
            decreases self.pending@.len() - p,
        {
            p = p + 1;
        }
        proof {
            lemma_desc_pos(po, block.deep_view().round, p as int);
        }
        self.pending.insert(p, block.clone());
        proof {
            assert(self.buffered() =~= po.insert(p as int, block.deep_view()));
            assert forall|i: int, j: int|
                0 <= i < j < self.buffered().len() implies (#[trigger] self.buffered()[i]).round
                >= (#[trigger] self.buffered()[j]).round by {}
        }
    }

    /// The convergent insertion algorithm: decide, for the incoming block,
    /// whether it extends the chain, wins or loses an occupied round, waits
    /// for a future round, or is dropped — as `add_block_post` details —
    /// while preserving the three ledger invariants.
    pub fn add_block(&mut self, block: &Block)
        requires
            old(self).wf(),
        ensures
            final(self).wf(),
            add_block_post(
                old(self).chain(),
                old(self).buffered(),
                final(self).chain(),
                final(self).buffered(),
                block.deep_view(),
            ),
    {
        let ghost o = self.chain();
        let ghost b = block.deep_view();
        let r = block.round;
        let len = self.blocks.len();
        if r > len {
            self.push_pending(block);
            return ;
        }
        if !self.verify(block) {
            return ;
        }
        if r == len {
            match self.find_tx_index(block.tx.id) {
                Some(_) => {
                    proof {
                        assert(has_tx_id(o, b.tx.id));
                    }
                },
                None => {
                    self.blocks.push(block.clone());
                    proof {
                        assert(self.chain() =~= o.push(b));
                        lemma_wf_chain_extend(o, self.chain(), b);
                    }
                },
            }
            return ;
        }
        let bm = block.get_minig_hash();
        let rm = self.blocks[r].get_minig_hash();
        if bm < rm {
            self.conflict_win(block);
        } else {
            self.conflict_lose(block);
        }
    }

    /// The incoming block beats the occupant of its round by mining hash:
    /// it takes that position, and any later duplicate of its transaction
    /// leaves the chain.
    #[verifier::spinoff_prover]
    #[verifier::rlimit(100)]
    fn conflict_win(&mut self, block: &Block)
        requires
            old(self).wf(),
            block.deep_view().round < old(self).chain().len(),
            link_ok(old(self).chain(), block.deep_view()),
            mhash(block.deep_view()) < mhash(
                old(self).chain()[block.deep_view().round as int],
            ),
        ensures
            final(self).wf(),
            final(self).buffered() == old(self).buffered(),
            conflict_post(old(self).chain(), final(self).chain(), block.deep_view()),
    {
        let ghost o = self.chain();
        let ghost b = block.deep_view();
        let r = block.round;
        let len = self.blocks.len();
        if self.blocks[r].tx.id == block.tx.id {
            // the occupant carries the same transaction: replace it in place
            self.blocks.set(r, block.clone());
            proof {
                assert(self.chain()[r as int] == b);
                assert forall|k: int| 0 <= k < o.len() && k != r implies #[trigger] self.chain()[k]
                    == o[k] by {}
            }
            self.rehash_from(r + 1);
            proof {
                let n = self.chain();
                assert forall|k: int|
                    0 <= k < n.len() && k != r implies (#[trigger] n[k]).tx.id == o[k].tx.id by {
                    if k > r {
                        assert(payload(n[k]) == payload(o[k]));
                    }
                }
                lemma_unique_via_map(o, n, b, r as int, |k: int| k);
            }
        } else {
            let dup = self.find_tx_index(block.tx.id);
            if let Some(j) = dup {
                if j < r {
                    // a duplicate already sits in the settled prefix: drop
                    proof {
                        assert(o.take(r as int)[j as int].tx.id == b.tx.id);
                        assert(has_tx_id(o.take(r as int), b.tx.id));
                    }
                    return ;
                }
                self.win_evicting_dup(block, j);
            } else {
                self.win_fresh(block);
            }
        }
    }

    /// Place the winning block at its round after evicting the later
    /// duplicate of its transaction at position `j`.
    #[verifier::spinoff_prover]
    #[verifier::rlimit(100)]
    fn win_evicting_dup(&mut self, block: &Block, j: usize)
        requires
            old(self).wf(),
            block.deep_view().round < old(self).chain().len(),
            link_ok(old(self).chain(), block.deep_view()),
            mhash(block.deep_view()) < mhash(
                old(self).chain()[block.deep_view().round as int],
            ),
            old(self).chain()[block.deep_view().round as int].tx.id != block.deep_view().tx.id,
            block.deep_view().round < j < old(self).chain().len(),
            old(self).chain()[j as int].tx.id == block.deep_view().tx.id,
            forall|k: int|
                0 <= k < j ==> (#[trigger] old(self).chain()[k]).tx.id != block.deep_view().tx.id,
        ensures
            final(self).wf(),
            final(self).buffered() == old(self).buffered(),
            conflict_post(old(self).chain(), final(self).chain(), block.deep_view()),
    {
        let ghost o = self.chain();
        let ghost b = block.deep_view();
        let r = block.round;
        let len = self.blocks.len();
        proof {
            lemma_take_free_of_id(o, b.tx.id, r as int);
            lemma_tx_index_of(o, b.tx.id, r as int, j as int);
        }
        let _ = self.blocks.remove(j);
        self.blocks.insert(r, block.clone());
        proof {
            assert forall|k: int| 0 <= k < r implies #[trigger] self.chain()[k] == o[k] by {}
            assert(self.chain()[r as int] == b);
            assert forall|k: int| r < k <= j implies payload(#[trigger] self.chain()[k])
                == payload(o[k - 1]) by {}
            assert forall|k: int| j < k < self.chain().len() implies payload(
                #[trigger] self.chain()[k],
            ) == payload(o[k]) by {}
        }
        self.rehash_from(r + 1);
        proof {
            let n = self.chain();
            let ghost m = |k: int|
                if k < r {
                    k
                } else if k <= j {
                    k - 1
                } else {
                    k
                };
            assert forall|k: int|
                0 <= k < n.len() && k != r implies 0 <= m(k) < o.len() && (
            #[trigger] n[k]).tx.id == o[m(k)].tx.id && o[m(k)].tx.id != b.tx.id by {
                if k < r {
                } else if k <= j {
                    assert(payload(n[k]) == payload(o[k - 1]));
                } else {
                    assert(payload(n[k]) == payload(o[k]));
                }
            }
            lemma_unique_via_map(o, n, b, r as int, m);
        }
    }

    /// Place the winning block at its round; its transaction appears
    /// nowhere on the chain, so the tail only shifts.
    #[verifier::spinoff_prover]
    #[verifier::rlimit(100)]
    fn win_fresh(&mut self, block: &Block)
        requires
            old(self).wf(),
            block.deep_view().round < old(self).chain().len(),
            link_ok(old(self).chain(), block.deep_view()),
            mhash(block.deep_view()) < mhash(
                old(self).chain()[block.deep_view().round as int],
            ),
            old(self).chain()[block.deep_view().round as int].tx.id != block.deep_view().tx.id,
            !has_tx_id(old(self).chain(), block.deep_view().tx.id),
        ensures
            final(self).wf(),
            final(self).buffered() == old(self).buffered(),
            conflict_post(old(self).chain(), final(self).chain(), block.deep_view()),
    {
        let ghost o = self.chain();
        let ghost b = block.deep_view();
        let r = block.round;
        let len = self.blocks.len();
        proof {
            lemma_take_free_of_id(o, b.tx.id, r as int);
            lemma_tx_index_of(o, b.tx.id, r as int, o.len() as int);
        }
        self.blocks.insert(r, block.clone());
        proof {
            assert forall|k: int| 0 <= k < r implies #[trigger] self.chain()[k] == o[k] by {}
            assert(self.chain()[r as int] == b);
            assert forall|k: int| r < k < self.chain().len() implies payload(
                #[trigger] self.chain()[k],
            ) == payload(o[k - 1]) by {}
        }
        self.rehash_from(r + 1);
        proof {
            let n = self.chain();
            let ghost m = |k: int|
                if k < r {
                    k
                } else {
                    k - 1
                };
            assert forall|k: int|
                0 <= k < n.len() && k != r implies 0 <= m(k) < o.len() && (
            #[trigger] n[k]).tx.id == o[m(k)].tx.id && o[m(k)].tx.id != b.tx.id by {
                if k > r {
                    assert(payload(n[k]) == payload(o[k - 1]));
                }
            }
            lemma_unique_via_map(o, n, b, r as int, m);
        }
    }

    /// The incoming block does not beat the occupant of its round: it is
    /// dropped when its transaction is already placed, and otherwise slides
    /// to the first tail position whose occupant has a larger mining hash —
    /// or to the end, relinked under the tip.
    fn conflict_lose(&mut self, block: &Block)
        requires
            old(self).wf(),
            block.deep_view().round < old(self).chain().len(),
            link_ok(old(self).chain(), block.deep_view()),
            mhash(block.deep_view()) >= mhash(
                old(self).chain()[block.deep_view().round as int],
            ),
        ensures
            final(self).wf(),
            final(self).buffered() == old(self).buffered(),
            conflict_post(old(self).chain(), final(self).chain(), block.deep_view()),
    {
        let ghost o = self.chain();
        let ghost b = block.deep_view();
        let r = block.round;
        if self.find_tx_index(block.tx.id).is_some() {
            proof {
                assert(has_tx_id(o, b.tx.id));
            }
            return ;
        }
        let bm = block.get_minig_hash();
        let mut i = r;
        while i < self.blocks.len() && self.blocks[i].get_minig_hash() <= bm
            invariant
                r <= i <= self.blocks@.len(),
                self == old(self),
                forall|k: int| r <= k < i ==> mhash(#[trigger] self.chain()[k]) <= bm,
            decreases self.blocks@.len() - i,
        {
            i = i + 1;
        }
        proof {
            lemma_first_worse_of(o, bm, r as int, i as int);
        }
        if i < self.blocks.len() {
            self.blocks.insert(i, block.clone());
            proof {
                assert forall|k: int| 0 <= k < i implies #[trigger] self.chain()[k] == o[k] by {}
                assert(self.chain()[i as int] == b);
                assert forall|k: int| i < k < self.chain().len() implies payload(
                    #[trigger] self.chain()[k],
                ) == payload(o[k - 1]) by {}
            }
            self.rehash_from(i);
            proof {
                self.lemma_wf_after_slide(o, b, i as int);
            }
        } else {
            let prev = self.get_cur_hash();
            let mut nb = block.clone();
            nb.relink(prev, i);
            self.blocks.push(nb);
            proof {
                assert forall|k: int| 0 <= k < o.len() implies #[trigger] self.chain()[k]
                    == o[k] by {}
                assert(payload(self.chain()[o.len() as int]) == payload(b));
                assert(hash_ok(self.chain()[o.len() as int]));
                self.lemma_wf_after_slide(o, b, o.len() as int);
            }
        }
    }

    /// After a losing block slid to position `i0` and the tail from there
    /// was relinked, the chain is well-formed again.
    proof fn lemma_wf_after_slide(&self, o: Seq<BlockV>, b: BlockV, i0: int)
        requires
            wf_chain(o),
            0 <= i0 <= o.len(),
            self.chain().len() == o.len() + 1,
            forall|k: int| 0 <= k < i0 ==> #[trigger] self.chain()[k] == o[k],
            self.chain()[i0].tx == b.tx,
            forall|k: int|
                i0 < k < self.chain().len() ==> payload(#[trigger] self.chain()[k]) == payload(
                    o[k - 1],
                ),
            !has_tx_id(o, b.tx.id),
            rounds_indexed(self.chain()),
            chain_linked(self.chain()),
        ensures
            wf_chain(self.chain()),
    {
        let n = self.chain();
        let ghost m = |k: int|
            if k < i0 {
                k
            } else {
                k - 1
            };
        assert forall|k: int|
            0 <= k < n.len() && k != i0 implies 0 <= m(k) < o.len() && (#[trigger] n[k]).tx.id
            == o[m(k)].tx.id && o[m(k)].tx.id != b.tx.id by {
            if k > i0 {
                assert(payload(n[k]) == payload(o[k - 1]));
            }
        }
        lemma_unique_via_map(o, n, b, i0, m);
    }

    /// Drain the future-block buffer: while its last entry's round is
    /// exactly the next round to fill, pop it and run it through the
    /// insertion algorithm; `drain_post` relates the final state to the
    /// initial one through those steps.
    pub fn drain_pending(&mut self)
        requires
            old(self).wf(),
        ensures
            final(self).wf(),
            drain_post(
                old(self).chain(),
                old(self).buffered(),
                final(self).chain(),
                final(self).buffered(),
            ),
            ({
                let pn = final(self).buffered();
                pn.len() > 0 ==> pn.last().round != final(self).chain().len()
            }),
    {
        loop
            invariant
                self.wf(),
                forall|n: Seq<BlockV>, pn: Seq<BlockV>|
                    #[trigger] drain_post(self.chain(), self.buffered(), n, pn) ==> drain_post(
                        old(self).chain(),
                        old(self).buffered(),
                        n,
                        pn,
                    ),
            decreases self.pending@.len(),
        {
            let ghost pre_c = self.chain();
            let ghost pre_p = self.buffered();
            let plen = self.pending.len();
            if plen == 0 {
                proof {
                    assert(drain_post(pre_c, pre_p, pre_c, pre_p));
                }
                return ;
            }
            if self.pending[plen - 1].round != self.blocks.len() {
                proof {
                    assert(pre_p.last().round != pre_c.len());
                    assert(drain_post(pre_c, pre_p, pre_c, pre_p));
                }
                return ;
            }
            let blk = self.pending.remove(plen - 1);
            proof {
                assert(self.buffered() =~= pre_p.drop_last());
                assert(blk.deep_view() == pre_p.last());
                assert forall|i: int, j: int|
                    0 <= i < j < self.buffered().len() implies (#[trigger] self.buffered()[i]).round
                    >= (#[trigger] self.buffered()[j]).round by {
                    assert(self.buffered()[i] == pre_p[i]);
                    assert(self.buffered()[j] == pre_p[j]);
                }
                assert(blk.deep_view().round == self.chain().len());
            }
            self.add_block(&blk);
            proof {
                assert(self.buffered() == pre_p.drop_last());
                assert forall|n: Seq<BlockV>, pn: Seq<BlockV>|
                    #[trigger] drain_post(self.chain(), self.buffered(), n, pn) implies drain_post(
                    old(self).chain(),
                    old(self).buffered(),
                    n,
                    pn,
                ) by {
                    assert(add_block_post(
                        pre_c,
                        pre_p.drop_last(),
                        self.chain(),
                        pre_p.drop_last(),
                        pre_p.last(),
                    ));
                    assert(drain_post(pre_c, pre_p, n, pn));
                }
            }
        }
    }

    /// Apply a fork: when the incoming block names an occupied round, shares
    /// that occupant's parent, beats it by mining hash, and repeats no
    /// earlier transaction, the chain is cut back to that round and the
    /// block appended; the cut tail's transactions are lost, a gap the
    /// protocol accepts. Any other block leaves the ledger unchanged.
    ///
    /// Fork packets are applied on receipt but never originated here: a
    /// better competitor for an occupied round arriving as an ordinary block
    /// is resolved in place by the insertion algorithm, which keeps the tail
    /// by relinking it, so the node never has cause to cut its own tail and
    /// announce the cut. The truncation path stands only for explicit fork
    /// packets from peers.
    pub fn apply_fork(&mut self, block: &Block)
        requires
            old(self).wf(),
        ensures
            final(self).wf(),
            final(self).buffered() == old(self).buffered(),
            ({
                let o = old(self).chain();
                let b = block.deep_view();
                if b.round < o.len() && b.prev_hash == o[b.round as int].prev_hash && mhash(b)
                    < mhash(o[b.round as int]) && !has_tx_id(o.take(b.round as int), b.tx.id) {
                    final(self).chain() == o.take(b.round as int).push(b)
                } else {
                    final(self).chain() == o
                }
            }),
    {
        let ghost o = self.chain();
        let ghost b = block.deep_view();
        let r = block.round;
        if r >= self.blocks.len() {
            return ;
        }
        if block.prev_hash != self.blocks[r].prev_hash {
            return ;
        }
        if block.get_minig_hash() >= self.blocks[r].get_minig_hash() {
            return ;
        }
        if let Some(j) = self.find_tx_index(block.tx.id) {
            if j < r {
                proof {
                    assert(o.take(r as int)[j as int] == o[j as int]);
                    assert(has_tx_id(o.take(r as int), b.tx.id));
                }
                return ;
            }
        }
        proof {
            lemma_take_free_of_id(o, b.tx.id, r as int);
        }
        self.blocks.truncate(r);
        self.blocks.push(block.clone());
        proof {
            assert(self.chain() =~= o.take(r as int).push(b));
            let t = o.take(r as int);
            assert forall|k: int| 0 <= k < t.len() implies (#[trigger] t[k]) == o[k] by {}
            assert(link_ok(t, b)) by {
                if r > 0 {
                    assert(o[r as int].prev_hash == o[r as int - 1].hash);
                }
            }
            lemma_wf_chain_extend(t, self.chain(), b);
        }
    }
}

/// Pushing a linking, round-matching, id-fresh block onto a well-formed
/// chain keeps it well-formed.
proof fn lemma_wf_chain_extend(o: Seq<BlockV>, n: Seq<BlockV>, b: BlockV)
    requires
        wf_chain(o),
        n == o.push(b),
        b.round == o.len(),
        link_ok(o, b),
        !has_tx_id(o, b.tx.id),
    ensures
        wf_chain(n),
{
    assert forall|i: int| 0 <= i < n.len() implies (#[trigger] n[i]).round == i by {
        if i < o.len() {
            assert(n[i] == o[i]);
        }
    }
    assert forall|i: int| 1 <= i < n.len() implies (#[trigger] n[i]).prev_hash == n[i - 1].hash by {
        if i < o.len() {
            assert(n[i] == o[i]);
        } else {
            assert(n[i] == b);
        }
    }
    if n.len() > 0 {
        assert(n[0].prev_hash == 0) by {
            if o.len() > 0 {
                assert(n[0] == o[0]);
            } else {
                assert(n[0] == b);
            }
        }
    }
    assert forall|i: int, j: int|
        0 <= i < n.len() && 0 <= j < n.len() && i != j implies (#[trigger] n[i]).tx.id != (
    #[trigger] n[j]).tx.id by {
        if i < o.len() && j < o.len() {
        } else if i == o.len() {
            assert(n[j] == o[j]);
        } else if j == o.len() {
            assert(n[i] == o[i]);
        }
    }
}

/// A chain whose blocks all map, position by position off one special
/// index, to distinct old positions carrying other ids than the special
/// block's, has all ids distinct.
proof fn lemma_unique_via_map(
    o: Seq<BlockV>,
    n: Seq<BlockV>,
    b: BlockV,
    p: int,
    m: spec_fn(int) -> int,
)
    requires
        tx_ids_unique(o),
        0 <= p < n.len(),
        n[p].tx.id == b.tx.id,
        forall|k: int|
            0 <= k < n.len() && k != p ==> 0 <= #[trigger] m(k) < o.len() && n[k].tx.id
                == o[m(k)].tx.id && o[m(k)].tx.id != b.tx.id,
        forall|k1: int, k2: int|
            0 <= k1 < n.len() && 0 <= k2 < n.len() && k1 != p && k2 != p && k1 != k2 ==> #[trigger] m(
                k1,
            ) != #[trigger] m(k2),
    ensures
        tx_ids_unique(n),
{
    assert forall|i: int, j: int|
        0 <= i < n.len() && 0 <= j < n.len() && i != j implies (#[trigger] n[i]).tx.id != (
    #[trigger] n[j]).tx.id by {
        if i == p {
            assert(n[j].tx.id == o[m(j)].tx.id);
        } else if j == p {
            assert(n[i].tx.id == o[m(i)].tx.id);
        } else {
            assert(n[i].tx.id == o[m(i)].tx.id);
            assert(n[j].tx.id == o[m(j)].tx.id);
            assert(m(i) != m(j));
        }
    }
}

/// When a chain has unique transaction ids and its block at `r` or later
/// first carries `id`, the prefix before `r` is free of `id`.
proof fn lemma_take_free_of_id(o: Seq<BlockV>, id: u64, r: int)
    requires
        0 <= r <= o.len(),
        forall|k: int| 0 <= k < r ==> (#[trigger] o[k]).tx.id != id,
    ensures
        !has_tx_id(o.take(r), id),
{
    assert forall|k: int| 0 <= k < o.take(r).len() implies (#[trigger] o.take(r)[k]).tx.id
        != id by {
        assert(o.take(r)[k] == o[k]);
    }
}

} // verus!

