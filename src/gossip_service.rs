//! The gossip protocol: how the node reacts to peers and to its own miner, and what it
//! remembers of each peer's knowledge so that nothing is flooded to a peer twice.
use vstd::prelude::*;
use std::collections::HashSet;
use crate::data::{Block, BlockHash, Transaction, TransactionHash, copy_block};
use crate::block_forest::{BlockForest, better, has_block, merge_known};
use crate::mining_service::MiningInfo;
use crate::peer_service::{
    PeerCommand, PeerCommandKind, PeerEvent, PeerEventKind, SessionId, VerifiedPeerMessage,
};

verus! {

broadcast use vstd::std_specs::hash::group_hash_axioms;

pub struct GossipServiceConfig {
    /// Reserved: period of re-requests for missing parents, in milliseconds.
    pub eager_requests_interval_ms: u64,
}

/// What a command does, by hash.
pub enum Sent {
    Block(BlockHash),
    Transaction(TransactionHash),
    Request(BlockHash),
    Drop,
}

/// The session a command goes to, and what it does.
pub open spec fn summary(c: PeerCommand) -> (SessionId, Sent) {
    (
        c.session_id,
        match c.command_kind {
            PeerCommandKind::Drop => Sent::Drop,
            PeerCommandKind::SendMessage(VerifiedPeerMessage::Block(b)) => Sent::Block(b.hash),
            PeerCommandKind::SendMessage(VerifiedPeerMessage::Transaction(t)) => Sent::Transaction(
                t.hash,
            ),
            PeerCommandKind::SendMessage(VerifiedPeerMessage::Request { block_hash }) => Sent::Request(
                block_hash,
            ),
        },
    )
}

pub open spec fn summaries(cs: Seq<PeerCommand>) -> Seq<(SessionId, Sent)> {
    cs.map_values(|c: PeerCommand| summary(c))
}

/// The position of session `s` in `ids`, or -1.
pub open spec fn find_id(ids: Seq<SessionId>, s: SessionId) -> int
    decreases ids.len(),
{
    if ids.len() == 0 {
        -1
    } else if ids.last() == s {
        ids.len() - 1
    } else {
        find_id(ids.drop_last(), s)
    }
}

/// The sessions among the first `n` that are not `origin` (the session the item came
/// from, if any) and do not know `h`, in order: those a newly accepted item is flooded to.
pub open spec fn flood_targets(ids: Seq<SessionId>, know: Seq<Set<u64>>, origin: Option<SessionId>, h: u64, n: int) -> Seq<SessionId>
    decreases n,
{
    if n <= 0 {
        seq![]
    } else {
        let rest = flood_targets(ids, know, origin, h, n - 1);
        if Some(ids[n - 1]) != origin && !know[n - 1].contains(h) {
            rest.push(ids[n - 1])
        } else {
            rest
        }
    }
}

/// Every set with `h` added.
pub open spec fn learn_all(know: Seq<Set<u64>>, h: u64) -> Seq<Set<u64>> {
    know.map_values(|k: Set<u64>| k.insert(h))
}

/// One `SendMessage` of the item with hash `h` to each of `targets`.
pub open spec fn sends_to(targets: Seq<SessionId>, h: u64, block: bool) -> Seq<(SessionId, Sent)> {
    targets.map_values(
        |s: SessionId|
            (
                s,
                if block {
                    Sent::Block(h)
                } else {
                    Sent::Transaction(h)
                },
            ),
    )
}


proof fn lemma_to_set_push(s: Seq<u64>, x: u64)
    ensures
        s.push(x).to_set() == s.to_set().insert(x),
{
    assert(s.push(x).to_set() =~= s.to_set().insert(x)) by {
        assert forall|y: u64| s.push(x).to_set().contains(y) <==> s.to_set().insert(x).contains(y) by {
            if s.push(x).contains(y) && y != x {
                let w = choose|w: int| 0 <= w < s.push(x).len() && s.push(x)[w] == y;
                assert(s[w] == y);
            }
            if s.contains(y) {
                let w = choose|w: int| 0 <= w < s.len() && s[w] == y;
                assert(s.push(x)[w] == y);
            }
            if y == x {
                assert(s.push(x)[s.len() as int] == y);
            }
        }
    }
}

/// A session that is not listed is found nowhere, and once appended it is found last.
proof fn lemma_find_id_absent(ids: Seq<SessionId>, s: SessionId)
    requires
        find_id(ids, s) == -1,
    ensures
        forall|i: int| 0 <= i < ids.len() ==> ids[i] != s,
        find_id(ids.push(s), s) == ids.len(),
    decreases ids.len(),
{
    assert(ids.push(s).drop_last() =~= ids);
    if ids.len() > 0 {
        lemma_find_id_absent(ids.drop_last(), s);
        assert forall|i: int| 0 <= i < ids.len() implies ids[i] != s by {
            if i < ids.len() - 1 {
                assert(ids.drop_last()[i] == ids[i]);
            }
        }
    }
}

/// `find_id` gives the position of a listed session.
proof fn lemma_find_id_found(ids: Seq<SessionId>, s: SessionId)
    requires
        find_id(ids, s) != -1,
    ensures
        0 <= find_id(ids, s) < ids.len(),
        ids[find_id(ids, s)] == s,
    decreases ids.len(),
{
    if ids.len() > 0 && ids.last() != s {
        lemma_find_id_found(ids.drop_last(), s);
    }
}


/// A flood sends an item only to sessions that did not know it, each at most once, and
/// afterwards every session knows it; knowledge is never lost by a flood. So while a
/// connection lasts, no hash is flooded to it twice.
pub proof fn lemma_flood_sends_only_unknown(ids: Seq<SessionId>, know: Seq<Set<u64>>, origin: Option<SessionId>, h: u64, n: int)
    requires
        know.len() == ids.len(),
        0 <= n <= ids.len(),
        forall|i: int, j: int| 0 <= i < j < ids.len() ==> ids[i] != ids[j],
    ensures
        ({
            let targets = flood_targets(ids, know, origin, h, n);
            &&& forall|k: int|
                0 <= k < targets.len() ==> exists|i: int|
                    0 <= i < n && ids[i] == #[trigger] targets[k] && !know[i].contains(h)
                        && Some(ids[i]) != origin
            &&& forall|a: int, c: int| 0 <= a < c < targets.len() ==> targets[a] != targets[c]
            &&& forall|k: int| 0 <= k < targets.len() ==> exists|i: int| 0 <= i < n && #[trigger] targets[k] == ids[i]
        }),
        forall|i: int| 0 <= i < know.len() ==> #[trigger] learn_all(know, h)[i].contains(h),
        forall|i: int, x: u64| 0 <= i < know.len() && know[i].contains(x) ==> #[trigger] learn_all(know, h)[i].contains(x),
    decreases n,
{
    if n > 0 {
        lemma_flood_sends_only_unknown(ids, know, origin, h, n - 1);
        let prev = flood_targets(ids, know, origin, h, n - 1);
        let targets = flood_targets(ids, know, origin, h, n);
        if Some(ids[n - 1]) != origin && !know[n - 1].contains(h) {
            assert forall|k: int| 0 <= k < targets.len() implies exists|i: int|
                0 <= i < n && ids[i] == #[trigger] targets[k] && !know[i].contains(h)
                    && Some(ids[i]) != origin by {
                if k < prev.len() {
                    assert(targets[k] == prev[k]);
                } else {
                    assert(targets[k] == ids[n - 1]);
                }
            }
            assert forall|a: int, c: int| 0 <= a < c < targets.len() implies targets[a] != targets[c] by {
                if c == prev.len() {
                    assert(targets[a] == prev[a]);
                    let i = choose|i: int| 0 <= i < n - 1 && #[trigger] prev[a] == ids[i];
                    assert(ids[i] != ids[n - 1]);
                } else {
                    assert(targets[a] == prev[a]);
                    assert(targets[c] == prev[c]);
                }
            }
            assert forall|k: int| 0 <= k < targets.len() implies exists|i: int| 0 <= i < n && #[trigger] targets[k] == ids[i] by {
                if k < prev.len() {
                    assert(targets[k] == prev[k]);
                } else {
                    assert(targets[k] == ids[n - 1]);
                }
            }
        }
    }
}

struct Knowledge {
    id: SessionId,
    blocks: HashSet<BlockHash>,
    transactions: HashSet<TransactionHash>,
}

/// What each connected peer is known to have: the hashes it sent us or we sent it.
pub struct SessionStorage {
    sessions: Vec<Knowledge>,
}

impl SessionStorage {
    /// The connected sessions, in the order they connected.
    pub closed spec fn ids(&self) -> Seq<SessionId> {
        self.sessions@.map_values(|k: Knowledge| k.id)
    }

    /// The block hashes each session knows.
    pub closed spec fn blocks_known(&self) -> Seq<Set<BlockHash>> {
        self.sessions@.map_values(|k: Knowledge| k.blocks@)
    }

    /// The transaction hashes each session knows.
    pub closed spec fn txs_known(&self) -> Seq<Set<TransactionHash>> {
        self.sessions@.map_values(|k: Knowledge| k.transactions@)
    }

    pub open spec fn well_formed(&self) -> bool {
        forall|i: int, j: int| 0 <= i < j < self.ids().len() ==> self.ids()[i] != self.ids()[j]
    }

    pub fn new() -> (r: Self)
        ensures
            r.well_formed(),
            r.ids().len() == 0,
    {
        SessionStorage { sessions: Vec::new() }
    }


    /// Replaces the entry at `i`.
    fn put(&mut self, i: usize, k: Knowledge)
        requires
            i < old(self).ids().len(),
            k.id == old(self).ids()[i as int],
        ensures
            final(self).ids() == old(self).ids(),
            final(self).blocks_known() == old(self).blocks_known().update(i as int, k.blocks@),
            final(self).txs_known() == old(self).txs_known().update(i as int, k.transactions@),
    {
        let ghost s0 = self.sessions@;
        self.sessions.remove(i);
        self.sessions.insert(i, k);
        assert(self.sessions@ =~= s0.update(i as int, k));
        assert(self.ids() =~= s0.map_values(|k: Knowledge| k.id));
        assert(self.blocks_known() =~= s0.map_values(|k: Knowledge| k.blocks@).update(i as int, k.blocks@));
        assert(self.txs_known() =~= s0.map_values(|k: Knowledge| k.transactions@).update(i as int, k.transactions@));
    }

    /// Starts the knowledge of session `s` afresh: it knows the block `block` and the
    /// transactions `txs`.
    fn connect(&mut self, s: SessionId, block: BlockHash, txs: &Vec<TransactionHash>)
        requires
            old(self).well_formed(),
        ensures
            final(self).well_formed(),
            ({
                let i = find_id(old(self).ids(), s);
                let fresh_txs = txs@.to_set();
                if i == -1 {
                    &&& final(self).ids() == old(self).ids().push(s)
                    &&& final(self).blocks_known() == old(self).blocks_known().push(set![block])
                    &&& final(self).txs_known() == old(self).txs_known().push(fresh_txs)
                } else {
                    &&& final(self).ids() == old(self).ids()
                    &&& final(self).blocks_known() == old(self).blocks_known().update(i, set![block])
                    &&& final(self).txs_known() == old(self).txs_known().update(i, fresh_txs)
                }
            }),
    {
        let mut blocks: HashSet<BlockHash> = HashSet::new();
        blocks.insert(block);
        let mut transactions: HashSet<TransactionHash> = HashSet::new();
        let mut j: usize = 0;
        while j < txs.len()
            invariant
                j <= txs@.len(),
                transactions@ == txs@.subrange(0, j as int).to_set(),
            decreases txs@.len() - j,
        {
            transactions.insert(txs[j]);
            proof {
                lemma_to_set_push(txs@.subrange(0, j as int), txs@[j as int]);
                assert(txs@.subrange(0, j + 1) =~= txs@.subrange(0, j as int).push(txs@[j as int]));
            }
            j = j + 1;
        }
        assert(txs@.subrange(0, txs@.len() as int) =~= txs@);
        assert(blocks@ =~= set![block]);
        let k = Knowledge { id: s, blocks, transactions };
        match self.index_of(s) {
            Some(i) => {
                proof {
                    lemma_find_id_found(self.ids(), s);
                }
                self.put(i, k);
            },
            None => {
                let ghost s0 = self.sessions@;
                self.sessions.push(k);
                assert(self.ids() =~= s0.map_values(|k: Knowledge| k.id).push(s));
                assert(self.blocks_known() =~= s0.map_values(|k: Knowledge| k.blocks@).push(set![block]));
                assert(self.txs_known() =~= s0.map_values(|k: Knowledge| k.transactions@).push(txs@.to_set()));
                proof {
                    lemma_find_id_absent(s0.map_values(|k: Knowledge| k.id), s);
                }
            },
        }
    }

    /// Forgets session `s`.
    fn disconnect(&mut self, s: SessionId)
        requires
            old(self).well_formed(),
        ensures
            final(self).well_formed(),
            ({
                let i = find_id(old(self).ids(), s);
                if i == -1 {
                    &&& final(self).ids() == old(self).ids()
                    &&& final(self).blocks_known() == old(self).blocks_known()
                    &&& final(self).txs_known() == old(self).txs_known()
                } else {
                    &&& final(self).ids() == old(self).ids().remove(i)
                    &&& final(self).blocks_known() == old(self).blocks_known().remove(i)
                    &&& final(self).txs_known() == old(self).txs_known().remove(i)
                }
            }),
    {
        match self.index_of(s) {
            Some(i) => {
                let ghost s0 = self.sessions@;
                self.sessions.remove(i);
                assert(self.ids() =~= s0.map_values(|k: Knowledge| k.id).remove(i as int));
                assert(self.blocks_known() =~= s0.map_values(|k: Knowledge| k.blocks@).remove(i as int));
                assert(self.txs_known() =~= s0.map_values(|k: Knowledge| k.transactions@).remove(i as int));
                assert forall|a: int, b: int| 0 <= a < b < self.ids().len() implies self.ids()[a] != self.ids()[b] by {
                    let ids0 = s0.map_values(|k: Knowledge| k.id);
                    let a0 = if a < i { a } else { a + 1 };
                    let b0 = if b < i { b } else { b + 1 };
                    assert(self.ids()[a] == ids0[a0]);
                    assert(self.ids()[b] == ids0[b0]);
                }
            },
            None => {},
        }
    }

    /// Records that session number `i` knows the block `h` or, when `block` is false,
    /// the transaction `h`.
    fn learn(&mut self, i: usize, h: u64, block: bool)
        requires
            i < old(self).ids().len(),
        ensures
            final(self).ids() == old(self).ids(),
            block ==> final(self).blocks_known() == old(self).blocks_known().update(
                i as int,
                old(self).blocks_known()[i as int].insert(h),
            ) && final(self).txs_known() == old(self).txs_known(),
            !block ==> final(self).txs_known() == old(self).txs_known().update(
                i as int,
                old(self).txs_known()[i as int].insert(h),
            ) && final(self).blocks_known() == old(self).blocks_known(),
    {
        let ghost s0 = self.sessions@;
        let mut k = self.sessions.remove(i);
        if block {
            k.blocks.insert(h);
        } else {
            k.transactions.insert(h);
        }
        self.sessions.insert(i, k);
        assert(self.sessions@ =~= s0.update(i as int, k));
        assert(self.ids() =~= s0.map_values(|k: Knowledge| k.id));
        if block {
            assert(self.blocks_known() =~= s0.map_values(|k: Knowledge| k.blocks@).update(i as int, s0[i as int].blocks@.insert(h)));
            assert(self.txs_known() =~= s0.map_values(|k: Knowledge| k.transactions@));
        } else {
            assert(self.txs_known() =~= s0.map_values(|k: Knowledge| k.transactions@).update(i as int, s0[i as int].transactions@.insert(h)));
            assert(self.blocks_known() =~= s0.map_values(|k: Knowledge| k.blocks@));
        }
    }

    /// Every session comes to know `h`; returns the sessions other than `origin` that
    /// did not know it before, which it is to be sent to.
    fn flood(&mut self, origin: Option<SessionId>, h: u64, block: bool) -> (r: Vec<SessionId>)
        ensures
            final(self).ids() == old(self).ids(),
            block ==> r@ == flood_targets(old(self).ids(), old(self).blocks_known(), origin, h, old(self).ids().len() as int)
                && final(self).blocks_known() == learn_all(old(self).blocks_known(), h)
                && final(self).txs_known() == old(self).txs_known(),
            !block ==> r@ == flood_targets(old(self).ids(), old(self).txs_known(), origin, h, old(self).ids().len() as int)
                && final(self).txs_known() == learn_all(old(self).txs_known(), h)
                && final(self).blocks_known() == old(self).blocks_known(),
    {
        let ghost ids = self.ids();
        let ghost know = if block { self.blocks_known() } else { self.txs_known() };
        let ghost other = if block { self.txs_known() } else { self.blocks_known() };
        let mut targets: Vec<SessionId> = Vec::new();
        let mut i: usize = 0;
        while i < self.sessions.len()
            invariant
                i <= self.ids().len(),
                self.ids() == ids,
                know.len() == ids.len(),
                block ==> self.txs_known() == other,
                !block ==> self.blocks_known() == other,
                block ==> self.blocks_known() == learn_all(know, h).subrange(0, i as int) + know.subrange(i as int, know.len() as int),
                !block ==> self.txs_known() == learn_all(know, h).subrange(0, i as int) + know.subrange(i as int, know.len() as int),
                targets@ == flood_targets(ids, know, origin, h, i as int),
            decreases ids.len() - i,
        {
            let id = self.sessions[i].id;
            let knows = if block {
                self.sessions[i].blocks.contains(&h)
            } else {
                self.sessions[i].transactions.contains(&h)
            };
            proof {
                if block {
                    assert(self.blocks_known()[i as int] == know[i as int]);
                } else {
                    assert(self.txs_known()[i as int] == know[i as int]);
                }
            }
            let from_origin = match origin {
                Some(o) => o == id,
                None => false,
            };
            if !from_origin && !knows {
                targets.push(id);
            }
            self.learn(i, h, block);
            i = i + 1;
            proof {
                if block {
                    assert(self.blocks_known() =~= learn_all(know, h).subrange(0, i as int) + know.subrange(i as int, know.len() as int));
                } else {
                    assert(self.txs_known() =~= learn_all(know, h).subrange(0, i as int) + know.subrange(i as int, know.len() as int));
                }
            }
        }
        proof {
            if block {
                assert(self.blocks_known() =~= learn_all(know, h));
            } else {
                assert(self.txs_known() =~= learn_all(know, h));
            }
        }
        targets
    }

    /// The position of session `s`.
    fn index_of(&self, s: SessionId) -> (r: Option<usize>)
        ensures
            r is None <==> find_id(self.ids(), s) == -1,
            r is Some ==> r->Some_0 == find_id(self.ids(), s) && r->Some_0 < self.ids().len(),
    {
        let mut i = self.sessions.len();
        assert(self.ids().subrange(0, i as int) =~= self.ids());
        while i > 0
            invariant
                i <= self.sessions@.len(),
                find_id(self.ids(), s) == find_id(self.ids().subrange(0, i as int), s),
            decreases i,
        {
            assert(self.ids().subrange(0, i as int).drop_last() =~= self.ids().subrange(0, i - 1));
            if self.sessions[i - 1].id == s {
                return Some(i - 1);
            }
            i = i - 1;
        }
        None
    }
}


/// The commands for the peers, and the new mining info when the head moved.
pub struct GossipOutput {
    pub commands: Vec<PeerCommand>,
    pub mining_info: Option<MiningInfo>,
}

/// The mining info for a forest: mine on top of its head, with at most `max_tx` of its
/// pending transactions.
pub open spec fn mining_info_for(info: MiningInfo, f: BlockForest, max_hash: BlockHash, max_tx: nat) -> bool {
    &&& info.block_index == f.head_block().index + 1
    &&& info.prev_hash == f.head_block().hash
    &&& info.max_hash == max_hash
    &&& info.transactions@ == f.pending().take(
        if f.pending().len() < max_tx {
            f.pending().len() as int
        } else {
            max_tx as int
        },
    )
}

/// The effect of `on_connected`.
pub open spec fn connected_effect(
    before: GossipService,
    after: GossipService,
    s: SessionId,
    r: GossipOutput,
) -> bool {
    &&& after.forest() == before.forest()
    &&& r.mining_info is None
    &&& summaries(r.commands@) == seq![(s, Sent::Block(before.forest().head_block().hash))]
        + before.forest().pending().map_values(|t: Transaction| (s, Sent::Transaction(t.hash)))
    &&& ({
        let i = find_id(before.storage().ids(), s);
        let head = set![before.forest().head_block().hash];
        let txs = before.forest().pending().map_values(|t: Transaction| t.hash).to_set();
        if i == -1 {
            &&& after.storage().ids() == before.storage().ids().push(s)
            &&& after.storage().blocks_known() == before.storage().blocks_known().push(head)
            &&& after.storage().txs_known() == before.storage().txs_known().push(txs)
        } else {
            &&& after.storage().ids() == before.storage().ids()
            &&& after.storage().blocks_known() == before.storage().blocks_known().update(i, head)
            &&& after.storage().txs_known() == before.storage().txs_known().update(i, txs)
        }
    })
}

/// The effect of `on_disconnected`.
pub open spec fn disconnected_effect(
    before: GossipService,
    after: GossipService,
    s: SessionId,
    r: GossipOutput,
) -> bool {
    &&& after.forest() == before.forest()
    &&& r.mining_info is None
    &&& summaries(r.commands@) == seq![(s, Sent::Drop)]
    &&& ({
        let i = find_id(before.storage().ids(), s);
        if i == -1 {
            &&& after.storage().ids() == before.storage().ids()
            &&& after.storage().blocks_known() == before.storage().blocks_known()
            &&& after.storage().txs_known() == before.storage().txs_known()
        } else {
            &&& after.storage().ids() == before.storage().ids().remove(i)
            &&& after.storage().blocks_known() == before.storage().blocks_known().remove(i)
            &&& after.storage().txs_known() == before.storage().txs_known().remove(i)
        }
    })
}

/// The effect of `on_block`.
pub open spec fn block_effect(
    before: GossipService,
    after: GossipService,
    s: SessionId,
    b: Block,
    r: GossipOutput,
) -> bool {
    &&& after.storage().ids() == before.storage().ids()
    &&& after.storage().txs_known() == before.storage().txs_known()
    &&& ({
        let f = before.forest();
        let st = before.storage();
        let req = if has_block(f.blocks(), b.prev_hash) {
            Seq::<(SessionId, Sent)>::empty()
        } else {
            seq![(s, Sent::Request(b.prev_hash))]
        };
        if f.admission(b) is None {
            &&& after.forest().blocks() == f.blocks().push(b)
            &&& after.forest().known() == merge_known(f.known(), b.transactions@)
            &&& after.forest().head_block() == if better(b, f.head_block()) { b } else { f.head_block() }
            &&& after.storage().blocks_known() == learn_all(st.blocks_known(), b.hash)
            &&& summaries(r.commands@) == req + sends_to(
                flood_targets(st.ids(), st.blocks_known(), Some(s), b.hash, st.ids().len() as int),
                b.hash,
                true,
            )
            &&& (r.mining_info is Some <==> better(b, f.head_block()) && b.index < u64::MAX)
        } else {
            &&& after.forest().blocks() == f.blocks()
            &&& after.forest().known() == f.known()
            &&& after.forest().head_pos() == f.head_pos()
            &&& after.forest().pending() == f.pending()
            &&& after.storage().blocks_known() == st.blocks_known()
            &&& summaries(r.commands@) == req
            &&& r.mining_info is None
        }
    })
    &&& r.mining_info is Some ==> mining_info_for(r.mining_info->Some_0, after.forest(), before.max_hash(), before.max_tx())
}

/// The effect of `on_transaction`.
pub open spec fn transaction_effect(
    before: GossipService,
    after: GossipService,
    s: SessionId,
    t: Transaction,
    r: GossipOutput,
) -> bool {
    &&& after.storage().ids() == before.storage().ids()
    &&& after.storage().blocks_known() == before.storage().blocks_known()
    &&& after.forest().blocks() == before.forest().blocks()
    &&& after.forest().head_pos() == before.forest().head_pos()
    &&& r.mining_info is None
    &&& ({
        let f = before.forest();
        let st = before.storage();
        let accepted = !crate::block_forest::has_tx(f.known(), t.hash) && t.amount + t.fee
            <= crate::block_forest::balance_of(f.head_balances(), t.sender);
        if accepted {
            &&& after.forest().known() == f.known().push(t)
            &&& after.forest().pending() == f.pending().push(t)
            &&& after.storage().txs_known() == learn_all(st.txs_known(), t.hash)
            &&& summaries(r.commands@) == sends_to(
                flood_targets(st.ids(), st.txs_known(), Some(s), t.hash, st.ids().len() as int),
                t.hash,
                false,
            )
        } else {
            &&& after.forest().known() == f.known()
            &&& after.forest().pending() == f.pending()
            &&& after.storage().txs_known() == st.txs_known()
            &&& r.commands@.len() == 0
        }
    })
}

/// The effect of `on_request`.
pub open spec fn request_effect(
    before: GossipService,
    after: GossipService,
    s: SessionId,
    h: BlockHash,
    r: GossipOutput,
) -> bool {
    &&& after.forest() == before.forest()
    &&& after.storage().ids() == before.storage().ids()
    &&& r.mining_info is None
    &&& ({
        let f = before.forest();
        let st = before.storage();
        let i = find_id(st.ids(), s);
        if has_block(f.blocks(), h) {
            let txs = f.blocks()[f.positions()[h] as int].transactions@;
            &&& summaries(r.commands@) == seq![(s, Sent::Block(h))]
            &&& i != -1 ==> after.storage().blocks_known() == st.blocks_known().update(i, st.blocks_known()[i].insert(h))
                && after.storage().txs_known() == st.txs_known().update(
                i,
                st.txs_known()[i].union(txs.map_values(|t: Transaction| t.hash).to_set()),
            )
            &&& i == -1 ==> after.storage().blocks_known() == st.blocks_known()
                && after.storage().txs_known() == st.txs_known()
        } else {
            &&& r.commands@.len() == 0
            &&& after.storage().blocks_known() == st.blocks_known()
            &&& after.storage().txs_known() == st.txs_known()
        }
    })
}

/// The effect of `handle_mined_block`.
pub open spec fn mined_effect(before: GossipService, after: GossipService, b: Block, r: GossipOutput) -> bool {
    let f = before.forest();
    let st = before.storage();
    &&& after.storage().ids() == st.ids()
    &&& after.storage().txs_known() == st.txs_known()
    &&& if f.admission(b) is None {
        &&& after.forest().blocks() == f.blocks().push(b)
        &&& after.forest().known() == merge_known(f.known(), b.transactions@)
        &&& after.forest().head_block() == if better(b, f.head_block()) { b } else { f.head_block() }
        &&& if better(b, f.head_block()) {
            &&& after.storage().blocks_known() == learn_all(st.blocks_known(), b.hash)
            &&& summaries(r.commands@) == sends_to(
                flood_targets(st.ids(), st.blocks_known(), None, b.hash, st.ids().len() as int),
                b.hash,
                true,
            )
            &&& (r.mining_info is Some <==> b.index < u64::MAX)
        } else {
            &&& after.storage().blocks_known() == st.blocks_known()
            &&& r.commands@.len() == 0
            &&& r.mining_info is None
        }
    } else {
        &&& after.forest().blocks() == f.blocks()
        &&& after.forest().known() == f.known()
        &&& after.forest().head_pos() == f.head_pos()
        &&& after.forest().pending() == f.pending()
        &&& after.storage().blocks_known() == st.blocks_known()
        &&& r.commands@.len() == 0
        &&& r.mining_info is None
    }
    &&& r.mining_info is Some ==> mining_info_for(r.mining_info->Some_0, after.forest(), before.max_hash(), before.max_tx())
}

/// The effect of `handle_event`: that of the handler of its kind.
pub open spec fn event_effect(before: GossipService, after: GossipService, e: PeerEvent, r: GossipOutput) -> bool {
    match e.event_kind {
        PeerEventKind::Connected => connected_effect(before, after, e.session_id, r),
        PeerEventKind::Disconnected => disconnected_effect(before, after, e.session_id, r),
        PeerEventKind::NewMessage(VerifiedPeerMessage::Block(b)) => block_effect(before, after, e.session_id, b, r),
        PeerEventKind::NewMessage(VerifiedPeerMessage::Transaction(t)) => transaction_effect(before, after, e.session_id, t, r),
        PeerEventKind::NewMessage(VerifiedPeerMessage::Request { block_hash }) => request_effect(
            before,
            after,
            e.session_id,
            block_hash,
            r,
        ),
    }
}

pub struct GossipService {
    config: GossipServiceConfig,
    forest: BlockForest,
    storage: SessionStorage,
    max_hash: BlockHash,
    max_tx_per_block: usize,
}

/// Appends a command sending `msg` to `session`.
fn send(cmds: &mut Vec<PeerCommand>, session: SessionId, msg: VerifiedPeerMessage)
    ensures
        summaries(final(cmds)@) == summaries(old(cmds)@).push(
            summary(PeerCommand { session_id: session, command_kind: PeerCommandKind::SendMessage(msg) }),
        ),
{
    let ghost before = cmds@;
    cmds.push(PeerCommand { session_id: session, command_kind: PeerCommandKind::SendMessage(msg) });
    assert(summaries(cmds@) =~= summaries(before).push(
        summary(PeerCommand { session_id: session, command_kind: PeerCommandKind::SendMessage(msg) }),
    ));
}

/// Sends a copy of `b` to each of `targets`.
fn send_block_to(cmds: &mut Vec<PeerCommand>, targets: &Vec<SessionId>, b: &Block)
    ensures
        summaries(final(cmds)@) == summaries(old(cmds)@) + sends_to(targets@, b.hash, true),
{
    let mut k: usize = 0;
    while k < targets.len()
        invariant
            k <= targets@.len(),
            summaries(cmds@) == summaries(old(cmds)@) + sends_to(targets@.subrange(0, k as int), b.hash, true),
        decreases targets@.len() - k,
    {
        let copy = copy_block(b);
        send(cmds, targets[k], VerifiedPeerMessage::Block(copy));
        k = k + 1;
        assert(sends_to(targets@.subrange(0, k as int), b.hash, true) =~= sends_to(targets@.subrange(0, k - 1), b.hash, true).push((targets@[k - 1], Sent::Block(b.hash))));
    }
    assert(targets@.subrange(0, targets@.len() as int) =~= targets@);
}

/// Sends `t` to each of `targets`.
fn send_tx_to(cmds: &mut Vec<PeerCommand>, targets: &Vec<SessionId>, t: Transaction)
    ensures
        summaries(final(cmds)@) == summaries(old(cmds)@) + sends_to(targets@, t.hash, false),
{
    let mut k: usize = 0;
    while k < targets.len()
        invariant
            k <= targets@.len(),
            summaries(cmds@) == summaries(old(cmds)@) + sends_to(targets@.subrange(0, k as int), t.hash, false),
        decreases targets@.len() - k,
    {
        send(cmds, targets[k], VerifiedPeerMessage::Transaction(t));
        k = k + 1;
        assert(sends_to(targets@.subrange(0, k as int), t.hash, false) =~= sends_to(targets@.subrange(0, k - 1), t.hash, false).push((targets@[k - 1], Sent::Transaction(t.hash))));
    }
    assert(targets@.subrange(0, targets@.len() as int) =~= targets@);
}

impl GossipService {
    pub closed spec fn forest(&self) -> BlockForest {
        self.forest
    }

    pub closed spec fn storage(&self) -> SessionStorage {
        self.storage
    }

    pub closed spec fn max_hash(&self) -> BlockHash {
        self.max_hash
    }

    pub closed spec fn max_tx(&self) -> nat {
        self.max_tx_per_block as nat
    }

    pub open spec fn well_formed(&self) -> bool {
        self.forest().well_formed() && self.storage().well_formed()
    }

    /// A node that knows only the genesis block and no peer. Mined blocks are to meet
    /// `max_hash` and carry at most `max_tx_per_block` transactions.
    pub fn new(config: GossipServiceConfig, max_hash: BlockHash, max_tx_per_block: usize) -> (r: Self)
        ensures
            r.well_formed(),
            r.forest().blocks().len() == 1,
            r.storage().ids().len() == 0,
            r.max_hash() == max_hash,
            r.max_tx() == max_tx_per_block,
    {
        GossipService {
            config,
            forest: BlockForest::new(),
            storage: SessionStorage::new(),
            max_hash,
            max_tx_per_block,
        }
    }

    /// The forest, for reading.
    pub fn block_forest(&self) -> (r: &BlockForest)
        ensures
            *r == self.forest(),
    {
        &self.forest
    }

    /// The session storage, for reading.
    pub fn session_storage(&self) -> (r: &SessionStorage)
        ensures
            *r == self.storage(),
    {
        &self.storage
    }

    /// The mining info for the current head.
    pub fn mining_hint(&self) -> (r: Option<MiningInfo>)
        requires
            self.forest().well_formed(),
        ensures
            r is Some <==> self.forest().head_block().index < u64::MAX,
            r is Some ==> mining_info_for(r->Some_0, self.forest(), self.max_hash(), self.max_tx()),
    {
        let head = self.forest.head();
        if head.index == u64::MAX {
            return None;
        }
        let pending = self.forest.pending_transactions();
        let mut txs: Vec<Transaction> = Vec::new();
        let mut i: usize = 0;
        while i < pending.len() && i < self.max_tx_per_block
            invariant
                i <= pending@.len(),
                i <= self.max_tx_per_block,
                txs@ == pending@.take(i as int),
            decreases pending@.len() - i,
        {
            txs.push(pending[i]);
            i = i + 1;
            assert(txs@ =~= pending@.take(i as int));
        }
        Some(MiningInfo { block_index: head.index + 1, prev_hash: head.hash, max_hash: self.max_hash, transactions: txs })
    }


    /// A block mined here. If the forest accepts it and it becomes the head, every
    /// session that does not know it is sent it, and mining moves on to it.
    pub fn handle_mined_block(&mut self, b: Block) -> (r: GossipOutput)
        requires
            old(self).well_formed(),
        ensures
            final(self).well_formed(),
            mined_effect(*old(self), *final(self), b, r),
    {
        let mut cmds: Vec<PeerCommand> = Vec::new();
        let h = b.hash;
        let copy = copy_block(&b);
        let old_head_index = self.forest.head().index;
        let old_head_hash = self.forest.head().hash;
        let moves_head = b.index > old_head_index || (b.index == old_head_index && b.hash < old_head_hash);
        match self.forest.add_block(b) {
            Ok(()) => {
                if moves_head {
                    let targets = self.storage.flood(None, h, true);
                    assert(summaries(cmds@) =~= Seq::<(SessionId, Sent)>::empty());
                    send_block_to(&mut cmds, &targets, &copy);
                    assert(summaries(cmds@) =~= sends_to(targets@, h, true));
                    let mining_info = self.mining_hint();
                    GossipOutput { commands: cmds, mining_info }
                } else {
                    GossipOutput { commands: cmds, mining_info: None }
                }
            },
            Err(_) => GossipOutput { commands: cmds, mining_info: None },
        }
    }

    /// Reacts to an event of the peer layer.
    pub fn handle_event(&mut self, event: PeerEvent) -> (r: GossipOutput)
        requires
            old(self).well_formed(),
        ensures
            final(self).well_formed(),
            event_effect(*old(self), *final(self), event, r),
    {
        let s = event.session_id;
        match event.event_kind {
            PeerEventKind::Connected => self.on_connected(s),
            PeerEventKind::Disconnected => self.on_disconnected(s),
            PeerEventKind::NewMessage(VerifiedPeerMessage::Block(b)) => self.on_block(s, b),
            PeerEventKind::NewMessage(VerifiedPeerMessage::Transaction(t)) => self.on_transaction(s, t),
            PeerEventKind::NewMessage(VerifiedPeerMessage::Request { block_hash }) => self.on_request(s, block_hash),
        }
    }

    /// A peer connected: it is sent the head and every pending transaction, and is known
    /// to have exactly those.
    pub fn on_connected(&mut self, s: SessionId) -> (r: GossipOutput)
        requires
            old(self).well_formed(),
        ensures
            final(self).well_formed(),
            connected_effect(*old(self), *final(self), s, r),

    {
        let mut cmds: Vec<PeerCommand> = Vec::new();
        let head = copy_block(self.forest.head());
        let head_hash = head.hash;
        send(&mut cmds, s, VerifiedPeerMessage::Block(head));
        let pending = self.forest.pending_transactions();
        let mut hashes: Vec<TransactionHash> = Vec::new();
        let mut i: usize = 0;
        while i < pending.len()
            invariant
                i <= pending@.len(),
                pending@ == self.forest().pending(),
                hashes@ == pending@.subrange(0, i as int).map_values(|t: Transaction| t.hash),
                summaries(cmds@) == seq![(s, Sent::Block(head_hash))]
                    + pending@.subrange(0, i as int).map_values(|t: Transaction| (s, Sent::Transaction(t.hash))),
            decreases pending@.len() - i,
        {
            let t = pending[i];
            send(&mut cmds, s, VerifiedPeerMessage::Transaction(t));
            hashes.push(t.hash);
            i = i + 1;
            assert(hashes@ =~= pending@.subrange(0, i as int).map_values(|t: Transaction| t.hash));
            assert(summaries(cmds@) =~= seq![(s, Sent::Block(head_hash))]
                + pending@.subrange(0, i as int).map_values(|t: Transaction| (s, Sent::Transaction(t.hash))));
        }
        assert(pending@.subrange(0, pending@.len() as int) =~= pending@);
        self.storage.connect(s, head_hash, &hashes);
        GossipOutput { commands: cmds, mining_info: None }
    }


    /// A peer offered block `b`. An unknown parent is requested from it first. If the
    /// forest accepts `b`, every session comes to know it and those other than the sender
    /// that did not know it are sent it; a refused block is dropped silently.
    pub fn on_block(&mut self, s: SessionId, b: Block) -> (r: GossipOutput)
        requires
            old(self).well_formed(),
        ensures
            final(self).well_formed(),
            block_effect(*old(self), *final(self), s, b, r),

    {
        let mut cmds: Vec<PeerCommand> = Vec::new();
        let parent = b.prev_hash;
        if self.forest.find_block(&parent).is_none() {
            let ghost before = cmds@;
            cmds.push(PeerCommand {
                session_id: s,
                command_kind: PeerCommandKind::SendMessage(VerifiedPeerMessage::Request { block_hash: parent }),
            });
            assert(summaries(cmds@) =~= seq![(s, Sent::Request(b.prev_hash))]);
        } else {
            assert(summaries(cmds@) =~= Seq::<(SessionId, Sent)>::empty());
        }
        let ghost req = summaries(cmds@);
        let h = b.hash;
        let copy = copy_block(&b);
        let old_head_index = self.forest.head().index;
        let old_head_hash = self.forest.head().hash;
        let moves_head = b.index > old_head_index || (b.index == old_head_index && b.hash < old_head_hash);
        match self.forest.add_block(b) {
            Ok(()) => {
                let targets = self.storage.flood(Some(s), h, true);
                send_block_to(&mut cmds, &targets, &copy);
                let mining_info = if moves_head { self.mining_hint() } else { None };
                GossipOutput { commands: cmds, mining_info }
            },
            Err(_) => GossipOutput { commands: cmds, mining_info: None },
        }
    }

    /// A peer offered transaction `t`. If the forest accepts it, every session comes to
    /// know it and those other than the sender that did not know it are sent it.
    pub fn on_transaction(&mut self, s: SessionId, t: Transaction) -> (r: GossipOutput)
        requires
            old(self).well_formed(),
        ensures
            final(self).well_formed(),
            transaction_effect(*old(self), *final(self), s, t, r),

    {
        let mut cmds: Vec<PeerCommand> = Vec::new();
        match self.forest.add_transaction(t) {
            Ok(()) => {
                let targets = self.storage.flood(Some(s), t.hash, false);
                assert(summaries(cmds@) =~= Seq::<(SessionId, Sent)>::empty());
                send_tx_to(&mut cmds, &targets, t);
                assert(summaries(cmds@) =~= sends_to(targets@, t.hash, false));
            },
            Err(_) => {},
        }
        GossipOutput { commands: cmds, mining_info: None }
    }

    /// A peer asked for block `h`: it is sent back if stored, and the session is known to
    /// have it and its transactions; an unknown hash is ignored.
    pub fn on_request(&mut self, s: SessionId, h: BlockHash) -> (r: GossipOutput)
        requires
            old(self).well_formed(),
        ensures
            final(self).well_formed(),
            request_effect(*old(self), *final(self), s, h, r),

    {
        let mut cmds: Vec<PeerCommand> = Vec::new();
        let found = match self.forest.find_block(&h) {
            Some(block) => Some(copy_block(block)),
            None => None,
        };
        match found {
            None => GossipOutput { commands: cmds, mining_info: None },
            Some(copy) => {
                proof {
                    assert(self.forest().positions().contains_key(h));
                }
                let ghost txs = copy.transactions@;
                assert(summaries(cmds@) =~= Seq::<(SessionId, Sent)>::empty());
                send(&mut cmds, s, VerifiedPeerMessage::Block(copy_block(&copy)));
                assert(summaries(cmds@) =~= seq![(s, Sent::Block(h))]);
                match self.storage.index_of(s) {
                    None => {},
                    Some(i) => {
                        let ghost st = self.storage;
                        self.storage.learn(i, h, true);
                        let ghost base = self.storage.txs_known()[i as int];
                        let mut k: usize = 0;
                        proof {
                            let e = txs.subrange(0, 0).map_values(|t: Transaction| t.hash);
                            assert(e =~= Seq::<u64>::empty());
                            assert(e.to_set() =~= Set::<u64>::empty());
                            assert(base.union(e.to_set()) =~= base);
                            assert(st.txs_known().update(i as int, base.union(e.to_set())) =~= st.txs_known());
                        }
                        while k < copy.transactions.len()
                            invariant
                                k <= txs.len(),
                                txs == copy.transactions@,
                                i < st.ids().len(),
                                self.storage().ids() == st.ids(),
                                self.storage().blocks_known() == st.blocks_known().update(i as int, st.blocks_known()[i as int].insert(h)),
                                self.storage().txs_known() == st.txs_known().update(
                                    i as int,
                                    base.union(txs.subrange(0, k as int).map_values(|t: Transaction| t.hash).to_set()),
                                ),
                                base == st.txs_known()[i as int],
                                self.storage().well_formed(),
                                self.forest() == old(self).forest(),
                                self.forest().well_formed(),
                            decreases txs.len() - k,
                        {
                            let ghost prev = self.storage().txs_known()[i as int];
                            self.storage.learn(i, copy.transactions[k].hash, false);
                            proof {
                                let a = txs.subrange(0, k as int).map_values(|t: Transaction| t.hash);
                                let b2 = txs.subrange(0, k + 1).map_values(|t: Transaction| t.hash);
                                assert(b2 =~= a.push(txs[k as int].hash));
                                lemma_to_set_push(a, txs[k as int].hash);
                                assert(base.union(b2.to_set()) =~= base.union(a.to_set()).insert(txs[k as int].hash));
                                assert(self.storage().txs_known() =~= st.txs_known().update(i as int, base.union(b2.to_set())));
                            }
                            k = k + 1;
                        }
                        assert(txs.subrange(0, txs.len() as int) =~= txs);
                    },
                }
                GossipOutput { commands: cmds, mining_info: None }
            },
        }
    }

    /// A peer went away: it is forgotten and its socket is to be closed.
    pub fn on_disconnected(&mut self, s: SessionId) -> (r: GossipOutput)
        requires
            old(self).well_formed(),
        ensures
            final(self).well_formed(),
            disconnected_effect(*old(self), *final(self), s, r),

    {
        self.storage.disconnect(s);
        let mut cmds: Vec<PeerCommand> = Vec::new();
        cmds.push(PeerCommand { session_id: s, command_kind: PeerCommandKind::Drop });
        assert(summaries(cmds@) =~= seq![(s, Sent::Drop)]);
        GossipOutput { commands: cmds, mining_info: None }
    }
}

} // verus!
