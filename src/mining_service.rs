//! The miner's decisions: which candidate block to try for a nonce, and which found
//! block may leave. The nonce search itself, spread over threads, is run by the caller.
use vstd::prelude::*;
use crate::data::{Block, BlockHash, Transaction, WalletId, MAX_REWARD};

verus! {

pub struct MiningServiceConfig {
    /// Worker threads for the nonce search; zero means one per core.
    pub thread_count: usize,
    pub max_tx_per_block: usize,
    /// The wallet that mined rewards go to.
    pub public_key: WalletId,
}

impl Default for MiningServiceConfig {
    fn default() -> (r: Self)
        ensures
            r.thread_count == 0,
            r.max_tx_per_block == 0,
            r.public_key == 0,
    {
        MiningServiceConfig { thread_count: 0, max_tx_per_block: 0, public_key: 0 }
    }
}

/// What to mine: the index and parent of the next block, the difficulty target and the
/// transactions to include.
#[derive(Clone, Debug)]
pub struct MiningInfo {
    pub block_index: u64,
    pub prev_hash: BlockHash,
    pub max_hash: BlockHash,
    pub transactions: Vec<Transaction>,
}

/// Relies on `rand::random`: a uniformly drawn `u64`; nothing is promised of its value.
#[verifier::external_body]
fn random_u64() -> (r: u64) {
    rand::random::<u64>()
}

/// Relies on `chrono::Utc::now` and `DateTime::timestamp`: the current time in seconds
/// since the epoch; nothing is promised of its value.
#[verifier::external_body]
fn now_timestamp() -> (r: i64) {
    chrono::Utc::now().timestamp()
}

/// The block `b` is one that the search for `info` may emit: it sits where `info` says,
/// claims at most the largest reward, meets the target and carries at most `max_tx` of
/// the offered transactions.
pub open spec fn valid_for(b: Block, info: MiningInfo, max_tx: nat) -> bool {
    &&& b.index == info.block_index
    &&& b.prev_hash == info.prev_hash
    &&& b.max_hash == info.max_hash
    &&& b.reward <= MAX_REWARD
    &&& b.hash <= info.max_hash
    &&& b.transactions@.len() <= max_tx
}


/// A block that the miner emits for the mining info of a head is valid and sits right
/// on top of that head: one index higher, with the head as its parent.
pub proof fn lemma_mined_block_extends_head(b: Block, info: MiningInfo, max_tx: nat, head: Block)
    requires
        valid_for(b, info, max_tx),
        info.block_index == head.index + 1,
        info.prev_hash == head.hash,
    ensures
        b.index == head.index + 1,
        b.prev_hash == head.hash,
        b.hash <= b.max_hash,
        b.reward <= MAX_REWARD,
{
}

pub struct MiningService {
    config: MiningServiceConfig,
    current: Option<MiningInfo>,
    generation: u64,
}

impl MiningService {
    /// The search under way, if any.
    pub closed spec fn current(&self) -> Option<MiningInfo> {
        self.current
    }

    /// How many searches have been started.
    pub closed spec fn generation(&self) -> nat {
        self.generation as nat
    }

    pub closed spec fn max_tx(&self) -> nat {
        self.config.max_tx_per_block as nat
    }

    pub closed spec fn issuer(&self) -> WalletId {
        self.config.public_key
    }

    pub fn new(config: MiningServiceConfig) -> (r: Self)
        ensures
            r.current() is None,
            r.generation() == 0,
            r.max_tx() == config.max_tx_per_block,
            r.issuer() == config.public_key,
    {
        MiningService { config, current: None, generation: 0 }
    }

    /// Another search can be numbered.
    pub fn can_start(&self) -> (r: bool)
        ensures
            r == (self.generation() < u64::MAX),
    {
        self.generation < u64::MAX
    }

    /// Starts a search for `info`, abandoning the one under way. Returns the number of
    /// the new search.
    pub fn start(&mut self, info: MiningInfo) -> (r: u64)
        requires
            old(self).generation() < u64::MAX,
        ensures
            final(self).current() == Some(info),
            final(self).generation() == old(self).generation() + 1,
            r == final(self).generation(),
            final(self).max_tx() == old(self).max_tx(),
            final(self).issuer() == old(self).issuer(),
    {
        self.generation = self.generation + 1;
        self.current = Some(info);
        self.generation
    }

    /// Search number `generation` is still the one under way; a worker stops at the
    /// next batch boundary once it is not.
    pub fn is_current(&self, generation: u64) -> (r: bool)
        ensures
            r == (self.current() is Some && generation == self.generation()),
    {
        self.current.is_some() && generation == self.generation
    }

    /// The block to try with `nonce` in the search under way: its attributes from the
    /// mining info and the configuration, a random reward capped at the largest one, the
    /// current time, and the hash still to be computed (left at `u64::MAX`).
    pub fn candidate(&self, nonce: u64) -> (r: Option<Block>)
        ensures
            self.current() is None ==> r is None,
            self.current() is Some ==> {
                let info = self.current()->Some_0;
                let b = r->Some_0;
                &&& r is Some
                &&& b.index == info.block_index
                &&& b.prev_hash == info.prev_hash
                &&& b.max_hash == info.max_hash
                &&& b.nonce == nonce
                &&& b.issuer == self.issuer()
                &&& b.reward <= MAX_REWARD
                &&& b.hash == u64::MAX
                &&& b.transactions@ == info.transactions@.take(
                    if info.transactions@.len() < self.max_tx() {
                        info.transactions@.len() as int
                    } else {
                        self.max_tx() as int
                    },
                )
            },
    {
        match &self.current {
            None => None,
            Some(info) => {
                let drawn = random_u64();
                let reward = if drawn > MAX_REWARD { MAX_REWARD } else { drawn };
                let mut txs: Vec<Transaction> = Vec::new();
                let mut i: usize = 0;
                while i < info.transactions.len() && i < self.config.max_tx_per_block
                    invariant
                        i <= info.transactions@.len(),
                        i <= self.config.max_tx_per_block,
                        txs@ == info.transactions@.take(i as int),
                    decreases info.transactions@.len() - i,
                {
                    txs.push(info.transactions[i]);
                    i = i + 1;
                    assert(txs@ =~= info.transactions@.take(i as int));
                }
                Some(
                    Block {
                        index: info.block_index,
                        reward,
                        nonce,
                        timestamp: now_timestamp(),
                        issuer: self.config.public_key,
                        max_hash: info.max_hash,
                        prev_hash: info.prev_hash,
                        hash: u64::MAX,
                        transactions: txs,
                    },
                )
            },
        }
    }

    /// Takes a candidate of search `generation` whose content hash is `hash`. It is
    /// emitted, and the search ends, when the search is still under way and the block is
    /// valid for it; anything else is dropped.
    pub fn submit(&mut self, generation: u64, block: Block, hash: BlockHash) -> (r: Option<Block>)
        ensures
            final(self).generation() == old(self).generation(),
            final(self).max_tx() == old(self).max_tx(),
            final(self).issuer() == old(self).issuer(),
            ({
                let ok = old(self).current() is Some && generation == old(self).generation()
                    && valid_for(
                    Block { hash, ..block },
                    old(self).current()->Some_0,
                    old(self).max_tx(),
                );
                &&& r is Some <==> ok
                &&& ok ==> final(self).current() is None
                &&& !ok ==> final(self).current() == old(self).current()
            }),
            r is Some ==> r->Some_0.hash == hash && r->Some_0.index == block.index
                && r->Some_0.prev_hash == block.prev_hash && r->Some_0.reward == block.reward
                && r->Some_0.transactions@ == block.transactions@,
            r is Some ==> valid_for(r->Some_0, old(self).current()->Some_0, old(self).max_tx()),
    {
        let mut block = block;
        block.hash = hash;
        let ok = match &self.current {
            None => false,
            Some(info) => {
                generation == self.generation && block.index == info.block_index && block.prev_hash
                    == info.prev_hash && block.max_hash == info.max_hash && block.reward
                    <= MAX_REWARD && block.hash <= info.max_hash && block.transactions.len()
                    <= self.config.max_tx_per_block
            },
        };
        if ok {
            self.current = None;
            Some(block)
        } else {
            None
        }
    }
}

} // verus!
