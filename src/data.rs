//! The node's domain values: wallets, transactions and blocks.
//!
//! Hashes and wallet ids are content-addressed identifiers computed outside the library
//! (by the signing and hashing primitives); here they are fixed-width numbers, compared
//! and ordered numerically.
use vstd::prelude::*;

verus! {

pub type BlockHash = u64;

pub type TransactionHash = u64;

pub type WalletId = u64;

/// The largest reward that a block may grant its issuer.
pub const MAX_REWARD: u64 = 10000;

/// The hash of the genesis block, the root of every chain.
pub const GENESIS_HASH: BlockHash = 0;

/// A verified transaction: `sender` pays `amount` to `receiver` and `fee` to the issuer
/// of the block that includes it.
#[derive(Clone, Copy, Debug, PartialEq, Eq, Structural)]
pub struct Transaction {
    pub sender: WalletId,
    pub receiver: WalletId,
    pub amount: u64,
    pub fee: u64,
    pub timestamp: i64,
    pub signature: u64,
    pub hash: TransactionHash,
}

/// A verified block: its attributes, its content hash and its transactions in order.
#[derive(Clone, Debug)]
pub struct Block {
    pub index: u64,
    pub reward: u64,
    pub nonce: u64,
    pub timestamp: i64,
    pub issuer: WalletId,
    pub max_hash: BlockHash,
    pub prev_hash: BlockHash,
    pub hash: BlockHash,
    pub transactions: Vec<Transaction>,
}

/// The genesis block.
pub fn genesis() -> (r: Block)
    ensures
        r.index == 0,
        r.hash == GENESIS_HASH,
        r.prev_hash == GENESIS_HASH,
        r.reward == 0,
        r.transactions@.len() == 0,
{
    Block {
        index: 0,
        reward: 0,
        nonce: 0,
        timestamp: 0,
        issuer: 0,
        max_hash: u64::MAX,
        prev_hash: GENESIS_HASH,
        hash: GENESIS_HASH,
        transactions: Vec::new(),
    }
}

/// Copies a block, transactions included.
pub fn copy_block(b: &Block) -> (r: Block)
    ensures
        r.index == b.index,
        r.reward == b.reward,
        r.nonce == b.nonce,
        r.timestamp == b.timestamp,
        r.issuer == b.issuer,
        r.max_hash == b.max_hash,
        r.prev_hash == b.prev_hash,
        r.hash == b.hash,
        r.transactions@ == b.transactions@,
{
    let mut txs: Vec<Transaction> = Vec::new();
    let mut i: usize = 0;
    while i < b.transactions.len()
        invariant
            i <= b.transactions@.len(),
            txs@ == b.transactions@.subrange(0, i as int),
        decreases b.transactions@.len() - i,
    {
        txs.push(b.transactions[i]);
        i = i + 1;
    }
    assert(txs@ =~= b.transactions@);
    Block {
        index: b.index,
        reward: b.reward,
        nonce: b.nonce,
        timestamp: b.timestamp,
        issuer: b.issuer,
        max_hash: b.max_hash,
        prev_hash: b.prev_hash,
        hash: b.hash,
        transactions: txs,
    }
}

} // verus!
