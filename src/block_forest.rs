//! The block forest: every accepted block, the chain of the best head, the wallet
//! balances along each chain and the pool of pending transactions.
use vstd::prelude::*;
use std::collections::HashMap;
use crate::data::{Block, BlockHash, Transaction, WalletId, MAX_REWARD, GENESIS_HASH, genesis};

verus! {

broadcast use vstd::std_specs::hash::group_hash_axioms;

/// Why a block or a transaction was refused.
#[derive(Clone, Copy, Debug, PartialEq, Eq, Structural)]
pub enum ForestError {
    /// A block with this hash is already stored.
    DuplicateBlock,
    /// The block's parent is not stored.
    UnknownParent,
    /// The block's index is not one more than its parent's.
    WrongIndex,
    /// The block's hash is above its difficulty target.
    HashAboveTarget,
    /// The block grants more than the largest reward.
    RewardTooLarge,
    /// A transaction occurs twice in the block.
    DoubleSpend,
    /// A transaction spends more than its sender has, or a balance would overflow.
    InsufficientBalance,
    /// The transaction is already known.
    DuplicateTransaction,
}

/// The balance of `w` in `m`; wallets never credited hold nothing.
pub open spec fn balance_of(m: Map<WalletId, u64>, w: WalletId) -> int {
    if m.contains_key(w) {
        m[w] as int
    } else {
        0
    }
}

/// `m` with `delta` added to the balance of `w`.
pub open spec fn credit(m: Map<WalletId, u64>, w: WalletId, delta: int) -> Map<WalletId, u64> {
    m.insert(w, (balance_of(m, w) + delta) as u64)
}

/// The balances after `t` in a block issued by `issuer`, or `None` when the sender
/// cannot pay the amount and the fee, or a balance would leave `u64`.
pub open spec fn apply_tx(m: Map<WalletId, u64>, t: Transaction, issuer: WalletId) -> Option<
    Map<WalletId, u64>,
> {
    let cost = t.amount + t.fee;
    if balance_of(m, t.sender) < cost {
        None
    } else {
        let m1 = credit(m, t.sender, -cost);
        if balance_of(m1, t.receiver) + t.amount > u64::MAX {
            None
        } else {
            let m2 = credit(m1, t.receiver, t.amount as int);
            if balance_of(m2, issuer) + t.fee > u64::MAX {
                None
            } else {
                Some(credit(m2, issuer, t.fee as int))
            }
        }
    }
}

/// The balances after the transactions `txs`, in order.
pub open spec fn apply_txs(m: Map<WalletId, u64>, txs: Seq<Transaction>, issuer: WalletId) -> Option<
    Map<WalletId, u64>,
>
    decreases txs.len(),
{
    if txs.len() == 0 {
        Some(m)
    } else {
        match apply_txs(m, txs.drop_last(), issuer) {
            None => None,
            Some(m1) => apply_tx(m1, txs.last(), issuer),
        }
    }
}

/// The balances after block `b` on top of balances `m`: its transactions, then its reward.
pub open spec fn apply_block(m: Map<WalletId, u64>, b: Block) -> Option<Map<WalletId, u64>> {
    match apply_txs(m, b.transactions@, b.issuer) {
        None => None,
        Some(m1) => if balance_of(m1, b.issuer) + b.reward > u64::MAX {
            None
        } else {
            Some(credit(m1, b.issuer, b.reward as int))
        },
    }
}

/// Block `a` is a better head than block `b`: higher, or as high with a smaller hash.
pub open spec fn better(a: Block, b: Block) -> bool {
    a.index > b.index || (a.index == b.index && a.hash < b.hash)
}

/// Some block of `blocks` has hash `h`.
pub open spec fn has_block(blocks: Seq<Block>, h: BlockHash) -> bool {
    exists|i: int| 0 <= i < blocks.len() && blocks[i].hash == h
}

/// No two transactions of `txs` share a hash.
pub open spec fn distinct_tx_hashes(txs: Seq<Transaction>) -> bool {
    forall|i: int, j: int| 0 <= i < j < txs.len() ==> txs[i].hash != txs[j].hash
}

/// Some transaction of `txs` has hash `h`.
pub open spec fn has_tx(txs: Seq<Transaction>, h: u64) -> bool {
    exists|i: int| 0 <= i < txs.len() && txs[i].hash == h
}


/// `known` followed by those of `txs` whose hash it does not hold yet, in order.
pub open spec fn merge_known(known: Seq<Transaction>, txs: Seq<Transaction>) -> Seq<Transaction>
    decreases txs.len(),
{
    if txs.len() == 0 {
        known
    } else {
        let k = merge_known(known, txs.drop_last());
        if has_tx(k, txs.last().hash) {
            k
        } else {
            k.push(txs.last())
        }
    }
}

/// If a prefix of the transactions cannot be applied, neither can all of them.
proof fn lemma_apply_txs_prefix_fails(m: Map<WalletId, u64>, txs: Seq<Transaction>, issuer: WalletId, k: int)
    requires
        0 <= k <= txs.len(),
        apply_txs(m, txs.subrange(0, k), issuer) is None,
    ensures
        apply_txs(m, txs, issuer) is None,
    decreases txs.len() - k,
{
    if k < txs.len() {
        assert(txs.subrange(0, k + 1).drop_last() =~= txs.subrange(0, k));
        lemma_apply_txs_prefix_fails(m, txs, issuer, k + 1);
    } else {
        assert(txs.subrange(0, k) =~= txs);
    }
}

/// Merging keeps every transaction already known and adds those of `txs`, each once.
proof fn lemma_merge_known(known: Seq<Transaction>, txs: Seq<Transaction>)
    requires
        distinct_tx_hashes(known),
    ensures
        distinct_tx_hashes(merge_known(known, txs)),
        merge_known(known, txs).len() >= known.len(),
        merge_known(known, txs).subrange(0, known.len() as int) == known,
        forall|h: u64| has_tx(known, h) ==> has_tx(merge_known(known, txs), h),
        forall|j: int| 0 <= j < txs.len() ==> has_tx(merge_known(known, txs), #[trigger] txs[j].hash),
        forall|h: u64| has_tx(merge_known(known, txs), h) ==> has_tx(known, h) || has_tx(txs, h),
    decreases txs.len(),
{
    if txs.len() > 0 {
        let prev = merge_known(known, txs.drop_last());
        lemma_merge_known(known, txs.drop_last());
        assert forall|j: int| 0 <= j < txs.len() implies has_tx(merge_known(known, txs), #[trigger] txs[j].hash) by {
            if j < txs.len() - 1 {
                assert(txs.drop_last()[j] == txs[j]);
                let w = choose|w: int| 0 <= w < prev.len() && prev[w].hash == txs[j].hash;
                if !has_tx(prev, txs.last().hash) {
                    assert(prev.push(txs.last())[w] == prev[w]);
                }
            } else {
                if !has_tx(prev, txs.last().hash) {
                    assert(prev.push(txs.last())[prev.len() as int] == txs.last());
                }
            }
        }
        assert forall|h: u64| has_tx(known, h) implies has_tx(merge_known(known, txs), h) by {
            let w = choose|w: int| 0 <= w < prev.len() && prev[w].hash == h;
            if !has_tx(prev, txs.last().hash) {
                assert(prev.push(txs.last())[w] == prev[w]);
            }
        }
        assert forall|h: u64| has_tx(merge_known(known, txs), h) implies has_tx(known, h) || has_tx(txs, h) by {
            let cur = merge_known(known, txs);
            let w = choose|w: int| 0 <= w < cur.len() && cur[w].hash == h;
            if w < prev.len() {
                assert(cur[w] == prev[w]);
                assert(has_tx(prev, h));
                if has_tx(txs.drop_last(), h) {
                    let v = choose|v: int| 0 <= v < txs.drop_last().len() && txs.drop_last()[v].hash == h;
                    assert(txs[v] == txs.drop_last()[v]);
                }
            } else {
                assert(cur[w] == txs.last());
                assert(txs[txs.len() - 1].hash == h);
            }
        }
        if !has_tx(prev, txs.last().hash) {
            assert(merge_known(known, txs).subrange(0, known.len() as int) =~= prev.subrange(0, known.len() as int));
        }
    } else {
        assert(known.subrange(0, known.len() as int) =~= known);
    }
}


/// `v` holds `x`.
fn contains_u64(v: &Vec<u64>, x: u64) -> (r: bool)
    ensures
        r == v@.contains(x),
{
    let mut k: usize = 0;
    while k < v.len()
        invariant
            k <= v@.len(),
            forall|j: int| 0 <= j < k ==> v@[j] != x,
        decreases v@.len() - k,
    {
        if v[k] == x {
            return true;
        }
        k = k + 1;
    }
    false
}

proof fn lemma_contains_hashes(before: Seq<u64>, txs: Seq<Transaction>, h: u64)
    ensures
        (before + txs.map_values(|t: Transaction| t.hash)).contains(h) <==> before.contains(h)
            || has_tx(txs, h),
{
    let all = before + txs.map_values(|t: Transaction| t.hash);
    if before.contains(h) {
        let w = choose|w: int| 0 <= w < before.len() && before[w] == h;
        assert(all[w] == h);
    }
    if has_tx(txs, h) {
        let w = choose|w: int| 0 <= w < txs.len() && txs[w].hash == h;
        assert(all[before.len() + w] == h);
    }
    if all.contains(h) && !before.contains(h) {
        let w = choose|w: int| 0 <= w < all.len() && all[w] == h;
        if w < before.len() {
            assert(before[w] == h);
        } else {
            assert(txs[w - before.len()].hash == h);
        }
    }
}

proof fn lemma_contains_push(s: Seq<u64>, x: u64, h: u64)
    ensures
        s.push(x).contains(h) <==> s.contains(h) || x == h,
{
    if s.contains(h) {
        let w = choose|w: int| 0 <= w < s.len() && s[w] == h;
        assert(s.push(x)[w] == h);
    }
    if x == h {
        assert(s.push(x)[s.len() as int] == h);
    }
    if s.push(x).contains(h) && x != h {
        let w = choose|w: int| 0 <= w < s.push(x).len() && s.push(x)[w] == h;
        assert(s[w] == h);
    }
}

proof fn lemma_has_tx_extend(txs: Seq<Transaction>, j: int, h: u64)
    requires
        0 <= j < txs.len(),
    ensures
        has_tx(txs.subrange(0, j + 1), h) <==> has_tx(txs.subrange(0, j), h) || txs[j].hash == h,
{
    let a = txs.subrange(0, j);
    let b = txs.subrange(0, j + 1);
    if has_tx(a, h) {
        let w = choose|w: int| 0 <= w < a.len() && a[w].hash == h;
        assert(b[w] == a[w]);
    }
    if txs[j].hash == h {
        assert(b[j] == txs[j]);
    }
    if has_tx(b, h) && txs[j].hash != h {
        let w = choose|w: int| 0 <= w < b.len() && b[w].hash == h;
        assert(a[w] == b[w]);
    }
}


/// The balance of `w` in `m`.
fn get_balance(m: &HashMap<WalletId, u64>, w: WalletId) -> (r: u64)
    ensures
        r == balance_of(m@, w),
{
    match m.get(&w) {
        Some(v) => *v,
        None => 0,
    }
}

/// Applies `t` to the balances `m`; on failure `m` is left in an unspecified state.
fn apply_tx_exec(m: &mut HashMap<WalletId, u64>, t: &Transaction, issuer: WalletId) -> (ok: bool)
    ensures
        ok == apply_tx(old(m)@, *t, issuer) is Some,
        ok ==> apply_tx(old(m)@, *t, issuer) == Some(final(m)@),
{
    let from = get_balance(m, t.sender);
    if t.amount > from || t.fee > from - t.amount {
        return false;
    }
    m.insert(t.sender, from - t.amount - t.fee);
    let to = get_balance(m, t.receiver);
    if to > u64::MAX - t.amount {
        return false;
    }
    m.insert(t.receiver, to + t.amount);
    let gain = get_balance(m, issuer);
    if gain > u64::MAX - t.fee {
        return false;
    }
    m.insert(issuer, gain + t.fee);
    true
}

/// The balances after block `b` on top of `parent`, if it can be applied.
fn replay_block(parent: &HashMap<WalletId, u64>, b: &Block) -> (r: Option<HashMap<WalletId, u64>>)
    ensures
        r is Some <==> apply_block(parent@, *b) is Some,
        r is Some ==> apply_block(parent@, *b) == Some(r->Some_0@),
{
    let mut m = parent.clone();
    let mut k: usize = 0;
    while k < b.transactions.len()
        invariant
            k <= b.transactions@.len(),
            apply_txs(parent@, b.transactions@.subrange(0, k as int), b.issuer) == Some(m@),
        decreases b.transactions@.len() - k,
    {
        let ghost before = m@;
        let ok = apply_tx_exec(&mut m, &b.transactions[k], b.issuer);
        assert(b.transactions@.subrange(0, k + 1).drop_last() =~= b.transactions@.subrange(0, k as int));
        if !ok {
            proof {
                lemma_apply_txs_prefix_fails(parent@, b.transactions@, b.issuer, k + 1);
            }
            return None;
        }
        k = k + 1;
    }
    assert(b.transactions@.subrange(0, b.transactions@.len() as int) =~= b.transactions@);
    let gain = get_balance(&m, b.issuer);
    if gain > u64::MAX - b.reward {
        return None;
    }
    m.insert(b.issuer, gain + b.reward);
    Some(m)
}

/// No two transactions of `txs` share a hash.
fn has_distinct_hashes(txs: &Vec<Transaction>) -> (r: bool)
    ensures
        r == distinct_tx_hashes(txs@),
{
    let mut i: usize = 0;
    while i < txs.len()
        invariant
            i <= txs@.len(),
            forall|a: int, c: int| 0 <= a < c < txs@.len() && a < i ==> txs@[a].hash != txs@[c].hash,
        decreases txs@.len() - i,
    {
        let mut j: usize = i + 1;
        while j < txs.len()
            invariant
                i < txs@.len(),
                i + 1 <= j <= txs@.len(),
                forall|a: int, c: int| 0 <= a < c < txs@.len() && a < i ==> txs@[a].hash != txs@[c].hash,
                forall|c: int| i < c < j ==> txs@[i as int].hash != txs@[c].hash,
            decreases txs@.len() - j,
        {
            if txs[i].hash == txs[j].hash {
                return false;
            }
            j = j + 1;
        }
        i = i + 1;
    }
    true
}

/// Some transaction of `txs` has hash `h`.
fn find_tx(txs: &Vec<Transaction>, h: u64) -> (r: bool)
    ensures
        r == has_tx(txs@, h),
{
    let mut i: usize = 0;
    while i < txs.len()
        invariant
            i <= txs@.len(),
            forall|j: int| 0 <= j < i ==> txs@[j].hash != h,
        decreases txs@.len() - i,
    {
        if txs[i].hash == h {
            return true;
        }
        i = i + 1;
    }
    false
}

pub struct BlockForest {
    blocks: Vec<Block>,
    parents: Vec<usize>,
    balances: Vec<HashMap<WalletId, u64>>,
    by_hash: HashMap<BlockHash, usize>,
    head: usize,
    known: Vec<Transaction>,
    pending: Vec<Transaction>,
}

impl BlockForest {
    /// The stored blocks, in the order they were accepted; the genesis block first.
    pub closed spec fn blocks(&self) -> Seq<Block> {
        self.blocks@
    }

    /// The position of each block's parent in `blocks()`.
    pub closed spec fn parents(&self) -> Seq<usize> {
        self.parents@
    }

    /// The balances after each block.
    pub closed spec fn balances(&self) -> Seq<Map<WalletId, u64>> {
        self.balances@.map_values(|m: HashMap<WalletId, u64>| m@)
    }

    /// Where each stored hash sits in `blocks()`.
    pub closed spec fn positions(&self) -> Map<BlockHash, usize> {
        self.by_hash@
    }

    /// The position of the head in `blocks()`.
    pub closed spec fn head_pos(&self) -> int {
        self.head as int
    }

    /// Every transaction the forest has seen, each once.
    pub closed spec fn known(&self) -> Seq<Transaction> {
        self.known@
    }

    /// The pending transactions, in the order they became known.
    pub closed spec fn pending(&self) -> Seq<Transaction> {
        self.pending@
    }

    /// The block at the head.
    pub open spec fn head_block(&self) -> Block {
        self.blocks()[self.head_pos()]
    }

    /// The balances at the head.
    pub open spec fn head_balances(&self) -> Map<WalletId, u64> {
        self.balances()[self.head_pos()]
    }

    /// Transaction `h` is included in block `i` or one of its ancestors.
    pub open spec fn on_chain(&self, i: int, h: u64) -> bool
        decreases i,
    {
        if i < 0 || i >= self.blocks().len() {
            false
        } else if has_tx(self.blocks()[i].transactions@, h) {
            true
        } else if 0 < i && self.parents()[i] < i {
            self.on_chain(self.parents()[i] as int, h)
        } else {
            false
        }
    }

    /// `t` belongs in the pending pool: it is not on the head's chain and its sender
    /// can pay for it at the head.
    pub open spec fn is_pending(&self, t: Transaction) -> bool {
        &&& !self.on_chain(self.head_pos(), t.hash)
        &&& t.amount + t.fee <= balance_of(self.head_balances(), t.sender)
    }

    pub open spec fn well_formed(&self) -> bool {
        let blocks = self.blocks();
        &&& blocks.len() >= 1
        &&& self.parents().len() == blocks.len()
        &&& self.balances().len() == blocks.len()
        &&& blocks[0].index == 0
        &&& blocks[0].hash == GENESIS_HASH
        &&& self.balances()[0] == Map::<WalletId, u64>::empty()
        &&& forall|i: int, j: int|
            0 <= i < j < blocks.len() ==> #[trigger] blocks[i].hash != #[trigger] blocks[j].hash
        &&& forall|i: int|
            0 < i < blocks.len() ==> {
                let p = #[trigger] self.parents()[i] as int;
                &&& p < i
                &&& blocks[p].hash == blocks[i].prev_hash
                &&& blocks[i].index == blocks[p].index + 1
                &&& apply_block(self.balances()[p], blocks[i]) == Some(self.balances()[i])
            }
        &&& forall|h: BlockHash| #[trigger] self.positions().contains_key(h) <==> has_block(blocks, h)
        &&& forall|h: BlockHash|
            #[trigger] self.positions().contains_key(h) ==> self.positions()[h] < blocks.len()
                && blocks[self.positions()[h] as int].hash == h
        &&& 0 <= self.head_pos() < blocks.len()
        &&& forall|i: int| 0 <= i < blocks.len() ==> !better(#[trigger] blocks[i], self.head_block())
        &&& distinct_tx_hashes(self.known())
        &&& forall|i: int, j: int|
            0 <= i < blocks.len() && 0 <= j < blocks[i].transactions@.len() ==> has_tx(
                self.known(),
                #[trigger] blocks[i].transactions@[j].hash,
            )
        &&& self.pending() == self.known().filter(|t: Transaction| self.is_pending(t))
    }


    /// What keeps `add_block` from accepting `b`, checked in this order; `None` when
    /// nothing does.
    pub open spec fn admission(&self, b: Block) -> Option<ForestError> {
        if has_block(self.blocks(), b.hash) {
            Some(ForestError::DuplicateBlock)
        } else if !has_block(self.blocks(), b.prev_hash) {
            Some(ForestError::UnknownParent)
        } else {
            let p = self.positions()[b.prev_hash] as int;
            if b.index != self.blocks()[p].index + 1 {
                Some(ForestError::WrongIndex)
            } else if b.hash > b.max_hash {
                Some(ForestError::HashAboveTarget)
            } else if b.reward > MAX_REWARD {
                Some(ForestError::RewardTooLarge)
            } else if !distinct_tx_hashes(b.transactions@) {
                Some(ForestError::DoubleSpend)
            } else if apply_block(self.balances()[p], b) is None {
                Some(ForestError::InsufficientBalance)
            } else {
                None
            }
        }
    }

    /// The block with hash `h`, if it is stored.
    pub fn find_block(&self, h: &BlockHash) -> (r: Option<&Block>)
        requires
            self.well_formed(),
        ensures
            r is Some <==> has_block(self.blocks(), *h),
            forall|i: int| 0 <= i < self.blocks().len() && self.blocks()[i].hash == *h ==> r == Some(
                &self.blocks()[i],
            ),
    {
        match self.by_hash.get(h) {
            Some(i) => {
                let i = *i;
                assert(self.positions().contains_key(*h));
                assert(self.positions()[*h] == i);
                Some(&self.blocks[i])
            },
            None => {
                assert(!self.positions().contains_key(*h));
                None
            },
        }
    }

    /// The best block: the highest, the one with the smallest hash among equals.
    pub fn head(&self) -> (r: &Block)
        requires
            self.well_formed(),
        ensures
            *r == self.head_block(),
    {
        &self.blocks[self.head]
    }

    pub fn pending_transactions(&self) -> (r: &[Transaction])
        ensures
            r@ == self.pending(),
    {
        self.pending.as_slice()
    }

    /// The balance of `w` after block `i`.
    fn balance_at(&self, i: usize, w: WalletId) -> (r: u64)
        requires
            i < self.balances().len(),
            self.balances@.len() == self.balances().len(),
        ensures
            r == balance_of(self.balances()[i as int], w),
    {
        match self.balances[i].get(&w) {
            Some(v) => *v,
            None => 0,
        }
    }

    /// The balance of `w` at the head.
    pub fn balance(&self, w: WalletId) -> (r: u64)
        requires
            self.well_formed(),
        ensures
            r == balance_of(self.head_balances(), w),
    {
        self.balance_at(self.head, w)
    }

    /// The parent links point backwards.
    pub open spec fn links_ok(&self) -> bool {
        &&& self.parents().len() == self.blocks().len()
        &&& forall|i: int| 0 < i < self.blocks().len() ==> #[trigger] self.parents()[i] < i
    }

    /// The hashes of the transactions on the chain that ends at block `from`.
    fn chain_hashes(&self, from: usize) -> (r: Vec<u64>)
        requires
            self.links_ok(),
            from < self.blocks().len(),
        ensures
            forall|h: u64| r@.contains(h) <==> self.on_chain(from as int, h),
    {
        let mut acc: Vec<u64> = Vec::new();
        let mut cur = from;
        loop
            invariant
                self.links_ok(),
                cur < self.blocks().len(),
                forall|h: u64| (acc@.contains(h) || self.on_chain(cur as int, h)) <==> self.on_chain(from as int, h),
            decreases cur,
        {
            let txs = &self.blocks[cur].transactions;
            let ghost before = acc@;
            let mut j: usize = 0;
            while j < txs.len()
                invariant
                    j <= txs@.len(),
                    acc@ == before + txs@.subrange(0, j as int).map_values(|t: Transaction| t.hash),
                decreases txs@.len() - j,
            {
                acc.push(txs[j].hash);
                j = j + 1;
                assert(acc@ =~= before + txs@.subrange(0, j as int).map_values(|t: Transaction| t.hash));
            }
            assert(txs@.subrange(0, txs@.len() as int) =~= txs@);
            let ghost old_cur = cur as int;
            let ghost txs0 = self.blocks()[old_cur].transactions@;
            if cur == 0 {
                proof {
                    assert forall|h: u64| acc@.contains(h) <==> self.on_chain(from as int, h) by {
                        assert((before.contains(h) || self.on_chain(old_cur, h)) <==> self.on_chain(from as int, h));
                        lemma_contains_hashes(before, txs0, h);
                        assert(self.on_chain(old_cur, h) == has_tx(txs0, h));
                    }
                }
                return acc;
            }
            let next = self.parents[cur];
            proof {
                assert forall|h: u64| (acc@.contains(h) || self.on_chain(next as int, h)) <==> self.on_chain(from as int, h) by {
                    assert((before.contains(h) || self.on_chain(old_cur, h)) <==> self.on_chain(from as int, h));
                    lemma_contains_hashes(before, txs0, h);
                    assert(self.on_chain(old_cur, h) == (has_tx(txs0, h) || self.on_chain(next as int, h)));
                }
            }
            cur = next;
        }
    }

    /// The known transactions that belong in the pending pool, in order.
    fn compute_pending(&self) -> (r: Vec<Transaction>)
        requires
            self.links_ok(),
            0 <= self.head_pos() < self.blocks().len(),
            self.balances().len() == self.blocks().len(),
        ensures
            r@ == self.known().filter(|t: Transaction| self.is_pending(t)),
    {
        let chain = self.chain_hashes(self.head);
        let mut out: Vec<Transaction> = Vec::new();
        let mut i: usize = 0;
        while i < self.known.len()
            invariant
                i <= self.known().len(),
                forall|h: u64| chain@.contains(h) <==> self.on_chain(self.head_pos(), h),
                self.balances().len() == self.blocks().len(),
                0 <= self.head_pos() < self.blocks().len(),
                out@ == self.known().subrange(0, i as int).filter(|t: Transaction| self.is_pending(t)),
            decreases self.known().len() - i,
        {
            let t = self.known[i];
            let on_chain = contains_u64(&chain, t.hash);
            let bal = self.balance_at(self.head, t.sender);
            let affordable = t.amount <= bal && t.fee <= bal - t.amount;
            proof {
                self.known().subrange(0, i as int).lemma_filter_push(t, |t: Transaction| self.is_pending(t));
                assert(self.known().subrange(0, i as int).push(t) =~= self.known().subrange(0, i + 1));
            }
            if !on_chain && affordable {
                out.push(t);
            }
            i = i + 1;
        }
        assert(self.known().subrange(0, self.known().len() as int) =~= self.known());
        out
    }


    /// Every transaction on a stored chain is known.
    proof fn lemma_on_chain_known(&self, i: int, h: u64)
        requires
            self.well_formed(),
            self.on_chain(i, h),
        ensures
            has_tx(self.known(), h),
        decreases i,
    {
        if has_tx(self.blocks()[i].transactions@, h) {
            let j = choose|j: int| 0 <= j < self.blocks()[i].transactions@.len() && self.blocks()[i].transactions@[j].hash == h;
            assert(has_tx(self.known(), self.blocks()[i].transactions@[j].hash));
        } else {
            self.lemma_on_chain_known(self.parents()[i] as int, h);
        }
    }

    /// Recomputes the pending pool from the known transactions.
    fn refresh_pending(&mut self)
        requires
            old(self).links_ok(),
            0 <= old(self).head_pos() < old(self).blocks().len(),
            old(self).balances().len() == old(self).blocks().len(),
        ensures
            final(self).blocks() == old(self).blocks(),
            final(self).parents() == old(self).parents(),
            final(self).balances() == old(self).balances(),
            final(self).positions() == old(self).positions(),
            final(self).head_pos() == old(self).head_pos(),
            final(self).known() == old(self).known(),
            final(self).pending() == final(self).known().filter(|t: Transaction| final(self).is_pending(t)),
    {
        let fresh = self.compute_pending();
        let ghost mid = *self;
        self.pending = fresh;
        proof {
            let pred_mid = |t: Transaction| mid.is_pending(t);
            let pred_now = |t: Transaction| self.is_pending(t);
            assert forall|t: Transaction| #[trigger] pred_mid(t) == pred_now(t) by {
                assert forall|h: u64| #[trigger] mid.on_chain(self.head_pos(), h) == self.on_chain(self.head_pos(), h) by {
                    self.lemma_on_chain_same(&mid, self.head_pos(), h);
                }
            }
            assert(pred_mid =~= pred_now);
        }
    }

    /// The hash index stays valid while the blocks and the index stay the same.
    proof fn lemma_positions_carry(&self, other: &Self)
        requires
            self.well_formed(),
            other.blocks() == self.blocks(),
            other.positions() == self.positions(),
        ensures
            forall|h: BlockHash| #[trigger] other.positions().contains_key(h) <==> has_block(other.blocks(), h),
            forall|h: BlockHash|
                #[trigger] other.positions().contains_key(h) ==> other.positions()[h] < other.blocks().len()
                    && other.blocks()[other.positions()[h] as int].hash == h,
    {
        assert forall|h: BlockHash| #[trigger] other.positions().contains_key(h) <==> has_block(other.blocks(), h) by {
            assert(self.positions().contains_key(h) <==> has_block(self.blocks(), h));
        }
        assert forall|h: BlockHash| #[trigger] other.positions().contains_key(h) implies other.positions()[h] < other.blocks().len()
            && other.blocks()[other.positions()[h] as int].hash == h by {
            assert(self.positions().contains_key(h));
        }
    }

    /// `on_chain` reads only the blocks and their parents.
    proof fn lemma_on_chain_same(&self, other: &Self, i: int, h: u64)
        requires
            self.blocks() == other.blocks(),
            self.parents() == other.parents(),
        ensures
            self.on_chain(i, h) == other.on_chain(i, h),
        decreases i,
    {
        if 0 <= i < self.blocks().len() && 0 < i && self.parents()[i] < i {
            self.lemma_on_chain_same(other, self.parents()[i] as int, h);
        }
    }

    /// Adds `t` to the pending pool, unless it is known already or its sender cannot pay
    /// the amount and the fee at the head.
    pub fn add_transaction(&mut self, t: Transaction) -> (r: Result<(), ForestError>)
        requires
            old(self).well_formed(),
        ensures
            final(self).well_formed(),
            final(self).blocks() == old(self).blocks(),
            final(self).head_pos() == old(self).head_pos(),
            r == if has_tx(old(self).known(), t.hash) {
                Err(ForestError::DuplicateTransaction)
            } else if t.amount + t.fee > balance_of(old(self).head_balances(), t.sender) {
                Err(ForestError::InsufficientBalance)
            } else {
                Ok::<(), ForestError>(())
            },
            r is Ok ==> final(self).known() == old(self).known().push(t) && final(self).pending()
                == old(self).pending().push(t),
            r is Err ==> final(self).known() == old(self).known() && final(self).pending() == old(
                self,
            ).pending(),
    {
        if find_tx(&self.known, t.hash) {
            return Err(ForestError::DuplicateTransaction);
        }
        let bal = self.balance_at(self.head, t.sender);
        if t.amount > bal || t.fee > bal - t.amount {
            return Err(ForestError::InsufficientBalance);
        }
        proof {
            if self.on_chain(self.head_pos(), t.hash) {
                self.lemma_on_chain_known(self.head_pos(), t.hash);
            }
        }
        let ghost before = *self;
        self.known.push(t);
        self.refresh_pending();
        proof {
            let p_old = |x: Transaction| before.is_pending(x);
            let p_new = |x: Transaction| self.is_pending(x);
            assert forall|x: Transaction| #[trigger] p_old(x) == p_new(x) by {
                assert forall|h: u64| #[trigger] before.on_chain(self.head_pos(), h) == self.on_chain(self.head_pos(), h) by {
                    self.lemma_on_chain_same(&before, self.head_pos(), h);
                }
            }
            assert(p_old =~= p_new);
            before.known().lemma_filter_push(t, p_new);
            before.lemma_positions_carry(self);
            assert forall|i: int, j: int| 0 <= i < j < self.known().len() implies self.known()[i].hash != self.known()[j].hash by {
                if j == self.known().len() - 1 {
                    assert(self.known()[i] == before.known()[i]);
                }
            }
            assert forall|i: int, j: int|
                0 <= i < self.blocks().len() && 0 <= j < self.blocks()[i].transactions@.len() implies has_tx(
                    self.known(),
                    #[trigger] self.blocks()[i].transactions@[j].hash,
                ) by {
                let h = self.blocks()[i].transactions@[j].hash;
                assert(has_tx(before.known(), h));
                let w = choose|w: int| 0 <= w < before.known().len() && before.known()[w].hash == h;
                assert(self.known()[w] == before.known()[w]);
            }
        }
        Ok(())
    }


    /// Stores `b` if `admission` finds nothing against it; the head moves to `b` when
    /// `b` is better, and the pending pool is recomputed at the head.
    pub fn add_block(&mut self, b: Block) -> (r: Result<(), ForestError>)
        requires
            old(self).well_formed(),
        ensures
            final(self).well_formed(),
            r == match old(self).admission(b) {
                Some(e) => Err(e),
                None => Ok::<(), ForestError>(()),
            },
            r is Ok ==> {
                &&& final(self).blocks() == old(self).blocks().push(b)
                &&& final(self).known() == merge_known(old(self).known(), b.transactions@)
                &&& final(self).head_block() == if better(b, old(self).head_block()) {
                    b
                } else {
                    old(self).head_block()
                }
            },
            r is Err ==> {
                &&& final(self).blocks() == old(self).blocks()
                &&& final(self).known() == old(self).known()
                &&& final(self).head_pos() == old(self).head_pos()
                &&& final(self).pending() == old(self).pending()
            },
    {
        if self.by_hash.contains_key(&b.hash) {
            assert(self.positions().contains_key(b.hash));
            return Err(ForestError::DuplicateBlock);
        }
        assert(!self.positions().contains_key(b.hash));
        let p = match self.by_hash.get(&b.prev_hash) {
            Some(p) => *p,
            None => {
                assert(!self.positions().contains_key(b.prev_hash));
                return Err(ForestError::UnknownParent);
            },
        };
        assert(self.positions().contains_key(b.prev_hash));
        assert(self.positions()[b.prev_hash] == p);
        let parent_index = self.blocks[p].index;
        if parent_index == u64::MAX || b.index != parent_index + 1 {
            return Err(ForestError::WrongIndex);
        }
        if b.hash > b.max_hash {
            return Err(ForestError::HashAboveTarget);
        }
        if b.reward > MAX_REWARD {
            return Err(ForestError::RewardTooLarge);
        }
        if !has_distinct_hashes(&b.transactions) {
            return Err(ForestError::DoubleSpend);
        }
        let m = match replay_block(&self.balances[p], &b) {
            Some(m) => m,
            None => {
                return Err(ForestError::InsufficientBalance);
            },
        };
        let ghost old_self = *self;
        let mut k: usize = 0;
        proof {
            lemma_merge_known(old_self.known(), b.transactions@.subrange(0, 0));
            assert(b.transactions@.subrange(0, 0).len() == 0);
        }
        while k < b.transactions.len()
            invariant
                k <= b.transactions@.len(),
                self.blocks@ == old_self.blocks@,
                self.parents@ == old_self.parents@,
                self.balances@ == old_self.balances@,
                self.by_hash@ == old_self.by_hash@,
                self.head == old_self.head,
                self.pending@ == old_self.pending@,
                distinct_tx_hashes(old_self.known()),
                self.known@ == merge_known(old_self.known(), b.transactions@.subrange(0, k as int)),
            decreases b.transactions@.len() - k,
        {
            let t = b.transactions[k];
            assert(b.transactions@.subrange(0, k + 1).drop_last() =~= b.transactions@.subrange(0, k as int));
            if !find_tx(&self.known, t.hash) {
                self.known.push(t);
            }
            k = k + 1;
        }
        assert(b.transactions@.subrange(0, b.transactions@.len() as int) =~= b.transactions@);
        proof {
            lemma_merge_known(old_self.known(), b.transactions@);
        }
        let n = self.blocks.len();
        let head_index = self.blocks[self.head].index;
        let head_hash = self.blocks[self.head].hash;
        let is_better = b.index > head_index || (b.index == head_index && b.hash < head_hash);
        let new_hash = b.hash;
        let ghost nb = b;
        let ghost m_view = m@;
        self.blocks.push(b);
        self.parents.push(p);
        self.balances.push(m);
        self.by_hash.insert(new_hash, n);
        if is_better {
            self.head = n;
        }
        let ghost pre = *self;
        proof {
            assert(self.parents() == old_self.parents().push(p));
            assert forall|i: int| 0 < i < self.blocks().len() implies #[trigger] self.parents()[i] < i by {
                if i < n {
                    assert(self.parents()[i] == old_self.parents()[i]);
                }
            }
            assert(self.balances() =~= old_self.balances().push(m_view));
        }
        self.refresh_pending();
        proof {
            assert(self.balances() =~= old_self.balances().push(m_view));
            assert(self.blocks() == old_self.blocks().push(nb));
            let blocks = self.blocks();
            assert forall|i: int, j: int| 0 <= i < j < blocks.len() implies #[trigger] blocks[i].hash != #[trigger] blocks[j].hash by {
                if j == n {
                    assert(blocks[i] == old_self.blocks()[i]);
                    assert(!has_block(old_self.blocks(), nb.hash));
                } else {
                    assert(blocks[i] == old_self.blocks()[i]);
                    assert(blocks[j] == old_self.blocks()[j]);
                }
            }
            assert forall|i: int| 0 < i < blocks.len() implies {
                let q = #[trigger] self.parents()[i] as int;
                &&& q < i
                &&& blocks[q].hash == blocks[i].prev_hash
                &&& blocks[i].index == blocks[q].index + 1
                &&& apply_block(self.balances()[q], blocks[i]) == Some(self.balances()[i])
            } by {
                if i < n {
                    assert(self.parents()[i] == old_self.parents()[i]);
                    assert(blocks[i] == old_self.blocks()[i]);
                    let q = old_self.parents()[i] as int;
                    assert(blocks[q] == old_self.blocks()[q]);
                    assert(self.balances()[q] == old_self.balances()[q]);
                    assert(self.balances()[i] == old_self.balances()[i]);
                } else {
                    assert(self.parents()[i] == p);
                    assert(blocks[p as int] == old_self.blocks()[p as int]);
                    assert(self.balances()[p as int] == old_self.balances()[p as int]);
                }
            }
            assert forall|h: BlockHash| #[trigger] self.positions().contains_key(h) <==> has_block(blocks, h) by {
                if h == new_hash {
                    assert(blocks[n as int].hash == h);
                } else {
                    assert(old_self.positions().contains_key(h) <==> has_block(old_self.blocks(), h));
                    if has_block(blocks, h) {
                        let w = choose|w: int| 0 <= w < blocks.len() && blocks[w].hash == h;
                        assert(old_self.blocks()[w].hash == h);
                    }
                    if has_block(old_self.blocks(), h) {
                        let w = choose|w: int| 0 <= w < old_self.blocks().len() && old_self.blocks()[w].hash == h;
                        assert(blocks[w].hash == h);
                    }
                }
            }
            assert forall|h: BlockHash| #[trigger] self.positions().contains_key(h) implies self.positions()[h] < blocks.len()
                && blocks[self.positions()[h] as int].hash == h by {
                if h != new_hash {
                    assert(old_self.positions().contains_key(h));
                    assert(blocks[old_self.positions()[h] as int] == old_self.blocks()[old_self.positions()[h] as int]);
                }
            }
            let old_head = old_self.head_block();
            assert(is_better == better(nb, old_head));
            assert forall|i: int| 0 <= i < blocks.len() implies !better(#[trigger] blocks[i], self.head_block()) by {
                if i < n {
                    assert(blocks[i] == old_self.blocks()[i]);
                    assert(!better(old_self.blocks()[i], old_head));
                }
                if !is_better {
                    assert(self.head_block() == old_self.blocks()[old_self.head_pos()]);
                }
            }
            assert forall|i: int, j: int|
                0 <= i < blocks.len() && 0 <= j < blocks[i].transactions@.len() implies has_tx(
                    self.known(),
                    #[trigger] blocks[i].transactions@[j].hash,
                ) by {
                if i < n {
                    assert(blocks[i] == old_self.blocks()[i]);
                    assert(has_tx(old_self.known(), old_self.blocks()[i].transactions@[j].hash));
                }
            }
        }
        Ok(())
    }

    pub fn new() -> (r: Self)
        ensures
            r.well_formed(),
            r.blocks().len() == 1,
            r.head_pos() == 0,
            r.known().len() == 0,
    {
        let mut blocks: Vec<Block> = Vec::new();
        blocks.push(genesis());
        let mut parents: Vec<usize> = Vec::new();
        parents.push(0);
        let mut balances: Vec<HashMap<WalletId, u64>> = Vec::new();
        balances.push(HashMap::new());
        let mut by_hash: HashMap<BlockHash, usize> = HashMap::new();
        by_hash.insert(GENESIS_HASH, 0);
        let r = BlockForest {
            blocks,
            parents,
            balances,
            by_hash,
            head: 0,
            known: Vec::new(),
            pending: Vec::new(),
        };
        assert(r.pending() =~= r.known().filter(|t: Transaction| r.is_pending(t)));
        assert(r.blocks()[0].hash == GENESIS_HASH);
        assert forall|h: BlockHash| #[trigger] r.positions().contains_key(h) <==> has_block(r.blocks(), h) by {
            if h == GENESIS_HASH {
                assert(r.blocks()[0].hash == h);
            }
        }
        assert(r.balances() =~= seq![Map::<WalletId, u64>::empty()]);
        r
    }
}


/// An accepted block stays: once `find_block(h)` finds a block, it finds one in every
/// later forest, since `add_block` and `add_transaction` only ever append blocks.
pub proof fn lemma_blocks_persist(f: BlockForest, g: BlockForest, h: BlockHash)
    requires
        has_block(f.blocks(), h),
        f.blocks().len() <= g.blocks().len(),
        g.blocks().subrange(0, f.blocks().len() as int) == f.blocks(),
    ensures
        has_block(g.blocks(), h),
{
    let i = choose|i: int| 0 <= i < f.blocks().len() && f.blocks()[i].hash == h;
    assert(g.blocks().subrange(0, f.blocks().len() as int)[i] == g.blocks()[i]);
}

/// Every stored block but the genesis block has its parent stored.
pub proof fn lemma_parent_closure(f: BlockForest, i: int)
    requires
        f.well_formed(),
        0 < i < f.blocks().len(),
    ensures
        has_block(f.blocks(), f.blocks()[i].prev_hash),
{
    let p = f.parents()[i] as int;
    assert(f.blocks()[p].hash == f.blocks()[i].prev_hash);
}

/// The head is at least as high as every stored block.
pub proof fn lemma_head_dominates(f: BlockForest, i: int)
    requires
        f.well_formed(),
        0 <= i < f.blocks().len(),
    ensures
        f.head_block().index >= f.blocks()[i].index,
{
    assert(!better(f.blocks()[i], f.head_block()));
}

/// Inserting a block twice: the first insertion is accepted, the second is refused as
/// a duplicate, and a refused insertion leaves the forest as it was.
pub proof fn lemma_insert_idempotent(f: BlockForest, g: BlockForest, b: Block)
    requires
        f.well_formed(),
        f.admission(b) is None,
        g.blocks() == f.blocks().push(b),
    ensures
        g.admission(b) == Some(ForestError::DuplicateBlock),
{
    assert(g.blocks()[f.blocks().len() as int].hash == b.hash);
}

/// After a block that makes a strictly better chain, the head is that block and the
/// pending pool holds exactly the known transactions that are not on its chain and that
/// their senders can pay for at its balances.
pub proof fn lemma_reorg(f: BlockForest, g: BlockForest, b: Block)
    requires
        f.well_formed(),
        g.well_formed(),
        better(b, f.head_block()),
        g.head_block() == (if better(b, f.head_block()) { b } else { f.head_block() }),
    ensures
        g.head_block() == b,
        forall|t: Transaction|
            g.pending().contains(t) <==> g.known().contains(t) && !g.on_chain(g.head_pos(), t.hash)
                && t.amount + t.fee <= balance_of(g.balances()[g.head_pos()], t.sender),
{
    broadcast use vstd::seq_lib::group_filter_ensures;
    let p = |t: Transaction| g.is_pending(t);
    assert(g.pending() == g.known().filter(p));
    assert forall|t: Transaction| g.pending().contains(t) <==> g.known().contains(t) && p(t) by {
        if g.known().contains(t) && p(t) {
            let w = choose|w: int| 0 <= w < g.known().len() && g.known()[w] == t;
            g.known().lemma_filter_contains(p, w);
        }
        if g.pending().contains(t) {
            g.known().lemma_filter_contains_rev(p, t);
            let w = choose|w: int| 0 <= w < g.pending().len() && g.pending()[w] == t;
            g.known().lemma_filter_pred(p, w);
        }
    }
}

} // verus!
