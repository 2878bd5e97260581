use babencoin::block_forest::{BlockForest, ForestError};
use babencoin::data::{genesis, Block, Transaction, GENESIS_HASH, MAX_REWARD};
use babencoin::gossip_service::{GossipOutput, GossipService, GossipServiceConfig};
use babencoin::mining_service::{MiningInfo, MiningService, MiningServiceConfig};
use babencoin::peer_service::{
    encode_frame, next_dial, DialAction, DialState, FrameReader, FrameStatus, PeerCommand,
    PeerCommandKind, PeerEvent, PeerEventKind, VerifiedPeerMessage, BUF_SIZE, RECONNECT_LIMIT,
};

fn block(index: u64, prev_hash: u64, hash: u64, issuer: u64, reward: u64, txs: Vec<Transaction>) -> Block {
    Block {
        index,
        reward,
        nonce: 0,
        timestamp: 0,
        issuer,
        max_hash: u64::MAX,
        prev_hash,
        hash,
        transactions: txs,
    }
}

fn tx(sender: u64, receiver: u64, amount: u64, fee: u64, hash: u64) -> Transaction {
    Transaction { sender, receiver, amount, fee, timestamp: 0, signature: 0, hash }
}

fn event(session_id: u64, event_kind: PeerEventKind) -> PeerEvent {
    PeerEvent { session_id, event_kind }
}

fn node() -> GossipService {
    GossipService::new(GossipServiceConfig { eager_requests_interval_ms: 0 }, u64::MAX, 10)
}

fn sent_blocks(out: &GossipOutput) -> Vec<(u64, u64)> {
    out.commands
        .iter()
        .filter_map(|c| match &c.command_kind {
            PeerCommandKind::SendMessage(VerifiedPeerMessage::Block(b)) => Some((c.session_id, b.hash)),
            _ => None,
        })
        .collect()
}

fn sent_txs(out: &GossipOutput) -> Vec<(u64, u64)> {
    out.commands
        .iter()
        .filter_map(|c| match &c.command_kind {
            PeerCommandKind::SendMessage(VerifiedPeerMessage::Transaction(t)) => Some((c.session_id, t.hash)),
            _ => None,
        })
        .collect()
}

fn requests(out: &GossipOutput) -> Vec<(u64, u64)> {
    out.commands
        .iter()
        .filter_map(|c| match &c.command_kind {
            PeerCommandKind::SendMessage(VerifiedPeerMessage::Request { block_hash }) => {
                Some((c.session_id, *block_hash))
            }
            _ => None,
        })
        .collect()
}

#[test]
fn accepted_block_is_found_and_second_insert_is_refused() {
    let mut forest = BlockForest::new();
    let b1 = block(1, GENESIS_HASH, 50, 1, 100, vec![]);
    assert_eq!(forest.add_block(b1.clone()), Ok(()));
    assert_eq!(forest.add_block(b1.clone()), Err(ForestError::DuplicateBlock));
    assert_eq!(forest.find_block(&50).unwrap().hash, 50);
    assert_eq!(forest.head().hash, 50);
    assert_eq!(forest.balance(1), 100);
    assert_eq!(forest.find_block(&GENESIS_HASH).unwrap().index, 0);
    assert!(forest.find_block(&51).is_none());
}

#[test]
fn block_refusals() {
    let mut forest = BlockForest::new();
    assert_eq!(
        forest.add_block(block(1, 77, 50, 1, 100, vec![])),
        Err(ForestError::UnknownParent)
    );
    assert_eq!(
        forest.add_block(block(2, GENESIS_HASH, 50, 1, 100, vec![])),
        Err(ForestError::WrongIndex)
    );
    let mut high = block(1, GENESIS_HASH, 50, 1, 100, vec![]);
    high.max_hash = 49;
    assert_eq!(forest.add_block(high), Err(ForestError::HashAboveTarget));
    assert_eq!(
        forest.add_block(block(1, GENESIS_HASH, 50, 1, MAX_REWARD + 1, vec![])),
        Err(ForestError::RewardTooLarge)
    );
    assert_eq!(forest.add_block(block(1, GENESIS_HASH, 50, 1, 100, vec![])), Ok(()));
    let t = tx(1, 2, 10, 0, 900);
    assert_eq!(
        forest.add_block(block(2, 50, 60, 3, 0, vec![t, t])),
        Err(ForestError::DoubleSpend)
    );
    assert_eq!(
        forest.add_block(block(2, 50, 60, 3, 0, vec![tx(1, 2, 101, 0, 901)])),
        Err(ForestError::InsufficientBalance)
    );
    assert_eq!(forest.add_block(block(2, 50, 60, 3, 0, vec![tx(1, 2, 70, 5, 902)])), Ok(()));
    assert_eq!(forest.balance(1), 25);
    assert_eq!(forest.balance(2), 70);
    assert_eq!(forest.balance(3), 5);
}

#[test]
fn transaction_of_exactly_the_balance_is_accepted() {
    let mut forest = BlockForest::new();
    assert_eq!(forest.add_block(block(1, GENESIS_HASH, 50, 1, 100, vec![])), Ok(()));
    assert_eq!(forest.add_transaction(tx(1, 2, 100, 0, 900)), Ok(()));
    assert_eq!(
        forest.add_transaction(tx(1, 2, 100, 1, 901)),
        Err(ForestError::InsufficientBalance)
    );
    assert_eq!(
        forest.add_transaction(tx(1, 2, 100, 0, 900)),
        Err(ForestError::DuplicateTransaction)
    );
    assert_eq!(forest.pending_transactions().len(), 1);
    assert_eq!(forest.pending_transactions()[0].hash, 900);
}

#[test]
fn head_ties_go_to_the_smaller_hash() {
    let mut forest = BlockForest::new();
    assert_eq!(forest.add_block(block(1, GENESIS_HASH, 50, 1, 100, vec![])), Ok(()));
    assert_eq!(forest.add_block(block(1, GENESIS_HASH, 70, 1, 100, vec![])), Ok(()));
    assert_eq!(forest.head().hash, 50);
    assert_eq!(forest.add_block(block(1, GENESIS_HASH, 40, 1, 100, vec![])), Ok(()));
    assert_eq!(forest.head().hash, 40);
}

#[test]
fn reorg_moves_head_and_recomputes_pending() {
    let mut forest = BlockForest::new();
    // wallet 1 earns 100 on the first chain
    assert_eq!(forest.add_block(block(1, GENESIS_HASH, 50, 1, 100, vec![])), Ok(()));
    let t = tx(1, 2, 30, 0, 900);
    assert_eq!(forest.add_transaction(t), Ok(()));
    // t is included on the first chain
    assert_eq!(forest.add_block(block(2, 50, 60, 3, 0, vec![t])), Ok(()));
    assert_eq!(forest.head().hash, 60);
    assert_eq!(forest.pending_transactions().len(), 0);
    // a fork where wallet 1 also earns, strictly longer
    assert_eq!(forest.add_block(block(1, GENESIS_HASH, 80, 1, 100, vec![])), Ok(()));
    assert_eq!(forest.add_block(block(2, 80, 81, 4, 0, vec![])), Ok(()));
    assert_eq!(forest.head().hash, 60);
    assert_eq!(forest.add_block(block(3, 81, 82, 4, 0, vec![])), Ok(()));
    assert_eq!(forest.head().hash, 82);
    // t is no longer on the head's chain and wallet 1 can pay for it there
    assert_eq!(forest.pending_transactions().len(), 1);
    assert_eq!(forest.pending_transactions()[0].hash, 900);
    // a fork where wallet 1 has nothing drops it
    assert_eq!(forest.add_block(block(1, GENESIS_HASH, 90, 9, 0, vec![])), Ok(()));
    assert_eq!(forest.add_block(block(2, 90, 91, 9, 0, vec![])), Ok(()));
    assert_eq!(forest.add_block(block(3, 91, 92, 9, 0, vec![])), Ok(()));
    assert_eq!(forest.add_block(block(4, 92, 93, 9, 0, vec![])), Ok(()));
    assert_eq!(forest.head().hash, 93);
    assert_eq!(forest.pending_transactions().len(), 0);
    // every stored block has its parent stored, and none is above the head
    for h in [50, 60, 80, 81, 82, 90, 91, 92, 93] {
        let b = forest.find_block(&h).unwrap();
        assert!(forest.find_block(&b.prev_hash).is_some());
        assert!(forest.head().index >= b.index);
    }
}

#[test]
fn frame_of_exactly_buf_size_is_oversize() {
    let mut reader = FrameReader::new();
    for _ in 0..BUF_SIZE - 2 {
        assert_eq!(reader.push_byte(b'x'), FrameStatus::Partial);
    }
    // 65534 bytes and a NUL make 65535: accepted
    match reader.push_byte(0) {
        FrameStatus::Complete(f) => assert_eq!(f.len(), BUF_SIZE - 2),
        other => panic!("unexpected {:?}", other),
    }
    // 65535 bytes and a NUL would make 65536: refused
    for _ in 0..BUF_SIZE - 2 {
        assert_eq!(reader.push_byte(b'x'), FrameStatus::Partial);
    }
    assert_eq!(reader.push_byte(b'x'), FrameStatus::Oversize);
    assert_eq!(reader.push_byte(0), FrameStatus::Empty);
}

#[test]
fn frames_round_trip() {
    let framed = encode_frame(b"{\"Request\":{\"block_hash\":\"07\"}}").unwrap();
    assert_eq!(*framed.last().unwrap(), 0);
    let mut reader = FrameReader::new();
    let mut got = None;
    for b in framed {
        if let FrameStatus::Complete(f) = reader.push_byte(b) {
            got = Some(f);
        }
    }
    assert_eq!(got.unwrap(), b"{\"Request\":{\"block_hash\":\"07\"}}".to_vec());
    assert!(encode_frame(b"a\0b").is_none());
    assert!(encode_frame(&vec![b'x'; BUF_SIZE - 1]).is_none());
    assert!(encode_frame(&vec![b'x'; BUF_SIZE - 2]).is_some());
}

#[test]
fn dial_gives_up_after_reconnect_limit() {
    let mut st = DialState { address: 0, failures: 0 };
    for _ in 0..RECONNECT_LIMIT {
        let (next, action) = next_dial(st, false, 2);
        assert_eq!(action, DialAction::Retry);
        st = next;
    }
    let (next, action) = next_dial(st, false, 2);
    assert_eq!(action, DialAction::Next);
    assert_eq!(next, DialState { address: 1, failures: 0 });
    let (next, action) = next_dial(next, true, 2);
    assert_eq!(action, DialAction::Done);
    assert_eq!(next.address, 2);
}

#[test]
fn two_node_bootstrap() {
    let mut a = node();
    let mut b = node();
    let b1 = block(1, GENESIS_HASH, 50, 1, 100, vec![]);
    a.handle_mined_block(b1);
    // B dialed A: A sees session 7, B sees session 8
    let out = a.handle_event(event(7, PeerEventKind::Connected));
    assert_eq!(sent_blocks(&out), vec![(7, 50)]);
    b.handle_event(event(8, PeerEventKind::Connected));
    for c in out.commands {
        if let PeerCommandKind::SendMessage(msg) = c.command_kind {
            b.handle_event(event(8, PeerEventKind::NewMessage(msg)));
        }
    }
    assert_eq!(b.block_forest().head().hash, a.block_forest().head().hash);
}

#[test]
fn transaction_flood_suppression() {
    // three nodes in a triangle; node i reaches node j through session 10 * i + j
    let mut nodes = vec![node(), node(), node()];
    for (i, n) in nodes.iter_mut().enumerate() {
        n.handle_mined_block(block(1, GENESIS_HASH, 50, 1, 100, vec![]));
        for j in 0..3 {
            if i != j {
                n.handle_event(event((10 * i + j) as u64, PeerEventKind::Connected));
            }
        }
    }
    let t = tx(1, 2, 10, 0, 900);
    let mut queue: Vec<(usize, usize, VerifiedPeerMessage)> = Vec::new();
    let out = nodes[0].handle_event(event(99, PeerEventKind::NewMessage(VerifiedPeerMessage::Transaction(t))));
    for c in out.commands {
        if let PeerCommandKind::SendMessage(m) = c.command_kind {
            queue.push((0, (c.session_id % 10) as usize, m));
        }
    }
    let mut frames = vec![vec![0usize; 3]; 3];
    while let Some((from, to, m)) = queue.pop() {
        frames[from][to] += 1;
        let out = nodes[to].handle_event(event((10 * to + from) as u64, PeerEventKind::NewMessage(m)));
        for c in out.commands {
            if let PeerCommandKind::SendMessage(m) = c.command_kind {
                queue.push((to, (c.session_id % 10) as usize, m));
            }
        }
    }
    // each edge carries t at most once in each direction
    for from in 0..3 {
        for to in 0..3 {
            assert!(frames[from][to] <= 1);
        }
    }
    assert_eq!(frames[0][1], 1);
    assert_eq!(frames[0][2], 1);
    for n in &nodes {
        assert_eq!(n.block_forest().pending_transactions().len(), 1);
    }
}

#[test]
fn block_request_on_orphan() {
    let mut a = node();
    let mut b = node();
    let b1 = block(1, GENESIS_HASH, 50, 1, 100, vec![]);
    let b2 = block(2, 50, 60, 1, 100, vec![]);
    a.handle_mined_block(b1.clone());
    a.handle_mined_block(b2.clone());
    a.handle_event(event(7, PeerEventKind::Connected));
    b.handle_event(event(8, PeerEventKind::Connected));
    // A offers b2 first: B asks for its parent
    let out = b.handle_event(event(8, PeerEventKind::NewMessage(VerifiedPeerMessage::Block(b2.clone()))));
    assert_eq!(requests(&out), vec![(8, 50)]);
    assert!(b.block_forest().find_block(&60).is_none());
    // A answers the request with b1
    let out = a.handle_event(event(7, PeerEventKind::NewMessage(VerifiedPeerMessage::Request { block_hash: 50 })));
    assert_eq!(sent_blocks(&out), vec![(7, 50)]);
    for c in out.commands {
        if let PeerCommandKind::SendMessage(m) = c.command_kind {
            b.handle_event(event(8, PeerEventKind::NewMessage(m)));
        }
    }
    // b2 offered again
    let out = b.handle_event(event(8, PeerEventKind::NewMessage(VerifiedPeerMessage::Block(b2))));
    assert!(requests(&out).is_empty());
    assert!(b.block_forest().find_block(&GENESIS_HASH).is_some());
    assert!(b.block_forest().find_block(&50).is_some());
    assert!(b.block_forest().find_block(&60).is_some());
    assert_eq!(b.block_forest().head().hash, 60);
}

#[test]
fn request_for_unknown_block_is_ignored() {
    let mut a = node();
    a.handle_event(event(7, PeerEventKind::Connected));
    let out = a.handle_event(event(7, PeerEventKind::NewMessage(VerifiedPeerMessage::Request { block_hash: 5 })));
    assert!(out.commands.is_empty());
}

#[test]
fn connect_sends_head_and_pending() {
    let mut a = node();
    a.handle_mined_block(block(1, GENESIS_HASH, 50, 1, 100, vec![]));
    a.handle_event(event(99, PeerEventKind::NewMessage(VerifiedPeerMessage::Transaction(tx(1, 2, 5, 1, 900)))));
    let out = a.handle_event(event(7, PeerEventKind::Connected));
    assert_eq!(sent_blocks(&out), vec![(7, 50)]);
    assert_eq!(sent_txs(&out), vec![(7, 900)]);
    assert!(out.mining_info.is_none());
}

#[test]
fn graceful_disconnect_drops_the_session() {
    let mut a = node();
    a.handle_event(event(7, PeerEventKind::Connected));
    let out = a.handle_event(event(7, PeerEventKind::Disconnected));
    assert_eq!(out.commands.len(), 1);
    assert!(matches!(out.commands[0], PeerCommand { session_id: 7, command_kind: PeerCommandKind::Drop }));
    // a block accepted afterwards goes to nobody
    let out = a.handle_mined_block(block(1, GENESIS_HASH, 50, 1, 100, vec![]));
    assert!(out.commands.is_empty());
}

#[test]
fn head_change_gives_mining_info() {
    let mut a = node();
    let out = a.handle_mined_block(block(1, GENESIS_HASH, 50, 1, 100, vec![]));
    let info = out.mining_info.unwrap();
    assert_eq!(info.block_index, 2);
    assert_eq!(info.prev_hash, 50);
    // a block that does not move the head gives none
    let out = a.handle_mined_block(block(1, GENESIS_HASH, 70, 1, 100, vec![]));
    assert!(out.mining_info.is_none());
}

/// A stand-in content hash for the tests: a 64-bit mix of the nonce and attributes.
fn test_hash(b: &Block) -> u64 {
    let mut x = b.nonce ^ b.index.rotate_left(17) ^ b.prev_hash.rotate_left(33);
    x = (x ^ (x >> 30)).wrapping_mul(0xbf58476d1ce4e5b9);
    x = (x ^ (x >> 27)).wrapping_mul(0x94d049bb133111eb);
    x ^ (x >> 31)
}

#[test]
fn mining_produces_valid_block() {
    let mut miner = MiningService::new(MiningServiceConfig { thread_count: 2, max_tx_per_block: 1, public_key: 5 });
    let max_hash = 0x0000_ffff_ffff_ffff;
    let info = MiningInfo { block_index: 1, prev_hash: genesis().hash, max_hash, transactions: vec![] };
    let g = miner.start(info);
    let mut found = None;
    for nonce in 0..1_000_000u64 {
        let c = miner.candidate(nonce).unwrap();
        let h = test_hash(&c);
        if let Some(b) = miner.submit(g, c, h) {
            found = Some(b);
            break;
        }
    }
    let b = found.unwrap();
    assert!(b.hash <= max_hash);
    assert!(b.reward <= MAX_REWARD);
    assert_eq!(b.index, 1);
    assert_eq!(b.issuer, 5);
    let mut forest = BlockForest::new();
    assert_eq!(forest.add_block(b), Ok(()));
    assert!(!miner.is_current(g));
}

#[test]
fn preempted_mining_emits_only_the_new_search() {
    let mut miner = MiningService::new(MiningServiceConfig::default());
    let m1 = MiningInfo { block_index: 1, prev_hash: 0, max_hash: u64::MAX, transactions: vec![] };
    let m2 = MiningInfo { block_index: 2, prev_hash: 50, max_hash: u64::MAX, transactions: vec![] };
    let g1 = miner.start(m1);
    let stale = miner.candidate(1).unwrap();
    let g2 = miner.start(m2);
    assert!(!miner.is_current(g1));
    assert!(miner.is_current(g2));
    assert!(miner.submit(g1, stale, 0).is_none());
    let fresh = miner.candidate(2).unwrap();
    let b = miner.submit(g2, fresh, 0).unwrap();
    assert_eq!(b.prev_hash, 50);
}

#[test]
fn candidate_takes_at_most_max_tx() {
    let mut miner = MiningService::new(MiningServiceConfig { thread_count: 1, max_tx_per_block: 2, public_key: 3 });
    let txs = vec![tx(1, 2, 1, 0, 1), tx(1, 2, 1, 0, 2), tx(1, 2, 1, 0, 3)];
    miner.start(MiningInfo { block_index: 4, prev_hash: 9, max_hash: 100, transactions: txs });
    let c = miner.candidate(11).unwrap();
    assert_eq!(c.transactions.len(), 2);
    assert_eq!(c.nonce, 11);
    assert_eq!(c.index, 4);
    assert_eq!(c.prev_hash, 9);
    assert!(c.reward <= MAX_REWARD);
    // a hash above the target is not emitted
    assert!(miner.submit(1, c, 101).is_none());
}
