//! The peer layer's decisions: the messages exchanged with the gossip layer, the framing
//! of messages on the wire and the dialing policy. Sockets, threads and JSON stay with
//! the caller, which feeds bytes and outcomes in and carries the resulting actions out.
use vstd::prelude::*;
use crate::data::{Block, BlockHash, Transaction};

verus! {

/// Frames are cut at this many bytes, the terminating NUL included.
pub const BUF_SIZE: usize = 65536;

/// How many times a failed dial is retried before the address is skipped.
pub const RECONNECT_LIMIT: usize = 3;

pub type SessionId = u64;

pub struct PeerServiceConfig {
    /// Pause between two dials of one address, in milliseconds.
    pub dial_cooldown_ms: u64,
    pub dial_addresses: Vec<String>,
    pub listen_address: Option<String>,
}

/// A message as it travels between peers, once verified.
#[derive(Clone, Debug)]
pub enum VerifiedPeerMessage {
    Block(Block),
    Transaction(Transaction),
    Request { block_hash: BlockHash },
}

#[derive(Clone, Debug)]
pub struct PeerEvent {
    pub session_id: SessionId,
    pub event_kind: PeerEventKind,
}

#[derive(Clone, Debug)]
pub enum PeerEventKind {
    Connected,
    Disconnected,
    NewMessage(VerifiedPeerMessage),
}

#[derive(Clone, Debug)]
pub struct PeerCommand {
    pub session_id: SessionId,
    pub command_kind: PeerCommandKind,
}

#[derive(Clone, Debug)]
pub enum PeerCommandKind {
    SendMessage(VerifiedPeerMessage),
    Drop,
}

/// What the reader does after taking in one byte.
#[derive(Clone, Debug, PartialEq, Eq)]
pub enum FrameStatus {
    /// The frame goes on.
    Partial,
    /// A NUL closed an empty frame, which is skipped.
    Empty,
    /// A NUL closed a frame with these bytes.
    Complete(Vec<u8>),
    /// The frame reached `BUF_SIZE` bytes without its NUL: the session ends.
    Oversize,
}

/// Cuts an incoming byte stream into NUL-terminated frames.
pub struct FrameReader {
    line: Vec<u8>,
}

impl FrameReader {
    /// The bytes of the frame read so far.
    pub closed spec fn buffered(&self) -> Seq<u8> {
        self.line@
    }

    pub open spec fn well_formed(&self) -> bool {
        self.buffered().len() < BUF_SIZE - 1
    }

    pub fn new() -> (r: Self)
        ensures
            r.buffered() == Seq::<u8>::empty(),
            r.well_formed(),
    {
        FrameReader { line: Vec::new() }
    }

    /// Takes in one byte. A frame whose bytes and NUL come to `BUF_SIZE` or more is
    /// refused as soon as that is certain.
    pub fn push_byte(&mut self, byte: u8) -> (r: FrameStatus)
        requires
            old(self).well_formed(),
        ensures
            final(self).well_formed(),
            byte == 0 && old(self).buffered().len() == 0 ==> r == FrameStatus::Empty
                && final(self).buffered().len() == 0,
            byte == 0 && old(self).buffered().len() > 0 ==> r is Complete && r->Complete_0@ == old(
                self,
            ).buffered() && final(self).buffered().len() == 0,
            byte != 0 && old(self).buffered().len() + 2 < BUF_SIZE ==> r == FrameStatus::Partial
                && final(self).buffered() == old(self).buffered().push(byte),
            byte != 0 && old(self).buffered().len() + 2 >= BUF_SIZE ==> r == FrameStatus::Oversize
                && final(self).buffered().len() == 0,
    {
        if byte == 0 {
            if self.line.len() == 0 {
                return FrameStatus::Empty;
            }
            let mut frame: Vec<u8> = Vec::new();
            std::mem::swap(&mut frame, &mut self.line);
            return FrameStatus::Complete(frame);
        }
        if self.line.len() + 2 >= BUF_SIZE {
            self.line = Vec::new();
            return FrameStatus::Oversize;
        }
        self.line.push(byte);
        FrameStatus::Partial
    }
}

/// Whether `frame` fits on the wire: no NUL inside, and room for the NUL after it.
pub open spec fn sendable(frame: Seq<u8>) -> bool {
    &&& frame.len() + 1 < BUF_SIZE
    &&& forall|i: int| 0 <= i < frame.len() ==> frame[i] != 0
}

/// The bytes that carry `payload`: the payload and a NUL, or `None` when it cannot be
/// framed.
pub fn encode_frame(payload: &[u8]) -> (r: Option<Vec<u8>>)
    ensures
        r is Some <==> sendable(payload@),
        r is Some ==> r->Some_0@ == payload@.push(0),
{
    if payload.len() >= BUF_SIZE - 1 {
        return None;
    }
    let mut out: Vec<u8> = Vec::new();
    let mut i: usize = 0;
    while i < payload.len()
        invariant
            i <= payload@.len(),
            out@ == payload@.subrange(0, i as int),
            forall|j: int| 0 <= j < i ==> payload@[j] != 0,
        decreases payload@.len() - i,
    {
        if payload[i] == 0 {
            return None;
        }
        out.push(payload[i]);
        i = i + 1;
    }
    out.push(0);
    assert(out@ =~= payload@.push(0));
    Some(out)
}

/// Where the dialing of the configured addresses stands.
#[derive(Clone, Copy, Debug, PartialEq, Eq, Structural)]
pub struct DialState {
    /// The address being dialed.
    pub address: usize,
    /// How many dials of it have failed so far.
    pub failures: usize,
}

/// What the dialer does next.
#[derive(Clone, Copy, Debug, PartialEq, Eq, Structural)]
pub enum DialAction {
    /// Sleep for the cooldown, then dial the same address again.
    Retry,
    /// Dial the next address.
    Next,
    /// All addresses are done: start accepting.
    Done,
}

/// The state after a dial, and what to do next: a success or the failure after
/// `RECONNECT_LIMIT` retries moves on to the next address, other failures retry.
pub open spec fn dial_step(st: DialState, connected: bool, n_addresses: nat) -> (DialState, DialAction) {
    let move_on = connected || st.failures >= RECONNECT_LIMIT;
    if !move_on {
        (DialState { address: st.address, failures: (st.failures + 1) as usize }, DialAction::Retry)
    } else if st.address + 1 < n_addresses {
        (DialState { address: (st.address + 1) as usize, failures: 0 }, DialAction::Next)
    } else {
        (DialState { address: (st.address + 1) as usize, failures: 0 }, DialAction::Done)
    }
}

/// Decides what follows a dial of the address `st.address` out of `n_addresses`.
pub fn next_dial(st: DialState, connected: bool, n_addresses: usize) -> (r: (DialState, DialAction))
    requires
        st.address < n_addresses,
        st.failures <= RECONNECT_LIMIT,
    ensures
        r == dial_step(st, connected, n_addresses as nat),
        r.0.failures <= RECONNECT_LIMIT,
{
    if !connected && st.failures < RECONNECT_LIMIT {
        (DialState { address: st.address, failures: st.failures + 1 }, DialAction::Retry)
    } else if st.address + 1 < n_addresses {
        (DialState { address: st.address + 1, failures: 0 }, DialAction::Next)
    } else {
        (DialState { address: st.address + 1, failures: 0 }, DialAction::Done)
    }
}

/// Starting on an address, `RECONNECT_LIMIT` failed dials are each followed by a retry,
/// and the next failure moves on to the next address.
pub proof fn lemma_dial_gives_up_after_limit(address: nat, n_addresses: nat)
    requires
        address + 1 < n_addresses,
        address < usize::MAX,
    ensures
        ({
            let s0 = DialState { address: address as usize, failures: 0 };
            let s1 = dial_step(s0, false, n_addresses);
            let s2 = dial_step(s1.0, false, n_addresses);
            let s3 = dial_step(s2.0, false, n_addresses);
            let s4 = dial_step(s3.0, false, n_addresses);
            &&& s1.1 == DialAction::Retry
            &&& s2.1 == DialAction::Retry
            &&& s3.1 == DialAction::Retry
            &&& s4.1 == DialAction::Next
            &&& s4.0 == DialState { address: (address + 1) as usize, failures: 0 }
        }),
{
}

} // verus!
