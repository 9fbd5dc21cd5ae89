//! The decisions of a peer-to-peer node: how messages are framed on a
//! stream, which peers are connected, and how the node answers events.
//! Sockets, tasks and channels stay outside; they hand these functions
//! plain values.
use vstd::prelude::*;
use crate::transaction::Transaction;

verus! {

/// The largest payload that a peer accepts (1 MiB).
pub const MAX_MESSAGE_SIZE: usize = 1048576;

/// A message exchanged between peers.
#[derive(Debug, Clone)]
pub enum NetworkMessage {
    Ping,
    Pong,
    NewTransaction(Box<Transaction>),
}

/// The address of a peer: an IP address (IPv4 addresses as their 32-bit
/// value) and a port.
#[derive(Debug, Clone, Copy, PartialEq, Eq, Hash, Structural)]
pub struct PeerAddr {
    pub ip: u128,
    pub is_ipv4: bool,
    pub port: u16,
}

/// What happened to the node.
#[derive(Debug)]
pub enum NetworkEvent {
    Message { peer: PeerAddr, message: Box<NetworkMessage> },
    Disconnected { peer: PeerAddr },
}

/// A message to send to a peer.
#[derive(Debug)]
pub struct OutboundMessage {
    pub peer: PeerAddr,
    pub message: NetworkMessage,
}

/// Why a frame was refused.
#[derive(Debug, Clone, Copy, PartialEq, Eq)]
pub enum FrameError {
    /// The announced payload is larger than `MAX_MESSAGE_SIZE`.
    TooLarge { length: u64 },
}

/// The four bytes of `x` (below 2^32), most significant first.
pub open spec fn be32(x: u64) -> Seq<u8> {
    seq![
        ((x / 0x100_0000) % 0x100) as u8,
        ((x / 0x1_0000) % 0x100) as u8,
        ((x / 0x100) % 0x100) as u8,
        (x % 0x100) as u8,
    ]
}

/// The number that four bytes give, most significant first.
pub open spec fn from_be32(b: Seq<u8>) -> u64 {
    (b[0] * 0x100_0000 + b[1] * 0x1_0000 + b[2] * 0x100 + b[3]) as u64
}

/// The length prefix of a frame: the payload length as a 32-bit number
/// (only its low 32 bits are kept), most significant byte first.
pub fn encode_frame_length(len: usize) -> (res: [u8; 4])
    ensures
        res@ == be32(len as u64 % 0x1_0000_0000),
{
    let x: u64 = (len as u64) % 0x1_0000_0000;
    let res = [
        ((x / 0x100_0000) % 0x100) as u8,
        ((x / 0x1_0000) % 0x100) as u8,
        ((x / 0x100) % 0x100) as u8,
        (x % 0x100) as u8,
    ];
    assert(res@ =~= be32(x));
    res
}

/// Reads the length prefix of a frame; a length above `MAX_MESSAGE_SIZE`
/// is refused.
pub fn decode_frame_length(prefix: [u8; 4]) -> (res: Result<usize, FrameError>)
    ensures
        from_be32(prefix@) > MAX_MESSAGE_SIZE ==> res == Err::<usize, FrameError>(
            FrameError::TooLarge { length: from_be32(prefix@) },
        ),
        from_be32(prefix@) <= MAX_MESSAGE_SIZE ==> res == Ok::<usize, FrameError>(
            from_be32(prefix@) as usize,
        ),
{
    let length: u64 = (prefix[0] as u64) * 0x100_0000 + (prefix[1] as u64) * 0x1_0000 + (
    prefix[2] as u64) * 0x100 + (prefix[3] as u64);
    if length > MAX_MESSAGE_SIZE as u64 {
        return Err(FrameError::TooLarge { length });
    }
    Ok(length as usize)
}

/// A frame: the length prefix followed by the payload.
pub fn frame(payload: &[u8]) -> (res: Vec<u8>)
    ensures
        res@ == be32(payload@.len() as u64 % 0x1_0000_0000) + payload@,
{
    let prefix = encode_frame_length(payload.len());
    let mut out: Vec<u8> = Vec::new();
    crate::codec::push_bytes(&mut out, prefix.as_slice());
    crate::codec::push_bytes(&mut out, payload);
    out
}

/// A length that a peer accepts comes back from its prefix unchanged.
pub proof fn law_frame_length_round_trip(len: u64)
    requires
        len <= MAX_MESSAGE_SIZE,
    ensures
        from_be32(be32(len % 0x1_0000_0000)) == len,
{
    let x = len % 0x1_0000_0000;
    assert(x == len);
    let b = be32(x);
    assert(b[0] == (x / 0x100_0000) % 0x100);
    assert(b[1] == (x / 0x1_0000) % 0x100);
    assert(b[2] == (x / 0x100) % 0x100);
    assert(b[3] == x % 0x100);
    assert(((x / 0x100_0000) % 0x100) * 0x100_0000 + ((x / 0x1_0000) % 0x100) * 0x1_0000 + ((x
        / 0x100) % 0x100) * 0x100 + x % 0x100 == x) by (nonlinear_arith)
        requires
            x <= 0x10_0000,
    ;
}

/// What the node does about an event.
#[derive(Debug, Clone, Copy, PartialEq, Eq, Structural)]
pub enum EventAction {
    /// Answer a ping with a pong to the peer.
    SendPong { peer: PeerAddr },
    /// A pong arrived: nothing to do.
    PongReceived { peer: PeerAddr },
    /// A transaction arrived: it is reported, nothing else is done yet.
    TransactionReceived { peer: PeerAddr },
    /// The peer is gone and is forgotten.
    PeerRemoved { peer: PeerAddr },
}

/// The action for an event.
pub open spec fn event_action(event: NetworkEvent) -> EventAction {
    match event {
        NetworkEvent::Message { peer, message } => match *message {
            NetworkMessage::Ping => EventAction::SendPong { peer },
            NetworkMessage::Pong => EventAction::PongReceived { peer },
            NetworkMessage::NewTransaction(_) => EventAction::TransactionReceived { peer },
        },
        NetworkEvent::Disconnected { peer } => EventAction::PeerRemoved { peer },
    }
}

/// The peers without `peer`.
pub open spec fn peers_without(peers: Seq<PeerAddr>, peer: PeerAddr) -> Seq<PeerAddr> {
    peers.filter(|p: PeerAddr| p != peer)
}

/// What became of a message for a peer.
#[derive(Debug, Clone, Copy, PartialEq, Eq, Structural)]
pub enum Delivery {
    /// The peer is not connected; nothing was sent.
    NotConnected,
    /// The peer's task took the message.
    Delivered,
    /// The peer's task no longer takes messages; the peer is forgotten.
    Dropped,
}

/// The delivery outcome for `peer`, and the peers after it, when handing the
/// message over succeeded (`sent`) or not.
pub open spec fn delivery_result(peers: Seq<PeerAddr>, peer: PeerAddr, sent: bool) -> (Delivery, Seq<PeerAddr>) {
    if !peers.contains(peer) {
        (Delivery::NotConnected, peers)
    } else if sent {
        (Delivery::Delivered, peers)
    } else {
        (Delivery::Dropped, peers_without(peers, peer))
    }
}

/// The peers that a node is connected to, each once, in connection order.
pub struct PeerTable {
    peers: Vec<PeerAddr>,
}

impl View for PeerTable {
    type V = Seq<PeerAddr>;

    closed spec fn view(&self) -> Seq<PeerAddr> {
        self.peers@
    }
}

impl PeerTable {
    pub fn new() -> (res: PeerTable)
        ensures
            res@ == Seq::<PeerAddr>::empty(),
    {
        PeerTable { peers: Vec::new() }
    }

    pub fn contains(&self, peer: PeerAddr) -> (res: bool)
        ensures
            res == self@.contains(peer),
    {
        let mut i: usize = 0;
        while i < self.peers.len()
            invariant
                i <= self.peers@.len(),
                forall|j: int| 0 <= j < i ==> self.peers@[j] != peer,
            decreases self.peers@.len() - i,
        {
            if self.peers[i] == peer {
                return true;
            }
            i += 1;
        }
        false
    }

    /// Registers a new connection; a peer that is already connected is
    /// refused (`false`) and the table does not change.
    pub fn register(&mut self, peer: PeerAddr) -> (res: bool)
        ensures
            res == !old(self)@.contains(peer),
            res ==> final(self)@ == old(self)@.push(peer),
            !res ==> final(self)@ == old(self)@,
    {
        if self.contains(peer) {
            return false;
        }
        self.peers.push(peer);
        true
    }

    /// Forgets a peer.
    pub fn remove(&mut self, peer: PeerAddr)
        ensures
            final(self)@ == peers_without(old(self)@, peer),
    {
        let mut kept: Vec<PeerAddr> = Vec::new();
        let mut i: usize = 0;
        while i < self.peers.len()
            invariant
                i <= self.peers@.len(),
                self.peers@ == old(self)@,
                kept@ == peers_without(old(self)@.take(i as int), peer),
            decreases self.peers@.len() - i,
        {
            let p = self.peers[i];
            proof {
                let t = old(self)@.take(i + 1);
                assert(t.drop_last() =~= old(self)@.take(i as int));
                assert(t.last() == p);
                reveal(Seq::filter);
            }
            if p != peer {
                kept.push(p);
            }
            i += 1;
        }
        assert(old(self)@.take(i as int) =~= old(self)@);
        self.peers = kept;
    }

    /// Records what came of handing a message to `peer`'s task (`sent`):
    /// a peer that is not connected is reported as such, and a connected
    /// peer whose task no longer takes messages is forgotten.
    pub fn record_delivery(&mut self, peer: PeerAddr, sent: bool) -> (res: Delivery)
        ensures
            res == delivery_result(old(self)@, peer, sent).0,
            final(self)@ == delivery_result(old(self)@, peer, sent).1,
    {
        if !self.contains(peer) {
            return Delivery::NotConnected;
        }
        if sent {
            Delivery::Delivered
        } else {
            self.remove(peer);
            Delivery::Dropped
        }
    }

    /// Decides what to do about an event: a ping is answered with a pong
    /// to its peer; a disconnected peer is forgotten; pongs and
    /// transactions change nothing.
    pub fn handle_event(&mut self, event: &NetworkEvent) -> (res: EventAction)
        ensures
            res == event_action(*event),
            match *event {
                NetworkEvent::Disconnected { peer } => final(self)@ == peers_without(old(self)@, peer),
                _ => final(self)@ == old(self)@,
            },
    {
        match event {
            NetworkEvent::Message { peer, message } => match &**message {
                NetworkMessage::Ping => EventAction::SendPong { peer: *peer },
                NetworkMessage::Pong => EventAction::PongReceived { peer: *peer },
                NetworkMessage::NewTransaction(_) => EventAction::TransactionReceived { peer: *peer },
            },
            NetworkEvent::Disconnected { peer } => {
                self.remove(*peer);
                EventAction::PeerRemoved { peer: *peer }
            },
        }
    }
}

/// What happened on one peer's connection, as its task sees it.
#[derive(Debug, Clone, Copy, PartialEq, Eq, Structural)]
pub enum LinkEvent {
    /// A message was read from the peer.
    MessageReceived,
    /// Reading from the peer failed.
    ReceiveFailed,
    /// A received message could not be handed to the node.
    ForwardFailed,
    /// The node queued a message for the peer.
    OutgoingQueued,
    /// Writing to the peer failed.
    SendFailed,
    /// The node's queue for the peer is closed (reading goes on).
    OutgoingClosed,
}

/// What the task does about it.
#[derive(Debug, Clone, Copy, PartialEq, Eq, Structural)]
pub enum LinkAction {
    /// Hand the received message to the node as an event.
    ForwardMessage,
    /// Write the queued message to the peer.
    SendMessage,
    /// Tell the node that the peer is gone.
    ReportDisconnect,
    /// Nothing.
    Nothing,
}

/// One step of a peer's task: what to do, and whether the task stops after
/// it.
#[derive(Debug, Clone, Copy, PartialEq, Eq, Structural)]
pub struct LinkStep {
    pub action: LinkAction,
    pub stop: bool,
}

/// The step for an event: messages are forwarded and queued messages sent;
/// a failed read or write reports the peer gone and stops; a failed hand-over
/// stops without a report; a closed queue only ends sending.
pub open spec fn link_step(event: LinkEvent) -> LinkStep {
    match event {
        LinkEvent::MessageReceived => LinkStep { action: LinkAction::ForwardMessage, stop: false },
        LinkEvent::ReceiveFailed => LinkStep { action: LinkAction::ReportDisconnect, stop: true },
        LinkEvent::ForwardFailed => LinkStep { action: LinkAction::Nothing, stop: true },
        LinkEvent::OutgoingQueued => LinkStep { action: LinkAction::SendMessage, stop: false },
        LinkEvent::SendFailed => LinkStep { action: LinkAction::ReportDisconnect, stop: true },
        LinkEvent::OutgoingClosed => LinkStep { action: LinkAction::Nothing, stop: false },
    }
}

/// The step of a peer's task for `event`.
pub fn peer_link_step(event: LinkEvent) -> (res: LinkStep)
    ensures
        res == link_step(event),
{
    match event {
        LinkEvent::MessageReceived => LinkStep { action: LinkAction::ForwardMessage, stop: false },
        LinkEvent::ReceiveFailed => LinkStep { action: LinkAction::ReportDisconnect, stop: true },
        LinkEvent::ForwardFailed => LinkStep { action: LinkAction::Nothing, stop: true },
        LinkEvent::OutgoingQueued => LinkStep { action: LinkAction::SendMessage, stop: false },
        LinkEvent::SendFailed => LinkStep { action: LinkAction::ReportDisconnect, stop: true },
        LinkEvent::OutgoingClosed => LinkStep { action: LinkAction::Nothing, stop: false },
    }
}

/// The actions of a peer's task over a run of events, and whether it
/// stopped: steps are taken in order until one stops the task; later
/// events are never seen.
pub open spec fn link_run(events: Seq<LinkEvent>) -> (Seq<LinkAction>, bool)
    decreases events.len(),
{
    if events.len() == 0 {
        (Seq::empty(), false)
    } else {
        let st = link_step(events[0]);
        if st.stop {
            (seq![st.action], true)
        } else {
            let rest = link_run(events.drop_first());
            (seq![st.action] + rest.0, rest.1)
        }
    }
}

/// A connection that delivers `k` messages and then fails: its task
/// forwards the `k` messages in order, then reports the peer gone exactly
/// once and stops, whatever would have come after.
pub proof fn law_link_messages_then_one_disconnect(k: nat, rest: Seq<LinkEvent>)
    ensures
        link_run(Seq::new(k, |i: int| LinkEvent::MessageReceived) + seq![LinkEvent::ReceiveFailed] + rest).0
            == Seq::new(k, |i: int| LinkAction::ForwardMessage) + seq![LinkAction::ReportDisconnect],
        link_run(Seq::new(k, |i: int| LinkEvent::MessageReceived) + seq![LinkEvent::ReceiveFailed] + rest).1,
    decreases k,
{
    let ev = Seq::new(k, |i: int| LinkEvent::MessageReceived) + seq![LinkEvent::ReceiveFailed] + rest;
    if k == 0 {
        assert(ev[0] == LinkEvent::ReceiveFailed);
        assert(Seq::new(0, |i: int| LinkAction::ForwardMessage) + seq![LinkAction::ReportDisconnect]
            =~= seq![LinkAction::ReportDisconnect]);
    } else {
        let k1 = (k - 1) as nat;
        law_link_messages_then_one_disconnect(k1, rest);
        assert(ev[0] == LinkEvent::MessageReceived);
        assert(ev.drop_first() =~= Seq::new(k1, |i: int| LinkEvent::MessageReceived) + seq![
            LinkEvent::ReceiveFailed] + rest);
        assert(seq![LinkAction::ForwardMessage] + (Seq::new(k1, |i: int| LinkAction::ForwardMessage)
            + seq![LinkAction::ReportDisconnect]) =~= Seq::new(k, |i: int| LinkAction::ForwardMessage)
            + seq![LinkAction::ReportDisconnect]);
    }
}

} // verus!
