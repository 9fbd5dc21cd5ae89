use blockchain_core::network::Delivery;
use blockchain_core::network::{peer_link_step, LinkAction, LinkEvent};
use blockchain_core::network::{
    decode_frame_length, encode_frame_length, frame, EventAction, FrameError, NetworkEvent,
    NetworkMessage, PeerAddr, PeerTable, MAX_MESSAGE_SIZE,
};

fn peer(port: u16) -> PeerAddr {
    PeerAddr { ip: 0x7f00_0001, is_ipv4: true, port }
}

#[test]
fn frame_length_is_big_endian_u32() {
    assert_eq!(encode_frame_length(0x0102_0304), [1, 2, 3, 4]);
    assert_eq!(decode_frame_length([0, 0, 1, 0]), Ok(256));
    assert_eq!(decode_frame_length(encode_frame_length(MAX_MESSAGE_SIZE)), Ok(MAX_MESSAGE_SIZE));
}

#[test]
fn oversized_frame_is_refused() {
    let prefix = encode_frame_length(2 * 1024 * 1024);
    assert_eq!(
        decode_frame_length(prefix),
        Err(FrameError::TooLarge { length: 2 * 1024 * 1024 })
    );
    assert_eq!(
        decode_frame_length([0, 0x10, 0, 1]),
        Err(FrameError::TooLarge { length: 0x10_0001 })
    );
}

#[test]
fn frame_prefixes_the_payload() {
    assert_eq!(frame(&[9, 8, 7]), vec![0, 0, 0, 3, 9, 8, 7]);
}

#[test]
fn peer_table_registers_each_peer_once() {
    let mut table = PeerTable::new();
    assert!(table.register(peer(1)));
    assert!(!table.register(peer(1)));
    assert!(table.register(peer(2)));
    assert!(table.contains(peer(1)));
    table.remove(peer(1));
    assert!(!table.contains(peer(1)));
    assert!(table.contains(peer(2)));
}

#[test]
fn node_answers_ping_with_pong_and_forgets_disconnected_peers() {
    let mut table = PeerTable::new();
    table.register(peer(7));
    let ping = NetworkEvent::Message { peer: peer(7), message: Box::new(NetworkMessage::Ping) };
    assert_eq!(table.handle_event(&ping), EventAction::SendPong { peer: peer(7) });
    let pong = NetworkEvent::Message { peer: peer(7), message: Box::new(NetworkMessage::Pong) };
    assert_eq!(table.handle_event(&pong), EventAction::PongReceived { peer: peer(7) });
    assert!(table.contains(peer(7)));
    let gone = NetworkEvent::Disconnected { peer: peer(7) };
    assert_eq!(table.handle_event(&gone), EventAction::PeerRemoved { peer: peer(7) });
    assert!(!table.contains(peer(7)));
}

#[test]
fn peer_link_steps_follow_the_connection() {
    let s = peer_link_step(LinkEvent::MessageReceived);
    assert_eq!((s.action, s.stop), (LinkAction::ForwardMessage, false));
    let s = peer_link_step(LinkEvent::ReceiveFailed);
    assert_eq!((s.action, s.stop), (LinkAction::ReportDisconnect, true));
    let s = peer_link_step(LinkEvent::SendFailed);
    assert_eq!((s.action, s.stop), (LinkAction::ReportDisconnect, true));
    let s = peer_link_step(LinkEvent::ForwardFailed);
    assert_eq!((s.action, s.stop), (LinkAction::Nothing, true));
    let s = peer_link_step(LinkEvent::OutgoingQueued);
    assert_eq!((s.action, s.stop), (LinkAction::SendMessage, false));
    let s = peer_link_step(LinkEvent::OutgoingClosed);
    assert_eq!((s.action, s.stop), (LinkAction::Nothing, false));
}

#[test]
fn delivery_to_a_peer_is_recorded() {
    let mut table = PeerTable::new();
    let a = peer(1);
    let b = peer(2);
    assert_eq!(table.record_delivery(a, true), Delivery::NotConnected);
    assert!(table.register(a));
    assert!(table.register(b));
    assert_eq!(table.record_delivery(a, true), Delivery::Delivered);
    assert!(table.contains(a));
    assert_eq!(table.record_delivery(a, false), Delivery::Dropped);
    assert!(!table.contains(a));
    assert!(table.contains(b));
}
