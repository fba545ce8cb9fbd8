use ember_mesh::identity::Identity;
use ember_mesh::neighbors::PeerAddr;
use ember_mesh::node::{LogEvent, Node};
use ember_mesh::protocol::{Frame, BROADCAST_ID};
use ember_mesh::send::{ack_frame, file_transfer_bytes, hello_frame, outbound_frames};

fn local(port: u16) -> PeerAddr {
    let mut ip = [0u8; 16];
    ip[..4].copy_from_slice(&[127, 0, 0, 1]);
    PeerAddr { is_v6: false, ip, port }
}

fn wire(f: &Frame) -> Frame {
    Frame::decode(&f.encode()).expect("frame decodes")
}

fn setup() -> (Identity, Identity, Node, Node) {
    let a = Identity::from_secret([11u8; 32]);
    let b = Identity::from_secret([22u8; 32]);
    let na = Node::new(a.node_id());
    let nb = Node::new(b.node_id());
    (a, b, na, nb)
}

#[test]
fn bootstrap_handshake() {
    let (_a, b, mut na, _nb) = setup();
    let r = na.on_frame(wire(&hello_frame(&b)), local(7002), 1_000);
    assert!(na.peers.contains(&local(7002)));
    assert_eq!(r.log_output.len(), 1);
    assert!(matches!(r.log_output[0], LogEvent::NewNeighbor(p) if p.port == 7002));
    assert!(r.ack_to_send.is_none());
    // a second hello refreshes without a new-neighbor event
    let r2 = na.on_frame(wire(&hello_frame(&b)), local(7002), 2_000);
    assert!(r2.log_output.is_empty());
}

#[test]
fn broadcast_chat() {
    let (a, _b, _na, mut nb) = setup();
    let frames = outbound_frames(&a, BROADCAST_ID, b"hello world");
    assert_eq!(frames.len(), 1);
    let r = nb.on_frame(wire(&frames[0]), local(7001), 1_000);
    match &r.log_output[..] {
        [LogEvent::Chat { from, text }] => {
            assert_eq!(&from[..4], &a.node_id()[..4]);
            assert_eq!(text, b"hello world");
        }
        _ => panic!("expected one chat event"),
    }
    assert!(r.ack_to_send.is_none());
    let relay = r.frame_to_relay.expect("broadcast is relayed");
    assert_eq!(relay.header.ttl, 2);
}

#[test]
fn private_chat_with_ack() {
    let (a, b, mut na, mut nb) = setup();
    let frames = outbound_frames(&a, b.node_id(), b"ping");
    let msg_id = frames[0].header.msg_id;
    let r = nb.on_frame(wire(&frames[0]), local(7001), 1_000);
    match &r.log_output[..] {
        [LogEvent::PrivateChat { from, text }] => {
            assert_eq!(&from[..4], &a.node_id()[..4]);
            assert_eq!(text, b"ping");
        }
        _ => panic!("expected one private chat event"),
    }
    assert!(r.frame_to_relay.is_none());
    let (target, acked) = r.ack_to_send.expect("ack owed");
    assert_eq!(target.port, 7001);
    assert_eq!(acked, msg_id);
    let ack = ack_frame(&b, a.node_id(), acked);
    let r2 = na.on_frame(wire(&ack), local(7002), 1_100);
    assert!(matches!(r2.log_output[..], [LogEvent::Acknowledged(n)] if n == msg_id));
}

#[test]
fn replay_suppression() {
    let (a, b, _na, mut nb) = setup();
    let f = wire(&outbound_frames(&a, b.node_id(), b"once")[0]);
    let first = nb.on_frame(f.clone(), local(7001), 1_000);
    assert_eq!(first.log_output.len(), 1);
    assert!(first.ack_to_send.is_some());
    for _ in 0..3 {
        let r = nb.on_frame(f.clone(), local(7001), 1_000);
        assert!(r.log_output.is_empty());
        assert!(r.ack_to_send.is_none());
        assert!(r.frame_to_relay.is_none());
    }
}

#[test]
fn signature_forgery() {
    let (a, _b, _na, mut nb) = setup();
    let mut f = wire(&outbound_frames(&a, BROADCAST_ID, b"genuine")[0]);
    f.payload[30] ^= 0x01;
    let r = nb.on_frame(f, local(7001), 1_000);
    assert!(matches!(r.log_output[..], [LogEvent::InvalidSignature(p)] if p.port == 7001));
    assert!(r.frame_to_relay.is_none());
    assert!(r.ack_to_send.is_none());
    assert!(!nb.peers.contains(&local(7001)));
}

#[test]
fn file_transfer() {
    let (a, b, _na, mut nb) = setup();
    let content: Vec<u8> = (0..12345u32).map(|i| (i % 256) as u8).collect();
    let bytes = file_transfer_bytes(b"sample.bin", &content);
    let frames = outbound_frames(&a, b.node_id(), &bytes);
    assert_eq!(frames.len(), 25);
    let mut done = None;
    for (k, f) in frames.iter().enumerate() {
        let r = nb.on_frame(wire(f), local(7001), 1_000 + k as u64 * 250);
        if k < 24 {
            assert!(r.log_output.is_empty());
            assert!(r.ack_to_send.is_none());
        } else {
            assert_eq!(r.ack_to_send.map(|x| x.1), Some(f.header.msg_id));
            done = r.log_output.into_iter().next();
        }
    }
    match done {
        Some(LogEvent::FileReceived { name, content: got }) => {
            assert_eq!(name, b"sample.bin");
            assert_eq!(got, content);
        }
        _ => panic!("expected a received file"),
    }
}

#[test]
fn large_message_without_file_tag() {
    let (a, b, _na, mut nb) = setup();
    let text = vec![b'x'; 900];
    let frames = outbound_frames(&a, b.node_id(), &text);
    assert_eq!(frames.len(), 2);
    nb.on_frame(wire(&frames[1]), local(7001), 0);
    let r = nb.on_frame(wire(&frames[0]), local(7001), 0);
    assert!(matches!(&r.log_output[..], [LogEvent::Reassembled(d)] if *d == text));
}

#[test]
fn ttl_decreases_along_path() {
    let (a, _b, _na, _nb) = setup();
    let f = wire(&outbound_frames(&a, [9u8; 8], b"far away")[0]);
    assert_eq!(f.header.ttl, 3);
    let mut hop1 = Node::new([1u8; 8]);
    let mut hop2 = Node::new([2u8; 8]);
    let mut hop3 = Node::new([3u8; 8]);
    let r1 = hop1.on_frame(f, local(1), 0).frame_to_relay.expect("relayed");
    assert_eq!(r1.header.ttl, 2);
    let r2 = hop2.on_frame(wire(&r1), local(2), 0).frame_to_relay.expect("relayed");
    assert_eq!(r2.header.ttl, 1);
    let r3 = hop3.on_frame(wire(&r2), local(3), 0);
    assert!(r3.frame_to_relay.is_none());
    assert!(r3.log_output.is_empty());
}

#[test]
fn prune_dead_neighbors() {
    let (_a, b, mut na, _nb) = setup();
    na.add_peer(local(5000), 0);
    na.on_frame(wire(&hello_frame(&b)), local(7002), 10_000);
    let dead = na.prune_dead_nodes(15_000, 20_000);
    assert_eq!(dead.len(), 1);
    assert_eq!(dead[0].port, 5000);
    assert!(na.peers.contains(&local(7002)));
    assert!(!na.peers.contains(&local(5000)));
}

fn peer_list_bytes(ports: &[u16]) -> Vec<u8> {
    let mut b = (ports.len() as u64).to_le_bytes().to_vec();
    for p in ports {
        b.extend_from_slice(&0u32.to_le_bytes());
        b.extend_from_slice(&[127, 0, 0, 1]);
        b.extend_from_slice(&p.to_le_bytes());
    }
    b
}

#[test]
fn peer_list_teaches_routes() {
    let (_a, b, mut na, _nb) = setup();
    na.add_peer(local(6000), 0);
    let list = peer_list_bytes(&[6000, 7002, 6001, 6001, 6002]);
    let f = ember_mesh::send::sealed_frame(&b, BROADCAST_ID, ember_mesh::protocol::MessageType::PeerList, &list);
    let r = na.on_frame(wire(&f), local(7002), 100);
    let learned: Vec<u16> = r
        .log_output
        .iter()
        .map(|e| match e {
            LogEvent::RouteLearned(p) => p.port,
            _ => panic!("unexpected event"),
        })
        .collect();
    assert_eq!(learned, vec![6001, 6002]);
    for p in [6000, 6001, 6002, 7002] {
        assert!(na.peers.contains(&local(p)));
    }
    assert_eq!(na.peers.addresses().len(), 4);
}

#[test]
fn malformed_peer_list_teaches_nothing() {
    let (_a, b, mut na, _nb) = setup();
    let mut list = peer_list_bytes(&[6001]);
    list.pop();
    let f = ember_mesh::send::sealed_frame(&b, BROADCAST_ID, ember_mesh::protocol::MessageType::PeerList, &list);
    let r = na.on_frame(wire(&f), local(7002), 100);
    assert!(r.log_output.is_empty());
    assert_eq!(na.peers.addresses().len(), 1);
}

#[test]
fn fresh_frames_get_distinct_ids() {
    let (a, _b, _na, _nb) = setup();
    let x = outbound_frames(&a, BROADCAST_ID, b"same text");
    let y = outbound_frames(&a, BROADCAST_ID, b"same text");
    assert_ne!(x[0].header.msg_id, y[0].header.msg_id);
    assert_eq!(x[0].header.ttl, 3);
    assert_eq!(x[0].header.src_id, a.node_id());
    assert_eq!(x[0].header.sender_pubkey, a.public);
}

#[test]
fn undecryptable_payload_is_ignored_but_relayed() {
    let (a, _b, _na, mut nb) = setup();
    let garbage = vec![0u8; 40];
    let f = ember_mesh::send::build_frame(&a, BROADCAST_ID, ember_mesh::protocol::MessageType::Chat, garbage, 77);
    let r = nb.on_frame(wire(&f), local(7001), 0);
    assert!(r.log_output.is_empty());
    assert!(r.ack_to_send.is_none());
    assert_eq!(r.frame_to_relay.map(|g| g.header.ttl), Some(2));
}
