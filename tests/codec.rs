use ember_mesh::chunker::Chunk;
use ember_mesh::payload::{decode_ack, decode_peer_list, encode_ack};
use ember_mesh::protocol::{Frame, Header, MessageType, BROADCAST_ID, CURRENT_VERSION, MAGIC_BYTES};

fn sample_frame() -> Frame {
    Frame {
        header: Header {
            magic: MAGIC_BYTES,
            version: CURRENT_VERSION,
            msg_type: MessageType::Chat,
            ttl: 3,
            flags: 0,
            msg_id: 0x0102030405060708,
            src_id: [1, 2, 3, 4, 5, 6, 7, 8],
            dest_id: BROADCAST_ID,
            sender_pubkey: [9u8; 32],
            payload_len: 3,
        },
        payload: vec![0xaa, 0xbb, 0xcc],
        signature: vec![7u8; 64],
    }
}

#[test]
fn frame_encoding_layout() {
    let b = sample_frame().encode();
    assert_eq!(b.len(), 64 + 8 + 3 + 8 + 64);
    assert_eq!(&b[0..2], &[0x01, 0xEB]);
    assert_eq!(b[2], 1);
    assert_eq!(b[3], 0x03);
    assert_eq!(b[4], 3);
    assert_eq!(&b[6..14], &[8, 7, 6, 5, 4, 3, 2, 1]);
    assert_eq!(&b[62..64], &[3, 0]);
    assert_eq!(&b[64..72], &[3, 0, 0, 0, 0, 0, 0, 0]);
    assert_eq!(&b[72..75], &[0xaa, 0xbb, 0xcc]);
    assert_eq!(&b[75..83], &[64, 0, 0, 0, 0, 0, 0, 0]);
}

#[test]
fn frame_round_trip() {
    let b = sample_frame().encode();
    let f = Frame::decode(&b).expect("decodes");
    assert_eq!(f.encode(), b);
    assert_eq!(f.header.msg_id, 0x0102030405060708);
    assert_eq!(f.payload, vec![0xaa, 0xbb, 0xcc]);
}

#[test]
fn frame_decode_rejects_malformed() {
    let b = sample_frame().encode();
    assert!(Frame::decode(&b[..b.len() - 1]).is_none());
    let mut longer = b.clone();
    longer.push(0);
    assert!(Frame::decode(&longer).is_none());
    let mut bad_type = b.clone();
    bad_type[3] = 0x06;
    assert!(Frame::decode(&bad_type).is_none());
    assert!(Frame::decode(&[]).is_none());
    let mut unknown = b;
    unknown[3] = 0xFF;
    assert_eq!(Frame::decode(&unknown).unwrap().header.msg_type, MessageType::Unknown);
}

#[test]
fn structure_and_ttl() {
    let mut f = sample_frame();
    assert!(f.is_valid_structure());
    f.header.payload_len = 4;
    assert!(!f.is_valid_structure());
    f.header.payload_len = 3;
    f.header.magic = 0xEB02;
    assert!(!f.is_valid_structure());
    f.header.magic = MAGIC_BYTES;
    f.header.ttl = 0;
    assert!(!f.is_valid_structure());
    f.header.ttl = 2;
    assert!(f.decrement_ttl());
    assert_eq!(f.header.ttl, 1);
    assert!(!f.decrement_ttl());
    assert_eq!(f.header.ttl, 1);
}

#[test]
fn signing_bytes_ignore_ttl_and_flags() {
    let mut f = sample_frame();
    let a = f.signing_bytes();
    f.header.ttl = 1;
    f.header.flags = 9;
    assert_eq!(f.signing_bytes(), a);
    assert_eq!(a[4], 0);
    assert_eq!(a[5], 0);
    assert_eq!(a.len(), 64 + 3);
}

#[test]
fn chunk_round_trip_matches_bincode() {
    let c = Chunk { msg_id: 42, total: 3, index: 1, data: vec![1, 2, 3] };
    let b = c.encode();
    let expected = bincode::serialize(&(42u64, 3u32, 1u32, vec![1u8, 2, 3])).unwrap();
    assert_eq!(b, expected);
    let d = Chunk::decode(&b).unwrap();
    assert_eq!((d.msg_id, d.total, d.index, d.data), (42, 3, 1, vec![1, 2, 3]));
    assert!(Chunk::decode(&b[..b.len() - 1]).is_none());
}

#[test]
fn ack_payload_matches_bincode() {
    let b = encode_ack(0xdead_beef);
    assert_eq!(b, bincode::serialize(&0xdead_beefu64).unwrap());
    assert_eq!(decode_ack(&b), Some(0xdead_beef));
    assert_eq!(decode_ack(&b[..7]), None);
}

#[test]
fn peer_list_decodes_tagged_addresses() {
    let mut b = bincode::serialize(&2u64).unwrap();
    b.extend_from_slice(&0u32.to_le_bytes());
    b.extend_from_slice(&[127, 0, 0, 1]);
    b.extend_from_slice(&7001u16.to_le_bytes());
    b.extend_from_slice(&1u32.to_le_bytes());
    let mut v6 = [0u8; 16];
    v6[15] = 1;
    b.extend_from_slice(&v6);
    b.extend_from_slice(&9000u16.to_le_bytes());
    let v = decode_peer_list(&b).expect("decodes");
    assert_eq!(v.len(), 2);
    assert!(!v[0].is_v6);
    assert_eq!(&v[0].ip[..4], &[127, 0, 0, 1]);
    assert_eq!(v[0].port, 7001);
    assert!(v[1].is_v6);
    assert_eq!(v[1].ip[15], 1);
    assert_eq!(v[1].port, 9000);
    assert!(decode_peer_list(&b[..b.len() - 1]).is_none());
    let mut bad_tag = b.clone();
    bad_tag[8] = 2;
    assert!(decode_peer_list(&bad_tag).is_none());
}
