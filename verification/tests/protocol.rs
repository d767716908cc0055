use knotcoin::net::protocol::{
    read_hash, read_hashes, read_u32, read_u64, take_frame, write_hashes, write_u32, write_u64,
    FrameStep, MsgType, NetworkMessage, PeerAddr,
};
use knotcoin::node::db_common::StoredBlock;

fn roundtrip(msg: NetworkMessage) -> NetworkMessage {
    let enc = msg.encode();
    NetworkMessage::decode(&enc).expect("decode failed")
}

#[test]
fn test_version() {
    let m = roundtrip(NetworkMessage::Version { height: 12345 });
    if let NetworkMessage::Version { height } = m {
        assert_eq!(height, 12345);
    } else {
        panic!("wrong type");
    }
}

#[test]
fn test_blocks_roundtrip() {
    let raw1 = vec![0xABu8; 148];
    let raw2 = vec![0xCDu8; 160];
    let m = roundtrip(NetworkMessage::Blocks(vec![raw1.clone(), raw2.clone()]));
    if let NetworkMessage::Blocks(blocks) = m {
        assert_eq!(blocks[0], raw1);
        assert_eq!(blocks[1], raw2);
    } else {
        panic!("wrong type");
    }
}

#[test]
fn test_get_headers() {
    let h = [0x42u8; 32];
    let m = roundtrip(NetworkMessage::GetHeaders { from_hash: h });
    if let NetworkMessage::GetHeaders { from_hash } = m {
        assert_eq!(from_hash, h);
    } else {
        panic!("wrong type");
    }
}

#[test]
fn test_ping_pong() {
    let m = roundtrip(NetworkMessage::Ping(9999999));
    if let NetworkMessage::Ping(n) = m {
        assert_eq!(n, 9999999);
    } else {
        panic!();
    }
}

#[test]
fn test_bad_magic_rejected() {
    let mut enc = NetworkMessage::Verack.encode();
    enc[0] = 0xFF;
    assert!(NetworkMessage::decode(&enc).is_none());
}

#[test]
fn test_exact_frames() {
    assert_eq!(NetworkMessage::Verack.encode(), vec![0x4B, 0x4E, 0x4F, 0x54, 1, 0, 0, 0, 0x02]);
    assert_eq!(
        NetworkMessage::Version { height: 0x01020304 }.encode(),
        vec![0x4B, 0x4E, 0x4F, 0x54, 5, 0, 0, 0, 0x01, 4, 3, 2, 1]
    );
    assert_eq!(
        NetworkMessage::Ping(1).encode(),
        vec![0x4B, 0x4E, 0x4F, 0x54, 9, 0, 0, 0, 0x20, 1, 0, 0, 0, 0, 0, 0, 0]
    );
    assert_eq!(NetworkMessage::Pong(0).encode()[8], 0x21);
    assert_eq!(NetworkMessage::GetAddr.encode()[8], 0x41);
    assert_eq!(NetworkMessage::Challenge([9u8; 32]).encode()[8], 0x30);
    assert_eq!(NetworkMessage::Response([9u8; 32]).encode()[8], 0x31);
    assert_eq!(NetworkMessage::Tx(vec![7, 8]).encode(), vec![0x4B, 0x4E, 0x4F, 0x54, 3, 0, 0, 0, 0x50, 7, 8]);
    let headers = NetworkMessage::Headers(vec![[1u8; 32], [2u8; 32]]).encode();
    assert_eq!(headers.len(), 8 + 1 + 4 + 64);
    assert_eq!(&headers[8..13], &[0x11, 2, 0, 0, 0]);
    assert_eq!(&headers[45..77], &[2u8; 32]);
    let blocks = NetworkMessage::Blocks(vec![vec![5, 6, 7]]).encode();
    assert_eq!(&blocks[8..], &[0x13, 1, 0, 0, 0, 3, 0, 0, 0, 5, 6, 7]);
    let addrs = NetworkMessage::Addr(vec![
        PeerAddr::V4 { ip: [1, 2, 3, 4], port: 0x2328 },
        PeerAddr::V6 { ip: [0xAA; 16], port: 1 },
    ])
    .encode();
    assert_eq!(&addrs[8..13], &[0x40, 2, 0, 0, 0]);
    // the port is written most significant byte first
    assert_eq!(&addrs[13..20], &[0x04, 1, 2, 3, 4, 0x23, 0x28]);
    assert_eq!(addrs[20], 0x06);
    assert_eq!(&addrs[37..39], &[0, 1]);
}

#[test]
fn test_every_kind_roundtrips() {
    let messages = vec![
        NetworkMessage::Version { height: u32::MAX },
        NetworkMessage::Verack,
        NetworkMessage::GetHeaders { from_hash: [3u8; 32] },
        NetworkMessage::Headers(vec![]),
        NetworkMessage::Headers((0..2000u32).map(|i| [i as u8; 32]).collect()),
        NetworkMessage::GetBlocks { hashes: vec![[4u8; 32]; 3] },
        NetworkMessage::Blocks(vec![]),
        NetworkMessage::Blocks(vec![vec![], vec![1], vec![2; 300]]),
        NetworkMessage::Ping(u64::MAX),
        NetworkMessage::Pong(77),
        NetworkMessage::Challenge([5u8; 32]),
        NetworkMessage::Response([6u8; 32]),
        NetworkMessage::Addr(vec![]),
        NetworkMessage::Addr(vec![
            PeerAddr::V4 { ip: [10, 0, 0, 1], port: 9000 },
            PeerAddr::V6 { ip: [0xFE; 16], port: 65535 },
            PeerAddr::V4 { ip: [255, 255, 255, 255], port: 0 },
        ]),
        NetworkMessage::GetAddr,
        NetworkMessage::Tx(vec![]),
        NetworkMessage::Tx(vec![9; 5000]),
    ];
    for m in messages {
        let frame = m.encode();
        let back = NetworkMessage::decode(&frame).unwrap();
        assert_eq!(back.encode(), frame);
        assert_eq!(back.kind(), m.kind());
        if let (NetworkMessage::Addr(a), NetworkMessage::Addr(b)) = (&m, &back) {
            assert_eq!(a, b);
        }
    }
}

#[test]
fn test_limits() {
    let over = NetworkMessage::Headers(vec![[0u8; 32]; 2001]).encode();
    assert!(NetworkMessage::decode(&over).is_none());
    let over = NetworkMessage::GetBlocks { hashes: vec![[0u8; 32]; 2001] }.encode();
    assert!(NetworkMessage::decode(&over).is_none());
    let at = NetworkMessage::Blocks(vec![vec![1]; 500]).encode();
    assert!(NetworkMessage::decode(&at).is_some());
    let over = NetworkMessage::Blocks(vec![vec![1]; 501]).encode();
    assert!(NetworkMessage::decode(&over).is_none());
    let at = NetworkMessage::Addr(vec![PeerAddr::V4 { ip: [1, 1, 1, 1], port: 1 }; 1000]).encode();
    assert!(NetworkMessage::decode(&at).is_some());
    let over = NetworkMessage::Addr(vec![PeerAddr::V4 { ip: [1, 1, 1, 1], port: 1 }; 1001]).encode();
    assert!(NetworkMessage::decode(&over).is_none());
}

#[test]
fn test_malformed_frames() {
    assert!(NetworkMessage::decode(&[]).is_none());
    assert!(NetworkMessage::decode(&[0x4B, 0x4E, 0x4F, 0x54, 0, 0, 0, 0]).is_none());
    // a payload needs its kind byte
    assert!(NetworkMessage::decode(&[0x4B, 0x4E, 0x4F, 0x54, 0, 0, 0, 0, 0x02]).is_none());
    // an unknown kind
    assert!(NetworkMessage::decode(&[0x4B, 0x4E, 0x4F, 0x54, 1, 0, 0, 0, 0x99]).is_none());
    // a length that overruns the frame
    assert!(NetworkMessage::decode(&[0x4B, 0x4E, 0x4F, 0x54, 2, 0, 0, 0, 0x02]).is_none());
    // bodies that are too short
    for kind in [0x01u8, 0x10, 0x11, 0x12, 0x13, 0x20, 0x21, 0x30, 0x31, 0x40] {
        assert!(NetworkMessage::decode(&[0x4B, 0x4E, 0x4F, 0x54, 2, 0, 0, 0, kind, 0]).is_none());
    }
    // an address of an unknown family
    let mut addr = NetworkMessage::Addr(vec![PeerAddr::V4 { ip: [1, 2, 3, 4], port: 5 }]).encode();
    addr[13] = 0x05;
    assert!(NetworkMessage::decode(&addr).is_none());
    // a block that is cut off
    let blocks = NetworkMessage::Blocks(vec![vec![1, 2, 3]]).encode();
    let mut cut = blocks[..blocks.len() - 1].to_vec();
    cut[4] -= 1;
    assert!(NetworkMessage::decode(&cut).is_none());
    // bytes behind the payload are not looked at
    let mut long = NetworkMessage::Ping(5).encode();
    long.extend_from_slice(&[1, 2, 3]);
    assert!(matches!(NetworkMessage::decode(&long), Some(NetworkMessage::Ping(5))));
}

#[test]
fn test_msg_type_codes() {
    let kinds = [
        (MsgType::Version, 0x01u8),
        (MsgType::Verack, 0x02),
        (MsgType::GetHeaders, 0x10),
        (MsgType::Headers, 0x11),
        (MsgType::GetBlocks, 0x12),
        (MsgType::Blocks, 0x13),
        (MsgType::Ping, 0x20),
        (MsgType::Pong, 0x21),
        (MsgType::Challenge, 0x30),
        (MsgType::Response, 0x31),
        (MsgType::Addr, 0x40),
        (MsgType::GetAddr, 0x41),
        (MsgType::Tx, 0x50),
    ];
    for (kind, code) in kinds {
        assert_eq!(kind.code(), code);
        assert_eq!(MsgType::from_u8(code), Some(kind));
    }
    let known: Vec<u8> = kinds.iter().map(|k| k.1).collect();
    for v in 0..=255u8 {
        assert_eq!(MsgType::from_u8(v).is_some(), known.contains(&v));
    }
}

#[test]
fn test_readers_and_writers() {
    let mut buf = Vec::new();
    write_u32(&mut buf, 0xAABBCCDD);
    write_u64(&mut buf, 0x0102030405060708);
    write_hashes(&mut buf, &[[7u8; 32]]);
    assert_eq!(&buf[..4], &[0xDD, 0xCC, 0xBB, 0xAA]);
    assert_eq!(&buf[4..12], &[8, 7, 6, 5, 4, 3, 2, 1]);
    assert_eq!(&buf[12..16], &[1, 0, 0, 0]);
    let mut off = 0usize;
    assert_eq!(read_u32(&buf, &mut off), Some(0xAABBCCDD));
    assert_eq!(off, 4);
    assert_eq!(read_u64(&buf, &mut off), Some(0x0102030405060708));
    assert_eq!(off, 12);
    assert_eq!(read_hashes(&buf[12..]), Some(vec![[7u8; 32]]));
    off = 16;
    assert_eq!(read_hash(&buf, &mut off), Some([7u8; 32]));
    assert_eq!(off, 48);
    // at the end nothing is read and the offset stays
    assert_eq!(read_u32(&buf, &mut off), None);
    assert_eq!(read_u64(&buf, &mut off), None);
    assert_eq!(read_hash(&buf, &mut off), None);
    assert_eq!(off, 48);
    off = 46;
    assert_eq!(read_u32(&buf, &mut off), None);
    assert_eq!(off, 46);
    assert_eq!(read_hashes(&[2, 0, 0, 0, 1]), None);
    assert_eq!(read_hashes(&[0, 0, 0, 0]), Some(vec![]));
    assert_eq!(read_hashes(&[0, 0, 0]), None);
}

#[test]
fn test_into_stored_blocks() {
    let block = StoredBlock {
        version: [1, 0, 0, 0],
        previous_hash: [1u8; 32],
        merkle_root: [2u8; 32],
        timestamp: [3u8; 4],
        difficulty_target: [4u8; 32],
        nonce: [5u8; 8],
        block_height: [6u8; 4],
        miner_address: [7u8; 32],
        tx_data: vec![],
    };
    let msg = NetworkMessage::Blocks(vec![block.to_bytes(), block.to_bytes()]);
    let blocks = msg.into_stored_blocks().unwrap();
    assert_eq!(blocks.len(), 2);
    assert_eq!(blocks[1].to_bytes(), block.to_bytes());
    assert!(NetworkMessage::Blocks(vec![block.to_bytes(), vec![1, 2]]).into_stored_blocks().is_none());
    assert!(NetworkMessage::Verack.into_stored_blocks().is_none());
    assert_eq!(NetworkMessage::Blocks(vec![]).into_stored_blocks().unwrap().len(), 0);
}

#[test]
fn test_frames_come_off_the_buffer_in_order() {
    let mut buf = Vec::new();
    assert!(matches!(take_frame(&mut buf), FrameStep::NeedMore));
    let first = NetworkMessage::Ping(1).encode();
    let second = NetworkMessage::Verack.encode();
    buf.extend_from_slice(&first[..10]);
    assert!(matches!(take_frame(&mut buf), FrameStep::NeedMore));
    assert_eq!(buf.len(), 10);
    buf.extend_from_slice(&first[10..]);
    buf.extend_from_slice(&second);
    buf.extend_from_slice(&[0x4B, 0x4E]);
    assert!(matches!(take_frame(&mut buf), FrameStep::Frame(Some(NetworkMessage::Ping(1)))));
    assert!(matches!(take_frame(&mut buf), FrameStep::Frame(Some(NetworkMessage::Verack))));
    assert_eq!(buf, vec![0x4B, 0x4E]);
    assert!(matches!(take_frame(&mut buf), FrameStep::NeedMore));
    // a frame that is no message is taken off all the same
    let mut bad = vec![0, 0, 0, 0, 1, 0, 0, 0, 0x02, 9, 9];
    assert!(matches!(take_frame(&mut bad), FrameStep::Frame(None)));
    assert_eq!(bad, vec![9, 9]);
}

#[test]
fn test_frame_of_more_than_one_mebibyte() {
    let mut at = vec![0x4B, 0x4E, 0x4F, 0x54, 0x00, 0x00, 0x10, 0x00];
    assert!(matches!(take_frame(&mut at), FrameStep::NeedMore));
    let mut over = vec![0x4B, 0x4E, 0x4F, 0x54, 0x01, 0x00, 0x10, 0x00, 1, 2, 3];
    assert!(matches!(take_frame(&mut over), FrameStep::TooLarge));
    assert_eq!(over.len(), 11);
    let mut huge = vec![0x4B, 0x4E, 0x4F, 0x54, 0xFF, 0xFF, 0xFF, 0xFF];
    assert!(matches!(take_frame(&mut huge), FrameStep::TooLarge));
}
