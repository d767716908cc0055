use knotcoin::node::db_common::{AccountState, StoredBlock, StoredTransaction};

#[test]
fn test_account_state_serialization() {
    let state = AccountState {
        balance: 123_456_789,
        nonce: 42,
        referrer: Some([0xABu8; 32]),
        last_mined_height: 1000,
        total_referred_miners: 5,
        total_referral_bonus_earned: 50_000_000,
        governance_weight: 300,
        total_blocks_mined: 15,
    };

    let bytes = state.to_bytes();
    let decoded = AccountState::from_bytes(&bytes).unwrap();

    assert_eq!(decoded.balance, state.balance);
    assert_eq!(decoded.nonce, state.nonce);
    assert_eq!(decoded.referrer, state.referrer);
    assert_eq!(decoded.last_mined_height, state.last_mined_height);
    assert_eq!(decoded.total_referred_miners, state.total_referred_miners);
    assert_eq!(decoded.total_referral_bonus_earned, state.total_referral_bonus_earned);
    assert_eq!(decoded.governance_weight, state.governance_weight);
    assert_eq!(decoded.total_blocks_mined, state.total_blocks_mined);
}

#[test]
fn test_account_state_no_referrer() {
    let state = AccountState {
        balance: 100,
        nonce: 1,
        referrer: None,
        last_mined_height: 0,
        total_referred_miners: 0,
        total_referral_bonus_earned: 0,
        governance_weight: 100,
        total_blocks_mined: 0,
    };

    let bytes = state.to_bytes();
    let decoded = AccountState::from_bytes(&bytes).unwrap();

    assert_eq!(decoded.referrer, None);
}

#[test]
fn test_account_serialization_roundtrip() {
    let original = AccountState {
        balance: 123456789,
        nonce: 42,
        referrer: Some([0xABu8; 32]),
        last_mined_height: 1000,
        total_referred_miners: 50,
        total_referral_bonus_earned: 5000000,
        governance_weight: 750,
        total_blocks_mined: 25,
    };

    let bytes = original.to_bytes();
    let decoded = AccountState::from_bytes(&bytes).unwrap();

    assert_eq!(decoded.balance, original.balance);
    assert_eq!(decoded.nonce, original.nonce);
    assert_eq!(decoded.referrer, original.referrer);
    assert_eq!(decoded.last_mined_height, original.last_mined_height);
    assert_eq!(decoded.total_referred_miners, original.total_referred_miners);
    assert_eq!(decoded.total_referral_bonus_earned, original.total_referral_bonus_earned);
    assert_eq!(decoded.governance_weight, original.governance_weight);
    assert_eq!(decoded.total_blocks_mined, original.total_blocks_mined);
}

#[test]
fn test_block_serialization_roundtrip() {
    let original = StoredBlock {
        version: [0, 0, 0, 1],
        previous_hash: [0xAAu8; 32],
        merkle_root: [0xBBu8; 32],
        timestamp: 1234567890u32.to_le_bytes(),
        difficulty_target: [0xFFu8; 32],
        nonce: [0x11, 0x22, 0x33, 0x44, 0x55, 0x66, 0x77, 0x88],
        block_height: 12345u32.to_le_bytes(),
        miner_address: [0xCCu8; 32],
        tx_data: vec![],
    };

    let bytes = original.to_bytes();
    let decoded = StoredBlock::from_bytes(&bytes).unwrap();

    assert_eq!(decoded.version, original.version);
    assert_eq!(decoded.previous_hash, original.previous_hash);
    assert_eq!(decoded.merkle_root, original.merkle_root);
    assert_eq!(decoded.timestamp, original.timestamp);
    assert_eq!(decoded.difficulty_target, original.difficulty_target);
    assert_eq!(decoded.nonce, original.nonce);
    assert_eq!(decoded.block_height, original.block_height);
    assert_eq!(decoded.miner_address, original.miner_address);
}

#[test]
fn test_transaction_serialization_roundtrip() {
    let original = StoredTransaction {
        version: 1,
        sender_address: [0x11u8; 32],
        sender_pubkey: vec![0xAAu8; 32],
        recipient_address: [0x22u8; 32],
        amount: 1000000,
        fee: 1000,
        nonce: 5,
        timestamp: 1234567890,
        referrer_address: Some([0x33u8; 32]),
        governance_data: Some([0x44u8; 32]),
        signature: vec![0xBBu8; 64],
    };

    let bytes = original.to_bytes();
    let (decoded, _) = StoredTransaction::from_bytes(&bytes).unwrap();

    assert_eq!(decoded.version, original.version);
    assert_eq!(decoded.sender_address, original.sender_address);
    assert_eq!(decoded.sender_pubkey, original.sender_pubkey);
    assert_eq!(decoded.recipient_address, original.recipient_address);
    assert_eq!(decoded.amount, original.amount);
    assert_eq!(decoded.fee, original.fee);
    assert_eq!(decoded.nonce, original.nonce);
    assert_eq!(decoded.timestamp, original.timestamp);
    assert_eq!(decoded.referrer_address, original.referrer_address);
    assert_eq!(decoded.governance_data, original.governance_data);
    assert_eq!(decoded.signature, original.signature);
}

fn sample_tx(tag: u8, referrer: bool, proposal: bool) -> StoredTransaction {
    StoredTransaction {
        version: 1,
        sender_address: [tag; 32],
        sender_pubkey: vec![tag; 40],
        recipient_address: [tag ^ 0xFF; 32],
        amount: 7 + tag as u64,
        fee: 3,
        nonce: 9,
        timestamp: 1_700_000_000,
        referrer_address: if referrer { Some([0x33u8; 32]) } else { None },
        governance_data: if proposal { Some([0x44u8; 32]) } else { None },
        signature: vec![tag; 70],
    }
}

#[test]
fn test_account_bytes_layout() {
    let state = AccountState {
        balance: 0x0102030405060708,
        nonce: 2,
        referrer: None,
        last_mined_height: 3,
        total_referred_miners: 4,
        total_referral_bonus_earned: 5,
        governance_weight: 6,
        total_blocks_mined: 7,
    };
    let bytes = state.to_bytes();
    assert_eq!(bytes.len(), 57);
    assert_eq!(&bytes[0..8], &[8, 7, 6, 5, 4, 3, 2, 1]);
    assert_eq!(bytes[8], 2);
    assert_eq!(bytes[16], 0);
    assert_eq!(bytes[17], 3);
    assert_eq!(bytes[49], 7);
    let with = AccountState { referrer: Some([9u8; 32]), ..state };
    let bytes = with.to_bytes();
    assert_eq!(bytes.len(), 89);
    assert_eq!(bytes[16], 1);
    assert_eq!(&bytes[17..49], &[9u8; 32]);
    assert_eq!(bytes[49], 3);
}

#[test]
fn test_account_missing_suffix_reads_as_zero() {
    let state = AccountState {
        balance: 11,
        nonce: 22,
        referrer: None,
        last_mined_height: 33,
        total_referred_miners: 44,
        total_referral_bonus_earned: 55,
        governance_weight: 66,
        total_blocks_mined: 77,
    };
    let bytes = state.to_bytes();
    // an older record that ends behind total_referred_miners
    let old = AccountState::from_bytes(&bytes[..33]).unwrap();
    assert_eq!(old.balance, 11);
    assert_eq!(old.nonce, 22);
    assert_eq!(old.last_mined_height, 33);
    assert_eq!(old.total_referred_miners, 44);
    assert_eq!(old.total_referral_bonus_earned, 0);
    assert_eq!(old.governance_weight, 0);
    assert_eq!(old.total_blocks_mined, 0);
    // a field that is cut in the middle reads as zero too
    let cut = AccountState::from_bytes(&bytes[..30]).unwrap();
    assert_eq!(cut.last_mined_height, 33);
    assert_eq!(cut.total_referred_miners, 0);
    let shortest = AccountState::from_bytes(&bytes[..17]).unwrap();
    assert_eq!(shortest.last_mined_height, 0);
}

#[test]
fn test_account_errors() {
    assert_eq!(AccountState::from_bytes(&[0u8; 16]).unwrap_err(), "account record too short");
    let mut d = vec![0u8; 48];
    d[16] = 1;
    assert_eq!(AccountState::from_bytes(&d).unwrap_err(), "truncated referrer");
    d.push(0);
    assert!(AccountState::from_bytes(&d).is_ok());
    let empty = AccountState::empty();
    assert_eq!(empty.balance, 0);
    assert_eq!(empty.referrer, None);
    assert_eq!(AccountState::default().nonce, 0);
}

#[test]
fn test_transaction_roundtrip_all_shapes() {
    for (referrer, proposal) in [(false, false), (true, false), (false, true), (true, true)] {
        let tx = sample_tx(5, referrer, proposal);
        let bytes = tx.to_bytes();
        let expected = 1 + 32 + 4 + 40 + 32 + 32 + 1 + 1 + 4 + 70
            + if referrer { 32 } else { 0 }
            + if proposal { 32 } else { 0 };
        assert_eq!(bytes.len(), expected);
        let (back, used) = StoredTransaction::from_bytes(&bytes).unwrap();
        assert_eq!(used, bytes.len());
        assert_eq!(back.referrer_address, tx.referrer_address);
        assert_eq!(back.governance_data, tx.governance_data);
        assert_eq!(back.signature, tx.signature);
        assert_eq!(back.sender_pubkey, tx.sender_pubkey);
        assert_eq!(back.amount, tx.amount);
    }
}

#[test]
fn test_transaction_errors() {
    let bytes = sample_tx(1, true, true).to_bytes();
    assert_eq!(StoredTransaction::from_bytes(&[]).unwrap_err(), "tx too short: missing version");
    assert_eq!(StoredTransaction::from_bytes(&bytes[..20]).unwrap_err(), "tx: missing sender_address");
    assert_eq!(StoredTransaction::from_bytes(&bytes[..35]).unwrap_err(), "tx: missing pubkey len");
    assert_eq!(StoredTransaction::from_bytes(&bytes[..50]).unwrap_err(), "tx: missing pubkey data");
    assert_eq!(StoredTransaction::from_bytes(&bytes[..80]).unwrap_err(), "tx: missing recipient");
    assert_eq!(
        StoredTransaction::from_bytes(&bytes[..120]).unwrap_err(),
        "tx: missing core scalar fields"
    );
    // 141 bytes end behind the scalar fields: a transaction without optional fields
    let (t, used) = StoredTransaction::from_bytes(&bytes[..141]).unwrap();
    assert_eq!(used, 141);
    assert_eq!(t.referrer_address, None);
    assert!(t.signature.is_empty());
    assert_eq!(
        StoredTransaction::from_bytes(&bytes[..150]).unwrap_err(),
        "tx: truncated referrer address"
    );
    assert_eq!(
        StoredTransaction::from_bytes(&bytes[..180]).unwrap_err(),
        "tx: truncated governance data"
    );
    assert_eq!(
        StoredTransaction::from_bytes(&bytes[..bytes.len() - 1]).unwrap_err(),
        "tx: truncated signature"
    );
}

#[test]
fn test_block_roundtrip_with_transactions() {
    let block = StoredBlock {
        version: [1, 0, 0, 0],
        previous_hash: [0xAAu8; 32],
        merkle_root: [0xBBu8; 32],
        timestamp: 77u32.to_le_bytes(),
        difficulty_target: [0xFFu8; 32],
        nonce: [1, 2, 3, 4, 5, 6, 7, 8],
        block_height: 9u32.to_le_bytes(),
        miner_address: [0xCCu8; 32],
        tx_data: vec![sample_tx(1, false, false), sample_tx(2, true, true), sample_tx(3, false, true)],
    };
    let bytes = block.to_bytes();
    assert_eq!(&bytes[148..152], &[3, 0, 0, 0]);
    let back = StoredBlock::from_bytes(&bytes).unwrap();
    assert_eq!(back.tx_data.len(), 3);
    for i in 0..3 {
        assert_eq!(back.tx_data[i].to_bytes(), block.tx_data[i].to_bytes());
    }
    assert_eq!(back.to_bytes(), bytes);
    assert_eq!(back.height(), 9);
    assert_eq!(back.time(), 77);
    // the header alone is a block without transactions
    let bare = StoredBlock::from_bytes(&bytes[..148]).unwrap();
    assert!(bare.tx_data.is_empty());
    assert_eq!(StoredBlock::from_bytes(&bytes[..147]).unwrap_err(), "block header too short");
    // a count that promises more transactions than follow
    assert!(StoredBlock::from_bytes(&bytes[..bytes.len() - 5]).is_err());
}

#[test]
fn test_header_bytes_and_prefix() {
    let block = StoredBlock {
        version: [1, 2, 3, 4],
        previous_hash: [0x11u8; 32],
        merkle_root: [0x22u8; 32],
        timestamp: [5, 6, 7, 8],
        difficulty_target: [0x33u8; 32],
        nonce: [9, 10, 11, 12, 13, 14, 15, 16],
        block_height: [17, 18, 19, 20],
        miner_address: [0x44u8; 32],
        tx_data: vec![],
    };
    let header = block.header_bytes();
    assert_eq!(&header[0..4], &[1, 2, 3, 4]);
    assert_eq!(&header[4..36], &[0x11u8; 32]);
    assert_eq!(&header[36..68], &[0x22u8; 32]);
    assert_eq!(&header[68..72], &[5, 6, 7, 8]);
    assert_eq!(&header[72..104], &[0x33u8; 32]);
    assert_eq!(&header[104..112], &[9, 10, 11, 12, 13, 14, 15, 16]);
    assert_eq!(&header[112..116], &[17, 18, 19, 20]);
    assert_eq!(&header[116..148], &[0x44u8; 32]);
    let prefix = block.header_prefix();
    assert_eq!(&prefix[0..104], &header[0..104]);
    assert_eq!(&prefix[104..108], &[17, 18, 19, 20]);
    assert_eq!(&prefix[108..140], &[0x44u8; 32]);
    assert_eq!(&block.to_bytes()[..148], &header[..]);
    let copy = block.duplicate();
    assert_eq!(copy.to_bytes(), block.to_bytes());
}
