use knotcoin::consensus::chain::{GOVERNANCE_CAP_DEFAULT_BPS, PONC_ROUNDS_DEFAULT};
use knotcoin::crypto::hash::hash_sha3_256;
use knotcoin::node::db_common::{AccountState, StoredBlock};
use knotcoin::node::store::{ChainState, GovernanceParams};

#[test]
fn db_test_account_roundtrip() {
    let mut db = ChainState::new();
    let addr = [0xABu8; 32];
    let s = AccountState {
        balance: 500_000_000,
        nonce: 3,
        referrer: Some([0xCDu8; 32]),
        last_mined_height: 42,
        total_referred_miners: 5,
        total_referral_bonus_earned: 25_000_000,
        governance_weight: 600,
        total_blocks_mined: 10,
    };
    db.put_account(&addr, &s);
    let got = db.get_account(&addr);
    assert_eq!(got.balance, 500_000_000);
    assert_eq!(got.nonce, 3);
    assert_eq!(got.last_mined_height, 42);
    assert_eq!(got.total_referred_miners, 5);
    assert_eq!(got.governance_weight, 600);
}

#[test]
fn db_test_missing_account_is_empty() {
    let mut db = ChainState::new();
    let s = db.get_account(&[0xFFu8; 32]);
    assert_eq!(s.balance, 0);
    assert_eq!(s.nonce, 0);
}

#[test]
fn db_test_block_store_and_tip() {
    let mut db = ChainState::new();
    let block = StoredBlock {
        version: [0, 0, 0, 1],
        previous_hash: [0u8; 32],
        merkle_root: [0u8; 32],
        timestamp: 100u32.to_le_bytes(),
        difficulty_target: [0xFF; 32],
        nonce: [0u8; 8],
        block_height: 0u32.to_le_bytes(),
        miner_address: [1u8; 32],
        tx_data: vec![],
    };
    let hash = [0x42u8; 32];
    db.store_block(&hash, &block);
    db.set_tip(&hash);
    let got = db.get_block(&hash).unwrap();
    assert_eq!(got.miner_address, [1u8; 32]);
    assert_eq!(db.get_tip().unwrap(), hash);
    assert_eq!(db.get_chain_height(), 0);
}

#[test]
fn db_test_governance_tallying() {
    let mut db = ChainState::new();
    let prop = [0x55u8; 32];
    let voter1 = [0x11u8; 32];
    let voter2 = [0x22u8; 32];

    // 1. Initial tally should be 0
    assert_eq!(db.get_governance_tally(&prop), 0);

    // 2. Add first vote
    db.add_governance_vote(&prop, &voter1, 500);
    assert_eq!(db.get_governance_tally(&prop), 500);

    // 3. Duplicate vote from voter1 should be ignored
    db.add_governance_vote(&prop, &voter1, 500);
    assert_eq!(db.get_governance_tally(&prop), 500);

    // 4. Vote from voter2 adds up
    db.add_governance_vote(&prop, &voter2, 300);
    assert_eq!(db.get_governance_tally(&prop), 800);
}

#[test]
fn test_governance_params_storage() {
    let mut db = ChainState::new();

    // Default params
    let default_params = db.get_governance_params();
    assert_eq!(default_params.cap_bps, knotcoin::consensus::chain::GOVERNANCE_CAP_DEFAULT_BPS);
    assert_eq!(default_params.ponc_rounds, knotcoin::consensus::chain::PONC_ROUNDS_DEFAULT);

    // Set custom params
    let custom_params = GovernanceParams { cap_bps: 750, ponc_rounds: 1024, mining_threads: 4 };
    db.set_governance_params(&custom_params);

    // Retrieve and verify
    let retrieved = db.get_governance_params();
    assert_eq!(retrieved.cap_bps, 750);
    assert_eq!(retrieved.ponc_rounds, 1024);
}

#[test]
fn test_referral_code_indexing() {
    let mut db = ChainState::new();
    let addr = [0xAAu8; 32];
    let state = AccountState::empty();

    db.put_account(&addr, &state);

    // Get referral code
    let code = hash_sha3_256(&addr);
    let mut code_bytes = [0u8; 8];
    code_bytes.copy_from_slice(&code[..8]);

    // Lookup by code
    let found = db.get_address_by_referral_code(&code_bytes);
    assert_eq!(found, Some(addr));
}

#[test]
fn db_test_block_height_lookup() {
    let mut db = ChainState::new();
    let block = StoredBlock {
        version: [0, 0, 0, 1],
        previous_hash: [0u8; 32],
        merkle_root: [0u8; 32],
        timestamp: 100u32.to_le_bytes(),
        difficulty_target: [0xFF; 32],
        nonce: [0u8; 8],
        block_height: 5u32.to_le_bytes(),
        miner_address: [1u8; 32],
        tx_data: vec![],
    };
    let hash = [0x42u8; 32];

    db.store_block(&hash, &block);

    let found_hash = db.get_block_hash_by_height(5);
    assert_eq!(found_hash, Some(hash));

    let not_found = db.get_block_hash_by_height(10);
    assert_eq!(not_found, None);
}

#[test]
fn test_multiple_proposals() {
    let mut db = ChainState::new();
    let prop1 = [0x11u8; 32];
    let prop2 = [0x22u8; 32];
    let voter = [0xAAu8; 32];

    db.add_governance_vote(&prop1, &voter, 100);
    db.add_governance_vote(&prop2, &voter, 200);

    assert_eq!(db.get_governance_tally(&prop1), 100);
    assert_eq!(db.get_governance_tally(&prop2), 200);
}

#[test]
fn test_chain_height_empty() {
    let mut db = ChainState::new();
    assert_eq!(db.get_chain_height(), 0);
}

#[test]
fn db_rocksdb_test_account_roundtrip() {
    let mut db = ChainState::new();
    let addr = [0xABu8; 32];
    let s = AccountState {
        balance: 500_000_000,
        nonce: 3,
        referrer: Some([0xCDu8; 32]),
        last_mined_height: 42,
        total_referred_miners: 5,
        total_referral_bonus_earned: 25_000_000,
        governance_weight: 600,
        total_blocks_mined: 10,
    };
    db.put_account(&addr, &s);
    let got = db.get_account(&addr);
    assert_eq!(got.balance, 500_000_000);
    assert_eq!(got.nonce, 3);
    assert_eq!(got.last_mined_height, 42);
    assert_eq!(got.total_referred_miners, 5);
    assert_eq!(got.governance_weight, 600);
}

#[test]
fn db_rocksdb_test_missing_account_is_empty() {
    let mut db = ChainState::new();
    let s = db.get_account(&[0xFFu8; 32]);
    assert_eq!(s.balance, 0);
    assert_eq!(s.nonce, 0);
}

#[test]
fn db_rocksdb_test_block_store_and_tip() {
    let mut db = ChainState::new();
    let block = StoredBlock {
        version: [0, 0, 0, 1],
        previous_hash: [0u8; 32],
        merkle_root: [0u8; 32],
        timestamp: 100u32.to_le_bytes(),
        difficulty_target: [0xFF; 32],
        nonce: [0u8; 8],
        block_height: 0u32.to_le_bytes(),
        miner_address: [1u8; 32],
        tx_data: vec![],
    };
    let hash = [0x42u8; 32];
    db.store_block(&hash, &block);
    db.set_tip(&hash);
    let got = db.get_block(&hash).unwrap();
    assert_eq!(got.miner_address, [1u8; 32]);
    assert_eq!(db.get_tip().unwrap(), hash);
    assert_eq!(db.get_chain_height(), 0);
}

#[test]
fn db_rocksdb_test_governance_tallying() {
    let mut db = ChainState::new();
    let prop = [0x55u8; 32];
    let voter1 = [0x11u8; 32];
    let voter2 = [0x22u8; 32];

    assert_eq!(db.get_governance_tally(&prop), 0);

    db.add_governance_vote(&prop, &voter1, 500);
    assert_eq!(db.get_governance_tally(&prop), 500);

    // Duplicate vote ignored
    db.add_governance_vote(&prop, &voter1, 500);
    assert_eq!(db.get_governance_tally(&prop), 500);

    db.add_governance_vote(&prop, &voter2, 300);
    assert_eq!(db.get_governance_tally(&prop), 800);
}

#[test]
fn test_referral_code_lookup() {
    let mut db = ChainState::new();
    let addr = [0xAAu8; 32];
    let state = AccountState::empty();

    db.put_account(&addr, &state);

    let code = hash_sha3_256(&addr);
    let mut code_bytes = [0u8; 8];
    code_bytes.copy_from_slice(&code[..8]);

    let found = db.get_address_by_referral_code(&code_bytes);
    assert_eq!(found, Some(addr));
}

#[test]
fn db_rocksdb_test_block_height_lookup() {
    let mut db = ChainState::new();
    let block = StoredBlock {
        version: [0, 0, 0, 1],
        previous_hash: [0u8; 32],
        merkle_root: [0u8; 32],
        timestamp: 100u32.to_le_bytes(),
        difficulty_target: [0xFF; 32],
        nonce: [0u8; 8],
        block_height: 5u32.to_le_bytes(),
        miner_address: [1u8; 32],
        tx_data: vec![],
    };
    let hash = [0x42u8; 32];

    db.store_block(&hash, &block);

    let found_hash = db.get_block_hash_by_height(5);
    assert_eq!(found_hash, Some(hash));

    let not_found = db.get_block_hash_by_height(10);
    assert_eq!(not_found, None);
}
