use knotcoin::crypto::hash::hash_sha3_256;
use knotcoin::node::db_common::{AccountState, StoredBlock, StoredTransaction};
use knotcoin::node::store::{ChainState, GovernanceParams};

#[test]
fn test_empty_database_queries() {
    let mut db = ChainState::new();
    assert_eq!(db.get_tip(), None);
    assert_eq!(db.get_chain_height(), 0);
    assert!(db.get_block(&[0u8; 32]).is_none());
    assert_eq!(db.get_block_hash_by_height(0), None);
    assert_eq!(db.get_governance_tally(&[0u8; 32]), 0);
    assert!(!db.get_governance_vote_exists(&[0u8; 32], &[0u8; 32]));
}

#[test]
fn test_account_zero_balance() {
    let mut db = ChainState::new();
    let addr = [0xFFu8; 32];
    let state = AccountState::empty();
    db.put_account(&addr, &state);
    let retrieved = db.get_account(&addr);
    assert_eq!(retrieved.balance, 0);
    assert_eq!(retrieved.nonce, 0);
}

#[test]
fn test_account_max_balance() {
    let mut db = ChainState::new();
    let addr = [0xAAu8; 32];
    let state = AccountState {
        balance: u64::MAX,
        nonce: u64::MAX,
        referrer: Some([0xBBu8; 32]),
        last_mined_height: u64::MAX,
        total_referred_miners: u64::MAX,
        total_referral_bonus_earned: u64::MAX,
        governance_weight: u64::MAX,
        total_blocks_mined: u64::MAX,
    };
    db.put_account(&addr, &state);
    let retrieved = db.get_account(&addr);
    assert_eq!(retrieved.balance, u64::MAX);
    assert_eq!(retrieved.nonce, u64::MAX);
}

#[test]
fn test_block_at_max_height() {
    let mut db = ChainState::new();
    let block = StoredBlock {
        version: [0, 0, 0, 1],
        previous_hash: [0u8; 32],
        merkle_root: [0u8; 32],
        timestamp: u32::MAX.to_le_bytes(),
        difficulty_target: [0xFF; 32],
        nonce: [0xFF; 8],
        block_height: u32::MAX.to_le_bytes(),
        miner_address: [0xFFu8; 32],
        tx_data: vec![],
    };
    let hash = [0x99u8; 32];
    db.store_block(&hash, &block);
    let retrieved = db.get_block(&hash).unwrap();
    assert_eq!(u32::from_le_bytes(retrieved.block_height), u32::MAX);
}

#[test]
fn test_duplicate_vote_attack() {
    let mut db = ChainState::new();
    let proposal = [0x77u8; 32];
    let voter = [0x88u8; 32];

    // First vote
    db.add_governance_vote(&proposal, &voter, 500);
    assert_eq!(db.get_governance_tally(&proposal), 500);

    // Attempt duplicate vote (should be ignored)
    db.add_governance_vote(&proposal, &voter, 500);
    assert_eq!(db.get_governance_tally(&proposal), 500);

    // Try with different weight (should still be ignored)
    db.add_governance_vote(&proposal, &voter, 1000);
    assert_eq!(db.get_governance_tally(&proposal), 500);
}

#[test]
fn test_governance_tally_overflow_protection() {
    let mut db = ChainState::new();
    let proposal = [0x99u8; 32];
    let voter1 = [0x11u8; 32];
    let voter2 = [0x22u8; 32];

    // Add vote near max
    db.add_governance_vote(&proposal, &voter1, u64::MAX - 100);
    assert_eq!(db.get_governance_tally(&proposal), u64::MAX - 100);

    // Add another vote (should saturate, not overflow)
    db.add_governance_vote(&proposal, &voter2, 200);
    assert_eq!(db.get_governance_tally(&proposal), u64::MAX);
}

#[test]
fn test_referral_code_collision_handling() {
    let mut db = ChainState::new();
    let addr1 = [0xAAu8; 32];
    let addr2 = [0xBBu8; 32];

    let state1 = AccountState::empty();
    let state2 = AccountState::empty();

    db.put_account(&addr1, &state1);
    db.put_account(&addr2, &state2);

    // Both addresses should be retrievable
    let code1 = hash_sha3_256(&addr1);
    let mut code1_bytes = [0u8; 8];
    code1_bytes.copy_from_slice(&code1[..8]);

    let found1 = db.get_address_by_referral_code(&code1_bytes);
    assert!(found1.is_some());
}

#[test]
fn test_large_account_batch() {
    let mut db = ChainState::new();
    let mut updates = Vec::new();

    for i in 0..1000 {
        let addr = {
            let mut a = [0u8; 32];
            a[0] = (i / 256) as u8;
            a[1] = (i % 256) as u8;
            a
        };
        let state = AccountState {
            balance: i as u64 * 1000,
            nonce: i as u64,
            referrer: None,
            last_mined_height: i as u64,
            total_referred_miners: 0,
            total_referral_bonus_earned: 0,
            governance_weight: i as u64,
            total_blocks_mined: 1,
        };
        updates.push((addr, state));
    }

    db.apply_account_batch(updates);

    // Verify random samples
    for i in [0, 100, 500, 999] {
        let addr = {
            let mut a = [0u8; 32];
            a[0] = (i / 256) as u8;
            a[1] = (i % 256) as u8;
            a
        };
        let acc = db.get_account(&addr);
        assert_eq!(acc.balance, i as u64 * 1000);
    }
}

#[test]
fn test_large_block_batch() {
    let mut db = ChainState::new();
    let mut blocks = Vec::new();

    for i in 0..500 {
        let hash = {
            let mut h = [0u8; 32];
            h[0] = (i / 256) as u8;
            h[1] = (i % 256) as u8;
            h
        };
        let block = StoredBlock {
            version: [0, 0, 0, 1],
            previous_hash: [0u8; 32],
            merkle_root: [0u8; 32],
            timestamp: (i as u32).to_le_bytes(),
            difficulty_target: [0xFF; 32],
            nonce: [0u8; 8],
            block_height: (i as u32).to_le_bytes(),
            miner_address: [i as u8; 32],
            tx_data: vec![],
        };
        blocks.push((hash, block));
    }

    db.apply_block_data_batch(blocks);

    // Verify blocks stored
    for i in [0, 100, 250, 499] {
        let hash = {
            let mut h = [0u8; 32];
            h[0] = (i / 256) as u8;
            h[1] = (i % 256) as u8;
            h
        };
        let block = db.get_block(&hash).unwrap();
        assert_eq!(u32::from_le_bytes(block.block_height), i as u32);
    }
}

#[test]
fn test_account_update_overwrite() {
    let mut db = ChainState::new();
    let addr = [0x33u8; 32];

    // Initial state
    let state1 = AccountState {
        balance: 1000,
        nonce: 1,
        referrer: None,
        last_mined_height: 0,
        total_referred_miners: 0,
        total_referral_bonus_earned: 0,
        governance_weight: 0,
        total_blocks_mined: 0,
    };
    db.put_account(&addr, &state1);

    // Update state
    let state2 = AccountState {
        balance: 2000,
        nonce: 2,
        referrer: Some([0x44u8; 32]),
        last_mined_height: 10,
        total_referred_miners: 5,
        total_referral_bonus_earned: 500,
        governance_weight: 100,
        total_blocks_mined: 1,
    };
    db.put_account(&addr, &state2);

    let retrieved = db.get_account(&addr);
    assert_eq!(retrieved.balance, 2000);
    assert_eq!(retrieved.nonce, 2);
    assert_eq!(retrieved.referrer, Some([0x44u8; 32]));
}

#[test]
fn test_block_with_many_transactions() {
    let mut db = ChainState::new();
    let mut txs = Vec::new();

    for i in 0..100 {
        let tx = StoredTransaction {
            version: 1,
            sender_address: [i as u8; 32],
            sender_pubkey: vec![0u8; 32],
            recipient_address: [(i + 1) as u8; 32],
            amount: (i as u64) * 1000,
            fee: 100,
            nonce: i as u64,
            timestamp: i as u64,
            referrer_address: None,
            governance_data: None,
            signature: vec![0u8; 64],
        };
        txs.push(tx);
    }

    let block = StoredBlock {
        version: [0, 0, 0, 1],
        previous_hash: [0u8; 32],
        merkle_root: [0u8; 32],
        timestamp: 0u32.to_le_bytes(),
        difficulty_target: [0xFF; 32],
        nonce: [0u8; 8],
        block_height: 0u32.to_le_bytes(),
        miner_address: [0xFFu8; 32],
        tx_data: txs,
    };

    let hash = [0xAAu8; 32];
    db.store_block(&hash, &block);

    let retrieved = db.get_block(&hash).unwrap();
    assert_eq!(retrieved.tx_data.len(), 100);
    assert_eq!(retrieved.tx_data[50].amount, 50000);
}

#[test]
fn test_tip_updates() {
    let mut db = ChainState::new();

    // Set initial tip
    let hash1 = [0x11u8; 32];
    db.set_tip(&hash1);
    assert_eq!(db.get_tip(), Some(hash1));

    // Update tip
    let hash2 = [0x22u8; 32];
    db.set_tip(&hash2);
    assert_eq!(db.get_tip(), Some(hash2));

    // Update again
    let hash3 = [0x33u8; 32];
    db.set_tip(&hash3);
    assert_eq!(db.get_tip(), Some(hash3));
}

#[test]
fn test_governance_params_update() {
    let mut db = ChainState::new();

    let params1 = GovernanceParams { cap_bps: 1000, ponc_rounds: 5000, mining_threads: 4 };
    db.set_governance_params(&params1);

    let retrieved1 = db.get_governance_params();
    assert_eq!(retrieved1.cap_bps, 1000);
    assert_eq!(retrieved1.ponc_rounds, 5000);

    let params2 = GovernanceParams { cap_bps: 2000, ponc_rounds: 10000, mining_threads: 4 };
    db.set_governance_params(&params2);

    let retrieved2 = db.get_governance_params();
    assert_eq!(retrieved2.cap_bps, 2000);
    assert_eq!(retrieved2.ponc_rounds, 10000);
}

#[test]
fn test_iter_accounts_empty() {
    let mut db = ChainState::new();
    let accounts = db.iter_accounts();
    assert_eq!(accounts.len(), 0);
}

#[test]
fn test_iter_accounts_multiple() {
    let mut db = ChainState::new();

    for i in 0..50 {
        let addr = [i as u8; 32];
        let state = AccountState {
            balance: (i as u64) * 1000,
            nonce: i as u64,
            referrer: None,
            last_mined_height: 0,
            total_referred_miners: 0,
            total_referral_bonus_earned: 0,
            governance_weight: 0,
            total_blocks_mined: 0,
        };
        db.put_account(&addr, &state);
    }

    let accounts = db.iter_accounts();
    assert_eq!(accounts.len(), 50);
}

#[test]
fn test_concurrent_governance_votes() {
    let mut db = ChainState::new();
    let proposal = [0x55u8; 32];

    // Use sequential voting to avoid race conditions
    // In production, votes come from different transactions in different blocks
    for i in 0..30 {
        let voter = [i as u8; 32];
        db.add_governance_vote(&proposal, &voter, 100);
    }

    let tally = db.get_governance_tally(&proposal);
    assert_eq!(tally, 3000); // 30 voters * 100 weight

    // Verify all voters are recorded
    for i in 0..30 {
        let voter = [i as u8; 32];
        assert!(db.get_governance_vote_exists(&proposal, &voter));
    }
}

#[test]
fn test_malformed_data_rejection() {
    // Test corrupted account data
    let result = AccountState::from_bytes(&[0u8; 5]);
    assert!(result.is_err());

    // Test corrupted block data
    let result = StoredBlock::from_bytes(&[0u8; 10]);
    assert!(result.is_err());

    // Test corrupted transaction data
    let result = StoredTransaction::from_bytes(&[0u8; 5]);
    assert!(result.is_err());
}
