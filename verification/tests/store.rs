use knotcoin::config::{default_data_dir, resolve_setting, NetworkConfig, P2P_PORT, RPC_PORT};
use knotcoin::crypto::hash::hash_sha3_256;
use knotcoin::node::db_common::{AccountState, StoredBlock};
use knotcoin::node::store::{make_referral_code, make_vote_key, ChainState, GovernanceParams};

fn block_at(height: u32) -> StoredBlock {
    StoredBlock {
        version: [0, 0, 0, 1],
        previous_hash: [0u8; 32],
        merkle_root: [0u8; 32],
        timestamp: 100u32.to_le_bytes(),
        difficulty_target: [0xFF; 32],
        nonce: [0u8; 8],
        block_height: height.to_le_bytes(),
        miner_address: [1u8; 32],
        tx_data: vec![],
    }
}

#[test]
fn test_empty_store_reads() {
    let db = ChainState::new();
    let a = db.get_account(&[0x99u8; 32]);
    assert_eq!(a.balance, 0);
    assert_eq!(a.nonce, 0);
    assert_eq!(a.referrer, None);
    assert!(!db.has_account(&[0x99u8; 32]));
    assert!(db.iter_accounts().is_empty());
    assert_eq!(db.get_chain_height(), 0);
    assert_eq!(db.get_tip(), None);
    assert_eq!(db.get_governance_tally(&[1u8; 32]), 0);
}

#[test]
fn test_account_roundtrip_and_overwrite() {
    let mut db = ChainState::new();
    let addr = [0x01u8; 32];
    let mut state = AccountState::empty();
    state.balance = 500;
    state.nonce = 3;
    state.referrer = Some([0x02u8; 32]);
    db.put_account(&addr, &state);
    let got = db.get_account(&addr);
    assert_eq!(got.balance, 500);
    assert_eq!(got.nonce, 3);
    assert_eq!(got.referrer, Some([0x02u8; 32]));
    state.balance = u64::MAX;
    db.put_account(&addr, &state);
    assert_eq!(db.get_account(&addr).balance, u64::MAX);
    db.put_account(&[0x03u8; 32], &AccountState::empty());
    let all = db.iter_accounts();
    assert_eq!(all.len(), 2);
    assert_eq!(all[0].0, addr);
    assert_eq!(all[1].0, [0x03u8; 32]);
}

#[test]
fn test_block_store_and_height_index() {
    let mut db = ChainState::new();
    let block = block_at(5);
    let hash = [0x42u8; 32];
    db.store_block(&hash, &block);
    assert_eq!(db.get_block_hash_by_height(5), Some(hash));
    assert_eq!(db.get_block_hash_by_height(10), None);
    assert!(db.has_block(&hash));
    assert_eq!(db.get_block(&hash).unwrap().to_bytes(), block.to_bytes());
    assert!(db.get_block(&[0u8; 32]).is_none());
    // storing a block does not move the tip
    assert_eq!(db.get_tip(), None);
    db.set_tip(&hash);
    assert_eq!(db.get_tip(), Some(hash));
    assert_eq!(db.get_chain_height(), 5);
    db.set_tip(&[0x43u8; 32]);
    assert_eq!(db.get_chain_height(), 0);
    db.store_block(&[0x44u8; 32], &block_at(u32::MAX));
    assert_eq!(db.get_block_hash_by_height(u32::MAX), Some([0x44u8; 32]));
}

#[test]
fn test_governance_votes_count_once() {
    let mut db = ChainState::new();
    let p = [0x11u8; 32];
    let q = [0x22u8; 32];
    let voter = [0xAAu8; 32];
    db.add_governance_vote(&p, &voter, 100);
    db.add_governance_vote(&q, &voter, 200);
    assert_eq!(db.get_governance_tally(&p), 100);
    assert_eq!(db.get_governance_tally(&q), 200);
    db.add_governance_vote(&p, &voter, 100);
    db.add_governance_vote(&p, &voter, 900);
    assert_eq!(db.get_governance_tally(&p), 100);
    db.add_governance_vote(&p, &[0xBBu8; 32], 50);
    assert_eq!(db.get_governance_tally(&p), 150);
    assert!(db.get_governance_vote_exists(&p, &voter));
    assert!(!db.get_governance_vote_exists(&q, &[0xBBu8; 32]));
    // the tally does not wrap
    db.add_governance_vote(&p, &[0xCCu8; 32], u64::MAX);
    assert_eq!(db.get_governance_tally(&p), u64::MAX);
    let key = make_vote_key(&p, &voter);
    assert_eq!(&key[..32], &p);
    assert_eq!(&key[32..], &voter);
}

#[test]
fn test_referral_code_index_keeps_the_first() {
    let mut db = ChainState::new();
    let addr = [0x05u8; 32];
    db.put_account(&addr, &AccountState::empty());
    let code: [u8; 8] = hash_sha3_256(&addr)[..8].try_into().unwrap();
    assert_eq!(make_referral_code(&addr), code);
    assert_eq!(db.get_address_by_referral_code(&code), Some(addr));
    assert_eq!(db.get_address_by_referral_code(&[0u8; 8]), None);
    db.put_account(&addr, &AccountState::empty());
    assert_eq!(db.get_address_by_referral_code(&code), Some(addr));
}

#[test]
fn test_governance_params_with_threads() {
    let mut db = ChainState::new();
    let p = db.get_governance_params();
    assert_eq!((p.cap_bps, p.ponc_rounds, p.mining_threads), (1000, 512, 4));
    db.set_governance_params(&GovernanceParams { cap_bps: 2000, ponc_rounds: 1024, mining_threads: 8 });
    let p = db.get_governance_params();
    assert_eq!((p.cap_bps, p.ponc_rounds, p.mining_threads), (2000, 1024, 8));
}

#[test]
fn test_config() {
    let c = NetworkConfig::mainnet("/home/knot");
    assert_eq!(c.p2p_port, 9000);
    assert_eq!(c.rpc_port, 9001);
    assert_eq!(c.data_dir, "/home/knot/.knotcoin/mainnet");
    assert_eq!(default_data_dir("."), "./.knotcoin/mainnet");
    assert_eq!((P2P_PORT, RPC_PORT), (9000, 9001));
    // the flag wins over the environment, which wins over the default
    assert_eq!(resolve_setting(Some("a".to_string()), Some("b".to_string()), "c"), "a");
    assert_eq!(resolve_setting(None, Some("b".to_string()), "c"), "b");
    assert_eq!(resolve_setting(None, None, "c"), "c");
}

#[test]
fn test_restoring_tallies_votes_and_codes() {
    let mut db = ChainState::new();
    let p = [0x11u8; 32];
    let voter = [0xAAu8; 32];
    db.set_governance_tally(&p, 777);
    assert_eq!(db.get_governance_tally(&p), 777);
    assert!(!db.has_governance_vote(&p, &voter));
    db.record_governance_vote(&p, &voter);
    assert!(db.has_governance_vote(&p, &voter));
    assert_eq!(db.get_governance_tally(&p), 777);
    // the recorded voter does not count again
    db.add_governance_vote(&p, &voter, 5);
    assert_eq!(db.get_governance_tally(&p), 777);
    db.index_referral_code(&[1u8; 8], &[2u8; 32]);
    db.index_referral_code(&[1u8; 8], &[3u8; 32]);
    assert_eq!(db.get_address_by_referral_code(&[1u8; 8]), Some([2u8; 32]));
    assert!(!db.has_account(&[2u8; 32]));
}

#[test]
fn test_governance_params_bounds() {
    let default = GovernanceParams::default();
    assert!(default.within_bounds());
    let wild = GovernanceParams { cap_bps: 10, ponc_rounds: 1_000_000, mining_threads: 0 };
    assert!(!wild.within_bounds());
    let held = wild.clamped();
    assert_eq!((held.cap_bps, held.ponc_rounds, held.mining_threads), (500, 2048, 1));
    assert!(held.within_bounds());
    let edge = GovernanceParams { cap_bps: 2000, ponc_rounds: 256, mining_threads: 8 };
    assert!(edge.within_bounds());
    let same = edge.clamped();
    assert_eq!((same.cap_bps, same.ponc_rounds, same.mining_threads), (2000, 256, 8));
    assert!(!GovernanceParams { cap_bps: 2001, ..edge }.within_bounds());
    assert!(!GovernanceParams { ponc_rounds: 255, ..edge }.within_bounds());
    assert!(!GovernanceParams { mining_threads: 9, ..edge }.within_bounds());
}
