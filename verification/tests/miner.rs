use knotcoin::consensus::chain::calculate_new_difficulty;
use knotcoin::consensus::state::{apply_block, block_hash};
use knotcoin::crypto::hash::hash_sha3_256;
use knotcoin::miner::miner::{
    build_template, merkle_root, mining_thread_count, next_difficulty, seal_block, MAX_TXS,
};
use knotcoin::node::db_common::{StoredBlock, StoredTransaction};
use knotcoin::node::store::{ChainState, GovernanceParams};

const NOW: u64 = 10_000_000;

fn block_at(height: u32, time: u32, prev: [u8; 32]) -> StoredBlock {
    let mut target = [0u8; 32];
    target[10] = 0x64;
    StoredBlock {
        version: [1, 0, 0, 0],
        previous_hash: prev,
        merkle_root: [0u8; 32],
        timestamp: time.to_le_bytes(),
        difficulty_target: target,
        nonce: [0u8; 8],
        block_height: height.to_le_bytes(),
        miner_address: [0x07u8; 32],
        tx_data: vec![],
    }
}

fn tx(tag: u8) -> StoredTransaction {
    StoredTransaction {
        version: 1,
        sender_address: [tag; 32],
        sender_pubkey: vec![tag; 8],
        recipient_address: [2u8; 32],
        amount: 1,
        fee: 1,
        nonce: 1,
        timestamp: 1,
        referrer_address: None,
        governance_data: None,
        signature: vec![tag; 8],
    }
}

#[test]
fn test_merkle_root_of_serialised_transactions() {
    assert_eq!(merkle_root(&[]), [0u8; 32]);
    let a = hash_sha3_256(&tx(1).to_bytes());
    let b = hash_sha3_256(&tx(2).to_bytes());
    let c = hash_sha3_256(&tx(3).to_bytes());
    assert_eq!(merkle_root(&[tx(1)]), a);
    let join = |x: &[u8; 32], y: &[u8; 32]| hash_sha3_256(&[x.to_vec(), y.to_vec()].concat());
    assert_eq!(merkle_root(&[tx(1), tx(2)]), join(&a, &b));
    assert_eq!(merkle_root(&[tx(1), tx(2), tx(3)]), join(&join(&a, &b), &join(&c, &c)));
    assert_eq!(MAX_TXS, 6);
}

#[test]
fn test_template_needs_a_tip() {
    let db = ChainState::new();
    assert!(build_template(&db, vec![], &[1u8; 32], 5).is_none());
    let mut db = ChainState::new();
    db.set_tip(&[9u8; 32]);
    assert!(build_template(&db, vec![], &[1u8; 32], 5).is_none());
}

#[test]
fn test_template_on_the_tip() {
    let mut db = ChainState::new();
    let genesis = block_at(0, 1_000, [0u8; 32]);
    apply_block(&mut db, &genesis, &[0u8; 32], NOW).unwrap();
    let miner = [0x55u8; 32];
    let t = build_template(&db, vec![tx(1), tx(2)], &miner, 5_000).unwrap();
    assert_eq!(t.version, [1, 0, 0, 0]);
    assert_eq!(t.previous_hash, block_hash(&genesis));
    assert_eq!(t.height(), 1);
    assert_eq!(t.time(), 5_000);
    assert_eq!(t.nonce, [0u8; 8]);
    assert_eq!(t.miner_address, miner);
    assert_eq!(t.difficulty_target, genesis.difficulty_target);
    assert_eq!(t.merkle_root, merkle_root(&[tx(1), tx(2)]));
    assert_eq!(t.tx_data.len(), 2);
    // a clock that is not past the median-time-past is moved behind it
    assert_eq!(build_template(&db, vec![], &miner, 1_000).unwrap().time(), 1_001);
    assert_eq!(build_template(&db, vec![], &miner, 10).unwrap().time(), 1_001);
    assert_eq!(build_template(&db, vec![], &miner, 1_001).unwrap().time(), 1_001);
}

#[test]
fn test_next_difficulty() {
    let mut db = ChainState::new();
    let mut prev = [0u8; 32];
    let mut target = [0u8; 32];
    target[10] = 0x64;
    // blocks 0..=59, 30 seconds apart: the window took 59 * 30 = 1770 seconds
    for h in 0..60u32 {
        let b = block_at(h, 1_000 + 30 * h, prev);
        prev = block_hash(&b);
        apply_block(&mut db, &b, &[0u8; 32], NOW).unwrap();
    }
    assert_eq!(next_difficulty(&db, 0, target), target);
    assert_eq!(next_difficulty(&db, 59, target), target);
    assert_eq!(next_difficulty(&db, 61, target), target);
    let expected = calculate_new_difficulty(&target, 1_770);
    assert_eq!(next_difficulty(&db, 60, target), expected);
    assert_ne!(expected, target);
    // 100 * 1770 / 3600 = 49
    assert_eq!(expected[10], 49);
    // where the start of the window is not stored the target stays
    assert_eq!(next_difficulty(&db, 180, target), target);
    assert_eq!(next_difficulty(&ChainState::new(), 60, target), target);
    let t = build_template(&db, vec![], &[1u8; 32], 9_000).unwrap();
    assert_eq!(t.height(), 60);
    assert_eq!(t.difficulty_target, expected);
}

#[test]
fn test_seal_block() {
    let template = block_at(5, 100, [3u8; 32]);
    let mut good = [0u8; 32];
    good[10] = 0x64;
    let (sealed, hash) = seal_block(&template, 0x0102030405060708, &good).unwrap();
    assert_eq!(sealed.nonce, [8, 7, 6, 5, 4, 3, 2, 1]);
    assert_eq!(hash, block_hash(&sealed));
    assert_eq!(sealed.header_prefix(), template.header_prefix());
    let mut bad = good;
    bad[31] = 1;
    assert!(seal_block(&template, 1, &bad).is_none());
}

#[test]
fn test_mining_threads() {
    let with = |n: u64| mining_thread_count(&GovernanceParams { cap_bps: 1000, ponc_rounds: 512, mining_threads: n });
    assert_eq!(with(0), 1);
    assert_eq!(with(1), 1);
    assert_eq!(with(4), 4);
    assert_eq!(with(8), 8);
    assert_eq!(with(9), 8);
    assert_eq!(with(u64::MAX), 8);
    assert_eq!(mining_thread_count(&GovernanceParams::default()), 4);
}
