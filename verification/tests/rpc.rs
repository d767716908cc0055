use knotcoin::consensus::chain::calculate_block_reward;
use knotcoin::consensus::state::{apply_block, block_hash};
use knotcoin::crypto::dilithium::{generate_keypair, sign, Signature};
use knotcoin::crypto::hash::hash_sha3_256;
use knotcoin::crypto::keys::{
    derive_address, derive_keypair_from_mnemonic, encode_address_string,
};
use knotcoin::net::mempool::Mempool;
use knotcoin::net::protocol::{NetworkMessage, PeerAddr};
use knotcoin::node::db_common::{AccountState, StoredBlock};
use knotcoin::node::store::{ChainState, GovernanceParams};
use knotcoin::primitives::transaction::Transaction;
use knotcoin::rpc::server::{
    assemble_referral_registration, assemble_transfer, next_nonce, address_stats, all_miners, authorized, balance_info, block_by_hash, block_by_height,
    bootstrap_warnings, check_generate_count, describe_block, difficulty_bits, estimate_fee,
    estimate_network_hashrate_from_target, governance_info, governance_tally_info, handle_rpc,
    hex_decode, hex_encode, mempool_entries, mining_referrer, mining_threads, network_hashrate,
    parse_address_param, resolve_referrer,
    recent_blocks, referral_info, rpc_auth_token, send_raw_transaction, BootstrapWarning,
    NodeStatus, RpcReply, RpcRequest, INTERNAL_ERROR, INVALID_PARAMS, METHOD_NOT_FOUND,
};

const NOW: u64 = 10_000_000;

fn chain(miners: &[u8]) -> (ChainState, Vec<StoredBlock>) {
    let mut db = ChainState::new();
    let mut blocks = Vec::new();
    let mut prev = [0u8; 32];
    for (h, m) in miners.iter().enumerate() {
        let mut target = [0u8; 32];
        target[0] = 0x0F;
        let b = StoredBlock {
            version: [0, 0, 0, 1],
            previous_hash: prev,
            merkle_root: [0u8; 32],
            timestamp: (1_000 + 60 * h as u32).to_le_bytes(),
            difficulty_target: target,
            nonce: [0u8; 8],
            block_height: (h as u32).to_le_bytes(),
            miner_address: [*m; 32],
            tx_data: vec![],
        };
        apply_block(&mut db, &b, &[0u8; 32], NOW).unwrap();
        prev = block_hash(&b);
        blocks.push(b);
    }
    (db, blocks)
}

fn status() -> NodeStatus {
    NodeStatus {
        connected_peers: 2,
        known_peers: 5,
        bound_to_loopback: false,
        advertised: vec![PeerAddr::V4 { ip: [8, 8, 8, 8], port: 9000 }],
        mining: Some([2u8; 32]),
    }
}

fn signed_tx(seed: u8, fee: u64) -> Vec<u8> {
    let (pk, sk) = generate_keypair(&[seed; 64]);
    let mut tx = Transaction {
        version: 1,
        sender_address: derive_address(&pk),
        sender_pubkey: pk,
        recipient_address: [2u8; 32],
        amount: 5,
        fee,
        nonce: 1,
        timestamp: 1,
        referrer_address: None,
        governance_data: None,
        signature: Signature([0u8; 3309]),
    };
    tx.signature = sign(&tx.signing_hash(), &sk);
    tx.to_stored().to_bytes()
}

#[test]
fn test_hashrate_no_overflow_on_max_target() {
    let target = [0xffu8; 32];
    let h = estimate_network_hashrate_from_target(&target);
    assert_eq!(h, 0);
}

#[test]
fn test_hashrate_zero_target_is_safe() {
    let target = [0u8; 32];
    let h = estimate_network_hashrate_from_target(&target);
    assert!(h > 0);
}

#[test]
fn test_hashrate_values() {
    // the targets zero and one both stand for (2^256 - 1) / 2 / 60 hashes, far above u64
    assert_eq!(estimate_network_hashrate_from_target(&[0u8; 32]), u64::MAX);
    let mut one = [0u8; 32];
    one[31] = 1;
    assert_eq!(estimate_network_hashrate_from_target(&one), u64::MAX);
    // target 2^240 - 1: 2^256 / 2^240 = 65536 hashes a block, 1092 a second
    let mut t = [0xFFu8; 32];
    t[0] = 0;
    t[1] = 0;
    assert_eq!(estimate_network_hashrate_from_target(&t), 65_535 / 60);
    // target 2^255 - 1: one hash a block
    let mut half = [0xFFu8; 32];
    half[0] = 0x7F;
    assert_eq!(estimate_network_hashrate_from_target(&half), 0);
    // target 2^192 - 1: 2^64 hashes a block
    let mut low = [0xFFu8; 32];
    for b in low.iter_mut().take(8) {
        *b = 0;
    }
    assert_eq!(estimate_network_hashrate_from_target(&low), u64::MAX / 60);
    let mut lower = low;
    lower[8] = 0;
    assert_eq!(estimate_network_hashrate_from_target(&lower), u64::MAX);
    let (db, _) = chain(&[1, 2, 2]);
    // target 0x0F00..00 is 15 * 2^248
    assert_eq!(network_hashrate(&db), 0);
    assert_eq!(network_hashrate(&ChainState::new()), 0);
}

#[test]
fn test_hex() {
    assert_eq!(hex_encode(&[]), "");
    assert_eq!(hex_encode(&[0x00, 0x0F, 0xA5, 0xFF]), "000fa5ff");
    assert_eq!(hex_decode(b"000fa5ff"), Some(vec![0x00, 0x0F, 0xA5, 0xFF]));
    assert_eq!(hex_decode(b"000FA5Ff"), Some(vec![0x00, 0x0F, 0xA5, 0xFF]));
    assert_eq!(hex_decode(b""), Some(vec![]));
    assert_eq!(hex_decode(b"abc"), None);
    assert_eq!(hex_decode(b"zz"), None);
    assert_eq!(hex_decode(b"0g"), None);
    assert_eq!(hex_decode(b" 0"), None);
    let all: Vec<u8> = (0..=255).collect();
    assert_eq!(hex_decode(hex_encode(&all).as_bytes()), Some(all));
}

#[test]
fn test_auth_token() {
    let token = rpc_auth_token(&[0xABu8; 32]);
    assert_eq!(token, hex_encode(&hash_sha3_256(&[0xABu8; 32])));
    assert_ne!(token, "ab".repeat(32));
    assert_eq!(token.len(), 64);
    assert!(authorized(&format!("Bearer {token}"), &token));
    assert!(!authorized(&format!("Bearer {token}x"), &token));
    assert!(!authorized(&format!("bearer {token}"), &token));
    assert!(!authorized(&format!("Bearer  {token}"), &token));
    assert!(!authorized(&token, &token));
    assert!(!authorized("", &token));
    assert!(!authorized("Bearer ", &token));
    assert!(authorized("Bearer ", ""));
}

#[test]
fn test_address_parameter() {
    let addr = [0x5Au8; 32];
    assert_eq!(parse_address_param(&encode_address_string(&addr)), Some(addr));
    let hex = "5a".repeat(32);
    assert_eq!(parse_address_param(&hex), Some(addr));
    assert_eq!(parse_address_param(&format!("KOT1{hex}")), Some(addr));
    assert_eq!(parse_address_param(&format!("kot1{hex}")), Some(addr));
    assert_eq!(parse_address_param(&format!("Kot{hex}")), Some(addr));
    assert_eq!(parse_address_param(&format!("kot2{hex}")), None);
    assert_eq!(parse_address_param(&hex[2..]), None);
    assert_eq!(parse_address_param(""), None);
    assert_eq!(parse_address_param("KOT1"), None);
    // a text with a wrong checksum is no address, and no hexadecimal either
    let mut text = encode_address_string(&addr).into_bytes();
    let last = text.len() - 1;
    text[last] = if text[last] == b'A' { b'B' } else { b'A' };
    assert_eq!(parse_address_param(&String::from_utf8(text).unwrap()), None);
}

#[test]
fn test_difficulty_bits() {
    assert_eq!(difficulty_bits(&[0xFFu8; 32]), 1);
    assert_eq!(difficulty_bits(&[0u8; 32]), 256);
    let mut t = [0xFFu8; 32];
    t[0] = 0x7F;
    assert_eq!(difficulty_bits(&t), 1);
    t[0] = 0x3F;
    assert_eq!(difficulty_bits(&t), 2);
    t[0] = 0x01;
    assert_eq!(difficulty_bits(&t), 7);
    t[0] = 0x00;
    assert_eq!(difficulty_bits(&t), 8);
    t[1] = 0x10;
    assert_eq!(difficulty_bits(&t), 11);
    let mut last = [0u8; 32];
    last[31] = 1;
    assert_eq!(difficulty_bits(&last), 255);
}

#[test]
fn test_block_reports() {
    let (db, blocks) = chain(&[1, 2, 2, 3]);
    let info = block_by_height(&db, 2).unwrap();
    assert_eq!(info.hash, block_hash(&blocks[2]));
    assert_eq!(info.height, 2);
    assert_eq!(info.version, 1);
    assert_eq!(info.previous_hash, block_hash(&blocks[1]));
    assert_eq!(info.time, 1_120);
    assert_eq!(info.difficulty_bits, 4);
    assert_eq!(info.miner, [2u8; 32]);
    assert_eq!(info.reward_knots, calculate_block_reward(2));
    assert!(info.transactions.is_empty());
    assert!(block_by_height(&db, 4).is_none());
    let by_hash = block_by_hash(&db, &block_hash(&blocks[3])).unwrap();
    assert_eq!(by_hash.height, 3);
    assert!(block_by_hash(&db, &[9u8; 32]).is_none());
    let mut odd = blocks[0].clone();
    odd.version = [0x01, 0x02, 0x03, 0x04];
    assert_eq!(describe_block(&odd, 7).version, 0x01020304);
    assert_eq!(describe_block(&odd, 7).height, 7);

    let heights = |n: u64| recent_blocks(&db, n).iter().map(|b| b.height).collect::<Vec<_>>();
    assert_eq!(heights(2), vec![3, 2]);
    assert_eq!(heights(4), vec![3, 2, 1, 0]);
    assert_eq!(heights(100), vec![3, 2, 1, 0]);
    assert_eq!(heights(1), vec![3]);
    assert_eq!(heights(0), vec![3]);
    assert!(recent_blocks(&ChainState::new(), 5).is_empty());
}

#[test]
fn test_account_reports() {
    let (mut db, _) = chain(&[1, 2, 2, 3]);
    let b = balance_info(&db, &[2u8; 32]);
    assert_eq!(b.balance_knots, calculate_block_reward(1) + calculate_block_reward(2));
    assert_eq!(b.nonce, 0);
    assert_eq!(b.last_mined_height, 2);
    assert_eq!(balance_info(&db, &[9u8; 32]).balance_knots, 0);

    let mut a = AccountState::empty();
    a.referrer = Some([1u8; 32]);
    a.total_referred_miners = 4;
    a.last_mined_height = 3;
    a.total_referral_bonus_earned = 77;
    a.governance_weight = 1000;
    db.put_account(&[7u8; 32], &a);
    let r = referral_info(&db, &[7u8; 32]);
    assert_eq!(r.privacy_code, balance_info(&db, &[7u8; 32]).privacy_code);
    assert_eq!(r.referred_by, Some(balance_info(&db, &[1u8; 32]).privacy_code));
    assert_eq!(r.total_referred_miners, 4);
    assert_eq!(r.total_referral_bonus_earned, 77);
    assert!(r.is_active_referrer);
    assert_eq!(r.governance_weight, 1000);
    // a miner who has referred nobody is no active referrer
    assert!(!referral_info(&db, &[2u8; 32]).is_active_referrer);
    assert_eq!(referral_info(&db, &[2u8; 32]).referred_by, None);
    a.last_mined_height = 0;
    db.put_account(&[7u8; 32], &a);
    assert!(!referral_info(&db, &[7u8; 32]).is_active_referrer);

    let g = governance_info(&db, &[7u8; 32]);
    assert_eq!((g.governance_weight_bps, g.cap_bps, g.is_capped), (1000, 1000, true));
    let g = governance_info(&db, &[2u8; 32]);
    assert_eq!((g.governance_weight_bps, g.is_capped), (100, false));
    db.set_governance_params(&GovernanceParams { cap_bps: 2000, ponc_rounds: 512, mining_threads: 4 });
    assert!(!governance_info(&db, &[7u8; 32]).is_capped);

    db.add_governance_vote(&[5u8; 32], &[7u8; 32], 5099);
    let t = governance_tally_info(&db, &[5u8; 32]);
    assert_eq!((t.total_weight_bps, t.threshold_bps, t.is_passed), (5099, 5100, false));
    db.add_governance_vote(&[5u8; 32], &[8u8; 32], 1);
    assert!(governance_tally_info(&db, &[5u8; 32]).is_passed);
    assert_eq!(governance_tally_info(&db, &[6u8; 32]).total_weight_bps, 0);

    let s = address_stats(&db);
    assert_eq!(s.total_accounts, 4);
    assert_eq!(s.nonzero_accounts, 3);
    assert_eq!(s.total_balance_knots, (0..4).map(calculate_block_reward).sum::<u64>());
    let mut rich = AccountState::empty();
    rich.balance = u64::MAX;
    db.put_account(&[0xEEu8; 32], &rich);
    assert_eq!(address_stats(&db).total_balance_knots, u64::MAX);
}

#[test]
fn test_miners() {
    let (db, _) = chain(&[1, 2, 3, 2, 2, 3]);
    let miners = all_miners(&db, Some([3u8; 32]));
    // the genesis block is not counted
    assert_eq!(miners.len(), 2);
    assert_eq!(miners[0].address, [2u8; 32]);
    assert_eq!(miners[0].blocks_mined, 3);
    assert_eq!(miners[0].last_mined_height, 4);
    assert_eq!(miners[0].last_block_time, 1_240);
    assert_eq!(
        miners[0].total_reward_knots,
        calculate_block_reward(1) + calculate_block_reward(3) + calculate_block_reward(4)
    );
    assert_eq!(miners[0].balance_knots, miners[0].total_reward_knots);
    assert!(!miners[0].is_mining);
    assert_eq!(miners[1].address, [3u8; 32]);
    assert_eq!(miners[1].blocks_mined, 2);
    assert_eq!(miners[1].last_mined_height, 5);
    assert!(miners[1].is_mining);
    assert!(all_miners(&ChainState::new(), None).is_empty());
    let (db, _) = chain(&[1, 2, 3, 4]);
    let three = all_miners(&db, None);
    // equal counts keep the order of first mining
    assert_eq!(three.iter().map(|m| m.address[0]).collect::<Vec<_>>(), vec![2, 3, 4]);
}

#[test]
fn test_fee_estimate() {
    let e = estimate_fee(0, 5400);
    assert_eq!((e.recommended_fee_knots, e.fast_fee_knots, e.tx_size_bytes, e.mempool_size), (1, 2, 5400, 0));
    assert_eq!(estimate_fee(10, 1).recommended_fee_knots, 1);
    assert_eq!(estimate_fee(13, 1).recommended_fee_knots, 2);
    assert_eq!(estimate_fee(13, 1).fast_fee_knots, 3);
    assert_eq!(estimate_fee(40, 1).recommended_fee_knots, 11);
    assert_eq!(estimate_fee(40, 1).fast_fee_knots, 16);
    assert_eq!(estimate_fee(5000, 1).recommended_fee_knots, 1 + 4990 / 3);
}

#[test]
fn test_send_raw_transaction() {
    let mut pool = Mempool::new();
    let raw = signed_tx(1, 10);
    let (txid, msg) = send_raw_transaction(&mut pool, raw.clone()).unwrap();
    assert_eq!(pool.get_all_txids(), vec![txid]);
    assert!(matches!(msg, NetworkMessage::Tx(r) if r == raw));
    // the pool's reason is passed on as it is
    let e = send_raw_transaction(&mut pool, raw).unwrap_err();
    assert_eq!(e.code, INTERNAL_ERROR);
    assert_eq!(e.message, "mempool rejected: duplicate transaction");
    let e = send_raw_transaction(&mut pool, vec![1, 2]).unwrap_err();
    assert_eq!(e.code, INVALID_PARAMS);
    assert_eq!(e.message, "deserialization failed: tx: missing sender_address");
    assert_eq!(pool.size(), 1);
    assert_eq!(mempool_entries(&pool, 0).len(), 0);
    assert_eq!(mempool_entries(&pool, 5000).len(), 1);
}

#[test]
fn test_generate_count_and_warnings() {
    assert_eq!(check_generate_count(1).unwrap(), 1);
    assert_eq!(check_generate_count(500).unwrap(), 500);
    for bad in [0u64, 501, u64::MAX] {
        let e = check_generate_count(bad).unwrap_err();
        assert_eq!((e.code, e.message.as_str()), (INVALID_PARAMS, "count must be between 1 and 500"));
    }
    let public = PeerAddr::V4 { ip: [8, 8, 8, 8], port: 1 };
    let private = PeerAddr::V4 { ip: [10, 0, 0, 1], port: 1 };
    assert!(bootstrap_warnings(false, &vec![public], 1, 1).is_empty());
    assert_eq!(
        bootstrap_warnings(true, &vec![], 0, 0),
        vec![
            BootstrapWarning::BoundToLoopback,
            BootstrapWarning::NothingAdvertised,
            BootstrapWarning::NoPeers,
            BootstrapWarning::NoKnownPeers
        ]
    );
    assert_eq!(bootstrap_warnings(false, &vec![public, private], 3, 0), vec![
        BootstrapWarning::PrivateAdvertised,
        BootstrapWarning::NoKnownPeers
    ]);
    assert_eq!(BootstrapWarning::NoPeers.message(), "No connected peers yet; check port forwarding and firewall");
}

#[test]
fn test_handle_rpc() {
    let (db, blocks) = chain(&[1, 2, 2, 3]);
    let mut pool = Mempool::new();
    let st = status();
    let mut call = |req: RpcRequest| handle_rpc(&db, &mut pool, &st, req);
    let text = |s: &str| s.to_string();

    assert!(matches!(call(RpcRequest::GetBlockCount), Ok(RpcReply::BlockCount(3))));
    assert!(matches!(call(RpcRequest::GetBlockHash { height: 1 }), Ok(RpcReply::BlockHash(h)) if h == block_hash(&blocks[1])));
    let e = call(RpcRequest::GetBlockHash { height: 9 }).unwrap_err();
    assert_eq!((e.code, e.message.as_str()), (INVALID_PARAMS, "block not found"));
    let hex = hex_encode(&block_hash(&blocks[2]));
    assert!(matches!(call(RpcRequest::GetBlock { hash: hex }), Ok(RpcReply::Block(b)) if b.height == 2));
    assert_eq!(call(RpcRequest::GetBlock { hash: text("xyz") }).unwrap_err().message, "invalid hash format");
    assert_eq!(call(RpcRequest::GetBlock { hash: text("abcd") }).unwrap_err().message, "invalid hash length");
    assert_eq!(call(RpcRequest::GetBlock { hash: "00".repeat(32) }).unwrap_err().message, "block not found");
    assert!(matches!(call(RpcRequest::GetBlockByHeight { height: 3 }), Ok(RpcReply::Block(b)) if b.miner == [3u8; 32]));
    assert!(call(RpcRequest::GetBlockByHeight { height: 4 }).is_err());
    assert!(matches!(call(RpcRequest::GetRecentBlocks { count: 2 }), Ok(RpcReply::RecentBlocks(b)) if b.len() == 2));
    assert!(matches!(call(RpcRequest::GetAllMiners), Ok(RpcReply::Miners { miners, chain_height: 3 })
        if miners.len() == 2 && miners[0].is_mining));
    assert!(matches!(call(RpcRequest::GetBalance { address: "02".repeat(32) }), Ok(RpcReply::Balance(b))
        if b.balance_knots == calculate_block_reward(1) + calculate_block_reward(2)));
    assert_eq!(call(RpcRequest::GetBalance { address: text("nobody") }).unwrap_err().message, "invalid address");
    assert!(matches!(call(RpcRequest::GetReferralInfo { address: "02".repeat(32) }), Ok(RpcReply::Referral(_))));
    assert!(matches!(call(RpcRequest::GetGovernanceInfo { address: "02".repeat(32) }), Ok(RpcReply::Governance(g)) if g.cap_bps == 1000));
    assert!(call(RpcRequest::GetGovernanceInfo { address: text("") }).is_err());
    assert!(matches!(call(RpcRequest::GetGovernanceTally { proposal: "11".repeat(32) }), Ok(RpcReply::Tally(t)) if !t.is_passed));
    assert_eq!(call(RpcRequest::GetGovernanceTally { proposal: text("q") }).unwrap_err().message, "invalid proposal hash");
    assert_eq!(call(RpcRequest::GetGovernanceTally { proposal: text("11") }).unwrap_err().message, "proposal hash must be 32 bytes");
    assert!(matches!(call(RpcRequest::GetAddressStats), Ok(RpcReply::AddressStats(s)) if s.total_accounts == 3));
    assert!(matches!(call(RpcRequest::GetMempoolInfo), Ok(RpcReply::MempoolInfo { size: 0 })));
    assert!(matches!(call(RpcRequest::EstimateFee { tx_size: 9 }), Ok(RpcReply::Fee(f)) if f.tx_size_bytes == 9 && f.recommended_fee_knots == 1));
    let raw = signed_tx(4, 3);
    assert!(matches!(call(RpcRequest::SendRawTransaction { hex: hex_encode(&raw) }), Ok(RpcReply::Sent { broadcast: NetworkMessage::Tx(r), .. }) if r == raw));
    assert_eq!(call(RpcRequest::SendRawTransaction { hex: text("0") }).unwrap_err().message, "invalid hex");
    assert_eq!(call(RpcRequest::SendRawTransaction { hex: hex_encode(&raw) }).unwrap_err().message, "mempool rejected: duplicate transaction");
    assert!(matches!(call(RpcRequest::GetRawMempool), Ok(RpcReply::RawMempool(ids)) if ids.len() == 1));
    assert!(matches!(call(RpcRequest::GetMempool { limit: 10 }), Ok(RpcReply::Mempool(txs)) if txs.len() == 1));
    assert!(matches!(call(RpcRequest::GenerateToAddress { count: 3, address: "07".repeat(32), referrer: None, threads: None }), Ok(RpcReply::Generate { count: 3, miner, referrer: None, threads: 4 }) if miner == [7u8; 32]));
    assert_eq!(call(RpcRequest::GenerateToAddress { count: 0, address: "07".repeat(32), referrer: None, threads: None }).unwrap_err().message, "count must be between 1 and 500");
    assert_eq!(call(RpcRequest::GenerateToAddress { count: 1, address: text("x"), referrer: None, threads: None }).unwrap_err().message, "invalid miner address");
    assert!(matches!(call(RpcRequest::StopMining), Ok(RpcReply::StopMining)));
    let peer = PeerAddr::V4 { ip: [1, 2, 3, 4], port: 9000 };
    assert!(matches!(call(RpcRequest::AddNode { address: peer }), Ok(RpcReply::Connect(p)) if p == peer));
    assert!(matches!(call(RpcRequest::GetPeerInfo), Ok(RpcReply::PeerInfo { connected: true, peer_count: 2, known_peers: 5 })));
    assert!(matches!(call(RpcRequest::GetNetworkHashrate), Ok(RpcReply::Hashrate(0))));
    assert!(matches!(call(RpcRequest::GetBootstrapCheck), Ok(RpcReply::Bootstrap(w)) if w.is_empty()));
    assert!(matches!(call(RpcRequest::Stop), Ok(RpcReply::Stopping)));
    let e = call(RpcRequest::Unknown { method: text("getnothing") }).unwrap_err();
    assert_eq!((e.code, e.message.as_str()), (METHOD_NOT_FOUND, "method not found: getnothing"));
}

#[test]
fn test_next_nonce_looks_at_account_and_pool() {
    let mut db = ChainState::new();
    let mut pool = Mempool::new();
    let (pk, sk) = generate_keypair(&[21u8; 64]);
    let sender = derive_address(&pk);
    assert_eq!(next_nonce(&db, &pool, &sender), Some(1));
    let mut account = AccountState::empty();
    account.nonce = 4;
    account.balance = 1_000;
    db.put_account(&sender, &account);
    assert_eq!(next_nonce(&db, &pool, &sender), Some(5));
    // two transfers before a block: the second follows the first
    let first = assemble_transfer(&db, &pool, &pk, &sk, &[9u8; 32], 10, None, 77).unwrap();
    assert_eq!(first.nonce, 5);
    assert_eq!((first.version, first.fee, first.amount, first.timestamp), (1, 1, 10, 77));
    assert_eq!(first.sender_address, sender);
    assert_eq!(first.recipient_address, [9u8; 32]);
    assert!(first.is_structurally_valid());
    pool.add_transaction(first.to_stored()).unwrap();
    assert_eq!(next_nonce(&db, &pool, &sender), Some(6));
    let second = assemble_transfer(&db, &pool, &pk, &sk, &[9u8; 32], 0, Some([3u8; 32]), 78).unwrap();
    assert_eq!(second.nonce, 6);
    assert_eq!(second.governance_data, Some([3u8; 32]));
    assert!(second.is_structurally_valid());
    // a pending nonce below the account's does not count
    account.nonce = 9;
    db.put_account(&sender, &account);
    assert_eq!(next_nonce(&db, &pool, &sender), Some(10));
    account.nonce = u64::MAX;
    db.put_account(&sender, &account);
    assert_eq!(next_nonce(&db, &pool, &sender), None);
    let e = assemble_transfer(&db, &pool, &pk, &sk, &[9u8; 32], 1, None, 1).unwrap_err();
    assert_eq!((e.code, e.message.as_str()), (INTERNAL_ERROR, "no nonce left"));
}

#[test]
fn test_wallet_transfer_needs_the_balance() {
    let mut db = ChainState::new();
    let pool = Mempool::new();
    let (pk, sk) = generate_keypair(&[22u8; 64]);
    let sender = derive_address(&pk);
    let mut account = AccountState::empty();
    account.balance = 100;
    db.put_account(&sender, &account);
    assert!(assemble_transfer(&db, &pool, &pk, &sk, &[9u8; 32], 99, None, 1).is_ok());
    for amount in [100u64, 101, u64::MAX] {
        let e = assemble_transfer(&db, &pool, &pk, &sk, &[9u8; 32], amount, None, 1).unwrap_err();
        assert_eq!((e.code, e.message.as_str()), (INTERNAL_ERROR, "insufficient balance"));
    }
}

#[test]
fn test_wallet_referral_registration() {
    let mut db = ChainState::new();
    let (pk, sk) = generate_keypair(&[23u8; 64]);
    let sender = derive_address(&pk);
    let e = assemble_referral_registration(&db, &pk, &sk, &[5u8; 32], 1).unwrap_err();
    assert_eq!(e.message, "insufficient balance for 1 knot fee");
    let mut account = AccountState::empty();
    account.balance = 1;
    db.put_account(&sender, &account);
    let tx = assemble_referral_registration(&db, &pk, &sk, &[5u8; 32], 42).unwrap();
    assert_eq!((tx.amount, tx.fee, tx.nonce, tx.timestamp), (0, 1, 1, 42));
    assert_eq!(tx.recipient_address, sender);
    assert_eq!(tx.referrer_address, Some([5u8; 32]));
    assert!(tx.is_structurally_valid());
    // the block that holds it binds the referrer
    let mut block = StoredBlock {
        version: [0, 0, 0, 1],
        previous_hash: [0u8; 32],
        merkle_root: [0u8; 32],
        timestamp: 5u32.to_le_bytes(),
        difficulty_target: [0xFF; 32],
        nonce: [0u8; 8],
        block_height: 1u32.to_le_bytes(),
        miner_address: [7u8; 32],
        tx_data: vec![tx.to_stored()],
    };
    apply_block(&mut db, &block, &[0u8; 32], NOW).unwrap();
    assert_eq!(db.get_account(&sender).referrer, Some([5u8; 32]));
    assert_eq!(db.get_account(&[5u8; 32]).total_referred_miners, 1);
    block.tx_data.clear();
    let e = assemble_referral_registration(&db, &pk, &sk, &[5u8; 32], 1).unwrap_err();
    assert_eq!(e.message, "wallet already active, referral must be first tx");
}

#[test]
fn test_resolve_referrer() {
    let (db, _) = chain(&[1, 2]);
    let code: [u8; 8] = hash_sha3_256(&[1u8; 32])[..8].try_into().unwrap();
    let hex = hex_encode(&code);
    assert_eq!(hex.len(), 16);
    // by referral code: bare, trimmed, and behind either prefix in either case
    assert_eq!(resolve_referrer(&db, &hex).unwrap(), [1u8; 32]);
    assert_eq!(resolve_referrer(&db, &format!("  {hex}\n")).unwrap(), [1u8; 32]);
    assert_eq!(resolve_referrer(&db, &format!("KOT1{hex}")).unwrap(), [1u8; 32]);
    assert_eq!(resolve_referrer(&db, &format!("kot{hex}")).unwrap(), [1u8; 32]);
    // by address
    let text = encode_address_string(&[2u8; 32]);
    assert_eq!(resolve_referrer(&db, &text).unwrap(), [2u8; 32]);
    // refusals
    let e = resolve_referrer(&db, "zzzzzzzzzzzzzzzz").unwrap_err();
    assert_eq!((e.code, e.message.as_str()), (INVALID_PARAMS, "invalid referral code"));
    let e = resolve_referrer(&db, "0000000000000000").unwrap_err();
    assert_eq!((e.code, e.message.as_str()), (INVALID_PARAMS, "unknown referral code"));
    let e = resolve_referrer(&db, "nobody").unwrap_err();
    assert_eq!(
        (e.code, e.message.as_str()),
        (INVALID_PARAMS, "invalid referrer: Invalid address prefix: must start with KOT1")
    );
    let mut broken = text.clone();
    broken.pop();
    broken.push(if text.ends_with('A') { 'B' } else { 'A' });
    let e = resolve_referrer(&db, &broken).unwrap_err();
    assert_eq!(e.code, INVALID_PARAMS);
    assert!(e.message.starts_with("invalid referrer: Invalid address"));
}

#[test]
fn test_mining_referrer_and_threads() {
    let (db, _) = chain(&[1, 2]);
    let code: [u8; 8] = hash_sha3_256(&[2u8; 32])[..8].try_into().unwrap();
    assert_eq!(mining_referrer(&db, &None), None);
    assert_eq!(mining_referrer(&db, &Some(hex_encode(&code))), Some([2u8; 32]));
    assert_eq!(mining_referrer(&db, &Some(encode_address_string(&[9u8; 32]))), Some([9u8; 32]));
    // 32 bytes in hexadecimal stand for themselves
    assert_eq!(mining_referrer(&db, &Some("0a".repeat(32))), Some([10u8; 32]));
    assert_eq!(mining_referrer(&db, &Some("0000000000000000".to_string())), None);
    assert_eq!(mining_referrer(&db, &Some("nobody".to_string())), None);
    assert_eq!(mining_threads(None, 4), 4);
    assert_eq!(mining_threads(None, 2), 2);
    assert_eq!(mining_threads(Some(0), 4), 1);
    assert_eq!(mining_threads(Some(1), 4), 1);
    assert_eq!(mining_threads(Some(8), 4), 8);
    assert_eq!(mining_threads(Some(9), 4), 8);
    assert_eq!(mining_threads(Some(u64::MAX), 2), 8);
}

#[test]
fn test_start_mining_and_generate_with_referrer() {
    let (db, _) = chain(&[1, 2]);
    let mut pool = Mempool::new();
    let code: [u8; 8] = hash_sha3_256(&[1u8; 32])[..8].try_into().unwrap();
    let mnemonic = "abandon ability able about above absent absorb abstract";
    let (pk, _) = derive_keypair_from_mnemonic(mnemonic);
    let idle = NodeStatus { mining: None, ..status() };
    let reply = handle_rpc(
        &db,
        &mut pool,
        &idle,
        RpcRequest::StartMining {
            mnemonic: mnemonic.to_string(),
            threads: Some(12),
            referrer: Some(hex_encode(&code)),
        },
    );
    assert!(matches!(
        reply,
        Ok(RpcReply::StartMining { miner, referrer: Some(r), threads: 8 })
            if miner == derive_address(&pk) && r == [1u8; 32]
    ));
    let reply = handle_rpc(
        &db,
        &mut pool,
        &idle,
        RpcRequest::StartMining { mnemonic: mnemonic.to_string(), threads: None, referrer: None },
    );
    assert!(matches!(reply, Ok(RpcReply::StartMining { referrer: None, threads: 2, .. })));
    // a node that mines is not started again
    let reply = handle_rpc(
        &db,
        &mut pool,
        &status(),
        RpcRequest::StartMining { mnemonic: mnemonic.to_string(), threads: None, referrer: None },
    );
    assert!(matches!(reply, Ok(RpcReply::AlreadyMining)));
    let reply = handle_rpc(
        &db,
        &mut pool,
        &idle,
        RpcRequest::GenerateToAddress {
            count: 2,
            address: "07".repeat(32),
            referrer: Some(format!("KOT{}", hex_encode(&code))),
            threads: Some(3),
        },
    );
    assert!(matches!(
        reply,
        Ok(RpcReply::Generate { count: 2, miner, referrer: Some(r), threads: 3 })
            if miner == [7u8; 32] && r == [1u8; 32]
    ));
}
