use knotcoin::consensus::chain::{
    calculate_block_reward, calculate_governance_weight, calculate_new_difficulty,
    calculate_referral_bonus, phase1_reward, phase3_reward,
    GOVERNANCE_CAP_DEFAULT_BPS, GOVERNANCE_CAP_MAX_BPS, GOVERNANCE_CAP_MIN_BPS, PHASE_1_END,
    PHASE_2_END, PONC_ROUNDS_DEFAULT, PONC_ROUNDS_MAX, PONC_ROUNDS_MIN, REFERRAL_BONUS_PCT,
    REFERRAL_WINDOW,
};


#[test]
fn test_phase1() {
    assert_eq!(calculate_block_reward(0), 10_000_000); // 0.1 KOT
    assert_eq!(calculate_block_reward(PHASE_1_END), 100_000_000); // 1.0 KOT
}

#[test]
fn test_phase1_midpoint() {
    let mid = PHASE_1_END / 2;
    let reward = calculate_block_reward(mid);
    // At midpoint, should be ~0.55 KOT
    assert!(reward > 50_000_000 && reward < 60_000_000);
}

#[test]
fn test_phase1_quarter_points() {
    let q1 = PHASE_1_END / 4;
    let q3 = (PHASE_1_END * 3) / 4;
    assert!(calculate_block_reward(q1) < calculate_block_reward(q3));
}

#[test]
fn test_phase1_monotonic_increase() {
    for i in 0..100 {
        let h1 = (PHASE_1_END * i) / 100;
        let h2 = (PHASE_1_END * (i + 1)) / 100;
        assert!(calculate_block_reward(h1) <= calculate_block_reward(h2));
    }
}

#[test]
fn test_phase2() {
    assert_eq!(calculate_block_reward(PHASE_1_END + 1), 100_000_000);
    assert_eq!(calculate_block_reward(PHASE_2_END), 100_000_000);
}

#[test]
fn test_phase2_constant() {
    for i in 0..100 {
        let h = PHASE_1_END + 1 + (i * 1000);
        if h <= PHASE_2_END {
            assert_eq!(calculate_block_reward(h), 100_000_000);
        }
    }
}

#[test]
fn test_phase3_decay() {
    let r1 = calculate_block_reward(PHASE_2_END + 1);
    let r2 = calculate_block_reward(PHASE_2_END + 100_000);
    let r3 = calculate_block_reward(PHASE_2_END + 1_000_000);
    assert!(r1 > r2);
    assert!(r2 > r3);
}

#[test]
fn test_phase3_never_zero() {
    // Even at very high block heights, reward should never be zero
    let r = calculate_block_reward(PHASE_2_END + 100_000_000);
    assert!(r > 0);
}

#[test]
fn test_phase3_long_term() {
    // Test rewards at various future points
    let year_2 = PHASE_2_END + 525_600;
    let year_10 = PHASE_2_END + 5_256_000;
    let year_50 = PHASE_2_END + 26_280_000;
    
    let r2 = calculate_block_reward(year_2);
    let r10 = calculate_block_reward(year_10);
    let r50 = calculate_block_reward(year_50);
    
    assert!(r2 > r10);
    assert!(r10 > r50);
    assert!(r50 > 0);
}

#[test]
fn test_referral_bonus() {
    // total_mined=100, last_mined=1000, current=2000 => OK
    assert_eq!(calculate_referral_bonus(100_000_000, 100, 1000, 2000), 5_000_000);
    // last_mined=1000, current=5000 => Too old
    assert_eq!(calculate_referral_bonus(100_000_000, 100, 1000, 5000), 0);
}

#[test]
fn test_referral_bonus_no_threshold() {
    assert_eq!(calculate_referral_bonus(1_000, 10, 1000, 2000), 50);
    assert_eq!(calculate_referral_bonus(100, 10, 1000, 2000), 5);
    assert_eq!(calculate_referral_bonus(10, 10, 1000, 2000), 0);
}

#[test]
fn test_referral_bonus_genesis_miner() {
    // Genesis miner (total=1, last=0) IS active for first 2880 blocks
    assert_eq!(calculate_referral_bonus(100_000_000, 1, 0, 1000), 5_000_000);
    // Non-miner (total=0) get no bonus
    assert_eq!(calculate_referral_bonus(100_000_000, 0, 0, 1000), 0);
}

#[test]
fn test_referral_bonus_window_boundary() {
    let base = 100_000_000;
    let referrer_height = 1000;
    
    // Just inside window
    assert_eq!(calculate_referral_bonus(base, 1, referrer_height, referrer_height + REFERRAL_WINDOW), 5_000_000);
    
    // Just outside window
    assert_eq!(calculate_referral_bonus(base, 1, referrer_height, referrer_height + REFERRAL_WINDOW + 1), 0);
}

#[test]
fn test_referral_bonus_percentage() {
    // Verify 5% calculation is exact
    for reward in [1_000_000, 10_000_000, 100_000_000, 1_000_000_000] {
        let bonus = calculate_referral_bonus(reward, 1, 100, 200);
        assert_eq!(bonus, reward / 20); // 5% = 1/20
    }
}

#[test]
fn test_governance_weight() {
    assert_eq!(calculate_governance_weight(0, GOVERNANCE_CAP_DEFAULT_BPS), 100); 
    assert_eq!(calculate_governance_weight(10, GOVERNANCE_CAP_DEFAULT_BPS), 200); 
    assert_eq!(calculate_governance_weight(100, GOVERNANCE_CAP_DEFAULT_BPS), 300); 
}

#[test]
fn test_governance_weight_scaling() {
    assert_eq!(calculate_governance_weight(1, GOVERNANCE_CAP_DEFAULT_BPS), 100);
    assert_eq!(calculate_governance_weight(9, GOVERNANCE_CAP_DEFAULT_BPS), 100);
    assert_eq!(calculate_governance_weight(10, GOVERNANCE_CAP_DEFAULT_BPS), 200);
    assert_eq!(calculate_governance_weight(99, GOVERNANCE_CAP_DEFAULT_BPS), 200);
    assert_eq!(calculate_governance_weight(100, GOVERNANCE_CAP_DEFAULT_BPS), 300);
    assert_eq!(calculate_governance_weight(999, GOVERNANCE_CAP_DEFAULT_BPS), 300);
    assert_eq!(calculate_governance_weight(1000, GOVERNANCE_CAP_DEFAULT_BPS), 400);
}

#[test]
fn test_governance_weight_large_numbers() {
    assert_eq!(calculate_governance_weight(1_000_000, GOVERNANCE_CAP_DEFAULT_BPS), 700);
    assert_eq!(calculate_governance_weight(1_000_000_000, GOVERNANCE_CAP_DEFAULT_BPS), 1000);
}

#[test]
fn test_difficulty_retarget() {
    let mut target = [0u8; 32];
    target[31] = 100;
    assert_eq!(calculate_new_difficulty(&target, 3600)[31], 100);
    assert_eq!(calculate_new_difficulty(&target, 1800)[31], 50);
    assert_eq!(calculate_new_difficulty(&target, 7200)[31], 200);
    // Clamp floor: 10s → treated as 900s → 100 * 900 / 3600 = 25
    assert_eq!(calculate_new_difficulty(&target, 10)[31], 25);
}

#[test]
fn test_difficulty_clamp_ceiling() {
    let mut target = [0u8; 32];
    target[31] = 100;
    // 20000s should be clamped to 14400s (4x max)
    // 100 * 14400 / 3600 = 400
    let result = calculate_new_difficulty(&target, 20000);
    assert_eq!(result[31], 144); // Clamped to 4x
}

#[test]
fn test_difficulty_never_zero() {
    let mut target = [0u8; 32];
    target[31] = 1;
    let result = calculate_new_difficulty(&target, 1);
    // Should never produce zero difficulty
    assert!(result.iter().any(|&b| b > 0));
}

#[test]
fn test_difficulty_symmetry() {
    let mut target = [0u8; 32];
    target[31] = 100;
    
    // Double time should halve difficulty (double target)
    let doubled = calculate_new_difficulty(&target, 7200);
    // Half time should double difficulty (halve target)
    let halved = calculate_new_difficulty(&target, 1800);
    
    assert!(doubled[31] > target[31]);
    assert!(halved[31] < target[31]);
}

#[test]
fn test_phase_boundaries() {
    assert_eq!(PHASE_1_END, 262_800);
    assert_eq!(PHASE_2_END, 525_600);
    assert!(PHASE_2_END > PHASE_1_END);
}

#[test]
fn test_referral_constants() {
    assert_eq!(REFERRAL_BONUS_PCT, 5);
    assert_eq!(REFERRAL_WINDOW, 2_880);
}

#[test]
fn test_governance_cap_constants() {
    assert_eq!(GOVERNANCE_CAP_MIN_BPS, 500);
    assert_eq!(GOVERNANCE_CAP_MAX_BPS, 2000);
    assert_eq!(GOVERNANCE_CAP_DEFAULT_BPS, 1000);
    assert!(GOVERNANCE_CAP_MIN_BPS < GOVERNANCE_CAP_DEFAULT_BPS);
    assert!(GOVERNANCE_CAP_DEFAULT_BPS < GOVERNANCE_CAP_MAX_BPS);
}

#[test]
fn test_ponc_rounds_constants() {
    assert_eq!(PONC_ROUNDS_MIN, 256);
    assert_eq!(PONC_ROUNDS_MAX, 2048);
    assert_eq!(PONC_ROUNDS_DEFAULT, 512);
    assert!(PONC_ROUNDS_MIN < PONC_ROUNDS_DEFAULT);
    assert!(PONC_ROUNDS_DEFAULT < PONC_ROUNDS_MAX);
}

#[test]
fn test_phase1_exact_values() {
    assert_eq!(phase1_reward(0), 10_000_000);
    assert_eq!(phase1_reward(1), 10_000_342);
    assert_eq!(phase1_reward(131_400), 55_000_000);
    assert_eq!(phase1_reward(262_800), 100_000_000);
    assert_eq!(calculate_block_reward(2), 10_000_684);
}

#[test]
fn test_phase3_continuity() {
    // the first height of the last phase: 100_000_000 / log2(3)
    let r = calculate_block_reward(PHASE_2_END + 1);
    assert_eq!(r, 6_553_600_000_000 / 103_872);
    assert_eq!(r, 63_093_037);
}

#[test]
fn test_phase3_first_heights() {
    // log2(3) = 1.58496..., in 16.16 fixed point 103872
    assert_eq!(phase3_reward(PHASE_2_END + 1), 6_553_600_000_000 / 103_872);
    // log2(4) = 2 exactly
    assert_eq!(calculate_block_reward(PHASE_2_END + 2), 50_000_000);
    // log2(8) = 3 exactly
    assert_eq!(calculate_block_reward(PHASE_2_END + 6), 33_333_333);
    // log2(2^20) = 20 exactly
    assert_eq!(calculate_block_reward(PHASE_2_END + (1 << 20) - 2), 5_000_000);
}

#[test]
fn test_phase3_never_increases_over_a_stretch() {
    let mut last = calculate_block_reward(PHASE_2_END + 1);
    for h in (PHASE_2_END + 2)..(PHASE_2_END + 5_000) {
        let r = calculate_block_reward(h);
        assert!(r <= last);
        assert!(r > 0);
        last = r;
    }
}

#[test]
fn test_phase3_at_largest_height() {
    let r = calculate_block_reward(u64::MAX);
    assert!(r > 0);
    assert!(r <= 100_000_000);
}

#[test]
fn test_referral_bonus_large_values() {
    assert_eq!(calculate_referral_bonus(u64::MAX, 1, 10, 20), u64::MAX / 20);
    assert_eq!(calculate_referral_bonus(100, 1, u64::MAX, u64::MAX), 5);
    // at height 0 nobody is too old
    assert_eq!(calculate_referral_bonus(100, 1, 0, 0), 5);
}

#[test]
fn test_governance_weight_cap() {
    assert_eq!(calculate_governance_weight(1_000_000, 1000), 700);
    assert_eq!(calculate_governance_weight(u64::MAX, 1000), 1000);
    assert_eq!(calculate_governance_weight(u64::MAX, 2000), 2000);
    assert_eq!(calculate_governance_weight(100, 500), 300);
    assert_eq!(calculate_governance_weight(1_000_000, 500), 500);
    // ten thousand million contributions would weigh 1100: the cap holds them to 1000
    assert_eq!(calculate_governance_weight(10_000_000_000, GOVERNANCE_CAP_DEFAULT_BPS), 1000);
    assert_eq!(calculate_governance_weight(10_000_000_000, 2000), 1100);
    assert_eq!(calculate_governance_weight(u64::MAX, u64::MAX), 2000);
}

#[test]
fn test_difficulty_saturates() {
    let target = [0xFFu8; 32];
    assert_eq!(calculate_new_difficulty(&target, 7200), [0xFFu8; 32]);
    // a quarter of the largest target
    let quarter = calculate_new_difficulty(&target, 900);
    assert_eq!(quarter[0], 0xFF);
    let mut high = [0u8; 32];
    high[0] = 0x80;
    assert_eq!(calculate_new_difficulty(&high, 14_400), [0xFFu8; 32]);
    // the product is formed before the division, so it saturates here too
    assert_eq!(calculate_new_difficulty(&high, 1_800), [0xFFu8; 32]);
    let mut lower = [0u8; 32];
    lower[2] = 0x80;
    let halved = calculate_new_difficulty(&lower, 1_800);
    assert_eq!(halved[2], 0x40);
    assert!(halved[3..].iter().all(|&b| b == 0));
    assert_eq!(&halved[..2], &[0, 0]);
}

#[test]
fn test_difficulty_floor_is_one() {
    let zero = [0u8; 32];
    let mut one = [0u8; 32];
    one[31] = 1;
    assert_eq!(calculate_new_difficulty(&zero, 3600), one);
    assert_eq!(calculate_new_difficulty(&one, 900), one);
    let mut carry = [0u8; 32];
    carry[31] = 0xFF;
    let doubled = calculate_new_difficulty(&carry, 7200);
    assert_eq!(doubled[30], 0x01);
    assert_eq!(doubled[31], 0xFE);
}

fn as_number(target: &[u8; 32]) -> u128 {
    assert!(target[..16].iter().all(|&b| b == 0));
    u128::from_be_bytes(target[16..].try_into().unwrap())
}

fn from_number(n: u128) -> [u8; 32] {
    let mut t = [0u8; 32];
    t[16..].copy_from_slice(&n.to_be_bytes());
    t
}

#[test]
fn test_retarget_moves_by_a_factor_of_four_at_most() {
    for old in [1u128, 2, 3, 7, 100, 3_599, 3_600, 1_000_003, u64::MAX as u128] {
        for secs in [0u64, 1, 450, 899, 900, 901, 1_800, 3_599, 3_600, 7_199, 7_200, 14_400, 14_401, 100_000] {
            let target = from_number(old);
            let once = as_number(&calculate_new_difficulty(&target, secs));
            let doubled = as_number(&calculate_new_difficulty(&target, secs * 2));
            let halved = as_number(&calculate_new_difficulty(&target, secs / 2));
            assert!(doubled <= 4 * once, "old {old}, secs {secs}");
            assert!(once <= 4 * halved, "old {old}, secs {secs}");
            assert!(once >= 1);
            assert!(once >= old / 4 && (once <= 4 * old || once == 1));
            let clamped = secs.clamp(900, 14_400) as u128;
            assert_eq!(once, (old * clamped / 3_600).max(1));
        }
    }
}
