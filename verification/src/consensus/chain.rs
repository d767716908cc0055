use vstd::prelude::*;
use crate::bytes::{be_le, be_value, lemma_be_value_zeros};
use crate::primitives::transaction::KNOTS_PER_KOT;

verus! {

pub const PHASE_1_END: u64 = 262_800;

pub const PHASE_2_END: u64 = 525_600;

pub const RETARGET_WINDOW: u64 = 60;

pub const RETARGET_SECS: u64 = 3_600;

pub const REFERRAL_WINDOW: u64 = 2_880;

pub const REFERRAL_BONUS_PCT: u64 = 5;

pub const GOVERNANCE_BASE_BPS: u64 = 100;

pub const GOVERNANCE_BPS_SCALE: u64 = 10_000;

pub const GOVERNANCE_CAP_MIN_BPS: u64 = 500;

pub const GOVERNANCE_CAP_MAX_BPS: u64 = 2000;

pub const GOVERNANCE_CAP_DEFAULT_BPS: u64 = 1000;

pub const PONC_ROUNDS_MIN: u64 = 256;

pub const PONC_ROUNDS_MAX: u64 = 2048;

pub const PONC_ROUNDS_DEFAULT: u64 = 512;

pub const MINING_THREADS_MIN: u64 = 1;

pub const MINING_THREADS_MAX: u64 = 8;

pub const MINING_THREADS_DEFAULT: u64 = 4;

/// Reward of the first phase: a linear ramp from 0.1 KOT at height 0 to
/// 1.0 KOT at the end of the phase.
pub open spec fn phase1_reward_at(height: nat) -> nat {
    10_000_000 + 90_000_000 * height / 262_800
}

/// Reward at `height` during the first phase.
pub fn phase1_reward(height: u64) -> (r: u64)
    requires
        height <= PHASE_1_END,
    ensures
        r == phase1_reward_at(height as nat),
        10_000_000 <= r <= 100_000_000,
{
    10_000_000 + 90_000_000 * height / PHASE_1_END
}

/// Number of decimal digits of `n`; zero has one.
pub open spec fn decimal_digits(n: nat) -> nat
    decreases n,
{
    if n < 10 {
        1
    } else {
        1 + decimal_digits(n / 10)
    }
}

/// Governance weight in basis points: 100 for one digit of contributions,
/// and 100 more for every further digit.
pub open spec fn governance_weight(total_contributions: nat) -> nat {
    (100 + 100 * (decimal_digits(total_contributions) - 1)) as nat
}

/// Governance weight held to the configured cap.
pub open spec fn capped_weight(total_contributions: nat, cap_bps: nat) -> nat {
    if governance_weight(total_contributions) <= cap_bps {
        governance_weight(total_contributions)
    } else {
        cap_bps
    }
}

/// 10ᵏ.
pub open spec fn ten_pow(k: nat) -> nat
    decreases k,
{
    if k == 0 {
        1
    } else {
        10 * ten_pow((k - 1) as nat)
    }
}

/// A number below 10ᵏ has at most k digits.
pub proof fn lemma_decimal_digits_bound(n: nat, k: nat)
    requires
        n < ten_pow(k),
        k >= 1,
    ensures
        1 <= decimal_digits(n) <= k,
    decreases k,
{
    reveal_with_fuel(ten_pow, 2);
    if n >= 10 {
        assert(k >= 2);
        lemma_decimal_digits_bound(n / 10, (k - 1) as nat);
    }
}

proof fn lemma_digits_non_decreasing(a: nat, b: nat)
    requires
        a <= b,
    ensures
        decimal_digits(a) <= decimal_digits(b),
    decreases b,
{
    if a >= 10 {
        lemma_digits_non_decreasing(a / 10, b / 10);
    }
}

/// The governance weight never falls as the contributions grow, and it
/// never exceeds the cap.
pub proof fn law_weight_non_decreasing(a: nat, b: nat, cap_bps: nat)
    requires
        a <= b,
    ensures
        capped_weight(a, cap_bps) <= capped_weight(b, cap_bps) <= cap_bps,
{
    lemma_digits_non_decreasing(a, b);
}

/// Governance weight before the cap.
fn uncapped_weight(total_contributions: u64) -> (w: u64)
    ensures
        w == governance_weight(total_contributions as nat),
        100 <= w <= 2000,
{
    let mut digits: u64 = 1;
    let mut rest: u64 = total_contributions;
    proof {
        reveal_with_fuel(ten_pow, 21);
        assert(ten_pow(20) == 100_000_000_000_000_000_000nat);
        lemma_decimal_digits_bound(total_contributions as nat, 20);
    }
    while rest >= 10
        invariant
            digits >= 1,
            digits + decimal_digits(rest as nat) == 1 + decimal_digits(total_contributions as nat),
            decimal_digits(total_contributions as nat) <= 20,
        decreases rest,
    {
        rest = rest / 10;
        digits += 1;
    }
    100 + 100 * (digits - 1)
}

/// Governance weight in basis points: 100 for one decimal digit of
/// `total_contributions` and 100 more for each further digit, held to
/// `cap_bps`.
pub fn calculate_governance_weight(total_contributions: u64, cap_bps: u64) -> (w: u64)
    ensures
        w == capped_weight(total_contributions as nat, cap_bps as nat),
        w <= cap_bps,
{
    let w = uncapped_weight(total_contributions);
    if w <= cap_bps {
        w
    } else {
        cap_bps
    }
}

/// ⌊log₂ x⌋, and 0 for x < 2.
pub open spec fn log2_floor(x: nat) -> nat
    decreases x,
{
    if x < 2 {
        0
    } else {
        1 + log2_floor(x / 2)
    }
}

/// `x` shifted left until bit 62 is its leading one; values from 2⁶² on (and
/// zero) stay as they are.
pub open spec fn mantissa(x: nat) -> nat
    decreases
        (if x < 0x4000_0000_0000_0000 {
            0x4000_0000_0000_0000 - x
        } else {
            0
        }),
{
    if x == 0 || x >= 0x4000_0000_0000_0000 {
        x
    } else {
        mantissa(2 * x)
    }
}

/// One squaring step of the logarithm: `(f·f) >> 62`, kept to 64 bits.
pub open spec fn squared(f: nat) -> nat {
    ((f * f) / 0x4000_0000_0000_0000) % 0x1_0000_0000_0000_0000
}

/// 2ⁿ.
pub open spec fn bit_weight(n: nat) -> nat
    decreases n,
{
    if n == 0 {
        1
    } else {
        2 * bit_weight((n - 1) as nat)
    }
}

/// The next `n` fractional bits of log₂, most significant first: square; where
/// the square reaches 2⁶³ the bit is one and the square is halved.
pub open spec fn fraction_bits(f: nat, n: nat) -> nat
    decreases n,
{
    if n == 0 {
        0
    } else {
        let g = squared(f);
        if g >= 0x8000_0000_0000_0000 {
            bit_weight((n - 1) as nat) + fraction_bits(g / 2, (n - 1) as nat)
        } else {
            fraction_bits(g, (n - 1) as nat)
        }
    }
}

/// log₂ x in 16.16 fixed point.
pub open spec fn log2_fixed(x: nat) -> nat {
    log2_floor(x) * 65_536 + fraction_bits(mantissa(x), 16)
}

/// Reward of the third phase at `height`: 1 KOT divided by log₂ of the
/// phase's age plus two.
pub open spec fn phase3_reward_at(height: nat) -> nat {
    (100_000_000 * 65_536) / log2_fixed((height - 525_600 + 2) as nat)
}

proof fn lemma_fraction_bits_bound(f: nat, n: nat)
    ensures
        fraction_bits(f, n) < bit_weight(n),
    decreases n,
{
    if n > 0 {
        let g = squared(f);
        lemma_fraction_bits_bound(g, (n - 1) as nat);
        lemma_fraction_bits_bound(g / 2, (n - 1) as nat);
    }
}

proof fn lemma_bit_weight_16()
    ensures
        bit_weight(16) == 65_536,
        bit_weight(15) == 32_768,
{
    reveal_with_fuel(bit_weight, 17);
}

proof fn lemma_bit_weights()
    ensures
        bit_weight(1) == 2,
        bit_weight(62) == 0x4000_0000_0000_0000,
        bit_weight(63) == 0x8000_0000_0000_0000,
        bit_weight(64) == 0x1_0000_0000_0000_0000,
{
    reveal_with_fuel(bit_weight, 65);
}

proof fn lemma_log2_floor_lower(x: nat, k: nat)
    requires
        x >= bit_weight(k),
    ensures
        log2_floor(x) >= k,
    decreases k,
{
    if k > 0 {
        lemma_log2_floor_lower(x / 2, (k - 1) as nat);
    }
}

proof fn lemma_log2_floor_upper(x: nat, k: nat)
    requires
        x < bit_weight(k),
        k >= 1,
    ensures
        log2_floor(x) < k,
    decreases k,
{
    if x >= 2 {
        assert(k >= 2) by {
            reveal_with_fuel(bit_weight, 2);
        }
        lemma_log2_floor_upper(x / 2, (k - 1) as nat);
    }
}

proof fn lemma_log2_floor_monotone(x: nat, y: nat)
    requires
        x <= y,
    ensures
        log2_floor(x) <= log2_floor(y),
    decreases y,
{
    if x >= 2 {
        lemma_log2_floor_monotone(x / 2, y / 2);
    }
}

proof fn lemma_mantissa_range(x: nat)
    requires
        0 < x < 0x8000_0000_0000_0000,
    ensures
        0x4000_0000_0000_0000 <= mantissa(x) < 0x8000_0000_0000_0000,
    decreases
        (if x < 0x4000_0000_0000_0000 {
            0x4000_0000_0000_0000 - x
        } else {
            0
        }),
{
    if x < 0x4000_0000_0000_0000 {
        lemma_mantissa_range(2 * x);
    }
}

proof fn lemma_mantissa_monotone(x: nat, y: nat)
    requires
        0 < x <= y,
        log2_floor(x) == log2_floor(y),
    ensures
        mantissa(x) <= mantissa(y),
    decreases
        (if x < 0x4000_0000_0000_0000 {
            0x4000_0000_0000_0000 - x
        } else {
            0
        }),
{
    lemma_bit_weights();
    if x < 0x4000_0000_0000_0000 {
        lemma_log2_floor_upper(x, 62);
        if y >= 0x4000_0000_0000_0000 {
            lemma_log2_floor_lower(y, 62);
        }
        assert((2 * x) / 2 == x && (2 * y) / 2 == y);
        lemma_mantissa_monotone(2 * x, 2 * y);
    }
}

proof fn lemma_squared_monotone(f: nat, g: nat)
    requires
        f <= g < 0x8000_0000_0000_0000,
    ensures
        squared(f) <= squared(g),
        squared(g) == (g * g) / 0x4000_0000_0000_0000,
{
    assert(f * f <= g * g) by (nonlinear_arith)
        requires
            f <= g,
    ;
    assert(g * g < 0x8000_0000_0000_0000 * 0x8000_0000_0000_0000) by (nonlinear_arith)
        requires
            g < 0x8000_0000_0000_0000,
    ;
    assert((f * f) / 0x4000_0000_0000_0000 <= (g * g) / 0x4000_0000_0000_0000) by (nonlinear_arith)
        requires
            f * f <= g * g,
    ;
    assert((g * g) / 0x4000_0000_0000_0000 < 0x1_0000_0000_0000_0000) by (nonlinear_arith)
        requires
            g * g < 0x8000_0000_0000_0000 * 0x8000_0000_0000_0000,
    ;
}

proof fn lemma_fraction_monotone(f: nat, g: nat, n: nat)
    requires
        f <= g < 0x8000_0000_0000_0000,
    ensures
        fraction_bits(f, n) <= fraction_bits(g, n),
    decreases n,
{
    if n > 0 {
        lemma_squared_monotone(f, g);
        lemma_squared_monotone(f, f);
        let a = squared(f);
        let b = squared(g);
        if b >= 0x8000_0000_0000_0000 {
            if a >= 0x8000_0000_0000_0000 {
                lemma_fraction_monotone(a / 2, b / 2, (n - 1) as nat);
            } else {
                lemma_fraction_bits_bound(a, (n - 1) as nat);
            }
        } else {
            lemma_fraction_monotone(a, b, (n - 1) as nat);
        }
    }
}

/// The fixed-point logarithm never falls as its argument grows, up to 2⁶³.
pub proof fn lemma_log2_fixed_monotone(x: nat, y: nat)
    requires
        0 < x <= y < 0x8000_0000_0000_0000,
    ensures
        log2_fixed(x) <= log2_fixed(y),
{
    lemma_log2_floor_monotone(x, y);
    lemma_bit_weight_16();
    if log2_floor(x) == log2_floor(y) {
        lemma_mantissa_monotone(x, y);
        lemma_mantissa_range(y);
        lemma_fraction_monotone(mantissa(x), mantissa(y), 16);
    } else {
        lemma_fraction_bits_bound(mantissa(x), 16);
        assert(log2_floor(x) * 65_536 + 65_536 <= log2_floor(y) * 65_536) by (nonlinear_arith)
            requires
                log2_floor(x) + 1 <= log2_floor(y),
        ;
    }
}

/// Doubling the argument adds exactly one to the fixed-point logarithm.
pub proof fn lemma_log2_fixed_doubled(x: nat)
    requires
        0 < x < 0x4000_0000_0000_0000,
    ensures
        log2_fixed(2 * x) == log2_fixed(x) + 65_536,
{
    assert((2 * x) / 2 == x);
    assert(log2_floor(2 * x) == log2_floor(x) + 1);
    assert(mantissa(x) == mantissa(2 * x));
    assert((log2_floor(x) + 1) * 65_536 == log2_floor(x) * 65_536 + 65_536) by (nonlinear_arith);
}

/// The fixed-point logarithm of a number from 2 up to 2⁶⁴ lies between 1
/// and 64.
pub proof fn lemma_log2_fixed_range(x: nat)
    requires
        2 <= x < 0x1_0000_0000_0000_0000,
    ensures
        65_536 <= log2_fixed(x) < 64 * 65_536,
{
    lemma_bit_weights();
    lemma_bit_weight_16();
    lemma_log2_floor_lower(x, 1);
    lemma_log2_floor_upper(x, 64);
    lemma_fraction_bits_bound(mantissa(x), 16);
    assert(1 * 65_536 <= log2_floor(x) * 65_536 <= 63 * 65_536) by (nonlinear_arith)
        requires
            1 <= log2_floor(x) <= 63,
    ;
}

/// The age of the third phase at `height`, plus two.
pub open spec fn phase3_argument(height: nat) -> nat {
    (height - 525_600 + 2) as nat
}

/// In the third phase the reward never rises from one height to a later one.
pub proof fn law_phase3_non_increasing(lower: nat, higher: nat)
    requires
        525_600 < lower <= higher,
        phase3_argument(higher) < 0x8000_0000_0000_0000,
    ensures
        phase3_reward_at(higher) <= phase3_reward_at(lower),
{
    let x = phase3_argument(lower);
    let y = phase3_argument(higher);
    lemma_log2_fixed_monotone(x, y);
    lemma_log2_fixed_range(x);
    assert(6_553_600_000_000int / (log2_fixed(y) as int) <= 6_553_600_000_000int / (log2_fixed(
        x,
    ) as int)) by (nonlinear_arith)
        requires
            0 < log2_fixed(x) <= log2_fixed(y),
    ;
}

/// In the third phase the reward falls whenever the age of the phase (plus
/// two) doubles.
pub proof fn law_phase3_decreases_when_age_doubles(lower: nat, higher: nat)
    requires
        525_600 < lower,
        phase3_argument(higher) >= 2 * phase3_argument(lower),
        phase3_argument(higher) < 0x8000_0000_0000_0000,
    ensures
        phase3_reward_at(higher) < phase3_reward_at(lower),
{
    let x = phase3_argument(lower);
    let y = phase3_argument(higher);
    lemma_log2_fixed_doubled(x);
    lemma_log2_fixed_monotone(2 * x, y);
    lemma_log2_fixed_range(x);
    lemma_log2_fixed_range(y);
    let v = log2_fixed(x) as int;
    let w = log2_fixed(y) as int;
    let c = 6_553_600_000_000int;
    assert(w >= v + 65_536);
    // c / w is below c / v by more than one
    assert(c / w < c / v) by (nonlinear_arith)
        requires
            c == 6_553_600_000_000int,
            65_536 <= v,
            v + 65_536 <= w,
            w < 64 * 65_536,
    {
        let q = c / w;
        assert(q * w <= c);
        assert(q >= 1_562_500);
        assert((q + 1) * v == q * v + v);
        assert(q * v + q * 65_536 <= q * w);
        assert(v < q * 65_536);
        assert((q + 1) * v <= c);
        assert((q + 1) <= c / v);
    }
}

/// The reward is positive at every height.
pub proof fn law_reward_positive(height: nat)
    requires
        height <= u64::MAX,
    ensures
        0 < block_reward(height) <= 100_000_000,
{
    if height > 525_600 {
        lemma_log2_fixed_range(phase3_argument(height));
        let v = log2_fixed(phase3_argument(height)) as int;
        assert(0 < 6_553_600_000_000int / v <= 100_000_000) by (nonlinear_arith)
            requires
                65_536 <= v < 64 * 65_536,
        ;
    } else if height <= 262_800 {
        assert(0 <= 90_000_000 * height / 262_800 <= 90_000_000) by (nonlinear_arith)
            requires
                0 <= height <= 262_800,
        ;
    }
}

/// Reward at `height` during the third phase; never zero.
pub fn phase3_reward(height: u64) -> (r: u64)
    requires
        height > PHASE_2_END,
    ensures
        r == phase3_reward_at(height as nat),
        0 < r <= 100_000_000,
{
    let x: u64 = height - PHASE_2_END + 2;
    let mut ilog: u64 = 0;
    let mut t: u64 = x;
    proof {
        lemma_bit_weights();
        lemma_log2_floor_upper(x as nat, 64);
    }
    while t >= 2
        invariant
            ilog + log2_floor(t as nat) == log2_floor(x as nat),
            log2_floor(x as nat) < 64,
            t >= 1,
        decreases t,
    {
        t = t / 2;
        ilog += 1;
    }
    let mut f: u64 = x;
    while f < 0x4000_0000_0000_0000
        invariant
            f > 0,
            mantissa(f as nat) == mantissa(x as nat),
        decreases
            (if f < 0x4000_0000_0000_0000 {
                0x4000_0000_0000_0000 - f
            } else {
                0
            }),
    {
        f = 2 * f;
    }
    let ghost f0 = f as nat;
    let mut val: u64 = ilog * 65_536;
    let mut weight: u64 = 32_768;
    let mut i: u64 = 16;
    proof {
        lemma_bit_weight_16();
        lemma_fraction_bits_bound(f0, 16);
    }
    while i > 0
        invariant
            i <= 16,
            ilog < 64,
            i > 0 ==> weight == bit_weight((i - 1) as nat),
            val + fraction_bits(f as nat, i as nat) == ilog * 65_536 + fraction_bits(f0, 16),
            fraction_bits(f0, 16) < 65_536,
        decreases i,
    {
        let wide: u128 = f as u128;
        assert(wide * wide <= 0xFFFF_FFFF_FFFF_FFFF * 0xFFFF_FFFF_FFFF_FFFF) by (nonlinear_arith)
            requires
                wide <= 0xFFFF_FFFF_FFFF_FFFF,
        ;
        let square: u128 = wide * wide;
        f = ((square / 0x4000_0000_0000_0000) % 0x1_0000_0000_0000_0000) as u64;
        proof {
            lemma_fraction_bits_bound(f as nat, (i - 1) as nat);
            lemma_fraction_bits_bound((f / 2) as nat, (i - 1) as nat);
        }
        if f >= 0x8000_0000_0000_0000 {
            val = val + weight;
            f = f / 2;
        }
        weight = weight / 2;
        i -= 1;
    }
    proof {
        assert(log2_floor(x as nat) >= 1);
        assert(val == log2_fixed(x as nat));
        assert(65_536 <= val < 64 * 65_536 + 65_536);
        assert(6_553_600_000_000int / (val as int) > 0) by (nonlinear_arith)
            requires
                65_536 <= val < 66 * 65_536,
        ;
        assert(6_553_600_000_000int / (val as int) <= 100_000_000) by (nonlinear_arith)
            requires
                65_536 <= val,
        ;
    }
    (100_000_000 * 65_536) / val
}

/// In the first phase the reward never falls from one height to a later one.
pub proof fn law_phase1_non_decreasing(lower: nat, higher: nat)
    requires
        lower <= higher <= 262_800,
    ensures
        phase1_reward_at(lower) <= phase1_reward_at(higher),
{
    assert(90_000_000 * lower / 262_800 <= 90_000_000 * higher / 262_800) by (nonlinear_arith)
        requires
            lower <= higher,
    ;
}

/// The block reward at `height`.
pub open spec fn block_reward(height: nat) -> nat {
    if height <= 262_800 {
        phase1_reward_at(height)
    } else if height <= 525_600 {
        100_000_000
    } else {
        phase3_reward_at(height)
    }
}

pub fn calculate_block_reward(height: u64) -> (r: u64)
    ensures
        r == block_reward(height as nat),
        0 < r <= 100_000_000,
{
    if height <= PHASE_1_END {
        phase1_reward(height)
    } else if height <= PHASE_2_END {
        KNOTS_PER_KOT
    } else {
        phase3_reward(height)
    }
}

/// Whether a referrer who last mined at `referrer_last_mined` is still inside
/// the activity window at `current_height`.
pub open spec fn referrer_active(
    referrer_total_mined: nat,
    referrer_last_mined: nat,
    current_height: nat,
) -> bool {
    referrer_total_mined >= 1 && (current_height <= referrer_last_mined + 2_880 || current_height
        == 0)
}

/// The bonus minted for a referrer: 5% of the base reward while the referrer
/// is active, else nothing.
pub open spec fn referral_bonus(
    base_reward: nat,
    referrer_total_mined: nat,
    referrer_last_mined: nat,
    current_height: nat,
) -> nat {
    if referrer_active(referrer_total_mined, referrer_last_mined, current_height) {
        base_reward * 5 / 100
    } else {
        0
    }
}

pub fn calculate_referral_bonus(
    base_reward: u64,
    referrer_total_mined: u64,
    referrer_last_mined: u64,
    current_height: u64,
) -> (bonus: u64)
    ensures
        bonus == referral_bonus(
            base_reward as nat,
            referrer_total_mined as nat,
            referrer_last_mined as nat,
            current_height as nat,
        ),
        bonus <= base_reward,
{
    if referrer_total_mined == 0 {
        return 0;
    }
    let too_old = current_height as u128 > referrer_last_mined as u128 + 2_880 && current_height
        > 0;
    if too_old {
        return 0;
    }
    ((base_reward as u128 * 5) / 100) as u64
}


/// The largest 256-bit number.
pub open spec fn u256_max() -> nat {
    0xFFFF_FFFF_FFFF_FFFF_FFFF_FFFF_FFFF_FFFF_FFFF_FFFF_FFFF_FFFF_FFFF_FFFF_FFFF_FFFFnat
}

/// 256ⁿ.
pub open spec fn pow256(n: nat) -> nat
    decreases n,
{
    if n == 0 {
        1
    } else {
        256 * pow256((n - 1) as nat)
    }
}

/// A run of `0xFF` bytes stands for 256ⁿ − 1.
pub proof fn lemma_be_value_ones(b: Seq<u8>)
    requires
        forall|i: int| 0 <= i < b.len() ==> b[i] == 0xFF,
    ensures
        be_value(b) + 1 == pow256(b.len()),
    decreases b.len(),
{
    if b.len() > 0 {
        lemma_be_value_ones(b.drop_last());
    }
}

/// Every byte string of length n stands for a number below 256ⁿ.
pub proof fn lemma_be_value_bound(b: Seq<u8>)
    ensures
        be_value(b) < pow256(b.len()),
    decreases b.len(),
{
    if b.len() > 0 {
        lemma_be_value_bound(b.drop_last());
    }
}

pub proof fn lemma_pow256_32()
    ensures
        pow256(32) == u256_max() + 1,
{
    reveal_with_fuel(pow256, 33);
}

/// `primitive_types::U256`: product of a 256-bit number and a `u64`, which
/// panics on overflow; that case is left out.
#[verifier::external_body]
fn u256_mul_u64(a: &[u8; 32], m: u64) -> (r: [u8; 32])
    requires
        be_value(a@) * m <= u256_max(),
    ensures
        be_value(r@) == be_value(a@) * m,
{
    let product = primitive_types::U256::from_big_endian(a) * primitive_types::U256::from(m);
    let mut out = [0u8; 32];
    product.to_big_endian(&mut out);
    out
}

/// `primitive_types::U256`: quotient of a 256-bit number by a non-zero `u64`.
#[verifier::external_body]
pub(crate) fn u256_div_u64(a: &[u8; 32], d: u64) -> (r: [u8; 32])
    requires
        d > 0,
    ensures
        be_value(r@) == be_value(a@) / (d as nat),
{
    let quotient = primitive_types::U256::from_big_endian(a) / primitive_types::U256::from(d);
    let mut out = [0u8; 32];
    quotient.to_big_endian(&mut out);
    out
}

/// `primitive_types::U256`: quotient of two 256-bit numbers, the second of
/// which is not zero.
#[verifier::external_body]
pub(crate) fn u256_div(a: &[u8; 32], b: &[u8; 32]) -> (r: [u8; 32])
    requires
        be_value(b@) > 0,
    ensures
        be_value(r@) == be_value(a@) / be_value(b@),
{
    let quotient = primitive_types::U256::from_big_endian(a) / primitive_types::U256::from_big_endian(b);
    let mut out = [0u8; 32];
    quotient.to_big_endian(&mut out);
    out
}

/// The elapsed seconds of a window, held to a quarter and four times the
/// expected hour.
pub open spec fn clamp_window(actual_secs: nat) -> nat {
    if actual_secs < 900 {
        900
    } else if actual_secs > 14_400 {
        14_400
    } else {
        actual_secs
    }
}

/// The next target: old · clamped / 3600, the largest number where the
/// product leaves 256 bits, and never below one.
pub open spec fn retarget(old_target: nat, actual_secs: nat) -> nat {
    let product = old_target * clamp_window(actual_secs);
    if product > u256_max() {
        u256_max()
    } else if product / 3_600 < 1 {
        1
    } else {
        product / 3_600
    }
}

/// A retarget moves the target by a factor of four at most, as long as the
/// product stays within 256 bits: the new target is at least a quarter of
/// the old one and at most four times the old one (and never below one).
pub proof fn law_retarget_bounded(old_target: nat, actual_secs: nat)
    requires
        old_target * clamp_window(actual_secs) <= u256_max(),
    ensures
        old_target / 4 <= retarget(old_target, actual_secs),
        retarget(old_target, actual_secs) <= 4 * old_target || retarget(old_target, actual_secs)
            == 1,
        retarget(old_target, actual_secs) >= 1,
{
    let c = clamp_window(actual_secs);
    assert(old_target * c / 3_600 <= 4 * old_target) by (nonlinear_arith)
        requires
            c <= 14_400,
    ;
    assert(old_target / 4 <= old_target * c / 3_600) by (nonlinear_arith)
        requires
            c >= 900,
    ;
}

/// Doubling the time of the window at most quadruples the target, as long
/// as the product stays within 256 bits.
pub proof fn law_retarget_doubled_window(old_target: nat, actual_secs: nat)
    requires
        old_target * clamp_window(2 * actual_secs) <= u256_max(),
    ensures
        retarget(old_target, 2 * actual_secs) <= 4 * retarget(old_target, actual_secs),
{
    let c1 = clamp_window(actual_secs);
    let c2 = clamp_window(2 * actual_secs);
    assert(c1 <= c2 <= 2 * c1);
    assert(old_target * c1 <= old_target * c2) by (nonlinear_arith)
        requires
            c1 <= c2,
    ;
    let q1 = old_target * c1 / 3_600;
    let q2 = old_target * c2 / 3_600;
    assert(q2 <= 2 * q1 + 1) by (nonlinear_arith)
        requires
            c2 <= 2 * c1,
            q1 == old_target * c1 / 3_600,
            q2 == old_target * c2 / 3_600,
    ;
}

/// Halving the time of the window at most quarters the target, as long as
/// the product stays within 256 bits.
pub proof fn law_retarget_halved_window(old_target: nat, actual_secs: nat)
    requires
        old_target * clamp_window(actual_secs) <= u256_max(),
    ensures
        retarget(old_target, actual_secs) <= 4 * retarget(old_target, actual_secs / 2),
{
    let c1 = clamp_window(actual_secs / 2);
    let c2 = clamp_window(actual_secs);
    assert(c1 <= c2 <= 2 * c1 + 1);
    assert(c2 <= 3 * c1);
    assert(old_target * c1 <= old_target * c2) by (nonlinear_arith)
        requires
            c1 <= c2,
    ;
    let q1 = old_target * c1 / 3_600;
    let q2 = old_target * c2 / 3_600;
    assert(q2 <= 3 * q1 + 2) by (nonlinear_arith)
        requires
            c2 <= 3 * c1,
            q1 == old_target * c1 / 3_600,
            q2 == old_target * c2 / 3_600,
    ;
    if q1 == 1 {
        // below two the quotient cannot more than double and a bit
        assert(q2 <= 4) by (nonlinear_arith)
            requires
                c2 <= 2 * c1 + 1,
                c1 >= 900,
                q1 == 1,
                q1 == old_target * c1 / 3_600,
                q2 == old_target * c2 / 3_600,
        ;
    }
}

pub fn calculate_new_difficulty(old_target: &[u8; 32], actual_secs: u64) -> (new_target: [u8; 32])
    ensures
        be_value(new_target@) == retarget(be_value(old_target@), actual_secs as nat),
{
    let clamped: u64 = if actual_secs < RETARGET_SECS / 4 {
        RETARGET_SECS / 4
    } else if actual_secs > RETARGET_SECS * 4 {
        RETARGET_SECS * 4
    } else {
        actual_secs
    };
    let max = [0xFFu8; 32];
    let zero = [0u8; 32];
    proof {
        lemma_be_value_ones(max@);
        lemma_be_value_zeros(zero@);
        lemma_pow256_32();
    }
    let ghost old = be_value(old_target@);
    let ghost c = clamped as nat;
    let ceiling = u256_div_u64(&max, clamped);
    if !be_le(old_target, &ceiling) {
        proof {
            let q = u256_max() / c;
            assert(old * c > u256_max()) by (nonlinear_arith)
                requires
                    old >= q + 1,
                    q == u256_max() / c,
                    c > 0,
            ;
        }
        return max;
    }
    proof {
        let q = u256_max() / c;
        assert(old * c <= u256_max()) by (nonlinear_arith)
            requires
                old <= q,
                q == u256_max() / c,
                c > 0,
        ;
    }
    let product = u256_mul_u64(old_target, clamped);
    let quotient = u256_div_u64(&product, RETARGET_SECS);
    if be_le(&quotient, &zero) {
        let mut one = [0u8; 32];
        one[31] = 1;
        proof {
            assert(one@.drop_last() =~= zero@.drop_last());
            lemma_be_value_zeros(one@.drop_last());
        }
        one
    } else {
        quotient
    }
}

} // verus!
