//! Turning uniform draws into waiting times, in integer arithmetic.
//!
//! A block interval is exponentially distributed. Its sample is the mean
//! interval times `-ln(u)` for a uniform `u` in (0, 1]; the logarithm is
//! taken in fixed point with sixteen fractional bits, from a base-two
//! logarithm that is tabulated at sixteen points per octave and linear in
//! between.

use vstd::prelude::*;
use crate::chain::DIFFICULTY_UNIT;

verus! {

/// One in fixed point with sixteen fractional bits.
pub const FIXED_ONE: u64 = 65536;

/// The natural logarithm of two in fixed point.
pub const LN_2_FIXED: u64 = 45426;

/// The largest hash rate a miner can have; with it the divisor of a block
/// interval fits 64 bits.
pub const MAX_HASH_RATE: u64 = 250_000_000;

/// Two to the power `k`.
pub open spec fn pow2(k: nat) -> nat
    decreases k,
{
    if k == 0 {
        1
    } else {
        2 * pow2((k - 1) as nat)
    }
}

/// The position of the highest set bit of `u`; 0 for 0 and 1.
pub open spec fn floor_log2(u: nat) -> nat
    decreases u,
{
    if u < 2 {
        0
    } else {
        1 + floor_log2(u / 2)
    }
}

/// The number of table segments per octave.
pub const SEGMENTS: u64 = 16;

/// The width of a table segment, as a part of a mantissa with 32 fractional bits.
pub const SEGMENT_WIDTH: u64 = 0x1000_0000;

/// The base-two logarithm of `1 + j / 16` in fixed point, rounded to nearest.
pub open spec fn log2_knot(j: int) -> int {
    if j <= 0 {
        0
    } else if j == 1 {
        5732
    } else if j == 2 {
        11136
    } else if j == 3 {
        16248
    } else if j == 4 {
        21098
    } else if j == 5 {
        25711
    } else if j == 6 {
        30109
    } else if j == 7 {
        34312
    } else if j == 8 {
        38336
    } else if j == 9 {
        42196
    } else if j == 10 {
        45904
    } else if j == 11 {
        49472
    } else if j == 12 {
        52911
    } else if j == 13 {
        56229
    } else if j == 14 {
        59434
    } else if j == 15 {
        62534
    } else {
        65536
    }
}

/// The part of `u` above its highest power of two, as a fraction of that
/// power with 32 fractional bits.
pub open spec fn mantissa(u: u64) -> int {
    let p = pow2(floor_log2(u as nat)) as int;
    ((u - p) * 0x1_0000_0000) / p
}

/// The base-two logarithm of `1 + m / 2^32` in fixed point: read from the
/// table, and interpolated linearly inside a segment.
pub open spec fn log2_of_mantissa(m: int) -> int {
    let j = m / (SEGMENT_WIDTH as int);
    let within = m % (SEGMENT_WIDTH as int);
    log2_knot(j) + ((log2_knot(j + 1) - log2_knot(j)) * within) / (SEGMENT_WIDTH as int)
}

/// The base-two logarithm of `u` in fixed point: the exponent of the highest
/// power of two in `u`, plus the logarithm of the mantissa.
pub open spec fn log2_fixed(u: u64) -> int {
    floor_log2(u as nat) * FIXED_ONE + log2_of_mantissa(mantissa(u))
}

/// `-ln(u / 2^64)` in fixed point, where a draw of 0 counts as 1.
pub open spec fn neg_ln_fixed(draw: u64) -> int {
    let u: u64 = if draw == 0 {
        1
    } else {
        draw
    };
    ((64 * FIXED_ONE - log2_fixed(u)) * LN_2_FIXED) / (FIXED_ONE as int)
}

/// The time a miner needs for a block, for a given uniform draw: the mean
/// interval `target_block_time * difficulty / DIFFICULTY_UNIT * total_hash_rate
/// / hash_rate` times `-ln` of the draw, rounded down. `None` stands for an
/// interval that the clock cannot hold.
pub open spec fn generation_interval(
    draw: u64,
    hash_rate: u64,
    total_hash_rate: u64,
    difficulty: u64,
    target_block_time: u64,
) -> Option<u64> {
    let exact = (target_block_time * difficulty * total_hash_rate * neg_ln_fixed(draw)) / (hash_rate
        * DIFFICULTY_UNIT * FIXED_ONE);
    if exact > u64::MAX {
        None
    } else {
        Some(exact as u64)
    }
}

/// The delay of one block transfer for a given uniform draw: uniform between
/// `min` and `max`, both included.
pub open spec fn network_delay(draw: u64, min: u64, max: u64) -> u64 {
    if max - min == u64::MAX {
        draw
    } else {
        (min + (draw as int) % (max - min + 1)) as u64
    }
}

/// The powers of two grow.
pub proof fn lemma_pow2_monotone(i: nat, j: nat)
    requires
        i <= j,
    ensures
        0 < pow2(i) <= pow2(j),
    decreases j,
{
    if j > 0 {
        if i < j {
            lemma_pow2_monotone(i, (j - 1) as nat);
        } else {
            lemma_pow2_monotone((i - 1) as nat, (j - 1) as nat);
        }
    }
}

/// A number between two neighbouring powers of two has the lower one's
/// exponent as its logarithm.
pub proof fn lemma_floor_log2_between(u: nat, k: nat)
    requires
        pow2(k) <= u < 2 * pow2(k),
    ensures
        floor_log2(u) == k,
    decreases k,
{
    if k > 0 {
        lemma_pow2_monotone(0, (k - 1) as nat);
        lemma_floor_log2_between(u / 2, (k - 1) as nat);
    }
}

/// A positive number lies between the power of two of its logarithm and the next.
pub proof fn lemma_floor_log2_brackets(u: nat)
    requires
        u >= 1,
    ensures
        pow2(floor_log2(u)) <= u < 2 * pow2(floor_log2(u)),
    decreases u,
{
    if u >= 2 {
        lemma_floor_log2_brackets(u / 2);
    }
}

/// The fixed-point logarithm is exact at the powers of two.
pub proof fn lemma_log2_of_power_of_two(k: nat)
    requires
        k < 64,
    ensures
        pow2(k) <= u64::MAX,
        log2_fixed(pow2(k) as u64) == k * FIXED_ONE,
{
    lemma_pow2_64();
    lemma_pow2_monotone(k, 63);
    lemma_floor_log2_between(pow2(k), k);
    let p = pow2(k) as int;
    assert(((p - p) * 0x1_0000_0000) / p == 0) by (nonlinear_arith)
        requires
            p > 0,
    ;
    let rise = log2_knot(1) - log2_knot(0);
    assert((rise * 0) / (SEGMENT_WIDTH as int) == 0);
}

/// The larger the number, the larger its highest power of two.
pub proof fn lemma_floor_log2_monotone(u: nat, v: nat)
    requires
        u <= v,
    ensures
        floor_log2(u) <= floor_log2(v),
    decreases v,
{
    if u >= 2 {
        lemma_floor_log2_monotone(u / 2, v / 2);
    }
}

/// The table and its interpolation grow with the mantissa, from 0 to below 1.
pub proof fn lemma_log2_of_mantissa_monotone(m: int, n: int)
    requires
        0 <= m <= n < 0x1_0000_0000,
    ensures
        0 <= log2_of_mantissa(m) <= log2_of_mantissa(n) < FIXED_ONE,
{
    let w = SEGMENT_WIDTH as int;
    let (j, a) = (m / w, m % w);
    let (k, b) = (n / w, n % w);
    let rise_j = log2_knot(j + 1) - log2_knot(j);
    let rise_k = log2_knot(k + 1) - log2_knot(k);
    assert(0 <= (rise_j * a) / w < rise_j) by (nonlinear_arith)
        requires
            rise_j > 0,
            0 <= a < w,
            w == 0x1000_0000,
    ;
    assert(0 <= (rise_k * b) / w < rise_k) by (nonlinear_arith)
        requires
            rise_k > 0,
            0 <= b < w,
            w == 0x1000_0000,
    ;
    if j == k {
        assert((rise_j * a) / w <= (rise_j * b) / w) by (nonlinear_arith)
            requires
                rise_j > 0,
                0 <= a <= b,
                w == 0x1000_0000,
        ;
    }
}

/// The fixed-point logarithm grows with its argument.
pub proof fn lemma_log2_monotone(u: u64, v: u64)
    requires
        0 < u <= v,
    ensures
        log2_fixed(u) <= log2_fixed(v),
{
    let (k, l) = (floor_log2(u as nat), floor_log2(v as nat));
    let (p, q) = (pow2(k) as int, pow2(l) as int);
    lemma_floor_log2_monotone(u as nat, v as nat);
    lemma_floor_log2_brackets(u as nat);
    lemma_floor_log2_brackets(v as nat);
    let (m, n) = (mantissa(u), mantissa(v));
    assert(0 <= m < 0x1_0000_0000) by (nonlinear_arith)
        requires
            m == ((u - p) * 0x1_0000_0000) / p,
            0 < p <= u < 2 * p,
    ;
    assert(0 <= n < 0x1_0000_0000) by (nonlinear_arith)
        requires
            n == ((v - q) * 0x1_0000_0000) / q,
            0 < q <= v < 2 * q,
    ;
    lemma_log2_of_mantissa_monotone(m, m);
    lemma_log2_of_mantissa_monotone(n, n);
    if k == l {
        assert(m <= n) by (nonlinear_arith)
            requires
                m == ((u - p) * 0x1_0000_0000) / p,
                n == ((v - p) * 0x1_0000_0000) / p,
                0 < p <= u <= v,
        ;
        lemma_log2_of_mantissa_monotone(m, n);
    }
}

/// The larger the draw, the smaller the negated logarithm: a draw near the
/// top of the range gives a short interval, a draw near zero a long one.
pub proof fn lemma_neg_ln_antitone(low: u64, high: u64)
    requires
        low <= high,
    ensures
        neg_ln_fixed(high) <= neg_ln_fixed(low),
{
    let u: u64 = if low == 0 {
        1
    } else {
        low
    };
    let v: u64 = if high == 0 {
        1
    } else {
        high
    };
    lemma_log2_monotone(u, v);
    let (a, b) = (log2_fixed(u), log2_fixed(v));
    assert(((64 * 65536 - b) * 45426) / 65536 <= ((64 * 65536 - a) * 45426) / 65536)
        by (nonlinear_arith)
        requires
            a <= b,
    ;
}

/// The fixed-point logarithm of a 64-bit number is below 64, and its negated
/// natural counterpart lies between 0 and 64 times the logarithm of two.
pub proof fn lemma_logarithm_bounds(draw: u64)
    ensures
        draw > 0 ==> 0 <= log2_fixed(draw) < 64 * FIXED_ONE,
        0 <= neg_ln_fixed(draw) <= 64 * LN_2_FIXED,
{
    let u: u64 = if draw == 0 {
        1
    } else {
        draw
    };
    let k = floor_log2(u as nat);
    let p = pow2(k) as int;
    lemma_floor_log2_brackets(u as nat);
    lemma_pow2_64();
    if k >= 64 {
        lemma_pow2_monotone(64, k);
    }
    let m = mantissa(u);
    assert(0 <= m < 0x1_0000_0000) by (nonlinear_arith)
        requires
            m == ((u - p) * 0x1_0000_0000) / p,
            0 < p <= u < 2 * p,
    ;
    let j = m / (SEGMENT_WIDTH as int);
    let within = m % (SEGMENT_WIDTH as int);
    let rise = log2_knot(j + 1) - log2_knot(j);
    let inside = (rise * within) / (SEGMENT_WIDTH as int);
    assert(0 <= inside < rise) by (nonlinear_arith)
        requires
            inside == (rise * within) / 0x1000_0000,
            0 < rise,
            0 <= within < 0x1000_0000,
    ;
    let l = log2_fixed(u);
    assert(0 <= l < 64 * FIXED_ONE);
    assert(0 <= ((64 * FIXED_ONE - l) * LN_2_FIXED) / (FIXED_ONE as int) <= 64 * LN_2_FIXED)
        by (nonlinear_arith)
        requires
            0 <= l < 64 * FIXED_ONE,
            FIXED_ONE == 65536,
            LN_2_FIXED == 45426,
    ;
}

/// The larger the draw, the sooner the block: the interval is an
/// order-reversing function of the uniform draw, as the inverse of a
/// distribution function must be.
pub proof fn lemma_interval_shrinks_with_draw(
    low: u64,
    high: u64,
    hash_rate: u64,
    total_hash_rate: u64,
    difficulty: u64,
    target_block_time: u64,
)
    requires
        hash_rate > 0,
        low <= high,
    ensures
        match generation_interval(low, hash_rate, total_hash_rate, difficulty, target_block_time) {
            Some(long) => generation_interval(
                high,
                hash_rate,
                total_hash_rate,
                difficulty,
                target_block_time,
            ) matches Some(short) && short <= long,
            None => true,
        },
{
    lemma_logarithm_bounds(high);
    lemma_neg_ln_antitone(low, high);
    let (a, b) = (neg_ln_fixed(high), neg_ln_fixed(low));
    let work = target_block_time * difficulty * total_hash_rate;
    let divisor = hash_rate * DIFFICULTY_UNIT * FIXED_ONE;
    assert(work >= 0) by (nonlinear_arith)
        requires
            work == target_block_time * difficulty * total_hash_rate,
            0 <= target_block_time,
            0 <= difficulty,
            0 <= total_hash_rate,
    ;
    assert(0 <= (work * a) / divisor <= (work * b) / divisor) by (nonlinear_arith)
        requires
            work >= 0,
            0 <= a <= b,
            divisor > 0,
    ;
}

/// The higher the difficulty, the longer a miner needs for a block.
pub proof fn lemma_interval_grows_with_difficulty(
    draw: u64,
    hash_rate: u64,
    total_hash_rate: u64,
    easy: u64,
    hard: u64,
    target_block_time: u64,
)
    requires
        hash_rate > 0,
        easy <= hard,
    ensures
        match generation_interval(draw, hash_rate, total_hash_rate, hard, target_block_time) {
            Some(long) => generation_interval(
                draw,
                hash_rate,
                total_hash_rate,
                easy,
                target_block_time,
            ) matches Some(short) && short <= long,
            None => true,
        },
{
    lemma_logarithm_bounds(draw);
    let l = neg_ln_fixed(draw);
    let divisor = hash_rate * DIFFICULTY_UNIT * FIXED_ONE;
    assert((target_block_time * easy * total_hash_rate * l) / divisor <= (target_block_time * hard
        * total_hash_rate * l) / divisor && (target_block_time * easy * total_hash_rate * l)
        / divisor >= 0) by (nonlinear_arith)
        requires
            0 <= easy <= hard,
            0 <= target_block_time,
            0 <= total_hash_rate,
            0 <= l,
            divisor > 0,
    ;
}

/// The larger a miner's hash rate, the sooner it completes a block.
pub proof fn lemma_interval_shrinks_with_hash_rate(
    draw: u64,
    weak: u64,
    strong: u64,
    total_hash_rate: u64,
    difficulty: u64,
    target_block_time: u64,
)
    requires
        0 < weak <= strong,
    ensures
        match generation_interval(draw, weak, total_hash_rate, difficulty, target_block_time) {
            Some(long) => generation_interval(
                draw,
                strong,
                total_hash_rate,
                difficulty,
                target_block_time,
            ) matches Some(short) && short <= long,
            None => true,
        },
{
    lemma_logarithm_bounds(draw);
    let l = neg_ln_fixed(draw);
    let work = target_block_time * difficulty * total_hash_rate * l;
    let small = weak * DIFFICULTY_UNIT * FIXED_ONE;
    let large = strong * DIFFICULTY_UNIT * FIXED_ONE;
    assert(work >= 0) by (nonlinear_arith)
        requires
            work == target_block_time * difficulty * total_hash_rate * l,
            0 <= target_block_time,
            0 <= difficulty,
            0 <= total_hash_rate,
            0 <= l,
    ;
    assert(0 < small <= large) by (nonlinear_arith)
        requires
            0 < weak <= strong,
            small == weak * DIFFICULTY_UNIT * FIXED_ONE,
            large == strong * DIFFICULTY_UNIT * FIXED_ONE,
            DIFFICULTY_UNIT == 1_000_000,
            FIXED_ONE == 65536,
    ;
    assert(0 <= work / large <= work / small) by (nonlinear_arith)
        requires
            work >= 0,
            0 < small <= large,
    ;
}

proof fn lemma_pow2_64()
    ensures
        pow2(64) == 0x1_0000_0000_0000_0000,
        pow2(63) == 0x8000_0000_0000_0000,
{
    reveal_with_fuel(pow2, 65);
}

fn knot(j: u64) -> (r: u64)
    requires
        j <= SEGMENTS,
    ensures
        r == log2_knot(j as int),
        r <= FIXED_ONE,
{
    if j == 0 {
        0
    } else if j == 1 {
        5732
    } else if j == 2 {
        11136
    } else if j == 3 {
        16248
    } else if j == 4 {
        21098
    } else if j == 5 {
        25711
    } else if j == 6 {
        30109
    } else if j == 7 {
        34312
    } else if j == 8 {
        38336
    } else if j == 9 {
        42196
    } else if j == 10 {
        45904
    } else if j == 11 {
        49472
    } else if j == 12 {
        52911
    } else if j == 13 {
        56229
    } else if j == 14 {
        59434
    } else if j == 15 {
        62534
    } else {
        65536
    }
}

/// Computes the fixed-point base-two logarithm of a positive number.
pub fn log2_of(u: u64) -> (r: u64)
    requires
        u > 0,
    ensures
        r == log2_fixed(u),
        r < 64 * FIXED_ONE,
{
    let mut k: u64 = 0;
    let mut p: u64 = 1;
    let half = u / 2;
    while p <= half
        invariant
            p == pow2(k as nat),
            0 < p <= u,
            half == u / 2,
            k <= 63,
        decreases u - p,
    {
        proof {
            lemma_pow2_64();
            if k >= 63 {
                lemma_pow2_monotone(63, k as nat);
            }
        }
        p = p * 2;
        k = k + 1;
        proof {
            if k > 63 {
                lemma_pow2_monotone(64, k as nat);
            }
        }
    }
    proof {
        lemma_floor_log2_between(u as nat, k as nat);
    }
    let rest: u128 = (u - p) as u128 * 0x1_0000_0000u128;
    let m: u128 = rest / p as u128;
    assert(m < 0x1_0000_0000) by (nonlinear_arith)
        requires
            m == rest / (p as u128),
            rest == (u - p) * 0x1_0000_0000,
            0 < p <= u < 2 * p,
    ;
    let m: u64 = m as u64;
    let j: u64 = m / SEGMENT_WIDTH;
    let within: u64 = m % SEGMENT_WIDTH;
    let low = knot(j);
    let high = knot(j + 1);
    let rise: u64 = high - low;
    assert(rise * within < rise * SEGMENT_WIDTH && rise * within >= 0 && rise * SEGMENT_WIDTH <= 0x1000_0000 * 65536) by (nonlinear_arith)
        requires
            0 < rise <= 65536,
            0 <= within < SEGMENT_WIDTH,
            SEGMENT_WIDTH == 0x1000_0000,
    ;
    let inside: u64 = (rise * within) / SEGMENT_WIDTH;
    assert(inside < rise) by (nonlinear_arith)
        requires
            inside == (rise * within) / (SEGMENT_WIDTH as int),
            rise * within < rise * SEGMENT_WIDTH,
            SEGMENT_WIDTH == 0x1000_0000,
            rise > 0,
    ;
    k * FIXED_ONE + low + inside
}

/// Computes `-ln(draw / 2^64)` in fixed point.
pub fn neg_ln_of(draw: u64) -> (r: u64)
    ensures
        r == neg_ln_fixed(draw),
        r <= 64 * LN_2_FIXED,
{
    let u: u64 = if draw == 0 {
        1
    } else {
        draw
    };
    let l = log2_of(u);
    ((64 * FIXED_ONE - l) * LN_2_FIXED) / FIXED_ONE
}

/// Computes the time a miner needs for its next block from a uniform draw.
pub fn interval_for(
    draw: u64,
    hash_rate: u64,
    total_hash_rate: u64,
    difficulty: u64,
    target_block_time: u64,
) -> (r: Option<u64>)
    requires
        0 < hash_rate <= MAX_HASH_RATE,
    ensures
        r == generation_interval(draw, hash_rate, total_hash_rate, difficulty, target_block_time),
{
    let l = neg_ln_of(draw);
    let divisor: u128 = hash_rate as u128 * DIFFICULTY_UNIT as u128 * FIXED_ONE as u128;
    let ghost exact = (target_block_time * difficulty * total_hash_rate * l) / (divisor as int);
    if l == 0 {
        assert(target_block_time * difficulty * total_hash_rate * l == 0) by (nonlinear_arith)
            requires
                l == 0,
        ;
        return Some(0);
    }
    assert(target_block_time * difficulty <= u64::MAX * u64::MAX) by (nonlinear_arith)
        requires
            0 <= target_block_time <= u64::MAX,
            0 <= difficulty <= u64::MAX,
    ;
    let work: u128 = target_block_time as u128 * difficulty as u128;
    let scaled = match work.checked_mul(total_hash_rate as u128) {
        Some(s) => s.checked_mul(l as u128),
        None => None,
    };
    match scaled {
        Some(numerator) => {
            let q = numerator / divisor;
            if q > u64::MAX as u128 {
                None
            } else {
                Some(q as u64)
            }
        },
        None => {
            assert(exact > u64::MAX) by (nonlinear_arith)
                requires
                    exact == (work * total_hash_rate * l) / (divisor as int),
                    0 < divisor <= 0x1_0000_0000_0000_0000,
                    work * total_hash_rate > u128::MAX || work * total_hash_rate * l > u128::MAX,
                    l >= 1,
                    work >= 0,
                    total_hash_rate >= 0,
            ;
            None
        },
    }
}

/// Computes the delay of one block transfer from a uniform draw.
pub fn delay_for(draw: u64, min: u64, max: u64) -> (r: u64)
    requires
        min <= max,
    ensures
        r == network_delay(draw, min, max),
        min <= r <= max,
{
    let span = max - min;
    if span == u64::MAX {
        draw
    } else {
        min + draw % (span + 1)
    }
}

} // verus!
