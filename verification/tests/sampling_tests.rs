use powsim::rng::Rng;
use powsim::sampling::{delay_for, interval_for, log2_of, neg_ln_of, MAX_HASH_RATE};

#[test]
fn the_generator_yields_its_known_sequence() {
    let mut r = Rng::seeded(0);
    assert_eq!(r.next_u64(), 1442695037175000593);
    assert_eq!(r.next_u64(), 11166244415259155177);
    assert_eq!(r.next_u64(), 7076646891078057782);
    assert_eq!(r.state(), 10346034117385188870);
    let mut r = Rng::seeded(42);
    assert_eq!(r.next_u64(), 10481999409208359077);
    assert_eq!(r.next_u64(), 7615522810074612799);
    assert_eq!(r.next_u64(), 12546512530236174361);
    assert_eq!(r.state(), 483838003013946848);
}

#[test]
fn equal_seeds_give_equal_draws() {
    let mut a = Rng::seeded(987654321);
    let mut b = Rng::seeded(987654321);
    let mut i = 0;
    while i < 1000 {
        assert_eq!(a.next_u64(), b.next_u64());
        i += 1;
    }
    assert_eq!(a.state(), b.state());
}

#[test]
fn a_generator_continues_from_a_saved_state() {
    let mut a = Rng::seeded(5);
    a.next_u64();
    a.next_u64();
    let mut b = Rng::seeded(a.state());
    assert_eq!(a.next_u64(), b.next_u64());
}

#[test]
fn different_seeds_give_different_draws() {
    let mut a = Rng::seeded(1);
    let mut b = Rng::seeded(2);
    assert_ne!(a.next_u64(), b.next_u64());
}

#[test]
fn the_logarithm_is_exact_at_powers_of_two() {
    assert_eq!(log2_of(1), 0);
    assert_eq!(log2_of(2), 65536);
    assert_eq!(log2_of(4), 2 * 65536);
    assert_eq!(log2_of(1 << 63), 63 * 65536);
}

#[test]
fn the_logarithm_follows_the_table_in_between() {
    // log2(3) = 1.58496: one octave and the table entry for one half.
    assert_eq!(log2_of(3), 103872);
    // log2(5) = 2.32193: one quarter into the third octave.
    assert_eq!(log2_of(5), 152170);
    assert_eq!(log2_of(1000), 653108);
    assert_eq!(log2_of(3 << 62), 4167104);
    assert_eq!(log2_of(u64::MAX), 4194303);
}

#[test]
fn the_logarithm_is_within_a_thousandth_of_the_real_one() {
    let mut rng = Rng::seeded(77);
    let mut i = 0;
    while i < 2000 {
        let u = rng.next_u64() >> (i % 60);
        if u > 0 {
            let got = log2_of(u) as f64 / 65536.0;
            let want = (u as f64).log2();
            assert!((got - want).abs() < 0.001);
        }
        i += 1;
    }
}

#[test]
fn the_negated_logarithm_of_a_draw() {
    assert_eq!(neg_ln_of(0), 64 * 45426);
    assert_eq!(neg_ln_of(1), 2907264);
    assert_eq!(neg_ln_of(2), 2861838);
    assert_eq!(neg_ln_of(1 << 63), 45426);
    assert_eq!(neg_ln_of(3 << 62), 18853);
    assert_eq!(neg_ln_of(u64::MAX), 0);
}

#[test]
fn a_block_interval_scales_the_mean_by_the_logarithm() {
    // Mean 600 * 20 = 12000, times ln 2.
    assert_eq!(interval_for(1 << 63, 1, 20, 1_000_000, 600), Some(8317));
    // Mean 600 * 2 = 1200, times ln 2.
    assert_eq!(interval_for(1 << 63, 19, 38, 1_000_000, 600), Some(831));
    assert_eq!(interval_for(12345678901234567890, 3, 38, 2_500_000, 600), Some(7634));
    assert_eq!(interval_for(u64::MAX, 1, 38, 1_000_000, 600), Some(0));
}

#[test]
fn a_block_interval_grows_with_the_difficulty() {
    assert_eq!(interval_for(1 << 62, 1, 20, 1_000_000, 600), Some(16635));
    assert_eq!(interval_for(1 << 62, 1, 20, 2_000_000, 600), Some(2 * 16635));
    assert_eq!(interval_for(1 << 62, 1, 20, 500_000, 600), Some(8317));
}

#[test]
fn a_block_interval_that_the_clock_cannot_hold_is_none() {
    assert_eq!(interval_for(1, 1, u64::MAX, u64::MAX, u64::MAX), None);
    assert_eq!(interval_for(1, MAX_HASH_RATE, u64::MAX, u64::MAX, 1 << 40), None);
    assert_eq!(interval_for(1, 1, 1 << 40, 1 << 40, 1 << 40), None);
    // With a mean of 2^63 the interval is 2^47 times the fixed-point logarithm.
    assert_eq!(interval_for(1 << 63, 1, 1, 1_000_000, 1 << 63), Some(45426 << 47));
    assert_eq!(interval_for(3 << 62, 1, 1, 1_000_000, u64::MAX), Some(u64::MAX / 65536 * 18853 + 18852));
    assert_eq!(interval_for(1, 1, 1, 1_000_000, u64::MAX), None);
    // Nothing is lost where the draw gives an interval of zero.
    assert_eq!(interval_for(u64::MAX, 1, u64::MAX, u64::MAX, u64::MAX), Some(0));
}

#[test]
fn block_intervals_average_to_the_mean() {
    let mut rng = Rng::seeded(31337);
    let mut sum: u128 = 0;
    let n = 200_000;
    let mut i = 0;
    while i < n {
        sum += interval_for(rng.next_u64(), 1, 20, 1_000_000, 600).unwrap() as u128;
        i += 1;
    }
    let average = (sum / n as u128) as f64;
    assert!((average - 12000.0).abs() < 12000.0 * 0.02);
}

#[test]
fn a_network_delay_lies_in_its_range() {
    assert_eq!(delay_for(0, 10, 20), 10);
    assert_eq!(delay_for(10, 10, 20), 20);
    assert_eq!(delay_for(11, 10, 20), 10);
    assert_eq!(delay_for(12345, 7, 7), 7);
    assert_eq!(delay_for(12345, 0, u64::MAX), 12345);
    assert_eq!(delay_for(u64::MAX, 1, u64::MAX), 1);
    let mut rng = Rng::seeded(9);
    let mut seen = [false; 5];
    let mut i = 0;
    while i < 200 {
        let d = delay_for(rng.next_u64(), 1, 5);
        assert!(d >= 1 && d <= 5);
        seen[(d - 1) as usize] = true;
        i += 1;
    }
    assert_eq!(seen, [true; 5]);
}

#[test]
fn a_larger_draw_gives_a_shorter_interval() {
    let mut rng = Rng::seeded(123);
    let mut i = 0;
    while i < 2000 {
        let (a, b) = (rng.next_u64(), rng.next_u64());
        let (low, high) = if a <= b { (a, b) } else { (b, a) };
        assert!(log2_of(low.max(1)) <= log2_of(high.max(1)));
        assert!(neg_ln_of(low) >= neg_ln_of(high));
        let long = interval_for(low, 3, 38, 1_000_000, 600).unwrap();
        let short = interval_for(high, 3, 38, 1_000_000, 600).unwrap();
        assert!(short <= long);
        i += 1;
    }
}

#[test]
fn a_stronger_miner_and_a_lower_difficulty_give_a_shorter_interval() {
    let mut rng = Rng::seeded(321);
    let mut i = 0;
    while i < 2000 {
        let draw = rng.next_u64();
        let base = interval_for(draw, 3, 38, 1_000_000, 600).unwrap();
        assert!(interval_for(draw, 4, 38, 1_000_000, 600).unwrap() <= base);
        assert!(interval_for(draw, 3, 38, 1_000_001, 600).unwrap() >= base);
        assert!(interval_for(draw, 3, 38, 999_999, 600).unwrap() <= base);
        i += 1;
    }
}
