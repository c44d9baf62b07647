use powsim::chain::Block;
use powsim::difficulty::{child_difficulty, next_difficulty, DifficultyRule};

#[test]
fn a_fast_epoch_doubles_the_difficulty_at_most_when_the_clamp_is_two() {
    // Twenty times too fast, clamped at the configured maximum of two.
    assert_eq!(next_difficulty(1_000_000, 0, 300, 600, 10, 2), 2_000_000);
    assert_eq!(next_difficulty(1_000_000, 1_000, 1_300, 600, 10, 2), 2_000_000);
}

#[test]
fn a_fast_epoch_is_clamped_at_the_configured_factor() {
    assert_eq!(next_difficulty(1_000_000, 0, 300, 600, 10, 4), 4_000_000);
    assert_eq!(next_difficulty(1_000_000, 0, 300, 600, 10, 100), 20_000_000);
}

#[test]
fn an_epoch_twice_too_fast_doubles_the_difficulty() {
    assert_eq!(next_difficulty(1_000_000, 0, 3_000, 600, 10, 4), 2_000_000);
    assert_eq!(next_difficulty(3_000_000, 500, 3_500, 600, 10, 4), 6_000_000);
}

#[test]
fn an_epoch_on_target_keeps_the_difficulty() {
    assert_eq!(next_difficulty(1_234_567, 0, 6_000, 600, 10, 4), 1_234_567);
}

#[test]
fn a_slow_epoch_lowers_the_difficulty() {
    assert_eq!(next_difficulty(1_000_000, 0, 12_000, 600, 10, 4), 500_000);
    assert_eq!(next_difficulty(1_000_000, 0, 9_000, 600, 10, 4), 666_666);
}

#[test]
fn a_very_slow_epoch_is_clamped_at_the_inverse_factor() {
    assert_eq!(next_difficulty(1_000_000, 0, 60_000, 600, 10, 4), 250_000);
    assert_eq!(next_difficulty(1_000_000, 0, u64::MAX, 600, 10, 4), 250_000);
}

#[test]
fn the_difficulty_never_falls_below_one() {
    assert_eq!(next_difficulty(1, 0, 60_000, 600, 10, 4), 1);
    assert_eq!(next_difficulty(3, 0, 60_000, 600, 10, 4), 1);
    assert_eq!(next_difficulty(8, 0, 60_000, 600, 10, 4), 2);
}

#[test]
fn an_epoch_that_took_no_time_gets_the_ceiling() {
    assert_eq!(next_difficulty(1_000_000, 500, 500, 600, 10, 4), 4_000_000);
    assert_eq!(next_difficulty(1_000_000, 500, 400, 600, 10, 4), 4_000_000);
}

#[test]
fn the_difficulty_saturates_at_the_largest_value() {
    assert_eq!(next_difficulty(u64::MAX, 0, 1, 600, 10, 4), u64::MAX);
    assert_eq!(next_difficulty(u64::MAX / 2, 0, 1, 600, 10, 4), u64::MAX);
    assert_eq!(next_difficulty(u64::MAX, 0, 6_000, u64::MAX, 1, 1), u64::MAX);
}

#[test]
fn a_clamp_of_one_freezes_the_difficulty() {
    assert_eq!(next_difficulty(1_000_000, 0, 300, 600, 10, 1), 1_000_000);
    assert_eq!(next_difficulty(1_000_000, 0, 60_000, 600, 10, 1), 1_000_000);
}

fn block_at(height: u64, time: u64, difficulty: u64, last_epoch_time: u64) -> Block {
    Block { height, time, difficulty, last_epoch_time, ..Block::new() }
}

#[test]
fn blocks_inside_an_epoch_inherit_the_difficulty() {
    let rule = DifficultyRule { target_block_time: 600, epoch_length: 10, max_factor: 4 };
    let mut h = 0;
    while h < 9 {
        let parent = block_at(h, 1_000, 777, 100);
        assert_eq!(child_difficulty(&parent, &rule), (777, 100));
        h += 1;
    }
    assert_eq!(child_difficulty(&block_at(10, 1_000, 777, 100), &rule), (777, 100));
}

#[test]
fn the_first_block_of_an_epoch_is_adjusted() {
    let rule = DifficultyRule { target_block_time: 600, epoch_length: 10, max_factor: 4 };
    // The epoch took 3000 where 6000 were expected.
    let parent = block_at(9, 3_100, 1_000_000, 100);
    assert_eq!(child_difficulty(&parent, &rule), (2_000_000, 3_100));
    let parent = block_at(19, 12_100, 1_000_000, 100);
    assert_eq!(child_difficulty(&parent, &rule), (500_000, 12_100));
}

#[test]
fn an_epoch_of_one_block_adjusts_every_block() {
    let rule = DifficultyRule { target_block_time: 600, epoch_length: 1, max_factor: 4 };
    assert_eq!(child_difficulty(&block_at(0, 300, 1_000, 0), &rule), (2_000, 300));
    assert_eq!(child_difficulty(&block_at(7, 1_500, 1_000, 300), &rule), (500, 1_500));
}
