use powsim::chain::{Block, Chain, DIFFICULTY_UNIT, NO_MINTER};
use powsim::error::{SimError, Violation};

#[test]
fn genesis_is_the_block_without_parent_and_minter() {
    let g = Block::new();
    assert_eq!(g.height, 0);
    assert_eq!(g.parent, None);
    assert_eq!(g.minter, -1);
    assert_eq!(g.minter, NO_MINTER);
    assert_eq!(g.time, 0);
    assert_eq!(g.rand, 0);
    assert_eq!(g.difficulty, DIFFICULTY_UNIT);
    assert_eq!(g.difficulty, 1_000_000);
    assert_eq!(g.last_epoch_time, 0);
    assert!(!g.finalized);
}

#[test]
fn new_chain_holds_only_genesis() {
    let c = Chain::new(6);
    assert_eq!(c.len(), 1);
    assert_eq!(c.confirmation_depth(), 6);
    assert_eq!(c.block(0), Block::new());
    assert_eq!(c.tallest(), 0);
    assert_eq!(c.weight(0), 1_000_000);
}

#[test]
fn depth_zero_finalizes_every_block_at_once() {
    let mut c = Chain::new(0);
    assert!(c.block(0).finalized);
    let a = c.append(0, 3, 10, 0, 7, 0).unwrap();
    assert!(c.block(a).finalized);
}

#[test]
fn append_puts_the_block_one_above_its_parent() {
    let mut c = Chain::new(100);
    let a = c.append(0, 0, 10, 111, 5, 0).unwrap();
    let b = c.append(a, 1, 20, 222, 6, 3).unwrap();
    let fork = c.append(a, 2, 20, 333, 9, 0).unwrap();
    assert_eq!((a, b, fork), (1, 2, 3));
    assert_eq!(c.len(), 4);
    assert_eq!(
        c.block(b),
        Block {
            height: 2,
            parent: Some(a),
            minter: 1,
            time: 20,
            rand: 222,
            difficulty: 6,
            last_epoch_time: 3,
            finalized: false,
        }
    );
    let mut i = 1;
    while i < c.len() {
        let blk = c.block(i);
        let parent = c.block(blk.parent.unwrap());
        assert_eq!(blk.height, parent.height + 1);
        assert!(blk.time >= parent.time);
        assert!(blk.parent.unwrap() < i);
        i += 1;
    }
    assert_eq!(c.height(fork), 2);
    assert_eq!(c.tallest(), 2);
}

#[test]
fn append_refuses_an_unknown_parent() {
    let mut c = Chain::new(6);
    assert_eq!(
        c.append(1, 0, 10, 0, 5, 0),
        Err(SimError::InvariantViolation(Violation::UnknownParent))
    );
    assert_eq!(c.len(), 1);
}

#[test]
fn append_refuses_a_block_without_minter() {
    let mut c = Chain::new(6);
    assert_eq!(
        c.append(0, -1, 10, 0, 5, 0),
        Err(SimError::InvariantViolation(Violation::MinterMissing))
    );
    assert_eq!(c.len(), 1);
}

#[test]
fn append_refuses_zero_difficulty() {
    let mut c = Chain::new(6);
    assert_eq!(
        c.append(0, 0, 10, 0, 0, 0),
        Err(SimError::InvariantViolation(Violation::ZeroDifficulty))
    );
    assert_eq!(c.len(), 1);
}

#[test]
fn append_refuses_a_block_older_than_its_parent() {
    let mut c = Chain::new(6);
    let a = c.append(0, 0, 10, 0, 5, 0).unwrap();
    assert_eq!(
        c.append(a, 0, 9, 0, 5, 0),
        Err(SimError::InvariantViolation(Violation::TimeBeforeParent))
    );
    assert_eq!(c.append(a, 0, 10, 0, 5, 0), Ok(2));
    assert_eq!(c.len(), 3);
}

#[test]
fn weight_is_the_sum_of_difficulties_from_genesis() {
    let mut c = Chain::new(6);
    let a = c.append(0, 0, 1, 0, 5, 0).unwrap();
    let b = c.append(a, 0, 2, 0, 7, 0).unwrap();
    let long1 = c.append(0, 1, 1, 0, 1, 0).unwrap();
    let long2 = c.append(long1, 1, 2, 0, 1, 0).unwrap();
    let long3 = c.append(long2, 1, 3, 0, 1, 0).unwrap();
    assert_eq!(c.weight(0), 1_000_000);
    assert_eq!(c.weight(a), 1_000_005);
    assert_eq!(c.weight(b), 1_000_012);
    assert_eq!(c.weight(long3), 1_000_003);
    // A short chain of high difficulty beats a long chain of low difficulty.
    assert!(c.height(long3) > c.height(b));
    assert!(c.weight(b) > c.weight(long3));
}

#[test]
fn weight_does_not_overflow_with_the_largest_difficulty() {
    let mut c = Chain::new(6);
    let a = c.append(0, 0, 1, 0, u64::MAX, 0).unwrap();
    let b = c.append(a, 0, 1, 0, u64::MAX, 0).unwrap();
    assert_eq!(c.weight(b), 1_000_000u128 + 2 * (u64::MAX as u128));
}

#[test]
fn is_ancestor_walks_the_parent_links() {
    let mut c = Chain::new(6);
    let a = c.append(0, 0, 1, 0, 5, 0).unwrap();
    let b = c.append(a, 0, 2, 0, 5, 0).unwrap();
    let side = c.append(a, 1, 2, 0, 5, 0).unwrap();
    let d = c.append(b, 0, 3, 0, 5, 0).unwrap();
    assert!(c.is_ancestor(0, d));
    assert!(c.is_ancestor(a, d));
    assert!(c.is_ancestor(b, d));
    assert!(c.is_ancestor(d, d));
    assert!(!c.is_ancestor(side, d));
    assert!(!c.is_ancestor(d, b));
    assert!(!c.is_ancestor(b, side));
    assert!(c.is_ancestor(a, side));
    assert!(!c.is_ancestor(99, d));
    assert!(!c.is_ancestor(a, 99));
    assert!(!c.is_ancestor(99, 99));
}

#[test]
fn a_block_is_finalized_exactly_when_it_is_buried_deep_enough() {
    let depth = 3;
    let mut c = Chain::new(depth);
    let mut tip = 0;
    let mut h = 1;
    while h <= 10 {
        tip = c.append(tip, 0, h, 0, 5, 0).unwrap();
        assert_eq!(c.height(tip), h);
        let mut i = 0;
        while i < c.len() {
            let buried = c.height(i) + depth <= h;
            assert_eq!(c.block(i).finalized, buried);
            i += 1;
        }
        h += 1;
    }
}

#[test]
fn a_side_branch_is_not_finalized_by_the_main_branch() {
    let mut c = Chain::new(2);
    let a = c.append(0, 0, 1, 0, 5, 0).unwrap();
    let side = c.append(a, 1, 2, 0, 5, 0).unwrap();
    let b = c.append(a, 0, 2, 0, 5, 0).unwrap();
    let d = c.append(b, 0, 3, 0, 5, 0).unwrap();
    let e = c.append(d, 0, 4, 0, 5, 0).unwrap();
    assert!(c.block(0).finalized);
    assert!(c.block(a).finalized);
    assert!(c.block(b).finalized);
    assert!(!c.block(d).finalized);
    assert!(!c.block(e).finalized);
    assert!(!c.block(side).finalized);
    // One block on the side branch buries nothing that is two below it.
    let side2 = c.append(side, 1, 5, 0, 5, 0).unwrap();
    assert!(!c.block(side).finalized);
    let side3 = c.append(side2, 1, 6, 0, 5, 0).unwrap();
    assert!(c.block(side).finalized);
    assert!(!c.block(side2).finalized);
    assert!(!c.block(side3).finalized);
}

#[test]
fn finalized_flags_are_never_taken_back() {
    let mut c = Chain::new(1);
    let a = c.append(0, 0, 1, 0, 5, 0).unwrap();
    assert!(c.block(0).finalized);
    let genesis_before = c.block(0);
    let a_before = c.block(a);
    let b = c.append(a, 0, 2, 0, 5, 0).unwrap();
    let _ = c.append(0, 1, 2, 0, 5, 0).unwrap();
    assert_eq!(c.block(0), genesis_before);
    assert_eq!(c.block(a), Block { finalized: true, ..a_before });
    assert!(!c.block(b).finalized);
}

#[test]
fn path_lists_the_chain_from_genesis_to_the_tip() {
    let mut c = Chain::new(6);
    let a = c.append(0, 0, 1, 0, 5, 0).unwrap();
    let side = c.append(a, 1, 2, 0, 5, 0).unwrap();
    let b = c.append(a, 0, 2, 0, 5, 0).unwrap();
    let d = c.append(b, 0, 3, 0, 5, 0).unwrap();
    assert_eq!(c.path_to(d), vec![0, a, b, d]);
    assert_eq!(c.path_to(side), vec![0, a, side]);
    assert_eq!(c.path_to(0), vec![0]);
}
