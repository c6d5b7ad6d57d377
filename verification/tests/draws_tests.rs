use rcf3::featuresketch::layout::{cell_of_hash, level_from_draws, ChainLevelDraw};
use rcf3::mstream::hashing::{
    bucket_of_hash, coefficient_from_draw, coefficients_from_draws, record_row_from_draws,
};
use rcf3::rcf::config::next_entries_seen;
use rcf3::{RcfConfig, RcfError};

#[test]
fn coefficient_from_draw_takes_the_remainder() {
    assert_eq!(coefficient_from_draw(10, 4, true), 2);
    assert_eq!(coefficient_from_draw(10, 4, false), 2);
    assert_eq!(coefficient_from_draw(7, 4, false), 3);
    assert_eq!(coefficient_from_draw(9, 4, true), 1);
    assert_eq!(coefficient_from_draw(u64::MAX, 2, true), 1);
    assert_eq!(coefficient_from_draw(u64::MAX, 10, false), 5);
}

#[test]
fn coefficients_from_draws_maps_each_draw() {
    assert_eq!(coefficients_from_draws(&[10, 11, 12], 4, false), vec![2, 3, 0]);
    assert_eq!(coefficients_from_draws(&[10, 11, 12], 4, true), vec![2, 3, 1]);
    assert!(coefficients_from_draws(&[], 4, true).is_empty());
}

#[test]
fn record_row_leaves_only_the_last_column_possibly_zero() {
    assert_eq!(record_row_from_draws(&[12, 11, 12], 4), vec![1, 3, 0]);
    assert_eq!(record_row_from_draws(&[3], 4), vec![3]);
}

#[test]
fn bucket_of_hash_is_the_remainder() {
    assert_eq!(bucket_of_hash(23, 5), 3);
    assert_eq!(bucket_of_hash(u64::MAX, 7), 1);
    assert_eq!(bucket_of_hash(4, 1), 0);
}

#[test]
fn cell_of_hash_offsets_by_row() {
    assert_eq!(cell_of_hash(23, 2, 5), 13);
    assert_eq!(cell_of_hash(23, 0, 5), 3);
    assert_eq!(cell_of_hash(u64::MAX, 1, 7), 8);
}

#[test]
fn level_from_draws_picks_the_dimension() {
    assert_eq!(
        level_from_draws(17, 99, 3, 4, true),
        ChainLevelDraw { dimension: 2, feature_count: false, level: 3, offset_bits: 99 }
    );
    assert_eq!(
        level_from_draws(19, 5, 0, 4, true),
        ChainLevelDraw { dimension: 4, feature_count: true, level: 0, offset_bits: 5 }
    );
    assert_eq!(
        level_from_draws(19, 5, 0, 4, false),
        ChainLevelDraw { dimension: 3, feature_count: false, level: 0, offset_bits: 5 }
    );
    assert_eq!(
        level_from_draws(8, 1, 1, 0, true),
        ChainLevelDraw { dimension: 0, feature_count: true, level: 1, offset_bits: 1 }
    );
}

#[test]
fn checked_point_store_capacity_values() {
    let c = RcfConfig::new(3).with_capacity(10).with_num_trees(5);
    assert_eq!(c.checked_point_store_capacity().unwrap(), 51);
    let c = RcfConfig::new(3).with_capacity(10).with_num_trees(1);
    assert_eq!(c.checked_point_store_capacity().unwrap(), 20);
}

#[test]
fn checked_point_store_capacity_overflows() {
    let c = RcfConfig::new(1).with_capacity(usize::MAX / 2 + 1).with_num_trees(1);
    match c.checked_point_store_capacity() {
        Err(RcfError::Overflow(m)) => assert_eq!(m, "point store capacity overflows usize"),
        other => panic!("unexpected {other:?}"),
    }
    let c = RcfConfig::new(usize::MAX / 8).with_capacity(10).with_num_trees(5);
    assert!(matches!(c.checked_point_store_capacity(), Err(RcfError::Overflow(_))));
    let c = RcfConfig::new(1).with_capacity(usize::MAX / 4).with_num_trees(8);
    assert!(matches!(c.checked_point_store_capacity(), Err(RcfError::Overflow(_))));
}

#[test]
fn next_entries_seen_counts_or_overflows() {
    assert_eq!(next_entries_seen(5, 5).unwrap(), 6);
    for (a, b) in [(u64::MAX, 0), (0, u64::MAX)] {
        match next_entries_seen(a, b) {
            Err(RcfError::Overflow(m)) => assert_eq!(m, "entries_seen overflow"),
            other => panic!("unexpected {other:?}"),
        }
    }
}
