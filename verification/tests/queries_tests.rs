use rand::rngs::Xoshiro256PlusPlus;
use rand::SeedableRng;
use rcf3::featuresketch::layout::{
    advance_counters, cell_index, coefficient_sign, coefficient_sign_from_hash, draw_chain_levels,
    draw_row_seeds, feature_hash, validate_format_version, ProjectionSeeds, FORMAT_VERSION,
};
use rcf3::rcf::queries::{
    fill_missing_flags, make_missing_flags, prepare_query, validate_extrapolation, validate_impute,
    validate_update_input,
};
use rcf3::seeding::draw_seeds;
use rcf3::{RcfConfig, RcfError};

#[test]
fn missing_flags_mark_listed_indices() {
    assert_eq!(make_missing_flags(&[2, 0], 4).unwrap(), vec![true, false, true, false]);
    assert!(matches!(make_missing_flags(&[1, 9, 12], 4), Err(RcfError::IndexOutOfBounds(9))));
}

#[test]
fn impute_requests_are_checked_in_order() {
    assert!(matches!(validate_impute(4, &[], 4), Err(RcfError::InvalidArgument(m)) if m == "missing list is empty"));
    assert!(matches!(
        validate_impute(3, &[0], 4),
        Err(RcfError::DimensionMismatch { expected: 4, got: 3 })
    ));
    assert!(matches!(validate_impute(4, &[4], 4), Err(RcfError::IndexOutOfBounds(4))));
    assert_eq!(validate_impute(4, &[1], 4).unwrap(), vec![false, true, false, false]);
}

#[test]
fn extrapolate_requires_internal_shingling() {
    let cfg = RcfConfig::new(1).with_shingle_size(10).with_internal_shingling(false);
    let err = validate_extrapolation(&cfg, 3).unwrap_err();
    assert!(matches!(err, RcfError::InvalidArgument(ref m) if m.contains("internal_shingling")));
}

#[test]
fn extrapolate_rejects_look_ahead_beyond_shingle_size() {
    let cfg = RcfConfig::new(1).with_shingle_size(10);
    let err = validate_extrapolation(&cfg, 11).unwrap_err();
    assert!(matches!(err, RcfError::InvalidArgument(ref m) if m.contains("look_ahead")));
    assert_eq!(validate_extrapolation(&cfg, 10).unwrap(), 10);
    assert_eq!(validate_extrapolation(&cfg, 0).unwrap(), 0);
    let short = RcfConfig::new(1);
    assert!(matches!(validate_extrapolation(&short, 1), Err(RcfError::InvalidArgument(ref m)) if m.contains("shingle_size > 1")));
}

#[test]
fn update_inputs_have_the_expected_length() {
    let cfg = RcfConfig::new(2).with_shingle_size(3);
    assert!(validate_update_input(&cfg, 2).is_ok());
    assert!(matches!(
        validate_update_input(&cfg, 6),
        Err(RcfError::DimensionMismatch { expected: 2, got: 6 })
    ));
    let full = cfg.with_internal_shingling(false);
    assert!(validate_update_input(&full, 6).is_ok());
}

#[test]
fn prepare_query_splices_base_observation() {
    let shingle = [1.0f32, 2.0, 3.0, 4.0];
    assert_eq!(prepare_query(&shingle, &[9.0, 8.0], 2, 4, true).unwrap(), vec![1.0, 2.0, 9.0, 8.0]);
    assert_eq!(prepare_query(&shingle, &[5.0, 6.0, 7.0, 8.0], 2, 4, true).unwrap(), vec![5.0, 6.0, 7.0, 8.0]);
    assert!(matches!(
        prepare_query(&shingle, &[9.0, 8.0], 2, 4, false),
        Err(RcfError::DimensionMismatch { expected: 4, got: 2 })
    ));
}

#[test]
fn featuresketch_layout_draws() {
    let mut rng = Xoshiro256PlusPlus::seed_from_u64(19);
    let levels = draw_chain_levels(4, 3, 5, true, &mut rng);
    assert_eq!(levels.len(), 12);
    for (i, level) in levels.iter().enumerate() {
        assert!(level.dimension < 6);
        assert_eq!(level.level, i % 3);
        assert_eq!(level.feature_count, level.dimension == 5);
    }
    let seeds = draw_row_seeds(2, &mut rng);
    assert_eq!(seeds.len(), 2);
    for row in 0..2 {
        let idx = cell_index(&seeds, row, -7, 64);
        assert!(row * 64 <= idx && idx < (row + 1) * 64);
        assert_eq!(idx, cell_index(&seeds, row, -7, 64));
    }
    let ps = ProjectionSeeds::new(&mut rng);
    let f = feature_hash("a", &ps);
    let g = feature_hash("a", &ps);
    assert_eq!((f.lo, f.hi), (g.lo, g.hi));
    assert!([-1, 0, 1].contains(&coefficient_sign(ps.value, f, 3)));
    assert_eq!(coefficient_sign_from_hash(12), 1);
    assert_eq!(coefficient_sign_from_hash(13), -1);
    assert_eq!(coefficient_sign_from_hash(14), 0);
    assert_eq!(draw_seeds(5, &mut rng).len(), 5);
}

#[test]
fn advance_counters_detect_overflow() {
    assert_eq!(advance_counters(4, 9).unwrap(), (5, 10));
    assert!(matches!(advance_counters(u64::MAX, 0), Err(RcfError::Overflow(ref m)) if m.contains("epoch")));
    assert!(matches!(advance_counters(0, u64::MAX), Err(RcfError::Overflow(ref m)) if m.contains("entries_seen")));
    assert!(validate_format_version(FORMAT_VERSION).is_ok());
    assert!(matches!(validate_format_version(2), Err(RcfError::InvalidArgument(_))));
}

#[test]
fn invalid_serialized_config_is_prefixed() {
    let err = RcfError::invalid_serialized_config(RcfError::InvalidArgument(
        "window_size must be greater than max_leaf_samples".to_string(),
    ));
    assert!(matches!(err, RcfError::InvalidArgument(ref m)
        if m == "invalid serialized config: window_size must be greater than max_leaf_samples"));
    assert!(matches!(RcfError::invalid_serialized_config(RcfError::NotReady), RcfError::NotReady));
}

#[test]
fn look_ahead_rejection_names_both_values() {
    let cfg = RcfConfig::new(1).with_shingle_size(10);
    match validate_extrapolation(&cfg, 11) {
        Err(RcfError::InvalidArgument(m)) => assert_eq!(
            m,
            "extrapolation requires look_ahead <= shingle_size (got 11, shingle_size=10)"
        ),
        other => panic!("unexpected {other:?}"),
    }
}

#[test]
fn fill_missing_flags_keeps_flags_set_before_a_bad_index() {
    let mut flags = vec![true, true, true, true];
    let err = fill_missing_flags(&[2, 0, 9, 1], &mut flags).unwrap_err();
    assert!(matches!(err, RcfError::IndexOutOfBounds(9)));
    assert_eq!(flags, vec![true, false, true, false]);
    let mut flags = vec![false; 3];
    fill_missing_flags(&[1, 1], &mut flags).unwrap();
    assert_eq!(flags, vec![false, true, false]);
}
