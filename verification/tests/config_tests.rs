use rcf3::featuresketch::config::MAX_CHAIN_DEPTH_FOR_POSITIVE_WIDTH;
use rcf3::rcf::config::{
    default_capacity, default_internal_shingling, default_num_trees, default_shingle_size,
};
use rcf3::{FeatureSketchConfig, MStreamConfig, OnlineIForestConfig, RcfConfig, RcfError};

fn invalid_message(r: Result<(), RcfError>) -> String {
    match r {
        Err(RcfError::InvalidArgument(m)) => m,
        other => panic!("expected InvalidArgument, got {other:?}"),
    }
}

#[test]
fn defaults_match_research_document() {
    let config = FeatureSketchConfig::new();
    assert_eq!(config.value_projection_dims(), 32);
    assert_eq!(config.presence_projection_dims(), 32);
    assert_eq!(config.chains_per_ensemble(), 16);
    assert_eq!(config.chain_depth(), 8);
    assert_eq!(config.sketch_rows(), 2);
    assert_eq!(config.sketch_buckets(), 2048);
    assert_eq!(config.decay_half_life(), 2048);
}

#[test]
fn featuresketch_accepts_minimum_valid_boundaries() {
    let cases = [
        FeatureSketchConfig::new().with_value_projection_dims(1),
        FeatureSketchConfig::new().with_presence_projection_dims(1),
        FeatureSketchConfig::new().with_chains_per_ensemble(1),
        FeatureSketchConfig::new().with_chain_depth(1),
        FeatureSketchConfig::new().with_chain_depth(MAX_CHAIN_DEPTH_FOR_POSITIVE_WIDTH),
        FeatureSketchConfig::new().with_sketch_rows(1),
        FeatureSketchConfig::new().with_sketch_buckets(2),
        FeatureSketchConfig::new().with_decay_half_life(1),
    ];
    for config in cases {
        config.validate().unwrap();
    }
}

#[test]
fn featuresketch_rejects_invalid_values() {
    let cases = [
        (FeatureSketchConfig::new().with_value_projection_dims(0), "value_projection_dims must be > 0"),
        (FeatureSketchConfig::new().with_presence_projection_dims(0), "presence_projection_dims must be > 0"),
        (FeatureSketchConfig::new().with_chains_per_ensemble(0), "chains_per_ensemble must be > 0"),
        (FeatureSketchConfig::new().with_chain_depth(0), "chain_depth must be > 0"),
        (FeatureSketchConfig::new().with_sketch_rows(0), "sketch_rows must be > 0"),
        (FeatureSketchConfig::new().with_sketch_buckets(1), "sketch_buckets must be >= 2"),
        (FeatureSketchConfig::new().with_decay_half_life(0), "decay_half_life must be > 0"),
        (
            FeatureSketchConfig::new().with_chain_depth(MAX_CHAIN_DEPTH_FOR_POSITIVE_WIDTH + 1),
            "chain_depth is too large to keep chain bin widths positive",
        ),
    ];
    for (config, msg) in cases {
        assert_eq!(invalid_message(config.validate()), msg);
    }
}

#[test]
fn featuresketch_rejects_overflowing_values() {
    let cases = [
        (
            FeatureSketchConfig::new().with_presence_projection_dims(usize::MAX),
            "presence_projection_dims plus the feature-count signal must fit in usize",
        ),
        (
            FeatureSketchConfig::new().with_chains_per_ensemble(usize::MAX).with_chain_depth(2),
            "chains_per_ensemble * chain_depth must fit in usize",
        ),
        (
            FeatureSketchConfig::new().with_sketch_rows(usize::MAX).with_sketch_buckets(2),
            "sketch_rows * sketch_buckets must fit in usize",
        ),
        (
            FeatureSketchConfig::new()
                .with_chains_per_ensemble(usize::MAX / 8 + 1)
                .with_chain_depth(2)
                .with_sketch_rows(2)
                .with_sketch_buckets(2),
            "total FeatureSketch sketch cells must fit in usize",
        ),
    ];
    for (config, msg) in cases {
        assert_eq!(invalid_message(config.validate()), msg);
    }
}

#[test]
fn featuresketch_builders_set_one_field() {
    let c = FeatureSketchConfig::new().with_sketch_buckets(64).with_decay_half_life(7);
    assert_eq!(c.sketch_buckets(), 64);
    assert_eq!(c.decay_half_life(), 7);
    assert_eq!(c.chain_depth(), 8);
    let d = FeatureSketchConfig::default();
    assert_eq!(d.sketch_buckets(), 2048);
}

#[test]
fn defaults_match_paper_configuration() {
    let config = OnlineIForestConfig::new(3);
    assert_eq!(config.input_dim(), 3);
    assert_eq!(config.num_trees(), 32);
    assert_eq!(config.window_size(), 2048);
    assert_eq!(config.max_leaf_samples(), 32);
}

#[test]
fn onlineiforest_rejects_invalid_values() {
    let cases = [
        (OnlineIForestConfig::new(0), "input_dim must be > 0"),
        (OnlineIForestConfig::new(1).with_num_trees(0), "num_trees must be > 0"),
        (OnlineIForestConfig::new(1).with_window_size(0), "window_size must be > 0"),
        (OnlineIForestConfig::new(1).with_window_size(usize::MAX), "window_size is too large"),
        (OnlineIForestConfig::new(1).with_max_leaf_samples(0), "max_leaf_samples must be > 0"),
        (
            OnlineIForestConfig::new(1).with_window_size(32).with_max_leaf_samples(32),
            "window_size must be greater than max_leaf_samples",
        ),
    ];
    for (config, msg) in cases {
        assert_eq!(invalid_message(config.validate()), msg);
    }
    OnlineIForestConfig::new(1).validate().unwrap();
}

#[test]
fn rejects_empty_dimensions() {
    let err = MStreamConfig::new(0, 0).validate().unwrap_err();
    assert!(matches!(err, RcfError::InvalidArgument(_)));
}

#[test]
fn mstream_config_checks_rows_buckets_and_record_shape() {
    let c = MStreamConfig::new(2, 1);
    assert_eq!(c.num_rows(), 2);
    assert_eq!(c.num_buckets(), 1024);
    c.validate().unwrap();
    assert_eq!(invalid_message(c.with_num_rows(0).validate()), "num_rows must be > 0");
    assert_eq!(invalid_message(c.with_num_buckets(1).validate()), "num_buckets must be >= 2");
    assert!(c.validate_record(2, 1).is_ok());
    assert!(matches!(
        c.validate_record(3, 1),
        Err(RcfError::DimensionMismatch { expected: 2, got: 3 })
    ));
    assert!(matches!(
        c.validate_record(2, 0),
        Err(RcfError::DimensionMismatch { expected: 1, got: 0 })
    ));
}

#[test]
fn validate_accepts_default_config() {
    RcfConfig::new(1).validate().unwrap();
}

#[test]
fn rcf_config_rejects_invalid_core_fields() {
    let cases = [
        (RcfConfig::new(0), "input_dim"),
        (RcfConfig::new(1).with_shingle_size(0), "shingle_size"),
        (RcfConfig::new(1).with_capacity(0), "capacity"),
        (RcfConfig::new(1).with_num_trees(0), "num_trees"),
        (RcfConfig::new(2).with_shingle_size(usize::MAX), "overflows"),
    ];
    for (config, needle) in cases {
        assert!(invalid_message(config.validate()).contains(needle));
    }
}

#[test]
fn rcf_config_defaults_and_derived_values() {
    assert_eq!(default_shingle_size(), 1);
    assert_eq!(default_capacity(), 256);
    assert_eq!(default_num_trees(), 50);
    assert!(default_internal_shingling());
    let c = RcfConfig::new(3).with_shingle_size(4).with_capacity(100);
    assert_eq!(c.dim(), 12);
    assert_eq!(c.effective_output_after(), 26);
    assert_eq!(c.with_output_after(7).effective_output_after(), 7);
    assert_eq!(c.with_num_trees(3).point_store_capacity(), 301);
    assert_eq!(c.with_num_trees(1).point_store_capacity(), 200);
    // shingle lag is 3 with internal shingling
    assert!(!c.has_primed_shingle_at(3));
    assert!(c.has_primed_shingle_at(4));
    assert!(c.with_internal_shingling(false).has_primed_shingle_at(1));
    assert!(!c.is_ready_at(29));
    assert!(c.is_ready_at(30));
}
