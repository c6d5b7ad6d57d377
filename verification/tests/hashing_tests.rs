use rand::rngs::Xoshiro256PlusPlus;
use rand::SeedableRng;
use rcf3::mstream::hashing::{
    bucket_from_hashes, categorical_hash_resid, draw_coefficients, draw_record_coefficients,
    hash_bits_from_signs, record_bucket,
};
use rcf3::mstream::{ceil_log2, modular_bucket_sum, CategoricalHasher};
use rcf3::RcfError;

#[test]
fn modular_bucket_sum_handles_usize_overflow_boundary() {
    let lhs = usize::MAX;
    let rhs = usize::MAX - 1;
    let num_buckets = 1024;
    let expected = 1021;
    assert_eq!(modular_bucket_sum(lhs, rhs, num_buckets), expected);
}

#[test]
fn ceil_log2_matches_bucket_counts() {
    assert!(matches!(ceil_log2(1), Err(RcfError::InvalidArgument(_))));
    assert!(matches!(ceil_log2(0), Err(RcfError::InvalidArgument(_))));
    assert_eq!(ceil_log2(2).unwrap(), 1);
    assert_eq!(ceil_log2(3).unwrap(), 2);
    assert_eq!(ceil_log2(4).unwrap(), 2);
    assert_eq!(ceil_log2(5).unwrap(), 3);
    assert_eq!(ceil_log2(1024).unwrap(), 10);
    assert_eq!(ceil_log2(1025).unwrap(), 11);
    assert_eq!(ceil_log2(usize::MAX).unwrap(), usize::BITS as usize);
}

#[test]
fn bucket_from_hashes_is_sum_modulo() {
    assert_eq!(bucket_from_hashes(&[], 7), 0);
    assert_eq!(bucket_from_hashes(&[5, 6, 10], 7), 0);
    assert_eq!(bucket_from_hashes(&[u64::MAX, u64::MAX], 1000), ((2 * (u64::MAX as u128)) % 1000) as usize);
}

#[test]
fn numeric_hash_bits_from_signs() {
    assert_eq!(hash_bits_from_signs(&[true, false]), 0b01);
    assert_eq!(hash_bits_from_signs(&[false, false]), 0b00);
    assert_eq!(hash_bits_from_signs(&[false, true, true]), 0b110);
    let all = vec![true; usize::BITS as usize];
    assert_eq!(hash_bits_from_signs(&all), usize::MAX);
}

#[test]
fn categorical_hash_resid_is_deterministic() {
    let first = categorical_hash_resid(&[3, 5, 7], &[11, 13, 17], 2, 16);
    let second = categorical_hash_resid(&[3, 5, 7], &[11, 13, 17], 2, 16);
    assert_eq!(first, second);
    assert!(first < 16);
    assert_eq!(categorical_hash_resid(&[], &[1, 2], 0, 8), 0);
}

#[test]
fn zeroed_categorical_sketch_preserves_hash_layout() {
    let mut rng = Xoshiro256PlusPlus::seed_from_u64(7);
    let hasher = CategoricalHasher::new(2, 16, &mut rng);
    let copy = CategoricalHasher::from_parts(16, hasher.hash_a().to_vec(), hasher.hash_b().to_vec())
        .unwrap();
    for row in 0..2 {
        assert_eq!(hasher.hash(42, row), copy.hash(42, row));
        assert!(hasher.hash(42, row) < 16);
    }
    assert!(hasher.hash_a().iter().all(|a| (1..16).contains(a)));
    assert!(hasher.hash_b().iter().all(|b| (0..16).contains(b)));
    assert_eq!(hasher.buckets(42).len(), 2);
    assert!(CategoricalHasher::from_parts(1, vec![1], vec![0]).is_none());
}

#[test]
fn coefficients_follow_rng_draws() {
    let mut a = Xoshiro256PlusPlus::seed_from_u64(3);
    let mut b = Xoshiro256PlusPlus::seed_from_u64(3);
    let x = draw_coefficients(4, 10, true, &mut a);
    let raw: Vec<u64> = (0..4).map(|_| rand::Rng::next_u64(&mut b)).collect();
    let expected: Vec<i64> = raw.iter().map(|r| (r % 9 + 1) as i64).collect();
    assert_eq!(x, expected);
    let rows = draw_record_coefficients(2, 3, 10, &mut a);
    assert_eq!(rows.len(), 2);
    for row in &rows {
        assert_eq!(row.len(), 3);
        assert!(row[0] >= 1 && row[1] >= 1 && row[2] >= 0 && row.iter().all(|v| *v < 10));
    }
}

#[test]
fn record_bucket_without_categorical_is_bits_modulo() {
    assert_eq!(record_bucket(37, &[], &[], 0, 16), 5);
    assert!(record_bucket(3, &[2, 5], &[9, 9], 1, 16) < 16);
}

/// Signs of the projections of `numeric` on each plane (strictly positive).
fn plane_signs(planes: &[[f64; 2]], numeric: &[f64; 2]) -> Vec<bool> {
    planes
        .iter()
        .map(|p| p[0] * numeric[0] + p[1] * numeric[1] > 0.0)
        .collect()
}

#[test]
fn numeric_hash_bits_is_consistent_for_same_inputs() {
    let planes = [[1.0, -1.0], [-1.0, 1.0]];
    let numeric = [0.5, 0.25];
    let first = hash_bits_from_signs(&plane_signs(&planes, &numeric));
    let second = hash_bits_from_signs(&plane_signs(&planes, &numeric));
    assert_eq!(first, second);
    assert_eq!(first, 0b01);
}

#[test]
fn numeric_hash_bits_treats_zero_projection_as_non_positive() {
    let planes = [[1.0, -1.0], [-1.0, 1.0]];
    let numeric = [0.0, 0.0];
    assert_eq!(hash_bits_from_signs(&plane_signs(&planes, &numeric)), 0b00);
}

#[test]
fn categorical_residue_without_columns_is_zero() {
    assert_eq!(rcf3::mstream::hashing::categorical_hash_resid(&[], &[3, 4], 0, 7), 0);
    assert_eq!(rcf3::mstream::hashing::categorical_hash_resid(&[1, 2], &[], 1, 7), 0);
    assert!(rcf3::mstream::hashing::categorical_hash_resid(&[1, 2], &[3, 4], 1, 7) < 7);
}

#[test]
fn categorical_hasher_keeps_its_coefficients() {
    let hasher = CategoricalHasher::from_parts(8, vec![3, 5, 7], vec![0, 1, 2]).unwrap();
    assert_eq!(hasher.num_rows(), 3);
    assert_eq!(hasher.num_buckets(), 8);
    assert_eq!(hasher.hash_a(), vec![3, 5, 7]);
    assert_eq!(hasher.hash_b(), vec![0, 1, 2]);
    let copy = hasher.clone();
    assert_eq!(copy.hash_a(), vec![3, 5, 7]);
    assert_eq!(copy.hash(11, 2), hasher.hash(11, 2));
    assert!(CategoricalHasher::from_parts(8, vec![3], vec![0, 1]).is_none());
}
