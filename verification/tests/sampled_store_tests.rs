use rcf3::rcf::sampled_store::SampledStore;
use rcf3::RcfError;

/// Two samplers of capacity 2 over a one-dimensional store of 8 slots.
fn small() -> SampledStore<f32> {
    SampledStore::new(1, 1, 8, false, 0.0f32, 2, 2)
}

#[test]
fn references_follow_sampler_entries() {
    let mut s = small();
    let a = s.add_validated(&[1.0]).unwrap();
    assert_eq!(s.store().ref_count(a), 0);
    assert_eq!(s.record(0, a, 10).unwrap(), None);
    assert_eq!(s.record(1, a, 20).unwrap(), None);
    assert_eq!(s.store().ref_count(a), 2);
    assert!(!s.release_if_unused(a));
    assert!(s.store().is_occupied(a));
}

#[test]
fn eviction_moves_a_reference_and_frees_the_last_one() {
    let mut s = small();
    let a = s.add_validated(&[1.0]).unwrap();
    let b = s.add_validated(&[2.0]).unwrap();
    s.record(0, a, 30).unwrap();
    s.record(0, b, 20).unwrap();
    assert!(s.sampler(0).is_full());
    let c = s.add_validated(&[3.0]).unwrap();
    // The sampler is full: the entry with the largest key (point `a`) makes room.
    assert_eq!(s.record(0, c, 5).unwrap(), Some(a));
    assert_eq!(s.store().ref_count(a), 0);
    assert!(!s.store().is_occupied(a));
    assert_eq!(s.store().ref_count(b), 1);
    assert_eq!(s.store().ref_count(c), 1);
}

#[test]
fn an_unkept_new_point_is_released() {
    let mut s = small();
    let a = s.add_validated(&[1.0]).unwrap();
    assert_eq!(s.store().num_points(), 1);
    assert!(s.release_if_unused(a));
    assert!(!s.store().is_occupied(a));
    assert_eq!(s.store().num_points(), 0);
}

#[test]
fn record_rejects_bad_trees_and_free_slots() {
    let mut s = small();
    let a = s.add_validated(&[1.0]).unwrap();
    assert!(matches!(s.record(2, a, 1), Err(RcfError::IndexOutOfBounds(2))));
    assert!(matches!(s.record(0, a + 1, 1), Err(RcfError::InvalidArgument(_))));
    assert!(matches!(s.record(0, 99, 1), Err(RcfError::InvalidArgument(_))));
    assert_eq!(s.store().ref_count(a), 0);
}

#[test]
fn parts_round_trip_and_mismatched_counts_are_refused() {
    let mut s = small();
    let a = s.add_validated(&[1.0]).unwrap();
    let b = s.add_validated(&[2.0]).unwrap();
    s.record(0, a, 7).unwrap();
    s.record(1, b, 9).unwrap();
    let samplers = |s: &SampledStore<f32>| -> Vec<(usize, Vec<(u64, usize)>)> {
        (0..s.num_samplers())
            .map(|t| {
                let sm = s.sampler(t);
                (sm.capacity(), (0..sm.size()).map(|i| (sm.key_at(i), sm.points()[i])).collect())
            })
            .collect()
    };
    let back = SampledStore::from_parts(s.store().to_parts(), samplers(&s)).unwrap();
    assert_eq!(back.store().ref_count(a), 1);
    assert_eq!(back.store().ref_count(b), 1);
    assert_eq!(back.sampler(1).points(), &[b]);

    // Dropping an entry leaves a reference unexplained.
    let mut fewer = samplers(&s);
    fewer[1].1.clear();
    assert!(SampledStore::from_parts(s.store().to_parts(), fewer).is_none());

    // An entry naming a slot outside the store.
    let mut outside = samplers(&s);
    outside[0].1.push((3, 1000));
    assert!(SampledStore::from_parts(s.store().to_parts(), outside).is_none());

    // A sampler without room for its entries.
    let mut cramped = samplers(&s);
    cramped[0].0 = 0;
    assert!(SampledStore::from_parts(s.store().to_parts(), cramped).is_none());
}
