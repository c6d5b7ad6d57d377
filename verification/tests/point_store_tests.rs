use rcf3::rcf::point_store::lookahead_offset;
use rcf3::rcf::PointStore;
use rcf3::RcfError;

#[test]
fn point_store_add_and_get() {
    let mut ps = PointStore::new(2, 1, 8, false, 0.0f32);
    let idx = ps.add(&[1.0, 2.0]).unwrap();
    assert_eq!(ps.get(idx), &[1.0f32, 2.0]);
}

#[test]
fn add_validated_stores_full_point() {
    let mut ps = PointStore::new(2, 2, 8, false, 0.0f32);
    let idx = ps.add_validated(&[1.0, 2.0, 3.0, 4.0]).unwrap();
    assert_eq!(idx, 0);
    assert_eq!(ps.get(idx), &[1.0f32, 2.0, 3.0, 4.0]);
    assert_eq!(ps.num_points(), 1);
    assert_eq!(ps.entries_seen(), 1);
}

#[test]
fn point_store_ref_count_frees_slot() {
    let mut ps = PointStore::new(2, 1, 8, false, 0.0f32);
    let idx = ps.add(&[1.0, 2.0]).unwrap();
    ps.inc_ref(idx);
    assert_eq!(ps.num_points(), 1);
    ps.dec_ref(idx);
    assert_eq!(ps.num_points(), 0);
    assert!(!ps.is_occupied(idx));
}

#[test]
fn shingling_shifts_buffer() {
    for series in [vec![1.0f32, 2.0], vec![1.0, 2.0, 3.0], vec![1.0, 2.0, 3.0, 4.0]] {
        let shingle_size = series.len();
        let mut ps = PointStore::new(1, shingle_size, 8, true, 0.0f32);
        for point in &series[..shingle_size - 1] {
            let _ = ps.shingled_point(&[*point]).unwrap();
        }
        let full = ps.shingled_point(&[series[shingle_size - 1]]).unwrap();
        assert_eq!(full, series);
    }
}

#[test]
fn lookahead_offset_and_indices_are_consistent() {
    for (look_ahead, expected) in [(0usize, vec![4usize, 5]), (1, vec![2, 3]), (2, vec![0, 1])] {
        let ps = PointStore::new(2, 3, 8, true, 0.0f32);
        let offset = lookahead_offset(ps.dim(), ps.input_dim(), look_ahead);
        assert_eq!(offset, expected[0]);
        assert_eq!(ps.next_indices(look_ahead), expected);
    }
}

#[test]
fn missing_indices_with_lookahead_maps_base_indices() {
    let ps = PointStore::new(2, 3, 8, true, 0.0f32);
    assert_eq!(ps.missing_indices_with_lookahead(1, &[0, 1]), vec![2, 3]);
}

#[test]
fn freed_slots_are_reused_last_freed_first() {
    let mut ps = PointStore::new(1, 1, 4, false, 0u32);
    let a = ps.add(&[10]).unwrap();
    let b = ps.add(&[20]).unwrap();
    let c = ps.add(&[30]).unwrap();
    assert_eq!((a, b, c), (0, 1, 2));
    for i in [a, b, c] {
        ps.inc_ref(i);
    }
    ps.dec_ref(a);
    ps.dec_ref(c);
    assert_eq!(ps.num_points(), 1);
    assert_eq!(ps.add(&[40]).unwrap(), c);
    assert_eq!(ps.add(&[50]).unwrap(), a);
    assert_eq!(ps.get(b), &[20]);
    assert_eq!(ps.get(a), &[50]);
    assert_eq!(ps.entries_seen(), 5);
}

#[test]
fn store_grows_when_full() {
    let mut ps = PointStore::new(1, 2, 1, false, 0i64);
    let a = ps.add(&[1, 2]).unwrap();
    assert!(ps.ensure_can_allocate_slot().is_ok());
    let b = ps.add(&[3, 4]).unwrap();
    assert_eq!((a, b), (0, 1));
    assert_eq!(ps.capacity(), 6);
    assert_eq!(ps.get(a), &[1, 2]);
    assert_eq!(ps.get(b), &[3, 4]);
    assert_eq!(ps.copy_point(b), vec![3, 4]);
}

#[test]
fn wrong_lengths_are_rejected_without_change() {
    let mut ps = PointStore::new(2, 2, 4, true, 0u8);
    assert!(matches!(
        ps.add(&[1, 2, 3]),
        Err(RcfError::DimensionMismatch { expected: 4, got: 3 })
    ));
    assert!(matches!(
        ps.advance_shingle(&[1, 2, 3]),
        Err(RcfError::DimensionMismatch { expected: 2, got: 3 })
    ));
    assert_eq!(ps.current_shingled(), &[0, 0, 0, 0]);
    ps.advance_shingle(&[7, 8]).unwrap();
    assert_eq!(ps.current_shingled(), &[0, 0, 7, 8]);
    let idx = ps.add_current_shingled().unwrap();
    assert_eq!(ps.get(idx), &[0, 0, 7, 8]);
    ps.record_logical_add_without_storage();
    assert_eq!(ps.entries_seen(), 2);
    assert_eq!(ps.num_points(), 1);
}

#[test]
fn ref_counts_track_tree_references() {
    let mut ps = PointStore::new(1, 1, 2, false, 0u8);
    let idx = ps.add(&[9]).unwrap();
    ps.inc_ref(idx);
    ps.inc_ref(idx);
    assert_eq!(ps.ref_count(idx), 2);
    ps.dec_ref(idx);
    assert!(ps.is_occupied(idx));
    ps.dec_ref(idx);
    assert!(!ps.is_occupied(idx));
    assert_eq!(ps.ref_count(idx), 0);
}

#[test]
fn store_parts_round_trip_and_bad_free_lists_are_refused() {
    let mut ps = PointStore::new(2, 1, 4, false, 0.0f32);
    let a = ps.add(&[1.0, 2.0]).unwrap();
    let b = ps.add(&[3.0, 4.0]).unwrap();
    ps.inc_ref(a);
    ps.inc_ref(b);
    ps.dec_ref(a);
    let back = PointStore::from_parts(ps.to_parts()).unwrap();
    assert_eq!(back.num_points(), 1);
    assert_eq!(back.entries_seen(), 2);
    assert_eq!(back.get(b), &[3.0f32, 4.0]);
    assert!(!back.is_occupied(a));
    assert_eq!(back.ref_count(b), 1);
    let mut parts = ps.to_parts();
    parts.free_list.clear();
    assert!(PointStore::from_parts(parts).is_none());
    let mut parts = ps.to_parts();
    parts.size = 2;
    assert!(PointStore::from_parts(parts).is_none());
}
