use rcf3::rcf::sampled_forest::{Insertion, SampledForest};
use rcf3::rcf::sampled_store::SampledStore;
use rcf3::rcf::tree_shape::{TreeNode, TreeShape};
use rcf3::RcfError;

/// Two trees whose samplers hold two points each, over a one-dimensional
/// store of 8 slots. The split data is left empty.
fn small() -> SampledForest<f32, ()> {
    SampledForest::new(1, 1, 8, false, 0.0f32, 2, 2, 4)
}

fn copies(f: &SampledForest<f32, ()>, t: usize, point: usize) -> usize {
    let tree = f.tree(t);
    (0..tree.slot_count())
        .filter_map(|id| match tree.slot(id) {
            Some(TreeNode::Leaf { point_idx, mass }) if *point_idx == point => Some(*mass),
            _ => None,
        })
        .sum()
}

fn sampler_count(f: &SampledForest<f32, ()>, t: usize, point: usize) -> usize {
    f.sampled().sampler(t).points().iter().filter(|&&p| p == point).count()
}

#[test]
fn first_point_enters_tree_and_sampler_together() {
    let mut f = small();
    let a = f.add_validated(&[1.0]).unwrap();
    assert!(matches!(f.begin_update(0, true, 10, &[]), Ok(true)));
    assert_eq!(f.pending(), Some((0, 10)));
    assert_eq!(f.finish_update(a, Insertion::First).unwrap(), a);
    assert_eq!(f.pending(), None);
    assert_eq!(f.tree(0).tree_mass(), 1);
    assert_eq!(f.sampled().sampler(0).points(), &[a]);
    assert_eq!(f.sampled().store().ref_count(a), 1);
    assert_eq!(copies(&f, 0, a), 1);
    assert_eq!(f.tree(1).tree_mass(), 0);
}

#[test]
fn refused_candidates_change_nothing() {
    let mut f = small();
    let a = f.add_validated(&[1.0]).unwrap();
    assert!(matches!(f.begin_update(1, false, 5, &[]), Ok(false)));
    assert_eq!(f.pending(), None);
    assert!(matches!(f.begin_update(7, true, 5, &[]), Err(RcfError::IndexOutOfBounds(7))));
    assert!(matches!(f.finish_update(a, Insertion::First), Err(RcfError::InvalidArgument(_))));
    assert!(f.release_if_unused(a));
    assert!(!f.sampled().store().is_occupied(a));
}

#[test]
fn only_one_update_at_a_time() {
    let mut f = small();
    let a = f.add_validated(&[1.0]).unwrap();
    assert!(matches!(f.begin_update(0, true, 10, &[]), Ok(true)));
    assert!(matches!(f.begin_update(1, true, 3, &[]), Err(RcfError::InvalidArgument(_))));
    // A plan the tree cannot take leaves the update open.
    assert!(matches!(f.finish_update(a, Insertion::Copy { path: vec![0] }), Err(RcfError::InvalidArgument(_))));
    assert_eq!(f.pending(), Some((0, 10)));
    assert_eq!(f.finish_update(a, Insertion::First).unwrap(), a);
}

#[test]
fn equal_point_is_kept_as_a_copy_of_the_existing_leaf() {
    let mut f = small();
    let a = f.add_validated(&[1.0]).unwrap();
    f.begin_update(0, true, 10, &[]).unwrap();
    f.finish_update(a, Insertion::First).unwrap();
    let b = f.add_validated(&[1.0]).unwrap();
    let root = f.tree(0).root();
    assert!(matches!(f.begin_update(0, true, 7, &[]), Ok(true)));
    assert_eq!(f.finish_update(b, Insertion::Copy { path: vec![root] }).unwrap(), a);
    assert_eq!(copies(&f, 0, a), 2);
    assert_eq!(sampler_count(&f, 0, a), 2);
    assert_eq!(f.sampled().store().ref_count(a), 2);
    // Nobody kept the new slot: it is released.
    assert!(f.release_if_unused(b));
}

#[test]
fn full_sampler_evicts_from_tree_and_store() {
    let mut f = small();
    let a = f.add_validated(&[1.0]).unwrap();
    let b = f.add_validated(&[2.0]).unwrap();
    f.begin_update(0, true, 10, &[]).unwrap();
    f.finish_update(a, Insertion::First).unwrap();
    let root = f.tree(0).root();
    f.begin_update(0, true, 4, &[]).unwrap();
    f.finish_update(b, Insertion::Split { path: vec![root], k: 0, leaf_on_left: false, split: () }).unwrap();
    assert_eq!(f.tree(0).tree_mass(), 2);
    assert!(f.sampled().sampler(0).is_full());

    // The largest key (10, point `a`) goes; the removal path must end at `a`.
    let c = f.add_validated(&[3.0]).unwrap();
    let new_root = f.tree(0).root();
    let (left, right) = match f.tree(0).node(new_root) {
        TreeNode::Internal { left, right, .. } => (*left, *right),
        TreeNode::Leaf { .. } => panic!("expected an internal root"),
    };
    assert!(matches!(f.begin_update(0, false, 3, &[new_root, right]), Err(RcfError::InvalidArgument(_))));
    assert_eq!(f.pending(), None);
    assert!(matches!(f.begin_update(0, false, 3, &[new_root, left]), Ok(true)));
    assert_eq!(f.tree(0).tree_mass(), 1);
    let only = f.tree(0).root();
    assert_eq!(f.finish_update(c, Insertion::Split { path: vec![only], k: 0, leaf_on_left: true, split: () }).unwrap(), c);
    assert_eq!(copies(&f, 0, a), 0);
    assert_eq!(copies(&f, 0, b), 1);
    assert_eq!(copies(&f, 0, c), 1);
    assert_eq!(f.sampled().store().ref_count(a), 0);
    assert!(!f.sampled().store().is_occupied(a));
    assert_eq!(f.sampled().store().ref_count(c), 1);
}

#[test]
fn a_larger_key_is_refused_by_a_full_sampler() {
    let mut f = small();
    let a = f.add_validated(&[1.0]).unwrap();
    f.begin_update(0, true, 10, &[]).unwrap();
    f.finish_update(a, Insertion::First).unwrap();
    let root = f.tree(0).root();
    f.begin_update(0, true, 9, &[]).unwrap();
    f.finish_update(a, Insertion::Copy { path: vec![root] }).unwrap();
    assert!(matches!(f.begin_update(0, true, 11, &[root]), Ok(false)));
    assert_eq!(f.tree(0).tree_mass(), 2);
}

fn shapes(f: &SampledForest<f32, ()>) -> Vec<TreeShape<()>> {
    (0..f.num_trees())
        .map(|t| {
            let tree = f.tree(t);
            let nodes = (0..tree.slot_count()).map(|id| tree.slot(id).cloned()).collect();
            TreeShape::from_parts(tree.root(), tree.tree_mass(), nodes, tree.free_slots().to_vec()).unwrap()
        })
        .collect()
}

fn restored_store(f: &SampledForest<f32, ()>) -> SampledStore<f32> {
    let s = f.sampled();
    let samplers = (0..s.num_samplers())
        .map(|t| {
            let sm = s.sampler(t);
            (sm.capacity(), (0..sm.size()).map(|i| (sm.key_at(i), sm.points()[i])).collect())
        })
        .collect();
    SampledStore::from_parts(s.store().to_parts(), samplers).unwrap()
}

#[test]
fn forest_parts_round_trip_and_mismatched_trees_are_refused() {
    let mut f = small();
    let a = f.add_validated(&[1.0]).unwrap();
    let b = f.add_validated(&[2.0]).unwrap();
    f.begin_update(0, true, 10, &[]).unwrap();
    f.finish_update(a, Insertion::First).unwrap();
    f.begin_update(1, true, 8, &[]).unwrap();
    f.finish_update(b, Insertion::First).unwrap();

    let back = SampledForest::from_parts(restored_store(&f), shapes(&f)).unwrap();
    assert_eq!(back.tree(0).tree_mass(), 1);
    assert_eq!(back.sampled().store().ref_count(a), 1);
    assert_eq!(back.pending(), None);

    // Trees swapped: each holds the other sampler's point.
    let mut swapped = shapes(&f);
    swapped.swap(0, 1);
    assert!(SampledForest::from_parts(restored_store(&f), swapped).is_none());

    // A tree missing.
    let mut fewer = shapes(&f);
    fewer.pop();
    assert!(SampledForest::from_parts(restored_store(&f), fewer).is_none());
}
