use rcf3::rcf::node_arena::NULL;
use rcf3::rcf::tree_shape::{TreeNode, TreeShape};
use rcf3::rcf::PointStore;
use rcf3::RcfError;

/// Split data used by these tests: the cut dimension and value.
type Cut = (usize, f32);

/// Descend from the root choosing sides by the cuts, as a tree does for `point`.
fn descend(tree: &TreeShape<Cut>, point: &[f32]) -> Vec<usize> {
    let mut path = Vec::new();
    let mut cur = tree.root();
    loop {
        path.push(cur);
        match tree.node(cur) {
            TreeNode::Leaf { .. } => return path,
            TreeNode::Internal { left, right, split, .. } => {
                cur = if point[split.0] <= split.1 { *left } else { *right };
            }
        }
    }
}

/// Insert `idx`: a copy of an equal point adds mass; otherwise the new leaf
/// is split off the leaf it lands on, on the first dimension where they differ.
fn insert(tree: &mut TreeShape<Cut>, store: &PointStore<f32>, idx: usize) -> usize {
    let point = store.get(idx).to_vec();
    if tree.is_empty() {
        tree.insert_first(idx).unwrap();
        return idx;
    }
    let path = descend(tree, &point);
    let leaf = *path.last().unwrap();
    let leaf_idx = match tree.node(leaf) {
        TreeNode::Leaf { point_idx, .. } => *point_idx,
        TreeNode::Internal { .. } => unreachable!(),
    };
    let leaf_point = store.get(leaf_idx).to_vec();
    if leaf_point == point {
        return tree.add_copy(&path).unwrap();
    }
    let d = (0..point.len()).find(|&d| point[d] != leaf_point[d]).unwrap();
    let cut = leaf_point[d].min(point[d]);
    let k = path.len() - 1;
    tree.insert_split(&path, k, idx, point[d] <= cut, (d, cut)).unwrap();
    idx
}

fn delete(tree: &mut TreeShape<Cut>, store: &PointStore<f32>, idx: usize) {
    let point = store.get(idx).to_vec();
    let path = descend(tree, &point);
    tree.remove(&path).unwrap();
}

#[test]
fn mod_insert_and_tree_mass() {
    let mut store = PointStore::new(2, 1, 64, false, 0.0f32);
    let mut tree: TreeShape<Cut> = TreeShape::new(68);
    for i in 0..10 {
        let idx = store.add(&[i as f32, 0.0]).unwrap();
        insert(&mut tree, &store, idx);
    }
    assert_eq!(tree.tree_mass(), 10);
}

#[test]
fn mod_insert_delete_restores_mass() {
    let mut store = PointStore::new(1, 1, 16, false, 0.0f32);
    let mut tree: TreeShape<Cut> = TreeShape::new(36);
    let mut idxs = Vec::new();
    for i in 0..5 {
        let idx = store.add(&[i as f32]).unwrap();
        idxs.push(idx);
        insert(&mut tree, &store, idx);
    }
    assert_eq!(tree.tree_mass(), 5);
    delete(&mut tree, &store, idxs[2]);
    assert_eq!(tree.tree_mass(), 4);
}

#[test]
fn duplicate_insert_delete_preserves_remaining_mass() {
    let mut store = PointStore::new(1, 1, 8, false, 0.0f32);
    let first = store.add(&[1.0]).unwrap();
    let duplicate = store.add(&[1.0]).unwrap();
    let mut tree: TreeShape<Cut> = TreeShape::new(20);

    insert(&mut tree, &store, first);
    let kept = insert(&mut tree, &store, duplicate);
    assert_eq!(kept, first);
    assert_eq!(tree.tree_mass(), 2);

    delete(&mut tree, &store, duplicate);
    assert_eq!(tree.tree_mass(), 1);
    assert!(!tree.is_empty());
}

#[test]
fn tree_insert_and_tree_mass() {
    let mut store = PointStore::new(2, 1, 64, false, 0.0f32);
    let mut tree: TreeShape<Cut> = TreeShape::new(68);
    for i in 0..10 {
        let idx = store.add(&[i as f32, 0.0]).unwrap();
        insert(&mut tree, &store, idx);
    }
    assert_eq!(tree.tree_mass(), 10);
}

#[test]
fn tree_insert_delete_restores_mass() {
    let mut store = PointStore::new(1, 1, 16, false, 0.0f32);
    let mut tree: TreeShape<Cut> = TreeShape::new(36);
    let mut idxs = Vec::new();
    for i in 0..5 {
        let idx = store.add(&[i as f32]).unwrap();
        idxs.push(idx);
        insert(&mut tree, &store, idx);
    }
    assert_eq!(tree.tree_mass(), 5);
    delete(&mut tree, &store, idxs[2]);
    assert_eq!(tree.tree_mass(), 4);
}

#[test]
fn insert_then_remove_every_point_empties_the_tree() {
    let mut store = PointStore::new(2, 1, 16, false, 0.0f32);
    let mut tree: TreeShape<Cut> = TreeShape::new(36);
    let mut idxs = Vec::new();
    for (x, y) in [(0.0f32, 0.0f32), (3.0, 1.0), (1.0, 5.0), (3.0, 1.0), (-2.0, 4.0)] {
        let idx = store.add(&[x, y]).unwrap();
        idxs.push(idx);
        insert(&mut tree, &store, idx);
    }
    assert_eq!(tree.tree_mass(), 5);
    let root = tree.root();
    assert_eq!(tree.node(root).mass(), 5);
    for (removed, idx) in idxs.iter().enumerate() {
        delete(&mut tree, &store, *idx);
        assert_eq!(tree.tree_mass(), 4 - removed);
    }
    assert!(tree.is_empty());
    assert_eq!(tree.root(), NULL);
}

#[test]
fn internal_masses_sum_their_children() {
    let mut store = PointStore::new(1, 1, 16, false, 0.0f32);
    let mut tree: TreeShape<Cut> = TreeShape::new(36);
    for v in [4.0f32, 1.0, 7.0, 1.0, 9.0, 2.0] {
        let idx = store.add(&[v]).unwrap();
        insert(&mut tree, &store, idx);
    }
    for id in 0..tree.slot_count() {
        if let Some(TreeNode::Internal { left, right, mass, .. }) = tree.slot(id) {
            assert_eq!(*mass, tree.node(*left).mass() + tree.node(*right).mass());
        }
    }
    assert_eq!(tree.node(tree.root()).mass(), 6);
}

#[test]
fn splice_above_root_makes_new_root() {
    let mut tree: TreeShape<Cut> = TreeShape::new(4);
    let leaf0 = tree.insert_first(0).unwrap();
    let (leaf1, x) = tree.insert_split(&[leaf0], 0, 1, true, (0, 0.5)).unwrap();
    assert_eq!(tree.root(), x);
    assert_eq!(tree.tree_mass(), 2);
    match tree.node(x) {
        TreeNode::Internal { left, right, mass, split } => {
            assert_eq!((*left, *right, *mass), (leaf1, leaf0, 2));
            assert_eq!(*split, (0, 0.5));
        }
        TreeNode::Leaf { .. } => panic!("expected an internal node"),
    }
    let prev = tree.set_split(x, (0, 0.25)).unwrap();
    assert_eq!(prev, (0, 0.5));
}

#[test]
fn invalid_paths_and_empty_trees_are_rejected() {
    let mut tree: TreeShape<Cut> = TreeShape::new(4);
    assert!(matches!(tree.remove(&[0]), Err(RcfError::EmptyTree)));
    let leaf0 = tree.insert_first(0).unwrap();
    assert!(matches!(tree.insert_first(1), Err(RcfError::InvalidArgument(_))));
    assert!(matches!(tree.remove(&[leaf0 + 1]), Err(RcfError::InvalidArgument(_))));
    assert!(matches!(tree.add_copy(&[]), Err(RcfError::InvalidArgument(_))));
    assert!(matches!(tree.insert_split(&[leaf0], 1, 2, true, (0, 0.0)), Err(RcfError::InvalidArgument(_))));
    assert!(matches!(tree.set_split(leaf0, (0, 0.0)), Err(RcfError::InvalidArgument(_))));
    assert!(matches!(tree.set_split(9, (0, 0.0)), Err(RcfError::IndexOutOfBounds(9))));
    assert_eq!(tree.tree_mass(), 1);
}

#[test]
fn parts_round_trip_and_inconsistent_parts_are_refused() {
    let mut tree: TreeShape<Cut> = TreeShape::new(8);
    let leaf0 = tree.insert_first(0).unwrap();
    let (_leaf1, x) = tree.insert_split(&[leaf0], 0, 1, false, (0, 1.0)).unwrap();
    let nodes: Vec<Option<TreeNode<Cut>>> = (0..tree.slot_count())
        .map(|id| tree.slot(id).map(copy_node))
        .collect();
    let free = tree.free_slots().to_vec();
    let back = TreeShape::from_parts(tree.root(), tree.tree_mass(), nodes.clone(), free.clone()).unwrap();
    assert_eq!(back.root(), x);
    assert_eq!(back.tree_mass(), 2);
    // Wrong total mass.
    assert!(TreeShape::from_parts(tree.root(), 3, nodes.clone(), free.clone()).is_none());
    // A node listed as free while live.
    assert!(TreeShape::from_parts(tree.root(), 2, nodes, vec![leaf0]).is_none());
}

fn copy_node(n: &TreeNode<Cut>) -> TreeNode<Cut> {
    match n {
        TreeNode::Leaf { point_idx, mass } => TreeNode::Leaf { point_idx: *point_idx, mass: *mass },
        TreeNode::Internal { left, right, mass, split } => TreeNode::Internal {
            left: *left,
            right: *right,
            mass: *mass,
            split: *split,
        },
    }
}
