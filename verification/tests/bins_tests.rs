use rcf3::onlineiforest::bins::{Bin, BinForest, Phase};
use rcf3::onlineiforest::window::SlidingWindow;
use rcf3::RcfError;

fn root_height(f: &BinForest<u32, ()>, t: usize) -> usize {
    f.root(t).as_ref().map_or(0, |b| b.height)
}

/// Every tree learns `point` at its root leaf, then the window takes it.
fn learn_all_at_root(f: &mut BinForest<u32, ()>, point: u32) -> Option<u32> {
    for t in 0..f.num_trees() {
        f.learn(t, &[], ()).unwrap();
    }
    f.push(point).unwrap()
}

#[test]
fn roots_count_the_window_after_every_update() {
    let mut f: BinForest<u32, ()> = BinForest::new(2, 3);
    for point in 0..6u32 {
        if let Some(old) = learn_all_at_root(&mut f, point) {
            assert_eq!(old, point - 2);
            assert_eq!(f.phase(), Phase::Forgetting(0));
            for t in 0..f.num_trees() {
                assert!(f.forget(t, &[], 1).unwrap().is_none());
            }
        }
        assert_eq!(f.phase(), Phase::Learning(0));
        for t in 0..f.num_trees() {
            assert_eq!(root_height(&f, t), f.window().len());
        }
    }
    assert_eq!(f.window().len(), 2);
}

#[test]
fn trees_take_their_turn() {
    let mut f: BinForest<u32, ()> = BinForest::new(4, 2);
    assert!(matches!(f.learn(1, &[], ()), Err(RcfError::InvalidArgument(_))));
    assert!(matches!(f.push(7), Err(RcfError::InvalidArgument(_))));
    f.learn(0, &[], ()).unwrap();
    assert_eq!(f.phase(), Phase::Learning(1));
    assert!(matches!(f.push(7), Err(RcfError::InvalidArgument(_))));
    f.learn(1, &[], ()).unwrap();
    assert!(f.push(7).unwrap().is_none());
    assert!(matches!(f.forget(0, &[], 1), Err(RcfError::InvalidArgument(_))));
}

#[test]
fn split_counts_must_add_up_and_routes_must_reach_a_leaf() {
    let mut f: BinForest<u32, ()> = BinForest::new(4, 1);
    learn_all_at_root(&mut f, 1);
    learn_all_at_root(&mut f, 2);
    assert!(matches!(f.split(0, &[], 1, (), 0, ()), Err(RcfError::InvalidArgument(_))));
    f.split(0, &[], 1, (), 1, ()).unwrap();
    assert_eq!(root_height(&f, 0), 2);
    // The root is split now: an empty route no longer ends at a leaf.
    assert!(matches!(f.learn(0, &[], ()), Err(RcfError::InvalidArgument(_))));
    f.learn(0, &[true], ()).unwrap();
    f.push(3).unwrap();
    let root = f.root(0).as_ref().unwrap();
    let (left, right) = match &root.children {
        Some(pair) => (pair.0.height, pair.1.height),
        None => panic!("expected a split root"),
    };
    assert_eq!((root.height, left, right), (3, 1, 2));
}

#[test]
fn forgetting_merges_a_bin_below_its_threshold() {
    let mut f: BinForest<u32, ()> = BinForest::new(2, 1);
    learn_all_at_root(&mut f, 1);
    learn_all_at_root(&mut f, 2);
    f.split(0, &[], 1, (), 1, ()).unwrap();
    f.learn(0, &[false], ()).unwrap();
    assert_eq!(f.push(3).unwrap(), Some(1));
    // With eight samples per leaf the root (now counting two) is below its
    // threshold and merges.
    let dropped = f.forget(0, &[false], 8).unwrap();
    match dropped {
        Some((depth, left, right)) => {
            assert_eq!(depth, 0);
            assert_eq!((left.height, right.height), (2, 1));
        }
        None => panic!("expected a merge"),
    }
    let root = f.root(0).as_ref().unwrap();
    assert!(root.children.is_none());
    assert_eq!(root.height, 2);
    assert_eq!(f.phase(), Phase::Learning(0));
}

#[test]
fn last_point_forgotten_empties_the_tree() {
    let mut f: BinForest<u32, ()> = BinForest::new(1, 1);
    learn_all_at_root(&mut f, 1);
    f.learn(0, &[], ()).unwrap();
    assert_eq!(f.push(2).unwrap(), Some(1));
    f.forget(0, &[], 1).unwrap();
    assert_eq!(root_height(&f, 0), 1);
    // A window of one: the tree holds exactly the newest point.
    assert!(f.root(0).is_some());
}

#[test]
fn data_is_replaced_along_a_route() {
    let mut f: BinForest<u32, u32> = BinForest::new(4, 1);
    f.learn(0, &[], 10).unwrap();
    f.push(1).unwrap();
    f.learn(0, &[], 99).unwrap();
    f.push(2).unwrap();
    assert_eq!(f.root(0).as_ref().unwrap().data, 10);
    f.split(0, &[], 1, 20, 1, 30).unwrap();
    f.set_data(0, &[true], 1, 31).unwrap();
    f.set_data(0, &[true], 0, 11).unwrap();
    assert!(matches!(f.set_data(0, &[true, false], 2, 0), Err(RcfError::InvalidArgument(_))));
    let root = f.root(0).as_ref().unwrap();
    assert_eq!(root.data, 11);
    let pair = root.children.as_ref().unwrap();
    assert_eq!((pair.0.data, pair.1.data), (20, 31));
}

#[test]
fn restored_parts_must_count_the_window() {
    let mut window: SlidingWindow<u32> = SlidingWindow::new(3);
    window.push(1);
    window.push(2);
    let good = vec![Some(Bin { height: 2, data: (), children: None })];
    assert!(BinForest::from_parts(window, good).is_some());
    let mut window: SlidingWindow<u32> = SlidingWindow::new(3);
    window.push(1);
    let bad = vec![Some(Bin { height: 2, data: (), children: None })];
    assert!(BinForest::from_parts(window, bad).is_none());
    let empty: SlidingWindow<u32> = SlidingWindow::new(3);
    assert!(BinForest::<u32, ()>::from_parts(empty, vec![None, None]).is_some());
}
