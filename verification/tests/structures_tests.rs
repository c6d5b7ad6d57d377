use rcf3::onlineiforest::window::{split_threshold, SlidingWindow};
use rcf3::rcf::sampler::{AcceptResult, Sampler};
use rcf3::rcf::NodeArena;

/// Order-preserving key of a finite weight.
fn key(w: f64) -> u64 {
    let b = w.to_bits();
    if b >> 63 == 1 {
        !b
    } else {
        b | (1 << 63)
    }
}

#[test]
fn sampler_fills_to_capacity() {
    for capacity in [1usize, 4, 8, 16, 32] {
        let mut s = Sampler::new(capacity);
        for i in 0..capacity {
            let w = key(0.5 - i as f64);
            assert!(s.accept(true, w).accepted);
            s.add_point(i, w);
        }
        assert!(s.is_full());
        assert_eq!(s.points().len(), capacity);
    }
}

#[test]
fn sampler_evicts_max_weight() {
    for capacity in [2usize, 4, 8] {
        let mut s = Sampler::new(capacity);
        for i in 0..capacity {
            let w = key(100.0 + i as f64);
            s.accept(true, w);
            s.add_point(i, w);
        }
        let result = s.accept(false, key(-100.0));
        assert!(result.accepted);
        assert_eq!(result.evicted, Some(capacity - 1));
        s.add_point(capacity, key(-100.0));
        assert!(!s.points().contains(&(capacity - 1)));
        assert!(s.points().contains(&capacity));
    }
}

#[test]
fn sampler_rejects_higher_weight_when_full() {
    let mut s = Sampler::new(2);
    let w = -10.0f64;
    s.accept(true, key(w));
    s.add_point(0, key(w));
    s.accept(true, key(w - 1.0));
    s.add_point(1, key(w - 1.0));
    let result = s.accept(false, key(999.0));
    assert!(!result.accepted);
}

#[test]
fn sampler_rejects_unapproved_warmup_candidate() {
    let s = Sampler::new(2);
    let result = s.accept(false, key(-100.0));
    assert!(!result.accepted);
    assert!(s.points().is_empty());
}

#[test]
fn rejected_accept_does_not_change_sampler_state() {
    let mut s = Sampler::new(1);
    s.accept(true, key(-10.0));
    s.add_point(0, key(-10.0));
    let result = s.accept(false, key(999.0));
    assert_eq!(result, AcceptResult { accepted: false, evicted: None });
    assert_eq!(s.points(), &[0]);
}

#[test]
fn sampler_root_is_largest_key() {
    let mut s = Sampler::new(6);
    for (i, k) in [5u64, 1, 9, 3, 7, 2].iter().enumerate() {
        s.add_point(i, *k);
    }
    assert_eq!(s.max_key(), Some(9));
    s.add_point(6, 4);
    assert_eq!(s.max_key(), Some(7));
    assert_eq!(s.size(), 6);
}

#[test]
fn node_arena_reuses_freed_slots() {
    let mut arena: NodeArena<&str> = NodeArena::new(4);
    let a = arena.allocate("a");
    let b = arena.allocate("b");
    let c = arena.allocate("c");
    assert_eq!((a, b, c), (0, 1, 2));
    arena.free(a);
    arena.free(c);
    assert_eq!(arena.allocate("d"), c);
    assert_eq!(arena.allocate("e"), a);
    assert_eq!(arena.slot_count(), 3);
    assert_eq!(*arena.get(b), "b");
    assert_eq!(arena.replace(b, "f"), "b");
    assert_eq!(*arena.get(b), "f");
    assert_eq!(arena.allocate("g"), 3);
}

#[test]
fn sliding_window_keeps_latest_points() {
    let mut w = SlidingWindow::new(3);
    assert_eq!(w.push(1), None);
    assert_eq!(w.push(2), None);
    assert_eq!(w.push(3), None);
    assert_eq!(w.push(4), Some(1));
    assert_eq!(w.push(5), Some(2));
    assert_eq!(w.len(), 3);
}

#[test]
fn split_threshold_doubles_per_level_and_saturates() {
    assert_eq!(split_threshold(32, 0), 32);
    assert_eq!(split_threshold(32, 3), 256);
    assert_eq!(split_threshold(0, 200), 0);
    assert_eq!(split_threshold(3, usize::BITS as usize), usize::MAX);
    assert_eq!(split_threshold(usize::MAX, 1), usize::MAX);
    assert_eq!(split_threshold(1, usize::BITS as usize - 1), 1usize << (usize::BITS - 1));
}

#[test]
fn node_arena_get_mut_changes_the_node_in_place() {
    let mut arena: NodeArena<u32> = NodeArena::new(2);
    let a = arena.allocate(1);
    let b = arena.allocate(2);
    *arena.get_mut(b) += 40;
    assert_eq!(*arena.get(a), 1);
    assert_eq!(*arena.get(b), 42);
    assert_eq!(arena.slot_count(), 2);
}
