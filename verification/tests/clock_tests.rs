use rcf3::decimal::push_decimal;
use rcf3::mstream::{ClockStep, StreamClock};
use rcf3::RcfError;

#[test]
fn first_timestamp_starts_clock() {
    let mut tracker = StreamClock::default();
    let gap = tracker.advance(10).unwrap();
    assert_eq!(gap, 0);
    assert_eq!(tracker.current_time(), Some(10));
    assert_eq!(tracker.current_tick(), 1);
}

#[test]
fn advances_after_clock_started() {
    for (timestamp, expected_gap, expected_tick) in [(10u64, 0u64, 1u64), (13, 3, 4)] {
        let mut tracker = StreamClock::new();
        tracker.advance(10).unwrap();
        let gap = tracker.advance(timestamp).unwrap();
        assert_eq!(gap, expected_gap);
        assert_eq!(tracker.current_time(), Some(timestamp));
        assert_eq!(tracker.current_tick(), expected_tick);
    }
}

#[test]
fn rejects_zero_timestamp() {
    let err = StreamClock::default().advance(0).unwrap_err();
    assert!(matches!(err, RcfError::InvalidArgument(_)));
}

#[test]
fn rejects_decreasing_timestamp() {
    let mut tracker = StreamClock::default();
    tracker.advance(10).unwrap();
    let err = tracker.advance(9).unwrap_err();
    assert!(matches!(err, RcfError::InvalidArgument(_)));
    // the rejected timestamp leaves the clock where it was
    assert_eq!(tracker.current_time(), Some(10));
    assert_eq!(tracker.current_tick(), 1);
}

#[test]
fn preview_matches_advance_and_does_not_mutate() {
    let mut clock = StreamClock::new();
    clock.advance(5).unwrap();
    let step = clock.preview(9).unwrap();
    assert_eq!(step, ClockStep { tick_gap: 4, current_tick: 5 });
    assert_eq!(clock.current_time(), Some(5));
    assert_eq!(clock.advance(9).unwrap(), step.tick_gap);
    assert_eq!(clock.current_tick(), step.current_tick);
}

#[test]
fn gaps_are_invariant_to_timestamp_offset() {
    let ts = [3u64, 3, 7, 8, 20];
    let run = |offset: u64| {
        let mut clock = StreamClock::new();
        ts.iter().map(|t| clock.advance(t + offset).unwrap()).collect::<Vec<_>>()
    };
    assert_eq!(run(0), vec![0, 0, 4, 1, 12]);
    assert_eq!(run(0), run(1000));
}

#[test]
fn accepts_non_decreasing_sequences() {
    let mut tracker = StreamClock::default();
    let mut timestamp = 1;
    for gap in [0u64, 3, 0, 8, 1, 2] {
        timestamp += gap;
        assert!(tracker.advance(timestamp).is_ok());
        assert!(tracker.current_tick() <= timestamp);
    }
}

#[test]
fn decreasing_timestamp_message_names_both_timestamps() {
    let mut tracker = StreamClock::default();
    tracker.advance(10).unwrap();
    match tracker.advance(9) {
        Err(RcfError::InvalidArgument(m)) => {
            assert_eq!(m, "timestamps must be non-decreasing: previous=10, got=9")
        }
        other => panic!("unexpected {other:?}"),
    }
    match tracker.preview(1) {
        Err(RcfError::InvalidArgument(m)) => {
            assert_eq!(m, "timestamps must be non-decreasing: previous=10, got=1")
        }
        other => panic!("unexpected {other:?}"),
    }
}

#[test]
fn zero_timestamp_message() {
    match StreamClock::default().preview(0) {
        Err(RcfError::InvalidArgument(m)) => assert_eq!(m, "timestamp must be > 0"),
        other => panic!("unexpected {other:?}"),
    }
}

#[test]
fn advance_follows_preview_on_accept_and_reject() {
    let mut clock = StreamClock::new();
    clock.advance(1_000).unwrap();
    clock.advance(1_007).unwrap();
    // accepted: same gap, clock moves to the previewed step
    let step = clock.preview(1_010).unwrap();
    let mut moved = clock;
    assert_eq!(moved.advance(1_010).unwrap(), step.tick_gap);
    assert_eq!(moved.current_time(), Some(1_010));
    assert_eq!(moved.current_tick(), step.current_tick);
    assert_eq!(step, ClockStep { tick_gap: 3, current_tick: 11 });
    // rejected: same message, clock unchanged
    let previewed = match clock.preview(999) {
        Err(RcfError::InvalidArgument(m)) => m,
        other => panic!("unexpected {other:?}"),
    };
    let advanced = match clock.advance(999) {
        Err(RcfError::InvalidArgument(m)) => m,
        other => panic!("unexpected {other:?}"),
    };
    assert_eq!(previewed, advanced);
    assert_eq!(advanced, "timestamps must be non-decreasing: previous=1007, got=999");
    assert_eq!(clock.current_time(), Some(1_007));
    assert_eq!(clock.current_tick(), 8);
}

#[test]
fn push_decimal_writes_digits() {
    let mut s = String::from("x=");
    push_decimal(&mut s, 0);
    assert_eq!(s, "x=0");
    let mut s = String::new();
    push_decimal(&mut s, 1_234_567);
    assert_eq!(s, "1234567");
    let mut s = String::new();
    push_decimal(&mut s, u64::MAX);
    assert_eq!(s, "18446744073709551615");
}
