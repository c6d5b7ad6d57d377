use vstd::prelude::*;

use crate::decimal::push_decimal;
use crate::error::{RcfError, Result};

verus! {

/// How the logical clock would move for one timestamp.
#[derive(Clone, Copy, Debug, PartialEq, Eq, Structural)]
pub struct ClockStep {
    /// Number of decay ticks that elapse before the record is counted.
    pub tick_gap: u64,
    /// The logical tick of the record.
    pub current_tick: u64,
}

/// Advances mStream's logical clock from caller-provided timestamps.
///
/// Only differences between timestamps matter: the first record starts at
/// tick 1, and each later record moves the tick forward by the gap between
/// its timestamp and the previous one.
#[derive(Clone, Copy, Debug)]
pub struct StreamClock {
    pub current_time: Option<u64>,
    pub current_tick: u64,
}

/// The step a clock in state (`time`, `tick`) takes for `timestamp`, or `None`
/// when the timestamp is rejected (zero, or earlier than the previous one).
pub open spec fn step_for(time: Option<u64>, tick: u64, timestamp: u64) -> Option<ClockStep> {
    if timestamp == 0 {
        None
    } else {
        match time {
            None => Some(ClockStep { tick_gap: 0, current_tick: 1 }),
            Some(previous) => if timestamp > previous {
                Some(ClockStep {
                    tick_gap: (timestamp - previous) as u64,
                    current_tick: (tick + (timestamp - previous)) as u64,
                })
            } else if timestamp < previous {
                None
            } else {
                Some(ClockStep { tick_gap: 0, current_tick: tick })
            },
        }
    }
}

/// The gaps a clock in state (`time`, `tick`) reports for the timestamps `ts`
/// fed to it in order, or `None` if one of them is rejected.
pub open spec fn run_gaps(time: Option<u64>, tick: u64, ts: Seq<u64>) -> Option<Seq<u64>>
    decreases ts.len(),
{
    if ts.len() == 0 {
        Some(Seq::empty())
    } else {
        match step_for(time, tick, ts[0]) {
            None => None,
            Some(step) => match run_gaps(Some(ts[0]), step.current_tick, ts.drop_first()) {
                None => None,
                Some(rest) => Some(seq![step.tick_gap] + rest),
            },
        }
    }
}

/// `ts` with `k` added to every timestamp.
pub open spec fn shifted(ts: Seq<u64>, k: u64) -> Seq<u64> {
    ts.map_values(|t: u64| (t + k) as u64)
}

/// The message with which a timestamp is rejected: a zero timestamp, or one
/// earlier than the previous timestamp `time` (naming both).
pub open spec fn rejection(time: Option<u64>, timestamp: u64) -> Seq<char> {
    if timestamp == 0 {
        "timestamp must be > 0"@
    } else {
        match time {
            Some(previous) => "timestamps must be non-decreasing: previous="@ + crate::decimal::decimal(
                previous as nat,
            ) + ", got="@ + crate::decimal::decimal(timestamp as nat),
            None => Seq::empty(),
        }
    }
}

/// The error for a rejected timestamp: `InvalidArgument` with
/// [`rejection`]`(time, timestamp)`.
fn rejection_error(time: Option<u64>, timestamp: u64) -> (e: RcfError)
    requires
        timestamp == 0 || time is Some,
    ensures
        e matches RcfError::InvalidArgument(m) && m@ == rejection(time, timestamp),
{
    if timestamp == 0 {
        return RcfError::invalid_argument("timestamp must be > 0");
    }
    let previous = time.unwrap();
    let mut m = "timestamps must be non-decreasing: previous=".to_owned();
    push_decimal(&mut m, previous);
    m.append(", got=");
    push_decimal(&mut m, timestamp);
    RcfError::InvalidArgument(m)
}

impl StreamClock {
    /// Reachable clocks: a fresh clock is at tick 0; once started, the tick
    /// is at least 1 and never ahead of the last timestamp.
    pub open spec fn wf(&self) -> bool {
        match self.current_time {
            None => self.current_tick == 0,
            Some(t) => 1 <= self.current_tick <= t,
        }
    }

    /// Stepping to `timestamp` does not overflow the tick counter.
    pub open spec fn fits(&self, timestamp: u64) -> bool {
        match self.current_time {
            Some(previous) => timestamp > previous ==> self.current_tick + (timestamp - previous)
                <= u64::MAX,
            None => true,
        }
    }

    pub open spec fn spec_step(&self, timestamp: u64) -> Option<ClockStep> {
        step_for(self.current_time, self.current_tick, timestamp)
    }

    /// `r` is what previewing `timestamp` on this clock gives: the step, or
    /// `InvalidArgument` with the [`rejection`] message.
    pub open spec fn previewed(&self, timestamp: u64, r: Result<ClockStep>) -> bool {
        match self.spec_step(timestamp) {
            Some(step) => r == Ok::<ClockStep, RcfError>(step),
            None => r matches Err(e) && e matches RcfError::InvalidArgument(m) && m@ == rejection(
                self.current_time,
                timestamp,
            ),
        }
    }

    /// Advancing this clock by `timestamp` gave `r` and left it as `after`:
    /// on an accepted timestamp the gap, with the clock moved to the step; on
    /// a rejected one `InvalidArgument` with the [`rejection`] message, with
    /// the clock unchanged.
    pub open spec fn advanced(&self, timestamp: u64, after: StreamClock, r: Result<u64>) -> bool {
        match self.spec_step(timestamp) {
            Some(step) => {
                &&& r == Ok::<u64, RcfError>(step.tick_gap)
                &&& after.current_time == Some(timestamp)
                &&& after.current_tick == step.current_tick
            },
            None => {
                &&& r matches Err(e) && e matches RcfError::InvalidArgument(m) && m@ == rejection(
                    self.current_time,
                    timestamp,
                )
                &&& after.current_time == self.current_time
                &&& after.current_tick == self.current_tick
            },
        }
    }

    /// A clock that has seen no timestamp.
    pub fn new() -> (c: Self)
        ensures
            c.current_time is None,
            c.current_tick == 0,
            c.wf(),
    {
        StreamClock { current_time: None, current_tick: 0 }
    }

    pub fn current_time(&self) -> (t: Option<u64>)
        ensures
            t == self.current_time,
    {
        self.current_time
    }

    pub fn current_tick(&self) -> (t: u64)
        ensures
            t == self.current_tick,
    {
        self.current_tick
    }

    /// Describe the logical clock step that `timestamp` would produce.
    ///
    /// Fails with `InvalidArgument` for a zero timestamp or one earlier than
    /// the previous timestamp; the latter message names both timestamps.
    pub fn preview(&self, timestamp: u64) -> (r: Result<ClockStep>)
        requires
            self.fits(timestamp),
        ensures
            self.previewed(timestamp, r),
    {
        if timestamp == 0 {
            return Err(rejection_error(self.current_time, timestamp));
        }
        match self.current_time {
            None => Ok(ClockStep { tick_gap: 0, current_tick: 1 }),
            Some(previous) => {
                if timestamp > previous {
                    let tick_gap = timestamp - previous;
                    Ok(ClockStep { tick_gap, current_tick: self.current_tick + tick_gap })
                } else if timestamp < previous {
                    Err(rejection_error(self.current_time, timestamp))
                } else {
                    Ok(ClockStep { tick_gap: 0, current_tick: self.current_tick })
                }
            },
        }
    }

    /// Advance time and return how many decay ticks elapsed since the prior
    /// record. A rejected timestamp leaves the clock unchanged.
    pub fn advance(&mut self, timestamp: u64) -> (r: Result<u64>)
        requires
            old(self).fits(timestamp),
        ensures
            old(self).advanced(timestamp, *final(self), r),
            old(self).wf() ==> final(self).wf(),
    {
        let step = self.preview(timestamp)?;
        self.current_time = Some(timestamp);
        self.current_tick = step.current_tick;
        Ok(step.tick_gap)
    }
}

impl Default for StreamClock {
    fn default() -> (c: Self)
        ensures
            c.current_time is None,
            c.current_tick == 0,
    {
        StreamClock::new()
    }
}

/// Advancing a clock agrees with previewing it: an accepted timestamp
/// returns the previewed step's tick gap and moves the clock to the previewed
/// time and tick; a rejected one fails with the same message and leaves the
/// clock as it was.
pub proof fn lemma_advance_follows_preview(
    c: StreamClock,
    timestamp: u64,
    preview: Result<ClockStep>,
    after: StreamClock,
    advanced: Result<u64>,
)
    requires
        c.previewed(timestamp, preview),
        c.advanced(timestamp, after, advanced),
    ensures
        match preview {
            Ok(step) => {
                &&& advanced == Ok::<u64, RcfError>(step.tick_gap)
                &&& after.current_time == Some(timestamp)
                &&& after.current_tick == step.current_tick
            },
            Err(e) => {
                &&& e matches RcfError::InvalidArgument(m) && advanced matches Err(e2)
                    && e2 matches RcfError::InvalidArgument(m2) && m2@ == m@
                &&& after.current_time == c.current_time
                &&& after.current_tick == c.current_tick
            },
        },
{
}

/// A reachable clock can take any timestamp without overflowing its tick.
pub proof fn lemma_wf_clock_fits(c: StreamClock, timestamp: u64)
    requires
        c.wf(),
    ensures
        c.fits(timestamp),
{
}

/// Shifting every timestamp by the same constant does not change the tick
/// gaps the clock reports, nor whether the sequence is accepted: only
/// differences between timestamps matter. (A leading zero timestamp is the
/// one exception: it is rejected, while its shifted copy need not be.)
pub proof fn lemma_gaps_invariant_under_shift(ts: Seq<u64>, k: u64)
    requires
        ts.len() > 0 ==> ts[0] > 0,
        forall|i: int| 0 <= i < ts.len() ==> ts[i] + k <= u64::MAX,
    ensures
        run_gaps(None, 0, ts) == run_gaps(None, 0, shifted(ts, k)),
{
    if ts.len() > 0 {
        lemma_shifted_run(ts.drop_first(), k, ts[0], 1);
        assert(shifted(ts, k).drop_first() =~= shifted(ts.drop_first(), k));
    }
}

proof fn lemma_shifted_run(ts: Seq<u64>, k: u64, prev: u64, tick: u64)
    requires
        prev > 0,
        prev + k <= u64::MAX,
        forall|i: int| 0 <= i < ts.len() ==> ts[i] + k <= u64::MAX,
    ensures
        run_gaps(Some(prev), tick, ts) == run_gaps(Some((prev + k) as u64), tick, shifted(ts, k)),
    decreases ts.len(),
{
    if ts.len() > 0 {
        assert(shifted(ts, k).drop_first() =~= shifted(ts.drop_first(), k));
        let s1 = step_for(Some(prev), tick, ts[0]);
        assert(s1 == step_for(Some((prev + k) as u64), tick, (ts[0] + k) as u64));
        if let Some(step) = s1 {
            lemma_shifted_run(ts.drop_first(), k, ts[0], step.current_tick);
        }
    }
}

} // verus!
