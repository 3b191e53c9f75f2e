//! A limit on concurrent work that adapts to how the work goes.

use vstd::prelude::*;

pub mod laws;

verus! {

/// The limit to begin with.
pub const DEFAULT_INITIAL_LIMIT: usize = 16;

/// The least limit.
pub const DEFAULT_MIN_LIMIT: usize = 1;

/// The greatest limit.
pub const DEFAULT_MAX_LIMIT: usize = 256;

/// The time between adjustments to begin with, in nanoseconds.
pub const INITIAL_ADJUST_INTERVAL: u64 = 64_000_000;

/// The least time between adjustments, in nanoseconds.
pub const MIN_ADJUST_INTERVAL: u64 = 64_000_000;

/// The greatest time between adjustments, in nanoseconds.
pub const MAX_ADJUST_INTERVAL: u64 = 1_000_000_000;

/// How the work of a window went, measured against the window before.
#[derive(Clone, Copy, Debug, PartialEq, Eq, Structural)]
pub enum Trend {
    /// Errors, less throughput or much more latency.
    Worse,
    /// More throughput without much more latency.
    Better,
    /// Neither.
    Steady,
}

/// How much the measures changed since the window before.
#[derive(Clone, Copy, Debug, PartialEq, Eq, Structural)]
pub enum Swing {
    Large,
    Moderate,
    Small,
}

/// What a window shows, measured against the window before.
#[derive(Clone, Copy, Debug, PartialEq, Eq, Structural)]
pub struct Judgement {
    pub trend: Trend,
    pub swing: Swing,
}

/// The work that ended since the last adjustment.
#[derive(Clone, Copy, Debug, PartialEq, Eq, Structural)]
pub struct WindowStats {
    /// Work that ended, with or without an error.
    pub completed: usize,
    /// Work that ended with an error.
    pub errors: usize,
    /// Work that was given up.
    pub cancelled: usize,
    /// How long the work that ended took, in nanoseconds.
    pub total_latency: u128,
}

/// How a piece of work ended: how long it took in nanoseconds, and whether it failed.
#[derive(Clone, Copy, Debug, PartialEq, Eq, Structural)]
pub struct Sample {
    pub latency: u128,
    pub is_error: bool,
}

/// A limit on concurrent work.
#[derive(Clone, Copy, Debug, PartialEq, Eq, Structural)]
pub struct AdaptiveSemaphore {
    pub limit: usize,
    pub min_limit: usize,
    pub max_limit: usize,
    pub adjust_interval: u64,
    pub in_flight: usize,
    pub current: WindowStats,
    /// A window was measured before.
    pub measured: bool,
}

/// No work.
pub open spec fn no_work() -> WindowStats {
    WindowStats { completed: 0, errors: 0, cancelled: 0, total_latency: 0 }
}

pub open spec fn clamped(x: int, low: int, high: int) -> int {
    if x < low {
        low
    } else if x > high {
        high
    } else {
        x
    }
}

/// A window with one more piece of work.
pub open spec fn recorded(w: WindowStats, sample: Sample) -> WindowStats {
    WindowStats {
        completed: (w.completed + 1) as usize,
        errors: (w.errors + (if sample.is_error {
            1int
        } else {
            0
        })) as usize,
        total_latency: (w.total_latency + sample.latency) as u128,
        ..w
    }
}

/// There is room for another piece of work in the window.
pub open spec fn has_room(w: WindowStats, latency: u128) -> bool {
    &&& w.completed < usize::MAX
    &&& w.errors < usize::MAX
    &&& w.total_latency + latency <= u128::MAX
}

/// The limit after a window: halved after a bad one, one more after a good one.
pub open spec fn next_limit(s: AdaptiveSemaphore, trend: Trend) -> int {
    match trend {
        Trend::Worse => vstd::math::max(s.limit as int / 2, s.min_limit as int),
        Trend::Better => vstd::math::min(s.limit + 1, s.max_limit as int),
        Trend::Steady => s.limit as int,
    }
}

/// The time to the next adjustment: shorter when the measures swing, longer when they do not.
pub open spec fn next_interval(interval: int, swing: Swing) -> int {
    match swing {
        Swing::Large => vstd::math::max(interval / 2, MIN_ADJUST_INTERVAL as int),
        Swing::Moderate => interval,
        Swing::Small => vstd::math::min(interval * 2, MAX_ADJUST_INTERVAL as int),
    }
}

/// The state after an adjustment.  Without work nothing changes, and the first window is only
/// measured.
pub open spec fn adjusted(s: AdaptiveSemaphore, judgement: Judgement) -> AdaptiveSemaphore {
    if s.current.completed == 0 {
        s
    } else if s.measured {
        AdaptiveSemaphore {
            limit: next_limit(s, judgement.trend) as usize,
            adjust_interval: next_interval(s.adjust_interval as int, judgement.swing) as u64,
            current: no_work(),
            ..s
        }
    } else {
        AdaptiveSemaphore { current: no_work(), measured: true, ..s }
    }
}

/// The state after a piece of work ended.
pub open spec fn ended(s: AdaptiveSemaphore, sample: Sample) -> AdaptiveSemaphore {
    AdaptiveSemaphore {
        in_flight: (if s.in_flight == 0 {
            0
        } else {
            s.in_flight - 1
        }) as usize,
        current: recorded(s.current, sample),
        ..s
    }
}

/// The state after a piece of work ended, and after an adjustment if it is time for one.
pub open spec fn released(
    s: AdaptiveSemaphore,
    sample: Sample,
    elapsed: u64,
    judgement: Judgement,
) -> AdaptiveSemaphore {
    if elapsed < s.adjust_interval {
        ended(s, sample)
    } else {
        adjusted(ended(s, sample), judgement)
    }
}

/// The state after a piece of work was given up: it is no sample.
pub open spec fn given_up(s: AdaptiveSemaphore) -> AdaptiveSemaphore {
    AdaptiveSemaphore {
        in_flight: (if s.in_flight == 0 {
            0
        } else {
            s.in_flight - 1
        }) as usize,
        current: WindowStats { cancelled: (s.current.cancelled + 1) as usize, ..s.current },
        ..s
    }
}

/// The state after an attempt to begin a piece of work, and whether it begins.
pub open spec fn taken(s: AdaptiveSemaphore) -> (AdaptiveSemaphore, bool) {
    if s.in_flight < s.limit {
        (AdaptiveSemaphore { in_flight: (s.in_flight + 1) as usize, ..s }, true)
    } else {
        (s, false)
    }
}

/// How many operations may run against one host.
pub open spec fn host_limit(cap: int) -> int {
    vstd::math::max(cap, 1)
}

/// How many fetches may run at first on so many processors.
pub open spec fn first_fetches(processors: int) -> int {
    vstd::math::min(2 * processors, 16)
}

impl AdaptiveSemaphore {
    /// The limit is at least one, and all is within its bounds.
    pub open spec fn wf(&self) -> bool {
        &&& 1 <= self.min_limit <= self.limit <= self.max_limit
        &&& MIN_ADJUST_INTERVAL <= self.adjust_interval <= MAX_ADJUST_INTERVAL
    }

    /// A limit with the usual bounds.
    pub fn new() -> (s: AdaptiveSemaphore)
        ensures
            s.wf(),
            s.limit == DEFAULT_INITIAL_LIMIT,
            s.min_limit == DEFAULT_MIN_LIMIT,
            s.max_limit == DEFAULT_MAX_LIMIT,
            s.adjust_interval == INITIAL_ADJUST_INTERVAL,
            s.in_flight == 0,
            s.current == no_work(),
            !s.measured,
    {
        AdaptiveSemaphore::with_limits(
            DEFAULT_INITIAL_LIMIT,
            DEFAULT_MIN_LIMIT,
            DEFAULT_MAX_LIMIT,
            INITIAL_ADJUST_INTERVAL,
        )
    }

    /// A limit with bounds of its own: the least limit is at least one, the greatest at least the
    /// least, and the limit and the time between adjustments lie within their bounds.
    pub fn with_limits(
        initial_limit: usize,
        min_limit: usize,
        max_limit: usize,
        adjust_interval: u64,
    ) -> (s: AdaptiveSemaphore)
        ensures
            s.wf(),
            s.min_limit == vstd::math::max(min_limit as int, 1),
            s.max_limit == vstd::math::max(max_limit as int, s.min_limit as int),
            s.limit == clamped(initial_limit as int, s.min_limit as int, s.max_limit as int),
            s.adjust_interval == clamped(
                adjust_interval as int,
                MIN_ADJUST_INTERVAL as int,
                MAX_ADJUST_INTERVAL as int,
            ),
            s.in_flight == 0,
            s.current == no_work(),
            !s.measured,
    {
        let min_limit: usize = if min_limit < 1 {
            1
        } else {
            min_limit
        };
        let max_limit: usize = if max_limit < min_limit {
            min_limit
        } else {
            max_limit
        };
        let limit: usize = if initial_limit < min_limit {
            min_limit
        } else if initial_limit > max_limit {
            max_limit
        } else {
            initial_limit
        };
        let adjust_interval: u64 = if adjust_interval < MIN_ADJUST_INTERVAL {
            MIN_ADJUST_INTERVAL
        } else if adjust_interval > MAX_ADJUST_INTERVAL {
            MAX_ADJUST_INTERVAL
        } else {
            adjust_interval
        };
        AdaptiveSemaphore {
            limit,
            min_limit,
            max_limit,
            adjust_interval,
            in_flight: 0,
            current: WindowStats { completed: 0, errors: 0, cancelled: 0, total_latency: 0 },
            measured: false,
        }
    }

    /// Begins a piece of work if the limit allows it.
    pub fn acquire(&mut self) -> (begun: bool)
        requires
            old(self).wf(),
        ensures
            final(self).wf(),
            (*final(self), begun) == taken(*old(self)),
    {
        if self.in_flight < self.limit {
            self.in_flight = self.in_flight + 1;
            true
        } else {
            false
        }
    }

    /// Takes a piece of work into the window.
    pub fn record(&mut self, sample: Sample)
        requires
            has_room(old(self).current, sample.latency),
        ensures
            *final(self) == (AdaptiveSemaphore {
                current: recorded(old(self).current, sample),
                ..*old(self)
            }),
    {
        let errors: usize = if sample.is_error {
            self.current.errors + 1
        } else {
            self.current.errors
        };
        self.current = WindowStats {
            completed: self.current.completed + 1,
            errors,
            cancelled: self.current.cancelled,
            total_latency: self.current.total_latency + sample.latency,
        };
    }

    fn update_limit(&mut self, trend: Trend)
        requires
            old(self).wf(),
        ensures
            final(self).wf(),
            *final(self) == (AdaptiveSemaphore {
                limit: next_limit(*old(self), trend) as usize,
                ..*old(self)
            }),
    {
        match trend {
            Trend::Worse => {
                let half: usize = self.limit / 2;
                self.limit = if half < self.min_limit {
                    self.min_limit
                } else {
                    half
                };
            },
            Trend::Better => {
                if self.limit < self.max_limit {
                    self.limit = self.limit + 1;
                }
            },
            Trend::Steady => {},
        }
    }

    fn update_adjust_interval(&mut self, swing: Swing)
        requires
            old(self).wf(),
        ensures
            final(self).wf(),
            *final(self) == (AdaptiveSemaphore {
                adjust_interval: next_interval(old(self).adjust_interval as int, swing) as u64,
                ..*old(self)
            }),
    {
        match swing {
            Swing::Large => {
                let half: u64 = self.adjust_interval / 2;
                self.adjust_interval = if half < MIN_ADJUST_INTERVAL {
                    MIN_ADJUST_INTERVAL
                } else {
                    half
                };
            },
            Swing::Moderate => {},
            Swing::Small => {
                let twice: u64 = self.adjust_interval * 2;
                self.adjust_interval = if twice > MAX_ADJUST_INTERVAL {
                    MAX_ADJUST_INTERVAL
                } else {
                    twice
                };
            },
        }
    }

    /// Adjusts the limit by what the window shows; whether the limit changed.
    pub fn adjust(&mut self, judgement: Judgement) -> (changed: bool)
        requires
            old(self).wf(),
        ensures
            final(self).wf(),
            *final(self) == adjusted(*old(self), judgement),
            changed == (final(self).limit != old(self).limit),
    {
        if self.current.completed == 0 {
            return false;
        }
        let before: usize = self.limit;
        if self.measured {
            self.update_adjust_interval(judgement.swing);
            self.update_limit(judgement.trend);
        }
        self.measured = true;
        self.current = WindowStats { completed: 0, errors: 0, cancelled: 0, total_latency: 0 };
        self.limit != before
    }

    /// Whether the window has room for another piece of work that took so long.
    pub fn fits(&self, latency: u128) -> (fits: bool)
        ensures
            fits == has_room(self.current, latency),
    {
        self.current.completed < usize::MAX && self.current.errors < usize::MAX
            && self.current.total_latency <= u128::MAX - latency
    }

    /// Whether another piece of work may begin.
    pub fn has_slot(&self) -> (room: bool)
        ensures
            room == (self.in_flight < self.limit),
    {
        self.in_flight < self.limit
    }

    /// Ends a piece of work; whether it is time to adjust the limit.
    pub fn complete(&mut self, sample: Sample, elapsed: u64) -> (due: bool)
        requires
            old(self).wf(),
            has_room(old(self).current, sample.latency),
        ensures
            final(self).wf(),
            *final(self) == ended(*old(self), sample),
            due == (elapsed >= old(self).adjust_interval),
    {
        if self.in_flight > 0 {
            self.in_flight = self.in_flight - 1;
        }
        self.record(sample);
        elapsed >= self.adjust_interval
    }

    /// Ends a piece of work, and adjusts the limit if it is time; whether there is room for
    /// another one.
    pub fn release(&mut self, sample: Sample, elapsed: u64, judgement: Judgement) -> (room: bool)
        requires
            old(self).wf(),
            has_room(old(self).current, sample.latency),
        ensures
            final(self).wf(),
            *final(self) == released(*old(self), sample, elapsed, judgement),
            room == (final(self).in_flight < final(self).limit),
    {
        if self.complete(sample, elapsed) {
            let _ = self.adjust(judgement);
        }
        self.has_slot()
    }

    /// Ends a piece of work that was given up; whether there is room for another one.
    pub fn give_up(&mut self) -> (room: bool)
        requires
            old(self).wf(),
            old(self).current.cancelled < usize::MAX,
        ensures
            final(self).wf(),
            *final(self) == given_up(*old(self)),
            room == (final(self).in_flight < final(self).limit),
    {
        if self.in_flight > 0 {
            self.in_flight = self.in_flight - 1;
        }
        self.current = WindowStats {
            completed: self.current.completed,
            errors: self.current.errors,
            cancelled: self.current.cancelled + 1,
            total_latency: self.current.total_latency,
        };
        self.in_flight < self.limit
    }
}

impl WindowStats {
    /// How long a piece of work took on average, in nanoseconds.  The number of pieces counts as
    /// far as 32 bits hold it.
    pub fn avg_latency(&self) -> (latency: u128)
        requires
            self.completed as int % 0x1_0000_0000 != 0,
        ensures
            latency == self.total_latency as int / (self.completed as int % 0x1_0000_0000),
    {
        let n: u64 = (self.completed as u64) % 0x1_0000_0000;
        self.total_latency / (n as u128)
    }
}

/// How many operations may run against one host: at least one.
pub fn host_cap(cap: usize) -> (n: usize)
    ensures
        n == host_limit(cap as int),
{
    if cap < 1 {
        1
    } else {
        cap
    }
}

/// How many fetches may run at first: two for each processor, and sixteen at most.
pub fn fetch_initial_limit(processors: usize) -> (n: usize)
    ensures
        n == first_fetches(processors as int),
{
    if processors >= 8 {
        16
    } else {
        processors * 2
    }
}

/// Work that was given up is no sample: it changes neither the limit nor what is measured.
pub proof fn law_given_up_is_no_sample(s: AdaptiveSemaphore)
    requires
        s.current.cancelled < usize::MAX,
    ensures
        given_up(s).current.completed == s.current.completed,
        given_up(s).current.errors == s.current.errors,
        given_up(s).current.total_latency == s.current.total_latency,
        given_up(s).current.cancelled == s.current.cancelled + 1,
        given_up(s).limit == s.limit,
        given_up(s).adjust_interval == s.adjust_interval,
{
}

/// Work that ended is one sample, or the last one of a window that is then judged.
pub proof fn law_one_sample(
    s: AdaptiveSemaphore,
    sample: Sample,
    elapsed: u64,
    judgement: Judgement,
)
    requires
        s.wf(),
        has_room(s.current, sample.latency),
    ensures
        elapsed < s.adjust_interval ==> released(s, sample, elapsed, judgement).current.completed
            == s.current.completed + 1,
        elapsed >= s.adjust_interval ==> released(s, sample, elapsed, judgement).current
            == no_work() && released(s, sample, elapsed, judgement).measured,
        released(s, sample, elapsed, judgement).in_flight == (if s.in_flight == 0 {
            0
        } else {
            s.in_flight - 1
        }),
{
}

/// The limit never leaves its bounds, whatever windows are judged.
pub proof fn law_limit_bounded(s: AdaptiveSemaphore, judgements: Seq<Judgement>)
    requires
        s.wf(),
    ensures
        judged(s, judgements).wf(),
        judged(s, judgements).min_limit == s.min_limit,
        judged(s, judgements).max_limit == s.max_limit,
    decreases judgements.len(),
{
    if judgements.len() > 0 {
        law_limit_bounded(s, judgements.drop_last());
    }
}

/// The state after windows with work in each.
pub open spec fn judged(s: AdaptiveSemaphore, judgements: Seq<Judgement>) -> AdaptiveSemaphore
    decreases judgements.len(),
{
    if judgements.len() == 0 {
        s
    } else {
        let before = judged(s, judgements.drop_last());
        adjusted(
            AdaptiveSemaphore {
                current: WindowStats { completed: 1, ..before.current },
                ..before
            },
            judgements.last(),
        )
    }
}

} // verus!
