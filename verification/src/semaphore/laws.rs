//! How the limit follows the work.

use crate::semaphore;
use crate::semaphore::{AdaptiveSemaphore, Judgement, Sample, Swing, Trend};
use vstd::prelude::*;

verus! {

/// `half` is the half of `n`, rounded down.
pub open spec fn half_of(half: int, n: int) -> bool {
    2 * half <= n < 2 * half + 2
}

/// A window that is judged after another was measured moves the limit: a worse one halves it, but
/// not below the least; a better one adds one, but not above the greatest; and a steady one leaves
/// it.  A first window, and one without work, move nothing.
pub proof fn law_limit_follows_trend(s: AdaptiveSemaphore, judgement: Judgement)
    requires
        s.wf(),
    ensures
        ({
            let next = semaphore::adjusted(s, judgement);
            let judged = s.current.completed > 0 && s.measured;
            &&& !judged ==> next.limit == s.limit && next.adjust_interval == s.adjust_interval
            &&& judged && judgement.trend == Trend::Worse ==> {
                ||| half_of(next.limit as int, s.limit as int) && s.min_limit <= next.limit
                ||| next.limit == s.min_limit && s.limit < 2 * s.min_limit
            }
            &&& judged && judgement.trend == Trend::Better ==> {
                ||| next.limit == s.limit + 1
                ||| next.limit == s.limit && s.limit == s.max_limit
            }
            &&& judged && judgement.trend == Trend::Steady ==> next.limit == s.limit
            &&& next.in_flight == s.in_flight
            &&& next.min_limit == s.min_limit && next.max_limit == s.max_limit
            &&& next.wf()
        }),
{
}

/// A window that is judged after another was measured moves the time to the next adjustment: a
/// large swing halves it, but not below 64 milliseconds; a small one doubles it, but not above a
/// second; and a moderate one leaves it.
pub proof fn law_interval_follows_swing(s: AdaptiveSemaphore, judgement: Judgement)
    requires
        s.wf(),
        s.current.completed > 0,
        s.measured,
    ensures
        ({
            let before = s.adjust_interval as int;
            let next = semaphore::adjusted(s, judgement).adjust_interval as int;
            &&& judgement.swing == Swing::Large ==> {
                ||| half_of(next, before) && 64_000_000 <= next
                ||| next == 64_000_000 && before < 128_000_000
            }
            &&& judgement.swing == Swing::Small ==> {
                ||| next == 2 * before && next <= 1_000_000_000
                ||| next == 1_000_000_000 && 2 * before > 1_000_000_000
            }
            &&& judgement.swing == Swing::Moderate ==> next == before
        }),
{
}

/// After a window with work a new one begins, and the next can be judged; a window without work
/// goes on.
pub proof fn law_window_begins_anew(s: AdaptiveSemaphore, judgement: Judgement)
    ensures
        ({
            let next = semaphore::adjusted(s, judgement);
            &&& s.current.completed == 0 ==> next == s
            &&& s.current.completed > 0 ==> next.measured && next.current.completed == 0
                && next.current.errors == 0 && next.current.cancelled == 0
                && next.current.total_latency == 0
        }),
{
}

/// A piece of work that ended before an adjustment is due counts once, with its time, and as an
/// error if it failed; it frees its slot, and changes nothing else.
pub proof fn law_sample_counts(
    s: AdaptiveSemaphore,
    sample: Sample,
    elapsed: u64,
    judgement: Judgement,
)
    requires
        semaphore::has_room(s.current, sample.latency),
        s.in_flight > 0,
        elapsed < s.adjust_interval,
    ensures
        ({
            let next = semaphore::released(s, sample, elapsed, judgement);
            &&& next.current.completed == s.current.completed + 1
            &&& sample.is_error ==> next.current.errors == s.current.errors + 1
            &&& !sample.is_error ==> next.current.errors == s.current.errors
            &&& next.current.total_latency == s.current.total_latency + sample.latency
            &&& next.current.cancelled == s.current.cancelled
            &&& next.in_flight == s.in_flight - 1
            &&& next.limit == s.limit && next.min_limit == s.min_limit && next.max_limit
                == s.max_limit
            &&& next.adjust_interval == s.adjust_interval && next.measured == s.measured
        }),
{
}

/// Work that ended when an adjustment is due is judged with its window: the limit then is what the
/// judgement makes of it, also if it was the only work of the window.
pub proof fn law_due_is_judged(
    s: AdaptiveSemaphore,
    sample: Sample,
    elapsed: u64,
    judgement: Judgement,
)
    requires
        s.wf(),
        semaphore::has_room(s.current, sample.latency),
        elapsed >= s.adjust_interval,
    ensures
        ({
            let next = semaphore::released(s, sample, elapsed, judgement);
            &&& next.measured && next.current.completed == 0
            &&& !s.measured ==> next.limit == s.limit
            &&& s.measured && judgement.trend == Trend::Better && s.limit < s.max_limit
                ==> next.limit == s.limit + 1
            &&& s.measured && judgement.trend == Trend::Worse && s.min_limit < s.limit
                ==> next.limit < s.limit
            &&& s.measured && judgement.trend == Trend::Steady ==> next.limit == s.limit
        }),
{
}

/// Work that was given up frees its slot, and counts among the work that was given up alone.
pub proof fn law_given_up_frees(s: AdaptiveSemaphore)
    requires
        s.current.cancelled < usize::MAX,
    ensures
        ({
            let next = semaphore::given_up(s);
            &&& s.in_flight > 0 ==> next.in_flight == s.in_flight - 1
            &&& s.in_flight == 0 ==> next.in_flight == 0
            &&& next.measured == s.measured && next.max_limit == s.max_limit && next.min_limit
                == s.min_limit
        }),
{
}

/// A piece of work begins exactly if there is room, and takes one slot; so there is never more at
/// work than the limit was when the last one began.
pub proof fn law_begins_where_there_is_room(s: AdaptiveSemaphore)
    requires
        s.wf(),
    ensures
        ({
            let (next, begun) = semaphore::taken(s);
            &&& begun <==> s.in_flight < s.limit
            &&& begun ==> next.in_flight == s.in_flight + 1 && next.in_flight <= next.limit
            &&& !begun ==> next == s
            &&& next.limit == s.limit && next.current == s.current && next.measured == s.measured
                && next.adjust_interval == s.adjust_interval
        }),
{
}

/// What begins and is given up, or ends, leaves the slot as it was.
pub proof fn law_slot_comes_back(s: AdaptiveSemaphore, sample: Sample, elapsed: u64, judgement: Judgement)
    requires
        s.wf(),
        s.in_flight < s.limit,
        s.current.cancelled < usize::MAX,
        semaphore::has_room(s.current, sample.latency),
    ensures
        semaphore::given_up(semaphore::taken(s).0).in_flight == s.in_flight,
        semaphore::released(semaphore::taken(s).0, sample, elapsed, judgement).in_flight
            == s.in_flight,
{
}

/// One operation at least may run against a host, and as many as are asked for; at first two fetches
/// for each processor may run, and sixteen at most.
pub proof fn law_fixed_limits(n: int)
    requires
        n >= 0,
    ensures
        semaphore::host_limit(n) >= 1,
        n >= 1 ==> semaphore::host_limit(n) == n,
        n <= 8 ==> semaphore::first_fetches(n) == 2 * n,
        n >= 8 ==> semaphore::first_fetches(n) == 16,
{
}

/// A number is kept within its bounds, and is as given where it lies within them.
pub proof fn law_within_bounds(x: int, low: int, high: int)
    requires
        low <= high,
    ensures
        low <= semaphore::clamped(x, low, high) <= high,
        low <= x <= high ==> semaphore::clamped(x, low, high) == x,
        x < low ==> semaphore::clamped(x, low, high) == low,
        x > high ==> semaphore::clamped(x, low, high) == high,
{
}

/// Work that is given up is counted as such, and is neither a piece of work that was done nor an
/// error; work that was done is counted with its latency, and as an error if it was one.
pub proof fn law_work_is_counted(s: AdaptiveSemaphore, sample: Sample)
    requires
        s.current.cancelled < usize::MAX,
        semaphore::has_room(s.current, sample.latency),
    ensures
        ({
            let after = semaphore::given_up(s).current;
            &&& after.cancelled == s.current.cancelled + 1
            &&& after.completed == s.current.completed && after.errors == s.current.errors
            &&& after.total_latency == s.current.total_latency
        }),
        ({
            let after = semaphore::recorded(s.current, sample);
            &&& after.completed == s.current.completed + 1
            &&& sample.is_error ==> after.errors == s.current.errors + 1
            &&& !sample.is_error ==> after.errors == s.current.errors
            &&& after.total_latency == s.current.total_latency + sample.latency
            &&& after.cancelled == s.current.cancelled
        }),
{
}

} // verus!
