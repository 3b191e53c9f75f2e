use rsplug::semaphore::{
    fetch_initial_limit, host_cap, AdaptiveSemaphore, Judgement, Sample, Swing, Trend, WindowStats,
    MAX_ADJUST_INTERVAL, MIN_ADJUST_INTERVAL,
};
use std::time::Duration;

const MILLI: u64 = 1_000_000;

#[derive(Clone, Copy)]
struct Snapshot {
    throughput: f64,
    avg_latency: Duration,
}

/// The measures of a window, which the semaphore leaves to its user.
struct Measured {
    semaphore: AdaptiveSemaphore,
    previous: Option<Snapshot>,
}

fn relative_change(now: f64, before: f64) -> f64 {
    ((now - before) / before.abs().max(f64::EPSILON)).abs()
}

fn judge(current: &WindowStats, now: Snapshot, before: Snapshot) -> Judgement {
    let error_rate = current.errors as f64 / current.completed as f64;
    let trend = if error_rate > 0.01
        || now.throughput < before.throughput * 0.95
        || now.avg_latency > before.avg_latency.mul_f64(1.5)
    {
        Trend::Worse
    } else if now.throughput > before.throughput * 1.05
        && now.avg_latency < before.avg_latency.mul_f64(1.25)
    {
        Trend::Better
    } else {
        Trend::Steady
    };
    let volatility = relative_change(now.throughput, before.throughput)
        .max(relative_change(
            now.avg_latency.as_secs_f64(),
            before.avg_latency.as_secs_f64(),
        ))
        .max(error_rate);
    let swing = if volatility >= 0.5 {
        Swing::Large
    } else if volatility >= 0.15 {
        Swing::Moderate
    } else {
        Swing::Small
    };
    Judgement { trend, swing }
}

fn measured(initial: usize, interval: u64) -> Measured {
    Measured {
        semaphore: AdaptiveSemaphore::with_limits(initial, 1, 256, interval),
        previous: None,
    }
}

fn record_window(
    m: &mut Measured,
    completed: usize,
    latency: Duration,
    errors: usize,
    elapsed: Duration,
) {
    for i in 0..completed {
        m.semaphore.record(Sample {
            latency: latency.as_nanos(),
            is_error: i < errors,
        });
    }
    let now = Snapshot {
        throughput: m.semaphore.current.completed as f64
            / elapsed.as_secs_f64().max(f64::EPSILON),
        avg_latency: Duration::from_nanos(m.semaphore.current.avg_latency() as u64),
    };
    let judgement = judge(&m.semaphore.current, now, m.previous.unwrap_or(now));
    m.semaphore.adjust(judgement);
    m.previous = Some(now);
}

#[test]
fn lib_increases_when_throughput_improves_without_latency_regression() {
    let mut m = measured(16, MIN_ADJUST_INTERVAL);
    let second = Duration::from_secs(1);
    record_window(&mut m, 100, Duration::from_millis(10), 0, second);
    record_window(&mut m, 110, Duration::from_millis(11), 0, second);
    assert_eq!(m.semaphore.limit, 17);
}

#[test]
fn lib_halves_when_throughput_regresses() {
    let mut m = measured(16, MIN_ADJUST_INTERVAL);
    let second = Duration::from_secs(1);
    record_window(&mut m, 100, Duration::from_millis(10), 0, second);
    record_window(&mut m, 90, Duration::from_millis(10), 0, second);
    assert_eq!(m.semaphore.limit, 8);
}

#[test]
fn lib_halves_when_latency_regresses_sharply() {
    let mut m = measured(16, MIN_ADJUST_INTERVAL);
    let second = Duration::from_secs(1);
    record_window(&mut m, 100, Duration::from_millis(10), 0, second);
    record_window(&mut m, 100, Duration::from_millis(16), 0, second);
    assert_eq!(m.semaphore.limit, 8);
}

#[test]
fn lib_respects_min_and_max_limits() {
    let second = Duration::from_secs(1);
    let mut min = measured(1, 0);
    record_window(&mut min, 100, Duration::from_millis(10), 0, second);
    record_window(&mut min, 90, Duration::from_millis(10), 0, second);
    assert_eq!(min.semaphore.limit, 1);

    let mut max = measured(256, 0);
    record_window(&mut max, 100, Duration::from_millis(10), 0, second);
    record_window(&mut max, 110, Duration::from_millis(11), 0, second);
    assert_eq!(max.semaphore.limit, 256);
}

#[test]
fn lib_halves_when_error_rate_is_high() {
    let mut m = measured(16, MIN_ADJUST_INTERVAL);
    let second = Duration::from_secs(1);
    record_window(&mut m, 100, Duration::from_millis(10), 0, second);
    record_window(&mut m, 100, Duration::from_millis(10), 2, second);
    assert_eq!(m.semaphore.limit, 8);
}

#[test]
fn lib_shortens_adjust_interval_when_metrics_swing() {
    let mut m = measured(16, 200 * MILLI);
    let second = Duration::from_secs(1);
    record_window(&mut m, 100, Duration::from_millis(10), 0, second);
    record_window(&mut m, 50, Duration::from_millis(20), 0, second);
    assert_eq!(m.semaphore.adjust_interval, 100 * MILLI);
}

#[test]
fn lib_lengthens_adjust_interval_when_metrics_are_stable() {
    let mut m = measured(16, 100 * MILLI);
    let second = Duration::from_secs(1);
    record_window(&mut m, 100, Duration::from_millis(10), 0, second);
    record_window(&mut m, 102, Duration::from_millis(10), 0, second);
    assert_eq!(m.semaphore.adjust_interval, 200 * MILLI);
}

#[test]
fn lib_clamps_adjust_interval() {
    let min = AdaptiveSemaphore::with_limits(16, 1, 256, MILLI);
    assert_eq!(min.adjust_interval, MIN_ADJUST_INTERVAL);

    let max = AdaptiveSemaphore::with_limits(16, 1, 256, 10_000 * MILLI);
    assert_eq!(max.adjust_interval, MAX_ADJUST_INTERVAL);
}

const STEADY: Judgement = Judgement {
    trend: Trend::Steady,
    swing: Swing::Moderate,
};

#[test]
fn a_limit_of_one_lets_one_in_at_a_time() {
    let mut s = AdaptiveSemaphore::with_limits(1, 1, 1, MIN_ADJUST_INTERVAL);
    assert!(s.acquire());
    assert!(!s.acquire());
    let ok = Sample {
        latency: 5,
        is_error: false,
    };
    assert!(s.release(ok, 0, STEADY));
    assert!(s.acquire());
}

#[test]
fn work_that_ends_is_one_sample() {
    let mut s = AdaptiveSemaphore::new();
    assert!(s.acquire());
    assert_eq!(s.in_flight, 1);
    let failed = Sample {
        latency: 7,
        is_error: true,
    };
    s.release(failed, 0, STEADY);
    assert_eq!(
        (s.current.completed, s.current.errors, s.current.cancelled),
        (1, 1, 0)
    );
    assert_eq!((s.in_flight, s.current.total_latency), (0, 7));
}

#[test]
fn work_that_is_given_up_is_no_sample() {
    let mut s = AdaptiveSemaphore::with_limits(8, 1, 256, MIN_ADJUST_INTERVAL);
    assert!(s.acquire());
    assert!(s.give_up());
    assert_eq!(
        (s.current.completed, s.current.errors, s.current.cancelled),
        (0, 0, 1)
    );
    assert_eq!((s.in_flight, s.limit), (0, 8));
}

#[test]
fn a_window_is_judged_when_its_time_is_over() {
    let mut s = AdaptiveSemaphore::with_limits(16, 1, 256, MIN_ADJUST_INTERVAL);
    let worse = Judgement {
        trend: Trend::Worse,
        swing: Swing::Small,
    };
    let ok = Sample {
        latency: 1,
        is_error: false,
    };
    s.acquire();
    s.release(ok, MIN_ADJUST_INTERVAL, worse);
    assert_eq!((s.limit, s.current.completed), (16, 0));
    s.acquire();
    s.release(ok, MIN_ADJUST_INTERVAL - 1, worse);
    assert_eq!((s.limit, s.current.completed), (16, 1));
    s.acquire();
    s.release(ok, MIN_ADJUST_INTERVAL, worse);
    assert_eq!((s.limit, s.current.completed), (8, 0));
    assert_eq!(s.adjust_interval, 2 * MIN_ADJUST_INTERVAL);
}

#[test]
fn work_that_ends_is_counted_before_the_window_is_judged() {
    let mut s = AdaptiveSemaphore::with_limits(2, 1, 256, MIN_ADJUST_INTERVAL);
    let sample = |is_error: bool| Sample {
        latency: 5,
        is_error,
    };
    assert!(s.acquire() && s.acquire());
    assert!(!s.has_slot());
    assert!(!s.complete(sample(true), MIN_ADJUST_INTERVAL - 1));
    assert!(s.has_slot());
    assert!(s.complete(sample(false), MIN_ADJUST_INTERVAL));
    assert_eq!(
        (s.current.completed, s.current.errors, s.current.total_latency),
        (2, 1, 10)
    );
    assert_eq!((s.in_flight, s.limit), (0, 2));
    assert!(s.fits(u128::MAX - 10) && !s.fits(u128::MAX - 9));
}

#[test]
fn limits_of_hosts_and_processors() {
    assert_eq!((host_cap(0), host_cap(1), host_cap(9)), (1, 1, 9));
    assert_eq!(
        (
            fetch_initial_limit(1),
            fetch_initial_limit(7),
            fetch_initial_limit(64)
        ),
        (2, 14, 16)
    );
}

#[test]
fn limits_are_put_in_order() {
    let s = AdaptiveSemaphore::with_limits(500, 0, 0, 0);
    assert_eq!((s.limit, s.min_limit, s.max_limit), (1, 1, 1));
    let d = AdaptiveSemaphore::new();
    assert_eq!((d.limit, d.min_limit, d.max_limit), (16, 1, 256));
}
