use everything_imu::latency::{
    push_capped, LatencyHistory, LatencyTracker, DEFAULT_HISTORY_LEN, WINDOW,
};
use std::collections::VecDeque;
use std::time::{Duration, Instant};

/// The per-second pipeline snapshot the application keeps in its history.
#[derive(Debug, Clone, Copy, Default)]
struct LatencySnapshot {
    interval_us_p50: f32,
}

fn stddev(values: &[u32]) -> f64 {
    let n = values.len() as f64;
    if n < 2.0 {
        return 0.0;
    }
    let mean = values.iter().map(|&v| v as f64).sum::<f64>() / n;
    let var = values.iter().map(|&v| (v as f64 - mean) * (v as f64 - mean)).sum::<f64>() / (n - 1.0);
    var.sqrt()
}

#[test]
fn empty_tracker_yields_zero_snapshot() {
    let snap = LatencyTracker::new().window_stats();
    assert_eq!(snap.samples_window, 0);
    assert_eq!(snap.interval_us_p50, 0);
}

#[test]
fn percentiles_track_synthetic_intervals() {
    let mut t = LatencyTracker::new();
    let mut now = Instant::now();
    // 100 batches at exactly 1000us interval
    for _ in 0..101 {
        t.record_arrival(now);
        now += Duration::from_micros(1000);
    }
    let snap = t.window_stats();
    assert_eq!(snap.samples_window, 100);
    // tight distribution — all percentiles equal, zero jitter
    assert_eq!(snap.interval_us_p50, 1000);
    assert_eq!(snap.interval_us_p95, 1000);
    assert_eq!(snap.interval_us_p99, 1000);
    assert!(stddev(&t.intervals_us()) < 1.0);
    assert_eq!(snap.dropped_estimate, 0);
}

#[test]
fn drops_detected_on_doubled_intervals() {
    let mut t = LatencyTracker::new();
    let mut now = Instant::now();
    for i in 0..50 {
        t.record_arrival(now);
        // every 10th sample is a 3000us gap
        now += Duration::from_micros(if i % 10 == 9 { 3000 } else { 1000 });
    }
    let snap = t.window_stats();
    // median = 1000, gaps of 3000 > 2*1000 → counted
    assert!(snap.dropped_estimate >= 4);
}

#[test]
fn send_latency_recorded() {
    let mut t = LatencyTracker::new();
    t.record_send(Duration::from_micros(500));
    t.record_send(Duration::from_micros(1500));
    t.record_send(Duration::from_micros(2500));
    let snap = t.window_stats();
    assert_eq!(snap.send_us_p50, 1500);
}

#[test]
fn first_arrival_has_no_interval() {
    let mut t = LatencyTracker::new();
    let now = Instant::now();
    assert!(t.record_arrival(now).is_none());
    assert_eq!(
        t.record_arrival(now + Duration::from_micros(250)),
        Some(Duration::from_micros(250))
    );
    assert_eq!(t.intervals_us(), vec![250]);
}

#[test]
fn earlier_arrival_saturates_to_zero() {
    let mut t = LatencyTracker::new();
    let now = Instant::now() + Duration::from_secs(1);
    t.record_arrival(now);
    t.record_arrival(now - Duration::from_micros(10));
    assert_eq!(t.intervals_us(), vec![0]);
}

#[test]
fn huge_send_saturates_at_u32_max() {
    let mut t = LatencyTracker::default();
    t.record_send(Duration::from_secs(10_000));
    assert_eq!(t.window_stats().send_us_p50, u32::MAX);
}

#[test]
fn percentiles_round_half_up_on_index() {
    let mut t = LatencyTracker::new();
    for v in [40u64, 10, 30, 20] {
        t.record_send(Duration::from_micros(v));
    }
    let s = t.window_stats();
    // sorted [10, 20, 30, 40]: p50 index round(1.5) = 2, p95 index round(2.85) = 3
    assert_eq!(s.send_us_p50, 30);
    assert_eq!(s.send_us_p95, 40);
}

#[test]
fn window_keeps_newest_samples() {
    let mut q: VecDeque<u32> = VecDeque::new();
    for v in 0..(WINDOW as u32 + 10) {
        push_capped(&mut q, v);
    }
    assert_eq!(q.len(), WINDOW);
    assert_eq!(q.front(), Some(&10));
    assert_eq!(q.back(), Some(&(WINDOW as u32 + 9)));
}

#[test]
fn history_appends_in_order_and_caps() {
    let mut h = LatencyHistory::new(3);
    for i in 0..5u32 {
        let snap = LatencySnapshot {
            interval_us_p50: i as f32,
            ..Default::default()
        };
        h.push(snap);
    }
    assert_eq!(h.len(), 3, "buffer must cap at requested capacity");
    let snap = h.snapshot();
    let p50s: Vec<u32> = snap.iter().map(|s| s.interval_us_p50 as u32).collect();
    assert_eq!(p50s, vec![2, 3, 4], "oldest entries evicted first");
    assert_eq!(h.latest().unwrap().interval_us_p50, 4.0);
}

#[test]
fn history_default_capacity_is_documented_constant() {
    let h: LatencyHistory<LatencySnapshot> = LatencyHistory::default();
    assert_eq!(h.capacity(), DEFAULT_HISTORY_LEN);
}

#[test]
fn history_empty_yields_no_latest() {
    let h: LatencyHistory<LatencySnapshot> = LatencyHistory::new(8);
    assert!(h.is_empty());
    assert!(h.latest().is_none());
    assert!(h.snapshot().is_empty());
}

#[test]
fn history_clear_drops_everything() {
    let mut h = LatencyHistory::new(8);
    h.push(LatencySnapshot::default());
    h.clear();
    assert!(h.is_empty());
}

#[test]
fn history_capacity_zero_treated_as_one() {
    let mut h = LatencyHistory::new(0);
    let s1 = LatencySnapshot {
        interval_us_p50: 1.0,
        ..Default::default()
    };
    let s2 = LatencySnapshot {
        interval_us_p50: 2.0,
        ..Default::default()
    };
    h.push(s1);
    h.push(s2);
    // Cap clamped to 1; only most recent retained.
    assert_eq!(h.len(), 1);
    assert_eq!(h.latest().unwrap().interval_us_p50, 2.0);
}

#[test]
fn history_holds_newest_cap_entries_after_many_pushes() {
    let mut h = LatencyHistory::new(4);
    for i in 0..11u32 {
        h.push(i);
    }
    assert_eq!(h.snapshot(), vec![7, 8, 9, 10]);
    assert_eq!(h.capacity(), 4);
}
