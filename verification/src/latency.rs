//! Rolling-window latency / jitter tracker for a single device pipeline.
//!
//! Tracks two distributions over a fixed sample window of [`WINDOW`] batches:
//!
//! 1. **inter-batch interval** — `now - prev_now` on every batch arrival.
//! 2. **send latency** — time spent inside one UDP send call.
//!
//! Percentiles are computed on demand from a sorted copy of the window.

use std::collections::VecDeque;
use std::time::{Duration, Instant};
use vstd::prelude::*;
use vstd::relations::{sorted_by, total_ordering};

verus! {

/// Number of samples each distribution keeps.
pub const WINDOW: usize = 256;

/// Number of snapshots kept by a default [`LatencyHistory`]: 120 entries at
/// one snapshot per second is two minutes of history.
pub const DEFAULT_HISTORY_LEN: usize = 120;

/// `q` after appending `v` to a ring of capacity `cap`: when the ring holds
/// `cap` entries the oldest one is evicted first.
pub open spec fn capped_push<T>(q: Seq<T>, v: T, cap: int) -> Seq<T> {
    if q.len() == cap {
        q.drop_first().push(v)
    } else {
        q.push(v)
    }
}

/// Append `v` to a sample window, evicting the oldest sample once the
/// window holds [`WINDOW`] samples.
pub fn push_capped(q: &mut VecDeque<u32>, v: u32)
    ensures
        final(q)@ == capped_push(old(q)@, v, WINDOW as int),
{
    broadcast use vstd::std_specs::vecdeque::group_vec_dequeue_axioms;

    if q.len() == WINDOW {
        q.pop_front();
        assert(old(q)@.subrange(1, old(q)@.len() as int) =~= old(q)@.drop_first());
    }
    q.push_back(v);
}

/// The ordering samples are sorted by.
pub open spec fn u32_leq() -> spec_fn(u32, u32) -> bool {
    |a: u32, b: u32| a <= b
}

/// The samples of `s` in ascending order.
pub open spec fn sorted_window(s: Seq<u32>) -> Seq<u32> {
    s.sort_by(u32_leq())
}

/// Index of the `pct`-th percentile in a sorted sequence of length `len`:
/// `(len - 1) * pct / 100`, rounded half away from zero.
pub open spec fn percentile_index(len: int, pct: int) -> int {
    ((len - 1) * pct + 50) / 100
}

/// The `pct`-th percentile of an ascending sequence; `0` when it is empty.
pub open spec fn spec_percentile(sorted: Seq<u32>, pct: int) -> u32 {
    if sorted.len() == 0 {
        0
    } else {
        let idx = percentile_index(sorted.len() as int, pct);
        sorted[if idx < sorted.len() - 1 { idx } else { sorted.len() - 1 }]
    }
}

/// `x.saturating_mul(2)`.
pub open spec fn saturating_double(x: u32) -> int {
    if 2 * x > u32::MAX {
        u32::MAX as int
    } else {
        2 * x
    }
}

/// A sample above twice the median `p50`.
pub open spec fn above_double(p50: u32) -> spec_fn(u32) -> bool {
    |v: u32| v > saturating_double(p50)
}

/// Number of samples above twice the median: each such gap counts as one
/// missed batch.
pub open spec fn spec_dropped(s: Seq<u32>, p50: u32) -> nat {
    s.filter(above_double(p50)).len()
}

proof fn lemma_u32_leq_total()
    ensures
        total_ordering(u32_leq()),
{
}

proof fn lemma_insert_sorted(v: Seq<u32>, pos: int, x: u32)
    requires
        sorted_by(v, u32_leq()),
        0 <= pos <= v.len(),
        forall|j: int| 0 <= j < pos ==> v[j] <= x,
        forall|j: int| pos <= j < v.len() ==> v[j] > x,
    ensures
        sorted_by(v.insert(pos, x), u32_leq()),
        v.insert(pos, x).to_multiset() =~= v.to_multiset().insert(x),
{
    broadcast use vstd::seq_lib::group_to_multiset_ensures;
    broadcast use vstd::multiset::group_multiset_axioms;

    let w = v.insert(pos, x);
    assert(w.remove(pos) =~= v);
    assert(w[pos] == x);
    assert(w.to_multiset().count(x) > 0);
    assert(w.to_multiset() =~= w.to_multiset().remove(x).insert(x));
}

/// The samples of `q` in ascending order.
fn sorted_samples(q: &VecDeque<u32>) -> (v: Vec<u32>)
    ensures
        v@ == sorted_window(q@),
        v@.len() == q@.len(),
{
    broadcast use vstd::std_specs::vecdeque::group_vec_dequeue_axioms;
    broadcast use vstd::seq_lib::group_to_multiset_ensures;

    let n = q.len();
    let mut v: Vec<u32> = Vec::new();
    let mut i: usize = 0;
    while i < n
        invariant
            n == q@.len(),
            i <= n,
            v@.len() == i,
            sorted_by(v@, u32_leq()),
            v@.to_multiset() =~= q@.take(i as int).to_multiset(),
        decreases n - i,
    {
        let x = q[i];
        let mut pos: usize = 0;
        while pos < v.len() && v[pos] <= x
            invariant
                pos <= v@.len(),
                forall|j: int| 0 <= j < pos ==> v@[j] <= x,
            decreases v@.len() - pos,
        {
            pos = pos + 1;
        }
        assert forall|j: int| pos <= j < v@.len() implies v@[j] > x by {
            assert(u32_leq()(v@[pos as int], v@[j]));
        }
        proof {
            lemma_insert_sorted(v@, pos as int, x);
        }
        let ghost before = v@;
        v.insert(pos, x);
        assert(q@.take(i + 1) =~= q@.take(i as int).push(x));
        proof {
            q@.take(i as int).to_multiset_ensures();
        }
        assert(v@.to_multiset() =~= before.to_multiset().insert(x));
        i = i + 1;
    }
    assert(q@.take(n as int) =~= q@);
    proof {
        lemma_u32_leq_total();
        q@.lemma_sort_by_ensures(u32_leq());
        vstd::seq_lib::lemma_sorted_unique(v@, sorted_window(q@), u32_leq());
    }
    v
}

/// The `pct`-th percentile of an ascending slice (`0` when empty).
fn percentile(sorted: &[u32], pct: usize) -> (r: u32)
    requires
        pct <= 100,
        sorted@.len() <= WINDOW,
    ensures
        r == spec_percentile(sorted@, pct as int),
{
    if sorted.len() == 0 {
        return 0;
    }
    let n1 = sorted.len() - 1;
    assert(n1 * pct <= 25500) by (nonlinear_arith)
        requires
            n1 <= 255,
            pct <= 100,
    ;
    let idx = (n1 * pct + 50) / 100;
    let last = sorted.len() - 1;
    sorted[if idx < last { idx } else { last }]
}

/// Number of samples above `p50.saturating_mul(2)`.
fn count_dropped(s: &[u32], p50: u32) -> (r: u32)
    requires
        s@.len() <= WINDOW,
    ensures
        r == spec_dropped(s@, p50),
{
    let limit: u32 = if p50 > u32::MAX / 2 { u32::MAX } else { p50 * 2 };
    let mut count: u32 = 0;
    let mut i: usize = 0;
    while i < s.len()
        invariant
            i <= s@.len(),
            s@.len() <= WINDOW,
            limit == saturating_double(p50),
            count == s@.take(i as int).filter(above_double(p50)).len(),
            count <= i,
        decreases s@.len() - i,
    {
        assert(s@.take(i + 1) =~= s@.take(i as int).push(s@[i as int]));
        proof {
            s@.take(i as int).lemma_filter_len_push(above_double(p50), s@[i as int]);
        }
        assert(above_double(p50)(s@[i as int]) == (s@[i as int] > limit));
        if s[i] > limit {
            count = count + 1;
        }
        i = i + 1;
    }
    assert(s@.take(i as int) =~= s@);
    count
}

} // verus!

verus! {

#[verifier::external_type_specification]
#[verifier::external_body]
pub struct ExInstant(Instant);

/// Name for what `Duration::as_micros` returns for a duration: its whole
/// number of microseconds.
pub uninterp spec fn duration_micros(d: Duration) -> u128;

/// `Duration::as_micros`. Claims only that the result is the named
/// microsecond count of `d`; the formula (seconds and sub-second
/// nanoseconds) is std's.
#[verifier::external_body]
fn duration_as_micros(d: Duration) -> (us: u128)
    ensures
        us == duration_micros(d),
{
    d.as_micros()
}

/// Name for what `Instant::saturating_duration_since` returns: the time
/// elapsed from `earlier` to `now`, zero when `earlier` is the later one.
pub uninterp spec fn elapsed_since(now: Instant, earlier: Instant) -> Duration;

/// `Instant::saturating_duration_since`. Claims only that the result is the
/// named elapsed time from `earlier` to `now`, a function of the two
/// instants alone.
#[verifier::external_body]
fn saturating_duration_since(now: Instant, earlier: Instant) -> (d: Duration)
    ensures
        d == elapsed_since(now, earlier),
{
    now.saturating_duration_since(earlier)
}

/// Microsecond count of `d`, saturated to `u32::MAX`.
pub open spec fn capped_micros(d: Duration) -> u32 {
    if duration_micros(d) > u32::MAX as u128 {
        u32::MAX
    } else {
        duration_micros(d) as u32
    }
}

fn micros_u32(d: Duration) -> (us: u32)
    ensures
        us == capped_micros(d),
{
    let m = duration_as_micros(d);
    if m > 4294967295u128 {
        u32::MAX
    } else {
        m as u32
    }
}

/// Integer statistics of the two windows at one moment.
#[derive(Debug, Clone, Copy, PartialEq, Eq)]
pub struct WindowStats {
    /// Inter-batch interval percentiles (microseconds).
    pub interval_us_p50: u32,
    pub interval_us_p95: u32,
    pub interval_us_p99: u32,
    /// UDP send-call latency percentiles (microseconds).
    pub send_us_p50: u32,
    pub send_us_p95: u32,
    /// Estimated dropped batches inside the window: any interval above
    /// twice the median is counted as one miss.
    pub dropped_estimate: u32,
    /// Number of intervals currently in the window.
    pub samples_window: u32,
}

/// The statistics that a window of intervals `iv` and of send durations
/// `sv` give.
pub open spec fn spec_window_stats(iv: Seq<u32>, sv: Seq<u32>) -> WindowStats {
    let si = sorted_window(iv);
    let ss = sorted_window(sv);
    WindowStats {
        interval_us_p50: spec_percentile(si, 50),
        interval_us_p95: spec_percentile(si, 95),
        interval_us_p99: spec_percentile(si, 99),
        send_us_p50: spec_percentile(ss, 50),
        send_us_p95: spec_percentile(ss, 95),
        dropped_estimate: spec_dropped(si, spec_percentile(si, 50)) as u32,
        samples_window: iv.len() as u32,
    }
}

/// Inter-batch and send-latency windows of one device pipeline.
pub struct LatencyTracker {
    intervals_us: VecDeque<u32>,
    sends_us: VecDeque<u32>,
    prev_arrival: Option<Instant>,
}

impl LatencyTracker {
    /// The inter-batch intervals in the window, oldest first (microseconds).
    pub closed spec fn intervals(&self) -> Seq<u32> {
        self.intervals_us@
    }

    /// The send durations in the window, oldest first (microseconds).
    pub closed spec fn sends(&self) -> Seq<u32> {
        self.sends_us@
    }

    /// The last recorded arrival, if any.
    pub closed spec fn prev_arrival(&self) -> Option<Instant> {
        self.prev_arrival
    }

    /// Neither window holds more than [`WINDOW`] samples.
    #[verifier::type_invariant]
    spec fn windows_bounded(self) -> bool {
        &&& self.intervals_us@.len() <= WINDOW
        &&& self.sends_us@.len() <= WINDOW
    }

    pub fn new() -> (t: Self)
        ensures
            t.intervals() == Seq::<u32>::empty(),
            t.sends() == Seq::<u32>::empty(),
            t.prev_arrival() is None,
    {
        Self {
            intervals_us: VecDeque::with_capacity(WINDOW),
            sends_us: VecDeque::with_capacity(WINDOW),
            prev_arrival: None,
        }
    }

    /// Record a batch arrival. Returns the inter-batch interval if a
    /// previous arrival is known, and adds it (in whole microseconds,
    /// saturated to `u32::MAX`) to the interval window.
    pub fn record_arrival(&mut self, now: Instant) -> (r: Option<Duration>)
        ensures
            old(self).intervals().len() <= WINDOW,
            old(self).sends().len() <= WINDOW,
            final(self).intervals().len() <= WINDOW,
            final(self).sends().len() <= WINDOW,
            final(self).prev_arrival() == Some(now),
            final(self).sends() == old(self).sends(),
            old(self).prev_arrival() is None ==> r is None && final(self).intervals() == old(
                self,
            ).intervals(),
            old(self).prev_arrival() is Some ==> r == Some(
                elapsed_since(now, old(self).prev_arrival()->0),
            ),
            old(self).prev_arrival() is Some ==> final(self).intervals() == capped_push(
                old(self).intervals(),
                capped_micros(elapsed_since(now, old(self).prev_arrival()->0)),
                WINDOW as int,
            ),
    {
        proof {
            use_type_invariant(&*self);
        }
        let prev = self.prev_arrival;
        self.prev_arrival = Some(now);
        match prev {
            None => None,
            Some(p) => {
                let dt = saturating_duration_since(now, p);
                let us = micros_u32(dt);
                let mut window = VecDeque::new();
                std::mem::swap(&mut window, &mut self.intervals_us);
                push_capped(&mut window, us);
                self.intervals_us = window;
                Some(dt)
            },
        }
    }

    /// Record one UDP send-call duration.
    pub fn record_send(&mut self, dur: Duration)
        ensures
            old(self).intervals().len() <= WINDOW,
            old(self).sends().len() <= WINDOW,
            final(self).intervals().len() <= WINDOW,
            final(self).sends().len() <= WINDOW,
            final(self).prev_arrival() == old(self).prev_arrival(),
            final(self).intervals() == old(self).intervals(),
            final(self).sends() == capped_push(old(self).sends(), capped_micros(dur), WINDOW as int),
    {
        proof {
            use_type_invariant(&*self);
        }
        let us = micros_u32(dur);
        let mut window = VecDeque::new();
        std::mem::swap(&mut window, &mut self.sends_us);
        push_capped(&mut window, us);
        self.sends_us = window;
    }

    /// The inter-batch intervals in the window, oldest first.
    pub fn intervals_us(&self) -> (v: Vec<u32>)
        ensures
            self.intervals().len() <= WINDOW,
            self.sends().len() <= WINDOW,
            v@ == self.intervals(),
    {
        proof {
            use_type_invariant(self);
        }
        broadcast use vstd::std_specs::vecdeque::group_vec_dequeue_axioms;

        let mut v: Vec<u32> = Vec::new();
        let mut i: usize = 0;
        while i < self.intervals_us.len()
            invariant
                i <= self.intervals_us@.len(),
                v@ == self.intervals_us@.take(i as int),
            decreases self.intervals_us@.len() - i,
        {
            v.push(self.intervals_us[i]);
            assert(self.intervals_us@.take(i + 1) =~= self.intervals_us@.take(i as int).push(
                self.intervals_us@[i as int],
            ));
            i = i + 1;
        }
        assert(self.intervals_us@.take(i as int) =~= self.intervals_us@);
        v
    }

    /// Percentiles, drop estimate and window size of the current windows.
    pub fn window_stats(&self) -> (s: WindowStats)
        ensures
            self.intervals().len() <= WINDOW,
            self.sends().len() <= WINDOW,
            s == spec_window_stats(self.intervals(), self.sends()),
    {
        proof {
            use_type_invariant(self);
        }
        let iv = sorted_samples(&self.intervals_us);
        let sv = sorted_samples(&self.sends_us);
        let p50 = percentile(iv.as_slice(), 50);
        let dropped = count_dropped(iv.as_slice(), p50);
        WindowStats {
            interval_us_p50: p50,
            interval_us_p95: percentile(iv.as_slice(), 95),
            interval_us_p99: percentile(iv.as_slice(), 99),
            send_us_p50: percentile(sv.as_slice(), 50),
            send_us_p95: percentile(sv.as_slice(), 95),
            dropped_estimate: dropped,
            samples_window: iv.len() as u32,
        }
    }
}

} // verus!

verus! {

/// Bounded-capacity ring of past snapshots suitable for rendering a
/// sparkline without growing memory unboundedly.
///
/// Append cadence is owned by the caller (typically one snapshot per
/// second). The ring evicts the oldest entry once full, so it always holds
/// the most recent `cap` snapshots.
#[derive(Debug)]
pub struct LatencyHistory<T> {
    samples: VecDeque<T>,
    cap: usize,
}

impl<T> LatencyHistory<T> {
    /// The capacity is at least one and never exceeded.
    #[verifier::type_invariant]
    spec fn ring_bounded(self) -> bool {
        &&& self.cap >= 1
        &&& self.samples@.len() <= self.cap
    }
}

impl<T: Copy> LatencyHistory<T> {
    /// The stored snapshots, oldest first.
    pub closed spec fn entries(&self) -> Seq<T> {
        self.samples@
    }

    /// The number of snapshots the ring keeps.
    pub closed spec fn spec_capacity(&self) -> usize {
        self.cap
    }

    /// The capacity is at least one and never exceeded (this always holds).
    pub open spec fn well_formed(&self) -> bool {
        &&& self.spec_capacity() >= 1
        &&& self.entries().len() <= self.spec_capacity()
    }

    /// An empty ring of capacity `cap`; a capacity of zero is treated as one.
    pub fn new(cap: usize) -> (h: Self)
        ensures
            h.well_formed(),
            h.entries() == Seq::<T>::empty(),
            h.spec_capacity() == if cap == 0 { 1 } else { cap },
    {
        let cap = if cap == 0 { 1 } else { cap };
        let hint = if cap < 1024 { cap } else { 1024 };
        Self { samples: VecDeque::with_capacity(hint), cap }
    }

    /// Append a snapshot, evicting the oldest entry if the ring is full.
    pub fn push(&mut self, snap: T)
        ensures
            old(self).well_formed(),
            final(self).well_formed(),
            final(self).spec_capacity() == old(self).spec_capacity(),
            final(self).entries() == capped_push(
                old(self).entries(),
                snap,
                old(self).spec_capacity() as int,
            ),
    {
        broadcast use vstd::std_specs::vecdeque::group_vec_dequeue_axioms;

        proof {
            use_type_invariant(&*self);
        }
        let mut ring = VecDeque::new();
        std::mem::swap(&mut ring, &mut self.samples);
        if ring.len() == self.cap {
            ring.pop_front();
            assert(old(self).samples@.subrange(1, old(self).samples@.len() as int)
                =~= old(self).samples@.drop_first());
        }
        ring.push_back(snap);
        self.samples = ring;
    }

    pub fn len(&self) -> (n: usize)
        ensures
            self.well_formed(),
            n == self.entries().len(),
    {
        proof {
            use_type_invariant(self);
        }
        broadcast use vstd::std_specs::vecdeque::group_vec_dequeue_axioms;

        self.samples.len()
    }

    pub fn is_empty(&self) -> (b: bool)
        ensures
            self.well_formed(),
            b == (self.entries().len() == 0),
    {
        proof {
            use_type_invariant(self);
        }
        broadcast use vstd::std_specs::vecdeque::group_vec_dequeue_axioms;

        self.samples.len() == 0
    }

    pub fn capacity(&self) -> (c: usize)
        ensures
            self.well_formed(),
            c == self.spec_capacity(),
    {
        proof {
            use_type_invariant(self);
        }
        self.cap
    }

    /// The ring as a vector, oldest first.
    pub fn snapshot(&self) -> (v: Vec<T>)
        ensures
            v@ == self.entries(),
    {
        broadcast use vstd::std_specs::vecdeque::group_vec_dequeue_axioms;

        let mut v: Vec<T> = Vec::new();
        let mut i: usize = 0;
        while i < self.samples.len()
            invariant
                i <= self.samples@.len(),
                v@ == self.samples@.take(i as int),
            decreases self.samples@.len() - i,
        {
            v.push(self.samples[i]);
            assert(self.samples@.take(i + 1) =~= self.samples@.take(i as int).push(
                self.samples@[i as int],
            ));
            i = i + 1;
        }
        assert(self.samples@.take(i as int) =~= self.samples@);
        v
    }

    /// Most recent entry, if any.
    pub fn latest(&self) -> (r: Option<T>)
        ensures
            r == (if self.entries().len() == 0 {
                None
            } else {
                Some(self.entries().last())
            }),
    {
        broadcast use vstd::std_specs::vecdeque::group_vec_dequeue_axioms;

        let n = self.samples.len();
        if n == 0 {
            None
        } else {
            Some(self.samples[n - 1])
        }
    }

    /// Drop every stored snapshot; the capacity is kept.
    pub fn clear(&mut self)
        ensures
            old(self).well_formed(),
            final(self).well_formed(),
            final(self).entries() == Seq::<T>::empty(),
            final(self).spec_capacity() == old(self).spec_capacity(),
    {
        proof {
            use_type_invariant(&*self);
        }
        self.samples = VecDeque::new();
    }
}

impl<T: Copy> Clone for LatencyHistory<T> {
    /// A ring with the same capacity and entries.
    fn clone(&self) -> (h: Self)
        ensures
            h.well_formed(),
            h.entries() == self.entries(),
            h.spec_capacity() == self.spec_capacity(),
    {
        broadcast use vstd::std_specs::vecdeque::group_vec_dequeue_axioms;

        proof {
            use_type_invariant(self);
        }
        let mut ring: VecDeque<T> = VecDeque::new();
        let mut i: usize = 0;
        while i < self.samples.len()
            invariant
                i <= self.samples@.len(),
                ring@ == self.samples@.take(i as int),
            decreases self.samples@.len() - i,
        {
            ring.push_back(self.samples[i]);
            assert(self.samples@.take(i + 1) =~= self.samples@.take(i as int).push(
                self.samples@[i as int],
            ));
            i = i + 1;
        }
        assert(self.samples@.take(i as int) =~= self.samples@);
        Self { samples: ring, cap: self.cap }
    }
}

impl<T: Copy> Default for LatencyHistory<T> {
    fn default() -> (h: Self)
        ensures
            h.well_formed(),
            h.entries() == Seq::<T>::empty(),
            h.spec_capacity() == DEFAULT_HISTORY_LEN,
    {
        Self::new(DEFAULT_HISTORY_LEN)
    }
}

impl Default for LatencyTracker {
    fn default() -> (t: Self)
        ensures
            t.intervals() == Seq::<u32>::empty(),
            t.sends() == Seq::<u32>::empty(),
            t.prev_arrival() is None,
    {
        Self::new()
    }
}

} // verus!

verus! {

/// `q` after pushing every element of `vs` in order into a ring of
/// capacity `cap`.
pub open spec fn capped_push_all<T>(q: Seq<T>, vs: Seq<T>, cap: int) -> Seq<T>
    decreases vs.len(),
{
    if vs.len() == 0 {
        q
    } else {
        capped_push(capped_push_all(q, vs.drop_last(), cap), vs.last(), cap)
    }
}

/// One push into a ring that respects its capacity keeps it within
/// capacity, ends with the pushed value, and drops at most the oldest entry.
pub proof fn lemma_capped_push<T>(q: Seq<T>, v: T, cap: int)
    requires
        1 <= cap,
        q.len() <= cap,
    ensures
        capped_push(q, v, cap).len() == (if q.len() < cap { q.len() as int + 1 } else { cap }),
        capped_push(q, v, cap).last() == v,
        capped_push(q, v, cap) == q.push(v).skip(q.len() + 1 - capped_push(q, v, cap).len()),
{
    if q.len() == cap {
        assert(q.drop_first().push(v) =~= q.push(v).skip(1));
    } else {
        assert(q.push(v) =~= q.push(v).skip(0));
    }
}

/// A ring that starts within capacity holds, after any run of pushes,
/// exactly the newest `cap` values of everything it has seen, oldest first.
pub proof fn lemma_ring_keeps_newest<T>(q: Seq<T>, vs: Seq<T>, cap: int)
    requires
        1 <= cap,
        q.len() <= cap,
    ensures
        capped_push_all(q, vs, cap) == (q + vs).skip(
            if q.len() + vs.len() > cap { q.len() + vs.len() - cap } else { 0 },
        ),
    decreases vs.len(),
{
    if vs.len() == 0 {
        assert(q + vs =~= q);
        assert(q.skip(0) =~= q);
    } else {
        let init = vs.drop_last();
        lemma_ring_keeps_newest(q, init, cap);
        let before = capped_push_all(q, init, cap);
        let k = if q.len() + init.len() > cap { q.len() + init.len() - cap } else { 0 };
        assert(before.len() <= cap);
        lemma_capped_push(before, vs.last(), cap);
        assert(q + vs =~= (q + init).push(vs.last()));
        let k2 = if q.len() + vs.len() > cap { q.len() + vs.len() - cap } else { 0 };
        let after = capped_push(before, vs.last(), cap);
        assert(after =~= (q + vs).skip(k2));
    }
}

/// The newest `WINDOW` samples of `vs`, oldest first.
pub open spec fn newest_samples(vs: Seq<u32>) -> Seq<u32> {
    vs.skip(if vs.len() > WINDOW { vs.len() - WINDOW } else { 0 })
}

/// A window that started empty holds, after recording the samples `vs` in
/// order, exactly their newest `WINDOW`; so the statistics of a tracker
/// after any run of recordings are those of the newest intervals and sends.
pub proof fn lemma_window_after_records(iv: Seq<u32>, sv: Seq<u32>)
    ensures
        capped_push_all(Seq::empty(), iv, WINDOW as int) == newest_samples(iv),
        capped_push_all(Seq::empty(), sv, WINDOW as int) == newest_samples(sv),
        spec_window_stats(
            capped_push_all(Seq::empty(), iv, WINDOW as int),
            capped_push_all(Seq::empty(), sv, WINDOW as int),
        ) == spec_window_stats(newest_samples(iv), newest_samples(sv)),
{
    lemma_ring_keeps_newest(Seq::<u32>::empty(), iv, WINDOW as int);
    lemma_ring_keeps_newest(Seq::<u32>::empty(), sv, WINDOW as int);
    assert(Seq::<u32>::empty() + iv =~= iv);
    assert(Seq::<u32>::empty() + sv =~= sv);
}

proof fn lemma_percentile_index_monotone(n: int, p: int, q: int)
    requires
        n >= 1,
        0 <= p <= q <= 100,
    ensures
        0 <= percentile_index(n, p) <= percentile_index(n, q) <= n - 1,
{
    assert((n - 1) * p <= (n - 1) * q) by (nonlinear_arith)
        requires
            n >= 1,
            p <= q,
    ;
    assert((n - 1) * q <= (n - 1) * 100) by (nonlinear_arith)
        requires
            n >= 1,
            q <= 100,
    ;
    assert(0 <= (n - 1) * p) by (nonlinear_arith)
        requires
            n >= 1,
            0 <= p,
    ;
}

/// Percentiles of a window never decrease with the percentage: the median
/// is at most the 95th percentile, which is at most the 99th.
pub proof fn lemma_percentiles_ordered(s: Seq<u32>, p: int, q: int)
    requires
        0 <= p <= q <= 100,
    ensures
        spec_percentile(sorted_window(s), p) <= spec_percentile(sorted_window(s), q),
{
    lemma_u32_leq_total();
    s.lemma_sort_by_ensures(u32_leq());
    let t = sorted_window(s);
    if t.len() > 0 {
        lemma_percentile_index_monotone(t.len() as int, p, q);
        let i = percentile_index(t.len() as int, p);
        let j = percentile_index(t.len() as int, q);
        if i < j {
            assert(u32_leq()(t[i], t[j]));
        }
    }
}

/// The estimate of dropped batches never exceeds the number of intervals.
pub proof fn lemma_dropped_within_window(iv: Seq<u32>)
    ensures
        spec_dropped(sorted_window(iv), spec_percentile(sorted_window(iv), 50)) <= iv.len(),
{
    lemma_u32_leq_total();
    iv.lemma_sort_by_ensures(u32_leq());
    let t = sorted_window(iv);
    broadcast use vstd::seq_lib::group_to_multiset_ensures;
    t.lemma_filter_len(above_double(spec_percentile(t, 50)));
    assert(t.len() == t.to_multiset().len());
    assert(iv.len() == iv.to_multiset().len());
}

} // verus!


verus! {

/// Two sequences with the same elements have as many elements satisfying `p`.
proof fn lemma_filter_len_permutation(s: Seq<u32>, t: Seq<u32>, p: spec_fn(u32) -> bool)
    requires
        s.to_multiset() == t.to_multiset(),
    ensures
        s.filter(p).len() == t.filter(p).len(),
    decreases s.len(),
{
    broadcast use vstd::seq_lib::group_to_multiset_ensures;
    broadcast use vstd::multiset::group_multiset_axioms;

    if s.len() == 0 {
        assert(t.len() == t.to_multiset().len());
        assert(t =~= Seq::<u32>::empty());
        assert(s =~= Seq::<u32>::empty());
    } else {
        let x = s.last();
        let s1 = s.drop_last();
        assert(s1.push(x) =~= s);
        assert(s.to_multiset().count(x) > 0);
        assert(t.contains(x));
        let k = choose|k: int| 0 <= k < t.len() && t[k] == x;
        let t1 = t.remove(k);
        assert(s1.to_multiset() =~= s.to_multiset().remove(x));
        assert(t1.to_multiset() =~= t.to_multiset().remove(t[k]));
        lemma_filter_len_permutation(s1, t1, p);
        s1.lemma_filter_len_push(p, x);
        let a = t.take(k);
        let b = t.skip(k + 1);
        assert(t =~= a + (seq![x] + b));
        assert(t1 =~= a + b);
        Seq::filter_distributes_over_add(a, seq![x] + b, p);
        Seq::filter_distributes_over_add(seq![x], b, p);
        Seq::filter_distributes_over_add(a, b, p);
        reveal_with_fuel(Seq::filter, 2);
        assert(seq![x].filter(p).len() == (if p(x) { 1int } else { 0int })) by {
            assert(seq![x] =~= Seq::<u32>::empty().push(x));
            Seq::<u32>::empty().lemma_filter_len_push(p, x);
            assert(Seq::<u32>::empty().filter(p) =~= Seq::<u32>::empty());
        }
    }
}

/// The drop estimate counts exactly the intervals of the window that are
/// more than twice the median interval; an interval at most twice the
/// median is never counted.
pub proof fn lemma_dropped_counts_far_intervals(iv: Seq<u32>, sv: Seq<u32>)
    requires
        iv.len() <= WINDOW,
    ensures
        ({
            let st = spec_window_stats(iv, sv);
            st.dropped_estimate == iv.filter(|v: u32| v as int > 2 * st.interval_us_p50).len()
        }),
{
    broadcast use vstd::seq_lib::group_to_multiset_ensures;

    lemma_u32_leq_total();
    iv.lemma_sort_by_ensures(u32_leq());
    let t = sorted_window(iv);
    let p50 = spec_percentile(t, 50);
    let far = |v: u32| v as int > 2 * p50;
    assert(above_double(p50) =~= far);
    lemma_filter_len_permutation(t, iv, far);
    iv.lemma_filter_len(far);
    assert(iv.len() == iv.to_multiset().len());
}

} // verus!
