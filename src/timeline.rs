//! A metrics sink that also buckets its samples into fixed-width windows of send time.
//!
//! Samples are routed by their send time (`begin_t`), into the half-open bucket
//! `[time, time + dt)` that holds it. The cursor into the buckets only moves forward: a
//! sample sent before the current bucket is counted in the current bucket.

use crate::input::{schedule, schedule_len, ConstantThroughputInputTimes, InputTimeResumableIterator};
use crate::output::{latency, Metrics};
use vstd::multiset::Multiset;
use vstd::prelude::*;

verus! {

/// One bucket of a timeline: the samples sent within `[time, time + dt)`.
#[derive(Debug, Clone)]
pub struct TimelineElement<M: Metrics> {
    pub time: u64,
    pub metrics: M,
    pub samples: usize,
}

/// What a bucket holds, as plain values.
pub struct BucketView {
    pub time: u64,
    pub latencies: Multiset<u64>,
    pub samples: nat,
}

/// The plain values of a bucket.
pub open spec fn bucket_view<M: Metrics>(e: TimelineElement<M>) -> BucketView {
    BucketView { time: e.time, latencies: e.metrics.latencies(), samples: e.samples as nat }
}

/// Two bucket lists merged position by position.
pub open spec fn combine_buckets(a: Seq<BucketView>, b: Seq<BucketView>) -> Seq<BucketView> {
    Seq::new(
        a.len(),
        |i: int|
            BucketView {
                time: a[i].time,
                latencies: a[i].latencies.add(b[i].latencies),
                samples: a[i].samples + b[i].samples,
            },
    )
}

impl<M: Metrics> TimelineElement<M> {
    /// Merges two buckets for the same time.
    pub fn combined(self, other: Self) -> (r: Self)
        requires
            self.time == other.time,
            self.metrics.wf(),
            other.metrics.wf(),
            self.metrics.compatible(&other.metrics),
            self.metrics.size() + other.metrics.size() <= usize::MAX,
            self.samples + other.samples <= usize::MAX,
        ensures
            r.time == self.time,
            r.samples == self.samples + other.samples,
            r.metrics.wf(),
            r.metrics.latencies() == self.metrics.latencies().add(other.metrics.latencies()),
            r.metrics.size() <= self.metrics.size() + other.metrics.size(),
            forall|t: u64| #[trigger] r.metrics.admits(t) == self.metrics.admits(t),
            forall|t: u64| #[trigger] r.metrics.accepts(t) == self.metrics.accepts(t),
            forall|o: M| #[trigger] r.metrics.compatible(&o) == self.metrics.compatible(&o),
    {
        let TimelineElement { time, metrics, samples } = self;
        let metrics = metrics.combined(other.metrics);
        TimelineElement { time, metrics, samples: samples + other.samples }
    }
}

/// Sum of the sample counters of `buckets`.
pub open spec fn total_samples<M: Metrics>(buckets: Seq<TimelineElement<M>>) -> nat
    decreases buckets.len(),
{
    if buckets.len() == 0 {
        0
    } else {
        total_samples(buckets.drop_last()) + buckets.last().samples as nat
    }
}

proof fn lemma_total_samples_update<M: Metrics>(
    buckets: Seq<TimelineElement<M>>,
    i: int,
    e: TimelineElement<M>,
)
    requires
        0 <= i < buckets.len(),
    ensures
        total_samples(buckets.update(i, e)) + buckets[i].samples == total_samples(buckets)
            + e.samples,
    decreases buckets.len(),
{
    let u = buckets.update(i, e);
    if i == buckets.len() - 1 {
        assert(u.drop_last() =~= buckets.drop_last());
    } else {
        assert(u.drop_last() =~= buckets.drop_last().update(i, e));
        lemma_total_samples_update(buckets.drop_last(), i, e);
    }
}

proof fn lemma_total_samples_bound<M: Metrics>(buckets: Seq<TimelineElement<M>>, i: int)
    requires
        0 <= i < buckets.len(),
    ensures
        buckets[i].samples <= total_samples(buckets),
    decreases buckets.len(),
{
    if i < buckets.len() - 1 {
        lemma_total_samples_bound(buckets.drop_last(), i);
    }
}

/// Index of the bucket `[start + i * dt, start + (i + 1) * dt)` that holds time `t`,
/// which is `floor((t - start) / dt)`; zero for a time before `start`.
pub open spec fn bucket_index(start: u64, dt: u64, t: u64) -> nat {
    if t < start {
        0
    } else {
        ((t - start) / (dt as int)) as nat
    }
}

/// The bucket where a sample sent at `t` lands when the cursor is at `cursor`: the
/// cursor moves forward to the bucket of `t`, and never backward.
pub open spec fn landing(cursor: nat, start: u64, dt: u64, t: u64) -> nat {
    if cursor >= bucket_index(start, dt, t) {
        cursor
    } else {
        bucket_index(start, dt, t)
    }
}

/// The buckets where the samples sent at `ts` land, one after the other, from `cursor`.
pub open spec fn landings(cursor: nat, start: u64, dt: u64, ts: Seq<u64>) -> Seq<nat>
    decreases ts.len(),
{
    if ts.len() == 0 {
        Seq::empty()
    } else {
        let first = landing(cursor, start, dt, ts[0]);
        seq![first] + landings(first, start, dt, ts.drop_first())
    }
}

/// Whether `ts` never decreases.
pub open spec fn non_decreasing(ts: Seq<u64>) -> bool {
    forall|i: int, j: int| 0 <= i <= j < ts.len() ==> ts[i] <= ts[j]
}

/// Samples sent at or after `start` and delivered in non-decreasing order each land in
/// exactly the bucket `floor((t - start) / dt)`, as long as the cursor has not passed the
/// first of them (as for a new timeline, whose cursor is at the first bucket).
pub proof fn lemma_in_order_samples_land_in_their_bucket(
    cursor: nat,
    start: u64,
    dt: u64,
    ts: Seq<u64>,
)
    requires
        dt > 0,
        non_decreasing(ts),
        forall|i: int| 0 <= i < ts.len() ==> start <= #[trigger] ts[i],
        ts.len() > 0 ==> cursor <= bucket_index(start, dt, ts[0]),
    ensures
        landings(cursor, start, dt, ts).len() == ts.len(),
        forall|i: int|
            0 <= i < ts.len() ==> #[trigger] landings(cursor, start, dt, ts)[i] == bucket_index(
                start,
                dt,
                ts[i],
            ),
    decreases ts.len(),
{
    if ts.len() > 0 {
        let first = landing(cursor, start, dt, ts[0]);
        let rest = ts.drop_first();
        assert(first == bucket_index(start, dt, ts[0]));
        if rest.len() > 0 {
            assert(ts[0] <= ts[1]);
            assert((ts[0] - start) / (dt as int) <= (ts[1] - start) / (dt as int)) by {
                vstd::arithmetic::div_mod::lemma_div_is_ordered(
                    ts[0] - start,
                    ts[1] - start,
                    dt as int,
                );
            }
        }
        assert forall|i: int, j: int| 0 <= i <= j < rest.len() implies rest[i] <= rest[j] by {
            assert(ts[i + 1] <= ts[j + 1]);
        }
        assert forall|i: int| 0 <= i < rest.len() implies start <= #[trigger] rest[i] by {
            assert(start <= ts[i + 1]);
        }
        lemma_in_order_samples_land_in_their_bucket(first, start, dt, rest);
        let l = landings(cursor, start, dt, ts);
        assert forall|i: int| 0 <= i < ts.len() implies #[trigger] l[i] == bucket_index(
            start,
            dt,
            ts[i],
        ) by {
            if i > 0 {
                assert(l[i] == landings(first, start, dt, rest)[i - 1]);
                assert(rest[i - 1] == ts[i]);
            }
        }
    }
}

/// A metrics sink that passes every sample to `latency_metrics` and also counts it, and
/// records it, in the bucket of `timeline` that its send time routes it to.
pub struct Timeline<M: Metrics, TM: Metrics> {
    pub latency_metrics: M,
    timeline_dt: u64,
    start_t: u64,
    cur_element: usize,
    cur_element_t: u64,
    pub timeline: Vec<TimelineElement<TM>>,
}

proof fn lemma_total_samples_take<M: Metrics>(s: Seq<TimelineElement<M>>, k: int)
    requires
        0 <= k < s.len(),
    ensures
        total_samples(s.take(k + 1)) == total_samples(s.take(k)) + s[k].samples,
{
    assert(s.take(k + 1).drop_last() =~= s.take(k));
}

/// Where `t` lies below `start + n * dt`, its bucket index is below `n`; where it lies at
/// or beyond `start + (k + 1) * dt`, its bucket index is beyond `k`.
proof fn lemma_bucket_index_bounds(start: u64, dt: u64, t: u64, k: int)
    requires
        dt > 0,
        0 <= k,
    ensures
        t < start + (k + 1) * dt ==> bucket_index(start, dt, t) <= k,
        t >= start + (k + 1) * dt ==> bucket_index(start, dt, t) >= k + 1,
{
    if t >= start {
        let x = t - start;
        if x < (k + 1) * dt {
            assert(x < (dt as int) * (k + 1)) by (nonlinear_arith)
                requires
                    x < (k + 1) * dt,
            ;
            vstd::arithmetic::div_mod::lemma_multiply_divide_lt(x, dt as int, k + 1);
        } else {
            vstd::arithmetic::div_mod::lemma_div_is_ordered((k + 1) * dt, x, dt as int);
            vstd::arithmetic::div_mod::lemma_div_multiples_vanish(k + 1, dt as int);
            assert((dt as int) * (k + 1) == (k + 1) * dt) by (nonlinear_arith);
        }
    } else {
        assert(0 <= (k + 1) * dt) by (nonlinear_arith)
            requires
                0 <= k,
                dt > 0,
        ;
    }
}

impl<M: Metrics, TM: Metrics> Timeline<M, TM> {
    /// The width of every bucket.
    pub closed spec fn dt(&self) -> u64 {
        self.timeline_dt
    }

    /// The time of the first bucket.
    pub closed spec fn start(&self) -> u64 {
        self.start_t
    }

    /// The bucket that the cursor is at.
    pub closed spec fn cursor(&self) -> nat {
        self.cur_element as nat
    }

    /// The buckets.
    pub closed spec fn elements(&self) -> Seq<TimelineElement<TM>> {
        self.timeline@
    }

    /// The sink that every sample goes to.
    pub closed spec fn overall(&self) -> M {
        self.latency_metrics
    }

    /// The buckets, as plain values.
    pub open spec fn buckets(&self) -> Seq<BucketView> {
        self.elements().map_values(|e: TimelineElement<TM>| bucket_view(e))
    }

    /// Buckets `[start + i * dt, start + (i + 1) * dt)` for every `i` whose bucket starts
    /// before `end_t`; samples go to `latency_metrics` and to a sink for each bucket made
    /// by `timeline_metrics`.
    pub fn new<F: Fn() -> TM>(
        start_t: u64,
        end_t: u64,
        timeline_dt: u64,
        latency_metrics: M,
        timeline_metrics: F,
    ) -> (r: Self)
        requires
            timeline_dt > 0,
            latency_metrics.wf(),
            timeline_metrics.requires(()),
            forall|m: TM| #[trigger] timeline_metrics.ensures((), m) ==> m.wf() && m.size() == 0,
        ensures
            r.wf(),
            r.start() == start_t,
            r.dt() == timeline_dt,
            r.cursor() == 0,
            r.overall() == latency_metrics,
            r.size() == latency_metrics.size(),
            r.elements().len() == schedule_len(start_t as int, timeline_dt as int, end_t as int),
            forall|i: int|
                0 <= i < r.elements().len() ==> (#[trigger] r.elements()[i]).time == start_t + i
                    * timeline_dt && r.elements()[i].samples == 0 && timeline_metrics.ensures(
                    (),
                    r.elements()[i].metrics,
                ),
    {
        let ghost times_all = schedule(start_t as int, timeline_dt as int, end_t as int);
        let mut times = ConstantThroughputInputTimes::new(start_t, timeline_dt, end_t);
        let mut timeline: Vec<TimelineElement<TM>> = Vec::new();
        loop
            invariant
                timeline_dt > 0,
                timeline_metrics.requires(()),
                forall|m: TM| #[trigger] timeline_metrics.ensures((), m) ==> m.wf() && m.size() == 0,
                timeline@.len() <= times_all.len(),
                total_samples(timeline@) == 0,
                times.remaining() == times_all.skip(timeline@.len() as int),
                times_all == schedule(start_t as int, timeline_dt as int, end_t as int),
                forall|i: int|
                    0 <= i < timeline@.len() ==> (#[trigger] timeline@[i]).time == start_t + i
                        * timeline_dt && timeline@[i].samples == 0 && timeline_metrics.ensures(
                        (),
                        timeline@[i].metrics,
                    ),
            ensures
                timeline@.len() == times_all.len(),
                total_samples(timeline@) == 0,
                forall|i: int|
                    0 <= i < timeline@.len() ==> (#[trigger] timeline@[i]).time == start_t + i
                        * timeline_dt && timeline@[i].samples == 0 && timeline_metrics.ensures(
                        (),
                        timeline@[i].metrics,
                    ),
            decreases times.remaining().len(),
        {
            let ghost k = timeline@.len() as int;
            match times.next() {
                Some(time) => {
                    proof {
                        assert(time == times_all[k]);
                        crate::input::lemma_schedule_below_end(
                            start_t as int,
                            timeline_dt as int,
                            end_t as int,
                            k,
                        );
                        assert(0 <= k * timeline_dt) by (nonlinear_arith)
                            requires
                                0 <= k,
                                timeline_dt > 0,
                        ;
                        assert(time == start_t + k * timeline_dt);
                    }
                    let metrics = timeline_metrics();
                    let ghost before = timeline@;
                    timeline.push(TimelineElement { time, metrics, samples: 0 });
                    proof {
                        assert(timeline@.drop_last() =~= before);
                        assert(times.remaining() =~= times_all.skip(k + 1));
                    }
                },
                None => {
                    break;
                },
            }
        }
        let r = Timeline {
            latency_metrics,
            timeline_dt,
            start_t,
            cur_element: 0,
            cur_element_t: start_t,
            timeline,
        };
        proof {
            assert(r.cur_element_t == r.start_t + 0 * r.timeline_dt);
            assert(total_samples(r.timeline@) >= 0);
        }
        r
    }
}

impl<M: Metrics, TM: Metrics> Timeline<M, TM> {
    /// The overall sink and the buckets, taken apart.
    pub fn into_parts(self) -> (r: (M, Vec<TimelineElement<TM>>))
        ensures
            r.0 == self.overall(),
            r.1@ == self.elements(),
    {
        (self.latency_metrics, self.timeline)
    }
}

impl<M: Metrics, TM: Metrics> Metrics for Timeline<M, TM> {
    open spec fn class_of(latency: u64) -> u64 {
        M::class_of(latency)
    }

    closed spec fn latencies(&self) -> Multiset<u64> {
        self.latency_metrics.latencies()
    }

    closed spec fn admits(&self, begin_t: u64) -> bool {
        self.latency_metrics.admits(begin_t)
    }

    closed spec fn accepts(&self, begin_t: u64) -> bool {
        &&& self.timeline@.len() > 0
        &&& begin_t < self.start_t + self.timeline@.len() * self.timeline_dt
        &&& self.latency_metrics.accepts(begin_t)
        &&& forall|i: int|
            0 <= i < self.timeline@.len() ==> (#[trigger] self.timeline@[i]).metrics.accepts(
                begin_t,
            )
    }

    closed spec fn compatible(&self, other: &Self) -> bool {
        &&& self.timeline_dt == other.timeline_dt
        &&& self.start_t == other.start_t
        &&& self.timeline@.len() == other.timeline@.len()
        &&& self.latency_metrics.compatible(&other.latency_metrics)
        &&& forall|i: int|
            0 <= i < self.timeline@.len() ==> (#[trigger] self.timeline@[i]).metrics.compatible(
                &other.timeline@[i].metrics,
            )
    }

    closed spec fn size(&self) -> nat {
        if self.latency_metrics.size() >= total_samples(self.timeline@) {
            self.latency_metrics.size()
        } else {
            total_samples(self.timeline@)
        }
    }

    closed spec fn wf(&self) -> bool {
        &&& self.timeline_dt > 0
        &&& forall|i: int|
            0 <= i < self.timeline@.len() ==> (#[trigger] self.timeline@[i]).time == self.start_t
                + i * self.timeline_dt
        &&& self.timeline@.len() == 0 ==> self.cur_element == 0
        &&& self.timeline@.len() > 0 ==> self.cur_element < self.timeline@.len()
        &&& self.cur_element_t == self.start_t + self.cur_element * self.timeline_dt
        &&& self.latency_metrics.wf()
        &&& forall|i: int|
            0 <= i < self.timeline@.len() ==> (#[trigger] self.timeline@[i]).metrics.wf()
                && self.timeline@[i].metrics.size() <= self.timeline@[i].samples
    }

    fn record(&mut self, begin_t: u64, end_t: u64)
        ensures
            final(self).cursor() == landing(old(self).cursor(), old(self).start(), old(self).dt(), begin_t),
            final(self).start() == old(self).start(),
            final(self).dt() == old(self).dt(),
            final(self).buckets() == old(self).buckets().update(
                final(self).cursor() as int,
                BucketView {
                    time: old(self).buckets()[final(self).cursor() as int].time,
                    latencies: if old(self).elements()[final(self).cursor() as int].metrics.admits(
                        begin_t,
                    ) {
                        old(self).buckets()[final(self).cursor() as int].latencies.insert(
                            TM::class_of(latency(begin_t, end_t)),
                        )
                    } else {
                        old(self).buckets()[final(self).cursor() as int].latencies
                    },
                    samples: old(self).buckets()[final(self).cursor() as int].samples + 1,
                },
            ),
    {
        let ghost old_self = *self;
        let ghost target = landing(old_self.cursor(), old_self.start_t, old_self.timeline_dt, begin_t);
        let ghost n = self.timeline@.len() as int;
        proof {
            lemma_bucket_index_bounds(self.start_t, self.timeline_dt, begin_t, n - 1);
            assert(target < n);
        }
        let len = self.timeline.len();
        self.latency_metrics.record(begin_t, end_t);
        let ghost overall = self.latency_metrics;
        loop
            invariant
                self.latency_metrics == overall,
                n == len,
                self.timeline == old_self.timeline,
                self.timeline_dt == old_self.timeline_dt,
                self.start_t == old_self.start_t,
                self.timeline_dt > 0,
                old_self.cur_element <= self.cur_element <= target < n,
                self.cur_element_t == self.start_t + self.cur_element * self.timeline_dt,
                target == landing(old_self.cursor(), self.start_t, self.timeline_dt, begin_t),
            ensures
                self.latency_metrics == overall,
                self.cur_element == target,
                self.timeline == old_self.timeline,
                self.timeline_dt == old_self.timeline_dt,
                self.start_t == old_self.start_t,
                self.cur_element_t == self.start_t + self.cur_element * self.timeline_dt,
            decreases target - self.cur_element,
        {
            let ghost c = self.cur_element as int;
            match self.cur_element_t.checked_add(self.timeline_dt) {
                Some(next_t) => {
                    if begin_t >= next_t {
                        proof {
                            assert(next_t == self.start_t + (c + 1) * self.timeline_dt)
                                by (nonlinear_arith)
                                requires
                                    next_t == self.start_t + c * self.timeline_dt
                                        + self.timeline_dt,
                            ;
                            lemma_bucket_index_bounds(self.start_t, self.timeline_dt, begin_t, c);
                        }
                        self.cur_element_t = next_t;
                        self.cur_element = self.cur_element + 1;
                    } else {
                        proof {
                            assert(next_t == self.start_t + (c + 1) * self.timeline_dt)
                                by (nonlinear_arith)
                                requires
                                    next_t == self.start_t + c * self.timeline_dt
                                        + self.timeline_dt,
                            ;
                            lemma_bucket_index_bounds(self.start_t, self.timeline_dt, begin_t, c);
                        }
                        break;
                    }
                },
                None => {
                    proof {
                        assert(begin_t < self.start_t + (c + 1) * self.timeline_dt)
                            by (nonlinear_arith)
                            requires
                                self.cur_element_t == self.start_t + c * self.timeline_dt,
                                self.cur_element_t + self.timeline_dt > u64::MAX,
                                begin_t <= u64::MAX,
                        ;
                        lemma_bucket_index_bounds(self.start_t, self.timeline_dt, begin_t, c);
                    }
                    break;
                },
            }
        }
        let i = self.cur_element;
        proof {
            lemma_total_samples_bound(self.timeline@, i as int);
        }
        let ghost before = self.timeline@;
        let element = &mut self.timeline[i];
        element.metrics.record(begin_t, end_t);
        element.samples = element.samples + 1;
        proof {
            let e = self.timeline@[i as int];
            assert(self.timeline@ == before.update(i as int, e));
            lemma_total_samples_update(before, i as int, e);
            assert forall|j: int| 0 <= j < self.timeline@.len() implies (#[trigger] self.timeline@[j]).time
                == self.start_t + j * self.timeline_dt by {
                assert(self.timeline@[j].time == before[j].time);
            }
            assert forall|j: int| 0 <= j < self.timeline@.len() implies (#[trigger] self.timeline@[j]).metrics.wf()
                && self.timeline@[j].metrics.size() <= self.timeline@[j].samples by {
                if j != i {
                    assert(self.timeline@[j] == before[j]);
                }
            }
            assert forall|t: u64| #[trigger] self.accepts(t) == old_self.accepts(t) by {
                if old_self.accepts(t) {
                    assert forall|j: int| 0 <= j < self.timeline@.len() implies (#[trigger] self.timeline@[j]).metrics.accepts(t) by {
                        if j != i {
                            assert(self.timeline@[j] == before[j]);
                        } else {
                            assert(before[j].metrics.accepts(t));
                        }
                    }
                }
                if self.accepts(t) {
                    assert forall|j: int| 0 <= j < before.len() implies (#[trigger] before[j]).metrics.accepts(t) by {
                        if j != i {
                            assert(self.timeline@[j] == before[j]);
                        } else {
                            assert(self.timeline@[j].metrics.accepts(t));
                        }
                    }
                }
            }
            assert(self.buckets() =~= old_self.buckets().update(
                i as int,
                BucketView {
                    time: old_self.buckets()[i as int].time,
                    latencies: if old_self.timeline@[i as int].metrics.admits(begin_t) {
                        old_self.buckets()[i as int].latencies.insert(
                            TM::class_of(latency(begin_t, end_t)),
                        )
                    } else {
                        old_self.buckets()[i as int].latencies
                    },
                    samples: old_self.buckets()[i as int].samples + 1,
                },
            ));
        }
    }

    fn combined(self, other: Self) -> (r: Self)
        ensures
            r.start() == self.start(),
            r.dt() == self.dt(),
            r.cursor() == self.cursor(),
            r.buckets() == combine_buckets(self.buckets(), other.buckets()),
    {
        let ghost a0 = self.timeline@;
        let ghost b0 = other.timeline@;
        let ghost this = self;
        let ghost that = other;
        let Timeline { latency_metrics, timeline_dt, start_t, cur_element, cur_element_t, timeline } =
            self;
        let Timeline { latency_metrics: other_latency_metrics, timeline: other_timeline, .. } =
            other;
        let mut a = timeline;
        let mut b = other_timeline;
        let mut merged: Vec<TimelineElement<TM>> = Vec::new();
        proof {
            assert(a0.take(0) =~= Seq::<TimelineElement<TM>>::empty());
            assert(b0.take(0) =~= Seq::<TimelineElement<TM>>::empty());
        }
        while a.len() > 0
            invariant
                a0.len() == b0.len(),
                merged@.len() <= a0.len(),
                a@ == a0.skip(merged@.len() as int),
                b@ == b0.skip(merged@.len() as int),
                this.wf(),
                that.wf(),
                this.compatible(&that),
                this.size() + that.size() <= usize::MAX,
                a0 == this.timeline@,
                b0 == that.timeline@,
                total_samples(merged@) == total_samples(a0.take(merged@.len() as int))
                    + total_samples(b0.take(merged@.len() as int)),
                forall|i: int|
                    0 <= i < merged@.len() ==> {
                        let m = #[trigger] merged@[i];
                        &&& m.time == a0[i].time
                        &&& m.samples == a0[i].samples + b0[i].samples
                        &&& m.metrics.wf()
                        &&& m.metrics.size() <= m.samples
                        &&& m.metrics.latencies() == a0[i].metrics.latencies().add(
                            b0[i].metrics.latencies(),
                        )
                        &&& forall|t: u64| #[trigger] m.metrics.accepts(t) == a0[i].metrics.accepts(t)
                        &&& forall|o: TM| #[trigger] m.metrics.compatible(&o) == a0[i].metrics.compatible(&o)
                    },
            decreases a@.len(),
        {
            let ghost k = merged@.len() as int;
            let x = a.remove(0);
            let y = b.remove(0);
            proof {
                assert(x == a0[k]);
                assert(y == b0[k]);
                lemma_total_samples_bound(a0, k);
                lemma_total_samples_bound(b0, k);
                lemma_total_samples_take(a0, k);
                lemma_total_samples_take(b0, k);
                assert(x.time == y.time);
                assert(a@ =~= a0.skip(k + 1));
                assert(b@ =~= b0.skip(k + 1));
            }
            let z = x.combined(y);
            let ghost before = merged@;
            merged.push(z);
            proof {
                assert(merged@.drop_last() =~= before);
            }
        }
        proof {
            assert(a0.take(a0.len() as int) =~= a0);
            assert(b0.take(b0.len() as int) =~= b0);
        }
        let latency_metrics = latency_metrics.combined(other_latency_metrics);
        let r = Timeline {
            latency_metrics,
            timeline_dt,
            start_t,
            cur_element,
            cur_element_t,
            timeline: merged,
        };
        proof {
            assert(r.buckets() =~= combine_buckets(this.buckets(), that.buckets()));
            assert forall|o: Self| #[trigger] r.compatible(&o) == this.compatible(&o) by {
                if this.compatible(&o) {
                    assert forall|i: int| 0 <= i < r.timeline@.len() implies (#[trigger] r.timeline@[i]).metrics.compatible(&o.timeline@[i].metrics) by {
                        assert(a0[i].metrics.compatible(&o.timeline@[i].metrics));
                    }
                }
                if r.compatible(&o) {
                    assert forall|i: int| 0 <= i < this.timeline@.len() implies (#[trigger] this.timeline@[i]).metrics.compatible(&o.timeline@[i].metrics) by {
                        assert(r.timeline@[i].metrics.compatible(&o.timeline@[i].metrics));
                    }
                }
            }
            assert forall|t: u64| #[trigger] r.accepts(t) == this.accepts(t) by {
                if this.accepts(t) {
                    assert forall|i: int| 0 <= i < r.timeline@.len() implies (#[trigger] r.timeline@[i]).metrics.accepts(t) by {
                        assert(a0[i].metrics.accepts(t));
                    }
                }
                if r.accepts(t) {
                    assert forall|i: int| 0 <= i < this.timeline@.len() implies (#[trigger] this.timeline@[i]).metrics.accepts(t) by {
                        assert(r.timeline@[i].metrics.accepts(t));
                    }
                }
            }
        }
        r
    }

    fn can_combine(&self, other: &Self) -> (r: bool) {
        if self.timeline_dt != other.timeline_dt || self.start_t != other.start_t
            || self.timeline.len() != other.timeline.len() {
            return false;
        }
        if !self.latency_metrics.can_combine(&other.latency_metrics) {
            return false;
        }
        let mut i: usize = 0;
        while i < self.timeline.len()
            invariant
                self.wf(),
                other.wf(),
                self.timeline@.len() == other.timeline@.len(),
                i <= self.timeline@.len(),
                forall|j: int|
                    0 <= j < i ==> (#[trigger] self.timeline@[j]).metrics.compatible(
                        &other.timeline@[j].metrics,
                    ),
            decreases self.timeline@.len() - i,
        {
            if !self.timeline[i].metrics.can_combine(&other.timeline[i].metrics) {
                return false;
            }
            i = i + 1;
        }
        true
    }

    fn admits_sample(&self, begin_t: u64) -> (r: bool) {
        self.latency_metrics.admits_sample(begin_t)
    }
}

/// Combining timelines of the same shape is associative: `combine(combine(a, b), c)` and
/// `combine(a, combine(b, c))` have the same sample count and the same latencies in every
/// bucket, and the same merged overall latencies.
pub proof fn lemma_combine_associative<M: Metrics, TM: Metrics>(
    a: Timeline<M, TM>,
    b: Timeline<M, TM>,
    c: Timeline<M, TM>,
)
    requires
        a.compatible(&b),
        b.compatible(&c),
    ensures
        combine_buckets(combine_buckets(a.buckets(), b.buckets()), c.buckets()) == combine_buckets(
            a.buckets(),
            combine_buckets(b.buckets(), c.buckets()),
        ),
        a.latencies().add(b.latencies()).add(c.latencies()) == a.latencies().add(
            b.latencies().add(c.latencies()),
        ),
{
    let (x, y, z) = (a.buckets(), b.buckets(), c.buckets());
    let l = combine_buckets(combine_buckets(x, y), z);
    let r = combine_buckets(x, combine_buckets(y, z));
    assert forall|i: int| 0 <= i < l.len() implies l[i] == r[i] by {
        assert(l[i].latencies =~= r[i].latencies);
    }
    assert(l =~= r);
    assert(a.latencies().add(b.latencies()).add(c.latencies()) =~= a.latencies().add(
        b.latencies().add(c.latencies()),
    ));
}

/// What a well-formed timeline guarantees: positive bucket width, a cursor within the
/// buckets, bucket `i` at `start + i * dt`, and every sink well formed, with each bucket's
/// sink no larger than the bucket's sample count.
pub proof fn lemma_timeline_wf<M: Metrics, TM: Metrics>(tl: Timeline<M, TM>)
    requires
        tl.wf(),
    ensures
        tl.dt() > 0,
        tl.overall().wf(),
        tl.elements().len() == 0 ==> tl.cursor() == 0,
        tl.elements().len() > 0 ==> tl.cursor() < tl.elements().len(),
        forall|i: int|
            0 <= i < tl.elements().len() ==> {
                let e = #[trigger] tl.elements()[i];
                &&& e.time == tl.start() + i * tl.dt()
                &&& e.metrics.wf()
                &&& e.metrics.size() <= e.samples
            },
{
}

/// A timeline takes in, and keeps, what its overall sink does; it accepts a send time
/// before the end of its last bucket that its overall sink and every bucket's sink accept.
pub proof fn lemma_timeline_overall<M: Metrics, TM: Metrics>(tl: Timeline<M, TM>)
    ensures
        tl.latencies() == tl.overall().latencies(),
        forall|t: u64| #[trigger] tl.admits(t) == tl.overall().admits(t),
        forall|t: u64|
            #[trigger] tl.accepts(t) == (tl.elements().len() > 0 && t < tl.start()
                + tl.elements().len() * tl.dt() && tl.overall().accepts(t) && forall|i: int|
                0 <= i < tl.elements().len() ==> (#[trigger] tl.elements()[i]).metrics.accepts(t)),
{
}

} // verus!
