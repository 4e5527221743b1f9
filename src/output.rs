//! Metrics sinks, the warmup/cooldown admission window, and the collector that turns
//! completions into latency samples.

use crate::hist::{bucket_of, hist_buckets, hist_combined};
use crate::input::{
    count_until_incl, drained, lemma_schedule_shape, schedule_len, undrained,
    InputTimeResumableIterator,
};
use crate::timeline::{lemma_timeline_overall, Timeline};
use streaming_harness_hdrhist::HDRHist;
use vstd::multiset::Multiset;
use vstd::prelude::*;

verus! {

/// Latency of a completion at `end_t` of an input sent at `begin_t`; a completion
/// reported before its send time counts as zero.
pub open spec fn latency(begin_t: u64, end_t: u64) -> u64 {
    if end_t >= begin_t {
        (end_t - begin_t) as u64
    } else {
        0
    }
}

/// A sink of `(send time, completion time)` samples.
///
/// Its model is the multiset of the latencies it has taken in, each as the class that the
/// sink keeps of it (`class_of`: the latency itself for an exact sink, its bucket for a
/// histogram); `admits` says which samples it takes in and which it drops, and `size`
/// bounds the number of samples recorded into it, so that its counters cannot overflow.
pub trait Metrics: Sized {
    /// What the sink keeps of a latency.
    spec fn class_of(latency: u64) -> u64;

    /// The classes of the latencies taken in so far, with multiplicities.
    spec fn latencies(&self) -> Multiset<u64>;

    /// Whether a sample sent at `begin_t` is taken in rather than dropped.
    spec fn admits(&self, begin_t: u64) -> bool;

    /// Whether a sample sent at `begin_t` may be recorded at all.
    spec fn accepts(&self, begin_t: u64) -> bool;

    /// Whether `self` and `other` have the same parameters, so that they can be combined.
    spec fn compatible(&self, other: &Self) -> bool;

    /// A bound on the number of samples recorded into this sink so far.
    spec fn size(&self) -> nat;

    /// The sink's internal invariant.
    spec fn wf(&self) -> bool;

    /// Records the completion at `end_t` of the input sent at `begin_t`.
    fn record(&mut self, begin_t: u64, end_t: u64)
        requires
            old(self).wf(),
            old(self).accepts(begin_t),
            old(self).size() < usize::MAX,
        ensures
            final(self).wf(),
            final(self).latencies() == (if old(self).admits(begin_t) {
                old(self).latencies().insert(Self::class_of(latency(begin_t, end_t)))
            } else {
                old(self).latencies()
            }),
            final(self).size() <= old(self).size() + 1,
            forall|t: u64| #[trigger] final(self).admits(t) == old(self).admits(t),
            forall|t: u64| #[trigger] final(self).accepts(t) == old(self).accepts(t),
    ;

    /// Merges the samples of two sinks with the same parameters.
    fn combined(self, other: Self) -> (r: Self)
        requires
            self.wf(),
            other.wf(),
            self.compatible(&other),
            self.size() + other.size() <= usize::MAX,
        ensures
            r.wf(),
            r.latencies() == self.latencies().add(other.latencies()),
            r.size() <= self.size() + other.size(),
            forall|t: u64| #[trigger] r.admits(t) == self.admits(t),
            forall|t: u64| #[trigger] r.accepts(t) == self.accepts(t),
            forall|o: Self| #[trigger] r.compatible(&o) == self.compatible(&o),
    ;

    /// Whether `self` and `other` can be combined.
    fn can_combine(&self, other: &Self) -> (r: bool)
        requires
            self.wf(),
            other.wf(),
        ensures
            r == self.compatible(other),
    ;

    /// Whether a sample sent at `begin_t` would be taken in.
    fn admits_sample(&self, begin_t: u64) -> (r: bool)
        ensures
            r == self.admits(begin_t),
    ;
}

/// A histogram takes in every sample, as the bucket of its latency.
impl Metrics for HDRHist {
    open spec fn class_of(latency: u64) -> u64 {
        bucket_of(latency)
    }

    open spec fn latencies(&self) -> Multiset<u64> {
        hist_buckets(*self)
    }

    open spec fn admits(&self, begin_t: u64) -> bool {
        true
    }

    open spec fn accepts(&self, begin_t: u64) -> bool {
        true
    }

    open spec fn compatible(&self, other: &Self) -> bool {
        true
    }

    open spec fn size(&self) -> nat {
        hist_buckets(*self).len()
    }

    open spec fn wf(&self) -> bool {
        true
    }

    fn record(&mut self, begin_t: u64, end_t: u64) {
        let value = end_t.saturating_sub(begin_t);
        self.add_value(value);
    }

    fn combined(self, other: Self) -> (r: Self) {
        hist_combined(self, other)
    }

    fn can_combine(&self, other: &Self) -> (r: bool) {
        true
    }

    fn admits_sample(&self, begin_t: u64) -> (r: bool) {
        true
    }
}

/// A sink that passes on only the samples sent within `[warmup_end, experiment_end)`,
/// leaving out the transients of startup and shutdown.
pub struct WarmupDurationMetrics<M: Metrics> {
    metrics: M,
    warmup_end: u64,
    experiment_end: u64,
}

/// Whether `begin_t` lies within the window `[warmup_end, experiment_end)`.
pub open spec fn in_window(begin_t: u64, warmup_end: u64, experiment_end: u64) -> bool {
    warmup_end <= begin_t < experiment_end
}

impl<M: Metrics> WarmupDurationMetrics<M> {
    /// The wrapped sink.
    pub closed spec fn inner(&self) -> M {
        self.metrics
    }

    /// The first send time that is taken in.
    pub closed spec fn warmup_end(&self) -> u64 {
        self.warmup_end
    }

    /// The first send time, after the window, that is dropped again.
    pub closed spec fn experiment_end(&self) -> u64 {
        self.experiment_end
    }

    /// Wraps `metrics` with the window `[warmup_end, experiment_end)`.
    pub fn new(metrics: M, warmup_end: u64, experiment_end: u64) -> (r: Self)
        ensures
            r.inner() == metrics,
            r.warmup_end() == warmup_end,
            r.experiment_end() == experiment_end,
    {
        WarmupDurationMetrics { metrics, warmup_end, experiment_end }
    }

    /// The wrapped sink, with the samples it took in.
    pub fn into_inner(self) -> (r: M)
        ensures
            r == self.inner(),
    {
        self.metrics
    }
}

impl<M: Metrics> Metrics for WarmupDurationMetrics<M> {
    open spec fn class_of(latency: u64) -> u64 {
        M::class_of(latency)
    }

    closed spec fn latencies(&self) -> Multiset<u64> {
        self.metrics.latencies()
    }

    closed spec fn admits(&self, begin_t: u64) -> bool {
        in_window(begin_t, self.warmup_end, self.experiment_end) && self.metrics.admits(begin_t)
    }

    closed spec fn accepts(&self, begin_t: u64) -> bool {
        in_window(begin_t, self.warmup_end, self.experiment_end) ==> self.metrics.accepts(begin_t)
    }

    closed spec fn compatible(&self, other: &Self) -> bool {
        &&& self.warmup_end == other.warmup_end
        &&& self.experiment_end == other.experiment_end
        &&& self.metrics.compatible(&other.metrics)
    }

    closed spec fn size(&self) -> nat {
        self.metrics.size()
    }

    closed spec fn wf(&self) -> bool {
        self.metrics.wf()
    }

    fn record(&mut self, begin_t: u64, end_t: u64)
        ensures
            final(self).warmup_end() == old(self).warmup_end(),
            final(self).experiment_end() == old(self).experiment_end(),
            !in_window(begin_t, old(self).warmup_end(), old(self).experiment_end())
                ==> final(self).inner() == old(self).inner(),
            in_window(begin_t, old(self).warmup_end(), old(self).experiment_end())
                ==> final(self).inner().latencies() == (if old(self).inner().admits(begin_t) {
                old(self).inner().latencies().insert(M::class_of(latency(begin_t, end_t)))
            } else {
                old(self).inner().latencies()
            }),
    {
        if begin_t >= self.warmup_end && begin_t < self.experiment_end {
            self.metrics.record(begin_t, end_t);
        }
    }

    fn combined(self, other: Self) -> (r: Self)
        ensures
            r.warmup_end() == self.warmup_end(),
            r.experiment_end() == self.experiment_end(),
            r.inner().latencies() == self.inner().latencies().add(other.inner().latencies()),
    {
        let WarmupDurationMetrics { metrics, warmup_end, experiment_end } = self;
        let merged = metrics.combined(other.metrics);
        let r = WarmupDurationMetrics { metrics: merged, warmup_end, experiment_end };
        assert forall|o: Self| #[trigger] r.compatible(&o) == self.compatible(&o) by {
            assert(merged.compatible(&o.metrics) == self.metrics.compatible(&o.metrics));
        }
        r
    }

    fn can_combine(&self, other: &Self) -> (r: bool) {
        self.warmup_end == other.warmup_end && self.experiment_end == other.experiment_end
            && self.metrics.can_combine(&other.metrics)
    }

    fn admits_sample(&self, begin_t: u64) -> (r: bool) {
        begin_t >= self.warmup_end && begin_t < self.experiment_end && self.metrics.admits_sample(
            begin_t,
        )
    }
}

/// The windowed sink takes in exactly the samples sent within its window that the
/// wrapped sink takes in.
pub proof fn lemma_window_admits<M: Metrics>(w: WarmupDurationMetrics<M>, begin_t: u64)
    ensures
        w.admits(begin_t) == (in_window(begin_t, w.warmup_end(), w.experiment_end())
            && w.inner().admits(begin_t)),
        w.latencies() == w.inner().latencies(),
{
}

/// Combining sinks is associative in what they keep: merging `a` with `b` and then `c`
/// keeps the same latencies as merging `a` with `b` merged with `c`. (Each `combined` also
/// keeps the parameters of its left operand, so both groupings keep those of `a`.)
pub proof fn lemma_combine_latencies_associative<M: Metrics>(a: M, b: M, c: M)
    ensures
        a.latencies().add(b.latencies()).add(c.latencies()) == a.latencies().add(
            b.latencies().add(c.latencies()),
        ),
{
    assert(a.latencies().add(b.latencies()).add(c.latencies()) =~= a.latencies().add(
        b.latencies().add(c.latencies()),
    ));
}

/// Sum of the multisets of latencies of `all`.
pub open spec fn sum_latencies<M: Metrics>(all: Seq<M>) -> Multiset<u64>
    decreases all.len(),
{
    if all.len() == 0 {
        Multiset::empty()
    } else {
        sum_latencies(all.drop_last()).add(all.last().latencies())
    }
}

/// Sum of the sizes of `all`.
pub open spec fn sum_sizes<M: Metrics>(all: Seq<M>) -> nat
    decreases all.len(),
{
    if all.len() == 0 {
        0
    } else {
        sum_sizes(all.drop_last()) + all.last().size()
    }
}

/// Merges every sink of `all` into one, in order.
pub fn combine_all<M: Metrics>(all: Vec<M>) -> (r: M)
    requires
        all@.len() > 0,
        forall|i: int| 0 <= i < all@.len() ==> (#[trigger] all@[i]).wf(),
        forall|i: int| 0 <= i < all@.len() ==> all@[0].compatible(&#[trigger] all@[i]),
        sum_sizes(all@) <= usize::MAX,
    ensures
        r.wf(),
        r.latencies() == sum_latencies(all@),
        r.size() <= sum_sizes(all@),
        forall|t: u64| #[trigger] r.admits(t) == all@[0].admits(t),
{
    let ghost items = all@;
    let mut rest = all;
    let mut acc = rest.remove(0);
    proof {
        let first = items.take(1);
        assert(first.drop_last() =~= Seq::<M>::empty());
        assert(first.last() == items[0]);
        assert(sum_latencies(first.drop_last()) == Multiset::<u64>::empty());
        assert(sum_sizes(first.drop_last()) == 0);
        assert(sum_latencies(first) =~= items[0].latencies());
        assert(sum_sizes(first) == items[0].size());
        assert(items[0].wf());
    }
    let ghost mut done: int = 1;
    while rest.len() > 0
        invariant
            1 <= done <= items.len(),
            rest@.len() == items.len() - done,
            rest@ == items.skip(done),
            acc.latencies() == sum_latencies(items.take(done)),
            acc.wf(),
            acc.size() <= sum_sizes(items.take(done)),
            forall|i: int| 0 <= i < items.len() ==> (#[trigger] items[i]).wf(),
            forall|o: M| #[trigger] acc.compatible(&o) == items[0].compatible(&o),
            forall|t: u64| #[trigger] acc.admits(t) == items[0].admits(t),
            forall|i: int| 0 <= i < items.len() ==> items[0].compatible(&#[trigger] items[i]),
            sum_sizes(items) <= usize::MAX,
        decreases rest@.len(),
    {
        let next = rest.remove(0);
        proof {
            assert(next == items[done]);
            assert(items.take(done + 1).drop_last() =~= items.take(done));
            lemma_sum_sizes_prefix(items, done + 1);
        }
        acc = acc.combined(next);
        proof {
            done = done + 1;
        }
    }
    proof {
        assert(items.take(done) =~= items);
    }
    acc
}

/// A prefix has no larger size sum than the whole.
proof fn lemma_sum_sizes_prefix<M: Metrics>(all: Seq<M>, n: int)
    requires
        0 <= n <= all.len(),
    ensures
        sum_sizes(all.take(n)) <= sum_sizes(all),
    decreases all.len() - n,
{
    if n < all.len() {
        lemma_sum_sizes_prefix(all, n + 1);
        assert(all.take(n + 1).drop_last() =~= all.take(n));
    } else {
        assert(all.take(n) =~= all);
    }
}

/// Number of the `pairs` whose send time `m` takes in.
pub open spec fn count_admitted<M: Metrics>(m: M, pairs: Seq<(u64, u64)>) -> nat
    decreases pairs.len(),
{
    if pairs.len() == 0 {
        0
    } else {
        count_admitted(m, pairs.drop_last()) + (if m.admits(pairs.last().0) {
            1nat
        } else {
            0nat
        })
    }
}

/// Latencies of the `pairs` whose send time `m` takes in.
pub open spec fn admitted_latencies<M: Metrics>(m: M, pairs: Seq<(u64, u64)>) -> Multiset<u64>
    decreases pairs.len(),
{
    if pairs.len() == 0 {
        Multiset::empty()
    } else {
        let rest = admitted_latencies(m, pairs.drop_last());
        let p = pairs.last();
        if m.admits(p.0) {
            rest.insert(M::class_of(latency(p.0, p.1)))
        } else {
            rest
        }
    }
}

/// The pairs whose send time lies within `[warmup_end, experiment_end)`.
pub open spec fn in_window_pairs(pairs: Seq<(u64, u64)>, warmup_end: u64, experiment_end: u64) -> Seq<
    (u64, u64),
> {
    pairs.filter(|p: (u64, u64)| in_window(p.0, warmup_end, experiment_end))
}

/// For a sink that admits exactly the send times of a window, the admitted count is the
/// number of pairs sent within the window.
pub proof fn lemma_count_admitted_window<M: Metrics>(
    m: M,
    pairs: Seq<(u64, u64)>,
    warmup_end: u64,
    experiment_end: u64,
)
    requires
        forall|t: u64| #[trigger] m.admits(t) == in_window(t, warmup_end, experiment_end),
    ensures
        count_admitted(m, pairs) == in_window_pairs(pairs, warmup_end, experiment_end).len(),
    decreases pairs.len(),
{
    reveal(Seq::filter);
    if pairs.len() > 0 {
        lemma_count_admitted_window(m, pairs.drop_last(), warmup_end, experiment_end);
    }
}

/// Each of `times` paired with the completion time `at`.
pub open spec fn completed_at(times: Seq<u64>, at: u64) -> Seq<(u64, u64)> {
    times.map_values(|t: u64| (t, at))
}

/// Two sinks that take in the same send times count and keep the same samples.
proof fn lemma_admitted_same<M: Metrics>(m1: M, m2: M, pairs: Seq<(u64, u64)>)
    requires
        forall|t: u64| #[trigger] m1.admits(t) == m2.admits(t),
    ensures
        count_admitted(m1, pairs) == count_admitted(m2, pairs),
        admitted_latencies(m1, pairs) == admitted_latencies(m2, pairs),
    decreases pairs.len(),
{
    if pairs.len() > 0 {
        lemma_admitted_same(m1, m2, pairs.drop_last());
    }
}

proof fn lemma_count_admitted_le<M: Metrics>(m: M, pairs: Seq<(u64, u64)>)
    ensures
        count_admitted(m, pairs) <= pairs.len(),
    decreases pairs.len(),
{
    if pairs.len() > 0 {
        lemma_count_admitted_le(m, pairs.drop_last());
    }
}

/// Maps completions back to the send times of a schedule and records the latency
/// of each into a metrics sink.
///
/// The pending send times are acknowledged strictly in order; `recorded_samples`
/// counts the acknowledged samples that the sink takes in.
pub struct MetricCollector<I: InputTimeResumableIterator, M: Metrics> {
    input_times: I,
    latency_metrics: M,
    recorded_samples: usize,
    acknowledged: Ghost<Seq<(u64, u64)>>,
    initial_latencies: Ghost<Multiset<u64>>,
}

impl<I: InputTimeResumableIterator, M: Metrics> MetricCollector<I, M> {
    /// The send times not acknowledged yet, in order.
    pub closed spec fn pending(&self) -> Seq<u64> {
        self.input_times.remaining()
    }

    /// The `(send time, completion time)` pairs acknowledged so far, in order.
    pub closed spec fn acknowledged(&self) -> Seq<(u64, u64)> {
        self.acknowledged@
    }

    /// The sink the samples go to.
    pub closed spec fn metrics(&self) -> M {
        self.latency_metrics
    }

    /// The latencies the sink held before the collector was made.
    pub closed spec fn initial_latencies(&self) -> Multiset<u64> {
        self.initial_latencies@
    }

    /// The counter that `recorded_samples` reports.
    pub closed spec fn recorded(&self) -> nat {
        self.recorded_samples as nat
    }

    /// The collector's counters and sink agree with what it acknowledged.
    pub closed spec fn wf(&self) -> bool {
        &&& self.latency_metrics.wf()
        &&& self.recorded_samples == count_admitted(self.latency_metrics, self.acknowledged@)
        &&& self.latency_metrics.latencies() == self.initial_latencies@.add(
            admitted_latencies(self.latency_metrics, self.acknowledged@),
        )
        &&& self.acknowledged@.len() + self.input_times.remaining().len() <= usize::MAX
        &&& self.latency_metrics.size() + self.input_times.remaining().len() <= usize::MAX
        &&& forall|i: int|
            0 <= i < self.input_times.remaining().len() ==> self.latency_metrics.accepts(
                #[trigger] self.input_times.remaining()[i],
            )
    }

    /// A collector for the send times of `input_times`, recording into `latency_metrics`.
    pub fn new(input_times: I, latency_metrics: M) -> (r: Self)
        requires
            latency_metrics.wf(),
            input_times.remaining().len() + latency_metrics.size() <= usize::MAX,
            forall|i: int|
                0 <= i < input_times.remaining().len() ==> latency_metrics.accepts(
                    #[trigger] input_times.remaining()[i],
                ),
        ensures
            r.wf(),
            r.pending() == input_times.remaining(),
            r.acknowledged() == Seq::<(u64, u64)>::empty(),
            r.metrics() == latency_metrics,
            r.initial_latencies() == latency_metrics.latencies(),
            r.recorded() == 0,
    {
        let r = MetricCollector {
            input_times,
            latency_metrics,
            recorded_samples: 0,
            acknowledged: Ghost(Seq::empty()),
            initial_latencies: Ghost(latency_metrics.latencies()),
        };
        assert(r.latency_metrics.latencies() =~= r.initial_latencies@.add(
            admitted_latencies(r.latency_metrics, r.acknowledged@),
        ));
        r
    }

    /// The sink, with the samples recorded into it.
    pub fn into_inner(self) -> (r: M)
        ensures
            r == self.metrics(),
    {
        self.latency_metrics
    }

    /// Number of acknowledged samples that the sink took in: those whose send time it
    /// admits, for a windowed sink those sent within its window.
    pub fn recorded_samples(&self) -> (r: usize)
        requires
            self.wf(),
        ensures
            r == count_admitted(self.metrics(), self.acknowledged()),
    {
        self.recorded_samples
    }

    /// Acknowledges the next pending send time as completed at `at`.
    pub fn acknowledge_next(&mut self, at: u64)
        requires
            old(self).wf(),
            old(self).pending().len() > 0,
        ensures
            final(self).wf(),
            final(self).pending() == old(self).pending().drop_first(),
            final(self).acknowledged() == old(self).acknowledged().push(
                (old(self).pending()[0], at),
            ),
            final(self).initial_latencies() == old(self).initial_latencies(),
            forall|t: u64| #[trigger] final(self).metrics().admits(t) == old(self).metrics().admits(t),
            final(self).recorded() == count_admitted(final(self).metrics(), final(self).acknowledged()),
            final(self).metrics().latencies() == final(self).initial_latencies().add(
                admitted_latencies(final(self).metrics(), final(self).acknowledged()),
            ),
    {
        let ghost old_self = *self;
        let begin_t = match self.input_times.next() {
            Some(t) => t,
            None => 0,
        };
        let admitted = self.latency_metrics.admits_sample(begin_t);
        proof {
            assert(old_self.input_times.remaining()[0] == begin_t);
            assert(self.latency_metrics.accepts(begin_t));
            lemma_count_admitted_le(self.latency_metrics, self.acknowledged@);
        }
        self.latency_metrics.record(begin_t, at);
        if admitted {
            self.recorded_samples = self.recorded_samples + 1;
        }
        let ghost old_acked = self.acknowledged@;
        self.acknowledged = Ghost(self.acknowledged@.push((begin_t, at)));
        proof {
            let m0 = old_self.latency_metrics;
            let m1 = self.latency_metrics;
            let acked = self.acknowledged@;
            lemma_admitted_same(m0, m1, old_acked);
            assert(acked.drop_last() =~= old_acked);
            assert forall|i: int|
                0 <= i < self.input_times.remaining().len() implies m1.accepts(
                #[trigger] self.input_times.remaining()[i],
            ) by {
                assert(self.input_times.remaining()[i] == old_self.input_times.remaining()[i + 1]);
            }
            assert(m1.latencies() =~= self.initial_latencies@.add(admitted_latencies(m1, acked)));
        }
    }

    /// Acknowledges, as completed at `at`, every pending send time up to `till_input_t`
    /// (inclusive).
    pub fn acknowledge_till_input_t(&mut self, at: u64, till_input_t: u64)
        requires
            old(self).wf(),
        ensures
            final(self).wf(),
            final(self).pending() == undrained(old(self).pending(), till_input_t),
            final(self).acknowledged() == old(self).acknowledged() + completed_at(
                drained(old(self).pending(), till_input_t),
                at,
            ),
            final(self).initial_latencies() == old(self).initial_latencies(),
            forall|t: u64| #[trigger] final(self).metrics().admits(t) == old(self).metrics().admits(t),
            final(self).recorded() == count_admitted(final(self).metrics(), final(self).acknowledged()),
            final(self).metrics().latencies() == final(self).initial_latencies().add(
                admitted_latencies(final(self).metrics(), final(self).acknowledged()),
            ),
    {
        let ghost start = *self;
        let ghost s0 = self.pending();
        let ghost n = count_until_incl(s0, till_input_t);
        loop
            invariant
                self.wf(),
                self.initial_latencies() == start.initial_latencies(),
                forall|t: u64| #[trigger] self.metrics().admits(t) == start.metrics().admits(t),
                s0 == start.pending(),
                count_until_incl(s0, till_input_t) == n,
                self.pending().len() <= s0.len(),
                n == (s0.len() - self.pending().len()) + count_until_incl(self.pending(), till_input_t),
                self.pending() == s0.skip(s0.len() - self.pending().len()),
                self.acknowledged() == start.acknowledged() + completed_at(
                    s0.take(s0.len() - self.pending().len()),
                    at,
                ),
            ensures
                self.wf(),
                self.initial_latencies() == start.initial_latencies(),
                forall|t: u64| #[trigger] self.metrics().admits(t) == start.metrics().admits(t),
                self.pending() == s0.skip(n as int),
                self.acknowledged() == start.acknowledged() + completed_at(s0.take(n as int), at),
            decreases self.pending().len(),
        {
            match self.input_times.peek() {
                Some(input_t) => {
                    if input_t <= till_input_t {
                        let ghost before = *self;
                        let ghost k = s0.len() - self.pending().len();
                        self.acknowledge_next(at);
                        proof {
                            assert(before.pending()[0] == s0[k]);
                            assert(self.pending() =~= s0.skip(k + 1));
                            assert(completed_at(s0.take(k + 1), at) =~= completed_at(s0.take(k), at).push(
                                (s0[k], at),
                            ));
                            assert(self.acknowledged() =~= start.acknowledged() + completed_at(
                                s0.take(k + 1),
                                at,
                            ));
                        }
                    } else {
                        break;
                    }
                },
                None => {
                    break;
                },
            }
        }
    }

    /// Acknowledges, as completed at `at`, pending send times for as long as `ack` holds
    /// of the next one.
    pub fn acknowledge_while<F: Fn(u64) -> bool>(&mut self, at: u64, ack: F)
        requires
            old(self).wf(),
            forall|t: u64| #[trigger] ack.requires((t,)),
        ensures
            final(self).wf(),
            exists|n: int|
                0 <= n <= old(self).pending().len() && final(self).pending() == old(
                    self,
                ).pending().skip(n) && final(self).acknowledged() == old(self).acknowledged()
                    + completed_at(old(self).pending().take(n), at) && (forall|i: int|
                    0 <= i < n ==> ack.ensures((#[trigger] old(self).pending()[i],), true)) && (n
                    < old(self).pending().len() ==> ack.ensures((old(self).pending()[n],), false)),
            final(self).initial_latencies() == old(self).initial_latencies(),
            forall|t: u64| #[trigger] final(self).metrics().admits(t) == old(self).metrics().admits(t),
            final(self).recorded() == count_admitted(final(self).metrics(), final(self).acknowledged()),
            final(self).metrics().latencies() == final(self).initial_latencies().add(
                admitted_latencies(final(self).metrics(), final(self).acknowledged()),
            ),
    {
        let ghost start = *self;
        let ghost s0 = self.pending();
        loop
            invariant
                self.wf(),
                forall|t: u64| #[trigger] ack.requires((t,)),
                self.initial_latencies() == start.initial_latencies(),
                forall|t: u64| #[trigger] self.metrics().admits(t) == start.metrics().admits(t),
                s0 == start.pending(),
                self.pending().len() <= s0.len(),
                self.pending() == s0.skip(s0.len() - self.pending().len()),
                self.acknowledged() == start.acknowledged() + completed_at(
                    s0.take(s0.len() - self.pending().len()),
                    at,
                ),
                forall|i: int|
                    0 <= i < s0.len() - self.pending().len() ==> ack.ensures(
                        (#[trigger] s0[i],),
                        true,
                    ),
            ensures
                self.wf(),
                self.initial_latencies() == start.initial_latencies(),
                forall|t: u64| #[trigger] self.metrics().admits(t) == start.metrics().admits(t),
                ({
                    let n = s0.len() - self.pending().len();
                    &&& 0 <= n <= s0.len()
                    &&& self.pending() == s0.skip(n)
                    &&& self.acknowledged() == start.acknowledged() + completed_at(s0.take(n), at)
                    &&& forall|i: int| 0 <= i < n ==> ack.ensures((#[trigger] s0[i],), true)
                    &&& n < s0.len() ==> ack.ensures((s0[n],), false)
                }),
            decreases self.pending().len(),
        {
            match self.input_times.peek() {
                Some(input_t) => {
                    let ghost before = *self;
                    let ghost k = s0.len() - self.pending().len();
                    proof {
                        assert(self.pending().len() > 0);
                        assert(self.pending()[0] == s0[k]);
                    }
                    let go = ack(input_t);
                    if go {
                        self.acknowledge_next(at);
                        proof {
                            assert(before.pending()[0] == s0[k]);
                            assert(self.pending() =~= s0.skip(k + 1));
                            assert(completed_at(s0.take(k + 1), at) =~= completed_at(s0.take(k), at).push(
                                (s0[k], at),
                            ));
                            assert(self.acknowledged() =~= start.acknowledged() + completed_at(
                                s0.take(k + 1),
                                at,
                            ));
                        }
                    } else {
                        break;
                    }
                },
                None => {
                    break;
                },
            }
        }
        proof {
            let n = s0.len() - self.pending().len();
            assert(0 <= n <= s0.len());
        }
    }
}

/// A collector for the send times of `input_times` whose sink is a timeline of histograms:
/// buckets of width `timeline_interval` from `start` up to `total_duration`, each with its
/// own histogram, and an overall histogram that takes in only the samples sent within
/// `[overall_start, overall_end)`.
pub fn hdrhist_timeline_collector<I: InputTimeResumableIterator>(
    input_times: I,
    start: u64,
    overall_start: u64,
    overall_end: u64,
    total_duration: u64,
    timeline_interval: u64,
) -> (r: MetricCollector<I, Timeline<WarmupDurationMetrics<HDRHist>, HDRHist>>)
    requires
        timeline_interval > 0,
        input_times.remaining().len() <= usize::MAX,
        input_times.remaining().len() > 0 ==> start < total_duration,
        forall|i: int|
            0 <= i < input_times.remaining().len() ==> #[trigger] input_times.remaining()[i]
                < total_duration,
    ensures
        r.wf(),
        r.pending() == input_times.remaining(),
        r.acknowledged() == Seq::<(u64, u64)>::empty(),
        r.recorded() == 0,
        forall|t: u64|
            #[trigger] r.metrics().admits(t) == in_window(t, overall_start, overall_end),
        r.metrics().start() == start,
        r.metrics().dt() == timeline_interval,
        r.metrics().cursor() == 0,
        r.metrics().elements().len() == schedule_len(
            start as int,
            timeline_interval as int,
            total_duration as int,
        ),
        forall|i: int|
            0 <= i < r.metrics().elements().len() ==> (#[trigger] r.metrics().elements()[i]).time
                == start + i * timeline_interval && r.metrics().elements()[i].samples == 0
                && hist_buckets(r.metrics().elements()[i].metrics) == Multiset::<u64>::empty(),
        r.metrics().overall().warmup_end() == overall_start,
        r.metrics().overall().experiment_end() == overall_end,
        hist_buckets(r.metrics().overall().inner()) == Multiset::<u64>::empty(),
{
    let overall = WarmupDurationMetrics::new(HDRHist::new(), overall_start, overall_end);
    let fresh = || -> (h: HDRHist)
        ensures
            hist_buckets(h) == Multiset::<u64>::empty(),
        { HDRHist::new() };
    let timeline = Timeline::new(start, total_duration, timeline_interval, overall, fresh);
    proof {
        lemma_timeline_overall(timeline);
        lemma_schedule_shape(start, timeline_interval, total_duration);
        let n = timeline.elements().len();
        assert forall|i: int|
            0 <= i < input_times.remaining().len() implies timeline.accepts(
            #[trigger] input_times.remaining()[i],
        ) by {
            assert(n > 0) by {
                vstd::arithmetic::div_mod::lemma_div_pos_is_pos(
                    total_duration - start + timeline_interval - 1,
                    timeline_interval as int,
                );
                vstd::arithmetic::div_mod::lemma_div_plus_one(
                    total_duration - start - 1,
                    timeline_interval as int,
                );
                assert(total_duration - start + timeline_interval - 1 == timeline_interval + (
                total_duration - start - 1));
            }
        }
    }
    MetricCollector::new(input_times, timeline)
}

} // verus!
