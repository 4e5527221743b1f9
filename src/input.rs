//! Schedules of logical send times, and a cursor that drains them up to a bound.

use vstd::arithmetic::div_mod::{lemma_basic_div, lemma_div_plus_one, lemma_fundamental_div_mod, lemma_multiply_divide_le};
use vstd::prelude::*;

verus! {

/// Number of points `first, first + d, first + 2d, ...` that lie strictly below `end`:
/// `ceil((end - first) / d)`, or zero when `end <= first`.
pub open spec fn schedule_len(first: int, d: int, end: int) -> nat {
    if d <= 0 || end <= first {
        0
    } else {
        ((end - first + d - 1) / d) as nat
    }
}

/// The schedule `first, first + d, first + 2d, ...`, cut strictly before `end`.
pub open spec fn schedule(first: int, d: int, end: int) -> Seq<u64> {
    Seq::new(schedule_len(first, d, end), |k: int| (first + k * d) as u64)
}

/// Every element of `s` is smaller than every element after it.
pub open spec fn strictly_increasing(s: Seq<u64>) -> bool {
    forall|i: int, j: int| 0 <= i < j < s.len() ==> s[i] < s[j]
}

/// A source of logical send times that can be inspected before it is consumed.
///
/// `remaining()` is the sequence of times not handed out yet, in the order they come.
pub trait InputTimeResumableIterator: Sized {
    /// The times still to come, in order.
    spec fn remaining(&self) -> Seq<u64>;

    /// The times still to come are strictly increasing.
    proof fn lemma_remaining_increasing(&self)
        ensures
            strictly_increasing(self.remaining()),
    ;

    /// Hands out the next time, or `None` when none is left.
    fn next(&mut self) -> (r: Option<u64>)
        ensures
            old(self).remaining().len() == 0 ==> r is None
                && final(self).remaining() == old(self).remaining(),
            old(self).remaining().len() > 0 ==> r == Some(old(self).remaining()[0])
                && final(self).remaining() == old(self).remaining().drop_first(),
    ;

    /// The next time, without consuming it.
    fn peek(&self) -> (r: Option<u64>)
        ensures
            r == (if self.remaining().len() == 0 {
                None::<u64>
            } else {
                Some(self.remaining()[0])
            }),
    ;

    /// Whether the times are used up for good.
    fn end(&self) -> (r: bool)
        ensures
            r == (self.remaining().len() == 0),
    ;
}

/// Times at a constant rate: `first, first + inter_arrival, ...` strictly below `end`.
pub struct ConstantThroughputInputTimes {
    next: u64,
    inter_arrival: u64,
    end: u64,
}

impl ConstantThroughputInputTimes {
    #[verifier::type_invariant]
    spec fn inv(self) -> bool {
        self.inter_arrival > 0
    }

    /// A schedule that starts at `first` and steps by `inter_arrival` until `end`.
    pub fn new(first: u64, inter_arrival: u64, end: u64) -> (r: Self)
        requires
            inter_arrival > 0,
        ensures
            r.remaining() == schedule(first as int, inter_arrival as int, end as int),
    {
        ConstantThroughputInputTimes { next: first, inter_arrival, end }
    }
}

/// After one step the schedule is one shorter.
proof fn lemma_schedule_len_step(n: int, d: int, e: int)
    requires
        d > 0,
        n < e,
    ensures
        schedule_len(n + d, d, e) + 1 == schedule_len(n, d, e),
{
    lemma_div_plus_one(e - n - 1, d);
    assert(e - n + d - 1 == d + (e - n - 1));
    if e > n + d {
        assert(e - (n + d) + d - 1 == e - n - 1);
    } else {
        assert(0 <= e - n - 1 < d);
        lemma_basic_div(e - n - 1, d);
    }
}

/// Every point of a schedule lies strictly below its end.
pub proof fn lemma_schedule_below_end(first: int, d: int, end: int, k: int)
    requires
        d > 0,
        0 <= k < schedule_len(first, d, end),
    ensures
        first + k * d < end,
{
    let x = end - first + d - 1;
    lemma_fundamental_div_mod(x, d);
    assert((k + 1) <= x / d);
    assert((k + 1) * d <= (x / d) * d) by (nonlinear_arith)
        requires
            k + 1 <= x / d,
            d > 0,
    ;
    assert(x % d >= 0);
    assert(d * (x / d) == (x / d) * d) by (nonlinear_arith);
    assert((k + 1) * d == k * d + d) by (nonlinear_arith);
}

/// The points of a schedule strictly increase.
pub proof fn lemma_schedule_increasing(first: int, d: int, end: int)
    requires
        0 <= first,
        end <= u64::MAX,
    ensures
        strictly_increasing(schedule(first, d, end)),
{
    let s = schedule(first, d, end);
    if d > 0 {
        assert forall|i: int, j: int| 0 <= i < j < s.len() implies s[i] < s[j] by {
            lemma_schedule_below_end(first, d, end, j);
            assert(i * d < j * d) by (nonlinear_arith)
                requires
                    i < j,
                    d > 0,
            ;
            assert(0 <= i * d) by (nonlinear_arith)
                requires
                    0 <= i,
                    d > 0,
            ;
            assert(s[i] == first + i * d);
            assert(s[j] == first + j * d);
        }
    }
}

impl InputTimeResumableIterator for ConstantThroughputInputTimes {
    closed spec fn remaining(&self) -> Seq<u64> {
        schedule(self.next as int, self.inter_arrival as int, self.end as int)
    }

    proof fn lemma_remaining_increasing(&self) {
        lemma_schedule_increasing(self.next as int, self.inter_arrival as int, self.end as int);
    }

    fn next(&mut self) -> (r: Option<u64>) {
        proof {
            use_type_invariant(&*self);
        }
        if self.next < self.end {
            let n = self.next;
            let ghost old_rem = self.remaining();
            let ghost d = self.inter_arrival as int;
            let ghost e = self.end as int;
            proof {
                lemma_schedule_len_step(n as int, d, e);
            }
            self.next = match self.next.checked_add(self.inter_arrival) {
                Some(v) => v,
                None => self.end,
            };
            proof {
                let new_rem = self.remaining();
                if n as int + d <= u64::MAX {
                    assert forall|k: int| 0 <= k < new_rem.len() implies new_rem[k]
                        == old_rem.drop_first()[k] by {
                        assert((n as int + d) + k * d == n as int + (k + 1) * d)
                            by (nonlinear_arith);
                    }
                    assert(new_rem =~= old_rem.drop_first());
                } else {
                    assert(schedule_len(n as int + d, d, e) == 0);
                    assert(new_rem =~= old_rem.drop_first());
                }
                assert(old_rem[0] == n) by {
                    assert(n as int + 0 * d == n as int);
                }
            }
            Some(n)
        } else {
            None
        }
    }

    fn peek(&self) -> (r: Option<u64>) {
        proof {
            use_type_invariant(self);
        }
        if self.next < self.end {
            proof {
                assert(self.next as int + 0 * self.inter_arrival as int == self.next as int);
                lemma_multiply_divide_le(0, 1, 0);
                lemma_schedule_len_step(self.next as int, self.inter_arrival as int, self.end as int);
            }
            Some(self.next)
        } else {
            None
        }
    }

    fn end(&self) -> (r: bool) {
        proof {
            use_type_invariant(self);
            if self.next < self.end {
                lemma_schedule_len_step(self.next as int, self.inter_arrival as int, self.end as int);
            }
        }
        self.next >= self.end
    }
}

/// The emitted sequence of a schedule is exactly `first, first + d, first + 2d, ...`, every
/// point lies strictly before `end`, the next point would not, and the count is
/// `max(0, ceil((end - first) / d))`.
pub proof fn lemma_schedule_shape(first: u64, d: u64, end: u64)
    requires
        d > 0,
    ensures
        ({
            let s = schedule(first as int, d as int, end as int);
            &&& s.len() == (if end <= first {
                0
            } else {
                (end - first + d - 1) / d as int
            })
            &&& forall|k: int| 0 <= k < s.len() ==> s[k] == first + k * d && s[k] < end
            &&& first + s.len() * d >= end
        }),
{
    let s = schedule(first as int, d as int, end as int);
    assert forall|k: int| 0 <= k < s.len() implies s[k] == first + k * d && s[k] < end by {
        lemma_schedule_below_end(first as int, d as int, end as int, k);
        assert(0 <= k * d) by (nonlinear_arith)
            requires
                0 <= k,
                d > 0,
        ;
    }
    if end > first {
        let x = end - first + d - 1;
        lemma_fundamental_div_mod(x, d as int);
        assert(x % (d as int) < d);
        assert(d * (x / d as int) == s.len() * d) by (nonlinear_arith)
            requires
                s.len() == x / d as int,
        ;
    }
}

/// Length of the longest prefix of `s` whose elements are all at most `bound`.
pub open spec fn count_until_incl(s: Seq<u64>, bound: u64) -> nat
    decreases s.len(),
{
    if s.len() == 0 || s[0] > bound {
        0
    } else {
        1 + count_until_incl(s.drop_first(), bound)
    }
}

/// What draining `s` up to `bound` (inclusive) hands out.
pub open spec fn drained(s: Seq<u64>, bound: u64) -> Seq<u64> {
    s.take(count_until_incl(s, bound) as int)
}

/// What is left of `s` after draining it up to `bound` (inclusive).
pub open spec fn undrained(s: Seq<u64>, bound: u64) -> Seq<u64> {
    s.skip(count_until_incl(s, bound) as int)
}

proof fn lemma_count_until_incl_bounds(s: Seq<u64>, bound: u64)
    ensures
        count_until_incl(s, bound) <= s.len(),
        forall|i: int| 0 <= i < count_until_incl(s, bound) ==> s[i] <= bound,
        count_until_incl(s, bound) < s.len() ==> s[count_until_incl(s, bound) as int] > bound,
    decreases s.len(),
{
    if s.len() > 0 && s[0] <= bound {
        lemma_count_until_incl_bounds(s.drop_first(), bound);
        assert forall|i: int| 0 <= i < count_until_incl(s, bound) implies s[i] <= bound by {
            if i > 0 {
                assert(s[i] == s.drop_first()[i - 1]);
            }
        }
    }
}

/// In an increasing sequence, the drained prefix is exactly the elements at most `bound`.
proof fn lemma_count_until_incl_increasing(s: Seq<u64>, bound: u64)
    requires
        strictly_increasing(s),
    ensures
        forall|i: int|
            0 <= i < s.len() ==> (s[i] <= bound <==> i < count_until_incl(s, bound)),
{
    lemma_count_until_incl_bounds(s, bound);
    let n = count_until_incl(s, bound) as int;
    assert forall|i: int| 0 <= i < s.len() implies (s[i] <= bound <==> i < n) by {
        if i >= n && n < s.len() {
            assert(s[n] > bound);
            if i > n {
                assert(s[n] < s[i]);
            }
        }
    }
}

/// A drain hands out a prefix of `s` whose elements are all at most `bound`, and leaves the
/// rest; the prefix of a strictly increasing sequence is strictly increasing.
pub proof fn lemma_drained(s: Seq<u64>, bound: u64)
    ensures
        drained(s, bound) + undrained(s, bound) == s,
        forall|i: int| 0 <= i < drained(s, bound).len() ==> #[trigger] drained(s, bound)[i] <= bound,
        strictly_increasing(s) ==> strictly_increasing(drained(s, bound)),
{
    lemma_count_until_incl_bounds(s, bound);
    assert(drained(s, bound) + undrained(s, bound) =~= s);
}

/// A cursor over a source of send times that hands out, on request, every time not
/// handed out yet that is at most a given bound.
pub struct SyntheticInputTimeGenerator<I: InputTimeResumableIterator> {
    input_times: I,
}

impl<I: InputTimeResumableIterator> SyntheticInputTimeGenerator<I> {
    /// The times not handed out yet, in order.
    pub closed spec fn remaining(&self) -> Seq<u64> {
        self.input_times.remaining()
    }

    /// A cursor at the start of `input_times`.
    pub fn new(input_times: I) -> (r: Self)
        ensures
            r.remaining() == input_times.remaining(),
    {
        SyntheticInputTimeGenerator { input_times }
    }

    /// The remaining times are strictly increasing.
    pub proof fn lemma_remaining_increasing(&self)
        ensures
            strictly_increasing(self.remaining()),
    {
        self.input_times.lemma_remaining_increasing();
    }

    /// Whether the times are used up for good.
    pub fn is_exhausted(&self) -> (r: bool)
        ensures
            r == (self.remaining().len() == 0),
    {
        self.input_times.end()
    }

    /// Hands out the next remaining time if it is at most `until_incl`, and `None`
    /// otherwise: the step of a lazy drain, which consumes a time only as it yields it.
    pub fn next_until_incl(&mut self, until_incl: u64) -> (r: Option<u64>)
        ensures
            old(self).remaining().len() > 0 && old(self).remaining()[0] <= until_incl ==> r
                == Some(old(self).remaining()[0]) && final(self).remaining() == old(
                self,
            ).remaining().drop_first(),
            !(old(self).remaining().len() > 0 && old(self).remaining()[0] <= until_incl) ==> r
                is None && final(self).remaining() == old(self).remaining(),
    {
        match self.input_times.peek() {
            Some(t) => {
                if t <= until_incl {
                    self.input_times.next()
                } else {
                    None
                }
            },
            None => None,
        }
    }

    /// Hands out, in order, every remaining time that is at most `until_incl`.
    ///
    /// `None` says that the times are used up for good; `Some` of an empty vector
    /// says that none is due yet.
    pub fn iter_until_incl(&mut self, until_incl: u64) -> (r: Option<Vec<u64>>)
        ensures
            old(self).remaining().len() == 0 ==> r is None && final(self).remaining()
                == old(self).remaining(),
            old(self).remaining().len() > 0 ==> r is Some && r.unwrap()@ == drained(
                old(self).remaining(),
                until_incl,
            ) && final(self).remaining() == undrained(old(self).remaining(), until_incl),
    {
        if self.input_times.end() {
            return None;
        }
        let ghost start = self.remaining();
        let mut out: Vec<u64> = Vec::new();
        loop
            invariant
                start == out@ + self.remaining(),
                count_until_incl(start, until_incl) == out@.len() + count_until_incl(
                    self.remaining(),
                    until_incl,
                ),
            ensures
                start == out@ + self.remaining(),
                out@.len() == count_until_incl(start, until_incl),
            decreases self.remaining().len(),
        {
            match self.next_until_incl(until_incl) {
                Some(t) => {
                    out.push(t);
                    proof {
                        assert(start =~= out@ + self.remaining());
                    }
                },
                None => {
                    break;
                },
            }
        }
        proof {
            assert(out@ =~= start.take(out@.len() as int));
            assert(self.remaining() =~= start.skip(out@.len() as int));
        }
        Some(out)
    }
}

/// The drain counts of an increasing sequence under two bounds `b1 <= b2`.
proof fn lemma_drain_counts(s: Seq<u64>, b1: u64, b2: u64)
    requires
        strictly_increasing(s),
        b1 <= b2,
    ensures
        count_until_incl(s, b1) <= count_until_incl(s, b2),
        count_until_incl(undrained(s, b1), b2) == count_until_incl(s, b2) - count_until_incl(
            s,
            b1,
        ),
{
    let rest = undrained(s, b1);
    let n1 = count_until_incl(s, b1) as int;
    let n2 = count_until_incl(s, b2) as int;
    lemma_count_until_incl_bounds(s, b1);
    lemma_count_until_incl_bounds(s, b2);
    assert(n1 <= n2) by {
        if n1 > n2 {
            lemma_count_until_incl_increasing(s, b1);
            assert(s[n2] <= b1);
        }
    }
    lemma_count_until_incl_bounds(rest, b2);
    let m = count_until_incl(rest, b2) as int;
    assert(m == n2 - n1) by {
        if m < n2 - n1 {
            assert(rest[m] == s[n1 + m]);
            assert(s[n1 + m] <= b2);
        }
        if m > n2 - n1 {
            assert(rest[n2 - n1] == s[n2]);
        }
    }
}

/// Two drains of an increasing sequence, up to `b1` and then up to `b2 >= b1`, hand out
/// and leave what one drain up to `b2` would.
proof fn lemma_two_drains(s: Seq<u64>, b1: u64, b2: u64)
    requires
        strictly_increasing(s),
        b1 <= b2,
    ensures
        drained(s, b1) + drained(undrained(s, b1), b2) == drained(s, b2),
        undrained(undrained(s, b1), b2) == undrained(s, b2),
{
    lemma_drain_counts(s, b1, b2);
    lemma_count_until_incl_bounds(s, b2);
    let rest = undrained(s, b1);
    let n2 = count_until_incl(s, b2) as int;
    assert(drained(s, b1) + drained(rest, b2) =~= s.take(n2));
    assert(undrained(rest, b2) =~= s.skip(n2));
}

/// What draining `s` up to each of `bounds` in turn hands out, all together.
pub open spec fn drain_each(s: Seq<u64>, bounds: Seq<u64>) -> Seq<u64>
    decreases bounds.len(),
{
    if bounds.len() == 0 {
        Seq::empty()
    } else {
        drain_each(s, bounds.drop_last()) + drained(
            left_after(s, bounds.drop_last()),
            bounds.last(),
        )
    }
}

/// What is left of `s` after draining it up to each of `bounds` in turn.
pub open spec fn left_after(s: Seq<u64>, bounds: Seq<u64>) -> Seq<u64>
    decreases bounds.len(),
{
    if bounds.len() == 0 {
        s
    } else {
        undrained(left_after(s, bounds.drop_last()), bounds.last())
    }
}

/// Draining with a non-decreasing run of bounds, any number of times, hands out exactly what
/// one drain up to the last bound would: a prefix of the schedule in strictly increasing
/// order, so no time comes out twice and each drain's times follow all earlier ones.
pub proof fn lemma_drains_never_repeat<I: InputTimeResumableIterator>(
    g: SyntheticInputTimeGenerator<I>,
    bounds: Seq<u64>,
)
    requires
        bounds.len() > 0,
        forall|i: int, j: int| 0 <= i <= j < bounds.len() ==> bounds[i] <= bounds[j],
    ensures
        drain_each(g.remaining(), bounds) == drained(g.remaining(), bounds.last()),
        left_after(g.remaining(), bounds) == undrained(g.remaining(), bounds.last()),
        strictly_increasing(drain_each(g.remaining(), bounds)),
        drain_each(g.remaining(), bounds) == g.remaining().take(
            drain_each(g.remaining(), bounds).len() as int,
        ),
    decreases bounds.len(),
{
    let s = g.remaining();
    g.lemma_remaining_increasing();
    let init = bounds.drop_last();
    if bounds.len() == 1 {
        assert(init.len() == 0);
        assert(drain_each(s, init) == Seq::<u64>::empty());
        assert(left_after(s, init) == s);
        assert(drain_each(s, bounds) =~= drained(s, bounds.last()));
    } else {
        lemma_drains_never_repeat(g, init);
        assert(init.last() == bounds[bounds.len() - 2]);
        lemma_two_drains(s, init.last(), bounds.last());
    }
    lemma_drained(s, bounds.last());
    lemma_count_until_incl_bounds(s, bounds.last());
}

} // verus!
