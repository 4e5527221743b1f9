//! The histogram that accumulates latencies, from the `streaming-harness-hdrhist` crate.
//!
//! A histogram keeps one `u64` counter per value bucket: row `index` (the bit length of the
//! value less four, or zero) and column `low` (the four bits below the value's top bit, or
//! the value itself when it is small). Everything it reports is a function of how many
//! values fell into each bucket, the multiset that `hist_buckets` names, with each bucket
//! written as `index * 16 + low`.

use streaming_harness_hdrhist::HDRHist;
use vstd::arithmetic::power2::pow2;
use vstd::multiset::Multiset;
use vstd::prelude::*;

verus! {

#[verifier::external_type_specification]
#[verifier::external_body]
pub struct ExHDRHist(HDRHist);

/// The buckets of the values added to a histogram (see `bucket_of`), with multiplicities:
/// what its counters hold.
pub uninterp spec fn hist_buckets(h: HDRHist) -> Multiset<u64>;

/// Number of binary digits of `v`, the leading one included; zero for zero.
pub open spec fn bit_length(v: nat) -> nat
    decreases v,
{
    if v == 0 {
        0
    } else {
        1 + bit_length(v / 2)
    }
}

/// The bucket that `HDRHist::add_value` counts `value` in, as `index * 16 + low`:
/// `index` is the bit length less four (at least zero), and `low` the four bits of `value`
/// from position `index - 1` up (from position zero when `index` is zero).
pub open spec fn bucket_of(value: u64) -> u64 {
    let msb = bit_length(value as nat);
    let index: nat = if msb > 4 {
        (msb - 4) as nat
    } else {
        0
    };
    let shift: nat = if index > 0 {
        (index - 1) as nat
    } else {
        0
    };
    let low = (value as nat / pow2(shift)) % 16;
    (index * 16 + low) as u64
}

/// The rows `(value, probability)` that `HDRHist::ccdf_upper_bound` reports for a
/// histogram whose counters hold the buckets `values`, each probability written as Rust's `{}` writes an `f64`.
pub uninterp spec fn ccdf_upper_bound_of(values: Multiset<u64>) -> Seq<(u64, Seq<char>)>;

/// The upper bounds of the quantile estimates that `HDRHist::summary` reports for a
/// histogram whose counters hold the buckets `values`.
pub uninterp spec fn summary_upper_bounds_of(values: Multiset<u64>) -> Seq<u64>;

/// Relies on `HDRHist::new`: every counter starts at zero.
pub assume_specification[ HDRHist::new ]() -> (r: HDRHist)
    ensures
        hist_buckets(r) == Multiset::<u64>::empty(),
;

/// Relies on `HDRHist::add_value`: adds one to the `u64` counter of the value's bucket,
/// which cannot overflow while fewer than `u64::MAX` values are held.
pub assume_specification[ HDRHist::add_value ](h: &mut HDRHist, value: u64)
    requires
        hist_buckets(*old(h)).len() < u64::MAX,
    ensures
        hist_buckets(*final(h)) == hist_buckets(*old(h)).insert(bucket_of(value)),
;

/// Relies on `HDRHist::combined`: adds the counters of `other` to those of `h`, bucket by
/// bucket, which cannot overflow while the two hold at most `u64::MAX` values together.
#[verifier::external_body]
pub(crate) fn hist_combined(h: HDRHist, other: HDRHist) -> (r: HDRHist)
    requires
        hist_buckets(h).len() + hist_buckets(other).len() <= u64::MAX,
    ensures
        hist_buckets(r) == hist_buckets(h).add(hist_buckets(other)),
{
    h.combined(other)
}

/// Relies on `HDRHist::ccdf_upper_bound`: its rows depend on the counters alone. Its total
/// is a `u64` sum of the counters, hence the bound.
#[verifier::external_body]
pub(crate) fn hist_ccdf_upper_bound(h: &HDRHist) -> (r: Vec<(u64, String)>)
    requires
        hist_buckets(*h).len() <= u64::MAX,
    ensures
        r@.map_values(|row: (u64, String)| (row.0, row.1@)) == ccdf_upper_bound_of(
            hist_buckets(*h),
        ),
{
    h.ccdf_upper_bound().map(|(value, prob)| (value, format!("{}", prob))).collect()
}

/// Relies on `HDRHist::summary`: one estimate for each of its seven fixed quantiles,
/// depending on the counters alone. Its total is a `u64` sum of the counters, hence the
/// bound.
#[verifier::external_body]
pub(crate) fn hist_summary_upper_bounds(h: &HDRHist) -> (r: Vec<u64>)
    requires
        hist_buckets(*h).len() <= u64::MAX,
    ensures
        r@ == summary_upper_bounds_of(hist_buckets(*h)),
        r@.len() == 7,
{
    h.summary().map(|(_, _, upper_bound)| upper_bound).collect()
}

} // verus!
