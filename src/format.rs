//! Text reports of a timeline of histograms.

use crate::hist::{
    ccdf_upper_bound_of, hist_ccdf_upper_bound, hist_summary_upper_bounds, hist_buckets,
    summary_upper_bounds_of,
};
use crate::timeline::TimelineElement;
use streaming_harness_hdrhist::HDRHist;
use vstd::prelude::*;

verus! {

/// The character of decimal digit `d`.
pub open spec fn digit_char(d: nat) -> char {
    if d == 0 {
        '0'
    } else if d == 1 {
        '1'
    } else if d == 2 {
        '2'
    } else if d == 3 {
        '3'
    } else if d == 4 {
        '4'
    } else if d == 5 {
        '5'
    } else if d == 6 {
        '6'
    } else if d == 7 {
        '7'
    } else if d == 8 {
        '8'
    } else {
        '9'
    }
}

/// `n` written in decimal, without leading zeros.
pub open spec fn decimal(n: nat) -> Seq<char>
    decreases n,
{
    if n < 10 {
        seq![digit_char(n)]
    } else {
        decimal(n / 10).push(digit_char(n % 10))
    }
}

/// `parts` joined with `sep` between each two of them.
pub open spec fn join(parts: Seq<Seq<char>>, sep: Seq<char>) -> Seq<char>
    decreases parts.len(),
{
    if parts.len() == 0 {
        Seq::empty()
    } else if parts.len() == 1 {
        parts[0]
    } else {
        join(parts.drop_last(), sep) + sep + parts.last()
    }
}

/// One line of the detailed report: prefix, bucket time, value and probability,
/// separated by tabs.
pub open spec fn detailed_line(prefix: Seq<char>, time: u64, row: (u64, Seq<char>)) -> Seq<char> {
    prefix + seq!['\t'] + decimal(time as nat) + seq!['\t'] + decimal(row.0 as nat) + seq!['\t']
        + row.1
}

/// The lines of the detailed report for one bucket, one per row of its ccdf.
pub open spec fn detailed_bucket(prefix: Seq<char>, e: TimelineElement<HDRHist>) -> Seq<char> {
    join(
        ccdf_upper_bound_of(hist_buckets(e.metrics)).map_values(
            |row: (u64, Seq<char>)| detailed_line(prefix, e.time, row),
        ),
        seq!['\n'],
    )
}

/// The detailed report of a timeline.
pub open spec fn detailed_report(prefix: Seq<char>, timeline: Seq<TimelineElement<HDRHist>>) -> Seq<
    char,
> {
    join(timeline.map_values(|e: TimelineElement<HDRHist>| detailed_bucket(prefix, e)), seq!['\n'])
}

/// The upper bounds, in decimal, each after a tab.
pub open spec fn tabbed_decimals(values: Seq<u64>) -> Seq<char>
    decreases values.len(),
{
    if values.len() == 0 {
        Seq::empty()
    } else {
        tabbed_decimals(values.drop_last()) + seq!['\t'] + decimal(values.last() as nat)
    }
}

/// The line of the summary report for one bucket: prefix, bucket time, and the upper
/// bound of each quantile estimate, separated by tabs.
pub open spec fn summary_line(prefix: Seq<char>, e: TimelineElement<HDRHist>) -> Seq<char> {
    let bounds = summary_upper_bounds_of(hist_buckets(e.metrics));
    prefix + seq!['\t'] + decimal(e.time as nat) + seq!['\t'] + join(
        bounds.map_values(|v: u64| decimal(v as nat)),
        seq!['\t'],
    )
}

/// The summary report of a timeline.
pub open spec fn summary_report(prefix: Seq<char>, timeline: Seq<TimelineElement<HDRHist>>) -> Seq<
    char,
> {
    join(timeline.map_values(|e: TimelineElement<HDRHist>| summary_line(prefix, e)), seq!['\n'])
}

/// Appends decimal digit `d`.
fn push_digit(out: &mut String, d: u64)
    requires
        d < 10,
    ensures
        final(out)@ == old(out)@.push(digit_char(d as nat)),
{
    let s = if d == 0 {
        "0"
    } else if d == 1 {
        "1"
    } else if d == 2 {
        "2"
    } else if d == 3 {
        "3"
    } else if d == 4 {
        "4"
    } else if d == 5 {
        "5"
    } else if d == 6 {
        "6"
    } else if d == 7 {
        "7"
    } else if d == 8 {
        "8"
    } else {
        "9"
    };
    proof {
        reveal_strlit("0");
        reveal_strlit("1");
        reveal_strlit("2");
        reveal_strlit("3");
        reveal_strlit("4");
        reveal_strlit("5");
        reveal_strlit("6");
        reveal_strlit("7");
        reveal_strlit("8");
        reveal_strlit("9");
    }
    out.append(s);
    proof {
        assert(final(out)@ =~= old(out)@.push(digit_char(d as nat)));
    }
}

/// Appends `n` in decimal.
fn push_decimal(out: &mut String, n: u64)
    ensures
        final(out)@ == old(out)@ + decimal(n as nat),
    decreases n,
{
    if n >= 10 {
        push_decimal(out, n / 10);
    }
    push_digit(out, n % 10);
    proof {
        if n >= 10 {
            assert(final(out)@ =~= old(out)@ + decimal(n as nat));
        } else {
            assert(final(out)@ =~= old(out)@ + decimal(n as nat));
        }
    }
}

/// Appends a tab.
fn push_tab(out: &mut String)
    ensures
        final(out)@ == old(out)@ + seq!['\t'],
{
    proof {
        reveal_strlit("\t");
    }
    out.append("\t");
}

/// Appends a newline.
fn push_newline(out: &mut String)
    ensures
        final(out)@ == old(out)@ + seq!['\n'],
{
    proof {
        reveal_strlit("\n");
    }
    out.append("\n");
}

/// Adding one more part to a join.
proof fn lemma_join_push(parts: Seq<Seq<char>>, sep: Seq<char>, p: Seq<char>)
    ensures
        join(parts.push(p), sep) == (if parts.len() == 0 {
            p
        } else {
            join(parts, sep) + sep + p
        }),
{
    assert(parts.push(p).drop_last() =~= parts);
}

/// For each bucket of `timeline`, one line per row of its histogram's ccdf upper bound:
/// the prefix, the bucket's time, the value and its probability, separated by tabs.
pub fn format_detailed_timeline(prefix: String, timeline: Vec<TimelineElement<HDRHist>>) -> (r:
    String)
    requires
        forall|i: int|
            0 <= i < timeline@.len() ==> hist_buckets((#[trigger] timeline@[i]).metrics).len()
                <= u64::MAX,
    ensures
        r@ == detailed_report(prefix@, timeline@),
{
    let ghost lines = timeline@.map_values(
        |e: TimelineElement<HDRHist>| detailed_bucket(prefix@, e),
    );
    let mut out = String::new();
    let mut i: usize = 0;
    while i < timeline.len()
        invariant
            i <= timeline@.len(),
            lines == timeline@.map_values(|e: TimelineElement<HDRHist>| detailed_bucket(prefix@, e)),
            out@ == join(lines.take(i as int), seq!['\n']),
            forall|k: int|
                0 <= k < timeline@.len() ==> hist_buckets((#[trigger] timeline@[k]).metrics).len()
                    <= u64::MAX,
        decreases timeline@.len() - i,
    {
        let e = &timeline[i];
        if i > 0 {
            push_newline(&mut out);
        }
        let ghost before = out@;
        let rows = hist_ccdf_upper_bound(&e.metrics);
        let ghost row_lines = ccdf_upper_bound_of(hist_buckets(e.metrics)).map_values(
            |row: (u64, Seq<char>)| detailed_line(prefix@, e.time, row),
        );
        let mut j: usize = 0;
        while j < rows.len()
            invariant
                j <= rows@.len(),
                rows@.map_values(|row: (u64, String)| (row.0, row.1@)) == ccdf_upper_bound_of(
                    hist_buckets(e.metrics),
                ),
                row_lines == ccdf_upper_bound_of(hist_buckets(e.metrics)).map_values(
                    |row: (u64, Seq<char>)| detailed_line(prefix@, e.time, row),
                ),
                out@ == before + join(row_lines.take(j as int), seq!['\n']),
            decreases rows@.len() - j,
        {
            if j > 0 {
                push_newline(&mut out);
            }
            out.append(prefix.as_str());
            push_tab(&mut out);
            push_decimal(&mut out, e.time);
            push_tab(&mut out);
            push_decimal(&mut out, rows[j].0);
            push_tab(&mut out);
            out.append(rows[j].1.as_str());
            proof {
                let row = (rows@[j as int].0, rows@[j as int].1@);
                assert(row == ccdf_upper_bound_of(hist_buckets(e.metrics))[j as int]);
                assert(row_lines[j as int] == detailed_line(prefix@, e.time, row));
                lemma_join_push(row_lines.take(j as int), seq!['\n'], row_lines[j as int]);
                assert(row_lines.take(j as int).push(row_lines[j as int]) =~= row_lines.take(
                    j as int + 1,
                ));
                assert(out@ =~= before + join(row_lines.take(j as int + 1), seq!['\n']));
            }
            j = j + 1;
        }
        proof {
            assert(row_lines.take(rows@.len() as int) =~= row_lines);
            assert(lines[i as int] == join(row_lines, seq!['\n']));
            lemma_join_push(lines.take(i as int), seq!['\n'], lines[i as int]);
            assert(lines.take(i as int).push(lines[i as int]) =~= lines.take(i as int + 1));
            assert(out@ =~= join(lines.take(i as int + 1), seq!['\n']));
        }
        i = i + 1;
    }
    proof {
        assert(lines.take(timeline@.len() as int) =~= lines);
    }
    out
}

/// For each bucket of `timeline`, one line: the prefix, the bucket's time, and the upper
/// bound of each quantile estimate of its histogram, separated by tabs.
pub fn format_summary_timeline(prefix: String, timeline: Vec<TimelineElement<HDRHist>>) -> (r:
    String)
    requires
        forall|i: int|
            0 <= i < timeline@.len() ==> hist_buckets((#[trigger] timeline@[i]).metrics).len()
                <= u64::MAX,
    ensures
        r@ == summary_report(prefix@, timeline@),
{
    let ghost lines = timeline@.map_values(|e: TimelineElement<HDRHist>| summary_line(prefix@, e));
    let mut out = String::new();
    let mut i: usize = 0;
    while i < timeline.len()
        invariant
            i <= timeline@.len(),
            lines == timeline@.map_values(|e: TimelineElement<HDRHist>| summary_line(prefix@, e)),
            out@ == join(lines.take(i as int), seq!['\n']),
            forall|k: int|
                0 <= k < timeline@.len() ==> hist_buckets((#[trigger] timeline@[k]).metrics).len()
                    <= u64::MAX,
        decreases timeline@.len() - i,
    {
        let e = &timeline[i];
        if i > 0 {
            push_newline(&mut out);
        }
        let ghost before = out@;
        out.append(prefix.as_str());
        push_tab(&mut out);
        push_decimal(&mut out, e.time);
        push_tab(&mut out);
        let ghost head = out@;
        let bounds = hist_summary_upper_bounds(&e.metrics);
        let ghost cols = bounds@.map_values(|v: u64| decimal(v as nat));
        let mut j: usize = 0;
        while j < bounds.len()
            invariant
                j <= bounds@.len(),
                cols == bounds@.map_values(|v: u64| decimal(v as nat)),
                out@ == head + join(cols.take(j as int), seq!['\t']),
            decreases bounds@.len() - j,
        {
            if j > 0 {
                push_tab(&mut out);
            }
            push_decimal(&mut out, bounds[j]);
            proof {
                lemma_join_push(cols.take(j as int), seq!['\t'], cols[j as int]);
                assert(cols.take(j as int).push(cols[j as int]) =~= cols.take(j as int + 1));
                assert(out@ =~= head + join(cols.take(j as int + 1), seq!['\t']));
            }
            j = j + 1;
        }
        proof {
            assert(cols.take(bounds@.len() as int) =~= cols);
            assert(lines[i as int] == summary_line(prefix@, *e));
            assert(out@ =~= before + lines[i as int]);
            lemma_join_push(lines.take(i as int), seq!['\n'], lines[i as int]);
            assert(lines.take(i as int).push(lines[i as int]) =~= lines.take(i as int + 1));
            assert(out@ =~= join(lines.take(i as int + 1), seq!['\n']));
        }
        i = i + 1;
    }
    proof {
        assert(lines.take(timeline@.len() as int) =~= lines);
    }
    out
}

} // verus!
