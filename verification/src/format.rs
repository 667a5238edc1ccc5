//! The result formatter: renders the merged, sorted accumulator as text
//! lines `key=min/max/average`, every numeric field in tenths with exactly
//! one digit after the decimal point.

use vstd::prelude::*;

use vstd::arithmetic::div_mod::{
    lemma_div_is_ordered, lemma_div_multiples_vanish, lemma_div_pos_is_pos,
    lemma_multiply_divide_lt,
};

use crate::accumulate::{entries_map, lemma_entries_map_dom, lemma_entries_map_index};
use crate::bytes::{lemma_lex_trichotomy, TERM};
use crate::measurement::{rec_wf, Measurement, StatRec, VAL_LIMIT};
use crate::merge::{lemma_sorted_distinct, sorted_entries, GlobalAcc};
use crate::parse::{DOT, MINUS};

verus! {

/// The byte between key and statistics (equals sign).
pub const EQ: u8 = 61;

/// The byte between statistics (slash).
pub const SLASH: u8 = 47;

/// The decimal digits of `n`, most significant first, no leading zeros.
pub open spec fn dec_digits(n: int) -> Seq<u8>
    decreases n,
{
    if n < 10 {
        seq![(48 + n) as u8]
    } else {
        dec_digits(n / 10) + seq![(48 + n % 10) as u8]
    }
}

/// The rendering of `t` tenths: optional minus sign, integer part, decimal
/// point, one fraction digit.
pub open spec fn render_tenths(t: int) -> Seq<u8> {
    let m = if t < 0 {
        -t
    } else {
        t
    };
    let sign: Seq<u8> = if t < 0 {
        seq![MINUS]
    } else {
        Seq::empty()
    };
    sign + dec_digits(m / 10) + seq![DOT] + seq![(48 + m % 10) as u8]
}

/// The average of a statistic, in tenths, rounded to the nearest tenth with
/// halves away from zero.
pub open spec fn avg_tenths(r: StatRec) -> int {
    if r.sum >= 0 {
        (2 * r.sum + r.count) / (2 * r.count)
    } else {
        -((2 * (-r.sum) + r.count) / (2 * r.count))
    }
}

/// The average of a well-formed statistic lies between its minimum and its
/// maximum.
pub proof fn lemma_avg_bounds(r: StatRec)
    requires
        rec_wf(r),
    ensures
        r.min <= avg_tenths(r) <= r.max,
{
    let c = r.count;
    let s = r.sum;
    if s >= 0 {
        assert(2 * s + c < (2 * c) * (r.max + 1) && (2 * c) * r.min <= 2 * s) by (nonlinear_arith)
            requires
                rec_wf(r),
                c == r.count,
                s == r.sum,
                s >= 0,
            ;
        lemma_multiply_divide_lt(2 * s + c, 2 * c, r.max + 1);
        lemma_div_is_ordered((2 * c) * r.min, 2 * s + c, 2 * c);
        lemma_div_multiples_vanish(r.min, 2 * c);
    } else {
        assert(2 * (-s) + c < (2 * c) * (-r.min + 1)) by (nonlinear_arith)
            requires
                rec_wf(r),
                c == r.count,
                s == r.sum,
                s < 0,
            ;
        lemma_multiply_divide_lt(2 * (-s) + c, 2 * c, -r.min + 1);
        if r.max >= 0 {
            lemma_div_pos_is_pos(2 * (-s) + c, 2 * c);
        } else {
            assert((2 * c) * (-r.max) <= 2 * (-s)) by (nonlinear_arith)
                requires
                    rec_wf(r),
                    c == r.count,
                    s == r.sum,
                    s < 0,
                ;
            lemma_div_is_ordered((2 * c) * (-r.max), 2 * (-s) + c, 2 * c);
            lemma_div_multiples_vanish(-r.max, 2 * c);
        }
    }
}

/// Computes the average of a measurement in tenths; it lies between the
/// measurement's minimum and maximum.
pub fn average_tenths(m: &Measurement) -> (r: i64)
    requires
        m.wf(),
    ensures
        r == avg_tenths(m.model()),
        m.min <= r <= m.max,
{
    proof {
        lemma_avg_bounds(m.model());
        assert(m.model().sum <= m.model().count * (VAL_LIMIT as int) && -(m.model().count * (
        VAL_LIMIT as int)) <= m.model().sum && m.model().count * (VAL_LIMIT as int) < u128::MAX / 4)
            by (nonlinear_arith)
            requires
                rec_wf(m.model()),
                m.model().count <= u64::MAX,
            ;
    }
    let c = m.count as u128;
    if m.sum >= 0 {
        let s2 = 2 * (m.sum as u128);
        let q = (s2 + c) / (2 * c);
        q as i64
    } else {
        let s2 = 2 * ((-m.sum) as u128);
        let q = (s2 + c) / (2 * c);
        -(q as i64)
    }
}

/// Appends the decimal digits of `n`.
fn push_number(out: &mut Vec<u8>, n: u64)
    ensures
        final(out)@ == old(out)@ + dec_digits(n as int),
    decreases n,
{
    if n < 10 {
        out.push(48 + n as u8);
        proof {
            assert(final(out)@ =~= old(out)@ + dec_digits(n as int));
        }
    } else {
        push_number(out, n / 10);
        out.push(48 + (n % 10) as u8);
        proof {
            assert(final(out)@ =~= old(out)@ + dec_digits(n as int));
        }
    }
}

/// Appends the rendering of `t` tenths.
fn push_tenths(out: &mut Vec<u8>, t: i64)
    requires
        -VAL_LIMIT <= t <= VAL_LIMIT,
    ensures
        final(out)@ == old(out)@ + render_tenths(t as int),
{
    let m: u64 = if t < 0 {
        out.push(MINUS);
        (-t) as u64
    } else {
        t as u64
    };
    push_number(out, m / 10);
    out.push(DOT);
    out.push(48 + (m % 10) as u8);
    proof {
        assert(final(out)@ =~= old(out)@ + render_tenths(t as int));
    }
}

/// The rendering of one result line: `key=min/max/average`, closed by the
/// line terminator.
pub open spec fn line_render(key: Seq<u8>, r: StatRec) -> Seq<u8> {
    key + seq![EQ] + render_tenths(r.min) + seq![SLASH] + render_tenths(r.max) + seq![SLASH]
        + render_tenths(avg_tenths(r)) + seq![TERM]
}

/// The rendering of a sequence of entries, one line each, in order.
pub open spec fn output_of_entries(es: Seq<(Vec<u8>, Measurement)>) -> Seq<u8>
    decreases es.len(),
{
    if es.len() == 0 {
        Seq::empty()
    } else {
        output_of_entries(es.drop_last()) + line_render(es.last().0@, es.last().1.model())
    }
}

/// The rendered output is a function of the held mapping alone: two sorted
/// entry sequences holding the same mapping render byte-identical output,
/// whatever partitioning and merge order produced them.
pub proof fn lemma_output_unique(a: Seq<(Vec<u8>, Measurement)>, b: Seq<(Vec<u8>, Measurement)>)
    requires
        sorted_entries(a),
        sorted_entries(b),
        entries_map(a) == entries_map(b),
    ensures
        output_of_entries(a) == output_of_entries(b),
    decreases a.len(),
{
    lemma_sorted_distinct(a);
    lemma_sorted_distinct(b);
    if a.len() == 0 {
        if b.len() > 0 {
            lemma_entries_map_index(b, b.len() - 1);
            assert(false);
        }
    } else if b.len() == 0 {
        lemma_entries_map_index(a, a.len() - 1);
        assert(false);
    } else {
        let ka = a.last().0@;
        let kb = b.last().0@;
        lemma_entries_map_index(a, a.len() - 1);
        lemma_entries_map_index(b, b.len() - 1);
        lemma_entries_map_dom(a, kb);
        let ia = choose|i: int| 0 <= i < a.len() && (#[trigger] a[i]).0@ == kb;
        lemma_entries_map_dom(b, ka);
        let ib = choose|i: int| 0 <= i < b.len() && (#[trigger] b[i]).0@ == ka;
        lemma_lex_trichotomy(ka, kb);
        assert(ka == kb);
        let m = a.last().1.model();
        assert(b.last().1.model() == m);
        if entries_map(a.drop_last()).dom().contains(ka) {
            lemma_entries_map_dom(a.drop_last(), ka);
            let w = choose|w: int| 0 <= w < a.drop_last().len() && (
            #[trigger] a.drop_last()[w]).0@ == ka;
            assert(a[w].0@ == ka);
            assert(false);
        }
        if entries_map(b.drop_last()).dom().contains(kb) {
            lemma_entries_map_dom(b.drop_last(), kb);
            let w = choose|w: int| 0 <= w < b.drop_last().len() && (
            #[trigger] b.drop_last()[w]).0@ == kb;
            assert(b[w].0@ == kb);
            assert(false);
        }
        assert(entries_map(a) == entries_map(a.drop_last()).insert(ka, m));
        assert(entries_map(b) == entries_map(b.drop_last()).insert(kb, m));
        assert(entries_map(a.drop_last()) =~= entries_map(b.drop_last())) by {
            assert forall|k: Seq<u8>| #[trigger] entries_map(a.drop_last()).dom().contains(
                k,
            ) implies entries_map(b.drop_last()).dom().contains(k) && entries_map(b.drop_last())[k]
                == entries_map(a.drop_last())[k] by {
                assert(k != ka);
                assert(entries_map(a).dom().contains(k));
                assert(entries_map(a.drop_last())[k] == entries_map(a)[k]);
                if !entries_map(b.drop_last()).dom().contains(k) {
                    assert(!entries_map(b).dom().contains(k));
                }
            }
            assert forall|k: Seq<u8>| #[trigger] entries_map(b.drop_last()).dom().contains(
                k,
            ) implies entries_map(a.drop_last()).dom().contains(k) by {
                assert(k != kb);
                assert(entries_map(b).dom().contains(k));
                if !entries_map(a.drop_last()).dom().contains(k) {
                    assert(!entries_map(a).dom().contains(k));
                }
            }
        }
        assert(sorted_entries(a.drop_last())) by {
            assert(forall|i: int, j: int| 0 <= i < j < a.drop_last().len() ==> a.drop_last()[i]
                == a[i] && a.drop_last()[j] == a[j]);
        }
        assert(sorted_entries(b.drop_last())) by {
            assert(forall|i: int, j: int| 0 <= i < j < b.drop_last().len() ==> b.drop_last()[i]
                == b[i] && b.drop_last()[j] == b[j]);
        }
        lemma_output_unique(a.drop_last(), b.drop_last());
    }
}

/// Renders the merged accumulator: one line per key, keys in ascending
/// byte-lexicographic order as the accumulator holds them.
pub fn format_results(acc: &GlobalAcc) -> (out: Vec<u8>)
    requires
        acc.wf(),
    ensures
        out@ == output_of_entries(acc.entries@),
{
    let n = acc.entries.len();
    let mut out: Vec<u8> = Vec::new();
    let mut i: usize = 0;
    while i < n
        invariant
            0 <= i <= n,
            n == acc.entries@.len(),
            acc.wf(),
            out@ == output_of_entries(acc.entries@.take(i as int)),
        decreases n - i,
    {
        let e = &acc.entries[i];
        out.extend_from_slice(e.0.as_slice());
        out.push(EQ);
        push_tenths(&mut out, e.1.min);
        out.push(SLASH);
        push_tenths(&mut out, e.1.max);
        out.push(SLASH);
        let avg = average_tenths(&e.1);
        proof {
            lemma_avg_bounds(e.1.model());
        }
        push_tenths(&mut out, avg);
        out.push(TERM);
        proof {
            assert(acc.entries@.take(i + 1).drop_last() =~= acc.entries@.take(i as int));
            assert(acc.entries@.take(i + 1).last() == acc.entries@[i as int]);
            assert(out@ =~= output_of_entries(acc.entries@.take(i + 1)));
        }
        i = i + 1;
    }
    proof {
        assert(acc.entries@.take(n as int) =~= acc.entries@);
    }
    out
}

} // verus!
