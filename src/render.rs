use vstd::prelude::*;

use crate::model::{aggregate, lemma_key_invariants, records};
use crate::model::Table;
use crate::order::{lemma_listing_unique, sorted_entries, sorted_listing};
use crate::parse::{ParseError, MAX_TENTHS, MINUS, NEWLINE, ZERO};
use crate::stats::{lemma_sum_bound, summary_wf, StationData, Summary};
use crate::partition::aggregate_partitioned;
use crate::table::StationTable;

verus! {

pub const DOT: u8 = 46;

pub const EQUALS: u8 = 61;

pub const SLASH: u8 = 47;

pub const COMMA: u8 = 44;

pub const SPACE: u8 = 32;

pub const OPEN_BRACE: u8 = 123;

pub const CLOSE_BRACE: u8 = 125;

/// The decimal digits of `n`, most significant first, without leading zeros.
pub open spec fn digits(n: nat) -> Seq<u8>
    decreases n,
{
    if n < 10 {
        seq![(ZERO + n) as u8]
    } else {
        digits(n / 10) + seq![(ZERO + n % 10) as u8]
    }
}

pub open spec fn abs(v: int) -> int {
    if v < 0 { -v } else { v }
}

/// A reading in tenths written with exactly one fractional digit: `-3.5`,
/// `12.0`, `0.0`.
pub open spec fn tenths_text(v: int) -> Seq<u8> {
    (if v < 0 { seq![MINUS] } else { Seq::empty() }) + digits((abs(v) / 10) as nat) + seq![
        DOT,
        (ZERO + abs(v) % 10) as u8,
    ]
}

/// `sum / count` rounded to a whole number of tenths, halves away from zero.
pub open spec fn mean_tenths(sum: int, count: int) -> int {
    if sum >= 0 {
        (2 * sum + count) / (2 * count)
    } else {
        -((-2 * sum + count) / (2 * count))
    }
}

/// `key=min/mean/max`.
pub open spec fn entry_text(key: Seq<u8>, s: Summary) -> Seq<u8> {
    key + seq![EQUALS] + tenths_text(s.min) + seq![SLASH] + tenths_text(
        mean_tenths(s.sum, s.count),
    ) + seq![SLASH] + tenths_text(s.max)
}

/// The entries written in order, separated by `, `.
pub open spec fn body_text(es: Seq<(Vec<u8>, StationData)>) -> Seq<u8>
    decreases es.len(),
{
    if es.len() == 0 {
        Seq::empty()
    } else if es.len() == 1 {
        entry_text(es[0].0@, es[0].1.view())
    } else {
        body_text(es.drop_last()) + seq![COMMA, SPACE] + entry_text(
            es.last().0@,
            es.last().1.view(),
        )
    }
}

/// The output line: `{`, the entries, `}` and a newline.
pub open spec fn output_text(es: Seq<(Vec<u8>, StationData)>) -> Seq<u8> {
    seq![OPEN_BRACE] + body_text(es) + seq![CLOSE_BRACE, NEWLINE]
}

/// The output line of a table: its entries in ascending key order.
pub open spec fn table_text(m: Table) -> Seq<u8> {
    output_text(choose|es: Seq<(Vec<u8>, StationData)>| sorted_listing(m, es))
}

proof fn lemma_body_text_same(x: Seq<(Vec<u8>, StationData)>, y: Seq<(Vec<u8>, StationData)>)
    requires
        x.len() == y.len(),
        forall|j: int|
            0 <= j < x.len() ==> (#[trigger] x[j]).0@ == y[j].0@ && x[j].1.view() == y[j].1.view(),
    ensures
        body_text(x) == body_text(y),
    decreases x.len(),
{
    if x.len() > 1 {
        lemma_body_text_same(x.drop_last(), y.drop_last());
        assert(x.last() == x[x.len() - 1]);
    } else if x.len() == 1 {
        assert(x[0].0@ == y[0].0@);
    }
}

/// Any sorted listing of a table renders as the table's output line.
pub proof fn lemma_table_text(m: Table, es: Seq<(Vec<u8>, StationData)>)
    requires
        sorted_listing(m, es),
    ensures
        output_text(es) == table_text(m),
{
    let c = choose|c: Seq<(Vec<u8>, StationData)>| sorted_listing(m, c);
    lemma_listing_unique(m, es, c);
    lemma_body_text_same(es, c);
}

proof fn lemma_floor_between(x: int, d: int, lo: int, hi: int)
    requires
        d > 0,
        d * lo <= x,
        x < d * (hi + 1),
    ensures
        lo <= x / d <= hi,
{
    let q = x / d;
    let r = x % d;
    vstd::arithmetic::div_mod::lemma_fundamental_div_mod(x, d);
    assert(lo <= q) by (nonlinear_arith)
        requires d * lo <= x, x == d * q + r, r < d, d > 0;
    assert(q <= hi) by (nonlinear_arith)
        requires x < d * (hi + 1), x == d * q + r, r >= 0, d > 0;
}

/// The rounded mean of a summary lies between its minimum and maximum.
pub proof fn lemma_mean_between(s: Summary)
    requires
        summary_wf(s),
    ensures
        s.min <= mean_tenths(s.sum, s.count) <= s.max,
{
    let c = s.count;
    if s.sum >= 0 {
        assert(2 * c * s.min <= 2 * s.sum + c) by (nonlinear_arith)
            requires s.min * c <= s.sum, c >= 1;
        assert(2 * s.sum + c < 2 * c * (s.max + 1)) by (nonlinear_arith)
            requires s.sum <= s.max * c, c >= 1;
        lemma_floor_between(2 * s.sum + c, 2 * c, s.min, s.max);
    } else {
        assert(2 * c * (-s.max) <= -2 * s.sum + c) by (nonlinear_arith)
            requires s.sum <= s.max * c, c >= 1;
        assert(-2 * s.sum + c < 2 * c * (-s.min + 1)) by (nonlinear_arith)
            requires s.min * c <= s.sum, c >= 1;
        lemma_floor_between(-2 * s.sum + c, 2 * c, -s.max, -s.min);
    }
}

/// In every table that a sequence of lines aggregates to, each key has at
/// least one reading, and its exact mean `sum / count` and its rounded mean
/// both lie between its minimum and its maximum.
pub proof fn lemma_result_key_invariants(recs: Seq<Seq<u8>>)
    ensures
        aggregate(recs) matches Ok(m) ==> forall|k: Seq<u8>| #[trigger] m.contains_key(k) ==> {
            &&& m[k].count >= 1
            &&& m[k].min <= m[k].max
            &&& m[k].min * m[k].count <= m[k].sum <= m[k].max * m[k].count
            &&& m[k].min <= mean_tenths(m[k].sum, m[k].count) <= m[k].max
        },
{
    lemma_key_invariants(recs);
    if let Ok(m) = aggregate(recs) {
        assert forall|k: Seq<u8>| #[trigger] m.contains_key(k) implies m[k].min <= mean_tenths(
            m[k].sum,
            m[k].count,
        ) <= m[k].max by {
            lemma_mean_between(m[k]);
        }
    }
}

/// Appends the decimal digits of `n`.
fn push_digits(out: &mut Vec<u8>, n: u64)
    ensures
        final(out)@ == old(out)@ + digits(n as nat),
    decreases n,
{
    if n >= 10 {
        push_digits(out, n / 10);
    }
    out.push(ZERO + (n % 10) as u8);
    assert(final(out)@ =~= old(out)@ + digits(n as nat)) by {
        if n >= 10 {
            assert(old(out)@ + digits((n / 10) as nat) + seq![(ZERO + n % 10) as u8] =~= old(out)@
                + digits(n as nat));
        }
    }
}

/// Appends a reading in tenths with one fractional digit.
fn push_tenths(out: &mut Vec<u8>, v: i64)
    requires
        -MAX_TENTHS <= v <= MAX_TENTHS,
    ensures
        final(out)@ == old(out)@ + tenths_text(v as int),
{
    let a: u64 = if v < 0 { (-v) as u64 } else { v as u64 };
    if v < 0 {
        out.push(MINUS);
    }
    push_digits(out, a / 10);
    out.push(DOT);
    out.push(ZERO + (a % 10) as u8);
    assert(final(out)@ =~= old(out)@ + tenths_text(v as int));
}

/// The mean of a summary in tenths, rounded half away from zero.
pub fn mean_of(d: &StationData) -> (r: i64)
    requires
        summary_wf(d.view()),
    ensures
        r as int == mean_tenths(d.total_temp as int, d.count as int),
        d.min_temp <= r <= d.max_temp,
{
    proof {
        lemma_sum_bound(d.view());
        lemma_mean_between(d.view());
    }
    let c = d.count as i128;
    let q: i128 = if d.total_temp >= 0 {
        (2 * d.total_temp + c) / (2 * c)
    } else {
        -((-2 * d.total_temp + c) / (2 * c))
    };
    q as i64
}

/// Appends `key=min/mean/max`.
fn push_entry(out: &mut Vec<u8>, key: &Vec<u8>, d: &StationData)
    requires
        summary_wf(d.view()),
    ensures
        final(out)@ == old(out)@ + entry_text(key@, d.view()),
{
    let mut i: usize = 0;
    while i < key.len()
        invariant
            0 <= i <= key@.len(),
            out@ == old(out)@ + key@.take(i as int),
        decreases key@.len() - i,
    {
        out.push(key[i]);
        assert(key@.take(i + 1) =~= key@.take(i as int).push(key@[i as int]));
        i = i + 1;
    }
    assert(key@.take(key@.len() as int) =~= key@);
    out.push(EQUALS);
    push_tenths(out, d.min_temp);
    out.push(SLASH);
    let mean = mean_of(d);
    push_tenths(out, mean);
    out.push(SLASH);
    push_tenths(out, d.max_temp);
    assert(final(out)@ =~= old(out)@ + entry_text(key@, d.view()));
}

/// Writes sorted entries as `{key=min/mean/max, ...}` and a newline.
pub fn format_entries(entries: &Vec<(Vec<u8>, StationData)>) -> (r: Vec<u8>)
    requires
        forall|i: int| 0 <= i < entries@.len() ==> summary_wf((#[trigger] entries@[i]).1.view()),
    ensures
        r@ == output_text(entries@),
{
    let hint: usize = if entries.len() <= 0x100_0000 { entries.len() * 48 + 3 } else { entries.len() };
    let mut out: Vec<u8> = Vec::with_capacity(hint);
    out.push(OPEN_BRACE);
    let mut i: usize = 0;
    while i < entries.len()
        invariant
            0 <= i <= entries@.len(),
            forall|j: int| 0 <= j < entries@.len() ==> summary_wf((#[trigger] entries@[j]).1.view()),
            out@ == seq![OPEN_BRACE] + body_text(entries@.take(i as int)),
        decreases entries@.len() - i,
    {
        let ghost before = out@;
        if i > 0 {
            out.push(COMMA);
            out.push(SPACE);
        }
        push_entry(&mut out, &entries[i].0, &entries[i].1);
        proof {
            let t = entries@.take(i + 1);
            assert(t.drop_last() =~= entries@.take(i as int));
            assert(t.last() == entries@[i as int]);
            if i == 0 {
                assert(body_text(entries@.take(0)) =~= Seq::<u8>::empty());
            }
            assert(out@ =~= seq![OPEN_BRACE] + body_text(t));
        }
        i = i + 1;
    }
    out.push(CLOSE_BRACE);
    out.push(NEWLINE);
    assert(entries@.take(entries@.len() as int) =~= entries@);
    assert(out@ =~= output_text(entries@));
    out
}

/// Renders a table: its keys in ascending byte order, each as
/// `key=min/mean/max` with one fractional digit, inside braces, then a newline.
pub fn format_results(table: StationTable) -> (r: Vec<u8>)
    requires
        table.wf(),
    ensures
        r@ == table_text(table@),
        table@.dom() == Set::<Seq<u8>>::empty() ==> r@ == seq![OPEN_BRACE, CLOSE_BRACE, NEWLINE],
{
    let ghost m = table@;
    let entries = sorted_entries(table);
    proof {
        assert forall|i: int| 0 <= i < entries@.len() implies summary_wf(
            (#[trigger] entries@[i]).1.view(),
        ) by {
            assert(m.contains_key(entries@[i].0@));
        }
    }
    let r = format_entries(&entries);
    proof {
        lemma_table_text(m, entries@);
        if m.dom() == Set::<Seq<u8>>::empty() {
            if entries@.len() > 0 {
                assert(m.dom().contains(entries@[0].0@));
            }
            assert(r@ =~= seq![OPEN_BRACE, CLOSE_BRACE, NEWLINE]);
        }
    }
    r
}

/// The whole computation on a buffer: cut it into `parts` line-aligned
/// partitions, aggregate them, merge, and render the merged table. Fails
/// with the error of the first line whose value cannot be read.
pub fn summarize(buf: &[u8], parts: usize) -> (r: Result<Vec<u8>, ParseError>)
    ensures
        match aggregate(records(buf@)) {
            Ok(m) => r is Ok && r->Ok_0@ == table_text(m),
            Err(e) => r == Err::<Vec<u8>, ParseError>(e),
        },
        buf@.len() == 0 ==> r is Ok && r->Ok_0@ == seq![OPEN_BRACE, CLOSE_BRACE, NEWLINE],
{
    match aggregate_partitioned(buf, parts) {
        Ok(table) => {
            proof {
                if buf@.len() == 0 {
                    assert(records(buf@) =~= Seq::<Seq<u8>>::empty());
                    assert(table@.dom() =~= Set::<Seq<u8>>::empty());
                }
            }
            Ok(format_results(table))
        },
        Err(e) => Err(e),
    }
}

} // verus!
