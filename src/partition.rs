use vstd::prelude::*;

use crate::model::{aggregate, lemma_aggregate_concat, lemma_partition_invariance, records};
use crate::parse::{lemma_scan_to_bounds, scan_to, ParseError, NEWLINE};
use crate::table::{process_line, StationTable};

verus! {

/// Where the line starting at `from` ends within `buf[from..to]`: the index
/// of the first newline there, or `to`.
fn line_end(buf: &[u8], from: usize, to: usize) -> (r: usize)
    requires
        from <= to <= buf@.len(),
    ensures
        r == from + scan_to(buf@.subrange(from as int, to as int), NEWLINE, 0),
{
    let ghost sub = buf@.subrange(from as int, to as int);
    let mut j: usize = from;
    while j < to
        invariant
            from <= j <= to <= buf@.len(),
            sub == buf@.subrange(from as int, to as int),
            scan_to(sub, NEWLINE, j - from) == scan_to(sub, NEWLINE, 0),
        decreases to - j,
    {
        assert(sub[j - from] == buf@[j as int]);
        if buf[j] == NEWLINE {
            return j;
        }
        j = j + 1;
    }
    j
}

/// Aggregates the lines of `buf[start..end]` into a fresh table, stopping at
/// the first value token that cannot be read.
pub fn aggregate_range(buf: &[u8], start: usize, end: usize) -> (r: Result<StationTable, ParseError>)
    requires
        start <= end <= buf@.len(),
    ensures
        match r {
            Ok(t) => aggregate(records(buf@.subrange(start as int, end as int))) == Ok::<
                crate::model::Table,
                ParseError,
            >(t@) && t.wf() && t.readings == records(buf@.subrange(start as int, end as int)).len()
                && t.readings <= end - start,
            Err(e) => aggregate(records(buf@.subrange(start as int, end as int))) == Err::<
                crate::model::Table,
                ParseError,
            >(e),
        },
{
    let ghost whole = buf@.subrange(start as int, end as int);
    let ghost mut done: Seq<Seq<u8>> = Seq::empty();
    let mut acc = StationTable::new();
    let mut pos: usize = start;
    assert(whole =~= buf@.subrange(pos as int, end as int));
    while pos < end
        invariant
            start <= pos <= end <= buf@.len(),
            whole == buf@.subrange(start as int, end as int),
            records(whole) == done + records(buf@.subrange(pos as int, end as int)),
            aggregate(done) == Ok::<crate::model::Table, ParseError>(acc@),
            acc.wf(),
            acc.readings == done.len(),
            done.len() <= pos - start,
        decreases end - pos,
    {
        let e = line_end(buf, pos, end);
        let ghost rest = buf@.subrange(pos as int, end as int);
        proof {
            lemma_scan_to_bounds(rest, NEWLINE, 0);
        }
        let line = vstd::slice::slice_subrange(buf, pos, e);
        proof {
            if e < end {
                assert(rest.subrange(e - pos + 1, rest.len() as int) =~= buf@.subrange(
                    e + 1,
                    end as int,
                ));
                assert(rest.subrange(0, e - pos) =~= line@);
                assert(records(rest) == seq![line@] + records(buf@.subrange(e + 1, end as int)));
            } else {
                assert(rest =~= line@);
                assert(records(rest) == seq![line@]);
                assert(buf@.subrange(end as int, end as int).len() == 0);
                assert(records(buf@.subrange(end as int, end as int)) =~= Seq::<Seq<u8>>::empty());
            }
            assert(done + records(rest) =~= done.push(line@) + records(
                buf@.subrange(if e < end { e + 1 } else { end as int }, end as int),
            ));
            assert(done.push(line@).drop_last() =~= done);
        }
        match process_line(&mut acc, line) {
            Ok(()) => {},
            Err(err) => {
                proof {
                    lemma_aggregate_concat(
                        done.push(line@),
                        records(
                            buf@.subrange(if e < end { e + 1 } else { end as int }, end as int),
                        ),
                    );
                }
                return Err(err);
            },
        }
        proof {
            done = done.push(line@);
        }
        if e < end {
            pos = e + 1;
        } else {
            pos = end;
        }
    }
    proof {
        assert(buf@.subrange(end as int, end as int).len() == 0);
        assert(records(buf@.subrange(end as int, end as int)) =~= Seq::<Seq<u8>>::empty());
        assert(done + Seq::<Seq<u8>>::empty() =~= done);
    }
    Ok(acc)
}

/// Partition boundaries of a buffer of length `len`: they start at 0, end at
/// `len`, rise strictly, and each one inside the buffer follows a newline.
pub open spec fn bounds_ok(buf: Seq<u8>, b: Seq<usize>) -> bool {
    &&& b.len() >= 1
    &&& b[0] == 0
    &&& b.last() == buf.len()
    &&& forall|i: int, j: int| 0 <= i < j < b.len() ==> b[i] < b[j]
    &&& forall|j: int| 0 < j < b.len() - 1 ==> buf[(#[trigger] b[j]) - 1] == NEWLINE
}

/// Where a partition whose even share would end at `c` really ends: just
/// after the first newline at or after `c`, or at the end of the buffer.
pub open spec fn cut_at(buf: Seq<u8>, c: int) -> int {
    let e = scan_to(buf, NEWLINE, c);
    if e < buf.len() {
        e + 1
    } else {
        buf.len() as int
    }
}

/// Where the `k`-th of `parts` even shares of `len` bytes begins.
pub open spec fn candidate(len: int, parts: int, k: int) -> int {
    k * len / parts
}

/// Each boundary after the first is where some candidate was moved to.
pub open spec fn from_candidates(buf: Seq<u8>, parts: int, b: Seq<usize>) -> bool {
    forall|j: int|
        #![trigger b[j]]
        0 < j < b.len() ==> exists|m: int|
            #![trigger candidate(buf.len() as int, parts, m)]
            0 < m < parts && b[j] == cut_at(buf, candidate(buf.len() as int, parts, m))
}

/// Every candidate below `upto` that is moved to a place inside the buffer
/// is a boundary.
pub open spec fn candidates_kept(buf: Seq<u8>, parts: int, upto: int, b: Seq<usize>) -> bool {
    forall|m: int|
        #![trigger candidate(buf.len() as int, parts, m)]
        0 < m < upto && cut_at(buf, candidate(buf.len() as int, parts, m)) < buf.len() ==> b.contains(
            cut_at(buf, candidate(buf.len() as int, parts, m)) as usize,
        )
}

proof fn lemma_scan_to_monotone(s: Seq<u8>, d: u8, i: int, j: int)
    requires
        0 <= i <= j <= s.len(),
    ensures
        scan_to(s, d, i) <= scan_to(s, d, j),
    decreases j - i,
{
    if i < j {
        if s[i] == d {
            lemma_scan_to_bounds(s, d, j);
        } else {
            lemma_scan_to_monotone(s, d, i + 1, j);
        }
    }
}

proof fn lemma_cut_monotone(buf: Seq<u8>, parts: int, k: int)
    requires
        0 < k,
        k + 1 < parts,
    ensures
        cut_at(buf, candidate(buf.len() as int, parts, k)) <= cut_at(
            buf,
            candidate(buf.len() as int, parts, k + 1),
        ),
{
    let len = buf.len() as int;
    assert(k * len <= (k + 1) * len) by (nonlinear_arith)
        requires len >= 0;
    vstd::arithmetic::div_mod::lemma_div_is_ordered(k * len, (k + 1) * len, parts);
    assert((k + 1) * len <= parts * len) by (nonlinear_arith)
        requires len >= 0, k + 1 < parts;
    vstd::arithmetic::div_mod::lemma_div_is_ordered((k + 1) * len, parts * len, parts);
    vstd::arithmetic::div_mod::lemma_div_multiples_vanish(len, parts);
    assert(parts * len == len * parts) by (nonlinear_arith);
    vstd::arithmetic::div_mod::lemma_div_pos_is_pos(k * len, parts);
    lemma_scan_to_monotone(
        buf,
        NEWLINE,
        candidate(len, parts, k),
        candidate(len, parts, k + 1),
    );
}

/// Splits `buf` into at most `parts` line-aligned ranges (one when `parts`
/// is 0). Candidate `k` sits at `k * len / parts` and is moved forward past
/// the next newline; candidates that land on an earlier boundary or on the
/// end are dropped, so no range is empty.
pub fn partition_bounds(buf: &[u8], parts: usize) -> (r: Vec<usize>)
    ensures
        bounds_ok(buf@, r@),
        r@.len() <= (if parts == 0 { 1 } else { parts }) + 1,
        from_candidates(buf@, parts as int, r@.take(r@.len() - 1)),
        candidates_kept(buf@, parts as int, parts as int, r@),
{
    let len = buf.len();
    let mut r: Vec<usize> = Vec::new();
    r.push(0);
    let mut k: usize = 1;
    while k < parts
        invariant
            1 <= k,
            k <= parts || parts == 0,
            parts == 0 ==> k == 1,
            len == buf@.len(),
            1 <= r@.len() <= k,
            r@[0] == 0,
            forall|i: int, j: int| 0 <= i < j < r@.len() ==> r@[i] < r@[j],
            forall|j: int| 0 < j < r@.len() ==> (#[trigger] r@[j]) < len && buf@[r@[j] - 1] == NEWLINE,
            from_candidates(buf@, parts as int, r@),
            candidates_kept(buf@, parts as int, k as int, r@),
            k > 1 ==> r@.last() <= cut_at(buf@, candidate(buf@.len() as int, parts as int, k - 1)),
            k > 1 && cut_at(buf@, candidate(buf@.len() as int, parts as int, k - 1)) < len
                ==> r@.last() == cut_at(buf@, candidate(buf@.len() as int, parts as int, k - 1)),
        decreases parts - k,
    {
        assert(k as int * len as int <= parts as int * len as int) by (nonlinear_arith)
            requires k < parts, len >= 0;
        assert(k as int * len as int <= 0xffff_ffff_ffff_ffff_ffff_ffff_ffff_ffff) by (nonlinear_arith)
            requires k <= 0xffff_ffff_ffff_ffff, len <= 0xffff_ffff_ffff_ffff;
        let c128: u128 = (k as u128) * (len as u128) / (parts as u128);
        assert(c128 <= len) by (nonlinear_arith)
            requires c128 == (k as int * len as int) / parts as int, k < parts,
                k as int * len as int <= parts as int * len as int, parts > 0;
        let c = c128 as usize;
        let e = line_end(buf, c, len);
        proof {
            let sub = buf@.subrange(c as int, len as int);
            lemma_scan_to_bounds(sub, NEWLINE, 0);
            lemma_scan_to_shift(buf@, c as int);
            if e < len {
                assert(sub[e - c] == buf@[e as int]);
            }
        }
        let b = if e < len { e + 1 } else { len };
        let last = r[r.len() - 1];
        let ghost before = r@;
        proof {
            assert(b == cut_at(buf@, candidate(buf@.len() as int, parts as int, k as int)));
            if k > 1 {
                lemma_cut_monotone(buf@, parts as int, k - 1);
            }
            assert(before.contains(last)) by {
                assert(before[before.len() - 1] == last);
            }
        }
        if b > last && b < len {
            r.push(b);
            proof {
                assert(r@[r@.len() - 1] == cut_at(buf@, candidate(buf@.len() as int, parts as int, k as int)));
                assert forall|x: usize| before.contains(x) implies r@.contains(x) by {
                    let i = choose|i: int| 0 <= i < before.len() && before[i] == x;
                    assert(r@[i] == x);
                }
                assert(r@.contains(b)) by {
                    assert(r@[r@.len() - 1] == b);
                }
            }
        }
        k = k + 1;
    }
    let ghost inner = r@;
    assert(inner.len() <= if parts == 0 { 1 } else { parts as int });
    if len > 0 {
        r.push(len);
    }
    proof {
        assert forall|x: usize| inner.contains(x) implies r@.contains(x) by {
            let i = choose|i: int| 0 <= i < inner.len() && inner[i] == x;
            assert(r@[i] == x);
        }
        if len > 0 {
            assert(r@.take(r@.len() - 1) =~= inner);
        } else {
            if r@.len() > 1 {
                assert(r@[1] < len);
            }
            assert(r@.take(r@.len() - 1).len() == 0);
        }
    }
    r
}

proof fn lemma_scan_to_shift(s: Seq<u8>, c: int)
    requires
        0 <= c <= s.len(),
    ensures
        c + scan_to(s.subrange(c, s.len() as int), NEWLINE, 0) == scan_to(s, NEWLINE, c),
{
    lemma_scan_to_shift_from(s, c, c);
}

proof fn lemma_scan_to_shift_from(s: Seq<u8>, c: int, i: int)
    requires
        0 <= c <= i <= s.len(),
    ensures
        c + scan_to(s.subrange(c, s.len() as int), NEWLINE, i - c) == scan_to(s, NEWLINE, i),
    decreases s.len() - i,
{
    if i < s.len() {
        assert(s.subrange(c, s.len() as int)[i - c] == s[i]);
        if s[i] != NEWLINE {
            lemma_scan_to_shift_from(s, c, i + 1);
        }
    }
}

/// Cuts `buf` into line-aligned partitions, aggregates each one on its own
/// and merges the partial tables in order. The outcome is that of one pass
/// over the whole buffer, whatever the number of partitions.
pub fn aggregate_partitioned(buf: &[u8], parts: usize) -> (r: Result<StationTable, ParseError>)
    ensures
        match r {
            Ok(t) => aggregate(records(buf@)) == Ok::<crate::model::Table, ParseError>(t@)
                && t.wf() && t.readings == records(buf@).len(),
            Err(e) => aggregate(records(buf@)) == Err::<crate::model::Table, ParseError>(e),
        },
{
    let bounds = partition_bounds(buf, parts);
    let mut acc = StationTable::new();
    proof {
        assert(records(buf@.take(0)) =~= Seq::<Seq<u8>>::empty());
    }
    let mut j: usize = 1;
    while j < bounds.len()
        invariant
            bounds_ok(buf@, bounds@),
            1 <= j <= bounds@.len(),
            aggregate(records(buf@.take(bounds@[j - 1] as int))) == Ok::<
                crate::model::Table,
                ParseError,
            >(acc@),
            acc.wf(),
            acc.readings <= bounds@[j - 1],
            acc.readings == records(buf@.take(bounds@[j - 1] as int)).len(),
        decreases bounds@.len() - j,
    {
        let lo = bounds[j - 1];
        let hi = bounds[j];
        assert(lo < hi);
        let ghost s = buf@.take(hi as int);
        let ghost before = acc@;
        proof {
            if lo > 0 {
                assert(buf@[lo - 1] == NEWLINE);
                assert(s[lo - 1] == NEWLINE);
                lemma_partition_invariance(s, lo as int);
            } else {
                assert(s.skip(0) =~= s);
                assert(buf@.take(0).len() == 0);
                assert(records(buf@.take(0)) =~= Seq::<Seq<u8>>::empty());
                assert(before =~= Map::empty());
            }
            assert(s.take(lo as int) =~= buf@.take(lo as int));
            assert(s.skip(lo as int) =~= buf@.subrange(lo as int, hi as int));
            if hi < buf@.len() {
                assert(buf@[hi - 1] == NEWLINE);
                lemma_partition_invariance(buf@, hi as int);
            } else {
                assert(s =~= buf@);
            }
        }
        match aggregate_range(buf, lo, hi) {
            Ok(part) => {
                acc.merge(part);
                proof {
                    if lo == 0 {
                        assert(acc@ =~= part@);
                    }
                }
            },
            Err(e) => {
                return Err(e);
            },
        }
        j = j + 1;
    }
    proof {
        assert(buf@.take(buf@.len() as int) =~= buf@);
    }
    Ok(acc)
}

} // verus!
