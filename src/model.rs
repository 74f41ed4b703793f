use vstd::prelude::*;

use crate::parse::{
    key_of, lemma_reading_range, lemma_scan_to_bounds, reading_of, scan_to, token_of, ParseError, NEWLINE,
};
use crate::stats::{lemma_merge_wf, merge_summary, single, summary_wf, Summary};

verus! {

/// The lines of a buffer: split at each newline; a last line without one
/// still counts, an empty tail after the final newline does not.
pub open spec fn records(s: Seq<u8>) -> Seq<Seq<u8>>
    decreases s.len(),
{
    if s.len() == 0 {
        Seq::empty()
    } else {
        let e = scan_to(s, NEWLINE, 0);
        if e < 0 || e >= s.len() {
            seq![s]
        } else {
            seq![s.subrange(0, e)] + records(s.subrange(e + 1, s.len() as int))
        }
    }
}

/// An aggregation table: each key to the summary of its readings.
pub type Table = Map<Seq<u8>, Summary>;

/// The table after one more reading of `key`.
pub open spec fn add_reading(m: Table, key: Seq<u8>, v: int) -> Table {
    if m.contains_key(key) {
        m.insert(key, merge_summary(m[key], single(v)))
    } else {
        m.insert(key, single(v))
    }
}

/// The table of a sequence of lines, folded in order; the first line whose
/// value cannot be read decides the error.
pub open spec fn aggregate(recs: Seq<Seq<u8>>) -> Result<Table, ParseError>
    decreases recs.len(),
{
    if recs.len() == 0 {
        Ok(Map::empty())
    } else {
        match aggregate(recs.drop_last()) {
            Err(e) => Err(e),
            Ok(m) => match reading_of(token_of(recs.last())) {
                Err(e) => Err(e),
                Ok(v) => Ok(add_reading(m, key_of(recs.last()), v)),
            },
        }
    }
}

/// Merges two tables key by key; a key in only one of them is carried over.
pub open spec fn merge_tables(a: Table, b: Table) -> Table {
    Map::new(
        |k: Seq<u8>| a.contains_key(k) || b.contains_key(k),
        |k: Seq<u8>|
            if a.contains_key(k) && b.contains_key(k) {
                merge_summary(a[k], b[k])
            } else if a.contains_key(k) {
                a[k]
            } else {
                b[k]
            },
    )
}

/// Merges two partial results; an error in the earlier part comes first.
pub open spec fn combine(
    a: Result<Table, ParseError>,
    b: Result<Table, ParseError>,
) -> Result<Table, ParseError> {
    match a {
        Err(e) => Err(e),
        Ok(x) => match b {
            Err(e) => Err(e),
            Ok(y) => Ok(merge_tables(x, y)),
        },
    }
}

/// Every entry is a well-formed summary of at most `n` readings.
pub open spec fn table_wf(m: Table, n: int) -> bool {
    forall|k: Seq<u8>| #[trigger] m.contains_key(k) ==> summary_wf(m[k]) && m[k].count <= n
}

proof fn lemma_scan_to_prefix(s: Seq<u8>, d: u8, k: int, i: int)
    requires
        0 <= i <= k <= s.len(),
        scan_to(s, d, i) < k,
    ensures
        scan_to(s.take(k), d, i) == scan_to(s, d, i),
    decreases k - i,
{
    lemma_scan_to_bounds(s, d, i);
    if s[i] != d {
        lemma_scan_to_prefix(s, d, k, i + 1);
    }
}

proof fn lemma_scan_to_finds(s: Seq<u8>, d: u8, i: int, j: int)
    requires
        0 <= i <= j < s.len(),
        s[j] == d,
    ensures
        scan_to(s, d, i) <= j,
    decreases j - i,
{
    if s[i] != d {
        lemma_scan_to_finds(s, d, i + 1, j);
    }
}

/// Cutting a buffer just after a newline cuts its list of lines in two.
pub proof fn lemma_records_split(s: Seq<u8>, k: int)
    requires
        0 < k <= s.len(),
        s[k - 1] == NEWLINE,
    ensures
        records(s) == records(s.take(k)) + records(s.skip(k)),
    decreases s.len(),
{
    let e = scan_to(s, NEWLINE, 0);
    lemma_scan_to_bounds(s, NEWLINE, 0);
    lemma_scan_to_finds(s, NEWLINE, 0, k - 1);
    lemma_scan_to_prefix(s, NEWLINE, k, 0);
    let t = s.take(k);
    let r = s.subrange(e + 1, s.len() as int);
    if e == k - 1 {
        assert(t.subrange(e + 1, t.len() as int).len() == 0);
        assert(records(t.subrange(e + 1, t.len() as int)) == Seq::<Seq<u8>>::empty());
        assert(t.subrange(0, e) =~= s.subrange(0, e));
        assert(r =~= s.skip(k));
        assert(records(t) =~= seq![s.subrange(0, e)]);
        assert(records(s) =~= records(t) + records(s.skip(k)));
    } else {
        let k2 = k - e - 1;
        lemma_records_split(r, k2);
        assert(r.take(k2) =~= t.subrange(e + 1, t.len() as int));
        assert(r.skip(k2) =~= s.skip(k));
        assert(t.subrange(0, e) =~= s.subrange(0, e));
        assert(records(s) =~= records(t) + records(s.skip(k)));
    }
}

proof fn lemma_merge_empty(a: Table)
    ensures
        merge_tables(a, Map::empty()) == a,
{
    assert(merge_tables(a, Map::empty()) =~= a);
}

/// Folding in a reading after a merge is the same as folding it into the
/// right-hand table first.
proof fn lemma_add_after_merge(a: Table, b: Table, key: Seq<u8>, v: int)
    ensures
        add_reading(merge_tables(a, b), key, v) == merge_tables(a, add_reading(b, key, v)),
{
    assert(add_reading(merge_tables(a, b), key, v) =~= merge_tables(a, add_reading(b, key, v)));
}

/// Aggregating two halves of a sequence of lines on their own and merging
/// the two tables gives the table of the whole sequence.
pub proof fn lemma_aggregate_concat(x: Seq<Seq<u8>>, y: Seq<Seq<u8>>)
    ensures
        aggregate(x + y) == combine(aggregate(x), aggregate(y)),
    decreases y.len(),
{
    if y.len() == 0 {
        assert(x + y =~= x);
        if let Ok(a) = aggregate(x) {
            lemma_merge_empty(a);
        }
    } else {
        assert((x + y).drop_last() =~= x + y.drop_last());
        assert((x + y).last() == y.last());
        lemma_aggregate_concat(x, y.drop_last());
        if let (Ok(a), Ok(b)) = (aggregate(x), aggregate(y.drop_last())) {
            if let Ok(v) = reading_of(token_of(y.last())) {
                lemma_add_after_merge(a, b, key_of(y.last()), v);
            }
        }
    }
}

/// The table of a buffer equals the merge of the tables of the two parts on
/// either side of any cut made just after a newline.
pub proof fn lemma_partition_invariance(s: Seq<u8>, k: int)
    requires
        0 < k <= s.len(),
        s[k - 1] == NEWLINE,
    ensures
        records(s) == records(s.take(k)) + records(s.skip(k)),
        aggregate(records(s)) == combine(
            aggregate(records(s.take(k))),
            aggregate(records(s.skip(k))),
        ),
{
    lemma_records_split(s, k);
    lemma_aggregate_concat(records(s.take(k)), records(s.skip(k)));
}

/// Every key of an aggregated table has at least one reading, no more than
/// there are lines, and a sum between `count * min` and `count * max`, so
/// that `min <= sum / count <= max`.
pub proof fn lemma_key_invariants(recs: Seq<Seq<u8>>)
    ensures
        aggregate(recs) is Ok ==> table_wf(aggregate(recs)->Ok_0, recs.len() as int),
    decreases recs.len(),
{
    if recs.len() > 0 {
        lemma_key_invariants(recs.drop_last());
        if let Ok(m) = aggregate(recs.drop_last()) {
            if let Ok(v) = reading_of(token_of(recs.last())) {
                let key = key_of(recs.last());
                lemma_reading_range(token_of(recs.last()));
                assert(summary_wf(single(v)));
                if m.contains_key(key) {
                    lemma_merge_wf(m[key], single(v));
                }
                let n = add_reading(m, key, v);
                assert forall|k: Seq<u8>| #[trigger] n.contains_key(k) implies summary_wf(n[k])
                    && n[k].count <= recs.len() by {
                    if k != key {
                        assert(m.contains_key(k));
                    }
                }
            }
        }
    }
}

/// Merging two well-formed tables gives a well-formed table.
pub proof fn lemma_merge_tables_wf(a: Table, b: Table, na: int, nb: int)
    requires
        table_wf(a, na),
        table_wf(b, nb),
        na >= 0,
        nb >= 0,
    ensures
        table_wf(merge_tables(a, b), na + nb),
{
    let m = merge_tables(a, b);
    assert forall|k: Seq<u8>| #[trigger] m.contains_key(k) implies summary_wf(m[k]) && m[k].count
        <= na + nb by {
        if a.contains_key(k) && b.contains_key(k) {
            lemma_merge_wf(a[k], b[k]);
        }
    }
}

} // verus!
