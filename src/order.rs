use vstd::multiset::Multiset;
use vstd::prelude::*;

use crate::stats::StationData;
use crate::table::{station_map_contents, StationTable};

verus! {

/// Byte-wise lexicographic order: `a` comes strictly before `b`.
pub open spec fn lex_lt(a: Seq<u8>, b: Seq<u8>) -> bool
    decreases a.len(),
{
    if a.len() == 0 {
        b.len() > 0
    } else if b.len() == 0 {
        false
    } else if a[0] != b[0] {
        a[0] < b[0]
    } else {
        lex_lt(a.skip(1), b.skip(1))
    }
}

pub proof fn lemma_lex_irreflexive(a: Seq<u8>)
    ensures
        !lex_lt(a, a),
    decreases a.len(),
{
    if a.len() > 0 {
        lemma_lex_irreflexive(a.skip(1));
    }
}

pub proof fn lemma_lex_transitive(a: Seq<u8>, b: Seq<u8>, c: Seq<u8>)
    requires
        lex_lt(a, b),
        lex_lt(b, c),
    ensures
        lex_lt(a, c),
    decreases a.len(),
{
    if a.len() > 0 && b.len() > 0 && c.len() > 0 && a[0] == b[0] && b[0] == c[0] {
        lemma_lex_transitive(a.skip(1), b.skip(1), c.skip(1));
    }
}

pub proof fn lemma_lex_total(a: Seq<u8>, b: Seq<u8>)
    requires
        a != b,
    ensures
        lex_lt(a, b) || lex_lt(b, a),
    decreases a.len(),
{
    if a.len() > 0 && b.len() > 0 && a[0] == b[0] {
        if a.skip(1) == b.skip(1) {
            assert(a =~= seq![a[0]] + a.skip(1));
            assert(b =~= seq![b[0]] + b.skip(1));
        }
        lemma_lex_total(a.skip(1), b.skip(1));
    } else if a.len() == 0 && b.len() == 0 {
        assert(a =~= b);
    }
}

/// Whether `a` sorts strictly before `b`, byte by byte.
pub fn key_less(a: &[u8], b: &[u8]) -> (r: bool)
    ensures
        r == lex_lt(a@, b@),
{
    let mut i: usize = 0;
    assert(a@.skip(0) =~= a@ && b@.skip(0) =~= b@);
    while i < a.len() && i < b.len()
        invariant
            0 <= i <= a@.len(),
            i <= b@.len(),
            lex_lt(a@, b@) == lex_lt(a@.skip(i as int), b@.skip(i as int)),
        decreases a@.len() - i,
    {
        assert(a@.skip(i as int)[0] == a@[i as int]);
        assert(b@.skip(i as int)[0] == b@[i as int]);
        if a[i] != b[i] {
            return a[i] < b[i];
        }
        assert(a@.skip(i as int).skip(1) =~= a@.skip(i + 1));
        assert(b@.skip(i as int).skip(1) =~= b@.skip(i + 1));
        i = i + 1;
    }
    i < b.len()
}

/// `es` lists the entries of `m` once each, in strictly ascending key order.
pub open spec fn sorted_listing(m: crate::model::Table, es: Seq<(Vec<u8>, StationData)>) -> bool {
    &&& forall|i: int, j: int|
        0 <= i < j < es.len() ==> lex_lt((#[trigger] es[i]).0@, (#[trigger] es[j]).0@)
    &&& forall|i: int|
        0 <= i < es.len() ==> m.contains_key((#[trigger] es[i]).0@) && m[es[i].0@] == es[i].1.view()
    &&& forall|k: Seq<u8>|
        #[trigger] m.contains_key(k) ==> exists|i: int| 0 <= i < es.len() && (#[trigger] es[i]).0@ == k
}

/// Keys rise strictly along `s`.
pub open spec fn strictly_sorted(s: Seq<(Vec<u8>, StationData)>) -> bool {
    forall|i: int, j: int|
        0 <= i < j < s.len() ==> lex_lt((#[trigger] s[i]).0@, (#[trigger] s[j]).0@)
}

/// Inserts `x` into a sorted list whose keys all differ from its own.
fn insert_sorted(out: &mut Vec<(Vec<u8>, StationData)>, x: (Vec<u8>, StationData))
    requires
        strictly_sorted(old(out)@),
        forall|i: int| 0 <= i < old(out)@.len() ==> (#[trigger] old(out)@[i]).0@ != x.0@,
    ensures
        strictly_sorted(final(out)@),
        final(out)@.to_multiset() == old(out)@.to_multiset().insert(x),
{
    let mut p: usize = 0;
    while p < out.len() && key_less(out[p].0.as_slice(), x.0.as_slice())
        invariant
            0 <= p <= out@.len(),
            forall|i: int| 0 <= i < p ==> lex_lt((#[trigger] out@[i]).0@, x.0@),
        decreases out@.len() - p,
    {
        p = p + 1;
    }
    proof {
        if p < out@.len() {
            lemma_lex_total(out@[p as int].0@, x.0@);
            assert forall|j: int| p <= j < out@.len() implies lex_lt(
                x.0@,
                (#[trigger] out@[j]).0@,
            ) by {
                if j > p {
                    lemma_lex_transitive(x.0@, out@[p as int].0@, out@[j].0@);
                }
            }
        }
    }
    let ghost before = out@;
    out.insert(p, x);
    proof {
        vstd::seq_lib::to_multiset_insert(before, p as int, x);
        assert forall|i: int, j: int| 0 <= i < j < out@.len() implies lex_lt(
            (#[trigger] out@[i]).0@,
            (#[trigger] out@[j]).0@,
        ) by {
            if j < p {
                assert(out@[i] == before[i] && out@[j] == before[j]);
            } else if j == p {
                assert(out@[i] == before[i]);
            } else if i < p {
                assert(out@[i] == before[i] && out@[j] == before[j - 1]);
                lemma_lex_transitive(before[i].0@, x.0@, before[j - 1].0@);
            } else if i == p {
                assert(out@[j] == before[j - 1]);
            } else {
                assert(out@[i] == before[i - 1] && out@[j] == before[j - 1]);
            }
        }
    }
}

/// The entries of a table, sorted by key in ascending byte order.
pub fn sorted_entries(table: StationTable) -> (r: Vec<(Vec<u8>, StationData)>)
    ensures
        sorted_listing(table@, r@),
{
    broadcast use vstd::seq_lib::group_to_multiset_ensures;
    broadcast use vstd::multiset::group_multiset_axioms;

    let ghost m = table@;
    let ghost contents = station_map_contents(table.map);
    let mut entries = table.map.into_entries();
    let ghost es = entries@;
    proof {
        assert(es.no_duplicates()) by {
            assert forall|a: int, b: int| 0 <= a < es.len() && 0 <= b < es.len() && a != b
                implies es[a] != es[b] by {
                if a < b {
                    assert(es[a].0@ != es[b].0@);
                } else {
                    assert(es[b].0@ != es[a].0@);
                }
            }
        }
        es.lemma_multiset_has_no_duplicates();
        assert(entries@.to_multiset() =~= Multiset::empty().add(entries@.to_multiset()));
    }
    let mut out: Vec<(Vec<u8>, StationData)> = Vec::new();
    while entries.len() > 0
        invariant
            strictly_sorted(out@),
            out@.to_multiset().add(entries@.to_multiset()) == es.to_multiset(),
            forall|x| es.to_multiset().contains(x) ==> es.to_multiset().count(x) == 1,
            forall|a: int, b: int|
                0 <= a < b < es.len() ==> (#[trigger] es[a]).0@ != (#[trigger] es[b]).0@,
        decreases entries@.len(),
    {
        let ghost before = entries@;
        let x = entries.pop().unwrap();
        proof {
            assert(before =~= entries@.push(x));
            vstd::seq_lib::to_multiset_build(entries@, x);
            assert(before.to_multiset() == entries@.to_multiset().insert(x));
            assert forall|i: int| 0 <= i < out@.len() implies (#[trigger] out@[i]).0@ != x.0@ by {
                let y = out@[i];
                assert(out@.contains(y));
                vstd::seq_lib::to_multiset_contains(out@, y);
                assert(out@.to_multiset().count(y) > 0);
                assert(before.to_multiset().count(x) > 0);
                vstd::seq_lib::to_multiset_contains(es, y);
                vstd::seq_lib::to_multiset_contains(es, x);
                assert(es.to_multiset().count(y) > 0);
                assert(es.to_multiset().count(x) > 0);
                assert(es.contains(y));
                assert(es.contains(x));
                let a = choose|a: int| 0 <= a < es.len() && es[a] == y;
                let b = choose|b: int| 0 <= b < es.len() && es[b] == x;
                if y.0@ == x.0@ {
                    assert(a == b);
                    assert(es.to_multiset().count(x) >= 2);
                }
            }
        }
        insert_sorted(&mut out, x);
        proof {
            assert(out@.to_multiset().add(entries@.to_multiset()) =~= es.to_multiset());
        }
    }
    proof {
        assert(entries@.to_multiset() =~= Multiset::empty());
        assert(out@.to_multiset() =~= es.to_multiset());
        assert forall|i: int| 0 <= i < out@.len() implies m.contains_key((#[trigger] out@[i]).0@)
            && m[out@[i].0@] == out@[i].1.view() by {
            assert(out@.contains(out@[i]));
            vstd::seq_lib::to_multiset_contains(out@, out@[i]);
            vstd::seq_lib::to_multiset_contains(es, out@[i]);
            assert(es.contains(out@[i]));
        }
        assert forall|k: Seq<u8>| #[trigger] m.contains_key(k) implies exists|i: int|
            0 <= i < out@.len() && (#[trigger] out@[i]).0@ == k by {
            assert(contents.contains_key(k));
            let t = choose|t: int| 0 <= t < es.len() && (#[trigger] es[t]).0@ == k;
            assert(es.contains(es[t]));
            vstd::seq_lib::to_multiset_contains(es, es[t]);
            vstd::seq_lib::to_multiset_contains(out@, es[t]);
            assert(out@.contains(es[t]));
        }
    }
    out
}

/// Two sorted listings of one table agree on the keys up to position `i`.
proof fn lemma_listing_prefix(
    m: crate::model::Table,
    x: Seq<(Vec<u8>, StationData)>,
    y: Seq<(Vec<u8>, StationData)>,
    i: int,
)
    requires
        sorted_listing(m, x),
        sorted_listing(m, y),
        0 <= i <= x.len(),
        i <= y.len(),
    ensures
        forall|j: int| 0 <= j < i ==> (#[trigger] x[j]).0@ == y[j].0@,
    decreases i,
{
    if i > 0 {
        let n = i - 1;
        lemma_listing_prefix(m, x, y, n);
        let a = x[n].0@;
        let b = y[n].0@;
        assert(m.contains_key(a));
        assert(m.contains_key(b));
        let jy = choose|j: int| 0 <= j < y.len() && (#[trigger] y[j]).0@ == a;
        let jx = choose|j: int| 0 <= j < x.len() && (#[trigger] x[j]).0@ == b;
        if jy < n {
            assert(x[jy].0@ == y[jy].0@);
            lemma_lex_irreflexive(a);
            assert(lex_lt(x[jy].0@, x[n].0@));
        }
        if jx < n {
            assert(x[jx].0@ == y[jx].0@);
            lemma_lex_irreflexive(b);
            assert(lex_lt(y[jx].0@, y[n].0@));
        }
        if jy > n && jx > n {
            assert(lex_lt(y[n].0@, y[jy].0@));
            assert(lex_lt(x[n].0@, x[jx].0@));
            lemma_lex_transitive(a, b, a);
            lemma_lex_irreflexive(a);
        }
    }
}

/// A table has only one listing in strictly ascending key order.
pub proof fn lemma_listing_unique(
    m: crate::model::Table,
    x: Seq<(Vec<u8>, StationData)>,
    y: Seq<(Vec<u8>, StationData)>,
)
    requires
        sorted_listing(m, x),
        sorted_listing(m, y),
    ensures
        x.len() == y.len(),
        forall|j: int|
            0 <= j < x.len() ==> (#[trigger] x[j]).0@ == y[j].0@ && x[j].1.view() == y[j].1.view(),
{
    if x.len() > y.len() {
        lemma_listing_prefix(m, x, y, y.len() as int);
        let a = x[y.len() as int].0@;
        assert(m.contains_key(a));
        let j = choose|j: int| 0 <= j < y.len() && (#[trigger] y[j]).0@ == a;
        assert(x[j].0@ == a);
        lemma_lex_irreflexive(a);
        assert(lex_lt(x[j].0@, x[y.len() as int].0@));
    } else if y.len() > x.len() {
        lemma_listing_prefix(m, y, x, x.len() as int);
        let a = y[x.len() as int].0@;
        assert(m.contains_key(a));
        let j = choose|j: int| 0 <= j < x.len() && (#[trigger] x[j]).0@ == a;
        assert(y[j].0@ == a);
        lemma_lex_irreflexive(a);
        assert(lex_lt(y[j].0@, y[x.len() as int].0@));
    }
    lemma_listing_prefix(m, x, y, x.len() as int);
    assert forall|j: int| 0 <= j < x.len() implies (#[trigger] x[j]).0@ == y[j].0@ && x[j].1.view()
        == y[j].1.view() by {
        assert(m.contains_key(x[j].0@));
        assert(m.contains_key(y[j].0@));
    }
}

} // verus!
