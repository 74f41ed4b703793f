use vstd::prelude::*;

use hashbrown::HashMap;

use crate::model::{add_reading, lemma_merge_tables_wf, merge_tables, table_wf, Table};
use crate::parse::{
    key_of, lemma_reading_range, lemma_scan_to_bounds, parse_temperature, reading_of, scan_to,
    split_once, token_of, ParseError, MAX_TENTHS, SEMICOLON,
};
use crate::stats::{lemma_merge_wf, merge_summary, single, summary_wf, StationData};

verus! {

/// Keys to statistics, held in a hashbrown map.
#[verifier::external_body]
pub struct StationMap {
    map: HashMap<Vec<u8>, StationData>,
}

/// What a `StationMap` holds.
pub uninterp spec fn station_map_contents(m: StationMap) -> Map<Seq<u8>, StationData>;

impl StationMap {
    /// Relies on hashbrown::HashMap::new: a new map is empty.
    #[verifier::external_body]
    fn new() -> (r: StationMap)
        ensures
            station_map_contents(r).dom() == Set::<Seq<u8>>::empty(),
    {
        StationMap { map: HashMap::new() }
    }

    /// Relies on hashbrown::HashMap::get: the value stored under `key`, if any.
    #[verifier::external_body]
    fn get(&self, key: &[u8]) -> (r: Option<StationData>)
        ensures
            r is Some <==> station_map_contents(*self).contains_key(key@),
            r is Some ==> r->Some_0 == station_map_contents(*self)[key@],
    {
        self.map.get(key).copied()
    }

    /// Relies on hashbrown::HashMap::entry_ref and EntryRef::insert: `key`
    /// maps to `value` afterwards, every other key is left as it was.
    #[verifier::external_body]
    fn put(&mut self, key: &[u8], value: StationData)
        ensures
            station_map_contents(*final(self)) == station_map_contents(*old(self)).insert(
                key@,
                value,
            ),
    {
        self.map.entry_ref(key).insert(value);
    }

    /// Relies on hashbrown::HashMap::into_iter: every entry once, in an
    /// unspecified order.
    #[verifier::external_body]
    pub(crate) fn into_entries(self) -> (r: Vec<(Vec<u8>, StationData)>)
        ensures
            forall|i: int, j: int|
                0 <= i < j < r@.len() ==> (#[trigger] r@[i]).0@ != (#[trigger] r@[j]).0@,
            forall|i: int|
                0 <= i < r@.len() ==> station_map_contents(self).contains_key(
                    (#[trigger] r@[i]).0@,
                ) && station_map_contents(self)[r@[i].0@] == r@[i].1,
            forall|k: Seq<u8>|
                #[trigger] station_map_contents(self).contains_key(k) ==> exists|i: int|
                    0 <= i < r@.len() && (#[trigger] r@[i]).0@ == k,
    {
        self.map.into_iter().collect()
    }
}

/// The keys of the first `n` entries of `es`.
pub open spec fn keys_before(es: Seq<(Vec<u8>, StationData)>, n: int) -> Set<Seq<u8>> {
    Set::new(|k: Seq<u8>| exists|i: int| 0 <= i < n && (#[trigger] es[i]).0@ == k)
}

/// One aggregation table, and how many readings have gone into it.
pub struct StationTable {
    pub map: StationMap,
    pub readings: u64,
}

impl StationTable {
    pub open spec fn view(&self) -> Table {
        station_map_contents(self.map).map_values(|d: StationData| d.view())
    }

    pub open spec fn wf(&self) -> bool {
        table_wf(self@, self.readings as int)
    }

    /// An empty table.
    pub fn new() -> (r: StationTable)
        ensures
            r.wf(),
            r@ == Map::<Seq<u8>, crate::stats::Summary>::empty(),
            r.readings == 0,
    {
        let r = StationTable { map: StationMap::new(), readings: 0 };
        assert(r@ =~= Map::<Seq<u8>, crate::stats::Summary>::empty());
        r
    }

    /// How many readings have gone into the table.
    pub fn readings(&self) -> (r: u64)
        ensures
            r == self.readings,
    {
        self.readings
    }

    /// Folds one reading of `key` into the table.
    pub fn add(&mut self, key: &[u8], temp: i64)
        requires
            old(self).wf(),
            old(self).readings < u64::MAX,
            -MAX_TENTHS <= temp <= MAX_TENTHS,
        ensures
            final(self).wf(),
            final(self)@ == add_reading(old(self)@, key@, temp as int),
            final(self).readings == old(self).readings + 1,
    {
        let ghost before = self@;
        match self.map.get(key) {
            Some(found) => {
                let mut data = found;
                assert(before.contains_key(key@));
                data.update(temp);
                self.map.put(key, data);
            },
            None => {
                let mut data = StationData::new();
                data.update(temp);
                self.map.put(key, data);
            },
        }
        self.readings = self.readings + 1;
        proof {
            assert(self@ =~= add_reading(before, key@, temp as int));
            if before.contains_key(key@) {
                lemma_merge_wf(before[key@], single(temp as int));
            }
            assert forall|k: Seq<u8>| #[trigger] self@.contains_key(k) implies summary_wf(self@[k])
                && self@[k].count <= self.readings by {
                if k != key@ {
                    assert(before.contains_key(k));
                }
            }
        }
    }

    /// Merges `other` into this table: a key in both gets the merge of the
    /// two summaries, a key in one of them is carried over unchanged.
    pub fn merge(&mut self, other: StationTable)
        requires
            old(self).wf(),
            other.wf(),
            old(self).readings + other.readings <= u64::MAX,
        ensures
            final(self).wf(),
            final(self)@ == merge_tables(old(self)@, other@),
            final(self).readings == old(self).readings + other.readings,
    {
        let ghost before = self@;
        let ghost theirs = other@;
        let ghost contents = station_map_contents(other.map);
        let entries = other.map.into_entries();
        let ghost es = entries@;
        let mut i: usize = 0;
        while i < entries.len()
            invariant
                0 <= i <= es.len(),
                es == entries@,
                theirs == contents.map_values(|d: StationData| d.view()),
                table_wf(before, self.readings as int),
                table_wf(theirs, other.readings as int),
                self.readings == old(self).readings,
                self.readings + other.readings <= u64::MAX,
                forall|a: int, b: int|
                    0 <= a < b < es.len() ==> (#[trigger] es[a]).0@ != (#[trigger] es[b]).0@,
                forall|a: int|
                    0 <= a < es.len() ==> contents.contains_key((#[trigger] es[a]).0@)
                        && contents[es[a].0@] == es[a].1,
                forall|k: Seq<u8>|
                    #[trigger] contents.contains_key(k) ==> exists|a: int|
                        0 <= a < es.len() && (#[trigger] es[a]).0@ == k,
                self@ == merge_tables(before, theirs.restrict(keys_before(es, i as int))),
            decreases es.len() - i,
        {
            let key = &entries[i].0;
            let data = entries[i].1;
            let ghost part = theirs.restrict(keys_before(es, i as int));
            let ghost now = self@;
            proof {
                assert(!keys_before(es, i as int).contains(key@));
                lemma_merge_tables_wf(before, part, self.readings as int, other.readings as int);
                assert(theirs.contains_key(key@));
                assert(theirs[key@] == data.view());
            }
            let ghost stored;
            match self.map.get(key.as_slice()) {
                Some(found) => {
                    let mut merged = found;
                    assert(now.contains_key(key@));
                    assert(before.contains_key(key@));
                    merged.aggregate(&data);
                    self.map.put(key.as_slice(), merged);
                    proof {
                        stored = merged.view();
                        assert(stored == merge_summary(before[key@], data.view()));
                    }
                },
                None => {
                    self.map.put(key.as_slice(), data);
                    proof {
                        stored = data.view();
                        assert(!now.contains_key(key@));
                        assert(!merge_tables(before, part).contains_key(key@));
                        assert(!before.contains_key(key@));
                    }
                },
            }
            proof {
                assert(self@ =~= now.insert(key@, stored));
                let next = theirs.restrict(keys_before(es, i + 1));
                assert(keys_before(es, i + 1) =~= keys_before(es, i as int).insert(key@)) by {
                    assert(es[i as int].0@ == key@);
                }
                assert(self@ =~= merge_tables(before, next));
            }
            i = i + 1;
        }
        proof {
            assert(theirs.restrict(keys_before(es, es.len() as int)) =~= theirs) by {
                assert forall|k: Seq<u8>| theirs.contains_key(k) implies keys_before(
                    es,
                    es.len() as int,
                ).contains(k) by {
                    assert(contents.contains_key(k));
                }
            }
            lemma_merge_tables_wf(before, theirs, self.readings as int, other.readings as int);
        }
        self.readings = self.readings + other.readings;
    }
}

/// Folds one line into `acc`: the bytes before its first `;` are the key,
/// the bytes after it the value token. On a token that cannot be read the
/// table is left unchanged and the error is returned.
pub fn process_line(acc: &mut StationTable, line: &[u8]) -> (r: Result<(), ParseError>)
    requires
        old(acc).wf(),
        old(acc).readings < u64::MAX,
    ensures
        match reading_of(token_of(line@)) {
            Ok(v) => r is Ok && final(acc)@ == add_reading(old(acc)@, key_of(line@), v)
                && final(acc).wf() && final(acc).readings == old(acc).readings + 1,
            Err(e) => r == Err::<(), ParseError>(e) && *final(acc) == *old(acc),
        },
{
    let (station, temp_str) = split_once(line, SEMICOLON);
    proof {
        lemma_scan_to_bounds(line@, SEMICOLON, 0);
        if scan_to(line@, SEMICOLON, 0) == line@.len() {
            assert(temp_str@ =~= token_of(line@));
        }
    }
    match parse_temperature(temp_str) {
        Ok(temp) => {
            proof {
                lemma_reading_range(temp_str@);
            }
            acc.add(station, temp);
            Ok(())
        },
        Err(e) => Err(e),
    }
}

} // verus!
