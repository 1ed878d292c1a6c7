//! The table of all stations seen so far.
//!
//! The table maps each key to the running statistics of its station. Keys are
//! the bytes before the first `;` of a line, compared byte for byte.

use vstd::prelude::*;
use vstd::slice::slice_to_vec;
use crate::bytes::same_bytes;
use crate::key_order::{key_before, lemma_key_order_total};
use crate::report::sort_entries;
use crate::stats::{StationStats, Summary};

verus! {

/// What the table says: the summary of every station that has a reading.
pub type Ledger = Map<Seq<u8>, Summary>;

/// The ledger after one more reading of `value` at the station `key`.
pub open spec fn observe(ledger: Ledger, key: Seq<u8>, value: int) -> Ledger {
    if ledger.contains_key(key) {
        ledger.insert(key, ledger[key].absorb(value))
    } else {
        ledger.insert(key, Summary::single(value))
    }
}

/// Readings at two stations, or two readings at one, can be taken in either
/// order.
pub proof fn lemma_observe_commutes(ledger: Ledger, k1: Seq<u8>, v1: int, k2: Seq<u8>, v2: int)
    ensures
        observe(observe(ledger, k1, v1), k2, v2) == observe(observe(ledger, k2, v2), k1, v1),
{
    assert(observe(observe(ledger, k1, v1), k2, v2) =~= observe(observe(ledger, k2, v2), k1, v1));
}

/// One station of the table: its key and its statistics.
#[derive(Clone, Debug)]
pub struct StationEntry {
    pub(crate) key: Vec<u8>,
    pub(crate) stats: StationStats,
}

impl View for StationEntry {
    type V = (Seq<u8>, Summary);

    closed spec fn view(&self) -> (Seq<u8>, Summary) {
        (self.key@, self.stats@)
    }
}

impl StationEntry {
    /// The bytes of the station's key.
    pub fn key(&self) -> (key: &[u8])
        ensures
            key@ == self@.0,
    {
        self.key.as_slice()
    }

    /// The station's statistics.
    pub fn stats(&self) -> (stats: StationStats)
        ensures
            stats@ == self@.1,
    {
        self.stats
    }
}

/// What a list of entries says: the key and the summary of each.
pub open spec fn entry_views(entries: Seq<StationEntry>) -> Seq<(Seq<u8>, Summary)> {
    entries.map_values(|entry: StationEntry| entry@)
}

/// The entries with the key `key`, in the order in which they stand.
pub open spec fn with_key(entries: Seq<(Seq<u8>, Summary)>, key: Seq<u8>) -> Seq<
    (Seq<u8>, Summary),
> {
    entries.filter(|entry: (Seq<u8>, Summary)| entry.0 == key)
}

/// No two of the entries have the same key.
pub open spec fn distinct_keys(entries: Seq<(Seq<u8>, Summary)>) -> bool {
    forall|i: int, j: int|
        0 <= i < j < entries.len() ==> (#[trigger] entries[i]).0 != (#[trigger] entries[j]).0
}

/// Entry `i` has the key `key`.
pub open spec fn keyed(entries: Seq<(Seq<u8>, Summary)>, i: int, key: Seq<u8>) -> bool {
    0 <= i < entries.len() && entries[i].0 == key
}

/// The ledger that a list of entries stands for.
pub open spec fn ledger_of(entries: Seq<(Seq<u8>, Summary)>) -> Ledger {
    Map::new(
        |key: Seq<u8>| exists|i: int| keyed(entries, i, key),
        |key: Seq<u8>| entries[choose|i: int| keyed(entries, i, key)].1,
    )
}

/// With distinct keys, every entry is found in the ledger under its key.
pub proof fn lemma_ledger_entry(entries: Seq<(Seq<u8>, Summary)>, i: int)
    requires
        distinct_keys(entries),
        0 <= i < entries.len(),
    ensures
        ledger_of(entries).contains_key(entries[i].0),
        ledger_of(entries)[entries[i].0] == entries[i].1,
{
    let key = entries[i].0;
    assert(keyed(entries, i, key));
    let j = choose|j: int| keyed(entries, j, key);
    assert(keyed(entries, j, key));
    if i < j {
        assert(entries[i].0 != entries[j].0);
    }
    if j < i {
        assert(entries[j].0 != entries[i].0);
    }
}

/// A ledger has as many stations as the list it stands for has entries.
pub proof fn lemma_ledger_len(entries: Seq<(Seq<u8>, Summary)>)
    requires
        distinct_keys(entries),
    ensures
        ledger_of(entries).dom().finite(),
        ledger_of(entries).dom().len() == entries.len(),
    decreases entries.len(),
{
    if entries.len() == 0 {
        assert(ledger_of(entries).dom() =~= Set::<Seq<u8>>::empty());
    } else {
        let front = entries.drop_last();
        let last = entries.last();
        assert forall|i: int, j: int| 0 <= i < j < front.len() implies (#[trigger] front[i]).0 != (
        #[trigger] front[j]).0 by {
            assert(entries[i].0 != entries[j].0);
        }
        lemma_ledger_len(front);
        assert forall|key: Seq<u8>|
            ledger_of(entries).dom().contains(key) <==> ledger_of(front).dom().insert(
                last.0,
            ).contains(key) by {
            if ledger_of(entries).dom().contains(key) {
                let i = choose|i: int| keyed(entries, i, key);
                if i < front.len() {
                    assert(keyed(front, i, key));
                }
            }
            if ledger_of(front).dom().contains(key) {
                let i = choose|i: int| keyed(front, i, key);
                assert(keyed(entries, i, key));
            }
            if key == last.0 {
                assert(keyed(entries, entries.len() - 1, key));
            }
        }
        assert(ledger_of(entries).dom() =~= ledger_of(front).dom().insert(last.0));
        if ledger_of(front).dom().contains(last.0) {
            let i = choose|i: int| keyed(front, i, last.0);
            assert(entries[i].0 != entries[entries.len() - 1].0);
        }
    }
}

/// The table of all stations seen so far, and the number of readings taken.
#[derive(Clone, Debug)]
pub struct StationTable {
    pub(crate) entries: Vec<StationEntry>,
    pub(crate) readings: u64,
}

impl View for StationTable {
    type V = Ledger;

    closed spec fn view(&self) -> Ledger {
        ledger_of(self.rows())
    }
}

impl StationTable {
    /// The entries of the table, in the order in which their stations were
    /// first seen.
    pub closed spec fn rows(&self) -> Seq<(Seq<u8>, Summary)> {
        entry_views(self.entries@)
    }

    /// The number of readings taken into the table.
    pub closed spec fn spec_readings(&self) -> nat {
        self.readings as nat
    }

    /// No key occurs twice, and every station has the summary of one or more
    /// of the readings taken.
    pub closed spec fn wf(&self) -> bool {
        &&& distinct_keys(self.rows())
        &&& forall|i: int|
            0 <= i < self.entries@.len() ==> (#[trigger] self.entries@[i]).stats.wf()
                && self.entries@[i].stats@.count <= self.readings
    }

    /// The table is what its rows say, and every summary in it is consistent.
    pub proof fn lemma_wf(&self)
        requires
            self.wf(),
        ensures
            self@ == ledger_of(self.rows()),
            distinct_keys(self.rows()),
            self@.dom().finite(),
            self@.dom().len() == self.rows().len(),
            self.spec_readings() <= u64::MAX,
            forall|key: Seq<u8>|
                self@.contains_key(key) ==> (#[trigger] self@[key]).consistent() && self@[key].count
                    <= self.spec_readings(),
    {
        lemma_ledger_len(self.rows());
        assert forall|key: Seq<u8>| self@.contains_key(key) implies (#[trigger] self@[key]).consistent()
            && self@[key].count <= self.spec_readings() by {
            let i = choose|i: int| keyed(self.rows(), i, key);
            lemma_ledger_entry(self.rows(), i);
            assert(self.entries@[i].stats.wf());
        }
    }

    /// A table without stations.
    pub fn new() -> (table: StationTable)
        ensures
            table.wf(),
            table@ == Map::<Seq<u8>, Summary>::empty(),
            table.spec_readings() == 0,
    {
        let table = StationTable { entries: Vec::new(), readings: 0 };
        assert(table@ =~= Map::<Seq<u8>, Summary>::empty());
        table
    }

    /// The number of stations.
    pub fn len(&self) -> (n: usize)
        requires
            self.wf(),
        ensures
            n == self@.dom().len(),
    {
        proof {
            self.lemma_wf();
        }
        self.entries.len()
    }

    /// The number of readings taken into the table.
    pub fn readings(&self) -> (n: u64)
        ensures
            n == self.spec_readings(),
    {
        self.readings
    }

    /// Whether the table can count `more` further readings. A text of `more`
    /// bytes holds no more readings than that.
    pub fn has_room(&self, more: usize) -> (room: bool)
        ensures
            room == (self.spec_readings() + more <= u64::MAX),
    {
        more as u64 <= u64::MAX - self.readings
    }

    /// The index of the entry with the key `key`.
    fn position(&self, key: &[u8]) -> (found: Option<usize>)
        ensures
            match found {
                Some(i) => keyed(self.rows(), i as int, key@),
                None => forall|i: int| !keyed(self.rows(), i, key@),
            },
    {
        let mut i: usize = 0;
        while i < self.entries.len()
            invariant
                i <= self.entries@.len(),
                forall|j: int| 0 <= j < i ==> !keyed(self.rows(), j, key@),
            decreases self.entries@.len() - i,
        {
            if same_bytes(self.entries[i].key.as_slice(), key) {
                return Some(i);
            }
            i = i + 1;
        }
        None
    }

    /// The statistics of the station `key`, if it has a reading.
    pub fn get(&self, key: &[u8]) -> (found: Option<StationStats>)
        requires
            self.wf(),
        ensures
            match found {
                Some(stats) => self@.contains_key(key@) && stats@ == self@[key@],
                None => !self@.contains_key(key@),
            },
    {
        match self.position(key) {
            Some(i) => {
                proof {
                    lemma_ledger_entry(self.rows(), i as int);
                }
                Some(self.entries[i].stats)
            },
            None => None,
        }
    }

    /// Takes a reading of `value` tenths at the station `key` into the table:
    /// a station seen for the first time gets a record of its own, a known
    /// one has its record updated.
    pub fn record(&mut self, key: &[u8], value: i64)
        requires
            old(self).wf(),
            old(self).spec_readings() < u64::MAX,
        ensures
            final(self).wf(),
            final(self)@ == observe(old(self)@, key@, value as int),
            final(self).spec_readings() == old(self).spec_readings() + 1,
    {
        let ghost before = self.rows();
        match self.position(key) {
            Some(i) => {
                let mut stats = self.entries[i].stats;
                stats.absorb(value);
                let owned: Vec<u8> = slice_to_vec(key);
                self.entries.set(i, StationEntry { key: owned, stats });
                self.readings = self.readings + 1;
                proof {
                    let after = self.rows();
                    assert(after =~= before.update(i as int, (key@, stats@)));
                    lemma_ledger_entry(before, i as int);
                    assert forall|k: Seq<u8>|
                        ledger_of(after).contains_key(k) <==> observe(
                            ledger_of(before),
                            key@,
                            value as int,
                        ).contains_key(k) by {
                        if ledger_of(after).contains_key(k) {
                            let j = choose|j: int| keyed(after, j, k);
                            assert(keyed(before, j, k));
                        }
                        if ledger_of(before).contains_key(k) {
                            let j = choose|j: int| keyed(before, j, k);
                            assert(keyed(after, j, k));
                        }
                    }
                    assert forall|a: int, b: int| 0 <= a < b < after.len() implies (
                    #[trigger] after[a]).0 != (#[trigger] after[b]).0 by {
                        assert(before[a].0 != before[b].0);
                    }
                    assert forall|k: Seq<u8>| ledger_of(after).contains_key(k) implies ledger_of(
                        after,
                    )[k] == observe(ledger_of(before), key@, value as int)[k] by {
                        let j = choose|j: int| keyed(after, j, k);
                        lemma_ledger_entry(after, j);
                        assert(keyed(before, j, k));
                        lemma_ledger_entry(before, j);
                    }
                    assert(ledger_of(after) =~= observe(ledger_of(before), key@, value as int));
                }
            },
            None => {
                let owned: Vec<u8> = slice_to_vec(key);
                self.entries.push(StationEntry { key: owned, stats: StationStats::first(value) });
                self.readings = self.readings + 1;
                proof {
                    let after = self.rows();
                    assert(after =~= before.push((key@, Summary::single(value as int))));
                    assert forall|a: int, b: int| 0 <= a < b < after.len() implies (
                    #[trigger] after[a]).0 != (#[trigger] after[b]).0 by {
                        if b < before.len() {
                            assert(before[a].0 != before[b].0);
                        } else {
                            assert(!keyed(before, a, key@));
                        }
                    }
                    assert(!ledger_of(before).contains_key(key@));
                    assert forall|k: Seq<u8>|
                        ledger_of(after).contains_key(k) <==> observe(
                            ledger_of(before),
                            key@,
                            value as int,
                        ).contains_key(k) by {
                        if ledger_of(after).contains_key(k) {
                            let j = choose|j: int| keyed(after, j, k);
                            if j < before.len() {
                                assert(keyed(before, j, k));
                            }
                        }
                        if ledger_of(before).contains_key(k) {
                            let j = choose|j: int| keyed(before, j, k);
                            assert(keyed(after, j, k));
                        }
                        if k == key@ {
                            assert(keyed(after, after.len() - 1, k));
                        }
                    }
                    assert forall|k: Seq<u8>| ledger_of(after).contains_key(k) implies ledger_of(
                        after,
                    )[k] == observe(ledger_of(before), key@, value as int)[k] by {
                        let j = choose|j: int| keyed(after, j, k);
                        lemma_ledger_entry(after, j);
                        if j < before.len() {
                            assert(keyed(before, j, k));
                            lemma_ledger_entry(before, j);
                        }
                    }
                    assert(ledger_of(after) =~= observe(ledger_of(before), key@, value as int));
                }
            },
        }
    }

    /// Hands the stations out in the order of the report: ascending by key,
    /// byte by byte. Every station of the table is there once, with its
    /// statistics.
    pub fn into_sorted(self) -> (sorted: Vec<StationEntry>)
        requires
            self.wf(),
        ensures
            sorted@.len() == self@.dom().len(),
            forall|i: int|
                0 <= i < sorted@.len() ==> self@.contains_key((#[trigger] sorted@[i])@.0)
                    && self@[sorted@[i]@.0] == sorted@[i]@.1,
            forall|i: int, j: int|
                0 <= i < j < sorted@.len() ==> key_before(
                    (#[trigger] sorted@[i])@.0,
                    (#[trigger] sorted@[j])@.0,
                ),
            forall|key: Seq<u8>|
                self@.contains_key(key) ==> exists|i: int|
                    0 <= i < sorted@.len() && (#[trigger] sorted@[i])@.0 == key,
    {
        let ghost before = self.rows();
        let ghost ledger = self@;
        proof {
            self.lemma_wf();
        }
        let sorted = sort_entries(self.entries);
        proof {
            let after = entry_views(sorted@);
            broadcast use vstd::seq_lib::group_to_multiset_ensures;

            assert(after.len() == before.len()) by {
                assert(after.to_multiset().len() == before.to_multiset().len());
            }
            assert forall|i: int| 0 <= i < after.len() implies exists|k: int|
                0 <= k < before.len() && before[k] == #[trigger] after[i] by {
                assert(after.contains(after[i]));
                assert(after.to_multiset().count(after[i]) > 0);
                assert(before.contains(after[i]));
            }
            assert forall|i: int| 0 <= i < sorted@.len() implies ledger.contains_key(
                (#[trigger] sorted@[i])@.0,
            ) && ledger[sorted@[i]@.0] == sorted@[i]@.1 by {
                let k = choose|k: int| 0 <= k < before.len() && before[k] == after[i];
                lemma_ledger_entry(before, k);
            }
            assert(before.no_duplicates()) by {
                assert forall|i: int, j: int|
                    0 <= i < before.len() && 0 <= j < before.len() && i != j implies before[i]
                    != before[j] by {
                    if i < j {
                        assert(before[i].0 != before[j].0);
                    } else {
                        assert(before[j].0 != before[i].0);
                    }
                }
            }
            before.lemma_multiset_has_no_duplicates();
            after.lemma_multiset_has_no_duplicates_conv();
            assert forall|i: int, j: int| 0 <= i < j < sorted@.len() implies key_before(
                (#[trigger] sorted@[i])@.0,
                (#[trigger] sorted@[j])@.0,
            ) by {
                let ki = choose|k: int| 0 <= k < before.len() && before[k] == after[i];
                let kj = choose|k: int| 0 <= k < before.len() && before[k] == after[j];
                assert(after[i] != after[j]);
                if ki < kj {
                    assert(before[ki].0 != before[kj].0);
                }
                if kj < ki {
                    assert(before[kj].0 != before[ki].0);
                }
                lemma_key_order_total(sorted@[i]@.0, sorted@[j]@.0);
            }
            assert forall|key: Seq<u8>| ledger.contains_key(key) implies exists|i: int|
                0 <= i < sorted@.len() && (#[trigger] sorted@[i])@.0 == key by {
                let k = choose|k: int| keyed(before, k, key);
                assert(before.contains(before[k]));
                assert(before.to_multiset().count(before[k]) > 0);
                assert(after.contains(before[k]));
                let i = choose|i: int| 0 <= i < after.len() && after[i] == before[k];
                assert(sorted@[i]@.0 == key);
            }
        }
        sorted
    }
}

} // verus!