//! The cache of resolved addresses, kept in memory: at most one record per address and source.
use vstd::prelude::*;
use crate::reconcile::{CacheRow, RowView, row_views};

verus! {

/// One record: what `source` found for `address`. Coordinates are `f64` bit patterns.
pub struct GeocodeRecord {
    pub address: String,
    pub source: String,
    pub latitude: u64,
    pub longitude: u64,
    pub valid: bool,
}

/// A record as a mathematical value.
pub struct RecordEntry {
    pub address: Seq<char>,
    pub source: Seq<char>,
    pub latitude: u64,
    pub longitude: u64,
    pub valid: bool,
}

pub open spec fn record_entry(r: GeocodeRecord) -> RecordEntry {
    RecordEntry {
        address: r.address@,
        source: r.source@,
        latitude: r.latitude,
        longitude: r.longitude,
        valid: r.valid,
    }
}

pub open spec fn has_key(t: Seq<RecordEntry>, a: Seq<char>, s: Seq<char>) -> bool {
    exists|i: int| 0 <= i < t.len() && #[trigger] t[i].address == a && t[i].source == s
}

/// No two records share their address and source.
pub open spec fn table_wf(t: Seq<RecordEntry>) -> bool {
    forall|i: int, j: int|
        0 <= i < t.len() && 0 <= j < t.len() && i != j ==> !(t[i].address == t[j].address && t[i].source
            == t[j].source)
}

/// Insert-or-update keyed by address and source: a new valid record where the key is absent,
/// else the record of the key with only its coordinates replaced.
pub open spec fn upsert(t: Seq<RecordEntry>, a: Seq<char>, s: Seq<char>, lat: u64, lon: u64) -> Seq<RecordEntry> {
    if has_key(t, a, s) {
        let i = choose|i: int| 0 <= i < t.len() && t[i].address == a && t[i].source == s;
        t.update(i, RecordEntry { latitude: lat, longitude: lon, ..t[i] })
    } else {
        t.push(RecordEntry { address: a, source: s, latitude: lat, longitude: lon, valid: true })
    }
}

/// A record as the cache lookup reads it.
pub open spec fn record_row(r: RecordEntry) -> RowView {
    RowView { address: r.address, latitude: r.latitude, longitude: r.longitude, valid: r.valid }
}

/// The cache of resolved addresses; its records in order of insertion are its priority order.
pub struct GeocodeTable {
    records: Vec<GeocodeRecord>,
}

impl View for GeocodeTable {
    type V = Seq<RecordEntry>;

    closed spec fn view(&self) -> Seq<RecordEntry> {
        self.records@.map_values(|r: GeocodeRecord| record_entry(r))
    }
}

impl GeocodeTable {
    pub open spec fn wf(&self) -> bool {
        table_wf(self@)
    }

    /// An empty table.
    pub fn new() -> (r: GeocodeTable)
        ensures
            r.wf(),
            r@.len() == 0,
    {
        let r = GeocodeTable { records: Vec::new() };
        assert(r@ =~= Seq::<RecordEntry>::empty());
        r
    }

    /// The records, in priority order.
    pub fn records(&self) -> (r: &Vec<GeocodeRecord>)
        ensures
            r@.map_values(|x: GeocodeRecord| record_entry(x)) == self@,
    {
        &self.records
    }

    /// Writes what `source` found for `address`: a new valid record where the pair has none,
    /// else only the coordinates of its record change.
    pub fn upsert(&mut self, address: String, source: String, latitude: u64, longitude: u64)
        requires
            old(self).wf(),
        ensures
            final(self).wf(),
            final(self)@ == upsert(old(self)@, address@, source@, latitude, longitude),
    {
        let ghost before = self@;
        let ghost a = address@;
        let ghost s = source@;
        let mut i: usize = 0;
        while i < self.records.len()
            invariant
                0 <= i <= self.records.len(),
                self@ == before,
                before == old(self)@,
                table_wf(before),
                a == address@,
                s == source@,
                forall|j: int| 0 <= j < i ==> !(self.records@[j].address@ == a && self.records@[j].source@ == s),
            decreases self.records.len() - i,
        {
            if self.records[i].address == address && self.records[i].source == source {
                proof {
                    assert(before[i as int].address == a && before[i as int].source == s);
                    assert(has_key(before, a, s));
                    let c = choose|c: int| 0 <= c < before.len() && before[c].address == a && before[c].source == s;
                    assert(c == i as int);
                }
                let valid = self.records[i].valid;
                let old_address = self.records[i].address.clone();
                let old_source = self.records[i].source.clone();
                self.records.set(i, GeocodeRecord { address: old_address, source: old_source, latitude, longitude, valid });
                assert(self@ =~= before.update(i as int, RecordEntry { latitude, longitude, ..before[i as int] }));
                proof {
                    assert forall|x: int, y: int|
                        0 <= x < self@.len() && 0 <= y < self@.len() && x != y implies !(self@[x].address
                            == self@[y].address && self@[x].source == self@[y].source) by {
                        assert(self@[x].address == before[x].address && self@[x].source == before[x].source);
                        assert(self@[y].address == before[y].address && self@[y].source == before[y].source);
                    }
                    let c = choose|c: int| 0 <= c < before.len() && before[c].address == a && before[c].source == s;
                    assert(c == i as int);
                    assert(self@ == upsert(before, a, s, latitude, longitude));
                }
                return;
            }
            i = i + 1;
        }
        proof {
            if has_key(before, a, s) {
                let j = choose|j: int| 0 <= j < before.len() && before[j].address == a && before[j].source == s;
                assert(before[j] == record_entry(self.records@[j]));
            }
        }
        self.records.push(GeocodeRecord { address, source, latitude, longitude, valid: true });
        assert(self@ =~= before.push(RecordEntry { address: a, source: s, latitude, longitude, valid: true }));
        proof {
            assert forall|x: int, y: int|
                0 <= x < self@.len() && 0 <= y < self@.len() && x != y implies !(self@[x].address == self@[y].address
                    && self@[x].source == self@[y].source) by {
                if x == before.len() {
                    assert(self@[y] == before[y]);
                } else if y == before.len() {
                    assert(self@[x] == before[x]);
                }
            }
        }
    }

    /// The records as the cache lookup reads them, in priority order.
    pub fn cache_rows(&self) -> (r: Vec<CacheRow>)
        ensures
            row_views(r@) == self@.map_values(|e: RecordEntry| record_row(e)),
    {
        let mut out: Vec<CacheRow> = Vec::new();
        let mut i: usize = 0;
        while i < self.records.len()
            invariant
                0 <= i <= self.records.len(),
                row_views(out@) == self@.subrange(0, i as int).map_values(|e: RecordEntry| record_row(e)),
            decreases self.records.len() - i,
        {
            let rec = &self.records[i];
            let ghost before = out@;
            assert(self@[i as int] == record_entry(self.records@[i as int]));
            out.push(CacheRow {
                address: rec.address.clone(),
                latitude: Some(rec.latitude),
                longitude: Some(rec.longitude),
                valid: rec.valid,
            });
            assert(self@.subrange(0, i as int + 1) == self@.subrange(0, i as int).push(self@[i as int]));
            assert(row_views(out@) =~= row_views(before).push(record_row(self@[i as int])));
            assert(row_views(out@) =~= self@.subrange(0, i as int + 1).map_values(|e: RecordEntry| record_row(e)));
            i = i + 1;
        }
        assert(self@.subrange(0, self.records.len() as int) == self@);
        out
    }
}

/// Two writes for the same address and source leave exactly one record of that pair, and it
/// holds the coordinates of the later write.
pub proof fn lemma_upsert_latest_wins(
    t: Seq<RecordEntry>,
    a: Seq<char>,
    s: Seq<char>,
    lat1: u64,
    lon1: u64,
    lat2: u64,
    lon2: u64,
)
    requires
        table_wf(t),
    ensures
        ({
            let t2 = upsert(upsert(t, a, s, lat1, lon1), a, s, lat2, lon2);
            exists|i: int|
                0 <= i < t2.len() && #[trigger] t2[i].address == a && t2[i].source == s && t2[i].latitude == lat2
                    && t2[i].longitude == lon2 && forall|j: int|
                    0 <= j < t2.len() && j != i ==> !(t2[j].address == a && t2[j].source == s)
        }),
{
    let t1 = upsert(t, a, s, lat1, lon1);
    // after the first write the pair stands in exactly one record, at k
    let k: int = if has_key(t, a, s) {
        choose|i: int| 0 <= i < t.len() && t[i].address == a && t[i].source == s
    } else {
        t.len() as int
    };
    assert(0 <= k < t1.len() && t1[k].address == a && t1[k].source == s);
    assert forall|j: int| 0 <= j < t1.len() && j != k implies !(t1[j].address == a && t1[j].source == s) by {
        if j < t.len() {
            assert(t1[j] == t[j]);
        }
    }
    assert(has_key(t1, a, s));
    let c = choose|i: int| 0 <= i < t1.len() && t1[i].address == a && t1[i].source == s;
    assert(c == k);
    let t2 = upsert(t1, a, s, lat2, lon2);
    assert(t2[k].address == a && t2[k].source == s && t2[k].latitude == lat2 && t2[k].longitude == lon2);
    assert forall|j: int| 0 <= j < t2.len() && j != k implies !(t2[j].address == a && t2[j].source == s) by {
        assert(t2[j] == t1[j]);
    }
}

} // verus!
