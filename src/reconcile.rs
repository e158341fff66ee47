//! Splitting a batch of lookup keys into resolved, known-invalid and unknown addresses.
use vstd::prelude::*;
use crate::normalize::views;

verus! {

/// One cached record as the store hands it back. Coordinates are the bit patterns of `f64`
/// values, carried through unchanged; a missing coordinate reads as `0.0`, whose pattern is `0`.
pub struct CacheRow {
    pub address: String,
    pub latitude: Option<u64>,
    pub longitude: Option<u64>,
    pub valid: bool,
}

/// A resolved address with the bit patterns of its `f64` coordinates.
pub struct Geocode {
    pub address: String,
    pub latitude: u64,
    pub longitude: u64,
}

/// What the cache says of one address.
#[derive(PartialEq, Eq, Structural, Clone, Copy, Debug)]
pub enum Resolution {
    /// A valid record was found: its latitude and longitude.
    Resolved(u64, u64),
    /// Only records of a confirmed failure were found.
    Invalid,
    /// No record was found.
    NotFound,
}

/// The three parts of a batch: each key of the batch stands in exactly one of them.
pub struct Reconciliation {
    pub resolved: Vec<Geocode>,
    pub invalid: Vec<String>,
    pub pending: Vec<String>,
}

pub open spec fn coordinate(c: Option<u64>) -> u64 {
    match c {
        Some(v) => v,
        None => 0,
    }
}

/// A cached record as a mathematical value, a missing coordinate read as `0`.
pub struct RowView {
    pub address: Seq<char>,
    pub latitude: u64,
    pub longitude: u64,
    pub valid: bool,
}

pub open spec fn row_view(r: CacheRow) -> RowView {
    RowView {
        address: r.address@,
        latitude: coordinate(r.latitude),
        longitude: coordinate(r.longitude),
        valid: r.valid,
    }
}

pub open spec fn row_views(rows: Seq<CacheRow>) -> Seq<RowView> {
    rows.map_values(|r: CacheRow| row_view(r))
}

/// The resolution of address `a` by `rows`, taken in priority order: the first valid record of
/// `a` wins; failing that, any record of `a` marks it invalid.
pub open spec fn resolution(rows: Seq<RowView>, a: Seq<char>) -> Resolution
    decreases rows.len(),
{
    if rows.len() == 0 {
        Resolution::NotFound
    } else {
        let before = resolution(rows.drop_last(), a);
        let r = rows.last();
        match before {
            Resolution::Resolved(_, _) => before,
            _ => if r.address == a {
                if r.valid {
                    Resolution::Resolved(r.latitude, r.longitude)
                } else {
                    Resolution::Invalid
                }
            } else {
                before
            },
        }
    }
}

pub open spec fn is_resolved(rows: Seq<RowView>, a: Seq<char>) -> bool {
    resolution(rows, a) is Resolved
}

pub open spec fn is_invalid(rows: Seq<RowView>, a: Seq<char>) -> bool {
    resolution(rows, a) is Invalid
}

pub open spec fn is_unknown(rows: Seq<RowView>, a: Seq<char>) -> bool {
    resolution(rows, a) is NotFound
}

/// A resolved entry as the address and the two coordinate patterns.
pub open spec fn geocode_view(g: Geocode) -> (Seq<char>, u64, u64) {
    (g.address@, g.latitude, g.longitude)
}

/// The resolved entry of key `a`.
pub open spec fn resolved_entry(rows: Seq<RowView>, a: Seq<char>) -> (Seq<char>, u64, u64) {
    match resolution(rows, a) {
        Resolution::Resolved(lat, lon) => (a, lat, lon),
        _ => (a, 0, 0),
    }
}

/// The resolved entries of `keys`, in the order of the keys.
pub open spec fn resolved_of(keys: Seq<Seq<char>>, rows: Seq<RowView>) -> Seq<(Seq<char>, u64, u64)> {
    keys.filter(|a: Seq<char>| is_resolved(rows, a)).map_values(|a: Seq<char>| resolved_entry(rows, a))
}

/// The keys that only have records of failure, in order.
pub open spec fn invalid_of(keys: Seq<Seq<char>>, rows: Seq<RowView>) -> Seq<Seq<char>> {
    keys.filter(|a: Seq<char>| is_invalid(rows, a))
}

/// The keys without any record, in order: those to be queued.
pub open spec fn unknown_of(keys: Seq<Seq<char>>, rows: Seq<RowView>) -> Seq<Seq<char>> {
    keys.filter(|a: Seq<char>| is_unknown(rows, a))
}

/// A key lies in the filtered keys exactly when it is a key and meets the filter.
proof fn lemma_filter_membership(keys: Seq<Seq<char>>, p: spec_fn(Seq<char>) -> bool, a: Seq<char>)
    ensures
        keys.filter(p).contains(a) <==> (keys.contains(a) && p(a)),
{
    if keys.filter(p).contains(a) {
        keys.lemma_filter_contains_rev(p, a);
        let i = choose|i: int| 0 <= i < keys.filter(p).len() && keys.filter(p)[i] == a;
        keys.lemma_filter_pred(p, i);
    }
    if keys.contains(a) && p(a) {
        let i = choose|i: int| 0 <= i < keys.len() && keys[i] == a;
        keys.lemma_filter_contains(p, i);
    }
}

/// The addresses of the resolved entries of a batch.
pub open spec fn resolved_addresses(keys: Seq<Seq<char>>, rows: Seq<RowView>) -> Seq<Seq<char>> {
    resolved_of(keys, rows).map_values(|e: (Seq<char>, u64, u64)| e.0)
}

/// Every key of a batch lands in exactly one of the three parts that `reconcile` returns:
/// the resolved entries, the invalid keys, or the keys to be queued.
pub proof fn lemma_partition_complete(keys: Seq<Seq<char>>, rows: Seq<RowView>, a: Seq<char>)
    requires
        keys.contains(a),
    ensures
        resolved_addresses(keys, rows).contains(a) || invalid_of(keys, rows).contains(a)
            || unknown_of(keys, rows).contains(a),
        !(resolved_addresses(keys, rows).contains(a) && invalid_of(keys, rows).contains(a)),
        !(resolved_addresses(keys, rows).contains(a) && unknown_of(keys, rows).contains(a)),
        !(invalid_of(keys, rows).contains(a) && unknown_of(keys, rows).contains(a)),
{
    let pr = |x: Seq<char>| is_resolved(rows, x);
    let pi = |x: Seq<char>| is_invalid(rows, x);
    let pu = |x: Seq<char>| is_unknown(rows, x);
    assert(resolved_addresses(keys, rows) =~= keys.filter(pr));
    lemma_filter_membership(keys, pr, a);
    lemma_filter_membership(keys, pi, a);
    lemma_filter_membership(keys, pu, a);
}

/// The resolution of one address by the rows, taken in priority order.
pub fn resolve(rows: &Vec<CacheRow>, a: &String) -> (r: Resolution)
    ensures
        r == resolution(row_views(rows@), a@),
{
    let mut state = Resolution::NotFound;
    let mut i: usize = 0;
    while i < rows.len()
        invariant
            0 <= i <= rows.len(),
            state == resolution(row_views(rows@).subrange(0, i as int), a@),
        decreases rows.len() - i,
    {
        let ghost prefix = row_views(rows@).subrange(0, i as int + 1);
        assert(prefix.drop_last() == row_views(rows@).subrange(0, i as int));
        let row = &rows[i];
        match state {
            Resolution::Resolved(_, _) => {},
            _ => {
                if row.address == *a {
                    if row.valid {
                        let lat = match row.latitude {
                            Some(v) => v,
                            None => 0,
                        };
                        let lon = match row.longitude {
                            Some(v) => v,
                            None => 0,
                        };
                        state = Resolution::Resolved(lat, lon);
                    } else {
                        state = Resolution::Invalid;
                    }
                }
            },
        }
        i = i + 1;
    }
    assert(row_views(rows@).subrange(0, rows.len() as int) == row_views(rows@));
    state
}

/// Splits the lookup keys by what `rows` (in priority order) say of each: resolved entries with
/// their coordinates, keys known to be invalid, and keys without any record, each part in the
/// order of the keys.
pub fn reconcile(keys: &Vec<String>, rows: &Vec<CacheRow>) -> (r: Reconciliation)
    ensures
        r.resolved@.map_values(|g: Geocode| geocode_view(g)) == resolved_of(views(keys@), row_views(rows@)),
        views(r.invalid@) == invalid_of(views(keys@), row_views(rows@)),
        views(r.pending@) == unknown_of(views(keys@), row_views(rows@)),
{
    let ghost ks = views(keys@);
    let mut resolved: Vec<Geocode> = Vec::new();
    let mut invalid: Vec<String> = Vec::new();
    let mut pending: Vec<String> = Vec::new();
    let mut i: usize = 0;
    while i < keys.len()
        invariant
            0 <= i <= keys.len(),
            ks == views(keys@),
            resolved@.map_values(|g: Geocode| geocode_view(g)) == resolved_of(ks.subrange(0, i as int), row_views(rows@)),
            views(invalid@) == invalid_of(ks.subrange(0, i as int), row_views(rows@)),
            views(pending@) == unknown_of(ks.subrange(0, i as int), row_views(rows@)),
        decreases keys.len() - i,
    {
        let ghost prefix = ks.subrange(0, i as int + 1);
        assert(prefix.drop_last() == ks.subrange(0, i as int));
        assert(prefix.last() == keys@[i as int]@);
        let ghost res_before = resolved@;
        let ghost inv_before = invalid@;
        let ghost pen_before = pending@;
        let key = &keys[i];
        match resolve(rows, key) {
            Resolution::Resolved(lat, lon) => {
                resolved.push(Geocode { address: key.clone(), latitude: lat, longitude: lon });
                assert(resolved@.map_values(|g: Geocode| geocode_view(g))
                    == res_before.map_values(|g: Geocode| geocode_view(g)).push(resolved_entry(row_views(rows@), prefix.last())));
            },
            Resolution::Invalid => {
                invalid.push(key.clone());
                assert(views(invalid@) == views(inv_before).push(prefix.last()));
            },
            Resolution::NotFound => {
                pending.push(key.clone());
                assert(views(pending@) == views(pen_before).push(prefix.last()));
            },
        }
        proof {
            reveal(Seq::filter);
            let pi = |a: Seq<char>| is_invalid(row_views(rows@), a);
            let pu = |a: Seq<char>| is_unknown(row_views(rows@), a);
            assert(prefix.filter(pi) == if pi(prefix.last()) {
                ks.subrange(0, i as int).filter(pi).push(prefix.last())
            } else {
                ks.subrange(0, i as int).filter(pi)
            });
            assert(prefix.filter(pu) == if pu(prefix.last()) {
                ks.subrange(0, i as int).filter(pu).push(prefix.last())
            } else {
                ks.subrange(0, i as int).filter(pu)
            });
            let pr = |a: Seq<char>| is_resolved(row_views(rows@), a);
            let f = |a: Seq<char>| resolved_entry(row_views(rows@), a);
            let head = ks.subrange(0, i as int).filter(pr);
            if pr(prefix.last()) {
                assert(prefix.filter(pr) == head.push(prefix.last()));
                assert(head.push(prefix.last()).map_values(f) =~= head.map_values(f).push(f(prefix.last())));
            } else {
                assert(prefix.filter(pr) == head);
            }
        }
        i = i + 1;
    }
    assert(ks.subrange(0, keys.len() as int) == ks);
    Reconciliation { resolved, invalid, pending }
}

} // verus!
