//! Records written by the outside workers, tagged by where they came from.
use vstd::prelude::*;
use vstd::string::StringExecFns;
use crate::normalize::{lower_of, normalize};
use crate::table::GeocodeRecord;

verus! {

pub open spec fn source_prefix() -> Seq<char> {
    seq!['r', 'e', 'm', 'o', 't', 'e', '_', 'a', 'd', 'd', 'r', '|']
}

pub open spec fn unknown_origin() -> Seq<char> {
    seq!['u', 'n', 'k', 'n', 'o', 'w', 'n']
}

/// The source tag of a worker from its network origin, where it is known.
pub open spec fn source_of(origin: Option<Seq<char>>) -> Seq<char> {
    source_prefix() + match origin {
        Some(o) => o,
        None => unknown_origin(),
    }
}

/// The source tag of a worker: a fixed prefix and its network origin, or `unknown`.
pub fn source_tag(origin: Option<&str>) -> (r: String)
    ensures
        r@ == source_of(match origin {
            Some(o) => Some(o@),
            None => None,
        }),
{
    let prefix = "remote_addr|".to_owned();
    proof {
        reveal_strlit("remote_addr|");
        assert(prefix@ =~= source_prefix());
    }
    match origin {
        Some(o) => prefix.concat(o),
        None => {
            proof {
                reveal_strlit("unknown");
                assert("unknown"@ =~= unknown_origin());
            }
            prefix.concat("unknown")
        },
    }
}

/// The record that a worker's result becomes: the folded address, the source tag, the
/// coordinates, valid.
pub fn ingestion_record(address: &String, origin: Option<&str>, latitude: u64, longitude: u64) -> (r: GeocodeRecord)
    ensures
        r.address@ == lower_of(address@),
        r.source@ == source_of(match origin {
            Some(o) => Some(o@),
            None => None,
        }),
        r.latitude == latitude,
        r.longitude == longitude,
        r.valid,
{
    GeocodeRecord { address: normalize(address), source: source_tag(origin), latitude, longitude, valid: true }
}

} // verus!
