//! The numbers and the status that the service reports, and how a failed store read is treated.
use vstd::prelude::*;
use crate::reconcile::Geocode;

verus! {

/// What `queue_current` reads on an empty queue.
pub const QUEUE_CURRENT_EMPTY: i64 = -1;

/// What `queue_target` reads on an empty queue.
pub const QUEUE_TARGET_EMPTY: i64 = 0;

/// Whether the outside provider is taking requests.
#[derive(PartialEq, Eq, Structural, Clone, Copy, Debug)]
pub enum ServiceStatus {
    /// Requests are taken; written `OK`.
    Available,
    /// The provider refuses requests for now; written `OVER_QUERY_LIMIT`.
    OverQueryLimit,
}

pub open spec fn status_label(s: ServiceStatus) -> Seq<char> {
    match s {
        ServiceStatus::Available => seq!['O', 'K'],
        ServiceStatus::OverQueryLimit => seq![
            'O', 'V', 'E', 'R', '_', 'Q', 'U', 'E', 'R', 'Y', '_', 'L', 'I', 'M', 'I', 'T'
        ],
    }
}

impl ServiceStatus {
    /// The status as the service writes it.
    pub fn label(&self) -> (r: String)
        ensures
            r@ == status_label(*self),
    {
        match self {
            ServiceStatus::Available => {
                let r = "OK".to_owned();
                proof {
                    reveal_strlit("OK");
                    assert(r@ =~= status_label(*self));
                }
                r
            },
            ServiceStatus::OverQueryLimit => {
                let r = "OVER_QUERY_LIMIT".to_owned();
                proof {
                    reveal_strlit("OVER_QUERY_LIMIT");
                    assert(r@ =~= status_label(*self));
                }
                r
            },
        }
    }
}

/// The answer of the status query.
pub struct QueueStatus {
    pub status: ServiceStatus,
    pub queue_current: i64,
}

/// The answer to a batch: the queue numbers and the resolved addresses.
pub struct GeocodeResponse {
    pub queue_current: i64,
    pub queue_target: i64,
    pub data: Vec<Geocode>,
}

/// The status report from the oldest queued id (`None` on an empty queue) and whether the
/// backpressure sentinel is queued.
pub fn queue_status(oldest: Option<i64>, over_query_limit: bool) -> (r: QueueStatus)
    ensures
        r.queue_current == match oldest {
            Some(id) => id,
            None => QUEUE_CURRENT_EMPTY,
        },
        r.status == if over_query_limit {
            ServiceStatus::OverQueryLimit
        } else {
            ServiceStatus::Available
        },
{
    let queue_current = match oldest {
        Some(id) => id,
        None => QUEUE_CURRENT_EMPTY,
    };
    let status = if over_query_limit {
        ServiceStatus::OverQueryLimit
    } else {
        ServiceStatus::Available
    };
    QueueStatus { status, queue_current }
}

/// What a single-value read of the store gave.
#[derive(PartialEq, Eq, Structural, Clone, Copy, Debug)]
pub enum ReadOutcome {
    /// The value read.
    Row(i64),
    /// The query found no row.
    NoRow,
    /// The store could not be read.
    Failed,
}

/// What to do when a read of the store fails.
#[derive(PartialEq, Eq, Structural, Clone, Copy, Debug)]
pub enum FailurePolicy {
    /// Report the value of an empty queue and go on.
    Degrade,
    /// Fail the request.
    Fail,
}

/// The store could not be read.
#[derive(PartialEq, Eq, Structural, Clone, Copy, Debug)]
pub struct StoreUnavailable;

/// A queue number from a read: the value read, `empty` where there was no row, and on a failed
/// read `empty` or an error as the policy says.
pub fn queue_metric(read: ReadOutcome, empty: i64, policy: FailurePolicy) -> (r: Result<i64, StoreUnavailable>)
    ensures
        read == ReadOutcome::NoRow ==> r == Ok::<i64, StoreUnavailable>(empty),
        forall|v: i64| read == ReadOutcome::Row(v) ==> r == Ok::<i64, StoreUnavailable>(v),
        read == ReadOutcome::Failed && policy == FailurePolicy::Degrade ==> r == Ok::<i64, StoreUnavailable>(empty),
        read == ReadOutcome::Failed && policy == FailurePolicy::Fail ==> r == Err::<i64, StoreUnavailable>(
            StoreUnavailable,
        ),
{
    match read {
        ReadOutcome::Row(v) => Ok(v),
        ReadOutcome::NoRow => Ok(empty),
        ReadOutcome::Failed => match policy {
            FailurePolicy::Degrade => Ok(empty),
            FailurePolicy::Fail => Err(StoreUnavailable),
        },
    }
}

} // verus!
