//! A whole batch and a whole worker write, run against the in-memory store.
use vstd::prelude::*;
use crate::normalize::{lemma_distinct_of, lower_of, normalize, normalize_batch, normalized_batch};
use crate::queue::{lemma_enqueue_all_holds, lemma_enqueue_all_only, lemma_enqueue_all_present, PendingQueue, QueueModel};
use crate::reconcile::{
    is_invalid, is_resolved, lemma_partition_complete, reconcile, resolved_addresses, resolved_of, unknown_of,
    Geocode, RowView, geocode_view,
};
use crate::report::{queue_status, GeocodeResponse, QueueStatus, ServiceStatus};
use crate::ingest::{source_of, source_tag};
use crate::table::{record_row, upsert, GeocodeTable, RecordEntry};

verus! {

/// The rows that the cache lookup of a table reads.
pub open spec fn table_rows(t: Seq<RecordEntry>) -> Seq<RowView> {
    t.map_values(|e: RecordEntry| record_row(e))
}

/// The queue after a batch: the unknown keys queued, unless the ids they could need do not
/// fit, in which case the queue stays as it was.
pub open spec fn queue_after_batch(q: QueueModel, t: Seq<RecordEntry>, batch: Seq<String>) -> QueueModel {
    let unknown = unknown_of(normalized_batch(batch), table_rows(t));
    if q.last_id + unknown.len() <= i64::MAX {
        q.enqueue_all(unknown)
    } else {
        q
    }
}

/// Runs a batch: folds and collapses its addresses, looks them up in `table`, queues those
/// without any record, and answers with the resolved ones, in batch order, and the queue
/// numbers. A queue write that cannot be made is skipped, and the answer still given.
pub fn geocode_post(table: &GeocodeTable, queue: &mut PendingQueue, batch: &Vec<String>) -> (r: GeocodeResponse)
    requires
        old(queue).wf(),
    ensures
        final(queue).wf(),
        final(queue)@ == queue_after_batch(old(queue)@, table@, batch@),
        r.data@.map_values(|g: Geocode| geocode_view(g)) == resolved_of(normalized_batch(batch@), table_rows(table@)),
        r.queue_current == final(queue)@.queue_current(),
        r.queue_target == final(queue)@.queue_target(),
{
    let keys = normalize_batch(batch);
    let rows = table.cache_rows();
    let parts = reconcile(&keys, &rows);
    let _ = queue.enqueue_batch(&parts.pending);
    let queue_target = queue.queue_target();
    let queue_current = queue.queue_current();
    GeocodeResponse { queue_current, queue_target, data: parts.resolved }
}

/// The status report of the queue: backpressure where the sentinel row is queued, and the
/// oldest id queued, `-1` on an empty queue.
pub fn status_report(queue: &PendingQueue) -> (r: QueueStatus)
    requires
        queue.wf(),
    ensures
        r.queue_current == queue@.queue_current(),
        r.status == if queue@.over_query_limit() {
            ServiceStatus::OverQueryLimit
        } else {
            ServiceStatus::Available
        },
{
    let current = queue.queue_current();
    let oldest = if current == -1 {
        None
    } else {
        Some(current)
    };
    queue_status(oldest, queue.over_query_limit())
}

/// Writes a worker's result: the folded address, tagged with the worker's origin, gets the
/// coordinates.
pub fn geocode_insert(table: &mut GeocodeTable, address: &String, origin: Option<&str>, latitude: u64, longitude: u64)
    requires
        old(table).wf(),
    ensures
        final(table).wf(),
        final(table)@ == upsert(
            old(table)@,
            lower_of(address@),
            source_of(match origin {
                Some(o) => Some(o@),
                None => None,
            }),
            latitude,
            longitude,
        ),
{
    let key = normalize(address);
    let source = source_tag(origin);
    table.upsert(key, source, latitude, longitude);
}

/// The queue after `n` runs of the same batch against the same table.
pub open spec fn queue_after_batches(q: QueueModel, t: Seq<RecordEntry>, batch: Seq<String>, n: nat) -> QueueModel
    decreases n,
{
    if n == 0 {
        q
    } else {
        queue_after_batch(queue_after_batches(q, t, batch, (n - 1) as nat), t, batch)
    }
}

/// Running the same batch `n >= 1` times leaves the queue as one run does: no address is queued
/// twice, and no row is added after the first run.
pub proof fn lemma_batch_idempotent(q: QueueModel, t: Seq<RecordEntry>, batch: Seq<String>, n: nat)
    requires
        n >= 1,
    ensures
        queue_after_batches(q, t, batch, n) == queue_after_batch(q, t, batch),
    decreases n,
{
    if n > 1 {
        lemma_batch_idempotent(q, t, batch, (n - 1) as nat);
        let once = queue_after_batch(q, t, batch);
        let unknown = unknown_of(normalized_batch(batch), table_rows(t));
        if q.last_id + unknown.len() <= i64::MAX {
            assert forall|x: Seq<char>| unknown.contains(x) implies once.has_address(x) by {
                lemma_enqueue_all_holds(q, unknown, x);
            }
            lemma_enqueue_all_present(once, unknown);
        }
    } else {
        assert(queue_after_batches(q, t, batch, 0) == q);
    }
}

/// After a batch, each of its addresses is either among the resolved entries of the answer or
/// queued, never both. This leaves out the addresses that have only records of failure (they
/// are neither) and those that had a record and were queued already (they are both).
pub proof fn lemma_batch_partition(q: QueueModel, t: Seq<RecordEntry>, batch: Seq<String>, i: int)
    requires
        0 <= i < batch.len(),
        q.last_id + unknown_of(normalized_batch(batch), table_rows(t)).len() <= i64::MAX,
        !is_invalid(table_rows(t), lower_of(batch[i]@)),
        !(is_resolved(table_rows(t), lower_of(batch[i]@)) && q.has_address(lower_of(batch[i]@))),
    ensures
        ({
            let a = lower_of(batch[i]@);
            let answered = resolved_addresses(normalized_batch(batch), table_rows(t)).contains(a);
            let queued = queue_after_batch(q, t, batch).has_address(a);
            (answered || queued) && !(answered && queued)
        }),
{
    let a = lower_of(batch[i]@);
    let folded = batch.map_values(|x: String| lower_of(x@));
    let keys = normalized_batch(batch);
    let rows = table_rows(t);
    let unknown = unknown_of(keys, rows);
    assert(folded[i] == a);
    lemma_distinct_of(folded);
    assert(keys.contains(a));
    lemma_partition_complete(keys, rows, a);
    lemma_enqueue_all_holds(q, unknown, a);
    lemma_enqueue_all_only(q, unknown, a);
}

} // verus!
