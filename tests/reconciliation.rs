use geocode_queue::engine::{geocode_insert, geocode_post, status_report};
use geocode_queue::report::ServiceStatus;
use geocode_queue::normalize::{contains_address, normalize, normalize_batch};
use geocode_queue::queue::{PendingQueue, QueueError, STATUS_AWAITING, STATUS_OVER_QUERY_LIMIT};
use geocode_queue::reconcile::{reconcile, resolve, CacheRow, Resolution};
use geocode_queue::table::GeocodeTable;

fn strings(v: &[&str]) -> Vec<String> {
    v.iter().map(|s| s.to_string()).collect()
}

fn row(address: &str, lat: f64, lon: f64, valid: bool) -> CacheRow {
    CacheRow {
        address: address.to_string(),
        latitude: Some(lat.to_bits()),
        longitude: Some(lon.to_bits()),
        valid,
    }
}

fn queued(q: &PendingQueue) -> Vec<(i64, String, i16)> {
    q.rows().iter().map(|r| (r.id, r.address.clone(), r.status)).collect()
}

#[test]
fn normalize_folds_case_only() {
    assert_eq!(normalize(&"New York".to_string()), "new york");
    assert_eq!(normalize(&"  Main St ".to_string()), "  main st ");
    assert_eq!(normalize(&"".to_string()), "");
}

#[test]
fn normalize_batch_collapses_case_variants() {
    let keys = normalize_batch(&strings(&["New York", "new york", "NEW YORK"]));
    assert_eq!(keys, strings(&["new york"]));
    let keys = normalize_batch(&strings(&["B", "a", "b", "A", "c"]));
    assert_eq!(keys, strings(&["b", "a", "c"]));
    assert!(normalize_batch(&Vec::new()).is_empty());
}

#[test]
fn contains_address_compares_text() {
    let v = strings(&["a", "b"]);
    assert!(contains_address(&v, &"b".to_string()));
    assert!(!contains_address(&v, &"B".to_string()));
}

#[test]
fn case_variants_enqueue_one_row() {
    let table = GeocodeTable::new();
    let mut queue = PendingQueue::new();
    let r = geocode_post(&table, &mut queue, &strings(&["New York", "new york", "NEW YORK"]));
    assert_eq!(queued(&queue), vec![(1, "new york".to_string(), STATUS_AWAITING)]);
    assert_eq!(r.queue_current, 1);
    assert_eq!(r.queue_target, 1);
    assert!(r.data.is_empty());
}

#[test]
fn repeated_batch_enqueues_once() {
    let table = GeocodeTable::new();
    let mut queue = PendingQueue::new();
    let batch = strings(&["a st", "B Ave", "a st"]);
    geocode_post(&table, &mut queue, &batch);
    let once = queued(&queue);
    for _ in 0..4 {
        geocode_post(&table, &mut queue, &batch);
    }
    assert_eq!(queued(&queue), once);
    assert_eq!(once.len(), 2);
}

#[test]
fn resolve_first_valid_record_wins() {
    let rows = vec![row("x", 1.0, 2.0, false), row("x", 3.0, 4.0, true), row("x", 5.0, 6.0, true)];
    assert_eq!(resolve(&rows, &"x".to_string()), Resolution::Resolved(3.0f64.to_bits(), 4.0f64.to_bits()));
    let rows = vec![row("x", 1.0, 2.0, false)];
    assert_eq!(resolve(&rows, &"x".to_string()), Resolution::Invalid);
    assert_eq!(resolve(&rows, &"y".to_string()), Resolution::NotFound);
}

#[test]
fn resolve_reads_missing_coordinate_as_zero() {
    let rows = vec![CacheRow { address: "x".to_string(), latitude: None, longitude: Some(7.5f64.to_bits()), valid: true }];
    assert_eq!(resolve(&rows, &"x".to_string()), Resolution::Resolved(0.0f64.to_bits(), 7.5f64.to_bits()));
}

#[test]
fn reconcile_partitions_every_key() {
    let keys = strings(&["good", "bad", "new", "mixed"]);
    let rows = vec![
        row("bad", 0.0, 0.0, false),
        row("good", 10.0, 20.0, true),
        row("mixed", 0.0, 0.0, false),
        row("mixed", 1.5, 2.5, true),
        row("other", 9.0, 9.0, true),
    ];
    let parts = reconcile(&keys, &rows);
    let resolved: Vec<(String, f64, f64)> = parts
        .resolved
        .iter()
        .map(|g| (g.address.clone(), f64::from_bits(g.latitude), f64::from_bits(g.longitude)))
        .collect();
    assert_eq!(resolved, vec![("good".to_string(), 10.0, 20.0), ("mixed".to_string(), 1.5, 2.5)]);
    assert_eq!(parts.invalid, strings(&["bad"]));
    assert_eq!(parts.pending, strings(&["new"]));
}

#[test]
fn batch_addresses_are_answered_or_queued() {
    let mut table = GeocodeTable::new();
    geocode_insert(&mut table, &"Known Place".to_string(), Some("10.0.0.1"), 1.0f64.to_bits(), 2.0f64.to_bits());
    let mut queue = PendingQueue::new();
    let r = geocode_post(&table, &mut queue, &strings(&["known place", "Fresh Place"]));
    assert_eq!(r.data.len(), 1);
    assert_eq!(r.data[0].address, "known place");
    assert_eq!(queued(&queue), vec![(1, "fresh place".to_string(), STATUS_AWAITING)]);
}

#[test]
fn upsert_keeps_latest_coordinates() {
    let mut table = GeocodeTable::new();
    geocode_insert(&mut table, &"Elm St".to_string(), Some("1.2.3.4"), 1.0f64.to_bits(), 2.0f64.to_bits());
    geocode_insert(&mut table, &"ELM ST".to_string(), Some("1.2.3.4"), 3.0f64.to_bits(), 4.0f64.to_bits());
    let recs = table.records();
    assert_eq!(recs.len(), 1);
    assert_eq!(recs[0].address, "elm st");
    assert_eq!(recs[0].source, "remote_addr|1.2.3.4");
    assert_eq!(f64::from_bits(recs[0].latitude), 3.0);
    assert_eq!(f64::from_bits(recs[0].longitude), 4.0);
    assert!(recs[0].valid);
}

#[test]
fn upsert_other_source_adds_record() {
    let mut table = GeocodeTable::new();
    geocode_insert(&mut table, &"Elm St".to_string(), Some("1.2.3.4"), 1.0f64.to_bits(), 2.0f64.to_bits());
    geocode_insert(&mut table, &"Elm St".to_string(), None, 5.0f64.to_bits(), 6.0f64.to_bits());
    let recs = table.records();
    assert_eq!(recs.len(), 2);
    assert_eq!(recs[1].source, "remote_addr|unknown");
}

#[test]
fn backpressure_sentinel_round_trip() {
    let mut queue = PendingQueue::new();
    assert_eq!(queue.insert_if_absent("somewhere".to_string(), STATUS_AWAITING), Ok(true));
    assert!(!queue.over_query_limit());
    assert_eq!(status_report(&queue).status, ServiceStatus::Available);
    assert_eq!(queue.insert_if_absent("OVER_QUERY_LIMIT".to_string(), STATUS_OVER_QUERY_LIMIT), Ok(true));
    assert!(queue.over_query_limit());
    let report = status_report(&queue);
    assert_eq!(report.status.label(), "OVER_QUERY_LIMIT");
    assert_eq!(report.queue_current, 1);
    assert!(queue.remove(&"OVER_QUERY_LIMIT".to_string()));
    assert!(!queue.over_query_limit());
    assert_eq!(status_report(&queue).status.label(), "OK");
    assert!(!queue.remove(&"OVER_QUERY_LIMIT".to_string()));
}

#[test]
fn sentinel_address_with_ordinary_status_is_no_backpressure() {
    let mut queue = PendingQueue::new();
    assert_eq!(queue.insert_if_absent("OVER_QUERY_LIMIT".to_string(), STATUS_AWAITING), Ok(true));
    assert!(!queue.over_query_limit());
}

#[test]
fn queue_depth_after_new_address() {
    let mut queue = PendingQueue::new();
    assert_eq!(status_report(&queue).queue_current, -1);
    assert_eq!(queue.queue_current(), -1);
    assert_eq!(queue.queue_target(), 0);
    assert_eq!(queue.insert_if_absent("a".to_string(), STATUS_AWAITING), Ok(true));
    assert_eq!(queue.insert_if_absent("b".to_string(), STATUS_AWAITING), Ok(true));
    let before = queue.queue_target();
    assert_eq!(queue.insert_if_absent("c".to_string(), STATUS_AWAITING), Ok(true));
    assert!(queue.queue_target() >= before);
    assert_eq!(queue.queue_target(), 3);
    assert_eq!(queue.rows()[2].id, 3);
    assert_eq!(queue.queue_current(), 1);
    assert!(queue.remove(&"a".to_string()));
    assert_eq!(queue.queue_current(), 2);
    assert_eq!(queue.insert_if_absent("b".to_string(), STATUS_AWAITING), Ok(false));
    assert_eq!(queue.queue_target(), 3);
}

#[test]
fn ids_exhausted_leaves_queue_unchanged() {
    let mut queue = PendingQueue::starting_after(i64::MAX);
    assert_eq!(queue.insert_if_absent("a".to_string(), STATUS_AWAITING), Err(QueueError::IdsExhausted));
    assert!(queue.rows().is_empty());
    let mut queue = PendingQueue::starting_after(i64::MAX - 1);
    assert_eq!(queue.enqueue_batch(&strings(&["a", "b"])), Err(QueueError::IdsExhausted));
    assert!(queue.rows().is_empty());
    assert_eq!(queue.enqueue_batch(&strings(&["a"])), Ok(()));
    assert_eq!(queued(&queue), vec![(i64::MAX, "a".to_string(), STATUS_AWAITING)]);
}

#[test]
fn batch_answered_when_queue_is_full() {
    let table = GeocodeTable::new();
    let mut queue = PendingQueue::starting_after(i64::MAX);
    let r = geocode_post(&table, &mut queue, &strings(&["x"]));
    assert!(queue.rows().is_empty());
    assert_eq!(r.queue_current, -1);
    assert_eq!(r.queue_target, 0);
}

#[test]
fn amphitheatre_scenario() {
    let mut table = GeocodeTable::new();
    let mut queue = PendingQueue::new();
    let batch = strings(&["1600 Amphitheatre Parkway"]);
    let r = geocode_post(&table, &mut queue, &batch);
    assert_eq!((r.queue_current, r.queue_target), (1, 1));
    assert!(r.data.is_empty());
    assert_eq!(queued(&queue), vec![(1, "1600 amphitheatre parkway".to_string(), STATUS_AWAITING)]);

    geocode_insert(&mut table, &"1600 Amphitheatre Parkway".to_string(), Some("worker"), 37.422f64.to_bits(), (-122.084f64).to_bits());
    assert_eq!(table.records().len(), 1);
    assert!(table.records()[0].valid);

    let r = geocode_post(&table, &mut queue, &batch);
    assert_eq!(r.data.len(), 1);
    assert_eq!(r.data[0].address, "1600 amphitheatre parkway");
    assert_eq!(f64::from_bits(r.data[0].latitude), 37.422);
    assert_eq!(f64::from_bits(r.data[0].longitude), -122.084);
    assert_eq!(queue.rows().len(), 1);
}
