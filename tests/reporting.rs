use geocode_queue::ingest::{ingestion_record, source_tag};
use geocode_queue::report::{queue_metric, queue_status, FailurePolicy, ReadOutcome, ServiceStatus, StoreUnavailable};

#[test]
fn status_report_reads_sentinel_and_oldest_id() {
    let s = queue_status(Some(4), false);
    assert_eq!(s.status, ServiceStatus::Available);
    assert_eq!(s.status.label(), "OK");
    assert_eq!(s.queue_current, 4);
    let s = queue_status(None, true);
    assert_eq!(s.status, ServiceStatus::OverQueryLimit);
    assert_eq!(s.status.label(), "OVER_QUERY_LIMIT");
    assert_eq!(s.queue_current, -1);
}

#[test]
fn queue_metric_policies() {
    assert_eq!(queue_metric(ReadOutcome::Row(9), -1, FailurePolicy::Fail), Ok(9));
    assert_eq!(queue_metric(ReadOutcome::NoRow, -1, FailurePolicy::Fail), Ok(-1));
    assert_eq!(queue_metric(ReadOutcome::NoRow, 0, FailurePolicy::Degrade), Ok(0));
    assert_eq!(queue_metric(ReadOutcome::Failed, 0, FailurePolicy::Degrade), Ok(0));
    assert_eq!(queue_metric(ReadOutcome::Failed, 0, FailurePolicy::Fail), Err(StoreUnavailable));
}

#[test]
fn source_tag_prefixes_origin() {
    assert_eq!(source_tag(Some("192.168.1.7:5000")), "remote_addr|192.168.1.7:5000");
    assert_eq!(source_tag(None), "remote_addr|unknown");
}

#[test]
fn ingestion_record_folds_address() {
    let r = ingestion_record(&"Main ST".to_string(), Some("w1"), 1.5f64.to_bits(), 2.5f64.to_bits());
    assert_eq!(r.address, "main st");
    assert_eq!(r.source, "remote_addr|w1");
    assert_eq!(f64::from_bits(r.latitude), 1.5);
    assert_eq!(f64::from_bits(r.longitude), 2.5);
    assert!(r.valid);
}
