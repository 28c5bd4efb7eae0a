use jev_quantum::record::{RequestRecord, ERR_HTTP, ERR_OK, ERR_TIMEOUT};
use jev_quantum::stats::{latency_samples, summarize};

fn record(i: u64, error: u8) -> RequestRecord {
    RequestRecord {
        offset_ns: i,
        latency_ns: i * 10,
        throttle_ns: 0,
        status: 200,
        action: 0,
        error,
        bytes: 8,
    }
}

#[test]
fn percentiles_and_error_counts() {
    let records: Vec<RequestRecord> = (1..=100)
        .map(|i| record(i, if i == 100 { ERR_HTTP } else { ERR_OK }))
        .collect();
    let stats = summarize(&records);
    assert_eq!(stats.requests, 100);
    assert_eq!(stats.ok, 99);
    assert_eq!(stats.errors[ERR_HTTP as usize], 1);
    assert_eq!(stats.p50_ns, 500);
}

#[test]
fn summary_of_unsorted_records() {
    let records = vec![record(5, ERR_OK), record(1, ERR_OK), record(9, ERR_TIMEOUT), record(3, ERR_OK), record(2, 42)];
    let stats = summarize(&records);
    assert_eq!(stats.ok, 3);
    assert_eq!(stats.p50_ns, 30);
    assert_eq!(stats.p99_ns, 30);
    assert_eq!(stats.max_ns, 50);
    assert_eq!(stats.mean_ns, 30);
    assert_eq!(stats.errors, [0, 1, 0, 0, 0, 0, 0, 1]);
}

#[test]
fn empty_summary_is_zero() {
    let stats = summarize(&[]);
    assert_eq!(stats.requests, 0);
    assert_eq!(stats.ok, 0);
    assert_eq!(stats.p50_ns, 0);
    assert_eq!(stats.max_ns, 0);
    assert_eq!(stats.mean_ns, 0);
}

#[test]
fn samples_keep_record_order_and_limit() {
    let records = vec![record(5, ERR_OK), record(1, ERR_HTTP), record(3, ERR_OK), record(4, ERR_OK)];
    assert_eq!(latency_samples(&records, 2), vec![50, 30]);
    assert_eq!(latency_samples(&records, 10), vec![50, 30, 40]);
    assert_eq!(latency_samples(&records, 0), Vec::<u64>::new());
}

#[test]
fn every_request_is_counted_once() {
    let codes = [0u8, 1, 2, 3, 4, 5, 6, 7, 200, 0, 3];
    let records: Vec<RequestRecord> = codes.iter().enumerate().map(|(i, &c)| record(i as u64 + 1, c)).collect();
    let stats = summarize(&records);
    let failed: u64 = stats.errors.iter().sum();
    assert_eq!(stats.ok as u64 + failed, records.len() as u64);
    assert_eq!(stats.errors[7], 2);
    assert_eq!(stats.errors[3], 2);
    assert!(stats.p50_ns <= stats.p95_ns && stats.p95_ns <= stats.p99_ns && stats.p99_ns <= stats.max_ns);
}
