use jev_quantum::metrics::{mime_for, HttpMetrics};
use jev_quantum::pool::{RngStatsSnapshot, WorkerRng};
use jev_quantum::rng::Xoshiro256PlusPlus;

#[test]
fn metrics_count_and_render() {
    let mut m = HttpMetrics::new();
    m.record(120, false);
    m.record(80, true);
    assert_eq!(m.requests_total, 2);
    assert_eq!(m.errors_total, 1);
    assert_eq!(m.latency_ns_sum, 200);
    assert_eq!(m.latency_ns_max, 120);
    let text = m.render("avx2", "direct", 5, 0, 1234, 3);
    assert!(text.contains("\njev_quantum_requests_total 2\n"));
    assert!(text.contains("\njev_quantum_errors_total 1\n"));
    assert!(text.contains("\njev_quantum_latency_ns_max 120\n"));
    assert!(text.contains("\njev_quantum_pool_refill_ns_sum 1234\n"));
    assert!(text.ends_with("jev_quantum_simd_backend{backend=\"avx2\",rng_mode=\"direct\"} 1\n"));
    assert!(text.starts_with("# HELP jev_quantum_requests_total Completed System One requests.\n"));
}

#[test]
fn counters_wrap_like_atomics() {
    let mut m = HttpMetrics { requests_total: u64::MAX, errors_total: 0, latency_ns_sum: u64::MAX, latency_ns_max: 0 };
    m.record(2, false);
    assert_eq!(m.requests_total, 0);
    assert_eq!(m.latency_ns_sum, 1);
}

#[test]
fn content_types_follow_the_last_extension() {
    assert_eq!(mime_for("index.html"), "text/html; charset=utf-8");
    assert_eq!(mime_for("app.min.js"), "application/javascript; charset=utf-8");
    assert_eq!(mime_for("style.css"), "text/css; charset=utf-8");
    assert_eq!(mime_for("data.json"), "application/json");
    assert_eq!(mime_for("logo.svg"), "image/svg+xml");
    assert_eq!(mime_for("README"), "application/octet-stream");
    assert_eq!(mime_for("html"), "text/html; charset=utf-8");
}

#[test]
fn buffered_worker_serves_its_chunk_then_falls_back() {
    let mut w = WorkerRng::buffered(3, vec![10, 20, 30], 1);
    assert!(w.is_buffered());
    assert_eq!(w.take_from_chunk(), Some((10, false)));
    assert_eq!(w.take_from_chunk(), Some((20, true)));
    assert_eq!(w.take_from_chunk(), Some((30, false)));
    assert_eq!(w.take_from_chunk(), None);
    let used = w.swap_chunk(vec![7]);
    assert_eq!(used, vec![10, 20, 30]);
    assert_eq!(w.take_from_chunk(), Some((7, false)));
    let mut reference = Xoshiro256PlusPlus::from_seed(3);
    assert_eq!(w.draw_direct(), reference.next_u64());
    let d = WorkerRng::direct(3);
    assert!(!d.is_buffered());
    let snap = RngStatsSnapshot { hits: 1, fallbacks: 2, refills: 3, refill_ns: 4 };
    assert_eq!(snap.refills, 3);
}
