//! Request counters of the server and their text exposition.
use vstd::prelude::*;
use crate::text::{decimal, owned, push_decimal};

verus! {

/// Counters over the handled requests. They wrap around like the atomic
/// counters that hold them while the server runs.
#[derive(Debug, Clone, Copy, PartialEq, Eq)]
pub struct HttpMetrics {
    pub requests_total: u64,
    pub errors_total: u64,
    pub latency_ns_sum: u64,
    pub latency_ns_max: u64,
}

impl HttpMetrics {
    /// No request handled yet.
    pub fn new() -> (r: Self)
        ensures
            r.requests_total == 0,
            r.errors_total == 0,
            r.latency_ns_sum == 0,
            r.latency_ns_max == 0,
    {
        HttpMetrics { requests_total: 0, errors_total: 0, latency_ns_sum: 0, latency_ns_max: 0 }
    }

    /// Count one handled request that took `latency_ns`, failed or not.
    pub fn record(&mut self, latency_ns: u64, error: bool)
        ensures
            final(self).requests_total == old(self).requests_total.wrapping_add(1),
            final(self).latency_ns_sum == old(self).latency_ns_sum.wrapping_add(latency_ns),
            final(self).errors_total == (if error { old(self).errors_total.wrapping_add(1) } else { old(self).errors_total }),
            final(self).latency_ns_max == (if latency_ns > old(self).latency_ns_max { latency_ns } else { old(self).latency_ns_max }),
    {
        self.requests_total = self.requests_total.wrapping_add(1);
        self.latency_ns_sum = self.latency_ns_sum.wrapping_add(latency_ns);
        if error {
            self.errors_total = self.errors_total.wrapping_add(1);
        }
        if latency_ns > self.latency_ns_max {
            self.latency_ns_max = latency_ns;
        }
    }

    /// The exposition text of the counters, the pool's counters, and the
    /// backend and mode as labels.
    pub fn render(&self, backend: &str, rng_mode: &str, pool_hits: u64, pool_fallbacks: u64, refill_ns: u64, refills: u64) -> (r: String)
        ensures
            r@ == metrics_text(*self, backend@, rng_mode@, pool_hits, pool_fallbacks, refill_ns, refills),
    {
        let mut r = owned("# HELP jev_quantum_requests_total Completed System One requests.\n# TYPE jev_quantum_requests_total counter\njev_quantum_requests_total ");
        push_decimal(&mut r, self.requests_total);
        r.append("\n# HELP jev_quantum_errors_total Failed System One requests.\n# TYPE jev_quantum_errors_total counter\njev_quantum_errors_total ");
        push_decimal(&mut r, self.errors_total);
        r.append("\n# HELP jev_quantum_latency_ns_sum Sum of handler latency in nanoseconds.\n# TYPE jev_quantum_latency_ns_sum counter\njev_quantum_latency_ns_sum ");
        push_decimal(&mut r, self.latency_ns_sum);
        r.append("\n# HELP jev_quantum_latency_ns_max Max handler latency in nanoseconds.\n# TYPE jev_quantum_latency_ns_max gauge\njev_quantum_latency_ns_max ");
        push_decimal(&mut r, self.latency_ns_max);
        r.append("\n# HELP jev_quantum_pool_hits_total Buffered-pool random draws.\n# TYPE jev_quantum_pool_hits_total counter\njev_quantum_pool_hits_total ");
        push_decimal(&mut r, pool_hits);
        r.append("\n# HELP jev_quantum_pool_fallbacks_total Synchronous PRNG fallbacks.\n# TYPE jev_quantum_pool_fallbacks_total counter\njev_quantum_pool_fallbacks_total ");
        push_decimal(&mut r, pool_fallbacks);
        r.append("\n# HELP jev_quantum_pool_refills_total Background refill operations.\n# TYPE jev_quantum_pool_refills_total counter\njev_quantum_pool_refills_total ");
        push_decimal(&mut r, refills);
        r.append("\n# HELP jev_quantum_pool_refill_ns_sum Time spent filling random chunks.\n# TYPE jev_quantum_pool_refill_ns_sum counter\njev_quantum_pool_refill_ns_sum ");
        push_decimal(&mut r, refill_ns);
        r.append("\n# HELP jev_quantum_simd_backend Current CPU backend (info).\n# TYPE jev_quantum_simd_backend gauge\njev_quantum_simd_backend{backend=\"");
        r.append(backend);
        r.append("\",rng_mode=\"");
        r.append(rng_mode);
        r.append("\"} 1\n");
        r
    }
}

/// The exposition text: for each counter a help line, a type line and the
/// sample, and last the backend and mode as labels of a gauge fixed at 1.
pub open spec fn metrics_text(
    m: HttpMetrics,
    backend: Seq<char>,
    rng_mode: Seq<char>,
    pool_hits: u64,
    pool_fallbacks: u64,
    refill_ns: u64,
    refills: u64,
) -> Seq<char> {
    "# HELP jev_quantum_requests_total Completed System One requests.\n# TYPE jev_quantum_requests_total counter\njev_quantum_requests_total "@
        + decimal(m.requests_total as nat)
        + "\n# HELP jev_quantum_errors_total Failed System One requests.\n# TYPE jev_quantum_errors_total counter\njev_quantum_errors_total "@
        + decimal(m.errors_total as nat)
        + "\n# HELP jev_quantum_latency_ns_sum Sum of handler latency in nanoseconds.\n# TYPE jev_quantum_latency_ns_sum counter\njev_quantum_latency_ns_sum "@
        + decimal(m.latency_ns_sum as nat)
        + "\n# HELP jev_quantum_latency_ns_max Max handler latency in nanoseconds.\n# TYPE jev_quantum_latency_ns_max gauge\njev_quantum_latency_ns_max "@
        + decimal(m.latency_ns_max as nat)
        + "\n# HELP jev_quantum_pool_hits_total Buffered-pool random draws.\n# TYPE jev_quantum_pool_hits_total counter\njev_quantum_pool_hits_total "@
        + decimal(pool_hits as nat)
        + "\n# HELP jev_quantum_pool_fallbacks_total Synchronous PRNG fallbacks.\n# TYPE jev_quantum_pool_fallbacks_total counter\njev_quantum_pool_fallbacks_total "@
        + decimal(pool_fallbacks as nat)
        + "\n# HELP jev_quantum_pool_refills_total Background refill operations.\n# TYPE jev_quantum_pool_refills_total counter\njev_quantum_pool_refills_total "@
        + decimal(refills as nat)
        + "\n# HELP jev_quantum_pool_refill_ns_sum Time spent filling random chunks.\n# TYPE jev_quantum_pool_refill_ns_sum counter\njev_quantum_pool_refill_ns_sum "@
        + decimal(refill_ns as nat)
        + "\n# HELP jev_quantum_simd_backend Current CPU backend (info).\n# TYPE jev_quantum_simd_backend gauge\njev_quantum_simd_backend{backend=\""@
        + backend + "\",rng_mode=\""@ + rng_mode + "\"} 1\n"@
}

/// The extension of a path: what follows its last `.`, or the whole path.
pub open spec fn extension(path: Seq<char>) -> Seq<char>
    decreases path.len(),
{
    if path.len() == 0 {
        path
    } else if path.last() == '.' {
        Seq::empty()
    } else {
        extension(path.drop_last()).push(path.last())
    }
}

/// The content type of a file by its extension.
pub open spec fn content_type(path: Seq<char>) -> Seq<char> {
    let e = extension(path);
    if e == "html"@ {
        "text/html; charset=utf-8"@
    } else if e == "css"@ {
        "text/css; charset=utf-8"@
    } else if e == "js"@ {
        "application/javascript; charset=utf-8"@
    } else if e == "json"@ {
        "application/json"@
    } else if e == "svg"@ {
        "image/svg+xml"@
    } else {
        "application/octet-stream"@
    }
}

/// The content type of a demo asset.
pub fn mime_for(path: &str) -> (r: &'static str)
    ensures
        r@ == content_type(path@),
{
    let n = path.unicode_len();
    let mut start: usize = n;
    proof {
        assert(path@.subrange(0, n as int) =~= path@);
        assert(extension(path@) + path@.subrange(n as int, n as int) =~= extension(path@));
    }
    while start > 0 && path.get_char(start - 1) != '.'
        invariant
            n == path@.len(),
            start <= n,
            extension(path@) == extension(path@.subrange(0, start as int)) + path@.subrange(start as int, n as int),
        decreases start,
    {
        proof {
            let pre = path@.subrange(0, start as int);
            assert(pre.drop_last() =~= path@.subrange(0, start as int - 1));
            assert(path@.subrange(start as int - 1, n as int) =~= seq![pre.last()] + path@.subrange(start as int, n as int));
            assert(extension(pre.drop_last()).push(pre.last()) + path@.subrange(start as int, n as int)
                =~= extension(pre.drop_last()) + path@.subrange(start as int - 1, n as int));
        }
        start = start - 1;
    }
    proof {
        let pre = path@.subrange(0, start as int);
        assert(extension(pre) =~= Seq::<char>::empty());
        assert(Seq::<char>::empty() + path@.subrange(start as int, n as int) =~= path@.subrange(start as int, n as int));
    }
    let ext = path.substring_char(start, n);
    if crate::text::same_text(ext, "html") {
        "text/html; charset=utf-8"
    } else if crate::text::same_text(ext, "css") {
        "text/css; charset=utf-8"
    } else if crate::text::same_text(ext, "js") {
        "application/javascript; charset=utf-8"
    } else if crate::text::same_text(ext, "json") {
        "application/json"
    } else if crate::text::same_text(ext, "svg") {
        "image/svg+xml"
    } else {
        "application/octet-stream"
    }
}

} // verus!
