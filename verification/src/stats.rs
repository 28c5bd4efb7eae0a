//! Latency statistics over the records of one target.
use vstd::prelude::*;
use vstd::relations::{sorted_by, total_ordering};
use vstd::seq_lib::lemma_sorted_unique;
use crate::record::{RequestRecord, ERR_OK};

verus! {

/// The latencies of the successful requests, in record order.
pub open spec fn ok_latencies(records: Seq<RequestRecord>) -> Seq<u64>
    decreases records.len(),
{
    if records.len() == 0 {
        Seq::empty()
    } else {
        let rest = ok_latencies(records.drop_last());
        if records.last().error == ERR_OK {
            rest.push(records.last().latency_ns)
        } else {
            rest
        }
    }
}

/// The order of latencies.
pub open spec fn latency_leq() -> spec_fn(u64, u64) -> bool {
    |a: u64, b: u64| a <= b
}

/// The successful latencies in ascending order.
pub open spec fn sorted_latencies(records: Seq<RequestRecord>) -> Seq<u64> {
    ok_latencies(records).sort_by(latency_leq())
}

/// The nearest-rank percentile `pct` of an ascending sequence; 0 when it is empty.
pub open spec fn percentile_of(sorted: Seq<u64>, pct: int) -> u64 {
    if sorted.len() == 0 {
        0
    } else {
        sorted[pct * (sorted.len() - 1) / 100]
    }
}

/// The number of records with error code `code`.
pub open spec fn error_count(records: Seq<RequestRecord>, code: int) -> nat
    decreases records.len(),
{
    if records.len() == 0 {
        0
    } else {
        error_count(records.drop_last(), code) + if records.last().error == code {
            1nat
        } else {
            0nat
        }
    }
}

/// The number of records whose error code has no name of its own (7 and above).
pub open spec fn unnamed_error_count(records: Seq<RequestRecord>) -> nat
    decreases records.len(),
{
    if records.len() == 0 {
        0
    } else {
        unnamed_error_count(records.drop_last()) + if records.last().error >= 7 {
            1nat
        } else {
            0nat
        }
    }
}

/// The sum of a sequence of latencies.
pub open spec fn total(s: Seq<u64>) -> nat
    decreases s.len(),
{
    if s.len() == 0 {
        0
    } else {
        total(s.drop_last()) + (s.last() as nat)
    }
}

/// What the statistics of one target say, apart from its throughput.
pub struct LatencySummary {
    pub requests: usize,
    pub ok: usize,
    pub p50_ns: u64,
    pub p95_ns: u64,
    pub p99_ns: u64,
    pub max_ns: u64,
    pub mean_ns: u64,
    /// Failed requests per error code; index 7 counts every code without a name.
    pub errors: [u64; 8],
}

/// `slice::sort_unstable` of std on `u64`: its documentation says that the
/// slice ends up sorted in ascending order and holds the same elements.
#[verifier::external_body]
fn sort_ascending(v: &mut Vec<u64>)
    ensures
        sorted_by(final(v)@, latency_leq()),
        final(v)@.to_multiset() == old(v)@.to_multiset(),
        final(v)@.len() == old(v)@.len(),
{
    v.sort_unstable();
}

proof fn lemma_latency_order_total()
    ensures
        total_ordering(latency_leq()),
{
    let leq = latency_leq();
    assert(vstd::relations::reflexive(leq));
    assert(vstd::relations::antisymmetric(leq));
    assert(vstd::relations::transitive(leq));
    assert(vstd::relations::strongly_connected(leq));
}

proof fn lemma_ok_latencies_len(records: Seq<RequestRecord>)
    ensures
        ok_latencies(records).len() <= records.len(),
    decreases records.len(),
{
    if records.len() > 0 {
        lemma_ok_latencies_len(records.drop_last());
    }
}

proof fn lemma_error_count_len(records: Seq<RequestRecord>, code: int)
    ensures
        error_count(records, code) <= records.len(),
        unnamed_error_count(records) <= records.len(),
    decreases records.len(),
{
    if records.len() > 0 {
        lemma_error_count_len(records.drop_last(), code);
    }
}

proof fn lemma_total_bound(s: Seq<u64>)
    ensures
        total(s) <= s.len() * 0xffff_ffff_ffff_ffffnat,
    decreases s.len(),
{
    if s.len() > 0 {
        lemma_total_bound(s.drop_last());
        assert(total(s) <= s.len() * 0xffff_ffff_ffff_ffffnat) by (nonlinear_arith)
            requires
                total(s) == total(s.drop_last()) + s.last(),
                total(s.drop_last()) <= s.drop_last().len() * 0xffff_ffff_ffff_ffffnat,
                s.drop_last().len() + 1 == s.len(),
                s.last() <= 0xffff_ffff_ffff_ffffnat,
        ;
    }
}

/// The successful latencies in record order.
fn ok_latency_list(records: &[RequestRecord]) -> (r: Vec<u64>)
    ensures
        r@ == ok_latencies(records@),
{
    let mut r: Vec<u64> = Vec::new();
    let mut i: usize = 0;
    while i < records.len()
        invariant
            i <= records@.len(),
            r@ == ok_latencies(records@.take(i as int)),
        decreases records@.len() - i,
    {
        proof {
            assert(records@.take(i as int + 1).drop_last() =~= records@.take(i as int));
        }
        if records[i].error == ERR_OK {
            r.push(records[i].latency_ns);
        }
        i = i + 1;
    }
    proof {
        assert(records@.take(i as int) =~= records@);
    }
    r
}

/// The nearest-rank percentile `pct` of an ascending list; 0 when it is empty.
fn percentile(sorted: &[u64], pct: u8) -> (r: u64)
    requires
        pct <= 100,
    ensures
        r == percentile_of(sorted@, pct as int),
{
    let len = sorted.len();
    if len == 0 {
        return 0;
    }
    proof {
        assert(pct * (len - 1) <= 100 * (len - 1)) by (nonlinear_arith)
            requires
                pct <= 100,
                len >= 1,
        ;
        assert(pct * (len - 1) / 100 <= len - 1) by (nonlinear_arith)
            requires
                pct * (len - 1) <= 100 * (len - 1),
                len >= 1,
        ;
    }
    let rank = ((pct as u128) * ((len - 1) as u128)) / 100;
    sorted[rank as usize]
}

/// The statistics of one target's records: request and success counts, the
/// nearest-rank percentiles, maximum and mean of the successful latencies,
/// and the failures per error code.
pub fn summarize(records: &[RequestRecord]) -> (r: LatencySummary)
    ensures
        r.requests == records@.len(),
        r.ok == ok_latencies(records@).len(),
        r.p50_ns == percentile_of(sorted_latencies(records@), 50),
        r.p95_ns == percentile_of(sorted_latencies(records@), 95),
        r.p99_ns == percentile_of(sorted_latencies(records@), 99),
        r.max_ns == (if r.ok == 0 { 0 } else { sorted_latencies(records@).last() }),
        r.mean_ns == (if r.ok == 0 { 0 } else { total(ok_latencies(records@)) / (r.ok as nat) }),
        r.errors[0] == 0,
        forall|k: int| 1 <= k < 7 ==> #[trigger] r.errors[k] == error_count(records@, k),
        r.errors[7] == unnamed_error_count(records@),
{
    let ghost oks = ok_latencies(records@);
    let mut latencies = ok_latency_list(records);
    let count = latencies.len();
    let mut sum: u128 = 0;
    let mut i: usize = 0;
    while i < latencies.len()
        invariant
            latencies@ == oks,
            i <= oks.len(),
            sum == total(oks.take(i as int)),
            sum <= i * 0xffff_ffff_ffff_ffffnat,
            oks.len() == count,
        decreases oks.len() - i,
    {
        proof {
            assert(oks.take(i as int + 1).drop_last() =~= oks.take(i as int));
            assert(sum + oks[i as int] <= (i + 1) * 0xffff_ffff_ffff_ffffnat) by (nonlinear_arith)
                requires
                    sum <= i * 0xffff_ffff_ffff_ffffnat,
                    oks[i as int] <= 0xffff_ffff_ffff_ffffnat,
            ;
            assert((i + 1) * 0xffff_ffff_ffff_ffffnat < 0x1_0000_0000_0000_0000_0000_0000_0000_0000nat) by (nonlinear_arith)
                requires
                    i < count,
                    count <= 0xffff_ffff_ffff_ffffnat,
            ;
        }
        sum = sum + latencies[i] as u128;
        i = i + 1;
    }
    proof {
        assert(oks.take(i as int) =~= oks);
    }
    let ghost unsorted = latencies@;
    sort_ascending(&mut latencies);
    proof {
        lemma_latency_order_total();
        oks.lemma_sort_by_ensures(latency_leq());
        lemma_sorted_unique(latencies@, oks.sort_by(latency_leq()), latency_leq());
        lemma_ok_latencies_len(records@);
        lemma_error_count_len(records@, 0);
    }
    let ok = latencies.len();
    let mean = if ok == 0 {
        0
    } else {
        proof {
            lemma_total_bound(oks);
            assert(sum / (ok as u128) <= 0xffff_ffff_ffff_ffff) by (nonlinear_arith)
                requires
                    sum <= ok * 0xffff_ffff_ffff_ffffnat,
                    ok >= 1,
            ;
        }
        (sum / (ok as u128)) as u64
    };
    let max = if ok == 0 { 0 } else { latencies[ok - 1] };
    let mut errors: [u64; 8] = [0, 0, 0, 0, 0, 0, 0, 0];
    let total_records = records.len();
    let mut j: usize = 0;
    while j < records.len()
        invariant
            j <= records@.len(),
            records@.len() == total_records,
            errors[0] == 0,
            forall|k: int| 1 <= k < 7 ==> #[trigger] errors[k] == error_count(records@.take(j as int), k),
            errors[7] == unnamed_error_count(records@.take(j as int)),
        decreases records@.len() - j,
    {
        let code = records[j].error;
        proof {
            let pre = records@.take(j as int);
            let post = records@.take(j as int + 1);
            assert(post.drop_last() =~= pre);
            assert forall|k: int| 0 <= k < 8 implies #[trigger] errors[k] <= j by {
                lemma_error_count_len(pre, k);
            }
        }
        if code != ERR_OK {
            if code < 7 {
                let c = code as usize;
                errors[c] = errors[c] + 1;
            } else {
                errors[7] = errors[7] + 1;
            }
        }
        j = j + 1;
    }
    proof {
        assert(records@.take(j as int) =~= records@);
    }
    LatencySummary {
        requests: records.len(),
        ok,
        p50_ns: percentile(latencies.as_slice(), 50),
        p95_ns: percentile(latencies.as_slice(), 95),
        p99_ns: percentile(latencies.as_slice(), 99),
        max_ns: max,
        mean_ns: mean,
        errors,
    }
}

/// The first `limit` successful latencies, in record order.
pub fn latency_samples(records: &[RequestRecord], limit: usize) -> (r: Vec<u64>)
    ensures
        r@ == ok_latencies(records@).take(
            if limit < ok_latencies(records@).len() { limit as int } else { ok_latencies(records@).len() as int },
        ),
{
    let all = ok_latency_list(records);
    let mut r: Vec<u64> = Vec::new();
    let mut i: usize = 0;
    while i < all.len() && i < limit
        invariant
            all@ == ok_latencies(records@),
            i <= all@.len(),
            i <= limit,
            r@ == all@.take(i as int),
        decreases all@.len() - i,
    {
        r.push(all[i]);
        i = i + 1;
        proof {
            assert(r@ =~= all@.take(i as int));
        }
    }
    r
}

/// Every request is counted exactly once: as a success, under its named
/// error code, or among the codes without a name.
pub proof fn lemma_every_request_counted_once(records: Seq<RequestRecord>)
    ensures
        ok_latencies(records).len() + error_count(records, 1) + error_count(records, 2) + error_count(records, 3)
            + error_count(records, 4) + error_count(records, 5) + error_count(records, 6) + unnamed_error_count(records)
            == records.len(),
    decreases records.len(),
{
    if records.len() > 0 {
        lemma_every_request_counted_once(records.drop_last());
    }
}

/// On an ascending list the percentiles come in order, below the maximum.
pub proof fn lemma_percentiles_ordered(sorted: Seq<u64>)
    requires
        sorted_by(sorted, latency_leq()),
    ensures
        percentile_of(sorted, 50) <= percentile_of(sorted, 95),
        percentile_of(sorted, 95) <= percentile_of(sorted, 99),
        sorted.len() > 0 ==> percentile_of(sorted, 99) <= sorted.last(),
{
    if sorted.len() > 0 {
        let n = sorted.len() - 1;
        assert(50 * n / 100 <= 95 * n / 100) by (nonlinear_arith)
            requires
                n >= 0,
        {
            vstd::arithmetic::div_mod::lemma_div_is_ordered(50 * n, 95 * n, 100);
        }
        assert(95 * n / 100 <= 99 * n / 100) by (nonlinear_arith)
            requires
                n >= 0,
        {
            vstd::arithmetic::div_mod::lemma_div_is_ordered(95 * n, 99 * n, 100);
        }
        assert(99 * n / 100 <= n) by (nonlinear_arith)
            requires
                n >= 0,
        ;
        assert(0 <= 50 * n / 100) by (nonlinear_arith)
            requires
                n >= 0,
        ;
        let a = 50 * n / 100;
        let b = 95 * n / 100;
        let c = 99 * n / 100;
        if a < b {
            assert(latency_leq()(sorted[a], sorted[b]));
        }
        if b < c {
            assert(latency_leq()(sorted[b], sorted[c]));
        }
        if c < n {
            assert(latency_leq()(sorted[c], sorted[n]));
        }
    }
}

} // verus!
