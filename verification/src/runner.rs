//! The decisions of a benchmark run: retries of remote steps, how a wait
//! ends a walk, and which strategy uses which context.
use vstd::prelude::*;
use crate::maze::{MazeContext, StopReason};
use crate::pace::{after, shorter, wait_check, WaitAbort, WAIT_SLICE_NS};
use crate::config::{require_positive, TargetKind};
use crate::text::{ascii_lowercase, join3, lower, owned, same_text};

verus! {

/// A remote status worth retrying: rate limited, or a server error.
pub open spec fn retryable(status: u16) -> bool {
    status == 429 || (500 <= status && status < 600)
}

pub fn is_retryable_remote_status(status: u16) -> (r: bool)
    ensures
        r == retryable(status),
{
    status == 429 || (500 <= status && status < 600)
}

/// The delay in milliseconds before retry number `retry` (counted from 1):
/// the base doubles with each retry up to 64 times the base, and the delay
/// never exceeds a minute.
pub open spec fn retry_delay_ms(base_ms: u64, retry: u32) -> u64 {
    let shift: nat = if retry == 0 { 0 } else if retry - 1 > 6 { 6 } else { (retry - 1) as nat };
    let multiplier: int = vstd::arithmetic::power2::pow2(shift) as int;
    let product: int = if base_ms * multiplier > u64::MAX { u64::MAX as int } else { base_ms * multiplier };
    if product > 60_000 {
        60_000
    } else {
        product as u64
    }
}

/// The delay in milliseconds before retry number `retry`.
pub fn remote_retry_delay(base_ms: u64, retry: u32) -> (r: u64)
    ensures
        r == retry_delay_ms(base_ms, retry),
        r <= 60_000,
{
    let shift: u32 = if retry == 0 { 0 } else if retry - 1 > 6 { 6 } else { retry - 1 };
    let multiplier: u64 = 1u64 << shift;
    proof {
        vstd::arithmetic::power2::lemma2_to64();
        assert(multiplier == vstd::arithmetic::power2::pow2(shift as nat)) by {
            vstd::bits::lemma_u64_shl_is_mul(1u64, shift as u64);
        }
    }
    let product = base_ms.checked_mul(multiplier);
    let product = match product {
        Some(p) => p,
        None => u64::MAX,
    };
    if product > 60_000 {
        60_000
    } else {
        product
    }
}

/// Whether a remote step is retried once more.
pub fn should_retry(paced: bool, status: u16, retries: u32, max_retries: u32) -> (r: bool)
    ensures
        r == (paced && retryable(status) && retries < max_retries),
{
    paced && is_retryable_remote_status(status) && retries < max_retries
}

/// The stop reason of a walk whose wait gave up.
pub fn stop_from_wait(abort: WaitAbort) -> (r: StopReason)
    ensures
        r == (match abort {
            WaitAbort::Cancelled => StopReason::Interrupted,
            WaitAbort::Deadline => StopReason::MaxRuntime,
        }),
{
    match abort {
        WaitAbort::Cancelled => StopReason::Interrupted,
        WaitAbort::Deadline => StopReason::MaxRuntime,
    }
}

/// What a retry wait does next.
#[derive(Debug, Clone, Copy, PartialEq, Eq, Structural)]
pub enum RetryWait {
    Abort(WaitAbort),
    Done,
    Sleep(u64),
}

/// One round of the wait before a retry that is due at `until_ns`.
pub fn retry_wait_step(cancelled: bool, now_ns: u64, deadline_ns: u64, until_ns: u64) -> (r: RetryWait)
    ensures
        match wait_check(cancelled, now_ns, deadline_ns) {
            Some(a) => r == RetryWait::Abort(a),
            None => if after(until_ns, now_ns) == 0 {
                r == RetryWait::Done
            } else {
                r == RetryWait::Sleep(shorter(shorter(after(until_ns, now_ns), WAIT_SLICE_NS), after(deadline_ns, now_ns)))
            },
        },
{
    if cancelled {
        return RetryWait::Abort(WaitAbort::Cancelled);
    }
    if now_ns >= deadline_ns {
        return RetryWait::Abort(WaitAbort::Deadline);
    }
    if until_ns <= now_ns {
        return RetryWait::Done;
    }
    let remaining = until_ns - now_ns;
    let capped = if remaining < WAIT_SLICE_NS { remaining } else { WAIT_SLICE_NS };
    let left = deadline_ns - now_ns;
    RetryWait::Sleep(if capped < left { capped } else { left })
}

/// The strategies that keep spatial memory and send it with each step.
pub open spec fn memory_strategy(name: Seq<char>) -> bool {
    name == "jev-memory"@ || name == "jev-flood-fill"@
}

/// The strategies that keep the full-history memory and send it, with the
/// described surroundings, on each step.
pub open spec fn history_strategy(name: Seq<char>) -> bool {
    name == "jev-memory-v1-long"@ || name == "jev-memory-v1-free"@ || name == "jev-memory-no-distance"@
}

/// The strategies whose moves are picked in process, with no model call.
pub open spec fn local_strategy(name: Seq<char>) -> bool {
    name == "flood-fill"@ || name == "memory-rules"@
}

/// The strategies that observe the maze through the online solver.
pub open spec fn navigating_strategy(name: Seq<char>) -> bool {
    local_strategy(name) || memory_strategy(name)
}

/// Whether a target sends spatial memory with each step.
pub fn sends_memory(name: &str) -> (r: bool)
    ensures
        r == memory_strategy(name@),
{
    same_text(name, "jev-memory") || same_text(name, "jev-flood-fill")
}

/// Whether a target feeds the online solver its observations.
pub fn navigates(name: &str) -> (r: bool)
    ensures
        r == navigating_strategy(name@),
{
    plans_locally(name) || sends_memory(name)
}

/// Whether a target's moves come from the fixed ranking rules rather than
/// the flood field.
pub fn uses_rules(name: &str) -> (r: bool)
    ensures
        r == (name@ == "memory-rules"@),
{
    same_text(name, "memory-rules")
}

/// Whether a target sends the full-history memory with each step.
pub fn sends_history(name: &str) -> (r: bool)
    ensures
        r == history_strategy(name@),
{
    same_text(name, "jev-memory-v1-long") || same_text(name, "jev-memory-v1-free")
        || same_text(name, "jev-memory-no-distance")
}

/// Whether a target's move instructions leave the strategy to the model.
pub fn frees_strategy(name: &str) -> (r: bool)
    ensures
        r == (name@ == "jev-memory-v1-free"@ || name@ == "jev-memory-no-distance"@),
{
    same_text(name, "jev-memory-v1-free") || same_text(name, "jev-memory-no-distance")
}

/// Whether a target's requests leave out the distance guidance.
pub fn drops_distance(name: &str) -> (r: bool)
    ensures
        r == (name@ == "jev-memory-no-distance"@),
{
    same_text(name, "jev-memory-no-distance")
}

/// Whether the solver picks the moves in process, with no model call.
pub fn plans_locally(name: &str) -> (r: bool)
    ensures
        r == local_strategy(name@),
{
    same_text(name, "flood-fill") || same_text(name, "memory-rules")
}

/// The context a target's requests use: the memory and history strategies
/// always describe the surroundings; the others use the configured context.
pub fn context_for(name: &str, configured: MazeContext) -> (r: MazeContext)
    ensures
        r == (if memory_strategy(name@) || history_strategy(name@) { MazeContext::Features } else { configured }),
{
    if sends_memory(name) || sends_history(name) {
        MazeContext::Features
    } else {
        configured
    }
}

/// The number of warm-up requests a target sends: none for the in-process solvers.
pub fn warmup_count(name: &str, warmup: usize) -> (r: usize)
    ensures
        r == (if local_strategy(name@) { 0 } else { warmup }),
{
    if plans_locally(name) {
        0
    } else {
        warmup
    }
}

/// The version that the saved description of a strategy must begin with
/// for a walk of that strategy to be resumed; none for a strategy without
/// a versioned context.
pub open spec fn strategy_version(name: Seq<char>) -> Option<Seq<char>> {
    if name == "jev-memory"@ {
        Some("spatial-v2:"@)
    } else if name == "jev-flood-fill"@ {
        Some("flood-v1:"@)
    } else {
        None
    }
}

/// `s` begins with `p`.
pub open spec fn begins_with(s: Seq<char>, p: Seq<char>) -> bool {
    p.len() <= s.len() && s.subrange(0, p.len() as int) == p
}

fn starts_with_text(s: &str, p: &str) -> (r: bool)
    ensures
        r == begins_with(s@, p@),
{
    let n = s.unicode_len();
    let m = p.unicode_len();
    m <= n && same_text(s.substring_char(0, m), p)
}

/// A saved walk of `name` can be resumed only when its saved strategy
/// description `saved` carries the version the strategy has now.
pub fn check_resume_context(name: &str, saved: &str) -> (r: Result<(), String>)
    ensures
        match strategy_version(name@) {
            Some(v) => if begins_with(saved@, v) {
                r is Ok
            } else {
                r is Err && r->Err_0@ == "resume strategy version mismatch for "@ + name@
                    + "; start a fresh comparison run"@
            },
            None => r is Ok,
        },
{
    let version = if same_text(name, "jev-memory") {
        Some("spatial-v2:")
    } else if same_text(name, "jev-flood-fill") {
        Some("flood-v1:")
    } else {
        None
    };
    match version {
        Some(v) => {
            if starts_with_text(saved, v) {
                Ok(())
            } else {
                Err(join3("resume strategy version mismatch for ", name, "; start a fresh comparison run"))
            }
        },
        None => Ok(()),
    }
}

/// How far off a run without a time cap puts its deadline: a hundred years
/// of 365 days, in nanoseconds.
pub const UNCAPPED_RUN_NS: u64 = 3_153_600_000_000_000_000;

/// The deadline of a maze run that starts at clock reading `start_ns`
/// (nanoseconds): `max_runtime_secs` later, or, for `0`, so far off that it
/// never comes; a deadline past the clock's range is its last reading.
pub fn run_deadline_ns(start_ns: u64, max_runtime_secs: u64) -> (r: u64)
    ensures
        ({
            let span: int = if max_runtime_secs == 0 { UNCAPPED_RUN_NS as int } else { max_runtime_secs * 1_000_000_000 };
            r == (if start_ns + span > u64::MAX { u64::MAX as int } else { start_ns + span })
        }),
{
    let span: u64 = if max_runtime_secs == 0 {
        UNCAPPED_RUN_NS
    } else {
        match max_runtime_secs.checked_mul(1_000_000_000) {
            Some(v) => v,
            None => u64::MAX,
        }
    };
    start_ns.saturating_add(span)
}

/// The strategies that only a maze run can use.
pub open spec fn maze_only(k: TargetKind) -> bool {
    k != TargetKind::Local && k != TargetKind::Jev
}

/// A run that is not a maze run may not ask for a maze-only strategy.
pub fn check_strategies(wanted: &Vec<TargetKind>, maze_run: bool) -> (r: Result<(), String>)
    ensures
        r is Ok <==> (maze_run || forall|k: int| 0 <= k < wanted@.len() ==> !maze_only(#[trigger] wanted@[k])),
        r is Err ==> r->Err_0@ == "flood-fill, memory-rules and the jev-memory and jev-flood-fill variants are maze-record strategies only"@,
{
    if maze_run {
        return Ok(());
    }
    let mut i: usize = 0;
    while i < wanted.len()
        invariant
            !maze_run,
            i <= wanted@.len(),
            forall|k: int| 0 <= k < i ==> !maze_only(#[trigger] wanted@[k]),
        decreases wanted@.len() - i,
    {
        let k = wanted[i];
        if k != TargetKind::Local && k != TargetKind::Jev {
            proof {
                assert(maze_only(wanted@[i as int]));
            }
            return Err(owned("flood-fill, memory-rules and the jev-memory and jev-flood-fill variants are maze-record strategies only"));
        }
        i = i + 1;
    }
    Ok(())
}

/// The number of cells of a maze run's grid: both sides must be positive
/// and the product must fit.
pub fn maze_dimensions(width: usize, height: usize) -> (r: Result<usize, String>)
    ensures
        width == 0 ==> r is Err && r->Err_0@ == "width"@ + " must be > 0"@,
        width != 0 && height == 0 ==> r is Err && r->Err_0@ == "height"@ + " must be > 0"@,
        width != 0 && height != 0 && width * height > usize::MAX ==> r is Err && r->Err_0@ == "maze dimensions overflow"@,
        width != 0 && height != 0 && width * height <= usize::MAX ==> r == Ok::<usize, String>((width * height) as usize),
{
    match require_positive("width", width) {
        Err(e) => return Err(e),
        Ok(()) => {},
    }
    match require_positive("height", height) {
        Err(e) => return Err(e),
        Ok(()) => {},
    }
    match width.checked_mul(height) {
        Some(n) => Ok(n),
        None => Err(owned("maze dimensions overflow")),
    }
}

/// `s` contains `pat` somewhere.
pub open spec fn contains_text(s: Seq<char>, pat: Seq<char>) -> bool {
    exists|i: int| 0 <= i && i + pat.len() <= s.len() && #[trigger] s.subrange(i, i + pat.len()) == pat
}

/// A load run that names a remote target needs the explicit opt-in.
pub fn check_remote_load(targets: &str, enable_remote_load: bool) -> (r: Result<(), String>)
    ensures
        r is Err <==> (contains_text(lower(targets@), "jev"@) && !enable_remote_load),
        r is Err ==> r->Err_0@ == "remote load against TypeSafe Jev requires --enable-remote-load"@,
{
    let folded = ascii_lowercase(targets);
    let t = folded.as_str();
    let n = t.unicode_len();
    let mut found = false;
    let mut i: usize = 0;
    proof {
        reveal_strlit("jev");
    }
    while n >= 3 && i <= n - 3 && !found
        invariant
            n == t@.len(),
            t@ == lower(targets@),
            "jev"@.len() == 3,
            found ==> contains_text(t@, "jev"@),
            !found ==> forall|k: int| 0 <= k < i && k + 3 <= n ==> #[trigger] t@.subrange(k, k + 3) != "jev"@,
        decreases n - i, if found { 0int } else { 1int },
    {
        let piece = t.substring_char(i, i + 3);
        if same_text(piece, "jev") {
            found = true;
        } else {
            i = i + 1;
        }
    }
    proof {
        if !found {
            assert forall|k: int| 0 <= k && k + "jev"@.len() <= t@.len() implies #[trigger] t@.subrange(k, k + "jev"@.len()) != "jev"@ by {}
        }
    }
    if found && !enable_remote_load {
        Err(owned("remote load against TypeSafe Jev requires --enable-remote-load"))
    } else {
        Ok(())
    }
}

/// Remote retries back off: the first retry waits the base delay (capped
/// at a minute), no retry waits less than the one before, and every delay
/// stays within a minute.
pub proof fn lemma_retry_backoff(base_ms: u64, retry: u32)
    requires
        retry < u32::MAX,
    ensures
        retry_delay_ms(base_ms, 1) == (if base_ms > 60_000 { 60_000 } else { base_ms }),
        retry_delay_ms(base_ms, retry) <= retry_delay_ms(base_ms, (retry + 1) as u32),
        retry_delay_ms(base_ms, retry) <= 60_000,
{
    vstd::arithmetic::power2::lemma2_to64();
    assert(vstd::arithmetic::power2::pow2(0) == 1);
    assert(base_ms * (vstd::arithmetic::power2::pow2(0) as int) == base_ms);
    let s1: nat = if retry == 0 { 0 } else if retry - 1 > 6 { 6 } else { (retry - 1) as nat };
    let s2: nat = if retry + 1 - 1 > 6 { 6 } else { retry as nat };
    assert(s1 <= s2);
    let m1 = vstd::arithmetic::power2::pow2(s1) as int;
    let m2 = vstd::arithmetic::power2::pow2(s2) as int;
    assert(m1 <= m2) by {
        if s1 < s2 {
            vstd::arithmetic::power2::lemma_pow2_strictly_increases(s1, s2);
        }
    }
    assert(base_ms * m1 <= base_ms * m2) by (nonlinear_arith)
        requires
            m1 <= m2,
            base_ms >= 0,
    ;
}

} // verus!
