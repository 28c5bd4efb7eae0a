//! Pacing of outbound model calls, as decisions on nanosecond clocks.
//!
//! Every time here is a count of nanoseconds since an origin that the caller
//! fixes once; the caller reads the clock, sleeps, and hands the readings in.
use vstd::prelude::*;

verus! {

/// Why a paced wait gave up.
#[derive(Debug, Clone, Copy, PartialEq, Eq, Structural)]
pub enum WaitAbort {
    Cancelled,
    Deadline,
}

/// The longest single sleep of a wait, so that a cancel is noticed quickly.
pub const WAIT_SLICE_NS: u64 = 50_000_000;

/// Spaces calls at least `min_interval_ns` apart.
#[derive(Debug, Clone, Copy)]
pub struct Pace {
    pub min_interval_ns: u64,
    pub next_ok_ns: u64,
}

/// `a - b`, or 0 when `b` is later.
pub open spec fn after(a: u64, b: u64) -> u64 {
    if a > b {
        (a - b) as u64
    } else {
        0
    }
}

/// The smaller of two durations.
pub open spec fn shorter(a: u64, b: u64) -> u64 {
    if a < b {
        a
    } else {
        b
    }
}

/// `a + b`, or `u64::MAX` when that does not fit.
pub open spec fn sat_add(a: u64, b: u64) -> u64 {
    if a + b > u64::MAX {
        u64::MAX
    } else {
        (a + b) as u64
    }
}

/// The checks that come before and after every slice of a wait: a cancel
/// wins over the deadline.
pub open spec fn wait_check(cancelled: bool, now_ns: u64, deadline_ns: u64) -> Option<WaitAbort> {
    if cancelled {
        Some(WaitAbort::Cancelled)
    } else if now_ns >= deadline_ns {
        Some(WaitAbort::Deadline)
    } else {
        None
    }
}

impl Pace {
    /// A pace that lets the first call through at `now_ns`.
    pub fn starting(min_interval_ns: u64, now_ns: u64) -> (r: Self)
        ensures
            r.min_interval_ns == min_interval_ns,
            r.next_ok_ns == now_ns,
    {
        Pace { min_interval_ns, next_ok_ns: now_ns }
    }

    /// How long a plain wait sleeps at `now_ns`.
    pub fn wait_time(&self, now_ns: u64) -> (r: u64)
        ensures
            r == after(self.next_ok_ns, now_ns),
    {
        if self.next_ok_ns > now_ns {
            self.next_ok_ns - now_ns
        } else {
            0
        }
    }

    /// A call went out at `now_ns`: the next one may go at `now_ns` plus the interval.
    pub fn granted(&mut self, now_ns: u64)
        ensures
            final(self).min_interval_ns == old(self).min_interval_ns,
            final(self).next_ok_ns == sat_add(now_ns, old(self).min_interval_ns),
    {
        self.next_ok_ns = if now_ns > u64::MAX - self.min_interval_ns {
            u64::MAX
        } else {
            now_ns + self.min_interval_ns
        };
    }

    /// The start of a wait that gives up on a cancel or at the deadline: the
    /// time to sleep, which never runs past the deadline.
    pub fn wait_until_start(&self, cancelled: bool, now_ns: u64, deadline_ns: u64) -> (r: Result<u64, WaitAbort>)
        ensures
            match wait_check(cancelled, now_ns, deadline_ns) {
                Some(a) => r == Err::<u64, WaitAbort>(a),
                None => r == Ok::<u64, WaitAbort>(shorter(after(self.next_ok_ns, now_ns), after(deadline_ns, now_ns))),
            },
    {
        if cancelled {
            return Err(WaitAbort::Cancelled);
        }
        if now_ns >= deadline_ns {
            return Err(WaitAbort::Deadline);
        }
        let until_ok = self.wait_time(now_ns);
        let until_deadline = deadline_ns - now_ns;
        Ok(if until_ok < until_deadline { until_ok } else { until_deadline })
    }

    /// The end of a wait: the last checks, and on success the next call's slot.
    pub fn wait_until_finish(&mut self, cancelled: bool, now_ns: u64, deadline_ns: u64) -> (r: Result<(), WaitAbort>)
        ensures
            final(self).min_interval_ns == old(self).min_interval_ns,
            match wait_check(cancelled, now_ns, deadline_ns) {
                Some(a) => r == Err::<(), WaitAbort>(a) && final(self).next_ok_ns == old(self).next_ok_ns,
                None => r is Ok && final(self).next_ok_ns == sat_add(now_ns, old(self).min_interval_ns),
            },
    {
        if cancelled {
            return Err(WaitAbort::Cancelled);
        }
        if now_ns >= deadline_ns {
            return Err(WaitAbort::Deadline);
        }
        self.granted(now_ns);
        Ok(())
    }
}

/// The next sleep of a wait with `remaining_ns` still to sleep: at most
/// `WAIT_SLICE_NS`, never past the deadline.
pub open spec fn slice_of(remaining_ns: u64, now_ns: u64, deadline_ns: u64) -> u64 {
    shorter(shorter(remaining_ns, WAIT_SLICE_NS), after(deadline_ns, now_ns))
}

/// One slice of a paced wait: the checks, then how long to sleep; a slice
/// that comes out empty means the deadline has come.
pub fn wait_slice(remaining_ns: u64, cancelled: bool, now_ns: u64, deadline_ns: u64) -> (r: Result<u64, WaitAbort>)
    ensures
        match wait_check(cancelled, now_ns, deadline_ns) {
            Some(a) => r == Err::<u64, WaitAbort>(a),
            None => if slice_of(remaining_ns, now_ns, deadline_ns) == 0 {
                r == Err::<u64, WaitAbort>(WaitAbort::Deadline)
            } else {
                r == Ok::<u64, WaitAbort>(slice_of(remaining_ns, now_ns, deadline_ns))
            },
        },
{
    if cancelled {
        return Err(WaitAbort::Cancelled);
    }
    if now_ns >= deadline_ns {
        return Err(WaitAbort::Deadline);
    }
    let capped = if remaining_ns < WAIT_SLICE_NS { remaining_ns } else { WAIT_SLICE_NS };
    let left = deadline_ns - now_ns;
    let slice = if capped < left { capped } else { left };
    if slice == 0 {
        Err(WaitAbort::Deadline)
    } else {
        Ok(slice)
    }
}

} // verus!
