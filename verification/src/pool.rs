//! A worker's random draws: straight from its own generator, or from
//! pre-filled chunks with the generator as the fallback.
use vstd::prelude::*;
use crate::rng::{spec_advance, spec_output, spec_seed_state, spec_stream_seed, stream_seed, State, Xoshiro256PlusPlus};

verus! {

/// Counters of the pool at one moment.
#[derive(Debug, Clone, Copy, PartialEq, Eq)]
pub struct RngStatsSnapshot {
    pub hits: u64,
    pub fallbacks: u64,
    pub refills: u64,
    pub refill_ns: u64,
}

/// One worker's source of draws. A buffered worker serves the current
/// chunk front to back and asks for a refill when exactly `low_watermark`
/// draws are left in it.
pub struct WorkerRng {
    direct: Xoshiro256PlusPlus,
    chunk: Vec<u64>,
    cursor: usize,
    low_watermark: usize,
    buffered: bool,
}

impl WorkerRng {
    /// The state of the worker's own generator.
    pub closed spec fn generator(&self) -> State {
        self.direct@
    }

    /// The current chunk.
    pub closed spec fn chunk_seq(&self) -> Seq<u64> {
        self.chunk@
    }

    /// How many draws of the current chunk have been served.
    pub closed spec fn served(&self) -> int {
        self.cursor as int
    }

    pub closed spec fn watermark(&self) -> int {
        self.low_watermark as int
    }

    pub closed spec fn is_buffered_spec(&self) -> bool {
        self.buffered
    }

    pub closed spec fn wf(&self) -> bool {
        self.cursor <= self.chunk@.len()
    }

    /// A worker that draws from its own generator only.
    pub fn direct(seed: u64) -> (r: Self)
        ensures
            r.wf(),
            r.generator() == spec_seed_state(seed),
            !r.is_buffered_spec(),
            r.chunk_seq().len() == 0,
            r.served() == 0,
            r.watermark() == 0,
    {
        WorkerRng { direct: Xoshiro256PlusPlus::from_seed(seed), chunk: Vec::new(), cursor: 0, low_watermark: 0, buffered: false }
    }

    /// A worker that serves `chunk` first (it may be empty).
    pub fn buffered(seed: u64, chunk: Vec<u64>, low_watermark: usize) -> (r: Self)
        ensures
            r.wf(),
            r.generator() == spec_seed_state(seed),
            r.is_buffered_spec(),
            r.chunk_seq() == chunk@,
            r.served() == 0,
            r.watermark() == low_watermark,
    {
        WorkerRng { direct: Xoshiro256PlusPlus::from_seed(seed), chunk, cursor: 0, low_watermark, buffered: true }
    }

    pub fn is_buffered(&self) -> (r: bool)
        ensures
            r == self.is_buffered_spec(),
    {
        self.buffered
    }

    /// The next draw of the current chunk, and whether exactly the low
    /// watermark is left after it; `None` once the chunk is used up.
    pub fn take_from_chunk(&mut self) -> (r: Option<(u64, bool)>)
        requires
            old(self).wf(),
        ensures
            final(self).wf(),
            final(self).generator() == old(self).generator(),
            final(self).chunk_seq() == old(self).chunk_seq(),
            final(self).watermark() == old(self).watermark(),
            final(self).is_buffered_spec() == old(self).is_buffered_spec(),
            old(self).served() < old(self).chunk_seq().len() ==> {
                &&& r == Some((old(self).chunk_seq()[old(self).served()],
                    old(self).chunk_seq().len() - (old(self).served() + 1) == old(self).watermark()))
                &&& final(self).served() == old(self).served() + 1
            },
            old(self).served() >= old(self).chunk_seq().len() ==> r is None && final(self).served() == old(self).served(),
    {
        if self.cursor < self.chunk.len() {
            let value = self.chunk[self.cursor];
            self.cursor = self.cursor + 1;
            let remaining = self.chunk.len() - self.cursor;
            Some((value, remaining == self.low_watermark))
        } else {
            None
        }
    }

    /// Put a fresh chunk in place and hand back the used one.
    pub fn swap_chunk(&mut self, next: Vec<u64>) -> (r: Vec<u64>)
        requires
            old(self).wf(),
        ensures
            final(self).wf(),
            r@ == old(self).chunk_seq(),
            final(self).chunk_seq() == next@,
            final(self).served() == 0,
            final(self).generator() == old(self).generator(),
            final(self).watermark() == old(self).watermark(),
            final(self).is_buffered_spec() == old(self).is_buffered_spec(),
    {
        let mut fresh = next;
        std::mem::swap(&mut self.chunk, &mut fresh);
        self.cursor = 0;
        fresh
    }

    /// A draw from the worker's own generator.
    pub fn draw_direct(&mut self) -> (r: u64)
        requires
            old(self).wf(),
        ensures
            final(self).wf(),
            r == spec_output(old(self).generator()),
            final(self).generator() == spec_advance(old(self).generator()),
            final(self).chunk_seq() == old(self).chunk_seq(),
            final(self).served() == old(self).served(),
            final(self).watermark() == old(self).watermark(),
            final(self).is_buffered_spec() == old(self).is_buffered_spec(),
    {
        self.direct.next_u64()
    }
}


/// The sizes a shared pool runs with: chunks of at least 8 numbers, at
/// least 2 chunks, and refills until half of the chunks, rounded up, are
/// full.
pub fn pool_sizes(chunk_len: usize, chunk_count: usize) -> (r: (usize, usize, usize))
    ensures
        r.0 == (if chunk_len < 8 { 8 } else { chunk_len }),
        r.1 == (if chunk_count < 2 { 2 } else { chunk_count }),
        r.2 == r.1 / 2 + r.1 % 2,
        1 <= r.2 <= r.1,
{
    let len = if chunk_len < 8 { 8 } else { chunk_len };
    let count = if chunk_count < 2 { 2 } else { chunk_count };
    (len, count, count / 2 + count % 2)
}

/// The stream that the pool's refills are seeded from.
pub const POOL_STREAM: u64 = 0xB0FF_E5ED;

/// The stream base of the refill threads; thread `i` takes stream
/// `REFILL_STREAM ^ i`.
pub const REFILL_STREAM: u64 = 0x51F1_0000_0000_0001;

/// The seed of refill thread `i` of a pool seeded with `pool_seed`.
pub fn refill_seed(pool_seed: u64, i: u64) -> (r: u64)
    ensures
        r == spec_stream_seed(pool_seed, REFILL_STREAM ^ i),
{
    stream_seed(pool_seed, REFILL_STREAM ^ i)
}

} // verus!
