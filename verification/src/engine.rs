//! The decision engine's settings and how it picks each answer.
use vstd::prelude::*;
use crate::protocol::{criteria_count, criteria_entries, Question};
use crate::rng::{spec_bounded_index, Entropy, Xoshiro256PlusPlus};
use crate::text::{ascii_lowercase, join3, lower, owned, same_text};

verus! {

/// Where the engine's random draws come from.
#[derive(Debug, Clone, Copy, PartialEq, Eq, Structural)]
pub enum RngMode {
    Direct,
    Buffered,
}

/// The mode that a name selects, ignoring ASCII case.
pub open spec fn mode_named(name: Seq<char>) -> Option<RngMode> {
    if lower(name) == "direct"@ {
        Some(RngMode::Direct)
    } else if lower(name) == "buffered"@ {
        Some(RngMode::Buffered)
    } else {
        None
    }
}

impl RngMode {
    pub fn as_str(self) -> (r: &'static str)
        ensures
            r@ == (match self {
                RngMode::Direct => "direct"@,
                RngMode::Buffered => "buffered"@,
            }),
    {
        match self {
            RngMode::Direct => "direct",
            RngMode::Buffered => "buffered",
        }
    }

    pub fn parse(value: &str) -> (r: Option<Self>)
        ensures
            r == mode_named(value@),
    {
        let folded = ascii_lowercase(value);
        let l = folded.as_str();
        if same_text(l, "direct") {
            Some(RngMode::Direct)
        } else if same_text(l, "buffered") {
            Some(RngMode::Buffered)
        } else {
            None
        }
    }
}

/// The mode of a command-line value, or the message that rejects it.
pub fn parse_rng_mode(value: &str) -> (r: Result<RngMode, String>)
    ensures
        match mode_named(value@) {
            Some(m) => r == Ok::<RngMode, String>(m),
            None => r is Err && r->Err_0@ == "unknown rng mode '"@ + value@ + "' (use direct|buffered)"@,
        },
{
    match RngMode::parse(value) {
        Some(m) => Ok(m),
        None => Err(join3("unknown rng mode '", value, "' (use direct|buffered)")),
    }
}

/// How the engine is set up.
#[derive(Debug, Clone)]
pub struct EngineConfig {
    pub mode: RngMode,
    pub seed: u64,
    pub chunk_len: usize,
    pub chunk_count: usize,
    pub low_watermark: usize,
    pub refill_threads: usize,
    pub model_id: String,
}

impl EngineConfig {
    /// The default setup with the given seed: direct draws, chunks of 4096
    /// numbers, 16 chunks, refills below 1024, one refill thread, and the
    /// model id `jev-quantum-latest`.
    pub fn with_seed(seed: u64) -> (r: EngineConfig)
        ensures
            r.mode == RngMode::Direct,
            r.seed == seed,
            r.chunk_len == 4096,
            r.chunk_count == 16,
            r.low_watermark == 1024,
            r.refill_threads == 1,
            r.model_id@ == "jev-quantum-latest"@,
    {
        EngineConfig {
            mode: RngMode::Direct,
            seed,
            chunk_len: 4096,
            chunk_count: 16,
            low_watermark: 1024,
            refill_threads: 1,
            model_id: owned("jev-quantum-latest"),
        }
    }
}

/// What the engine answers a question with, before the draws become numbers
/// in the unit interval: a yes/no question gets one raw draw, a choice the
/// index of the chosen option, a score its level.
#[derive(Debug, Clone, Copy, PartialEq, Eq, Structural)]
pub enum AnswerPlan {
    Noul(u64),
    Choice(usize),
    Score(usize),
}

/// `i` is the index among `n` options that one call of `bounded_usize`
/// gives: 0 with no draw below two options, else `index_of` of one draw
/// that takes the source from `before` to `after`.
pub open spec fn drawn_index<R: Entropy>(before: R, after: R, n: nat, i: usize) -> bool {
    &&& n > 0 ==> i < n
    &&& n <= 1 ==> i == 0 && after == before
    &&& n > 1 ==> exists|x: u64| before.steps_to(x, &after) && i == spec_bounded_index(x, n as usize)
}

/// Pick the answer to `question` with one draw from `rng`: a choice and a
/// score pick an option index uniformly (up to the draw's bias).
pub fn plan_answer<R: Entropy>(question: &Question, rng: &mut R) -> (r: AnswerPlan)
    ensures
        match *question {
            Question::Noul { .. } => r matches AnswerPlan::Noul(v) && old(rng).steps_to(v, &*final(rng)),
            Question::Choice { criteria, .. } => r matches AnswerPlan::Choice(i) && drawn_index(
                *old(rng),
                *final(rng),
                criteria_entries(criteria).len(),
                i,
            ),
            Question::Score { criteria, .. } => r matches AnswerPlan::Score(i) && drawn_index(
                *old(rng),
                *final(rng),
                criteria@.len(),
                i,
            ),
        },
{
    match question {
        Question::Noul { .. } => AnswerPlan::Noul(rng.next_u64()),
        Question::Choice { criteria, .. } => {
            let n = criteria_count(criteria);
            AnswerPlan::Choice(rng.bounded_usize(n))
        },
        Question::Score { criteria, .. } => AnswerPlan::Score(rng.bounded_usize(criteria.len())),
    }
}


/// With the xoshiro generator an answer plan is a function of the question
/// and the generator's state: plans drawn from equal states pick the same
/// index and leave equal states.
pub proof fn lemma_choice_plans_agree(
    before: Xoshiro256PlusPlus,
    after1: Xoshiro256PlusPlus,
    after2: Xoshiro256PlusPlus,
    n: nat,
    i1: usize,
    i2: usize,
)
    requires
        drawn_index(before, after1, n, i1),
        drawn_index(before, after2, n, i2),
    ensures
        i1 == i2,
        after1@ == after2@,
{
    if n > 1 {
        let x1 = choose|x: u64| before.steps_to(x, &after1) && i1 == spec_bounded_index(x, n as usize);
        let x2 = choose|x: u64| before.steps_to(x, &after2) && i2 == spec_bounded_index(x, n as usize);
        assert(x1 == x2);
    }
}

/// With the xoshiro generator a yes/no plan is a function of the generator's
/// state: draws from equal states are equal and leave equal states.
pub proof fn lemma_draws_agree(
    before: Xoshiro256PlusPlus,
    after1: Xoshiro256PlusPlus,
    after2: Xoshiro256PlusPlus,
    v1: u64,
    v2: u64,
)
    requires
        before.steps_to(v1, &after1),
        before.steps_to(v2, &after2),
    ensures
        v1 == v2,
        after1@ == after2@,
{
}

} // verus!
