//! What a run keeps of each target, and how endpoints appear in reports.
use vstd::prelude::*;
use crate::maze::MazeTrajectory;
use crate::record::RequestRecord;
use crate::text::owned;

verus! {

pub const SCHEMA_VERSION: u32 = 1;
pub const SAMPLE_LIMIT: usize = 2048;

/// The path type `std::path::PathBuf`, declared so that the written paths
/// and the session settings can hold paths; nothing here looks inside one.
#[verifier::external_type_specification]
#[verifier::external_body]
pub struct ExPathBuf(std::path::PathBuf);

/// The outcome of one target in a run.
#[derive(Debug, Clone)]
pub struct TargetRun {
    pub name: String,
    pub model: String,
    pub endpoint: String,
    pub records: Vec<RequestRecord>,
    pub wall_ns: u64,
    pub trajectory: Option<MazeTrajectory>,
}

/// Where a report was written.
#[derive(Debug)]
pub struct WrittenPaths {
    pub summary: std::path::PathBuf,
    pub requests: std::path::PathBuf,
}

/// The index of the first `c` in `s`, if any.
pub open spec fn first_index(s: Seq<char>, c: char) -> Option<int>
    decreases s.len(),
{
    if s.len() == 0 {
        None
    } else if s[0] == c {
        Some(0)
    } else {
        match first_index(s.drop_first(), c) {
            Some(k) => Some(k + 1),
            None => None,
        }
    }
}

/// An endpoint with the credentials before its first `@` replaced.
pub open spec fn redacted(endpoint: Seq<char>) -> Seq<char> {
    match first_index(endpoint, '@') {
        Some(k) => "redacted"@ + endpoint.subrange(k, endpoint.len() as int),
        None => endpoint,
    }
}

proof fn lemma_first_index_skip(s: Seq<char>, c: char, i: int)
    requires
        0 <= i <= s.len(),
        forall|k: int| 0 <= k < i ==> s[k] != c,
    ensures
        first_index(s, c) == (match first_index(s.subrange(i, s.len() as int), c) {
            Some(k) => Some(k + i),
            None => None::<int>,
        }),
    decreases i,
{
    if i == 0 {
        assert(s.subrange(0, s.len() as int) =~= s);
        match first_index(s, c) {
            Some(k) => {},
            None => {},
        }
    } else {
        assert(s.drop_first().subrange(i - 1, s.drop_first().len() as int) =~= s.subrange(i, s.len() as int));
        lemma_first_index_skip(s.drop_first(), c, i - 1);
    }
}

/// The endpoint as a report shows it: what precedes the first `@` (user
/// and password of a URL) is replaced by `redacted`.
pub fn redact_endpoint(endpoint: &str) -> (r: String)
    ensures
        r@ == redacted(endpoint@),
{
    let n = endpoint.unicode_len();
    let mut i: usize = 0;
    while i < n && endpoint.get_char(i) != '@'
        invariant
            n == endpoint@.len(),
            i <= n,
            forall|k: int| 0 <= k < i ==> endpoint@[k] != '@',
        decreases n - i,
    {
        i = i + 1;
    }
    proof {
        lemma_first_index_skip(endpoint@, '@', i as int);
        let rest = endpoint@.subrange(i as int, n as int);
        if i < n {
            assert(rest[0] == '@');
        } else {
            assert(rest.len() == 0);
        }
    }
    if i < n {
        let mut r = owned("redacted");
        r.append(endpoint.substring_char(i, n));
        r
    } else {
        owned(endpoint)
    }
}

} // verus!
