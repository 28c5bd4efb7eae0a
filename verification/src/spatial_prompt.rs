//! The move question that the spatial memory of the online solver is sent
//! with: the instructions of each strategy and the description of each
//! open move; and the rule-based strategy that picks from the same moves.
use vstd::prelude::*;
use crate::navigation::{MoveSummary, SpatialMemory};
use crate::record::{action_label, action_name};
use crate::text::{decimal, owned, push_decimal};

verus! {

/// The text of a truth value.
pub open spec fn bool_text(b: bool) -> Seq<char> {
    if b {
        "true"@
    } else {
        "false"@
    }
}

/// The text of an optional count, as `{:?}` writes it.
pub open spec fn optional_count_text(o: Option<usize>) -> Seq<char> {
    match o {
        Some(n) => "Some("@ + decimal(n as nat) + ")"@,
        None => "None"@,
    }
}

/// The description of one move option: with the flood field its distance
/// and slope first, else its traversal count first.
pub open spec fn move_description_text(m: MoveSummary, flood: bool) -> Seq<char> {
    if flood {
        "BFS distance="@ + optional_count_text(m.distance_to_exit) + "; downhill="@ + bool_text(
            m.downhill == Some(true),
        ) + "; explored="@ + bool_text(m.explored) + "; visits="@ + decimal(m.visits as nat) + "; traversals="@
            + decimal(m.edge_traversals as nat)
            + ". Minimize BFS distance first, then prefer unexplored and less visited cells."@
    } else {
        "Edge traversals="@ + decimal(m.edge_traversals as nat) + "; explored="@ + bool_text(m.explored)
            + "; visits="@ + decimal(m.visits as nat) + "; unexplored exits="@ + optional_count_text(
            m.unexplored_exits,
        ) + ". Prefer the least-traversed edge; on ties prefer unexplored cells or unexplored branches."@
    }
}

fn push_bool(s: &mut String, b: bool)
    ensures
        final(s)@ == old(s)@ + bool_text(b),
{
    if b {
        s.append("true");
    } else {
        s.append("false");
    }
}

fn push_optional_count(s: &mut String, o: Option<usize>)
    ensures
        final(s)@ == old(s)@ + optional_count_text(o),
{
    match o {
        Some(n) => {
            s.append("Some(");
            push_decimal(s, n as u64);
            s.append(")");
        },
        None => s.append("None"),
    }
}

/// The description of one move option.
pub fn move_description(m: &MoveSummary, flood: bool) -> (r: String)
    ensures
        r@ == move_description_text(*m, flood),
{
    if flood {
        let mut r = owned("BFS distance=");
        push_optional_count(&mut r, m.distance_to_exit);
        r.append("; downhill=");
        push_bool(&mut r, m.downhill == Some(true));
        r.append("; explored=");
        push_bool(&mut r, m.explored);
        r.append("; visits=");
        push_decimal(&mut r, m.visits as u64);
        r.append("; traversals=");
        push_decimal(&mut r, m.edge_traversals as u64);
        r.append(". Minimize BFS distance first, then prefer unexplored and less visited cells.");
        r
    } else {
        let mut r = owned("Edge traversals=");
        push_decimal(&mut r, m.edge_traversals as u64);
        r.append("; explored=");
        push_bool(&mut r, m.explored);
        r.append("; visits=");
        push_decimal(&mut r, m.visits as u64);
        r.append("; unexplored exits=");
        push_optional_count(&mut r, m.unexplored_exits);
        r.append(". Prefer the least-traversed edge; on ties prefer unexplored cells or unexplored branches.");
        r
    }
}

/// The move instructions of the flood-fill strategy.
pub const FLOOD_PROMPT: &'static str = "Follow the flood_fill rule exactly. Choose the minimum finite BFS distance among moves; break equal-distance ties by unexplored first, then fewer visits, then fewer traversals. A visited cell may be required to detour around walls. Return the direction label.";

/// The move instructions of the spatial-memory strategy.
pub const SPATIAL_PROMPT: &'static str = "Use spatial memory. Choose the legal edge with the LOWEST edge_traversals to stop repeating loops. Among equal counts prefer an unexplored neighbor, then one with unexplored_exits, then lower visits. Never prefer closeness to the exit over exploration. Backtracking is allowed when required; do not repeatedly follow a highly traversed edge while another is less traversed. Return the direction label.";

/// The move question of a spatial memory: the instructions of the strategy
/// and, for each open move in direction order, its label and description.
pub fn spatial_question(memory: &SpatialMemory, flood: bool) -> (r: (&'static str, Vec<(String, String)>))
    ensures
        r.0@ == (if flood { FLOOD_PROMPT@ } else { SPATIAL_PROMPT@ }),
        r.1@.len() == memory.moves@.len(),
        forall|k: int|
            0 <= k < memory.moves@.len() ==> {
                &&& (#[trigger] r.1@[k]).0@ == action_label(memory.moves@[k].direction)
                &&& r.1@[k].1@ == move_description_text(memory.moves@[k], flood)
            },
{
    let mut options: Vec<(String, String)> = Vec::new();
    let mut k: usize = 0;
    while k < memory.moves.len()
        invariant
            k <= memory.moves@.len(),
            options@.len() == k,
            forall|j: int|
                0 <= j < k ==> {
                    &&& (#[trigger] options@[j]).0@ == action_label(memory.moves@[j].direction)
                    &&& options@[j].1@ == move_description_text(memory.moves@[j], flood)
                },
        decreases memory.moves@.len() - k,
    {
        let m = &memory.moves[k];
        options.push((owned(action_name(m.direction)), move_description(m, flood)));
        k = k + 1;
    }
    let instructions = if flood {
        FLOOD_PROMPT
    } else {
        SPATIAL_PROMPT
    };
    (instructions, options)
}



/// A neighbor with known-open exits toward unobserved cells.
pub open spec fn has_frontier(m: MoveSummary) -> bool {
    m.unexplored_exits matches Some(k) && k > 0
}

/// The rank of a move for the rule-based strategy, smaller first: fewer
/// edge traversals, then an unexplored neighbor, then a neighbor with
/// unexplored exits, then fewer visits.
pub open spec fn rule_key(m: MoveSummary) -> int {
    m.edge_traversals * 0x4_0000_0000int + (if m.explored { 0x2_0000_0000int } else { 0int }) + (if has_frontier(m) {
        0int
    } else {
        0x1_0000_0000int
    }) + m.visits
}

fn rule_key_of(m: &MoveSummary) -> (r: u128)
    ensures
        r == rule_key(*m),
{
    let frontier = match m.unexplored_exits {
        Some(k) => k > 0,
        None => false,
    };
    (m.edge_traversals as u128) * 0x4_0000_0000u128 + (if m.explored { 0x2_0000_0000u128 } else { 0u128 }) + (if frontier {
        0u128
    } else {
        0x1_0000_0000u128
    }) + (m.visits as u128)
}

/// The move of the rule-based strategy: the listed move of least rank, the
/// first in direction order among equals; none when no move is listed.
pub fn rules_move(memory: &SpatialMemory) -> (r: Option<u8>)
    ensures
        memory.moves@.len() == 0 ==> r is None,
        memory.moves@.len() > 0 ==> exists|k: int| {
            &&& 0 <= k < memory.moves@.len()
            &&& r == Some(memory.moves@[k].direction)
            &&& forall|j: int| 0 <= j < k ==> rule_key(memory.moves@[k]) < #[trigger] rule_key(memory.moves@[j])
            &&& forall|j: int| k < j < memory.moves@.len() ==> rule_key(memory.moves@[k]) <= #[trigger] rule_key(memory.moves@[j])
        },
{
    let n = memory.moves.len();
    if n == 0 {
        return None;
    }
    let mut best: usize = 0;
    let mut best_key = rule_key_of(&memory.moves[0]);
    let mut j: usize = 1;
    while j < n
        invariant
            n == memory.moves@.len(),
            1 <= j <= n,
            best < j,
            best_key == rule_key(memory.moves@[best as int]),
            forall|i: int| 0 <= i < best ==> best_key < #[trigger] rule_key(memory.moves@[i]),
            forall|i: int| best < i < j ==> best_key <= #[trigger] rule_key(memory.moves@[i]),
        decreases n - j,
    {
        let key = rule_key_of(&memory.moves[j]);
        if key < best_key {
            best = j;
            best_key = key;
        }
        j = j + 1;
    }
    Some(memory.moves[best].direction)
}

} // verus!
