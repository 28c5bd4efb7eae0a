//! The long-history memory: the observed walls and counts of the online
//! solver, plus every transition of the walk in order.
use vstd::prelude::*;
use crate::grid::nearest_listing;
use crate::maze::CellWalls;
use crate::navigation::Navigation;
use crate::protocol::{
    criteria_count, criteria_entries, criteria_index, criteria_slot, json_field, json_is_object, json_keys, json_put,
    json_take, question_entries, question_index, question_remove, question_slot, Question,
    SystemOneRequest,
};
use crate::record::{action_label, action_name};
use crate::text::{decimal, owned, push_decimal, remove_all, without};
use indexmap::IndexMap;
use std::collections::VecDeque;

verus! {

/// One transition of the walk.
#[derive(Debug, Clone, Copy, PartialEq, Eq)]
pub struct Transition {
    pub from: [usize; 2],
    pub action: u8,
    pub to: [usize; 2],
    pub collision: bool,
}

/// One observed cell as the long-history memory lists it.
#[derive(Debug, Clone, Copy, PartialEq, Eq)]
pub struct KnownCell {
    pub x: usize,
    pub y: usize,
    pub visits: u32,
    pub walls: [Option<bool>; 4],
    pub departures: [u32; 4],
}

/// The long-history memory projected for one decision.
#[derive(Debug, Clone)]
pub struct HistoryView {
    pub total_decisions: usize,
    pub observed_cells: usize,
    pub transitions: Vec<Transition>,
    /// The observed cells nearest to the current one, at most `MAP_LIMIT`.
    pub nearby: Vec<KnownCell>,
    pub map_truncated: bool,
    pub departures_here: [u32; 4],
}

/// How many observed cells the long-history memory lists.
pub const MAP_LIMIT: usize = 64;

/// The solver's memory and the full transition history of a walk.
pub struct TrajectoryMemory {
    nav: Navigation,
    recent: VecDeque<Transition>,
}

impl TrajectoryMemory {
    /// The memory of observed walls and counts.
    pub closed spec fn spatial(&self) -> Navigation {
        self.nav
    }

    /// Every transition so far, oldest first.
    pub closed spec fn history(&self) -> Seq<Transition> {
        self.recent@
    }

    pub open spec fn wf(&self) -> bool {
        self.spatial().wf()
    }

    pub fn new(width: usize, height: usize) -> (r: Self)
        requires
            width * height <= usize::MAX,
        ensures
            r.wf(),
            r.spatial().width_spec() == width,
            r.spatial().height_spec() == height,
            r.spatial().decision_count() == 0,
            r.history().len() == 0,
    {
        TrajectoryMemory { nav: Navigation::new(width, height), recent: VecDeque::new() }
    }

    /// Learn the walls of the current cell, as the online solver does.
    pub fn observe(&mut self, x: usize, y: usize, walls: CellWalls)
        requires
            old(self).wf(),
            x < old(self).spatial().width_spec(),
            y < old(self).spatial().height_spec(),
        ensures
            final(self).wf(),
            final(self).history() == old(self).history(),
            final(self).spatial().width_spec() == old(self).spatial().width_spec(),
            final(self).spatial().height_spec() == old(self).spatial().height_spec(),
            final(self).spatial().decision_count() == old(self).spatial().decision_count(),
            final(self).spatial().is_observed(y * old(self).spatial().width_spec() + x),
            forall|d: int| 0 <= d < 4 ==> #[trigger] final(self).spatial().wall(y * old(self).spatial().width_spec() + x, d) == Some(walls.side(d)),
            forall|a: int| 0 <= a < old(self).spatial().cells() && a != y * old(self).spatial().width_spec() + x
                ==> #[trigger] final(self).spatial().is_observed(a) == old(self).spatial().is_observed(a),
    {
        self.nav.observe(x, y, walls);
    }

    /// Record a decision: the counts as the online solver keeps them, and the
    /// transition at the end of the history.
    pub fn record(&mut self, from: [usize; 2], to: [usize; 2], action: u8, collision: bool)
        requires
            old(self).wf(),
            action < 4 ==> from[0] < old(self).spatial().width_spec() && from[1] < old(self).spatial().height_spec(),
            old(self).spatial().decision_count() < usize::MAX,
        ensures
            final(self).wf(),
            final(self).history() == old(self).history().push(Transition { from, action, to, collision }),
            final(self).spatial().width_spec() == old(self).spatial().width_spec(),
            final(self).spatial().height_spec() == old(self).spatial().height_spec(),
            final(self).spatial().decision_count() == old(self).spatial().decision_count() + 1,
            final(self).spatial().observed_seq() == old(self).spatial().observed_seq(),
            forall|a: int, e: int|
                0 <= a < old(self).spatial().cells() && 0 <= e < 4 ==> #[trigger] final(self).spatial().departures(a, e) == if action < 4 && a == from[1] * old(self).spatial().width_spec() + from[0] && e == action {
                    if old(self).spatial().departures(a, e) == u32::MAX { u32::MAX } else { (old(self).spatial().departures(a, e) + 1) as u32 }
                } else {
                    old(self).spatial().departures(a, e)
                },
    {
        self.nav.record(from, to, action, collision);
        self.recent.push_back(Transition { from, action, to, collision });
    }

    /// What one decision at `(x, y)` is told: the decision and observation
    /// counts, the whole history, the nearest observed cells, and the
    /// departures from the current cell.
    pub fn view(&self, x: usize, y: usize) -> (r: HistoryView)
        requires
            self.wf(),
            x < self.spatial().width_spec(),
            y < self.spatial().height_spec(),
        ensures
            r.total_decisions == self.spatial().decision_count(),
            r.observed_cells == crate::grid::count_true(self.spatial().observed_seq()),
            r.transitions@ == self.history(),
            r.map_truncated == (r.observed_cells > MAP_LIMIT),
            r.departures_here == self.spatial().departure_row(y * self.spatial().width_spec() + x),
            exists|listing: Seq<usize>| {
                &&& nearest_listing(self.spatial().observed_seq(), self.spatial().width_spec(), x as int, y as int, MAP_LIMIT as int, listing)
                &&& r.nearby@.len() == listing.len()
                &&& forall|k: int| 0 <= k < listing.len() ==> #[trigger] known_cell_of(self.spatial(), listing[k] as int, r.nearby@[k])
            },
    {
        let w = self.nav.width();
        proof {
            crate::navigation::lemma_observed_len(self.spatial());
            assert(y * w + x < self.spatial().cells()) by (nonlinear_arith)
                requires
                    x < w,
                    y < self.spatial().height_spec(),
                    w == self.spatial().width_spec(),
                    self.spatial().cells() == self.spatial().width_spec() * self.spatial().height_spec(),
            {
                assert((y + 1) * w <= self.spatial().height_spec() * w);
            }
        }
        let listing = self.nav.nearby_cells(x, y, MAP_LIMIT);
        let mut nearby: Vec<KnownCell> = Vec::new();
        let mut k: usize = 0;
        while k < listing.len()
            invariant
                self.wf(),
                w == self.spatial().width_spec(),
                nearest_listing(self.spatial().observed_seq(), self.spatial().width_spec(), x as int, y as int, MAP_LIMIT as int, listing@),
                k <= listing@.len(),
                nearby@.len() == k,
                forall|m: int| 0 <= m < k ==> #[trigger] known_cell_of(self.spatial(), listing@[m] as int, nearby@[m]),
            decreases listing@.len() - k,
        {
            let j = listing[k];
            proof {
                assert(listing@[k as int] < self.spatial().observed_seq().len());
                assert(self.spatial().observed_seq().len() == self.spatial().cells()) by {
                    crate::navigation::lemma_observed_len(self.spatial());
                }
            }
            let cell = KnownCell {
                x: j % w,
                y: j / w,
                visits: self.nav.visits_of(j),
                walls: self.nav.known_walls(j),
                departures: self.nav.departures_of(j),
            };
            nearby.push(cell);
            k = k + 1;
        }
        let mut transitions: Vec<Transition> = Vec::new();
        let mut t: usize = 0;
        while t < self.recent.len()
            invariant
                t <= self.recent@.len(),
                transitions@ == self.recent@.take(t as int),
            decreases self.recent@.len() - t,
        {
            transitions.push(self.recent[t]);
            proof {
                assert(self.recent@.take(t as int + 1) =~= self.recent@.take(t as int).push(self.recent@[t as int]));
            }
            t = t + 1;
        }
        proof {
            assert(self.recent@.take(self.recent@.len() as int) =~= self.recent@);
        }
        let total = self.nav.observed_count();
        HistoryView {
            total_decisions: self.nav.decisions(),
            observed_cells: total,
            transitions,
            nearby,
            map_truncated: total > MAP_LIMIT,
            departures_here: self.nav.departures_of(y * w + x),
        }
    }
}

/// `c` lists observed cell `j` of `nav`.
pub open spec fn known_cell_of(nav: Navigation, j: int, c: KnownCell) -> bool {
    &&& c.x == j % nav.width_spec()
    &&& c.y == j / nav.width_spec()
    &&& c.visits == nav.visit_count(j)
    &&& forall|d: int| 0 <= d < 4 ==> #[trigger] c.walls@[d] == nav.wall(j, d)
    &&& c.departures == nav.departure_row(j)
}


/// The sentence that tells a move brings the walker nearer to the exit.
pub const CLOSER_NOTE: &'static str = " This step reduces manhattan distance to the exit.";

/// The sentence that tells a move does not bring the walker nearer.
pub const NOT_CLOSER_NOTE: &'static str = " This step does not reduce manhattan distance to the exit.";

/// The move instructions that leave the strategy to the model.
pub const FREE_STRATEGY_PROMPT: &'static str = "Choose a legal move using the trajectory and explored map. Avoid repeating loops and repeatedly traversing the same edge. Prefer unexplored branches; backtrack through explored cells when necessary to reach an unexplored branch. Choose the strategy you judge most effective for reaching the exit based on the complete history and known map. You are not required to reduce distance to the exit on each move; moving away from it is allowed whenever you judge that useful. Use prior transitions to recognize failed detours. Never choose a wall.";

/// A move description without the two distance sentences.
pub open spec fn without_distance_note(d: Seq<char>) -> Seq<char> {
    without(without(d, CLOSER_NOTE@), NOT_CLOSER_NOTE@)
}

/// The options of a choice, each description without the distance sentences.
pub open spec fn descriptions_without_distance(
    e: Seq<(Seq<char>, Option<Seq<char>>)>,
) -> Seq<(Seq<char>, Option<Seq<char>>)> {
    Seq::new(
        e.len(),
        |k: int|
            (
                e[k].0,
                match e[k].1 {
                    Some(d) => Some(without_distance_note(d)),
                    None => None,
                },
            ),
    )
}

/// `t` is the JSON value `s` without its field `key`; a value that is no
/// object stays as it is.
pub open spec fn json_without_field(s: serde_json::Value, t: serde_json::Value, key: Seq<char>) -> bool {
    if json_is_object(s) {
        &&& json_is_object(t)
        &&& forall|k: Seq<char>|
            #[trigger] json_field(t, k) == if k == key {
                None
            } else {
                json_field(s, k)
            }
    } else {
        t == s
    }
}

/// An entry of the neighbor table, before and after: present in both, and
/// without the field `closer_to_exit` after.
pub open spec fn entry_without_closeness(a: Option<serde_json::Value>, b: Option<serde_json::Value>) -> bool {
    match a {
        Some(x) => b matches Some(y) && json_without_field(x, y, "closer_to_exit"@),
        None => b is None,
    }
}

/// `m` is the neighbor table `n` with no `closer_to_exit` in its entries.
pub open spec fn neighbors_without_closeness(n: serde_json::Value, m: serde_json::Value) -> bool {
    if json_is_object(n) {
        &&& json_is_object(m)
        &&& forall|k: Seq<char>| #[trigger] entry_without_closeness(json_field(n, k), json_field(m, k))
    } else {
        m == n
    }
}

/// `t` is the maze state `s` without the distance guidance: no `goal`, and
/// no `closer_to_exit` in the neighbor table; every other field stays.
pub open spec fn state_without_guidance(s: serde_json::Value, t: serde_json::Value) -> bool {
    if json_is_object(s) {
        &&& json_is_object(t)
        &&& json_field(t, "goal"@) is None
        &&& forall|k: Seq<char>|
            k != "goal"@ && k != "neighbors"@ ==> #[trigger] json_field(t, k) == json_field(s, k)
        &&& match json_field(s, "neighbors"@) {
            Some(n) => json_field(t, "neighbors"@) matches Some(m) && neighbors_without_closeness(n, m),
            None => json_field(t, "neighbors"@) is None,
        }
    } else {
        t == s
    }
}

/// `after` is `before` with the question of id `key` changed as `rel` says;
/// every other entry, and every id, stays.
pub open spec fn entry_changed(
    before: Seq<(Seq<char>, Question)>,
    after: Seq<(Seq<char>, Question)>,
    key: Seq<char>,
    rel: spec_fn(Question, Question) -> bool,
) -> bool {
    &&& after.len() == before.len()
    &&& forall|j: int|
        0 <= j < before.len() ==> {
            &&& (#[trigger] after[j]).0 == before[j].0
            &&& if before[j].0 == key {
                rel(before[j].1, after[j].1)
            } else {
                after[j].1 == before[j].1
            }
        }
}

/// A choice with the distance sentences taken out of its descriptions; any
/// other question stays.
pub open spec fn choice_without_distance(q: Question, r: Question) -> bool {
    match q {
        Question::Choice { instructions, criteria } => r matches Question::Choice {
            instructions: i2,
            criteria: c2,
        } && i2 == instructions && criteria_entries(c2) == descriptions_without_distance(
            criteria_entries(criteria),
        ),
        _ => r == q,
    }
}

/// A choice with `text` as its instructions; any other question stays.
pub open spec fn choice_with_instructions(q: Question, r: Question, text: Seq<char>) -> bool {
    match q {
        Question::Choice { criteria, .. } => r matches Question::Choice {
            instructions: Some(i2),
            criteria: c2,
        } && i2@ == text && c2 == criteria,
        _ => r == q,
    }
}

/// Take the distance sentences out of every description of a choice.
fn strip_descriptions(c: &mut IndexMap<String, Option<String>>)
    ensures
        criteria_entries(*final(c)) == descriptions_without_distance(criteria_entries(*old(c))),
{
    let ghost before = criteria_entries(*c);
    let n = criteria_count(c);
    let mut i: usize = 0;
    while i < n
        invariant
            n == before.len(),
            i <= n,
            criteria_entries(*c).len() == n,
            forall|k: int| 0 <= k < i ==> #[trigger] criteria_entries(*c)[k] == descriptions_without_distance(before)[k],
            forall|k: int| i <= k < n ==> #[trigger] criteria_entries(*c)[k] == before[k],
        decreases n - i,
    {
        let slot = criteria_slot(c, i);
        let stripped = match &*slot {
            Some(d) => Some(remove_all(remove_all(d.as_str(), CLOSER_NOTE).as_str(), NOT_CLOSER_NOTE)),
            None => None,
        };
        *slot = stripped;
        i = i + 1;
    }
    proof {
        assert(criteria_entries(*c) =~= descriptions_without_distance(before));
    }
}

/// Take the distance guidance out of a maze state.
fn strip_state(state: &mut serde_json::Value)
    ensures
        state_without_guidance(*old(state), *final(state)),
{
    proof {
        reveal_strlit("goal");
        reveal_strlit("neighbors");
        assert("goal"@[0] != "neighbors"@[0]);
    }
    let _ = json_take(state, "goal");
    let taken = json_take(state, "neighbors");
    match taken {
        Some(table) => {
            let mut table = table;
            let ghost n0 = table;
            let keys = json_keys(&table);
            let mut i: usize = 0;
            while i < keys.len()
                invariant
                    forall|a: int, b: int| 0 <= a < b < keys@.len() ==> keys@[a]@ != keys@[b]@,
                    forall|a: int| 0 <= a < keys@.len() ==> (#[trigger] json_field(n0, keys@[a]@)) is Some,
                    i <= keys@.len(),
                    json_is_object(table) == json_is_object(n0),
                    !json_is_object(n0) ==> table == n0,
                    json_is_object(n0) ==> forall|k: Seq<char>|
                        (exists|j: int| 0 <= j < i && keys@[j]@ == k)
                            ==> #[trigger] entry_without_closeness(json_field(n0, k), json_field(table, k)),
                    json_is_object(n0) ==> forall|k: Seq<char>|
                        (forall|j: int| 0 <= j < i ==> keys@[j]@ != k)
                            ==> #[trigger] json_field(table, k) == json_field(n0, k),
                decreases keys@.len() - i,
            {
                let key = keys[i].clone();
                let item = json_take(&mut table, key.as_str());
                match item {
                    Some(entry) => {
                        let mut entry = entry;
                        let _ = json_take(&mut entry, "closer_to_exit");
                        json_put(&mut table, key, entry);
                    },
                    None => {},
                }
                i = i + 1;
            }
            proof {
                if json_is_object(n0) {
                    assert forall|k: Seq<char>| #[trigger] entry_without_closeness(json_field(n0, k), json_field(table, k)) by {
                        if json_field(n0, k) is Some {
                            assert(exists|j: int| 0 <= j < i && keys@[j]@ == k);
                        } else {
                            assert forall|j: int| 0 <= j < i implies keys@[j]@ != k by {
                                assert(json_field(n0, keys@[j]@) is Some);
                            }
                        }
                    }
                }
                assert(neighbors_without_closeness(n0, table));
            }
            json_put(state, owned("neighbors"), table);
        },
        None => {},
    }
}

/// The move instructions of the long-history memory.
pub const HISTORY_PROMPT: &'static str = "Choose a legal move using the trajectory and explored map. Avoid repeating loops and repeatedly traversing the same edge. Prefer unexplored branches; backtrack through explored cells when necessary to reach an unexplored branch. Manhattan distance is only a tie-breaker: moving away from the exit can be necessary. Use prior transitions to recognize failed detours. Never choose a wall.";

/// The direction that an option label names, or -1 for any other label.
pub open spec fn direction_index(label: Seq<char>) -> int {
    if label == "UP"@ {
        0
    } else if label == "RIGHT"@ {
        1
    } else if label == "DOWN"@ {
        2
    } else if label == "LEFT"@ {
        3
    } else {
        -1
    }
}

/// A description with the number of earlier departures in its direction
/// appended; a missing description counts as empty.
pub open spec fn departure_note(prior: Option<Seq<char>>, count: u32) -> Option<Seq<char>> {
    Some(
        match prior {
            Some(t) => t,
            None => Seq::<char>::empty(),
        } + " Previously departed this cell in this direction "@ + decimal(count as nat) + " time(s)."@,
    )
}

/// The options of a choice with the departures of the current cell noted on
/// each option that names a direction.
pub open spec fn options_with_departures(
    e: Seq<(Seq<char>, Option<Seq<char>>)>,
    departures: [u32; 4],
) -> Seq<(Seq<char>, Option<Seq<char>>)> {
    Seq::new(
        e.len(),
        |k: int|
            (
                e[k].0,
                if direction_index(e[k].0) >= 0 {
                    departure_note(e[k].1, departures[direction_index(e[k].0)])
                } else {
                    e[k].1
                },
            ),
    )
}

/// A choice with the long-history instructions and the departures noted on
/// its options; any other question stays.
pub open spec fn choice_with_departures(q: Question, r: Question, departures: [u32; 4]) -> bool {
    match q {
        Question::Choice { criteria, .. } => r matches Question::Choice {
            instructions: Some(i2),
            criteria: c2,
        } && i2@ == HISTORY_PROMPT@ && criteria_entries(c2) == options_with_departures(
            criteria_entries(criteria),
            departures,
        ),
        _ => r == q,
    }
}

pub(crate) proof fn lemma_direction_labels()
    ensures
        forall|d: u8| d < 4 ==> #[trigger] direction_index(action_label(d)) == d,
{
    reveal_strlit("UP");
    reveal_strlit("RIGHT");
    reveal_strlit("DOWN");
    reveal_strlit("LEFT");
    assert("UP"@[0] != "RIGHT"@[0]);
    assert("UP"@[0] != "DOWN"@[0]);
    assert("UP"@[0] != "LEFT"@[0]);
    assert("RIGHT"@[0] != "DOWN"@[0]);
    assert("RIGHT"@[0] != "LEFT"@[0]);
    assert("DOWN"@[0] != "LEFT"@[0]);
}

/// Note the departures on the direction options of a choice.
fn note_departures(c: &mut IndexMap<String, Option<String>>, departures: [u32; 4])
    ensures
        criteria_entries(*final(c)) == options_with_departures(criteria_entries(*old(c)), departures),
{
    let ghost before = criteria_entries(*c);
    proof {
        lemma_direction_labels();
    }
    let mut d: u8 = 0;
    while d < 4
        invariant
            d <= 4,
            forall|e: u8| e < 4 ==> #[trigger] direction_index(action_label(e)) == e,
            criteria_entries(*c).len() == before.len(),
            forall|k: int|
                0 <= k < before.len() ==> #[trigger] criteria_entries(*c)[k] == if 0 <= direction_index(
                    before[k].0,
                ) < d {
                    options_with_departures(before, departures)[k]
                } else {
                    before[k]
                },
        decreases 4 - d,
    {
        let label = action_name(d);
        match criteria_index(c, label) {
            Some(i) => {
                proof {
                    assert(direction_index(before[i as int].0) == d);
                }
                let slot = criteria_slot(c, i);
                let mut text = match &*slot {
                    Some(t) => t.clone(),
                    None => String::new(),
                };
                text.append(" Previously departed this cell in this direction ");
                push_decimal(&mut text, departures[d as usize] as u64);
                text.append(" time(s).");
                *slot = Some(text);
            },
            None => {},
        }
        proof {
            assert forall|k: int| 0 <= k < before.len() && direction_index(before[k].0) == d implies
                criteria_entries(*c)[k] == options_with_departures(before, departures)[k] by {
                assert(before[k].0 == action_label(d));
            }
        }
        d = d + 1;
    }
    proof {
        assert(criteria_entries(*c) =~= options_with_departures(before, departures));
    }
}

impl TrajectoryMemory {
    /// Take the distance guidance out of a maze request: the `goal` of the
    /// state, `closer_to_exit` of each neighbor, the question
    /// `progress_available`, and the distance sentences of the move options.
    pub fn remove_distance_guidance(req: &mut SystemOneRequest)
        ensures
            final(req).model == old(req).model,
            state_without_guidance(old(req).state, final(req).state),
            entry_changed(
                question_entries(old(req).questions).filter(
                    |e: (Seq<char>, Question)| e.0 != "progress_available"@,
                ),
                question_entries(final(req).questions),
                "move"@,
                |q: Question, r: Question| choice_without_distance(q, r),
            ),
    {
        strip_state(&mut req.state);
        question_remove(&mut req.questions, "progress_available");
        match question_index(&req.questions, "move") {
            Some(i) => {
                let slot = question_slot(&mut req.questions, i);
                match slot {
                    Question::Choice { criteria, .. } => strip_descriptions(criteria),
                    _ => {},
                }
            },
            None => {},
        }
    }

    /// Give the move question the long-history instructions, and note on
    /// each direction option how often the walk has left the current cell
    /// that way; the state and the other questions stay.
    pub fn annotate_move(req: &mut SystemOneRequest, departures_here: [u32; 4])
        ensures
            final(req).model == old(req).model,
            final(req).state == old(req).state,
            entry_changed(
                question_entries(old(req).questions),
                question_entries(final(req).questions),
                "move"@,
                |q: Question, r: Question| choice_with_departures(q, r, departures_here),
            ),
    {
        match question_index(&req.questions, "move") {
            Some(i) => {
                let slot = question_slot(&mut req.questions, i);
                match slot {
                    Question::Choice { instructions, criteria } => {
                        *instructions = Some(owned(HISTORY_PROMPT));
                        note_departures(criteria, departures_here);
                    },
                    _ => {},
                }
            },
            None => {},
        }
    }

    /// Give the move question the instructions that leave the strategy to
    /// the model; the state, the options and the other questions stay.
    pub fn use_free_strategy_prompt(req: &mut SystemOneRequest)
        ensures
            final(req).model == old(req).model,
            final(req).state == old(req).state,
            entry_changed(
                question_entries(old(req).questions),
                question_entries(final(req).questions),
                "move"@,
                |q: Question, r: Question| choice_with_instructions(q, r, FREE_STRATEGY_PROMPT@),
            ),
    {
        match question_index(&req.questions, "move") {
            Some(i) => {
                let slot = question_slot(&mut req.questions, i);
                match slot {
                    Question::Choice { instructions, .. } => {
                        *instructions = Some(owned(FREE_STRATEGY_PROMPT));
                    },
                    _ => {},
                }
            },
            None => {},
        }
    }
}

} // verus!
