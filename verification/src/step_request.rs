//! The maze step requests: the model, the state the caller writes, and the
//! move question (with the progress question in the feature context).
use vstd::prelude::*;
use crate::features::{
    feature_instructions_text, move_features, neighbor_feature, open_count_of, open_options, options_view,
    walled_options, MoveFeatures, NeighborFeature, MAX_FEATURE_SPAN,
};
use crate::maze::{situation_label, Maze};
use crate::navigation::{MoveSummary, Navigation, SpatialMemory};
use crate::spatial_prompt::{move_description_text, spatial_question, FLOOD_PROMPT, SPATIAL_PROMPT};
use crate::protocol::{
    criteria_entries, criteria_insert, criteria_map_new, question_entries, question_insert, question_map_new,
    Question, SystemOneRequest,
};
use crate::record::{action_label, action_name};
use crate::text::owned;
use crate::trajectory_memory::{direction_index, lemma_direction_labels};

verus! {

/// The question that asks whether some open neighbor brings the walker
/// nearer to the exit.
pub const PROGRESS_QUESTION: &'static str = "Is there at least one open neighbor that reduces manhattan distance to the exit?";

/// The move instructions of the minimal context.
pub const MINIMAL_PROMPT: &'static str = "Choose the next move through the maze.";

/// Options with each description present.
pub open spec fn described(o: Seq<(Seq<char>, Seq<char>)>) -> Seq<(Seq<char>, Option<Seq<char>>)> {
    Seq::new(o.len(), |i: int| (o[i].0, Some(o[i].1)))
}

/// The options of the minimal context: each direction, described by name.
pub open spec fn minimal_options() -> Seq<(Seq<char>, Option<Seq<char>>)> {
    Seq::new(4, |d: int| (action_label(d as u8), Some("Move "@ + action_label(d as u8))))
}

/// The four neighbors of `(x, y)` as the feature context sees them.
pub open spec fn neighbors_of(maze: Maze, visits: Seq<u32>, x: int, y: int) -> Seq<NeighborFeature> {
    Seq::new(4, |d: int| neighbor_feature(maze, visits, x, y, d))
}

/// The options that the feature context offers at `(x, y)`.
pub open spec fn feature_options(maze: Maze, visits: Seq<u32>, x: int, y: int) -> Seq<(Seq<char>, Seq<char>)> {
    let fs = neighbors_of(maze, visits, x, y);
    if open_count_of(fs, 4) == 0 {
        walled_options()
    } else {
        open_options(fs, 4)
    }
}

/// Labels that name directions in increasing direction order.
pub open spec fn labels_in_direction_order(o: Seq<(Seq<char>, Seq<char>)>, k: int) -> bool {
    &&& forall|i: int| 0 <= i < o.len() ==> 0 <= #[trigger] direction_index(o[i].0) < k
    &&& forall|i: int, j: int| 0 <= i < j < o.len() ==> direction_index(#[trigger] o[i].0) < direction_index(#[trigger] o[j].0)
}

proof fn lemma_open_options_ordered(fs: Seq<NeighborFeature>, k: int)
    requires
        0 <= k <= 4,
        forall|d: u8| d < 4 ==> #[trigger] direction_index(action_label(d)) == d,
    ensures
        labels_in_direction_order(open_options(fs, k), k),
    decreases k,
{
    if k > 0 {
        lemma_open_options_ordered(fs, k - 1);
        assert(direction_index(action_label((k - 1) as u8)) == k - 1);
    }
}

/// Distinct labels, in order.
proof fn lemma_ordered_labels_distinct(o: Seq<(Seq<char>, Seq<char>)>, k: int)
    requires
        labels_in_direction_order(o, k),
    ensures
        forall|i: int, j: int| 0 <= i < j < o.len() ==> o[i].0 != o[j].0,
{
    assert forall|i: int, j: int| 0 <= i < j < o.len() implies o[i].0 != o[j].0 by {
        assert(direction_index(o[i].0) < direction_index(o[j].0));
    }
}

/// A choice map with the options of `options` in order, each described.
fn choice_options(options: &Vec<(String, String)>) -> (r: indexmap::IndexMap<String, Option<String>>)
    requires
        forall|i: int, j: int| 0 <= i < j < options@.len() ==> options@[i].0@ != options@[j].0@,
    ensures
        criteria_entries(r) == described(options_view(options@)),
{
    let mut m = criteria_map_new();
    let mut i: usize = 0;
    while i < options.len()
        invariant
            i <= options@.len(),
            forall|a: int, b: int| 0 <= a < b < options@.len() ==> options@[a].0@ != options@[b].0@,
            criteria_entries(m) =~= described(options_view(options@)).take(i as int),
        decreases options@.len() - i,
    {
        let (label, text) = (&options[i].0, &options[i].1);
        proof {
            assert forall|j: int| 0 <= j < criteria_entries(m).len() implies #[trigger] criteria_entries(m)[j].0 != label@ by {
                assert(criteria_entries(m)[j].0 == options@[j].0@);
            }
        }
        criteria_insert(&mut m, label.clone(), Some(text.clone()));
        proof {
            assert(criteria_entries(m) =~= described(options_view(options@)).take(i as int + 1));
        }
        i = i + 1;
    }
    proof {
        assert(described(options_view(options@)).take(options@.len() as int) =~= described(options_view(options@)));
    }
    m
}

/// The step request of the feature context at `(x, y)`: the move question
/// with the instructions and options of the surroundings, then the progress
/// question; the state is the caller's.
pub fn feature_step_request(
    model: &str,
    maze: &Maze,
    x: usize,
    y: usize,
    visits: &[u32],
    state: serde_json::Value,
) -> (r: SystemOneRequest)
    requires
        maze.well_formed(),
        maze.width + maze.height <= MAX_FEATURE_SPAN,
        maze.exit[0] < maze.width,
        maze.exit[1] < maze.height,
        x < maze.width,
        y < maze.height,
        visits@.len() == maze.width * maze.height,
    ensures
        r.model@ == model@,
        r.state == state,
        question_entries(r.questions).len() == 2,
        question_entries(r.questions)[0].0 == "move"@,
        question_entries(r.questions)[0].1 matches Question::Choice { instructions: Some(i), criteria: c }
            && i@ == feature_instructions_text(situation_label(open_count_of(neighbors_of(*maze, visits@, x as int, y as int), 4) as usize))
            && criteria_entries(c) == described(feature_options(*maze, visits@, x as int, y as int)),
        question_entries(r.questions)[1].0 == "progress_available"@,
        question_entries(r.questions)[1].1 matches Question::Noul { instructions: Some(i), criteria: None }
            && i@ == PROGRESS_QUESTION@,
{
    let f: MoveFeatures = move_features(maze, x, y, visits);
    let ghost fs = neighbors_of(*maze, visits@, x as int, y as int);
    proof {
        assert(f.neighbors@ =~= fs);
        lemma_direction_labels();
        lemma_open_options_ordered(fs, 4);
        lemma_ordered_labels_distinct(open_options(fs, 4), 4);
        reveal_strlit("UP");
        reveal_strlit("RIGHT");
        reveal_strlit("DOWN");
        reveal_strlit("LEFT");
        assert(direction_index(action_label(0)) == 0);
        assert(direction_index(action_label(1)) == 1);
        assert(direction_index(action_label(2)) == 2);
        assert(direction_index(action_label(3)) == 3);
        assert(labels_in_direction_order(walled_options(), 4));
        lemma_ordered_labels_distinct(walled_options(), 4);
        assert forall|i: int, j: int| 0 <= i < j < f.criteria@.len() implies f.criteria@[i].0@ != f.criteria@[j].0@ by {
            assert(options_view(f.criteria@)[i].0 == f.criteria@[i].0@);
            assert(options_view(f.criteria@)[j].0 == f.criteria@[j].0@);
        }
    }
    let criteria = choice_options(&f.criteria);
    let mut questions = question_map_new();
    question_insert(&mut questions, owned("move"), Question::Choice { instructions: Some(f.instructions), criteria });
    proof {
        reveal_strlit("move");
        reveal_strlit("progress_available");
        assert("move"@[0] != "progress_available"@[0]);
    }
    question_insert(
        &mut questions,
        owned("progress_available"),
        Question::Noul { instructions: Some(owned(PROGRESS_QUESTION)), criteria: None },
    );
    SystemOneRequest { model: owned(model), state, questions }
}

/// The step request of the minimal context: one move question over the
/// four directions; the state is the caller's.
pub fn minimal_step_request(model: &str, state: serde_json::Value) -> (r: SystemOneRequest)
    ensures
        r.model@ == model@,
        r.state == state,
        question_entries(r.questions).len() == 1,
        question_entries(r.questions)[0].0 == "move"@,
        question_entries(r.questions)[0].1 matches Question::Choice { instructions: Some(i), criteria: c }
            && i@ == MINIMAL_PROMPT@ && criteria_entries(c) == minimal_options(),
{
    let mut options: Vec<(String, String)> = Vec::new();
    let mut d: u8 = 0;
    while d < 4
        invariant
            d <= 4,
            options@.len() == d,
            forall|k: int| 0 <= k < d ==> (#[trigger] options@[k]).0@ == action_label(k as u8)
                && options@[k].1@ == "Move "@ + action_label(k as u8),
        decreases 4 - d,
    {
        let name = action_name(d);
        let mut text = owned("Move ");
        text.append(name);
        options.push((owned(name), text));
        d = d + 1;
    }
    proof {
        lemma_direction_labels();
        assert forall|i: int, j: int| 0 <= i < j < options@.len() implies options@[i].0@ != options@[j].0@ by {
            assert(direction_index(action_label(i as u8)) == i);
            assert(direction_index(action_label(j as u8)) == j);
        }
    }
    let criteria = choice_options(&options);
    proof {
        assert(described(options_view(options@)) =~= minimal_options());
    }
    let mut questions = question_map_new();
    question_insert(&mut questions, owned("move"), Question::Choice { instructions: Some(owned(MINIMAL_PROMPT)), criteria });
    SystemOneRequest { model: owned(model), state, questions }
}


/// Moves listed in increasing direction order, each one of the four.
pub open spec fn directions_increasing(moves: Seq<MoveSummary>) -> bool {
    &&& forall|i: int| 0 <= i < moves.len() ==> (#[trigger] moves[i]).direction < 4
    &&& forall|i: int, j: int| 0 <= i < j < moves.len() ==> (#[trigger] moves[i]).direction < (#[trigger] moves[j]).direction
}

/// A spatial memory lists its moves in direction order.
pub proof fn lemma_move_summaries_in_direction_order(nav: Navigation, i: int, field: Option<Seq<usize>>, k: int)
    requires
        0 <= k <= 4,
    ensures
        directions_increasing(nav.move_summaries(i, field, k)),
        forall|m: int| 0 <= m < nav.move_summaries(i, field, k).len() ==> (#[trigger] nav.move_summaries(i, field, k)[m]).direction < k,
    decreases k,
{
    if k > 0 {
        lemma_move_summaries_in_direction_order(nav, i, field, k - 1);
    }
}

/// The options of a spatial memory's move question.
pub open spec fn spatial_options(moves: Seq<MoveSummary>, flood: bool) -> Seq<(Seq<char>, Seq<char>)> {
    Seq::new(moves.len(), |k: int| (action_label(moves[k].direction), move_description_text(moves[k], flood)))
}

/// The questions that a spatial-memory step is sent with: one move question
/// with the strategy's instructions and a described option per listed move.
pub fn spatial_move_questions(memory: &SpatialMemory, flood: bool) -> (r: indexmap::IndexMap<String, Question>)
    requires
        directions_increasing(memory.moves@),
    ensures
        question_entries(r).len() == 1,
        question_entries(r)[0].0 == "move"@,
        question_entries(r)[0].1 matches Question::Choice { instructions: Some(i), criteria: c }
            && i@ == (if flood { FLOOD_PROMPT@ } else { SPATIAL_PROMPT@ })
            && criteria_entries(c) == described(spatial_options(memory.moves@, flood)),
{
    let (instructions, options) = spatial_question(memory, flood);
    proof {
        lemma_direction_labels();
        assert forall|i: int, j: int| 0 <= i < j < options@.len() implies options@[i].0@ != options@[j].0@ by {
            assert(options@[i].0@ == action_label(memory.moves@[i].direction));
            assert(options@[j].0@ == action_label(memory.moves@[j].direction));
            assert(direction_index(action_label(memory.moves@[i].direction)) == memory.moves@[i].direction);
            assert(direction_index(action_label(memory.moves@[j].direction)) == memory.moves@[j].direction);
        }
        assert(options_view(options@) =~= spatial_options(memory.moves@, flood)) by {
            assert forall|k: int| 0 <= k < options@.len() implies options_view(options@)[k] == spatial_options(memory.moves@, flood)[k] by {
                assert(options@[k].0@ == action_label(memory.moves@[k].direction));
            }
        }
    }
    let criteria = choice_options(&options);
    let mut questions = question_map_new();
    question_insert(&mut questions, owned("move"), Question::Choice { instructions: Some(owned(instructions)), criteria });
    questions
}

} // verus!
