//! What a maze request tells the model about its surroundings: for each
//! direction whether it is open, how often the cell there was visited, and
//! whether it leads closer to the exit; the legal moves as choice options.
use vstd::prelude::*;
use crate::maze::{abs_int, cell_index, move_outcome, situation_label, situation_name, Maze};
use crate::record::{action_label, action_name};
use crate::text::{decimal, owned, push_decimal};

verus! {

/// One direction seen from the current cell.
#[derive(Debug, Clone, Copy, PartialEq, Eq)]
pub struct NeighborFeature {
    pub open: bool,
    pub visited: u32,
    pub closer_to_exit: bool,
}

/// The surroundings of the current cell.
#[derive(Debug, Clone)]
pub struct MoveFeatures {
    /// Up, right, down, left.
    pub neighbors: Vec<NeighborFeature>,
    /// The choice options: the label and description of each open move, in
    /// direction order; all four with a note when none is open.
    pub criteria: Vec<(String, String)>,
    pub open_count: usize,
    pub situation: &'static str,
    pub instructions: String,
    pub east: i32,
    pub south: i32,
    pub manhattan: i32,
    pub visited_here: u32,
}

/// The largest sum of a maze's two sides whose distances, east and south
/// offsets and Manhattan distances, all fit the request's 32-bit numbers:
/// no two cells are further apart than `width - 1 + height - 1`.
pub const MAX_FEATURE_SPAN: usize = 0x8000_0001;

/// The Manhattan distance from `(x, y)` to the exit.
pub open spec fn distance_to_exit(maze: Maze, x: int, y: int) -> int {
    abs_int(maze.exit[0] - x) + abs_int(maze.exit[1] - y)
}

/// What direction `d` from `(x, y)` looks like.
pub open spec fn neighbor_feature(maze: Maze, visits: Seq<u32>, x: int, y: int, d: int) -> NeighborFeature {
    let o = move_outcome(maze.cells@, maze.width as int, maze.height as int, x, y, d);
    NeighborFeature {
        open: !o.2,
        visited: if o.2 { 0 } else { visits[cell_index(maze.width as int, o.0, o.1)] },
        closer_to_exit: !o.2 && distance_to_exit(maze, o.0, o.1) < distance_to_exit(maze, x, y),
    }
}

/// The description of an open move.
pub open spec fn open_move_text(f: NeighborFeature) -> Seq<char> {
    "Open neighbor. Visited "@ + decimal(f.visited as nat) + " time(s). This step "@ + (if f.closer_to_exit {
        "reduces manhattan distance to the exit"@
    } else {
        "does not reduce manhattan distance to the exit"@
    }) + "."@
}

/// The options of the open moves among the first `k` directions.
pub open spec fn open_options(fs: Seq<NeighborFeature>, k: int) -> Seq<(Seq<char>, Seq<char>)>
    decreases k,
{
    if k <= 0 {
        Seq::empty()
    } else if fs[k - 1].open {
        open_options(fs, k - 1).push((action_label((k - 1) as u8), open_move_text(fs[k - 1])))
    } else {
        open_options(fs, k - 1)
    }
}

/// The options when no move is open.
pub open spec fn walled_options() -> Seq<(Seq<char>, Seq<char>)> {
    let note = "No open neighbor; every direction is a wall."@;
    seq![(action_label(0), note), (action_label(1), note), (action_label(2), note), (action_label(3), note)]
}

/// The number of open directions among the first `k`.
pub open spec fn open_count_of(fs: Seq<NeighborFeature>, k: int) -> nat
    decreases k,
{
    if k <= 0 {
        0
    } else {
        open_count_of(fs, k - 1) + if fs[k - 1].open { 1nat } else { 0nat }
    }
}

/// The instructions of the move question at a cell of the given situation.
pub open spec fn feature_instructions_text(situation: Seq<char>) -> Seq<char> {
    "Pick one legal open direction. Prefer an open neighbor that reduces manhattan distance to the exit. If every closer cell is blocked or heavily visited, pick the least-visited open cell. At a "@
        + situation + ", never choose a wall."@
}

proof fn lemma_open_options_len(fs: Seq<NeighborFeature>, k: int)
    ensures
        open_options(fs, k).len() == open_count_of(fs, k),
    decreases k,
{
    if k > 0 {
        lemma_open_options_len(fs, k - 1);
    }
}

/// The instructions of the move question at a cell of the given situation.
fn feature_instructions(situation: &str) -> (r: String)
    ensures
        r@ == feature_instructions_text(situation@),
{
    let mut r = owned("Pick one legal open direction. Prefer an open neighbor that reduces manhattan distance to the exit. If every closer cell is blocked or heavily visited, pick the least-visited open cell. At a ");
    r.append(situation);
    r.append(", never choose a wall.");
    r
}

fn open_move_description(f: NeighborFeature) -> (r: String)
    ensures
        r@ == open_move_text(f),
{
    let mut r = owned("Open neighbor. Visited ");
    push_decimal(&mut r, f.visited as u64);
    r.append(" time(s). This step ");
    if f.closer_to_exit {
        r.append("reduces manhattan distance to the exit");
    } else {
        r.append("does not reduce manhattan distance to the exit");
    }
    r.append(".");
    r
}

/// The view of a list of options as character sequences.
pub open spec fn options_view(v: Seq<(String, String)>) -> Seq<(Seq<char>, Seq<char>)> {
    v.map_values(|p: (String, String)| (p.0@, p.1@))
}

/// The surroundings of `(x, y)` with the visit counts `visits`.
pub fn move_features(maze: &Maze, x: usize, y: usize, visits: &[u32]) -> (r: MoveFeatures)
    requires
        maze.well_formed(),
        maze.width + maze.height <= MAX_FEATURE_SPAN,
        maze.exit[0] < maze.width,
        maze.exit[1] < maze.height,
        x < maze.width,
        y < maze.height,
        visits@.len() == maze.width * maze.height,
    ensures
        r.neighbors@.len() == 4,
        forall|d: int| 0 <= d < 4 ==> #[trigger] r.neighbors@[d] == neighbor_feature(*maze, visits@, x as int, y as int, d),
        r.open_count == open_count_of(r.neighbors@, 4),
        r.situation@ == situation_label(r.open_count),
        r.instructions@ == feature_instructions_text(situation_label(r.open_count)),
        options_view(r.criteria@) == (if r.open_count == 0 { walled_options() } else { open_options(r.neighbors@, 4) }),
        r.east == maze.exit[0] - x,
        r.south == maze.exit[1] - y,
        r.manhattan == distance_to_exit(*maze, x as int, y as int),
        r.visited_here == visits@[cell_index(maze.width as int, x as int, y as int)],
{
    let here = maze.manhattan(x, y);
    let mut neighbors: Vec<NeighborFeature> = Vec::new();
    let mut criteria: Vec<(String, String)> = Vec::new();
    let mut open_count: usize = 0;
    let mut d: u8 = 0;
    while d < 4
        invariant
            maze.well_formed(),
            maze.width + maze.height <= MAX_FEATURE_SPAN,
            maze.exit[0] < maze.width,
            maze.exit[1] < maze.height,
            x < maze.width,
            y < maze.height,
            visits@.len() == maze.width * maze.height,
            here == distance_to_exit(*maze, x as int, y as int),
            d <= 4,
            neighbors@.len() == d,
            forall|e: int| 0 <= e < d ==> #[trigger] neighbors@[e] == neighbor_feature(*maze, visits@, x as int, y as int, e),
            open_count == open_count_of(neighbors@, d as int),
            open_count <= d,
            options_view(criteria@) == open_options(neighbors@, d as int),
        decreases 4 - d,
    {
        let (nx, ny, blocked) = maze.try_move(x, y, d);
        let ghost o = move_outcome(maze.cells@, maze.width as int, maze.height as int, x as int, y as int, d as int);
        proof {
            assert(0 <= o.0 < maze.width && 0 <= o.1 < maze.height) by {
                if !o.2 {
                    assert(d < 4);
                }
            }
            assert(cell_index(maze.width as int, nx as int, ny as int) < visits@.len()) by (nonlinear_arith)
                requires
                    nx < maze.width,
                    ny < maze.height,
                    visits@.len() == maze.width * maze.height,
            {
                assert((ny + 1) * maze.width <= maze.height * maze.width);
            }
        }
        let visited = if blocked { 0 } else { maze.visit(visits, nx, ny) };
        let closer = !blocked && maze.manhattan(nx, ny) < here;
        let f = NeighborFeature { open: !blocked, visited, closer_to_exit: closer };
        let ghost before = neighbors@;
        neighbors.push(f);
        proof {
            assert(neighbors@.subrange(0, d as int) =~= before);
            assert forall|k: int| 0 <= k <= d implies open_options(neighbors@, k) == open_options(before, k) && open_count_of(neighbors@, k) == open_count_of(before, k) by {
                lemma_prefix_options(before, neighbors@, k);
            }
        }
        if !blocked {
            let label = owned(action_name(d));
            let text = open_move_description(f);
            let ghost pre = criteria@;
            criteria.push((label, text));
            open_count = open_count + 1;
            proof {
                assert(options_view(criteria@) =~= options_view(pre).push((label@, text@)));
            }
        }
        d = d + 1;
    }
    proof {
        lemma_open_options_len(neighbors@, 4);
    }
    if open_count == 0 {
        let ghost pre = criteria@;
        proof {
            assert(pre.len() == 0);
        }
        let mut k: u8 = 0;
        while k < 4
            invariant
                k <= 4,
                options_view(criteria@) == walled_options().take(k as int),
            decreases 4 - k,
        {
            let ghost before = criteria@;
            criteria.push((owned(action_name(k)), owned("No open neighbor; every direction is a wall.")));
            proof {
                assert(walled_options().take(k as int + 1) =~= walled_options().take(k as int).push(walled_options()[k as int]));
                assert(options_view(criteria@) =~= options_view(before).push((action_label(k), "No open neighbor; every direction is a wall."@)));
            }
            k = k + 1;
        }
        proof {
            assert(walled_options().take(4) =~= walled_options());
        }
    }
    let situation = situation_name(open_count);
    let instructions = feature_instructions(situation);
    proof {
        assert(cell_index(maze.width as int, x as int, y as int) < visits@.len()) by (nonlinear_arith)
            requires
                x < maze.width,
                y < maze.height,
                visits@.len() == maze.width * maze.height,
        {
            assert((y + 1) * maze.width <= maze.height * maze.width);
        }
    }
    let visited_here = maze.visit(visits, x, y);
    MoveFeatures {
        neighbors,
        criteria,
        open_count,
        situation,
        instructions,
        east: maze.exit[0] as i32 - x as i32,
        south: maze.exit[1] as i32 - y as i32,
        manhattan: here,
        visited_here,
    }
}

proof fn lemma_prefix_options(a: Seq<NeighborFeature>, b: Seq<NeighborFeature>, k: int)
    requires
        0 <= k <= a.len(),
        k <= b.len(),
        forall|i: int| 0 <= i < k ==> a[i] == b[i],
    ensures
        open_options(a, k) == open_options(b, k),
        open_count_of(a, k) == open_count_of(b, k),
    decreases k,
{
    if k > 0 {
        lemma_prefix_options(a, b, k - 1);
    }
}

/// A move question lists only legal moves: each option that is offered
/// while some move is open names a direction whose move is open.
pub proof fn lemma_options_name_open_moves(fs: Seq<NeighborFeature>, k: int, m: int)
    requires
        0 <= k <= fs.len(),
        0 <= m < open_options(fs, k).len(),
    ensures
        exists|d: int| 0 <= d < k && #[trigger] fs[d].open && open_options(fs, k)[m].0 == action_label(d as u8),
    decreases k,
{
    if k > 0 {
        let rest = open_options(fs, k - 1);
        if fs[k - 1].open && m == rest.len() {
            assert(fs[k - 1].open && open_options(fs, k)[m].0 == action_label((k - 1) as u8));
        } else {
            lemma_options_name_open_moves(fs, k - 1, m);
            let d = choose|d: int| 0 <= d < k - 1 && #[trigger] fs[d].open && open_options(fs, k - 1)[m].0 == action_label(d as u8);
            assert(open_options(fs, k)[m] == open_options(fs, k - 1)[m]);
        }
    }
}

} // verus!
