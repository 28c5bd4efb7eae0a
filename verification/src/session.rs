//! A maze game played turn by turn by an outside player: the player sees
//! only its own cell, never the seed or the map.
use vstd::prelude::*;
use crate::maze::{
    apply_choice, cell_index, move_outcome, CellWalls, Maze, MazeStep, MazeTrajectory, StepKind, StopReason,
};
use crate::record::{action_from_choice, action_label, choice_action, RequestRecord, ERR_OK, ERR_SCHEMA};

verus! {

/// The settings of a game.
#[derive(Debug)]
pub struct SessionArgs {
    /// Continue the same game after an interruption.
    pub resume_report: Option<std::path::PathBuf>,
    pub width: usize,
    pub height: usize,
    pub maze_seed: u64,
    pub max_steps: usize,
    pub max_runtime_secs: u64,
    pub output: std::path::PathBuf,
}

/// What the player is shown after each turn.
#[derive(Debug, Clone, Copy, PartialEq, Eq)]
pub struct Observation {
    pub turn: usize,
    pub position: [usize; 2],
    pub size: [usize; 2],
    pub exit: [usize; 2],
    pub walls: CellWalls,
    pub success: bool,
}

/// How the last action went, as the player is told.
#[derive(Debug, Clone, PartialEq, Eq)]
pub struct Feedback {
    pub action: String,
    pub collision: bool,
    pub invalid_action: bool,
}

/// The observation of `(x, y)` after `turn` turns: the position, the size
/// and exit of the maze, the walls of that one cell, and whether it is the exit.
pub fn observation(maze: &Maze, x: usize, y: usize, turn: usize) -> (r: Observation)
    requires
        maze.well_formed(),
        x < maze.width,
        y < maze.height,
    ensures
        r.turn == turn,
        r.position == [x, y],
        r.size == [maze.width, maze.height],
        r.exit == maze.exit,
        r.walls == maze.cells@[cell_index(maze.width as int, x as int, y as int)],
        r.success == (x == maze.exit[0] && y == maze.exit[1]),
{
    proof {
        assert(y * maze.width + x < maze.width * maze.height) by (nonlinear_arith)
            requires
                x < maze.width,
                y < maze.height,
        {
            assert((y + 1) * maze.width <= maze.height * maze.width);
        }
    }
    let walls = maze.cells[y * maze.width + x];
    Observation {
        turn,
        position: [x, y],
        size: [maze.width, maze.height],
        exit: maze.exit,
        walls,
        success: maze.is_exit(x, y),
    }
}

/// The state of a game.
pub struct Session {
    pub x: usize,
    pub y: usize,
    pub turns: usize,
    pub steps: Vec<MazeStep>,
    pub records: Vec<RequestRecord>,
    pub stop: StopReason,
}

impl Session {
    pub open spec fn fits(&self, maze: &Maze) -> bool {
        &&& maze.well_formed()
        &&& self.x < maze.width
        &&& self.y < maze.height
    }

    /// A game at the start of the maze.
    pub fn begin(maze: &Maze) -> (r: Self)
        requires
            maze.well_formed(),
            maze.start[0] < maze.width,
            maze.start[1] < maze.height,
        ensures
            r.fits(maze),
            r.x == maze.start[0],
            r.y == maze.start[1],
            r.turns == 0,
            r.steps@.len() == 0,
            r.records@.len() == 0,
            r.stop == StopReason::MaxSteps,
    {
        Session { x: maze.start[0], y: maze.start[1], turns: 0, steps: Vec::new(), records: Vec::new(), stop: StopReason::MaxSteps }
    }

    /// A game that goes on from its saved steps and records: one turn per
    /// step, at the position of the last step.
    pub fn resume(maze: &Maze, steps: Vec<MazeStep>, records: Vec<RequestRecord>) -> (r: Self)
        requires
            maze.well_formed(),
            maze.start[0] < maze.width,
            maze.start[1] < maze.height,
            steps@.len() > 0 ==> steps@.last().x < maze.width && steps@.last().y < maze.height,
        ensures
            r.fits(maze),
            r.turns == steps@.len(),
            steps@.len() > 0 ==> r.x == steps@.last().x && r.y == steps@.last().y,
            steps@.len() == 0 ==> r.x == maze.start[0] && r.y == maze.start[1],
            r.steps == steps,
            r.records == records,
            r.stop == StopReason::MaxSteps,
    {
        let n = steps.len();
        let (x, y) = if n > 0 { (steps[n - 1].x, steps[n - 1].y) } else { (maze.start[0], maze.start[1]) };
        Session { x, y, turns: n, steps, records, stop: StopReason::MaxSteps }
    }

    /// The game asks for another turn: turns are left and the exit is not reached.
    pub fn wants_turn(&self, maze: &Maze, max_steps: usize) -> (r: bool)
        ensures
            r == (self.turns < max_steps && !(self.x == maze.exit[0] && self.y == maze.exit[1])),
    {
        self.turns < max_steps && !maze.is_exit(self.x, self.y)
    }

    /// The game stops before a turn for `reason`.
    pub fn halt(&mut self, reason: StopReason)
        ensures
            final(self).stop == reason,
            final(self).x == old(self).x,
            final(self).y == old(self).y,
            final(self).turns == old(self).turns,
            final(self).steps == old(self).steps,
            final(self).records == old(self).records,
    {
        self.stop = reason;
    }

    /// Play one turn: the player's line (of `line_bytes` bytes, its action
    /// label if it had one) came `waited_ns` after the last observation and
    /// `offset_ns` into the game. An unknown action collides in place and is
    /// recorded as a schema error.
    pub fn play(&mut self, maze: &Maze, label: Option<&str>, line_bytes: usize, waited_ns: u64, offset_ns: u64) -> (r: Feedback)
        requires
            old(self).fits(maze),
            old(self).turns < usize::MAX,
        ensures
            final(self).fits(maze),
            ({
                let action = match label {
                    Some(l) => choice_action(l@),
                    None => 255u8,
                };
                let o = move_outcome(maze.cells@, maze.width as int, maze.height as int, old(self).x as int, old(self).y as int, action as int);
                &&& final(self).x == o.0
                &&& final(self).y == o.1
                &&& final(self).turns == old(self).turns + 1
                &&& final(self).steps@.len() == old(self).steps@.len() + 1
                &&& final(self).steps@.drop_last() == old(self).steps@
                &&& final(self).steps@.last().x == o.0
                &&& final(self).steps@.last().y == o.1
                &&& final(self).steps@.last().collision == o.2
                &&& final(self).steps@.last().action@ == action_label(action)
                &&& final(self).steps@.last().latency_ns == waited_ns
                &&& final(self).steps@.last().throttle_ns == 0
                &&& final(self).steps@.last().kind == StepKind::Decision
                &&& final(self).records@ == old(self).records@.push(RequestRecord {
                    offset_ns,
                    latency_ns: waited_ns,
                    throttle_ns: 0,
                    status: if action < 4 { 200 } else { 422 },
                    action,
                    error: if action < 4 { ERR_OK } else { ERR_SCHEMA },
                    bytes: line_bytes as u32,
                })
                &&& r.action@ == action_label(action)
                &&& r.collision == o.2
                &&& r.invalid_action == (action >= 4)
            }),
            final(self).stop == old(self).stop,
    {
        let action = match label {
            Some(l) => action_from_choice(l),
            None => 255,
        };
        self.turns = self.turns + 1;
        let step = apply_choice(maze, self.x, self.y, action, waited_ns, 0);
        self.x = step.x;
        self.y = step.y;
        self.records.push(RequestRecord {
            offset_ns,
            latency_ns: waited_ns,
            throttle_ns: 0,
            status: if action < 4 { 200 } else { 422 },
            action,
            error: if action < 4 { ERR_OK } else { ERR_SCHEMA },
            bytes: line_bytes as u32,
        });
        let feedback = Feedback { action: step.action.clone(), collision: step.collision, invalid_action: action >= 4 };
        self.steps.push(step);
        proof {
            assert(self.steps@.drop_last() =~= old(self).steps@);
        }
        feedback
    }

    /// End the game, with its trajectory and records: it succeeded when it
    /// stands on the exit.
    pub fn finish(self, maze: &Maze) -> (r: (MazeTrajectory, Vec<RequestRecord>))
        ensures
            r.0.success == (self.x == maze.exit[0] && self.y == maze.exit[1]),
            r.0.stop_reason == (if r.0.success { StopReason::Exit } else { self.stop }),
            r.0.exit_step == (if r.0.success { Some(self.turns) } else { None }),
            r.0.steps == self.steps,
            r.1 == self.records,
    {
        let success = maze.is_exit(self.x, self.y);
        let trajectory = MazeTrajectory {
            steps: self.steps,
            success,
            exit_step: if success { Some(self.turns) } else { None },
            stop_reason: if success { StopReason::Exit } else { self.stop },
        };
        (trajectory, self.records)
    }
}

} // verus!
