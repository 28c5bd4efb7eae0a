//! The state of one target's walk through a maze, step by step: the caller
//! asks the model (or the solver) for a move and hands the outcome in.
use vstd::prelude::*;
use crate::maze::{
    apply_choice, cell_index, decode_move, move_outcome, Maze, MazeStep, MazeTrajectory, StepKind, StopReason,
};
use crate::record::{action_label, choice_action, RequestRecord, ERR_OK};

verus! {

/// A walk in progress.
pub struct MazeWalk {
    pub x: usize,
    pub y: usize,
    /// How often each cell was entered, the start counting once.
    pub visits: Vec<u32>,
    /// The number of decisions taken so far.
    pub decisions: usize,
    pub success: bool,
    pub exit_step: Option<usize>,
    pub stop: StopReason,
    pub steps: Vec<MazeStep>,
    pub records: Vec<RequestRecord>,
    pub last_move: Option<String>,
}

/// `v + 1`, or `u32::MAX` when that does not fit.
pub open spec fn bump(v: u32) -> u32 {
    if v == u32::MAX {
        v
    } else {
        (v + 1) as u32
    }
}

impl MazeWalk {
    /// The walk is inside the maze and counts visits for every cell.
    pub open spec fn fits(&self, maze: &Maze) -> bool {
        &&& maze.well_formed()
        &&& self.x < maze.width
        &&& self.y < maze.height
        &&& self.visits@.len() == maze.width * maze.height
    }

    /// Whether the walk stands on the exit.
    pub open spec fn at_exit(&self, maze: &Maze) -> bool {
        self.x == maze.exit[0] && self.y == maze.exit[1]
    }

    /// A walk at the start, which has been visited once; it has already
    /// succeeded when the start is the exit.
    pub fn begin(maze: &Maze) -> (r: Self)
        requires
            maze.well_formed(),
            maze.start[0] < maze.width,
            maze.start[1] < maze.height,
        ensures
            r.fits(maze),
            r.x == maze.start[0],
            r.y == maze.start[1],
            forall|i: int| 0 <= i < r.visits@.len() ==> #[trigger] r.visits@[i] == (if i == cell_index(maze.width as int, r.x as int, r.y as int) { 1u32 } else { 0u32 }),
            r.decisions == 0,
            r.success == r.at_exit(maze),
            r.exit_step == (if r.success { Some(0usize) } else { None }),
            r.stop == (if r.success { StopReason::Exit } else { StopReason::MaxSteps }),
            r.steps@.len() == 0,
            r.records@.len() == 0,
            r.last_move is None,
    {
        let n = maze.width * maze.height;
        let mut visits: Vec<u32> = Vec::new();
        let mut k: usize = 0;
        while k < n
            invariant
                k <= n,
                visits@.len() == k,
                forall|i: int| 0 <= i < k ==> #[trigger] visits@[i] == 0u32,
            decreases n - k,
        {
            visits.push(0);
            k = k + 1;
        }
        let x = maze.start[0];
        let y = maze.start[1];
        proof {
            assert(y * maze.width + x < maze.width * maze.height) by (nonlinear_arith)
                requires
                    x < maze.width,
                    y < maze.height,
            {
                assert((y + 1) * maze.width <= maze.height * maze.width);
            }
        }
        visits.set(y * maze.width + x, 1);
        let success = maze.is_exit(x, y);
        MazeWalk {
            x,
            y,
            visits,
            decisions: 0,
            success,
            exit_step: if success { Some(0) } else { None },
            stop: if success { StopReason::Exit } else { StopReason::MaxSteps },
            steps: Vec::new(),
            records: Vec::new(),
            last_move: None,
        }
    }

    /// Replay a saved step of an earlier run of the same walk: pauses are
    /// kept as they are; a decision moves the walk to where it led.
    pub fn replay(&mut self, maze: &Maze, step: MazeStep)
        requires
            old(self).fits(maze),
            step.x < maze.width,
            step.y < maze.height,
            old(self).decisions < usize::MAX,
        ensures
            final(self).fits(maze),
            final(self).steps@ == old(self).steps@.push(step),
            final(self).records@ == old(self).records@,
            final(self).success == old(self).success,
            final(self).exit_step == old(self).exit_step,
            final(self).stop == old(self).stop,
            step.kind == StepKind::PaceGap ==> {
                &&& final(self).x == old(self).x
                &&& final(self).y == old(self).y
                &&& final(self).visits@ == old(self).visits@
                &&& final(self).decisions == old(self).decisions
                &&& final(self).last_move == old(self).last_move
            },
            step.kind == StepKind::Decision ==> {
                &&& final(self).x == step.x
                &&& final(self).y == step.y
                &&& final(self).visits@ == old(self).visits@.update(
                    cell_index(maze.width as int, step.x as int, step.y as int),
                    bump(old(self).visits@[cell_index(maze.width as int, step.x as int, step.y as int)]),
                )
                &&& final(self).decisions == old(self).decisions + 1
                &&& final(self).last_move == Some(step.action)
            },
    {
        if step.kind == StepKind::Decision {
            self.x = step.x;
            self.y = step.y;
            self.enter(maze);
            self.last_move = Some(step.action.clone());
            self.decisions = self.decisions + 1;
        }
        self.steps.push(step);
    }

    /// Count one more visit of the current cell.
    fn enter(&mut self, maze: &Maze)
        requires
            old(self).fits(maze),
        ensures
            final(self).fits(maze),
            final(self).x == old(self).x,
            final(self).y == old(self).y,
            final(self).visits@ == old(self).visits@.update(
                cell_index(maze.width as int, old(self).x as int, old(self).y as int),
                bump(old(self).visits@[cell_index(maze.width as int, old(self).x as int, old(self).y as int)]),
            ),
            final(self).decisions == old(self).decisions,
            final(self).success == old(self).success,
            final(self).exit_step == old(self).exit_step,
            final(self).stop == old(self).stop,
            final(self).steps == old(self).steps,
            final(self).records == old(self).records,
            final(self).last_move == old(self).last_move,
    {
        proof {
            assert(self.y * maze.width + self.x < maze.width * maze.height) by (nonlinear_arith)
                requires
                    self.x < maze.width,
                    self.y < maze.height,
            {
                assert((self.y + 1) * maze.width <= maze.height * maze.width);
            }
        }
        let i = self.y * maze.width + self.x;
        let v = self.visits[i];
        let nv = if v == u32::MAX { v } else { v + 1 };
        self.visits.set(i, nv);
    }

    /// Settle whether the walk (after a replay) stands on the exit.
    pub fn settle(&mut self, maze: &Maze)
        ensures
            final(self).success == (old(self).x == maze.exit[0] && old(self).y == maze.exit[1]),
            final(self).exit_step == (if final(self).success { Some(old(self).decisions) } else { None }),
            final(self).x == old(self).x,
            final(self).y == old(self).y,
            final(self).visits == old(self).visits,
            final(self).decisions == old(self).decisions,
            final(self).stop == old(self).stop,
            final(self).steps == old(self).steps,
            final(self).records == old(self).records,
            final(self).last_move == old(self).last_move,
    {
        self.success = maze.is_exit(self.x, self.y);
        self.exit_step = if self.success { Some(self.decisions) } else { None };
    }

    /// Whether the walk goes on: it has not stopped on a cap and has not
    /// already reached the exit.
    pub fn halted(&self) -> (r: bool)
        ensures
            r == ((self.stop == StopReason::MaxRuntime || self.stop == StopReason::Interrupted) && !self.success),
    {
        (self.stop == StopReason::MaxRuntime || self.stop == StopReason::Interrupted) && !self.success
    }

    /// Whether the walk is still on its way: not at the exit, and stopped
    /// for no reason but the step budget it starts with.
    pub fn walking(&self) -> (r: bool)
        ensures
            r == (self.stop == StopReason::MaxSteps && !self.success),
    {
        self.stop == StopReason::MaxSteps && !self.success
    }

    /// Between turns: a walk at the exit stops with `Exit`; else a hard cap
    /// that has been hit stops it with its reason; else it goes on.
    pub fn keeps_going(&mut self, cap: Option<StopReason>) -> (r: bool)
        ensures
            r == (!old(self).success && cap is None),
            final(self).stop == (if old(self).success {
                StopReason::Exit
            } else {
                match cap {
                    Some(c) => c,
                    None => old(self).stop,
                }
            }),
            final(self).x == old(self).x,
            final(self).y == old(self).y,
            final(self).visits == old(self).visits,
            final(self).decisions == old(self).decisions,
            final(self).success == old(self).success,
            final(self).exit_step == old(self).exit_step,
            final(self).steps == old(self).steps,
            final(self).records == old(self).records,
            final(self).last_move == old(self).last_move,
    {
        if self.success {
            self.stop = StopReason::Exit;
            return false;
        }
        match cap {
            Some(c) => {
                self.stop = c;
                false
            },
            None => true,
        }
    }

    /// The walk stops for `reason`.
    pub fn stop_for(&mut self, reason: StopReason)
        ensures
            final(self).stop == reason,
            final(self).x == old(self).x,
            final(self).y == old(self).y,
            final(self).visits == old(self).visits,
            final(self).decisions == old(self).decisions,
            final(self).success == old(self).success,
            final(self).exit_step == old(self).exit_step,
            final(self).steps == old(self).steps,
            final(self).records == old(self).records,
            final(self).last_move == old(self).last_move,
    {
        self.stop = reason;
    }

    /// A pause of the pacer before the next decision is kept as its own step.
    pub fn pause(&mut self, throttle_ns: u64)
        ensures
            throttle_ns == 0 ==> final(self).steps@ == old(self).steps@,
            throttle_ns > 0 ==> final(self).steps@.len() == old(self).steps@.len() + 1
                && final(self).steps@.drop_last() == old(self).steps@
                && final(self).steps@.last().kind == StepKind::PaceGap
                && final(self).steps@.last().x == old(self).x
                && final(self).steps@.last().y == old(self).y
                && final(self).steps@.last().throttle_ns == throttle_ns,
            final(self).x == old(self).x,
            final(self).y == old(self).y,
            final(self).visits == old(self).visits,
            final(self).decisions == old(self).decisions,
            final(self).success == old(self).success,
            final(self).exit_step == old(self).exit_step,
            final(self).stop == old(self).stop,
            final(self).records == old(self).records,
            final(self).last_move == old(self).last_move,
    {
        if throttle_ns > 0 {
            let gap = crate::maze::pace_gap_step(self.x, self.y, throttle_ns);
            self.steps.push(gap);
            proof {
                assert(self.steps@.drop_last() =~= old(self).steps@);
            }
        }
    }

    /// A request that failed ends the walk; its record keeps no action. The
    /// report schema names no stop reason for a failed request, so the walk
    /// ends with its reason unspecified.
    pub fn fail(&mut self, offset_ns: u64, latency_ns: u64, throttle_ns: u64, status: u16, error: u8, bytes: u32)
        ensures
            final(self).records@ == old(self).records@.push(RequestRecord { offset_ns, latency_ns, throttle_ns, status, action: 255, error, bytes }),
            final(self).stop == StopReason::Unspecified,
            final(self).x == old(self).x,
            final(self).y == old(self).y,
            final(self).visits == old(self).visits,
            final(self).decisions == old(self).decisions,
            final(self).success == old(self).success,
            final(self).exit_step == old(self).exit_step,
            final(self).steps == old(self).steps,
            final(self).last_move == old(self).last_move,
    {
        self.records.push(RequestRecord { offset_ns, latency_ns, throttle_ns, status, action: 255, error, bytes });
        self.stop = StopReason::Unspecified;
    }

    /// Take the decision `action`: try the move, count the visit of the cell
    /// the walk ends in, and record the step and the request; reaching the
    /// exit ends the walk with success.
    pub fn advance(
        &mut self,
        maze: &Maze,
        action: u8,
        offset_ns: u64,
        latency_ns: u64,
        throttle_ns: u64,
        status: u16,
        error: u8,
        bytes: u32,
    )
        requires
            old(self).fits(maze),
            old(self).decisions < usize::MAX,
        ensures
            final(self).fits(maze),
            ({
                let o = move_outcome(maze.cells@, maze.width as int, maze.height as int, old(self).x as int, old(self).y as int, action as int);
                &&& final(self).x == o.0
                &&& final(self).y == o.1
                &&& final(self).steps@.len() == old(self).steps@.len() + 1
                &&& final(self).steps@.drop_last() == old(self).steps@
                &&& final(self).steps@.last().x == o.0
                &&& final(self).steps@.last().y == o.1
                &&& final(self).steps@.last().collision == o.2
                &&& final(self).steps@.last().action@ == action_label(action)
                &&& final(self).steps@.last().latency_ns == latency_ns
                &&& final(self).steps@.last().throttle_ns == throttle_ns
                &&& final(self).steps@.last().kind == StepKind::Decision
            }),
            final(self).visits@ == old(self).visits@.update(
                cell_index(maze.width as int, final(self).x as int, final(self).y as int),
                bump(old(self).visits@[cell_index(maze.width as int, final(self).x as int, final(self).y as int)]),
            ),
            final(self).decisions == old(self).decisions + 1,
            final(self).records@ == old(self).records@.push(RequestRecord { offset_ns, latency_ns, throttle_ns, status, action, error, bytes }),
            final(self).last_move matches Some(m) && m@ == action_label(action),
            final(self).at_exit(maze) ==> final(self).success && final(self).exit_step == Some(final(self).decisions)
                && final(self).stop == StopReason::Exit,
            !final(self).at_exit(maze) ==> final(self).success == old(self).success
                && final(self).exit_step == old(self).exit_step && final(self).stop == old(self).stop,
    {
        let step = apply_choice(maze, self.x, self.y, action, latency_ns, throttle_ns);
        self.x = step.x;
        self.y = step.y;
        self.enter(maze);
        self.last_move = Some(step.action.clone());
        self.decisions = self.decisions + 1;
        if maze.is_exit(self.x, self.y) {
            self.success = true;
            self.exit_step = Some(self.decisions);
            self.stop = StopReason::Exit;
        }
        self.records.push(RequestRecord { offset_ns, latency_ns, throttle_ns, status, action, error, bytes });
        self.steps.push(step);
        proof {
            assert(self.steps@.drop_last() =~= old(self).steps@);
        }
    }

    /// The move a decision takes: the solver's plan when there is one, else
    /// the move that the reply's label names, else none (255) when no reply
    /// was read.
    pub open spec fn chosen_action(planned: Option<u8>, replied: bool, label: Option<&str>) -> u8 {
        match planned {
            Some(a) => a,
            None => if replied {
                match label {
                    Some(l) => choice_action(l@),
                    None => 255u8,
                }
            } else {
                255u8
            },
        }
    }

    /// Take in the outcome of one decision's request: a failed request ends
    /// the walk; otherwise the walk takes the chosen move. Returns the move
    /// taken (255 for a failed request).
    pub fn conclude(
        &mut self,
        maze: &Maze,
        planned: Option<u8>,
        replied: bool,
        label: Option<&str>,
        offset_ns: u64,
        latency_ns: u64,
        throttle_ns: u64,
        status: u16,
        error: u8,
        bytes: u32,
    ) -> (r: u8)
        requires
            old(self).fits(maze),
            old(self).decisions < usize::MAX,
        ensures
            final(self).fits(maze),
            error != ERR_OK ==> {
                &&& r == 255
                &&& final(self).records@ == old(self).records@.push(
                    RequestRecord { offset_ns, latency_ns, throttle_ns, status, action: 255, error, bytes },
                )
                &&& final(self).stop == StopReason::Unspecified
                &&& final(self).x == old(self).x
                &&& final(self).y == old(self).y
                &&& final(self).visits == old(self).visits
                &&& final(self).decisions == old(self).decisions
                &&& final(self).success == old(self).success
                &&& final(self).exit_step == old(self).exit_step
                &&& final(self).steps == old(self).steps
                &&& final(self).last_move == old(self).last_move
            },
            error == ERR_OK ==> {
                let o = move_outcome(maze.cells@, maze.width as int, maze.height as int, old(self).x as int, old(self).y as int, r as int);
                &&& r == Self::chosen_action(planned, replied, label)
                &&& final(self).x == o.0
                &&& final(self).y == o.1
                &&& final(self).visits@ == old(self).visits@.update(
                    cell_index(maze.width as int, o.0, o.1),
                    bump(old(self).visits@[cell_index(maze.width as int, o.0, o.1)]),
                )
                &&& final(self).decisions == old(self).decisions + 1
                &&& final(self).steps@.len() == old(self).steps@.len() + 1
                &&& final(self).steps@.drop_last() == old(self).steps@
                &&& final(self).steps@.last().x == o.0
                &&& final(self).steps@.last().y == o.1
                &&& final(self).steps@.last().collision == o.2
                &&& final(self).steps@.last().action@ == action_label(r)
                &&& final(self).steps@.last().latency_ns == latency_ns
                &&& final(self).steps@.last().throttle_ns == throttle_ns
                &&& final(self).steps@.last().kind == StepKind::Decision
                &&& final(self).records@ == old(self).records@.push(
                    RequestRecord { offset_ns, latency_ns, throttle_ns, status, action: r, error, bytes },
                )
                &&& final(self).last_move matches Some(m) && m@ == action_label(r)
                &&& final(self).at_exit(maze) ==> final(self).success && final(self).exit_step == Some(final(self).decisions)
                    && final(self).stop == StopReason::Exit
                &&& !final(self).at_exit(maze) ==> final(self).success == old(self).success
                    && final(self).exit_step == old(self).exit_step && final(self).stop == old(self).stop
            },
    {
        if error != ERR_OK {
            self.fail(offset_ns, latency_ns, throttle_ns, status, error, bytes);
            return 255;
        }
        let action = match planned {
            Some(a) => a,
            None => if replied {
                decode_move(label)
            } else {
                255
            },
        };
        self.advance(maze, action, offset_ns, latency_ns, throttle_ns, status, error, bytes);
        action
    }

    /// The trajectory of the walk and the records of its requests.
    pub fn finish(self) -> (r: (MazeTrajectory, Vec<RequestRecord>))
        ensures
            r.0.steps == self.steps,
            r.0.success == self.success,
            r.0.exit_step == self.exit_step,
            r.0.stop_reason == self.stop,
            r.1 == self.records,
    {
        (MazeTrajectory { steps: self.steps, success: self.success, exit_step: self.exit_step, stop_reason: self.stop }, self.records)
    }
}

} // verus!
