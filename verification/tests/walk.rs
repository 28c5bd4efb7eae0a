use jev_quantum::maze::{Maze, StepKind, StopReason};
use jev_quantum::walk::MazeWalk;

#[test]
fn a_walk_counts_visits_and_stops_at_the_exit() {
    let maze = Maze::braided(1, 3, 5);
    let mut walk = MazeWalk::begin(&maze);
    assert_eq!(walk.visits, vec![1, 0, 0]);
    assert!(!walk.success);
    assert_eq!(walk.stop, StopReason::MaxSteps);
    walk.pause(5);
    assert_eq!(walk.steps.len(), 1);
    assert_eq!(walk.steps[0].kind, StepKind::PaceGap);
    walk.pause(0);
    assert_eq!(walk.steps.len(), 1);
    walk.advance(&maze, 3, 1, 2, 5, 200, 0, 10);
    assert_eq!((walk.x, walk.y), (0, 0));
    assert_eq!(walk.visits, vec![2, 0, 0]);
    walk.advance(&maze, 2, 3, 2, 0, 200, 0, 10);
    walk.advance(&maze, 2, 5, 2, 0, 200, 0, 10);
    assert_eq!((walk.x, walk.y), (0, 2));
    assert!(walk.success);
    assert_eq!(walk.exit_step, Some(3));
    assert_eq!(walk.stop, StopReason::Exit);
    assert_eq!(walk.records.len(), 3);
    assert_eq!(walk.last_move.as_deref(), Some("DOWN"));
    let (trajectory, records) = walk.finish();
    assert_eq!(trajectory.steps.len(), 4);
    assert!(trajectory.success);
    assert_eq!(records.len(), 3);
}

#[test]
fn a_failed_request_ends_the_walk_without_an_action() {
    let maze = Maze::braided(3, 3, 2);
    let mut walk = MazeWalk::begin(&maze);
    walk.fail(1, 2, 3, 500, 3, 0);
    assert_eq!(walk.stop, StopReason::Unspecified);
    assert_eq!(walk.records[0].action, 255);
    walk.stop_for(StopReason::MaxRuntime);
    assert!(walk.halted());
}

#[test]
fn replay_follows_saved_decisions_only() {
    let maze = Maze::braided(1, 3, 5);
    let mut first = MazeWalk::begin(&maze);
    first.pause(9);
    first.advance(&maze, 2, 0, 1, 0, 200, 0, 1);
    let saved = first.steps.clone();
    let mut again = MazeWalk::begin(&maze);
    for step in saved {
        again.replay(&maze, step);
    }
    again.settle(&maze);
    assert_eq!((again.x, again.y), (first.x, first.y));
    assert_eq!(again.visits, first.visits);
    assert_eq!(again.decisions, 1);
    assert_eq!(again.steps.len(), 2);
    assert!(!again.success);
}

#[test]
fn a_walk_that_starts_on_the_exit_has_succeeded() {
    let maze = Maze::braided(1, 1, 0);
    let walk = MazeWalk::begin(&maze);
    assert!(walk.success);
    assert_eq!(walk.exit_step, Some(0));
    assert_eq!(walk.stop, StopReason::Exit);
}

#[test]
fn a_reply_is_concluded_plan_first_then_label_then_none() {
    let maze = Maze::braided(1, 3, 1);
    let mut walk = MazeWalk::begin(&maze);
    assert_eq!(walk.conclude(&maze, Some(2), true, Some("UP"), 0, 5, 0, 200, 0, 10), 2);
    assert_eq!((walk.x, walk.y), (0, 1));
    assert_eq!(walk.conclude(&maze, None, true, Some("down"), 1, 5, 0, 200, 0, 10), 2);
    assert_eq!((walk.x, walk.y), (0, 2));
    assert!(walk.success);
    let mut other = MazeWalk::begin(&maze);
    assert_eq!(other.conclude(&maze, None, false, None, 0, 5, 0, 200, 0, 10), 255);
    assert_eq!((other.x, other.y, other.decisions), (0, 0, 1));
    assert!(other.steps.last().unwrap().collision);
    assert_eq!(other.conclude(&maze, Some(2), true, None, 0, 5, 0, 503, 3, 10), 255);
    assert_eq!(other.stop, StopReason::Unspecified);
    assert_eq!(other.records.last().unwrap().action, 255);
    assert_eq!(other.decisions, 1);
}

#[test]
fn turns_stop_at_the_exit_first_then_at_a_cap() {
    let maze = Maze::braided(1, 3, 1);
    let mut walk = MazeWalk::begin(&maze);
    assert!(walk.walking());
    assert!(walk.keeps_going(None));
    assert!(!walk.keeps_going(Some(StopReason::MaxRuntime)));
    assert_eq!(walk.stop, StopReason::MaxRuntime);
    assert!(!walk.walking());
    let mut done = MazeWalk::begin(&maze);
    done.conclude(&maze, Some(2), false, None, 0, 1, 0, 200, 0, 1);
    done.conclude(&maze, Some(2), false, None, 0, 1, 0, 200, 0, 1);
    assert!(done.success);
    assert!(!done.keeps_going(Some(StopReason::Interrupted)));
    assert_eq!(done.stop, StopReason::Exit);
    assert_eq!(done.exit_step, Some(2));
    assert_eq!(done.visits[2], 1);
}
