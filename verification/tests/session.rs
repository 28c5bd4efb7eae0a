use jev_quantum::maze::{Maze, StopReason};
use jev_quantum::record::{ERR_OK, ERR_SCHEMA};
use jev_quantum::report::redact_endpoint;
use jev_quantum::runner::{check_remote_load, check_strategies, maze_dimensions};
use jev_quantum::config::TargetKind;
use jev_quantum::session::{observation, Session};
use jev_quantum::target::{response_error, transport_error};

#[test]
fn player_observation_never_exposes_seed_or_global_map() {
    let maze = Maze::braided(10, 10, 20260935);
    let obs = observation(&maze, 0, 0, 0);
    assert_eq!(obs.position, [0, 0]);
    assert_eq!(obs.size, [10, 10]);
    assert_eq!(obs.exit, [9, 9]);
    assert_eq!(obs.walls.e, maze.cells[0].e);
    assert!(!obs.success);
}

#[test]
fn a_game_plays_turns_and_finishes() {
    let maze = Maze::braided(1, 2, 3);
    let mut game = Session::begin(&maze);
    assert!(game.wants_turn(&maze, 5));
    let fb = game.play(&maze, Some("jump"), 14, 100, 7);
    assert!(fb.invalid_action);
    assert!(fb.collision);
    assert_eq!(fb.action, "UNKNOWN");
    assert_eq!(game.records[0].status, 422);
    assert_eq!(game.records[0].error, ERR_SCHEMA);
    let fb = game.play(&maze, Some("down"), 16, 50, 9);
    assert!(!fb.collision);
    assert_eq!(game.records[1].error, ERR_OK);
    assert_eq!(game.records[1].bytes, 16);
    assert!(!game.wants_turn(&maze, 5));
    let (trajectory, records) = game.finish(&maze);
    assert!(trajectory.success);
    assert_eq!(trajectory.exit_step, Some(2));
    assert_eq!(trajectory.stop_reason, StopReason::Exit);
    assert_eq!(records.len(), 2);
}

#[test]
fn a_resumed_game_continues_where_it_stopped() {
    let maze = Maze::braided(1, 3, 3);
    let mut first = Session::begin(&maze);
    first.play(&maze, Some("DOWN"), 1, 1, 1);
    let (t, r) = first.finish(&maze);
    let mut again = Session::resume(&maze, t.steps, r);
    assert_eq!((again.x, again.y, again.turns), (0, 1, 1));
    again.halt(StopReason::Interrupted);
    let (t, _) = again.finish(&maze);
    assert!(!t.success);
    assert_eq!(t.stop_reason, StopReason::Interrupted);
}

#[test]
fn endpoints_are_redacted_before_the_at_sign() {
    assert_eq!(redact_endpoint("https://user:pw@host/x"), "redacted@host/x");
    assert_eq!(redact_endpoint("http://127.0.0.1:3000"), "http://127.0.0.1:3000");
}

#[test]
fn run_checks() {
    assert_eq!(maze_dimensions(3, 4), Ok(12));
    assert_eq!(maze_dimensions(0, 4), Err("width must be > 0".to_string()));
    assert_eq!(maze_dimensions(4, 0), Err("height must be > 0".to_string()));
    assert_eq!(maze_dimensions(usize::MAX, 2), Err("maze dimensions overflow".to_string()));
    assert!(check_strategies(&vec![TargetKind::Local, TargetKind::Jev], false).is_ok());
    assert!(check_strategies(&vec![TargetKind::Local, TargetKind::FloodFill], false).is_err());
    assert!(check_strategies(&vec![TargetKind::FloodFill], true).is_ok());
    assert!(check_remote_load("local,JEV", false).is_err());
    assert!(check_remote_load("local,JEV", true).is_ok());
    assert!(check_remote_load("local", false).is_ok());
}

#[test]
fn request_outcomes_are_classified() {
    assert_eq!(response_error(200, true), 0);
    assert_eq!(response_error(200, false), 2);
    assert_eq!(response_error(429, true), 5);
    assert_eq!(response_error(503, false), 3);
    assert_eq!(transport_error(true), 1);
    assert_eq!(transport_error(false), 6);
}
