use jev_quantum::protocol::Question;
use jev_quantum::step_request::spatial_move_questions;
use jev_quantum::maze::{CellWalls, Maze};
use jev_quantum::navigation::{MoveSummary, Navigation};
use jev_quantum::spatial_prompt::{move_description, rules_move, spatial_question, FLOOD_PROMPT, SPATIAL_PROMPT};

#[test]
fn online_solver_reaches_exit_across_seeds_and_rectangles() {
    for (w, h) in [
        (1, 1),
        (1, 19),
        (19, 1),
        (2, 2),
        (3, 17),
        (17, 3),
        (10, 10),
        (32, 24),
    ] {
        for seed in (0..30).chain([20260935, u64::MAX]) {
            let maze = Maze::braided(w, h, seed);
            let mut nav = Navigation::new(w, h);
            let (mut x, mut y) = (0, 0);
            for _ in 0..(w * h * w * h * 4) {
                if maze.is_exit(x, y) {
                    break;
                }
                nav.observe(x, y, maze.cells[y * w + x]);
                let d = nav.choose_move(x, y, maze.exit).expect("connected maze");
                let (nx, ny, collision) = maze.try_move(x, y, d);
                assert!(!collision);
                nav.record([x, y], [nx, ny], d, collision);
                (x, y) = (nx, ny);
            }
            assert!(maze.is_exit(x, y), "{w}x{h} seed={seed}");
        }
    }
}

#[test]
fn only_known_open_moves_are_taken() {
    let mut nav = Navigation::new(3, 1);
    assert_eq!(nav.choose_move(0, 0, [2, 0]), None);
    let open_east = CellWalls { n: true, e: false, s: true, w: true };
    nav.observe(0, 0, open_east);
    assert_eq!(nav.choose_move(0, 0, [2, 0]), Some(1));
    assert_eq!(nav.observed_count(), 1);
}

#[test]
fn walled_in_cell_has_no_move() {
    let mut nav = Navigation::new(2, 2);
    let closed = CellWalls { n: true, e: true, s: true, w: true };
    nav.observe(0, 0, closed);
    assert_eq!(nav.choose_move(0, 0, [1, 1]), None);
    assert_eq!(nav.observed_count(), 1);
}

#[test]
fn stagnation_counts_decisions_since_discovery() {
    let mut nav = Navigation::new(2, 1);
    let open_east = CellWalls { n: true, e: false, s: true, w: true };
    nav.observe(0, 0, open_east);
    nav.record([0, 0], [1, 0], 1, false);
    nav.record([1, 0], [0, 0], 3, false);
    nav.observe(0, 0, open_east);
    assert_eq!(nav.observed_count(), 1);
    assert_eq!(nav.stagnant_steps(), 2);
}

#[test]
fn move_descriptions_read_like_debug_output() {
    let m = MoveSummary {
        direction: 2,
        x: 0,
        y: 1,
        explored: true,
        visits: 2,
        edge_traversals: 1,
        departures: 1,
        unexplored_exits: Some(0),
        distance_to_exit: Some(5),
        downhill: Some(true),
    };
    assert_eq!(
        move_description(&m, true),
        "BFS distance=Some(5); downhill=true; explored=true; visits=2; traversals=1. Minimize BFS distance first, then prefer unexplored and less visited cells."
    );
    let n = MoveSummary { explored: false, visits: 0, edge_traversals: 13, unexplored_exits: None, distance_to_exit: None, downhill: None, ..m };
    assert_eq!(
        move_description(&n, false),
        "Edge traversals=13; explored=false; visits=0; unexplored exits=None. Prefer the least-traversed edge; on ties prefer unexplored cells or unexplored branches."
    );
    assert_eq!(
        move_description(&n, true),
        "BFS distance=None; downhill=false; explored=false; visits=0; traversals=13. Minimize BFS distance first, then prefer unexplored and less visited cells."
    );
}

#[test]
fn spatial_question_lists_each_open_move() {
    let mut nav = Navigation::new(3, 3);
    let open = CellWalls { n: false, e: false, s: false, w: false };
    nav.observe(1, 1, open);
    let memory = nav.spatial_memory(1, 1, [2, 2], false);
    let (instructions, options) = spatial_question(&memory, false);
    assert_eq!(instructions, SPATIAL_PROMPT);
    let labels: Vec<&str> = options.iter().map(|(l, _)| l.as_str()).collect();
    assert_eq!(labels, vec!["UP", "RIGHT", "DOWN", "LEFT"]);
    assert!(options.iter().all(|(_, d)| d.starts_with("Edge traversals=0; explored=false; visits=0; unexplored exits=None.")));
    let (flood_instructions, _) = spatial_question(&nav.spatial_memory(1, 1, [2, 2], true), true);
    assert_eq!(flood_instructions, FLOOD_PROMPT);
}

#[test]
fn rules_prefer_the_least_traversed_edge_then_direction_order() {
    let mut nav = Navigation::new(3, 3);
    let open = CellWalls { n: false, e: false, s: false, w: false };
    nav.observe(1, 1, open);
    assert_eq!(rules_move(&nav.spatial_memory(1, 1, [2, 2], false)), Some(0));
    nav.record([1, 1], [1, 0], 0, false);
    nav.observe(1, 0, CellWalls { n: true, e: false, s: false, w: false });
    nav.record([1, 0], [1, 1], 2, false);
    assert_eq!(rules_move(&nav.spatial_memory(1, 1, [2, 2], false)), Some(1));
    let walled = Navigation::new(1, 1);
    let mut walled = walled;
    walled.observe(0, 0, CellWalls { n: true, e: true, s: true, w: true });
    assert_eq!(rules_move(&walled.spatial_memory(0, 0, [0, 0], false)), None);
}

#[test]
fn spatial_step_sends_one_move_question() {
    let mut nav = Navigation::new(3, 3);
    nav.observe(1, 1, CellWalls { n: false, e: true, s: false, w: false });
    let memory = nav.spatial_memory(1, 1, [2, 2], true);
    let questions = spatial_move_questions(&memory, true);
    let ids: Vec<&String> = questions.keys().collect();
    assert_eq!(ids, vec!["move"]);
    match &questions["move"] {
        Question::Choice { instructions, criteria } => {
            assert_eq!(instructions.as_deref(), Some(FLOOD_PROMPT));
            let labels: Vec<&String> = criteria.keys().collect();
            assert_eq!(labels, vec!["UP", "DOWN", "LEFT"]);
            assert!(criteria["DOWN"].as_ref().unwrap().starts_with("BFS distance=Some("));
        }
        _ => panic!("the move question is a choice"),
    }
}
