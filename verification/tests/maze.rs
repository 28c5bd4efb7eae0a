use jev_quantum::features::move_features;
use jev_quantum::protocol::Question;
use jev_quantum::record::action_from_choice;
use jev_quantum::step_request::{feature_step_request, minimal_step_request};
use jev_quantum::maze::{
    apply_choice, cap_reason, decode_move, maze_cap_hit, pace_gap_step, situation_name, CellWalls,
    Maze, MazeContext, StepKind, StopReason,
};
use jev_quantum::rng::Xoshiro256PlusPlus;

#[test]
fn generated_maze_is_carved() {
    let maze = Maze::braided(12, 12, 3);
    assert_eq!(maze.cells.len(), 144);
    let open = maze
        .cells
        .iter()
        .filter(|c| !c.n || !c.e || !c.s || !c.w)
        .count();
    assert!(open > 20);
}

#[test]
fn situation_labels_match_open_count() {
    assert_eq!(situation_name(0), "trapped");
    assert_eq!(situation_name(1), "dead_end");
    assert_eq!(situation_name(2), "corridor");
    assert_eq!(situation_name(3), "junction");
}

#[test]
fn pace_gap_is_not_a_decision() {
    let gap = pace_gap_step(2, 3, 12_000_000);
    assert_eq!(gap.kind, StepKind::PaceGap);
    assert_eq!(gap.action, "PACE");
    assert_eq!(gap.latency_ns, 0);
    assert_eq!(gap.throttle_ns, 12_000_000);
}

#[test]
fn closer_flag_follows_manhattan() {
    let maze = Maze::braided(6, 6, 1);
    let here = maze.manhattan(0, 0);
    assert!(here > 0);
    let (_, _, blocked) = maze.try_move(0, 0, 1);
    if !blocked {
        assert!(maze.manhattan(1, 0) <= here);
    }
}

#[test]
fn cap_priority_is_interrupt_then_runtime() {
    let now = 5_000_000_000u64;
    let deadline = now + 1_000_000_000;
    assert_eq!(
        maze_cap_hit(true, now, deadline),
        Some(StopReason::Interrupted)
    );
    assert_eq!(
        maze_cap_hit(false, deadline, deadline),
        Some(StopReason::MaxRuntime)
    );
    assert_eq!(maze_cap_hit(false, now, deadline), None);
    assert_eq!(maze_cap_hit(false, deadline + 1, deadline), Some(StopReason::MaxRuntime));
    assert_eq!(maze_cap_hit(true, deadline, deadline), Some(StopReason::Interrupted));
}

#[test]
fn cap_reason_orders_interrupt_first() {
    assert_eq!(cap_reason(true, true), Some(StopReason::Interrupted));
    assert_eq!(cap_reason(false, true), Some(StopReason::MaxRuntime));
    assert_eq!(cap_reason(false, false), None);
}

#[test]
fn only_runtime_and_interrupt_abort_remaining_targets() {
    assert!(!StopReason::Unspecified.aborts_remaining_targets());
    assert!(StopReason::MaxRuntime.aborts_remaining_targets());
    assert!(StopReason::Interrupted.aborts_remaining_targets());
    assert!(!StopReason::MaxSteps.aborts_remaining_targets());
    assert!(!StopReason::Exit.aborts_remaining_targets());
    assert_eq!(StopReason::MaxSteps.as_str(), "max_steps");
    assert_eq!(StopReason::Unspecified.as_str(), "unspecified");
}

#[test]
fn every_cell_of_a_braided_maze_is_reachable() {
    for (w, h, seed) in [(1, 1, 0u64), (1, 19, 4), (19, 1, 5), (7, 5, 9), (16, 16, 20260935)] {
        let maze = Maze::braided(w, h, seed);
        assert_eq!(maze.width, w);
        assert_eq!(maze.height, h);
        assert_eq!(maze.start, [0, 0]);
        assert_eq!(maze.exit, [w - 1, h - 1]);
        let mut seen = vec![false; w * h];
        let mut queue = vec![(0usize, 0usize)];
        seen[0] = true;
        while let Some((x, y)) = queue.pop() {
            for a in 0..4u8 {
                let (nx, ny, blocked) = maze.try_move(x, y, a);
                if !blocked && !seen[ny * w + nx] {
                    seen[ny * w + nx] = true;
                    queue.push((nx, ny));
                }
            }
        }
        assert!(seen.iter().all(|&s| s), "{w}x{h} seed={seed}");
    }
}

#[test]
fn walls_agree_on_both_sides_and_the_border_is_closed() {
    let maze = Maze::braided(9, 7, 11);
    for y in 0..7 {
        for x in 0..9 {
            let c = maze.cells[y * 9 + x];
            if x + 1 < 9 {
                assert_eq!(c.e, maze.cells[y * 9 + x + 1].w);
            } else {
                assert!(c.e);
            }
            if y + 1 < 7 {
                assert_eq!(c.s, maze.cells[(y + 1) * 9 + x].n);
            } else {
                assert!(c.s);
            }
            if x == 0 {
                assert!(c.w);
            }
            if y == 0 {
                assert!(c.n);
            }
        }
    }
}

#[test]
fn same_seed_same_maze_and_zero_dimension_is_two() {
    let a = Maze::braided(8, 8, 7);
    let b = Maze::braided(8, 8, 7);
    assert_eq!(a.cells, b.cells);
    let c = Maze::braided(8, 8, 8);
    assert_ne!(a.cells, c.cells);
    let z = Maze::braided(0, 3, 1);
    assert_eq!(z.width, 2);
    assert_eq!(z.cells.len(), 6);
    assert_eq!(Maze::braided(1, 3, 1).width, 1);
}

#[test]
fn moves_undo_and_unknown_actions_collide() {
    let maze = Maze::braided(10, 10, 42);
    for y in 0..10 {
        for x in 0..10 {
            for a in 0..4u8 {
                let (nx, ny, blocked) = maze.try_move(x, y, a);
                if blocked {
                    assert_eq!((nx, ny), (x, y));
                } else {
                    assert_eq!(maze.try_move(nx, ny, (a + 2) % 4), (x, y, false));
                }
            }
            assert_eq!(maze.try_move(x, y, 9), (x, y, true));
        }
    }
}

#[test]
fn manhattan_and_visit_read_the_grid() {
    let maze = Maze::braided(5, 4, 2);
    assert_eq!(maze.manhattan(0, 0), 7);
    assert_eq!(maze.manhattan(4, 3), 0);
    assert!(maze.is_exit(4, 3));
    assert!(!maze.is_exit(3, 4));
    let visits: Vec<u32> = (0..20).collect();
    assert_eq!(maze.visit(&visits, 2, 3), 17);
}

#[test]
fn context_names_parse_case_insensitively() {
    assert_eq!(MazeContext::parse("Features"), Ok(MazeContext::Features));
    assert_eq!(MazeContext::parse("feature"), Ok(MazeContext::Features));
    assert_eq!(MazeContext::parse("BARE"), Ok(MazeContext::Minimal));
    assert_eq!(
        MazeContext::parse("Other"),
        Err("unknown maze context 'other' (use features|minimal)".to_string())
    );
    assert_eq!(MazeContext::Minimal.as_str(), "minimal");
}

#[test]
fn applied_choice_records_the_move() {
    let maze = Maze::braided(4, 4, 3);
    let step = apply_choice(&maze, 0, 0, 7, 10, 20);
    assert!(step.collision);
    assert_eq!((step.x, step.y), (0, 0));
    assert_eq!(step.action, "UNKNOWN");
    assert_eq!(step.kind, StepKind::Decision);
    let (nx, ny, blocked) = maze.try_move(0, 0, 1);
    let step = apply_choice(&maze, 0, 0, 1, 10, 20);
    assert_eq!((step.x, step.y, step.collision), (nx, ny, blocked));
    assert_eq!(step.action, "RIGHT");
    assert_eq!(decode_move(Some("down")), 2);
    assert_eq!(decode_move(Some("sideways")), 255);
    assert_eq!(decode_move(None), 255);
}

fn reference_knock(cells: &mut [CellWalls], width: usize, height: usize, x: usize, y: usize, dir: u8) {
    let i = y * width + x;
    match dir {
        0 if y > 0 => {
            cells[i].n = false;
            cells[i - width].s = false;
        }
        1 if x + 1 < width => {
            cells[i].e = false;
            cells[i + 1].w = false;
        }
        2 if y + 1 < height => {
            cells[i].s = false;
            cells[i + width].n = false;
        }
        3 if x > 0 => {
            cells[i].w = false;
            cells[i - 1].e = false;
        }
        _ => {}
    }
}

fn reference_carve(
    x: usize,
    y: usize,
    width: usize,
    height: usize,
    cells: &mut [CellWalls],
    visited: &mut [bool],
    rng: &mut Xoshiro256PlusPlus,
) {
    visited[y * width + x] = true;
    let mut dirs = [0u8, 1, 2, 3];
    for i in (1..dirs.len()).rev() {
        let j = rng.bounded_usize(i + 1);
        dirs.swap(i, j);
    }
    for dir in dirs {
        let (nx, ny) = match dir {
            0 if y > 0 => (x, y - 1),
            1 if x + 1 < width => (x + 1, y),
            2 if y + 1 < height => (x, y + 1),
            3 if x > 0 => (x - 1, y),
            _ => continue,
        };
        if visited[ny * width + nx] {
            continue;
        }
        reference_knock(cells, width, height, x, y, dir);
        reference_carve(nx, ny, width, height, cells, visited, rng);
    }
}

#[test]
fn explicit_stack_keeps_the_recursive_seed_mapping() {
    for (width, height, seed) in [(12usize, 12usize, 3u64), (5, 9, 11), (2, 2, 0), (1, 7, 3), (30, 20, 20260935)] {
        let mut rng = Xoshiro256PlusPlus::from_seed(seed);
        let closed = CellWalls { n: true, e: true, s: true, w: true };
        let mut cells = vec![closed; width * height];
        let mut visited = vec![false; width * height];
        reference_carve(0, 0, width, height, &mut cells, &mut visited, &mut rng);
        for y in 0..height {
            for x in 0..width {
                if rng.bounded_usize(4) != 0 {
                    continue;
                }
                let dir = rng.bounded_usize(4) as u8;
                reference_knock(&mut cells, width, height, x, y, dir);
            }
        }
        let maze = Maze::braided(width, height, seed);
        assert_eq!(maze.cells, cells, "{width}x{height} seed={seed}");
    }
}

#[test]
fn step_requests_carry_the_model_and_their_questions() {
    let maze = Maze::braided(8, 8, 7);
    let mut visits = vec![0u32; 64];
    visits[0] = 1;
    let state = serde_json::Value::from("s");
    let req = feature_step_request("jev", &maze, 0, 0, &visits, state.clone());
    assert_eq!(req.model, "jev");
    assert_eq!(req.state, state);
    let ids: Vec<&String> = req.questions.keys().collect();
    assert_eq!(ids, vec!["move", "progress_available"]);
    let f = move_features(&maze, 0, 0, &visits);
    match &req.questions["move"] {
        Question::Choice { instructions, criteria } => {
            assert_eq!(instructions.as_ref(), Some(&f.instructions));
            let labels: Vec<&String> = criteria.keys().collect();
            let expected: Vec<&String> = f.criteria.iter().map(|(l, _)| l).collect();
            assert_eq!(labels, expected);
            for (label, _) in &f.criteria {
                let (_, _, blocked) = maze.try_move(0, 0, action_from_choice(label));
                assert!(!blocked);
            }
        }
        _ => panic!("the move question is a choice"),
    }
    let minimal = minimal_step_request("m", state);
    match &minimal.questions["move"] {
        Question::Choice { instructions, criteria } => {
            assert_eq!(instructions.as_deref(), Some("Choose the next move through the maze."));
            assert_eq!(criteria.get("LEFT"), Some(&Some("Move LEFT".to_string())));
            assert_eq!(criteria.len(), 4);
        }
        _ => panic!("the move question is a choice"),
    }
}
