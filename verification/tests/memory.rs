use jev_quantum::features::move_features;
use jev_quantum::maze::{CellWalls, Maze};
use jev_quantum::navigation::Navigation;
use jev_quantum::record::action_from_choice;
use jev_quantum::protocol::{Question, SystemOneRequest};
use jev_quantum::record::action_name;
use jev_quantum::trajectory_memory::{TrajectoryMemory, HISTORY_PROMPT};
use indexmap::IndexMap;
use serde_json::Value;

#[test]
fn feature_request_keeps_only_open_moves() {
    let maze = Maze::braided(8, 8, 7);
    let mut visits = vec![0u32; 64];
    visits[0] = 1;
    let features = move_features(&maze, 0, 0, &visits);
    assert!(!features.criteria.is_empty());
    for (name, _) in &features.criteria {
        let dir = action_from_choice(name);
        let (_, _, blocked) = maze.try_move(0, 0, dir);
        assert!(!blocked, "{name} should be open");
    }
    assert_eq!(features.neighbors.len(), 4);
    assert_eq!(features.visited_here, 1);
    assert_eq!(features.manhattan, 14);
    assert_eq!((features.east, features.south), (7, 7));
    assert!(!features.neighbors[0].open);
    assert!(!features.neighbors[3].open);
}

#[test]
fn features_describe_open_moves() {
    let maze = Maze::braided(1, 3, 1);
    let visits = vec![0, 4, 0];
    let f = move_features(&maze, 0, 0, &visits);
    assert_eq!(f.open_count, 1);
    assert_eq!(f.situation, "dead_end");
    assert_eq!(f.criteria.len(), 1);
    assert_eq!(f.criteria[0].0, "DOWN");
    assert_eq!(
        f.criteria[0].1,
        "Open neighbor. Visited 4 time(s). This step reduces manhattan distance to the exit."
    );
    assert!(f.instructions.ends_with("At a dead_end, never choose a wall."));
    let g = move_features(&maze, 0, 1, &visits);
    assert_eq!(g.situation, "corridor");
    assert_eq!(g.criteria[0].1, "Open neighbor. Visited 0 time(s). This step does not reduce manhattan distance to the exit.");
}

#[test]
fn a_walled_in_cell_offers_every_direction_with_a_note() {
    let maze = Maze::braided(1, 1, 0);
    let f = move_features(&maze, 0, 0, &[0]);
    assert_eq!(f.open_count, 0);
    assert_eq!(f.situation, "trapped");
    let labels: Vec<&str> = f.criteria.iter().map(|(l, _)| l.as_str()).collect();
    assert_eq!(labels, vec!["UP", "RIGHT", "DOWN", "LEFT"]);
    assert!(f.criteria.iter().all(|(_, d)| d == "No open neighbor; every direction is a wall."));
}

#[test]
fn spatial_context_is_bounded_and_has_no_trajectory() {
    let mut nav = Navigation::new(100, 100);
    let open = CellWalls { n: false, e: false, s: false, w: false };
    for y in 0..100 {
        for x in 0..100 {
            nav.observe(x, y, open);
        }
    }
    for _ in 0..100_000 {
        nav.record([0, 0], [1, 0], 1, false);
    }
    for flood in [false, true] {
        let memory = nav.spatial_memory(0, 0, [99, 99], flood);
        assert_eq!(memory.cells.len(), 24);
        assert!(memory.map_truncated);
        assert_eq!((memory.cells[0].x, memory.cells[0].y), (0, 0));
        assert_eq!(memory.cells[0].departures[1], 100_000);
        assert!(memory.cells.windows(2).all(|p| p[0].x + p[0].y <= p[1].x + p[1].y));
        assert_eq!(memory.moves.len(), 2);
        assert_eq!(memory.steps_without_discovery, 100_000);
        assert!(memory.stagnating);
        if flood {
            assert_eq!(memory.distance_here, Some(198));
            assert!(memory.moves.iter().all(|m| m.downhill == Some(true)));
        } else {
            assert_eq!(memory.distance_here, None);
        }
    }
}

#[test]
fn flood_payload_uses_only_observed_walls_and_preserves_all_legal_choices() {
    let maze = Maze::braided(10, 10, 20260935);
    let mut nav = Navigation::new(10, 10);
    let (mut x, mut y) = (0, 0);
    for _ in 0..100 {
        if maze.is_exit(x, y) {
            break;
        }
        nav.observe(x, y, maze.cells[y * 10 + x]);
        let memory = nav.spatial_memory(x, y, maze.exit, true);
        let legal = (0..4).filter(|&d| !maze.try_move(x, y, d).2).count();
        assert_eq!(memory.moves.len(), legal);
        assert_eq!(memory.observed_cells, nav.observed_count());
        let dir = nav.choose_move(x, y, maze.exit).unwrap();
        let chosen = memory.moves.iter().find(|m| m.direction == dir).unwrap();
        assert_eq!(chosen.downhill, Some(true));
        let (nx, ny, collision) = maze.try_move(x, y, dir);
        nav.record([x, y], [nx, ny], dir, collision);
        (x, y) = (nx, ny);
    }
    assert!(maze.is_exit(x, y));
}

#[test]
fn full_history_retains_old_steps_without_revealing_unobserved_cells() {
    let maze = Maze::braided(10, 10, 7);
    let mut memory = TrajectoryMemory::new(10, 10);
    memory.observe(0, 0, maze.cells[0]);
    for _ in 0..40 {
        memory.record([0, 0], [0, 0], 0, true);
    }
    let view = memory.view(0, 0);
    assert_eq!(view.transitions.len(), 40);
    assert_eq!(view.nearby.len(), 1);
    assert_eq!(view.departures_here[0], 40);
    assert_eq!(view.total_decisions, 40);
    assert!(!view.map_truncated);
}

#[test]
fn history_is_chronological_and_map_limit_is_unchanged() {
    let maze = Maze::braided(10, 10, 7);
    let mut memory = TrajectoryMemory::new(10, 10);
    for i in 0..100 {
        memory.observe(i % 10, i / 10, maze.cells[i]);
        memory.record([i % 10, i / 10], [i % 10, i / 10], 0, true);
    }
    let view = memory.view(9, 9);
    assert_eq!(view.transitions.len(), 100);
    assert_eq!(view.transitions[0].from, [0, 0]);
    assert_eq!(view.transitions[99].from, [9, 9]);
    assert_eq!(view.nearby.len(), 64);
    assert!(view.map_truncated);
    assert_eq!((view.nearby[0].x, view.nearby[0].y), (9, 9));
}

/// A maze step request as the feature context and the long-history memory
/// write it: the state with goal and neighbor table, a move choice whose
/// descriptions carry the distance sentence, and the progress question.
fn feature_step_request() -> SystemOneRequest {
    let maze = Maze::braided(10, 10, 20260935);
    let visits = vec![0u32; 100];
    let f = move_features(&maze, 0, 0, &visits);
    let mut neighbors = serde_json::Map::new();
    for (d, n) in f.neighbors.iter().enumerate() {
        let mut info = serde_json::Map::new();
        info.insert("open".to_string(), Value::from(n.open));
        info.insert("visited".to_string(), Value::from(n.visited));
        info.insert("closer_to_exit".to_string(), Value::from(n.closer_to_exit));
        neighbors.insert(action_name(d as u8).to_string(), Value::Object(info));
    }
    let mut goal = serde_json::Map::new();
    goal.insert("east".to_string(), Value::from(f.east));
    goal.insert("south".to_string(), Value::from(f.south));
    goal.insert("manhattan".to_string(), Value::from(f.manhattan));
    let mut transition = serde_json::Map::new();
    transition.insert("from".to_string(), Value::from(vec![0, 0]));
    transition.insert("action".to_string(), Value::from("UP"));
    transition.insert("to".to_string(), Value::from(vec![0, 0]));
    transition.insert("collision".to_string(), Value::from(true));
    let mut memory = serde_json::Map::new();
    memory.insert("recent_transitions".to_string(), Value::from(vec![Value::Object(transition); 100]));
    memory.insert("map_limit".to_string(), Value::from(64));
    let mut state = serde_json::Map::new();
    state.insert("position".to_string(), Value::from(vec![0, 0]));
    state.insert("exit".to_string(), Value::from(maze.exit.to_vec()));
    state.insert("goal".to_string(), Value::Object(goal));
    state.insert("situation".to_string(), Value::from(f.situation));
    state.insert("neighbors".to_string(), Value::Object(neighbors));
    state.insert("memory".to_string(), Value::Object(memory));
    let mut criteria = IndexMap::new();
    for (label, text) in &f.criteria {
        criteria.insert(label.clone(), Some(text.clone()));
    }
    let mut questions = IndexMap::new();
    questions.insert(
        "move".to_string(),
        Question::Choice { instructions: Some(f.instructions.clone()), criteria },
    );
    questions.insert(
        "progress_available".to_string(),
        Question::Noul {
            instructions: Some(
                "Is there at least one open neighbor that reduces manhattan distance to the exit?".to_string(),
            ),
            criteria: None,
        },
    );
    let mut req = SystemOneRequest { model: "jev".to_string(), state: Value::Object(state), questions };
    let mut memory = TrajectoryMemory::new(10, 10);
    memory.observe(0, 0, maze.cells[0]);
    for _ in 0..100 {
        memory.record([0, 0], [0, 0], 0, true);
    }
    TrajectoryMemory::annotate_move(&mut req, memory.view(0, 0).departures_here);
    req
}

fn move_instructions(req: &SystemOneRequest) -> Option<String> {
    match req.questions.get("move") {
        Some(Question::Choice { instructions, .. }) => instructions.clone(),
        _ => None,
    }
}

#[test]
fn removing_distance_preserves_memory_prompt_and_legal_moves() {
    let mut req = feature_step_request();
    TrajectoryMemory::use_free_strategy_prompt(&mut req);
    let mut expected = feature_step_request();
    TrajectoryMemory::use_free_strategy_prompt(&mut expected);
    expected.state.as_object_mut().unwrap().remove("goal");
    for v in expected.state["neighbors"].as_object_mut().unwrap().values_mut() {
        v.as_object_mut().unwrap().remove("closer_to_exit");
    }
    expected.questions.shift_remove("progress_available");
    if let Some(Question::Choice { criteria, .. }) = expected.questions.get_mut("move") {
        for v in criteria.values_mut() {
            let old = v.clone().unwrap();
            let sentences: Vec<_> = old.split(". ").filter(|s| !s.starts_with("This step ")).collect();
            *v = Some(sentences.join(". "));
        }
    }
    TrajectoryMemory::remove_distance_guidance(&mut req);
    assert_eq!(req, expected);
    assert_eq!(req.state["memory"]["recent_transitions"].as_array().unwrap().len(), 100);
    let maze = Maze::braided(10, 10, 20260935);
    assert_eq!(req.state["exit"], Value::from(maze.exit.to_vec()));
    let keys: Vec<&String> = req.questions.keys().collect();
    assert_eq!(keys, vec!["move"]);
}

#[test]
fn free_strategy_changes_only_move_instructions() {
    let before = feature_step_request();
    let mut after = feature_step_request();
    TrajectoryMemory::use_free_strategy_prompt(&mut after);
    assert_ne!(move_instructions(&after), move_instructions(&before));
    if let Some(Question::Choice { instructions, .. }) = after.questions.get_mut("move") {
        *instructions = move_instructions(&before);
    }
    assert_eq!(before, after);
}

#[test]
fn distance_sentences_leave_every_description() {
    let mut criteria = IndexMap::new();
    criteria.insert(
        "UP".to_string(),
        Some("Open neighbor. This step does not reduce manhattan distance to the exit. This step reduces manhattan distance to the exit.".to_string()),
    );
    criteria.insert("DOWN".to_string(), None);
    let mut questions = IndexMap::new();
    questions.insert("other".to_string(), Question::Score { instructions: None, criteria: vec!["a".to_string(), "b".to_string()] });
    questions.insert("move".to_string(), Question::Choice { instructions: None, criteria });
    let mut req = SystemOneRequest { model: "m".to_string(), state: Value::from("plain text"), questions };
    TrajectoryMemory::remove_distance_guidance(&mut req);
    assert_eq!(req.state, Value::from("plain text"));
    match req.questions.get("move") {
        Some(Question::Choice { criteria, .. }) => {
            assert_eq!(criteria.get("UP"), Some(&Some("Open neighbor.".to_string())));
            assert_eq!(criteria.get("DOWN"), Some(&None));
        }
        _ => panic!("the move question stays a choice"),
    }
    let keys: Vec<&String> = req.questions.keys().collect();
    assert_eq!(keys, vec!["other", "move"]);
}

#[test]
fn history_notes_departures_on_direction_options() {
    let mut criteria = IndexMap::new();
    criteria.insert("UP".to_string(), Some("Open neighbor.".to_string()));
    criteria.insert("LEFT".to_string(), None);
    criteria.insert("WAIT".to_string(), Some("Stay.".to_string()));
    let mut questions = IndexMap::new();
    questions.insert("move".to_string(), Question::Choice { instructions: None, criteria });
    questions.insert("other".to_string(), Question::Noul { instructions: None, criteria: None });
    let mut req = SystemOneRequest { model: "m".to_string(), state: Value::Null, questions };
    TrajectoryMemory::annotate_move(&mut req, [3, 0, 0, 12]);
    match req.questions.get("move") {
        Some(Question::Choice { instructions, criteria }) => {
            assert_eq!(instructions.as_deref(), Some(HISTORY_PROMPT));
            assert!(HISTORY_PROMPT.contains("Manhattan distance is only a tie-breaker"));
            assert_eq!(
                criteria.get("UP"),
                Some(&Some("Open neighbor. Previously departed this cell in this direction 3 time(s).".to_string()))
            );
            assert_eq!(
                criteria.get("LEFT"),
                Some(&Some(" Previously departed this cell in this direction 12 time(s).".to_string()))
            );
            assert_eq!(criteria.get("WAIT"), Some(&Some("Stay.".to_string())));
        }
        _ => panic!("the move question stays a choice"),
    }
    assert_eq!(req.questions.get("other"), Some(&Question::Noul { instructions: None, criteria: None }));
}
