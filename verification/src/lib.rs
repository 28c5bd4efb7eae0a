//! Maze benchmarks over a seeded random-number engine: mazes and their
//! online solver, the request records and statistics of a run, and the
//! pieces of the decision service that are pure logic.
pub mod config;
pub mod engine;
pub mod features;
pub mod grid;
pub mod maze;
pub mod metrics;
pub mod navigation;
pub mod pace;
pub mod pool;
pub mod protocol;
pub mod record;
pub mod report;
pub mod rng;
pub mod runner;
pub mod session;
pub mod solver_laws;
pub mod spatial_prompt;
pub mod stats;
pub mod step_request;
pub mod target;
pub mod text;
pub mod trajectory_memory;
pub mod walk;
