//! A heuristic solver for the resource-constrained project scheduling
//! problem (RCPSP): activities with durations, precedence constraints and
//! renewable resource demands are ordered so that the overall completion
//! time (makespan) is as small as possible.
//!
//! The solver is an island-model genetic algorithm built on a deterministic
//! serial schedule generation scheme, with topological repair, double
//! justification and destroy-rebuild operators.

pub mod driver;
pub mod justify;
pub mod operators;
pub mod problem;
pub mod repair;
pub mod rng;
pub mod schedule;

pub use driver::solve_monstre;
pub use driver::update_global_best;
pub use justify::double_justification;
pub use operators::{crossover, lns, select, smart_mutation, tournament_pick};
pub use problem::Problem;
pub use repair::repair_topological_sort;
pub use schedule::{critical_activities, fitness, serial_schedule, ScheduleError};
