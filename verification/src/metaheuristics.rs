//! The search: the construction of a solution, the two local-search moves
//! and their driver, and what the search keeps true of its solutions.

pub mod construction;
pub mod coverage;
pub mod grasp;
pub mod insertion_search;
pub mod invariants;
pub mod laws;
pub mod local_search;
pub mod opt2_search;
pub mod order;
pub mod rounds;
pub mod schedule;
pub mod types;
pub mod utils;

pub use grasp::{BasicMove, Grasp};
pub use local_search::{LocalSearch, LocalSearchNotFound};
pub use types::{GraspConfig, GraspRoute, GraspRouteMove};
