//! The problem model: instance, clients, vehicles, routes and solutions.

pub mod config;
pub mod others;
pub mod problem_instance;
pub mod solution;
pub mod validation;

pub use config::{Config, Output};
pub use others::{
    Client, Cost, RouteEntry, RouteEntryClient, RouteModel, Time, Vehicle, VehicleDefinition,
    HORIZON, LIMIT, MAX_ROUTES, MAX_STOPS, SCALE,
};
pub use problem_instance::ProblemInstance;
pub use solution::{Solution, SolutionModel};
pub use validation::ValidationError;
