//! A GRASP metaheuristic engine for the capacitated vehicle routing problem
//! with time windows.
//!
//! Given clients with demands and time windows, a fleet of vehicles with
//! capacities and costs, and the travel times between the clients, the
//! engine builds routes that start and end at a depot and visit every
//! client once: a randomised greedy construction, improved by exchanges of
//! route tails and by insertions of clients from one route into another,
//! repeated by several workers of which the best result is kept.
//!
//! All quantities are exact integers. Times are whole ticks, demands whole
//! units and costs whole cost units; the fractional parameters (the allowed
//! deviation, the greediness parameters and the weights of the move cost)
//! are given in thousandths. The scalars of an instance are at most
//! `types::LIMIT`, a route has at most `types::MAX_STOPS` stops and a
//! solution at most `types::MAX_ROUTES` routes; within these limits no
//! computation overflows.

pub mod logger;
pub mod metaheuristics;
pub mod runner;
pub mod types;
pub mod utils;
