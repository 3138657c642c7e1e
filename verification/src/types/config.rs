use vstd::prelude::*;
use super::problem_instance::ProblemInstance;
use super::solution::Solution;
use crate::metaheuristics::types::GraspConfig;

verus! {

/// What a run is given besides the instance.
#[derive(Debug, Clone, Copy, PartialEq, Eq, Structural)]
pub struct Config {
    /// The iterations that each worker makes.
    pub iters: i32,
    pub grasp_config: GraspConfig,
    /// The number of workers.
    pub number_of_threads: i32,
    /// Whether to optimise money; distance otherwise.
    pub optimize_cost: bool,
}

impl Default for Config {
    /// Ten iterations of one worker with the standard parameters, for
    /// money.
    fn default() -> (r: Config)
        ensures
            r == (Config {
                iters: 10,
                grasp_config: GraspConfig::standard(),
                number_of_threads: 1,
                optimize_cost: true,
            }),
            r.grasp_config.wf(),
    {
        Config {
            iters: 10,
            grasp_config: GraspConfig::default(),
            number_of_threads: 1,
            optimize_cost: true,
        }
    }
}

/// What a run leaves behind: the instance with the solution found for it.
#[derive(Debug)]
pub struct Output {
    pub name: String,
    pub solution: Solution,
    pub instance: ProblemInstance,
}

} // verus!
