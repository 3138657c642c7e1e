use vstd::prelude::*;
use crate::types::others::{Cost, RouteEntryClient, Time, LIMIT, SCALE};
use crate::types::problem_instance::{row_ok, ProblemInstance};

verus! {

/// The parameters of the search. Greediness parameters and weights are in
/// thousandths.
#[derive(Debug, Clone, Copy, PartialEq, Eq, Structural)]
pub struct GraspConfig {
    /// The weight of the time left until a client's window closes.
    pub time_weight: u64,
    /// The weight of the travel cost.
    pub distance_weight: u64,
    /// The weight of the time spent waiting for a window to open.
    pub wait_time_weight: u64,
    /// The greediness of the choice among all moves.
    pub rcl_alpha: u64,
    pub rcl_min_size: usize,
    pub moves_per_vehicle_min_size: usize,
    /// The greediness of the choice among the moves of one vehicle.
    pub moves_per_vehicle_alpha: u64,
    /// The weight of a vehicle's fixed cost in its first move.
    pub new_vehicle_penalty_weight: u64,
    /// The longest time that a vehicle may wait at a client.
    pub max_wait_time: Time,
    pub local_search_iters: i32,
    pub local_search_first_improvement: bool,
    pub opt2_search_enabled: bool,
    pub opt2_search_first_improvement: bool,
    pub insertion_search_enabled: bool,
    pub insertion_search_first_improvement: bool,
    pub insertion_search_sequence_length: usize,
}

impl GraspConfig {
    /// Both greediness parameters are at most one, and every weight is
    /// within the limit.
    pub open spec fn wf(&self) -> bool {
        &&& self.rcl_alpha <= SCALE
        &&& self.moves_per_vehicle_alpha <= SCALE
        &&& self.time_weight <= LIMIT
        &&& self.distance_weight <= LIMIT
        &&& self.wait_time_weight <= LIMIT
        &&& self.new_vehicle_penalty_weight <= LIMIT
    }

    /// Whether the parameters are well formed.
    pub fn is_valid(&self) -> (r: bool)
        ensures
            r == self.wf(),
    {
        self.rcl_alpha <= SCALE && self.moves_per_vehicle_alpha <= SCALE && self.time_weight
            <= LIMIT && self.distance_weight <= LIMIT && self.wait_time_weight <= LIMIT
            && self.new_vehicle_penalty_weight <= LIMIT
    }
}

impl GraspConfig {
    /// The parameters that a search has unless it is given others.
    pub open spec fn standard() -> GraspConfig {
        GraspConfig {
            time_weight: 200,
            distance_weight: 300,
            wait_time_weight: 500,
            rcl_alpha: 300,
            rcl_min_size: 1,
            moves_per_vehicle_min_size: 2,
            moves_per_vehicle_alpha: 50,
            new_vehicle_penalty_weight: 20000,
            max_wait_time: 10000,
            local_search_iters: 100,
            local_search_first_improvement: true,
            opt2_search_enabled: true,
            opt2_search_first_improvement: false,
            insertion_search_enabled: true,
            insertion_search_first_improvement: true,
            insertion_search_sequence_length: 1,
        }
    }
}

impl Default for GraspConfig {
    /// The standard parameters.
    fn default() -> (r: GraspConfig)
        ensures
            r == GraspConfig::standard(),
            r.wf(),
    {
        GraspConfig {
            time_weight: 200,
            distance_weight: 300,
            wait_time_weight: 500,
            rcl_alpha: 300,
            rcl_min_size: 1,
            moves_per_vehicle_min_size: 2,
            moves_per_vehicle_alpha: 50,
            new_vehicle_penalty_weight: 20000,
            max_wait_time: 10000,
            local_search_iters: 100,
            local_search_first_improvement: true,
            opt2_search_enabled: true,
            opt2_search_first_improvement: false,
            insertion_search_enabled: true,
            insertion_search_first_improvement: true,
            insertion_search_sequence_length: 1,
        }
    }
}

/// A move of the construction: the vehicle goes on to the target client.
/// The cost is in thousandths of a cost unit.
#[derive(Debug, Clone, Copy, PartialEq, Eq, Structural)]
pub struct GraspRouteMove {
    pub vehicle_id: usize,
    pub target_client_id: usize,
    pub cost: Cost,
}

/// The route of one vehicle while it is being built.
#[derive(Debug)]
pub struct GraspRoute {
    pub vehicle_id: usize,
    /// The client at which the vehicle stands.
    pub current_client_id: usize,
    /// The time at which the vehicle leaves that client.
    pub current_time: Time,
    /// The total travel time so far.
    pub route_time: Time,
    pub capacity_left: u64,
    pub route: Vec<RouteEntryClient>,
}

impl GraspRoute {
    /// The vehicle can go on to `target`: it has the capacity, and the
    /// times fit the machine's integers.
    pub open spec fn can_go(&self, target: int, problem: &ProblemInstance) -> bool {
        &&& problem.clients@[target].demand <= self.capacity_left
        &&& self.route_time + problem.dist(self.current_client_id as int, target) <= u64::MAX
        &&& problem.stop_fits(
            problem.dist(self.current_client_id as int, target),
            target,
            self.current_time,
        )
    }

    /// Moves the vehicle on to `target_client_id`: the stop is appended, the
    /// travel time grows by the arc, the capacity shrinks by the demand, and
    /// the vehicle now stands at the target and leaves it when the stop
    /// ends.
    pub fn update(&mut self, target_client_id: usize, problem: &ProblemInstance)
        requires
            problem.wf(),
            target_client_id < problem.clients.len(),
            old(self).current_client_id < problem.clients.len(),
            old(self).can_go(target_client_id as int, problem),
        ensures
            final(self).vehicle_id == old(self).vehicle_id,
            final(self).current_client_id == target_client_id,
            final(self).capacity_left == old(self).capacity_left
                - problem.clients@[target_client_id as int].demand,
            final(self).route_time == old(self).route_time + problem.dist(
                old(self).current_client_id as int,
                target_client_id as int,
            ),
            final(self).route@ == old(self).route@.push(
                problem.stop_at(
                    problem.dist(old(self).current_client_id as int, target_client_id as int),
                    target_client_id as int,
                    old(self).current_time,
                ),
            ),
            final(self).current_time == final(self).route@.last().leave_time,
    {
        assert(row_ok(
            problem.distances@[self.current_client_id as int]@,
            problem.clients.len() as int,
        ));
        let client_to = &problem.clients[target_client_id];
        let arc_time = problem.distances[self.current_client_id][target_client_id];

        self.current_client_id = target_client_id;
        self.capacity_left = self.capacity_left - client_to.demand;
        self.route_time = self.route_time + arc_time;

        let route_entry_client = problem.create_route_entry_client(
            arc_time,
            target_client_id,
            self.current_time,
        );
        self.current_time = route_entry_client.leave_time;

        self.route.push(route_entry_client);
    }
}

} // verus!
