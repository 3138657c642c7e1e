use mor_proj::types::{
    Client, ProblemInstance, RouteEntry, RouteEntryClient, Solution, ValidationError, Vehicle,
    VehicleDefinition, LIMIT, MAX_ROUTES,
};
use mor_proj::utils::{decimal, time_max};

fn a_client(demand: u64, service_time: u64, earliest: u64, latest: u64) -> Client {
    Client { id: 0, demand, service_time, earliest, latest, pos: [0, 0] }
}

fn definition(count: i32, capacity: u64, fixed_cost: u128, variable_cost: u128) -> VehicleDefinition {
    VehicleDefinition { count, capacity, fixed_cost, variable_cost }
}

fn raw() -> ProblemInstance {
    ProblemInstance {
        name: String::from("small"),
        source: 0,
        deviation_penalty: 2,
        allowed_deviation: 300,
        distances: vec![vec![0, 3, 4], vec![3, 0, 5], vec![4, 5, 0]],
        vehicle_definitions: vec![definition(2, 10, 7, 2), definition(1, 20, 9, 3)],
        vehicles: vec![],
        clients: vec![a_client(0, 0, 0, 100), a_client(4, 2, 10, 20), a_client(5, 1, 5, 10)],
        inited: false,
    }
}

fn small() -> ProblemInstance {
    let mut instance = raw();
    instance.init(true);
    instance
}

fn stop(client_id: usize, arrive_time: u64, leave_time: u64, wait_time: u64) -> RouteEntryClient {
    RouteEntryClient { client_id, arrive_time, leave_time, wait_time }
}

fn bare_route(vehicle_id: usize, clients: Vec<RouteEntryClient>) -> RouteEntry {
    RouteEntry {
        vehicle_id,
        clients,
        route_time: 0,
        route_fixed_cost: 0,
        route_variable_cost: 0,
        demand: 0,
    }
}

#[test]
fn time_max_is_the_later() {
    assert_eq!(time_max(3, 7), 7);
    assert_eq!(time_max(7, 3), 7);
    assert_eq!(time_max(5, 5), 5);
}

#[test]
fn init_expands_the_fleet() {
    let instance = small();
    assert!(instance.inited);
    assert_eq!(instance.vehicles.len(), 3);
    for (k, vehicle) in instance.vehicles.iter().enumerate() {
        assert_eq!(vehicle.id, k);
    }
    assert_eq!(instance.vehicles[1].capacity, 10);
    assert_eq!(instance.vehicles[1].fixed_cost, 7);
    assert_eq!(instance.vehicles[1].variable_cost, 2);
    assert_eq!(instance.vehicles[2].capacity, 20);
    assert_eq!(instance.vehicles[2].fixed_cost, 9);
    assert_eq!(instance.vehicles[2].variable_cost, 3);
    for (k, client) in instance.clients.iter().enumerate() {
        assert_eq!(client.id, k);
    }
    assert_eq!(instance.clients[1].latest, 20);
}

#[test]
fn init_for_distance_prices_every_vehicle_at_one() {
    let mut instance = raw();
    instance.init(false);
    assert_eq!(instance.vehicles.len(), 3);
    for vehicle in instance.vehicles.iter() {
        assert_eq!(vehicle.fixed_cost, 1);
        assert_eq!(vehicle.variable_cost, 1);
    }
    assert_eq!(instance.vehicles[2].capacity, 20);
}

#[test]
fn init_runs_once() {
    let mut instance = small();
    instance.vehicle_definitions.push(definition(5, 1, 1, 1));
    instance.init(false);
    assert_eq!(instance.vehicles.len(), 3);
    assert_eq!(instance.vehicles[0].fixed_cost, 7);
}

#[test]
fn default_instance_is_empty() {
    let instance = ProblemInstance::default();
    assert_eq!(instance.name, "Unnamed instance");
    assert_eq!(instance.source, 0);
    assert!(instance.clients.is_empty());
    assert!(instance.distances.is_empty());
    assert!(!instance.inited);
    assert_eq!(instance.validate(), Err(ValidationError::NoVehicles));
}

#[test]
fn validate_accepts_a_sound_instance() {
    assert_eq!(small().validate(), Ok(()));
}

#[test]
fn validate_names_the_first_short_row() {
    let mut instance = small();
    instance.distances[1] = vec![3, 0];
    instance.distances[2] = vec![];
    assert_eq!(
        instance.validate(),
        Err(ValidationError::DistanceVector { expected: 3, index: 1 })
    );
}

#[test]
fn validate_wants_vehicles() {
    let mut instance = raw();
    instance.vehicle_definitions.clear();
    instance.init(true);
    assert_eq!(instance.validate(), Err(ValidationError::NoVehicles));
}

#[test]
fn validate_wants_clients() {
    let mut instance = raw();
    instance.clients.clear();
    instance.distances.clear();
    instance.init(true);
    assert_eq!(instance.validate(), Err(ValidationError::NoClients));
}

#[test]
fn validate_wants_a_row_for_each_client() {
    let mut instance = small();
    instance.distances.pop();
    assert_eq!(
        instance.validate(),
        Err(ValidationError::DistanceRows { expected: 3, found: 2 })
    );
}

#[test]
fn validate_wants_the_depot_among_the_clients() {
    let mut instance = small();
    instance.source = 3;
    assert_eq!(instance.validate(), Err(ValidationError::SourceOutOfRange));
}

#[test]
fn validate_holds_values_to_the_limit() {
    let mut instance = small();
    instance.distances[0][1] = LIMIT;
    assert_eq!(instance.validate(), Ok(()));
    instance.distances[0][1] = LIMIT + 1;
    assert_eq!(instance.validate(), Err(ValidationError::TooLarge));

    let mut instance = small();
    instance.clients[2].service_time = LIMIT + 1;
    assert_eq!(instance.validate(), Err(ValidationError::TooLarge));

    let mut instance = small();
    instance.vehicles[0].fixed_cost = LIMIT as u128 + 1;
    assert_eq!(instance.validate(), Err(ValidationError::TooLarge));

    let mut instance = small();
    instance.allowed_deviation = LIMIT + 1;
    assert_eq!(instance.validate(), Err(ValidationError::TooLarge));

    let mut instance = raw();
    instance.vehicle_definitions = vec![definition(MAX_ROUTES as i32 + 1, 10, 1, 1)];
    instance.init(true);
    assert_eq!(instance.validate(), Err(ValidationError::TooLarge));
}

#[test]
fn validate_wants_ids_set() {
    assert_eq!(raw().validate(), Err(ValidationError::NoVehicles));
    let mut instance = small();
    instance.clients[1].id = 2;
    assert_eq!(instance.validate(), Err(ValidationError::NotInitialised));
    let mut instance = small();
    instance.vehicles.swap(0, 2);
    assert_eq!(instance.validate(), Err(ValidationError::NotInitialised));
}

#[test]
fn validate_wants_windows_in_order() {
    let mut instance = small();
    instance.clients[1].earliest = 21;
    assert_eq!(instance.validate(), Err(ValidationError::InvalidWindow));
    instance.clients[1].earliest = 20;
    assert_eq!(instance.validate(), Ok(()));
}

#[test]
fn validate_wants_a_depot_without_demand() {
    let mut instance = small();
    instance.clients[0].demand = 1;
    assert_eq!(instance.validate(), Err(ValidationError::DepotDemand));
}

#[test]
fn a_stop_waits_for_the_window() {
    let instance = small();
    let early = instance.create_route_entry_client(3, 1, 2);
    assert_eq!(early, stop(1, 10, 12, 5));
    let late = instance.create_route_entry_client(3, 1, 20);
    assert_eq!(late, stop(1, 23, 25, 0));
    let on_time = instance.create_route_entry_client(3, 1, 7);
    assert_eq!(on_time, stop(1, 10, 12, 0));
}

#[test]
fn a_move_is_feasible_before_the_extended_end() {
    let instance = small();
    /* client 1: the window ends at 20 and is 10 long, so that 3 more are allowed */
    assert!(instance.is_move_feasible(0, 1, 19));
    assert!(!instance.is_move_feasible(0, 1, 20));
    /* client 2: the window ends at 10 and is 5 long, so that 1.5 more are allowed */
    assert!(instance.is_move_feasible(0, 2, 7));
    assert!(!instance.is_move_feasible(0, 2, 8));
    assert!(instance.is_move_feasible(1, 2, 6));
    assert!(!instance.is_move_feasible(1, 2, 7));
}

#[test]
fn no_deviation_means_the_end_of_the_window() {
    let mut instance = small();
    instance.allowed_deviation = 0;
    assert!(instance.is_move_feasible(0, 1, 16));
    assert!(!instance.is_move_feasible(0, 1, 17));
}

#[test]
fn a_window_of_one_instant() {
    let mut instance = small();
    instance.clients[1].earliest = 20;
    assert!(instance.is_move_feasible(0, 1, 16));
    assert!(!instance.is_move_feasible(0, 1, 17));
    assert_eq!(instance.create_route_entry_client(3, 1, 0), stop(1, 20, 22, 17));
}

#[test]
fn route_costs_are_derived_from_the_stops() {
    let instance = small();
    let mut r = bare_route(2, vec![stop(0, 0, 0, 0), stop(1, 10, 12, 7), stop(2, 17, 18, 0), stop(0, 22, 22, 0)]);
    r.route_time = 99;
    r.demand = 99;
    instance.compute_route_costs(&mut r);
    assert_eq!(r.route_time, 12);
    assert_eq!(r.demand, 9);
    assert_eq!(r.route_fixed_cost, 9);
    assert_eq!(r.route_variable_cost, 36);
    assert_eq!(r.route_cost(), 45);
    assert_eq!(r.clients.len(), 4);
    assert_eq!(r.vehicle_id, 2);
}

#[test]
fn an_empty_route_costs_nothing() {
    let instance = small();
    let mut r = bare_route(1, vec![]);
    r.route_fixed_cost = 5;
    r.route_variable_cost = 5;
    instance.compute_route_costs(&mut r);
    assert_eq!(r, bare_route(1, vec![]));
    assert_eq!(r.route_cost(), 0);
    assert_eq!(RouteEntry::default(), bare_route(0, vec![]));
}

#[test]
fn the_value_is_the_total_cost() {
    let instance = small();
    let mut first = bare_route(0, vec![stop(0, 0, 0, 0), stop(1, 10, 12, 7), stop(0, 15, 15, 0)]);
    let mut second = bare_route(2, vec![stop(0, 0, 0, 0), stop(2, 5, 6, 1), stop(0, 10, 10, 0)]);
    instance.compute_route_costs(&mut first);
    instance.compute_route_costs(&mut second);
    let mut solution = Solution::default();
    assert_eq!(solution.value, 1 << 31);
    solution.routes.push(first);
    solution.routes.push(second);
    assert_eq!(solution.total_route_time(), 14);
    instance.evaluate_sol(&mut solution);
    assert_eq!(solution.value, (7 + 6 * 2) + (9 + 8 * 3));
    assert_eq!(solution.distance, 14);
    assert_eq!(solution.construction_value, 0);
    assert_eq!(solution.iter_found, 0);
    let copy = solution.clone();
    assert_eq!(copy, solution);
}

#[test]
fn vehicles_keep_their_fields() {
    let vehicle = Vehicle { id: 4, capacity: 3, fixed_cost: 2, variable_cost: 1 };
    assert_eq!((vehicle.id, vehicle.capacity, vehicle.fixed_cost, vehicle.variable_cost), (4, 3, 2, 1));
}

#[test]
fn faults_are_said_in_words() {
    assert_eq!(
        ValidationError::DistanceVector { expected: 12, index: 0 }.message(),
        "Expected distance vector of 12 on index 0"
    );
    assert_eq!(
        ValidationError::DistanceVector { expected: 3, index: 1045 }.message(),
        "Expected distance vector of 3 on index 1045"
    );
    assert_eq!(ValidationError::NoVehicles.message(), "You must specify at least one vehicle");
    assert_eq!(ValidationError::NoClients.message(), "You must specify some clients");
    assert_eq!(
        ValidationError::DistanceRows { expected: 10, found: 9 }.message(),
        "Expected 10 distance vectors, found 9"
    );
    assert_eq!(ValidationError::SourceOutOfRange.message(), "The source is not one of the clients");
    assert_eq!(ValidationError::TooLarge.message(), "A value or a count is beyond the limits");
    assert_eq!(ValidationError::NotInitialised.message(), "The instance is not initialised");
    assert_eq!(ValidationError::InvalidWindow.message(), "A time window ends before it starts");
    assert_eq!(ValidationError::DepotDemand.message(), "The source must have no demand");
}

#[test]
fn numbers_are_written_in_decimal() {
    assert_eq!(decimal(0), "0");
    assert_eq!(decimal(7), "7");
    assert_eq!(decimal(10), "10");
    assert_eq!(decimal(1234567890), "1234567890");
    assert_eq!(decimal(usize::MAX), usize::MAX.to_string());
}

#[test]
fn the_fleet_is_counted() {
    let mut instance = raw();
    assert_eq!(instance.fleet_size(true), Some(3));
    instance.vehicle_definitions.push(definition(0, 1, 1, 1));
    assert_eq!(instance.fleet_size(false), Some(3));
    instance.vehicle_definitions.push(definition(-1, 1, 1, 1));
    assert_eq!(instance.fleet_size(true), None);
    instance.vehicle_definitions.clear();
    assert_eq!(instance.fleet_size(true), Some(0));
}

#[test]
fn routes_are_checked() {
    let instance = small();
    let mut r = bare_route(2, vec![stop(0, 0, 0, 0), stop(1, 10, 12, 7), stop(0, 15, 15, 0)]);
    assert!(r.is_valid(&instance));
    r.vehicle_id = 3;
    assert!(!r.is_valid(&instance));
    r.vehicle_id = 0;
    r.clients[1].client_id = 3;
    assert!(!r.is_valid(&instance));
    r.clients[1].client_id = 2;
    r.clients[2].leave_time = mor_proj::types::HORIZON + 1;
    assert!(!r.is_valid(&instance));
    r.clients[2].leave_time = mor_proj::types::HORIZON;
    assert!(r.is_valid(&instance));
    r.route_fixed_cost = LIMIT as u128 + 1;
    assert!(!r.is_valid(&instance));
}
