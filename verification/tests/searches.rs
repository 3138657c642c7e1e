use mor_proj::metaheuristics::insertion_search::insertion_search;
use mor_proj::metaheuristics::opt2_search::opt2_search;
use mor_proj::metaheuristics::GraspRoute;
use mor_proj::types::{Client, ProblemInstance, RouteEntry, VehicleDefinition};

const PLACES: [i64; 5] = [0, 1, -1, -2, 2];

fn line(capacity: u64, latest: u64) -> ProblemInstance {
    let clients = (0..5)
        .map(|k| Client {
            id: 0,
            demand: if k == 0 { 0 } else { 1 },
            service_time: 0,
            earliest: 0,
            latest: if k == 0 { 1000 } else { latest },
            pos: [PLACES[k], 0],
        })
        .collect();
    let distances = (0..5)
        .map(|a| (0..5).map(|b| (PLACES[a] - PLACES[b]).unsigned_abs()).collect())
        .collect();
    let mut instance = ProblemInstance {
        name: String::from("line"),
        source: 0,
        deviation_penalty: 0,
        allowed_deviation: 0,
        distances,
        vehicle_definitions: vec![VehicleDefinition {
            count: 2,
            capacity,
            fixed_cost: 1,
            variable_cost: 1,
        }],
        vehicles: vec![],
        clients,
        inited: false,
    };
    instance.init(true);
    assert_eq!(instance.validate(), Ok(()));
    instance
}

fn timed_route(instance: &ProblemInstance, vehicle_id: usize, ids: &[usize]) -> RouteEntry {
    let mut clients = vec![];
    let mut from = instance.source;
    let mut time = instance.clients[from].earliest;
    for id in ids {
        let stop = instance.create_route_entry_client(instance.distances[from][*id], *id, time);
        from = *id;
        time = stop.leave_time;
        clients.push(stop);
    }
    let mut route = RouteEntry {
        vehicle_id,
        clients,
        route_time: 0,
        route_fixed_cost: 0,
        route_variable_cost: 0,
        demand: 0,
    };
    instance.compute_route_costs(&mut route);
    route
}

fn stops_of(route: &RouteEntry) -> Vec<usize> {
    route.clients.iter().map(|c| c.client_id).collect()
}

#[test]
fn exchange_untangles_two_routes() {
    let instance = line(10, 1000);
    let first = timed_route(&instance, 0, &[0, 1, 3, 0]);
    let second = timed_route(&instance, 1, &[0, 2, 4, 0]);
    assert_eq!(first.route_cost() + second.route_cost(), 14);
    for policy in [true, false] {
        let (new1, new2) = opt2_search(&instance, &first, &second, policy).unwrap();
        assert_eq!(stops_of(&new1), vec![0, 1, 4, 0]);
        assert_eq!(stops_of(&new2), vec![0, 2, 3, 0]);
        assert_eq!(new1, timed_route(&instance, 0, &[0, 1, 4, 0]));
        assert_eq!(new2, timed_route(&instance, 1, &[0, 2, 3, 0]));
        assert_eq!(new1.route_cost() + new2.route_cost(), 10);
        assert_eq!(new1.clients[2].arrive_time, 2);
        assert_eq!(new1.clients[3].arrive_time, 4);
        assert_eq!(new1.demand, 2);
        assert_eq!(new1.route_time, 4);
    }
}

#[test]
fn exchange_finds_nothing_to_gain() {
    let instance = line(10, 1000);
    let first = timed_route(&instance, 0, &[0, 1, 4, 0]);
    let second = timed_route(&instance, 1, &[0, 2, 3, 0]);
    assert_eq!(opt2_search(&instance, &first, &second, false), None);
    assert_eq!(opt2_search(&instance, &first, &second, true), None);
    let short = timed_route(&instance, 1, &[0, 0]);
    assert_eq!(opt2_search(&instance, &first, &short, false), None);
}

#[test]
fn exchange_respects_the_windows() {
    /* client 4 is reached at 2 after client 1, and its window ends at 2 */
    let instance = line(10, 2);
    let first = timed_route(&instance, 0, &[0, 1, 3, 0]);
    let second = timed_route(&instance, 1, &[0, 2, 4, 0]);
    assert_eq!(opt2_search(&instance, &first, &second, false), None);
    let instance = line(10, 3);
    let first = timed_route(&instance, 0, &[0, 1, 3, 0]);
    let second = timed_route(&instance, 1, &[0, 2, 4, 0]);
    assert!(opt2_search(&instance, &first, &second, false).is_some());
}

#[test]
fn exchange_respects_the_capacity() {
    let mut instance = line(2, 1000);
    let first = timed_route(&instance, 0, &[0, 1, 0]);
    let second = timed_route(&instance, 1, &[0, 3, 2, 4, 0]);
    /* the tail 2, 4 would give the first route a load of three */
    instance.vehicles[1].capacity = 3;
    let found = opt2_search(&instance, &first, &second, false);
    for (new1, new2) in found.iter() {
        assert!(new1.demand <= 2);
        assert!(new2.demand <= 3);
    }
    instance.vehicles[0].capacity = 3;
    let (new1, new2) = opt2_search(&instance, &first, &second, false).unwrap();
    assert!(new1.route_cost() + new2.route_cost() < first.route_cost() + second.route_cost());
    assert!(new1.demand <= 3 && new2.demand <= 3);
}

#[test]
fn insertion_moves_a_client() {
    let instance = line(10, 1000);
    let first = timed_route(&instance, 0, &[0, 1, 3, 0]);
    let second = timed_route(&instance, 1, &[0, 2, 4, 0]);
    for policy in [true, false] {
        let (new1, new2) = insertion_search(&instance, &first, &second, 1, policy).unwrap();
        assert_eq!(new1, timed_route(&instance, 0, &[0, 1, 2, 3, 0]));
        assert_eq!(stops_of(&new2), vec![0, 4, 0]);
        assert_eq!(new2.route_time, 4);
        assert_eq!(new2.route_cost(), 5);
        assert_eq!(new1.route_cost() + new2.route_cost(), 12);
        assert_eq!(new1.demand, 3);
        assert_eq!(new2.demand, 1);
    }
}

#[test]
fn insertion_moves_two_clients() {
    let instance = line(10, 1000);
    let first = timed_route(&instance, 0, &[0, 1, 0]);
    let second = timed_route(&instance, 1, &[0, 2, 4, 3, 0]);
    assert_eq!(first.route_cost() + second.route_cost(), 14);
    let (new1, new2) = insertion_search(&instance, &first, &second, 2, false).unwrap();
    assert_eq!(new1, timed_route(&instance, 0, &[0, 1, 4, 3, 0]));
    assert_eq!(stops_of(&new2), vec![0, 2, 0]);
    assert_eq!(new1.route_cost() + new2.route_cost(), 12);
    assert_eq!(insertion_search(&instance, &first, &second, 3, false), None);
    assert_eq!(insertion_search(&instance, &first, &second, 4, false), None);
    /* nothing moves, and nothing is gained */
    assert_eq!(insertion_search(&instance, &first, &second, 0, false), None);
}

#[test]
fn insertion_respects_the_capacity() {
    let instance = line(2, 1000);
    let first = timed_route(&instance, 0, &[0, 1, 3, 0]);
    let second = timed_route(&instance, 1, &[0, 2, 4, 0]);
    assert_eq!(insertion_search(&instance, &first, &second, 1, true), None);
    assert_eq!(insertion_search(&instance, &first, &second, 1, false), None);
}

#[test]
fn insertion_respects_the_windows() {
    /* behind client 1, client 2 is reached at 3 and client 3 at 4 */
    let instance = line(10, 4);
    let first = timed_route(&instance, 0, &[0, 1, 3, 0]);
    let second = timed_route(&instance, 1, &[0, 2, 4, 0]);
    let found = insertion_search(&instance, &first, &second, 1, true);
    for (new1, _) in found.iter() {
        for stop in new1.clients[1..new1.clients.len() - 1].iter() {
            assert!(stop.arrive_time < 4);
        }
    }
    let instance = line(10, 5);
    let first = timed_route(&instance, 0, &[0, 1, 3, 0]);
    let second = timed_route(&instance, 1, &[0, 2, 4, 0]);
    let (new1, _) = insertion_search(&instance, &first, &second, 1, true).unwrap();
    assert_eq!(stops_of(&new1), vec![0, 1, 2, 3, 0]);
}

#[test]
fn a_vehicle_moves_on() {
    let instance = line(10, 1000);
    let mut vehicle = GraspRoute {
        vehicle_id: 1,
        current_client_id: 0,
        current_time: 0,
        route_time: 0,
        capacity_left: 10,
        route: vec![],
    };
    vehicle.update(0, &instance);
    vehicle.update(3, &instance);
    vehicle.update(4, &instance);
    assert_eq!(vehicle.vehicle_id, 1);
    assert_eq!(vehicle.current_client_id, 4);
    assert_eq!(vehicle.current_time, 6);
    assert_eq!(vehicle.route_time, 6);
    assert_eq!(vehicle.capacity_left, 8);
    assert_eq!(vehicle.route.len(), 3);
    assert_eq!(vehicle.route[2], instance.create_route_entry_client(4, 4, 2));
}

#[test]
fn solutions_are_checked() {
    let instance = line(10, 1000);
    let mut solution = mor_proj::types::Solution {
        routes: vec![timed_route(&instance, 0, &[0, 1, 3, 0]), timed_route(&instance, 1, &[0, 0])],
        value: 0,
        construction_value: 0,
        distance: 0,
        iter_found: 0,
    };
    assert!(solution.is_valid(&instance));
    assert!(mor_proj::metaheuristics::invariants::is_framed(&solution.routes[0], &instance));
    solution.routes.push(timed_route(&instance, 1, &[0, 2, 0, 4, 0]));
    assert!(!solution.is_valid(&instance));
    solution.routes[2] = timed_route(&instance, 1, &[0, 2, 4]);
    assert!(!solution.is_valid(&instance));
    solution.routes[2] = timed_route(&instance, 1, &[2, 4, 0]);
    assert!(!solution.is_valid(&instance));
    solution.routes[2] = timed_route(&instance, 1, &[0]);
    assert!(!solution.is_valid(&instance));
    solution.routes[2] = timed_route(&instance, 1, &[0, 2, 4, 0]);
    solution.routes[2].vehicle_id = 2;
    assert!(!solution.is_valid(&instance));
    solution.routes[2] = timed_route(&instance, 1, &[0, 2, 4, 0]);
    assert!(solution.is_valid(&instance));
}

#[test]
fn local_search_improves_a_tangled_solution() {
    let instance = line(10, 1000);
    let grasp = mor_proj::metaheuristics::Grasp {
        config: mor_proj::types::Config::default().grasp_config,
    };
    let mut solution = mor_proj::types::Solution {
        routes: vec![timed_route(&instance, 0, &[0, 1, 3, 0]), timed_route(&instance, 1, &[0, 2, 4, 0])],
        value: 0,
        construction_value: 99,
        distance: 0,
        iter_found: 5,
    };
    instance.evaluate_sol(&mut solution);
    assert_eq!(solution.value, 14);
    let better = grasp.local_search(solution, &instance).unwrap();
    assert!(better.value < 14);
    assert_eq!(better.construction_value, 99);
    assert_eq!(better.iter_found, 5);
    let mut all: Vec<usize> = better.routes.iter().flat_map(|r| stops_of(r)).filter(|c| *c != 0).collect();
    all.sort();
    assert_eq!(all, vec![1, 2, 3, 4]);
    let total: u128 = better.routes.iter().map(|r| r.route_cost()).sum();
    assert_eq!(total, better.value);
}

#[test]
fn construction_reaches_every_client_in_time() {
    let instance = line(2, 6);
    let grasp = mor_proj::metaheuristics::Grasp {
        config: mor_proj::types::Config::default().grasp_config,
    };
    for _ in 0..20 {
        let solution = match grasp.build_solution(&instance) {
            Ok(solution) => solution,
            Err(_) => continue,
        };
        assert_eq!(solution.value, solution.construction_value);
        for route in solution.routes.iter() {
            for k in 1..route.clients.len() - 1 {
                let from = &route.clients[k - 1];
                assert!(instance.is_move_feasible(from.client_id, route.clients[k].client_id, from.leave_time));
            }
        }
    }
}

#[test]
fn one_pass_of_exchanges_makes_one_exchange() {
    let instance = line(10, 1000);
    let mut config = mor_proj::types::Config::default().grasp_config;
    config.insertion_search_enabled = false;
    config.local_search_iters = 1;
    let grasp = mor_proj::metaheuristics::Grasp { config };
    let mut solution = mor_proj::types::Solution {
        routes: vec![timed_route(&instance, 0, &[0, 1, 3, 0]), timed_route(&instance, 1, &[0, 2, 4, 0])],
        value: 0,
        construction_value: 0,
        distance: 0,
        iter_found: 0,
    };
    instance.evaluate_sol(&mut solution);
    let better = grasp.local_search(solution.clone(), &instance).unwrap();
    assert_eq!(
        better.routes,
        vec![timed_route(&instance, 0, &[0, 1, 4, 0]), timed_route(&instance, 1, &[0, 2, 3, 0])]
    );
    assert_eq!(better.value, 10);
    assert_eq!(better.distance, 8);
    /* nothing is left to exchange, and the search stops where it is */
    let mut config = config;
    config.local_search_iters = 5;
    let grasp = mor_proj::metaheuristics::Grasp { config };
    assert_eq!(grasp.local_search(better.clone(), &instance).unwrap(), better);
    assert_eq!(grasp.local_search(solution, &instance).unwrap(), better);
}

#[test]
fn a_pass_goes_on_to_insertions_after_exchanges_found_nothing() {
    let instance = line(10, 1000);
    let mut config = mor_proj::types::Config::default().grasp_config;
    config.local_search_iters = 3;
    let grasp = mor_proj::metaheuristics::Grasp { config };
    /* no exchange lowers the cost of these two, but an insertion does */
    let mut solution = mor_proj::types::Solution {
        routes: vec![timed_route(&instance, 0, &[0, 1, 4, 0]), timed_route(&instance, 1, &[0, 3, 0])],
        value: 0,
        construction_value: 0,
        distance: 0,
        iter_found: 0,
    };
    instance.evaluate_sol(&mut solution);
    assert_eq!(
        opt2_search(&instance, &solution.routes[0], &solution.routes[1], false),
        None
    );
    assert_eq!(
        opt2_search(&instance, &solution.routes[1], &solution.routes[0], false),
        None
    );
    let after = grasp.local_search(solution.clone(), &instance).unwrap();
    let mut only_insertions = config;
    only_insertions.opt2_search_enabled = false;
    only_insertions.local_search_iters = 1;
    let one = mor_proj::metaheuristics::Grasp { config: only_insertions }
        .local_search(solution.clone(), &instance)
        .unwrap();
    /* the pass stops after its round of insertions, whatever that found */
    assert_eq!(after, one);
}
