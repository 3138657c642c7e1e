use mor_proj::metaheuristics::grasp::Grasp;
use mor_proj::runner::{do_run, run};
use mor_proj::types::{Client, Config, ProblemInstance, Solution, VehicleDefinition};

fn client(demand: u64, service_time: u64, earliest: u64, latest: u64) -> Client {
    Client { id: 0, demand, service_time, earliest, latest, pos: [0, 0] }
}

fn instance(
    definitions: Vec<VehicleDefinition>,
    clients: Vec<Client>,
    distances: Vec<Vec<u64>>,
) -> ProblemInstance {
    let mut instance = ProblemInstance {
        name: String::from("test"),
        source: 0,
        deviation_penalty: 0,
        allowed_deviation: 0,
        distances,
        vehicle_definitions: definitions,
        vehicles: vec![],
        clients,
        inited: false,
    };
    instance.init(true);
    assert_eq!(instance.validate(), Ok(()));
    instance
}

fn fleet(count: i32, capacity: u64) -> Vec<VehicleDefinition> {
    vec![VehicleDefinition { count, capacity, fixed_cost: 1, variable_cost: 1 }]
}

fn ids(solution: &Solution, route: usize) -> Vec<usize> {
    solution.routes[route].clients.iter().map(|c| c.client_id).collect()
}

fn capacity_split() -> ProblemInstance {
    instance(
        fleet(2, 10),
        vec![client(0, 0, 0, 1000), client(6, 0, 0, 1000), client(6, 0, 0, 1000)],
        vec![vec![0, 10, 10], vec![10, 0, 10], vec![10, 10, 0]],
    )
}

#[test]
fn trivial_instance_has_one_route() {
    let instance = instance(
        fleet(1, 10),
        vec![client(0, 0, 0, 1000), client(5, 0, 0, 1000)],
        vec![vec![0, 3], vec![3, 0]],
    );
    let config = Config::default();
    let solution = run(&config, &instance).expect("a solution");
    assert_eq!(solution.routes.len(), 1);
    assert_eq!(ids(&solution, 0), vec![0, 1, 0]);
    assert_eq!(solution.routes[0].route_time, 6);
    assert_eq!(solution.value, 7);
    assert_eq!(solution.construction_value, 7);
    assert_eq!(solution.distance, 6);
    assert_eq!(solution.iter_found, config.iters - 1);
}

#[test]
fn trivial_instance_times() {
    let instance = instance(
        fleet(1, 10),
        vec![client(0, 0, 0, 1000), client(5, 2, 10, 1000)],
        vec![vec![0, 3], vec![3, 0]],
    );
    let solution = Grasp { config: Config::default().grasp_config }.iterate(&instance).unwrap();
    let stops = &solution.routes[0].clients;
    assert_eq!((stops[0].arrive_time, stops[0].wait_time, stops[0].leave_time), (0, 0, 0));
    assert_eq!((stops[1].arrive_time, stops[1].wait_time, stops[1].leave_time), (10, 7, 12));
    assert_eq!((stops[2].arrive_time, stops[2].wait_time, stops[2].leave_time), (15, 0, 15));
    assert_eq!(solution.routes[0].demand, 5);
    assert_eq!(solution.routes[0].route_fixed_cost, 1);
    assert_eq!(solution.routes[0].route_variable_cost, 6);
}

#[test]
fn capacity_split_uses_two_routes() {
    let instance = capacity_split();
    let solution = run(&Config::default(), &instance).expect("a solution");
    assert_eq!(solution.routes.len(), 2);
    let mut visited = vec![];
    for route in solution.routes.iter() {
        assert!(route.clients.len() >= 3);
        assert!(route.demand <= 10);
        assert_eq!(route.clients.first().unwrap().client_id, 0);
        assert_eq!(route.clients.last().unwrap().client_id, 0);
        for stop in &route.clients[1..route.clients.len() - 1] {
            visited.push(stop.client_id);
        }
    }
    visited.sort();
    assert_eq!(visited, vec![1, 2]);
    assert_eq!(solution.value, 42);
}

#[test]
fn time_windows_order_the_route() {
    let instance = instance(
        fleet(1, 100),
        vec![client(0, 0, 0, 1000), client(1, 0, 0, 5), client(1, 0, 20, 25)],
        vec![vec![0, 1, 1], vec![1, 0, 1], vec![1, 1, 0]],
    );
    for _ in 0..20 {
        let solution = run(&Config::default(), &instance).expect("a solution");
        assert_eq!(solution.routes.len(), 1);
        assert_eq!(ids(&solution, 0), vec![0, 1, 2, 0]);
    }
}

#[test]
fn infeasible_instance_has_no_solution() {
    let instance = instance(
        fleet(1, 1),
        vec![client(0, 0, 0, 1000), client(2, 0, 0, 1000)],
        vec![vec![0, 3], vec![3, 0]],
    );
    let config = Config::default();
    assert_eq!(do_run(&config, &instance), None);
    assert_eq!(run(&config, &instance), None);
    let failure = Grasp { config: config.grasp_config }.iterate(&instance);
    assert_eq!(failure, Err(String::from("Couldn't find a feasible solution")));
}

#[test]
fn parallel_run_is_no_worse_than_one_worker() {
    let instance = capacity_split();
    let mut config = Config::default();
    config.iters = 50;
    config.number_of_threads = 4;
    let together = run(&config, &instance).expect("a solution");
    config.number_of_threads = 1;
    let alone = run(&config, &instance).expect("a solution");
    assert!(together.value <= alone.value);
    let worker = do_run(&config, &instance).expect("a solution");
    assert!(together.value <= worker.value);
}

#[test]
fn no_workers_no_solution() {
    let instance = capacity_split();
    let mut config = Config::default();
    config.number_of_threads = 0;
    assert_eq!(run(&config, &instance), None);
    config.number_of_threads = 2;
    config.iters = 0;
    assert_eq!(run(&config, &instance), None);
}

#[test]
fn depot_alone_gives_an_empty_solution() {
    let instance = instance(fleet(1, 10), vec![client(0, 0, 0, 1000)], vec![vec![0]]);
    let solution = Grasp { config: Config::default().grasp_config }.iterate(&instance).unwrap();
    assert_eq!(solution.routes.len(), 0);
    assert_eq!(solution.value, 0);
}

#[test]
fn every_client_is_visited_once() {
    let n = 9;
    let mut clients = vec![client(0, 0, 0, 10_000)];
    for k in 1..n {
        clients.push(client(3, 1, 0, 10_000 - k as u64));
    }
    let distances: Vec<Vec<u64>> = (0..n)
        .map(|a| (0..n).map(|b| if a == b { 0 } else { 5 + ((a * 7 + b * 3) % 11) as u64 }).collect())
        .collect();
    let instance = instance(fleet(4, 10), clients, distances);
    let grasp = Grasp { config: Config::default().grasp_config };
    for _ in 0..30 {
        let solution = grasp.iterate(&instance).unwrap();
        let mut seen = vec![0; n];
        let mut total = 0u128;
        for route in solution.routes.iter() {
            assert_eq!(route.clients.first().unwrap().client_id, 0);
            assert_eq!(route.clients.last().unwrap().client_id, 0);
            assert!(route.demand <= 10);
            let mut load = 0;
            for (k, stop) in route.clients.iter().enumerate() {
                seen[stop.client_id] += 1;
                load += instance.clients[stop.client_id].demand;
                assert_eq!(stop.leave_time, stop.arrive_time + instance.clients[stop.client_id].service_time);
                if k > 0 {
                    let before = &route.clients[k - 1];
                    let reach = before.leave_time + instance.distances[before.client_id][stop.client_id];
                    assert_eq!(stop.arrive_time, reach.max(instance.clients[stop.client_id].earliest));
                    assert_eq!(stop.wait_time, instance.clients[stop.client_id].earliest.saturating_sub(reach));
                }
            }
            assert_eq!(load, route.demand);
            total += route.route_cost();
        }
        for c in 1..n {
            assert_eq!(seen[c], 1);
        }
        assert_eq!(solution.value, total);
        assert!(solution.value <= solution.construction_value);
    }
}

fn two_windows(max_wait_time: u64) -> (ProblemInstance, Grasp) {
    let instance = instance(
        fleet(1, 100),
        vec![client(0, 0, 0, 1000), client(1, 0, 0, 5), client(1, 0, 20, 25)],
        vec![vec![0, 1, 1], vec![1, 0, 1], vec![1, 1, 0]],
    );
    let mut config = Config::default().grasp_config;
    config.max_wait_time = max_wait_time;
    (instance, Grasp { config })
}

#[test]
fn no_wait_allowed_blocks_the_early_arrival() {
    /* the second client opens at 20, and the vehicle would be there at 2 */
    let (instance, grasp) = two_windows(0);
    assert!(grasp.iterate(&instance).is_err());
    let (instance, grasp) = two_windows(17);
    assert!(grasp.iterate(&instance).is_err());
    let (instance, grasp) = two_windows(18);
    assert_eq!(ids(&grasp.iterate(&instance).unwrap(), 0), vec![0, 1, 2, 0]);
}

#[test]
fn pure_greedy_goes_to_the_nearest() {
    let places: [u64; 6] = [0, 1, 3, 7, 15, 31];
    let mut clients = vec![client(0, 0, 0, 10_000)];
    for _ in 1..6 {
        clients.push(client(2, 0, 0, 10_000));
    }
    let distances: Vec<Vec<u64>> =
        (0..6).map(|a| (0..6).map(|b| places[a].abs_diff(places[b])).collect()).collect();
    let instance = instance(fleet(1, 10), clients, distances);
    let mut config = Config::default().grasp_config;
    config.rcl_alpha = 0;
    config.rcl_min_size = 1;
    config.moves_per_vehicle_alpha = 0;
    config.moves_per_vehicle_min_size = 1;
    let grasp = Grasp { config };
    for _ in 0..10 {
        let solution = grasp.iterate(&instance).unwrap();
        assert_eq!(ids(&solution, 0), vec![0, 1, 2, 3, 4, 5, 0]);
        assert_eq!(solution.value, 63);
        assert_eq!(solution.routes[0].demand, 10);
    }
}

#[test]
fn without_local_search_the_construction_stays() {
    let instance = capacity_split();
    let mut config = Config::default().grasp_config;
    config.local_search_iters = 0;
    let solution = Grasp { config }.iterate(&instance).unwrap();
    assert_eq!(solution.value, solution.construction_value);
    let mut config = Config::default().grasp_config;
    config.opt2_search_enabled = false;
    config.insertion_search_enabled = false;
    let solution = Grasp { config }.iterate(&instance).unwrap();
    assert_eq!(solution.value, solution.construction_value);
    assert_eq!(solution.iter_found, 0);
}

#[test]
fn all_clients_at_the_depot() {
    let instance = instance(
        fleet(2, 10),
        vec![client(0, 0, 0, 10), client(3, 0, 0, 10), client(3, 0, 0, 10), client(3, 0, 0, 10)],
        vec![vec![0; 4]; 4],
    );
    let solution = Grasp { config: Config::default().grasp_config }.iterate(&instance).unwrap();
    let stops: usize = solution.routes.iter().map(|r| r.clients.len() - 2).sum();
    assert_eq!(stops, 3);
    assert_eq!(solution.distance, 0);
    assert_eq!(solution.value, solution.routes.len() as u128);
}

#[test]
fn local_search_never_costs_more() {
    let n = 10;
    let mut clients = vec![client(0, 0, 0, 100_000)];
    for k in 1..n {
        clients.push(client(1 + (k % 3) as u64, 2, (k * 3) as u64, 100_000));
    }
    let distances: Vec<Vec<u64>> = (0..n)
        .map(|a| (0..n).map(|b| if a == b { 0 } else { 1 + ((a * a + b * 7) % 17) as u64 }).collect())
        .collect();
    let mut instance = instance(
        vec![
            VehicleDefinition { count: 2, capacity: 8, fixed_cost: 5, variable_cost: 2 },
            VehicleDefinition { count: 3, capacity: 5, fixed_cost: 3, variable_cost: 1 },
        ],
        clients,
        distances,
    );
    instance.allowed_deviation = 250;
    instance.deviation_penalty = 4;
    let mut improved = 0;
    for round in 0..60 {
        let mut config = Config::default().grasp_config;
        config.rcl_alpha = 1000;
        config.rcl_min_size = 3;
        config.local_search_first_improvement = round % 2 == 0;
        config.opt2_search_first_improvement = round % 3 == 0;
        config.insertion_search_first_improvement = round % 5 == 0;
        let solution = match (Grasp { config }).iterate(&instance) {
            Ok(solution) => solution,
            Err(_) => continue,
        };
        assert!(solution.value <= solution.construction_value);
        if solution.value < solution.construction_value {
            improved += 1;
        }
        let mut seen = vec![0; n];
        let mut vehicles = vec![];
        let mut total = 0;
        for route in solution.routes.iter() {
            assert!(!vehicles.contains(&route.vehicle_id));
            vehicles.push(route.vehicle_id);
            assert!(route.demand <= instance.vehicles[route.vehicle_id].capacity);
            assert_eq!(route.clients.first().unwrap().client_id, 0);
            assert_eq!(route.clients.last().unwrap().client_id, 0);
            let mut load = 0;
            let mut time = 0;
            for (k, stop) in route.clients.iter().enumerate() {
                seen[stop.client_id] += 1;
                load += instance.clients[stop.client_id].demand;
                if k > 0 {
                    let before = &route.clients[k - 1];
                    let arc = instance.distances[before.client_id][stop.client_id];
                    time += arc;
                    assert_eq!(
                        *stop,
                        instance.create_route_entry_client(arc, stop.client_id, before.leave_time)
                    );
                }
            }
            assert_eq!(load, route.demand);
            assert_eq!(time, route.route_time);
            assert_eq!(
                route.route_cost(),
                instance.vehicles[route.vehicle_id].fixed_cost
                    + time as u128 * instance.vehicles[route.vehicle_id].variable_cost
            );
            total += route.route_cost();
        }
        assert_eq!(total, solution.value);
        for c in 1..n {
            assert_eq!(seen[c], 1);
        }
    }
    assert!(improved > 0);
}

#[test]
fn a_vehicle_for_every_client_always_builds() {
    let n = 6;
    let mut clients = vec![client(0, 1, 2, 1000)];
    for k in 1..n {
        clients.push(client(4, 3, 10 * k as u64, 10 * k as u64 + 8));
    }
    let distances: Vec<Vec<u64>> = (0..n)
        .map(|a| (0..n).map(|b| if a == b { 1 } else { 4 + ((a + 2 * b) % 3) as u64 }).collect())
        .collect();
    let instance = instance(fleet(5, 4), clients, distances);
    let mut config = Config::default().grasp_config;
    config.max_wait_time = 60;
    config.rcl_alpha = 1000;
    config.rcl_min_size = 4;
    let grasp = Grasp { config };
    for _ in 0..100 {
        let solution = grasp.build_solution(&instance).unwrap();
        let visits: usize = solution.routes.iter().map(|r| r.clients.len() - 2).sum();
        assert_eq!(visits, n - 1);
        assert!(grasp.iterate(&instance).is_ok());
    }
}

#[test]
fn a_client_too_heavy_never_builds() {
    let instance = instance(
        vec![
            VehicleDefinition { count: 2, capacity: 5, fixed_cost: 1, variable_cost: 1 },
            VehicleDefinition { count: 1, capacity: 7, fixed_cost: 1, variable_cost: 1 },
        ],
        vec![client(0, 0, 0, 1000), client(1, 0, 0, 1000), client(8, 0, 0, 1000), client(2, 0, 0, 1000)],
        vec![vec![0, 1, 1, 1], vec![1, 0, 1, 1], vec![1, 1, 0, 1], vec![1, 1, 1, 0]],
    );
    let grasp = Grasp { config: Config::default().grasp_config };
    for _ in 0..30 {
        assert!(grasp.build_solution(&instance).is_err());
    }
    let mut config = Config::default();
    config.iters = 7;
    config.number_of_threads = 2;
    assert_eq!(do_run(&config, &instance), None);
    assert_eq!(run(&config, &instance), None);
}
