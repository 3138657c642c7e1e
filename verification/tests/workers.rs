use mor_proj::runner::{best_of, bests, keep_better, run, work, WorkerReport};
use mor_proj::types::{Client, Config, ProblemInstance, Solution, VehicleDefinition};

fn solution(value: u128, iter_found: i32) -> Solution {
    Solution { routes: vec![], value, construction_value: value + 1, distance: 0, iter_found }
}

#[test]
fn the_better_solution_is_kept() {
    assert_eq!(keep_better(None, solution(5, 1)), solution(5, 1));
    assert_eq!(keep_better(Some(solution(5, 1)), solution(4, 2)), solution(4, 2));
    assert_eq!(keep_better(Some(solution(5, 1)), solution(5, 2)), solution(5, 1));
    assert_eq!(keep_better(Some(solution(5, 1)), solution(6, 2)), solution(5, 1));
}

#[test]
fn the_best_of_no_results() {
    assert_eq!(best_of(vec![]), None);
    assert_eq!(best_of(vec![None, None]), None);
}

#[test]
fn the_best_costs_least() {
    let results = vec![Some(solution(7, 0)), None, Some(solution(3, 1)), Some(solution(9, 2)), None];
    let best = best_of(results.clone()).unwrap();
    assert_eq!(best, solution(3, 1));
    for result in results.iter().flatten() {
        assert!(best.value <= result.value);
    }
}

#[test]
fn of_equal_results_the_last_is_the_best() {
    let results = vec![Some(solution(3, 0)), Some(solution(3, 1)), Some(solution(4, 2))];
    assert_eq!(best_of(results), Some(solution(3, 1)));
    assert_eq!(best_of(vec![None, Some(solution(8, 5))]), Some(solution(8, 5)));
}

#[test]
fn default_config() {
    let config = Config::default();
    assert_eq!(config.iters, 10);
    assert_eq!(config.number_of_threads, 1);
    assert!(config.optimize_cost);
    assert!(config.grasp_config.is_valid());
    assert_eq!(config.grasp_config.rcl_alpha, 300);
    assert_eq!(config.grasp_config.moves_per_vehicle_alpha, 50);
    assert_eq!(config.grasp_config.new_vehicle_penalty_weight, 20_000);
    assert_eq!(config.grasp_config.max_wait_time, 10_000);
    assert_eq!(config.grasp_config.local_search_iters, 100);
    let mut wide = config.grasp_config;
    wide.rcl_alpha = 1001;
    assert!(!wide.is_valid());
}

fn one_client(capacity: u64) -> ProblemInstance {
    let place = |demand| Client { id: 0, demand, service_time: 0, earliest: 0, latest: 100, pos: [0, 0] };
    let mut instance = ProblemInstance {
        name: String::from("one"),
        source: 0,
        deviation_penalty: 0,
        allowed_deviation: 0,
        distances: vec![vec![0, 4], vec![4, 0]],
        vehicle_definitions: vec![VehicleDefinition {
            count: 1,
            capacity,
            fixed_cost: 2,
            variable_cost: 3,
        }],
        vehicles: vec![],
        clients: vec![place(0), place(5)],
        inited: false,
    };
    instance.init(true);
    assert_eq!(instance.validate(), Ok(()));
    instance
}

#[test]
fn a_worker_reports_its_best() {
    let mut config = Config::default();
    config.iters = 6;
    let report = work(&config, &one_client(5));
    assert_eq!(report.error_count, 0);
    assert_eq!(report.last_error, "");
    let best = report.best.unwrap();
    assert_eq!(best.value, 2 + 8 * 3);
    assert_eq!(best.iter_found, 5);
}

#[test]
fn a_worker_counts_its_failures() {
    let mut config = Config::default();
    config.iters = 6;
    let report = work(&config, &one_client(4));
    assert_eq!(
        report,
        WorkerReport {
            best: None,
            error_count: 6,
            last_error: String::from("Couldn't find a feasible solution"),
        }
    );
    config.iters = 0;
    let report = work(&config, &one_client(5));
    assert_eq!(report, WorkerReport { best: None, error_count: 0, last_error: String::new() });
}

#[test]
fn the_run_keeps_the_best_of_the_workers() {
    let mut config = Config::default();
    config.iters = 3;
    config.number_of_threads = 3;
    let best = run(&config, &one_client(5)).unwrap();
    assert_eq!(best.value, 26);
    assert_eq!(best.iter_found, 2);
    assert_eq!(run(&config, &one_client(4)), None);
}

#[test]
fn bests_keep_the_order() {
    let report = |value| WorkerReport {
        best: if value == 0 { None } else { Some(solution(value, 1)) },
        error_count: 0,
        last_error: String::new(),
    };
    let results = bests(vec![report(5), report(0), report(7)]);
    assert_eq!(results, vec![Some(solution(5, 1)), None, Some(solution(7, 1))]);
    assert_eq!(bests(vec![]), vec![]);
}
