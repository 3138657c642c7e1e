use mor_proj::metaheuristics::order::sorted_order;
use mor_proj::metaheuristics::utils::{
    alpha_max_index, alpha_rcl_choose, sized_rcl_choose, transform_solution, weighted_choose,
};
use mor_proj::types::{RouteEntry, RouteEntryClient, Solution};

fn priced_route(vehicle_id: usize, fixed: u128, variable: u128) -> RouteEntry {
    RouteEntry {
        vehicle_id,
        clients: vec![RouteEntryClient {
            client_id: vehicle_id,
            arrive_time: 1,
            leave_time: 2,
            wait_time: 0,
        }],
        route_time: 3,
        route_fixed_cost: fixed,
        route_variable_cost: variable,
        demand: 4,
    }
}

#[test]
fn alpha_index_of_no_costs() {
    assert_eq!(alpha_max_index(&vec![], 300), None);
}

#[test]
fn alpha_index_is_the_last_within_the_fraction() {
    let costs = vec![10, 12, 15, 20];
    assert_eq!(alpha_max_index(&costs, 0), Some(0));
    assert_eq!(alpha_max_index(&costs, 199), Some(0));
    assert_eq!(alpha_max_index(&costs, 200), Some(1));
    assert_eq!(alpha_max_index(&costs, 499), Some(1));
    assert_eq!(alpha_max_index(&costs, 500), Some(2));
    assert_eq!(alpha_max_index(&costs, 999), Some(2));
    assert_eq!(alpha_max_index(&costs, 1000), Some(3));
}

#[test]
fn alpha_index_with_equal_costs() {
    assert_eq!(alpha_max_index(&vec![10, 10, 20], 0), Some(1));
    assert_eq!(alpha_max_index(&vec![7, 7, 7], 0), Some(2));
    assert_eq!(alpha_max_index(&vec![7], 300), Some(0));
    assert_eq!(alpha_max_index(&vec![1000, 1001, 1003], 334), Some(1));
    assert_eq!(alpha_max_index(&vec![1000, 1001, 1003], 333), Some(0));
}

#[test]
fn sized_choice_stays_in_front() {
    let list = vec![10, 20, 30, 40];
    for _ in 0..200 {
        let chosen = *sized_rcl_choose(&list, 2).unwrap();
        assert!(chosen == 10 || chosen == 20);
    }
    assert_eq!(sized_rcl_choose(&list, 1), Some(&10));
    assert_eq!(sized_rcl_choose(&list, 0), None);
    assert_eq!(sized_rcl_choose(&Vec::<u8>::new(), 3), None);
    for _ in 0..50 {
        assert!(list.contains(sized_rcl_choose(&list, 9).unwrap()));
    }
}

#[test]
fn sized_choice_reaches_every_item_in_front() {
    let list = vec!['a', 'b', 'c'];
    let mut seen = [false; 3];
    for _ in 0..400 {
        match sized_rcl_choose(&list, 2) {
            Some('a') => seen[0] = true,
            Some('b') => seen[1] = true,
            _ => seen[2] = true,
        }
    }
    assert_eq!(seen, [true, true, false]);
}

#[test]
fn alpha_choice_takes_as_many_as_the_index_says() {
    let list = vec!["a", "b", "c", "d"];
    let costs = vec![10, 12, 15, 20];
    /* the index is 2, so that the choice is among the first two */
    for _ in 0..200 {
        let chosen = *alpha_rcl_choose(&list, &costs, 500, 1).unwrap();
        assert!(chosen == "a" || chosen == "b");
    }
    /* the index is 0, so that the least size decides */
    assert_eq!(alpha_rcl_choose(&list, &costs, 0, 1), Some(&"a"));
    assert_eq!(alpha_rcl_choose(&list, &costs, 0, 0), None);
    for _ in 0..200 {
        let chosen = *alpha_rcl_choose(&list, &costs, 0, 3).unwrap();
        assert!(chosen != "d");
    }
    assert_eq!(alpha_rcl_choose(&list, &vec![], 500, 3), None);
    assert_eq!(alpha_rcl_choose(&Vec::<u8>::new(), &costs, 500, 3), None);
}

#[test]
fn weighted_choice_passes_over_no_weight() {
    let list = vec!["a", "b", "c"];
    for _ in 0..200 {
        assert_eq!(weighted_choose(&list, vec![0, 5, 0]), Some(&"b"));
    }
    assert_eq!(weighted_choose(&list, vec![0, 0, 0]), None);
    assert_eq!(weighted_choose(&Vec::<u8>::new(), vec![1, 2]), None);
    let mut seen = [false; 3];
    for _ in 0..400 {
        match weighted_choose(&list, vec![1, 0, 1, 9]) {
            Some(&"a") => seen[0] = true,
            Some(&"c") => seen[2] = true,
            other => panic!("{:?}", other),
        }
    }
    assert_eq!(seen, [true, false, true]);
}

#[test]
fn order_is_by_cost_and_keeps_ties() {
    assert_eq!(sorted_order(&vec![5, 3, 5, 1]), vec![3, 1, 0, 2]);
    assert_eq!(sorted_order(&vec![]), Vec::<usize>::new());
    assert_eq!(sorted_order(&vec![2, 2, 2]), vec![0, 1, 2]);
    assert_eq!(sorted_order(&vec![9, 8, 7, 6]), vec![3, 2, 1, 0]);
}

#[test]
fn transform_replaces_by_vehicle_and_drops_free_routes() {
    let solution = Solution {
        routes: vec![priced_route(0, 1, 1), priced_route(1, 2, 2), priced_route(2, 0, 0), priced_route(3, 4, 4)],
        value: 50,
        construction_value: 60,
        distance: 70,
        iter_found: 3,
    };
    let new1 = priced_route(3, 9, 9);
    let new2 = priced_route(1, 0, 8);
    let next = transform_solution(&solution, &new1, &new2);
    assert_eq!(next.routes, vec![priced_route(0, 1, 1), priced_route(1, 0, 8), priced_route(3, 9, 9)]);
    assert_eq!(next.value, 50);
    assert_eq!(next.construction_value, 60);
    assert_eq!(next.distance, 70);
    assert_eq!(next.iter_found, 3);
    assert_eq!(solution.routes.len(), 4);
}

#[test]
fn transform_drops_a_new_route_that_costs_nothing() {
    let solution = Solution {
        routes: vec![priced_route(0, 1, 1), priced_route(1, 2, 2)],
        value: 0,
        construction_value: 0,
        distance: 0,
        iter_found: 0,
    };
    let next = transform_solution(&solution, &priced_route(0, 0, 0), &priced_route(7, 1, 1));
    assert_eq!(next.routes, vec![priced_route(1, 2, 2)]);
}
