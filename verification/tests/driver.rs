use mor_proj::metaheuristics::{LocalSearch, LocalSearchNotFound};

fn table(i: usize, j: usize) -> Option<u128> {
    let costs: [[Option<u128>; 3]; 2] =
        [[None, Some(9), Some(4)], [Some(4), None, Some(2)]];
    costs[i][j]
}

#[test]
fn driver_keeps_its_policy() {
    assert!(LocalSearch::new(true).first_improvement);
    assert!(!LocalSearch::new(false).first_improvement);
}

#[test]
fn driver_returns_the_first_answer() {
    let found = LocalSearch::new(true).iterate(&vec![0u8, 1], &vec![0u8, 1, 2], |i, _, j, _| {
        match table(i, j) {
            Some(cost) => Ok(((i, j), cost)),
            None => Err(LocalSearchNotFound),
        }
    });
    assert_eq!(found, Some((0, 1)));
}

#[test]
fn driver_returns_the_best_answer() {
    let found = LocalSearch::new(false).iterate(&vec![0u8, 1], &vec![0u8, 1, 2], |i, _, j, _| {
        match table(i, j) {
            Some(cost) => Ok(((i, j), cost)),
            None => Err(LocalSearchNotFound),
        }
    });
    assert_eq!(found, Some((1, 2)));
}

#[test]
fn driver_returns_the_first_of_the_best() {
    let found = LocalSearch::new(false).iterate(&vec![0u8, 1], &vec![0u8, 1, 2], |i, _, j, _| {
        match table(i, j) {
            Some(cost) if cost > 2 => Ok(((i, j), cost)),
            _ => Err(LocalSearchNotFound),
        }
    });
    assert_eq!(found, Some((0, 2)));
}

#[test]
fn driver_hands_the_items_to_the_move() {
    let first = vec![10u64, 20];
    let second = vec![1u64, 2, 3];
    let found = LocalSearch::new(false).iterate(&first, &second, |i, a, j, b| {
        assert_eq!(*a, first[i]);
        assert_eq!(*b, second[j]);
        if a + b == 22 {
            Ok((a * b, 0))
        } else {
            Err(LocalSearchNotFound)
        }
    });
    assert_eq!(found, Some(40));
}

#[test]
fn driver_finds_nothing() {
    let none: Option<u8> = LocalSearch::new(false)
        .iterate(&vec![1u8, 2], &vec![3u8], |_, _, _, _| Err(LocalSearchNotFound));
    assert_eq!(none, None);
    let empty: Option<u8> =
        LocalSearch::new(true).iterate(&Vec::<u8>::new(), &vec![3u8], |_, _, _, _| Ok((1, 1)));
    assert_eq!(empty, None);
}

#[test]
fn driver_takes_a_first_answer_of_any_cost() {
    let found = LocalSearch::new(false).iterate(&vec![0u8], &vec![0u8, 1], |_, _, j, _| {
        if j == 0 {
            Ok(("dear", 1000))
        } else {
            Ok(("same", 1000))
        }
    });
    assert_eq!(found, Some("dear"));
}
