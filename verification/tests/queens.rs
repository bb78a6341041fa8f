use std::time::Duration;

use dlx::dlxc::Item;
use dlx::queens::{
    conflict, dlx_to_solution, make_primary_items, make_secondary_items, n_queens_dfs, n_queens_dfs_first,
    n_queens_dfs_first_search, n_queens_dfs_search, n_queens_problem, Position, Search,
};

fn is_placement(n: usize, queens: &[(usize, usize)]) -> bool {
    queens.len() == n
        && queens.iter().enumerate().all(|(k, &(r, c))| r == k && c < n)
        && !conflict(queens)
}

#[test]
fn queens_counts_of_all_placements() {
    let counts = [(1, 1), (2, 0), (3, 0), (4, 2), (5, 10), (6, 4), (7, 40), (8, 92)];
    for (n, count) in counts {
        let solutions = n_queens_dfs(n, Duration::MAX).unwrap();
        assert_eq!(count, solutions.len(), "n = {}", n);
        for solution in &solutions {
            assert!(is_placement(n, solution));
        }
    }
}

#[test]
fn queens_four_has_two_placements() {
    let mut solutions = n_queens_dfs(4, Duration::MAX).unwrap();
    solutions.sort();
    assert_eq!(
        vec![vec![(0, 1), (1, 3), (2, 0), (3, 2)], vec![(0, 2), (1, 0), (2, 3), (3, 1)]],
        solutions
    );
}

#[test]
fn queens_first_placement() {
    for n in [1, 4, 5, 8, 10] {
        let solution = n_queens_dfs_first(n, Duration::MAX).unwrap();
        assert!(is_placement(n, &solution));
    }
    assert_eq!(None, n_queens_dfs_first(3, Duration::MAX));
}

#[test]
fn queens_time_limit_of_zero() {
    assert_eq!(None, n_queens_dfs(6, Duration::ZERO));
}

#[test]
fn queens_conflicts() {
    assert!(!conflict(&[]));
    assert!(conflict(&[(0, 0), (1, 1)]));
    assert!(conflict(&[(0, 3), (2, 3)]));
    assert!(!conflict(&[(0, 1), (1, 3), (2, 0), (3, 2)]));
}

#[test]
fn queens_problem_options() {
    let sets = n_queens_problem(3);
    assert_eq!(9, sets.len());
    assert_eq!(
        vec![
            Item::Primary(Position::Row(1)),
            Item::Primary(Position::Column(2)),
            Item::Secondary(Position::UpDiagonal(3)),
            Item::Secondary(Position::DownDiagonal(2)),
        ],
        sets[5]
    );
    assert_eq!(6, make_primary_items(3).len());
    assert_eq!(12, make_secondary_items(3).len());
    assert_eq!(vec![(1, 2), (0, 0)], dlx_to_solution(&vec![sets[5].clone(), sets[0].clone()]));
}

#[test]
fn queens_search_without_limit_finds_all() {
    let solutions = n_queens_dfs_search(6, None).unwrap();
    assert_eq!(solutions.len(), 4);
    for solution in &solutions {
        assert!(is_placement(6, solution));
    }
    assert_eq!(n_queens_dfs_search(6, Some(0)), None);
}

#[test]
fn queens_first_search_outcomes() {
    match n_queens_dfs_first_search(5, None) {
        Search::Found(solution) => assert!(is_placement(5, &solution)),
        _ => panic!("5 queens have a placement"),
    }
    assert!(matches!(n_queens_dfs_first_search(3, None), Search::Exhausted));
    assert!(matches!(n_queens_dfs_first_search(2, None), Search::Exhausted));
    assert!(matches!(n_queens_dfs_first_search(5, Some(0)), Search::OutOfTime));
}

#[test]
fn queens_dfs_order_is_descending_by_columns() {
    let expected = vec![vec![(0, 2), (1, 0), (2, 3), (3, 1)], vec![(0, 1), (1, 3), (2, 0), (3, 2)]];
    assert_eq!(n_queens_dfs(4, Duration::MAX), Some(expected.clone()));
    assert_eq!(n_queens_dfs_first(4, Duration::MAX), Some(expected[0].clone()));
    let six = n_queens_dfs(6, Duration::MAX).unwrap();
    for k in 1..six.len() {
        let a: Vec<usize> = six[k - 1].iter().map(|q| q.1).collect();
        let b: Vec<usize> = six[k].iter().map(|q| q.1).collect();
        assert!(b < a);
    }
}
