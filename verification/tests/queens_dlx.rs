use std::collections::BTreeSet;
use std::time::Duration;

use dlx::queens::n_queens_dfs;
use dlx::queens::Search;
use dlx::queens_dlx::{n_queens_dlx_first, n_queens_dlx_first_search, n_queens_dlx_iter};

fn as_sets(solutions: &Vec<Vec<(usize, usize)>>) -> BTreeSet<BTreeSet<(usize, usize)>> {
    solutions.iter().map(|s| s.iter().cloned().collect()).collect()
}

fn valid(n: usize, queens: &Vec<(usize, usize)>) -> bool {
    if queens.len() != n {
        return false;
    }
    for (k, a) in queens.iter().enumerate() {
        if a.0 >= n || a.1 >= n {
            return false;
        }
        for b in &queens[..k] {
            let dr = (a.0 as isize - b.0 as isize).abs();
            let dc = (a.1 as isize - b.1 as isize).abs();
            if a.0 == b.0 || a.1 == b.1 || dr == dc {
                return false;
            }
        }
    }
    true
}

#[test]
fn queens_dlx_counts() {
    let expected = [(1, 1), (2, 0), (3, 0), (4, 2), (5, 10), (6, 4), (7, 40), (8, 92)];
    for (n, count) in expected {
        let solutions = n_queens_dlx_iter(n);
        assert_eq!(solutions.len(), count, "n = {}", n);
        for s in &solutions {
            assert!(valid(n, s));
        }
        assert_eq!(as_sets(&solutions).len(), count);
    }
}

#[test]
fn queens_dlx_one_queen() {
    assert_eq!(n_queens_dlx_iter(1), vec![vec![(0, 0)]]);
}

#[test]
fn queens_dlx_zero_board() {
    assert!(n_queens_dlx_iter(0).is_empty());
}

#[test]
fn queens_dlx_matches_dfs() {
    for n in 1..7 {
        let by_dlx = as_sets(&n_queens_dlx_iter(n));
        let by_dfs = as_sets(&n_queens_dfs(n, Duration::from_secs(10)).unwrap());
        assert_eq!(by_dlx, by_dfs, "n = {}", n);
    }
}

#[test]
fn queens_dlx_first_finds_a_placement() {
    for n in [1, 4, 5, 6, 8, 10] {
        let queens = n_queens_dlx_first(n, Duration::from_secs(10)).unwrap();
        assert!(valid(n, &queens), "n = {}", n);
    }
}

#[test]
fn queens_dlx_first_none_without_placement() {
    assert_eq!(n_queens_dlx_first(0, Duration::from_secs(10)), None);
    assert_eq!(n_queens_dlx_first(2, Duration::from_secs(10)), None);
    assert_eq!(n_queens_dlx_first(3, Duration::from_secs(10)), None);
}

#[test]
fn queens_dlx_first_out_of_time() {
    assert_eq!(n_queens_dlx_first(8, Duration::ZERO), None);
}

#[test]
fn queens_dlx_first_search_outcomes() {
    match n_queens_dlx_first_search(6, None) {
        Search::Found(queens) => assert!(valid(6, &queens)),
        _ => panic!("6 queens have a placement"),
    }
    assert!(matches!(n_queens_dlx_first_search(3, None), Search::Exhausted));
    assert!(matches!(n_queens_dlx_first_search(0, None), Search::Exhausted));
    assert!(matches!(n_queens_dlx_first_search(6, Some(0)), Search::OutOfTime));
}
