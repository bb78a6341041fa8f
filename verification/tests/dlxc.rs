use std::time::Duration;

use dlx::dlxc::{dlxc_first, dlxc_first_randomized, dlxc_first_search, dlxc_iter, dlxc_iter_randomized, Item};
use dlx::queens::Search;

type It = Item<usize, usize, usize>;

// Primary items p, q, r are 0, 1, 2; secondary items x, y are 10, 11;
// colours A, B are 100, 101.
fn knuth_options() -> Vec<Vec<It>> {
    vec![
        vec![Item::Primary(0), Item::Primary(1), Item::Secondary(10), Item::ColoredSecondary(11, 100)],
        vec![Item::Primary(0), Item::Primary(2), Item::ColoredSecondary(10, 100), Item::Secondary(11)],
        vec![Item::Primary(0), Item::ColoredSecondary(10, 101)],
        vec![Item::Primary(1), Item::ColoredSecondary(10, 100)],
        vec![Item::Primary(2), Item::ColoredSecondary(11, 101)],
    ]
}

fn knuth_solution() -> (Vec<Vec<It>>, Vec<(usize, Option<usize>)>) {
    (
        vec![
            vec![Item::Primary(1), Item::ColoredSecondary(10, 100)],
            vec![Item::Primary(0), Item::Primary(2), Item::ColoredSecondary(10, 100), Item::Secondary(11)],
        ],
        vec![(10, Some(100)), (11, None)],
    )
}

#[test]
fn dlxc_knuth_colour_example() {
    let solutions = dlxc_iter(knuth_options(), vec![0, 1, 2], vec![10, 11], vec![100, 101]);
    assert_eq!(solutions, vec![knuth_solution()]);
}

#[test]
fn dlxc_first_knuth_colour_example() {
    let first = dlxc_first(knuth_options(), vec![0, 1, 2], vec![10, 11], vec![100, 101], Duration::from_secs(10));
    assert_eq!(first, Some(knuth_solution()));
}

#[test]
fn dlxc_no_time_gives_none() {
    let first = dlxc_first(knuth_options(), vec![0, 1, 2], vec![10, 11], vec![100, 101], Duration::ZERO);
    assert_eq!(first, None);
}

#[test]
fn dlxc_no_primary_items() {
    let options: Vec<Vec<It>> = vec![vec![Item::Secondary(3)]];
    assert!(dlxc_iter(options.clone(), vec![], vec![3], vec![]).is_empty());
    assert_eq!(dlxc_first(options, vec![], vec![3], vec![], Duration::from_secs(10)), None);
}

#[test]
fn dlxc_primary_named_twice() {
    let options: Vec<Vec<It>> = vec![vec![Item::Primary(1)]];
    assert!(dlxc_iter(options.clone(), vec![1, 1], vec![], vec![]).is_empty());
    assert_eq!(dlxc_first(options, vec![1, 1], vec![], vec![], Duration::from_secs(10)), None);
}

#[test]
fn dlxc_uncoloured_secondary_at_most_once() {
    let options: Vec<Vec<It>> = vec![
        vec![Item::Primary(0), Item::Secondary(9)],
        vec![Item::Primary(1), Item::Secondary(9)],
        vec![Item::Primary(1)],
    ];
    let solutions = dlxc_iter(options, vec![0, 1], vec![9], vec![]);
    assert_eq!(
        solutions,
        vec![(vec![vec![Item::Primary(0), Item::Secondary(9)], vec![Item::Primary(1)]], vec![(9, None)])]
    );
}

#[test]
fn dlxc_same_colour_shared() {
    let options: Vec<Vec<It>> = vec![
        vec![Item::Primary(0), Item::ColoredSecondary(9, 5)],
        vec![Item::Primary(1), Item::ColoredSecondary(9, 5)],
        vec![Item::Primary(1), Item::ColoredSecondary(9, 6)],
    ];
    let solutions = dlxc_iter(options, vec![0, 1], vec![9], vec![5, 6]);
    assert_eq!(solutions.len(), 1);
    assert_eq!(solutions[0].1, vec![(9, Some(5))]);
}

#[test]
fn dlxc_secondary_named_twice_gets_no_colour() {
    let options: Vec<Vec<It>> = vec![vec![Item::Primary(0), Item::ColoredSecondary(9, 5)]];
    let solutions = dlxc_iter(options, vec![0], vec![9, 9], vec![5]);
    assert_eq!(solutions, vec![(vec![vec![Item::Primary(0), Item::ColoredSecondary(9, 5)]], vec![(9, Some(5)), (9, None)])]);
}

#[test]
fn dlxc_randomized_same_solutions() {
    // Four items split into pairs in three ways; the randomized search finds
    // the same three solutions, in some order.
    let pair = |a: usize, b: usize| vec![Item::Primary(a), Item::Primary(b)];
    let options: Vec<Vec<It>> = vec![pair(0, 1), pair(2, 3), pair(0, 2), pair(1, 3), pair(0, 3), pair(1, 2)];
    let normal = |sols: Vec<(Vec<Vec<It>>, Vec<(usize, Option<usize>)>)>| {
        let mut all: Vec<Vec<Vec<usize>>> = sols
            .into_iter()
            .map(|(rows, _)| {
                let mut rows: Vec<Vec<usize>> = rows
                    .into_iter()
                    .map(|row| {
                        let mut v: Vec<usize> = row
                            .into_iter()
                            .map(|it| match it {
                                Item::Primary(p) => p,
                                _ => usize::MAX,
                            })
                            .collect();
                        v.sort();
                        v
                    })
                    .collect();
                rows.sort();
                rows
            })
            .collect();
        all.sort();
        all
    };
    let fixed = normal(dlxc_iter(options.clone(), vec![0, 1, 2, 3], vec![], vec![]));
    assert_eq!(fixed.len(), 3);
    for _ in 0..5 {
        let random = normal(dlxc_iter_randomized(options.clone(), vec![0, 1, 2, 3], vec![], vec![]));
        assert_eq!(random, fixed);
    }
}

#[test]
fn dlxc_first_randomized_knuth_colour_example() {
    // The example has one solution, so any order of the search finds it.
    let (rows, colors) =
        dlxc_first_randomized(knuth_options(), vec![0, 1, 2], vec![10, 11], vec![100, 101], Duration::from_secs(10))
            .unwrap();
    assert_eq!(rows.len(), 2);
    assert_eq!(colors, vec![(10, Some(100)), (11, None)]);
}

#[test]
fn dlxc_first_search_outcomes() {
    match dlxc_first_search(knuth_options(), vec![0, 1, 2], vec![10, 11], vec![100, 101], None, false) {
        Search::Found(solution) => assert_eq!(solution, knuth_solution()),
        _ => panic!("the example has a solution"),
    }
    // With the first three options only, items 1 and 2 are each in one
    // option, and both of those hold item 0: there is no solution.
    let mut options = knuth_options();
    options.truncate(3);
    assert!(matches!(
        dlxc_first_search(options, vec![0, 1, 2], vec![10, 11], vec![100, 101], None, false),
        Search::Exhausted
    ));
    assert!(matches!(
        dlxc_first_search(knuth_options(), vec![0, 1, 2], vec![10, 11], vec![100, 101], Some(0), true),
        Search::OutOfTime
    ));
    assert!(matches!(
        dlxc_first_search(knuth_options(), vec![], vec![10, 11], vec![100, 101], None, false),
        Search::Exhausted
    ));
}
