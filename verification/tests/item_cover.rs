use dlx::item_cover::{dlx, dlx_first, dlx_iter, dlx_task_solutions, dlx_tasks};

fn normalized(solution: &Vec<Vec<usize>>) -> Vec<Vec<usize>> {
    let mut sets: Vec<Vec<usize>> = solution
        .iter()
        .map(|set| {
            let mut set = set.clone();
            set.sort();
            set
        })
        .collect();
    sets.sort();
    sets
}

fn knuth_sets() -> Vec<Vec<usize>> {
    vec![
        vec![2, 4, 5],
        vec![0, 3, 6],
        vec![1, 2, 5],
        vec![0, 3],
        vec![1, 6],
        vec![3, 4, 6],
    ]
}

#[test]
fn item_cover_knuth_example() {
    let solutions = dlx_iter(knuth_sets(), (0..7).collect(), vec![]);
    assert_eq!(solutions.len(), 1);
    assert_eq!(normalized(&solutions[0]), vec![vec![0, 3], vec![1, 6], vec![2, 4, 5]]);
}

#[test]
fn item_cover_first_matches_iter() {
    let first = dlx_first(knuth_sets(), (0..7).collect(), vec![]).unwrap();
    let all = dlx_iter(knuth_sets(), (0..7).collect(), vec![]);
    assert_eq!(first, all[0]);
}

#[test]
fn item_cover_sets_start_at_chosen_item() {
    // Only item 1 is primary, so the set is chosen through item 1 and is
    // listed from it on, then from its start.
    let solutions = dlx_iter(vec![vec![0, 1, 2]], vec![1], vec![0, 2]);
    assert_eq!(solutions, vec![vec![vec![1, 2, 0]]]);
}

#[test]
fn item_cover_no_primary_items() {
    let sets = vec![vec![5], vec![6]];
    assert_eq!(dlx_iter(sets.clone(), vec![], vec![5, 6]), Vec::<Vec<Vec<usize>>>::new());
    assert_eq!(dlx_first(sets, vec![], vec![5, 6]), Some(vec![]));
}

#[test]
fn item_cover_secondary_items_at_most_once() {
    let sets = vec![vec![10, 20], vec![10], vec![20, 30]];
    let solutions = dlx_iter(sets, vec![10], vec![20, 30]);
    let mut found: Vec<Vec<Vec<usize>>> = solutions.iter().map(normalized).collect();
    found.sort();
    assert_eq!(found, vec![vec![vec![10]], vec![vec![10, 20]]]);
}

#[test]
fn item_cover_secondary_conflict() {
    // Both sets hold secondary item 9, so they cannot be chosen together.
    let sets = vec![vec![1, 9], vec![2, 9]];
    assert_eq!(dlx_iter(sets.clone(), vec![1, 2], vec![9]).len(), 0);
    assert_eq!(dlx_first(sets, vec![1, 2], vec![9]), None);
}

#[test]
fn item_cover_uncovered_primary() {
    let sets = vec![vec![1], vec![1, 2]];
    assert_eq!(dlx_first(sets.clone(), vec![1, 2, 3], vec![]), None);
    assert!(dlx_iter(sets, vec![1, 2, 3], vec![]).is_empty());
}

#[test]
fn item_cover_empty_sets_are_skipped() {
    let sets = vec![vec![], vec![4], vec![]];
    let solutions = dlx_iter(sets, vec![4], vec![]);
    assert_eq!(solutions, vec![vec![vec![4]]]);
}

#[test]
fn item_cover_all_solutions_counted() {
    // Every pair split of four items: {0,1}{2,3}, {0,2}{1,3}, {0,3}{1,2}.
    let sets = vec![vec![0, 1], vec![2, 3], vec![0, 2], vec![1, 3], vec![0, 3], vec![1, 2]];
    let solutions = dlx_iter(sets, vec![0, 1, 2, 3], vec![]);
    assert_eq!(solutions.len(), 3);
    let mut found: Vec<Vec<Vec<usize>>> = solutions.iter().map(normalized).collect();
    found.sort();
    assert_eq!(
        found,
        vec![
            vec![vec![0, 1], vec![2, 3]],
            vec![vec![0, 2], vec![1, 3]],
            vec![vec![0, 3], vec![1, 2]],
        ]
    );
}

#[test]
fn item_cover_all_with_no_primary_items() {
    // The empty choice covers no primary item, and is the one solution.
    let sets = vec![vec![5], vec![6]];
    assert_eq!(dlx(sets, vec![], vec![5, 6]), vec![Vec::<Vec<usize>>::new()]);
}

#[test]
fn item_cover_all_matches_iter() {
    let sets = vec![vec![0, 1], vec![2, 3], vec![0, 2], vec![1, 3], vec![0, 3], vec![1, 2]];
    let all = dlx(sets.clone(), vec![0, 1, 2, 3], vec![]);
    assert_eq!(all, dlx_iter(sets, vec![0, 1, 2, 3], vec![]));
}

#[test]
fn item_cover_identical_sets_give_one_solution_each() {
    // Each of two equal sets is a solution on its own, and each is listed
    // once.
    let solutions = dlx(vec![vec![0], vec![0]], vec![0], vec![]);
    assert_eq!(solutions, vec![vec![vec![0]], vec![vec![0]]]);
    assert_eq!(dlx_iter(vec![vec![0], vec![0], vec![0]], vec![0], vec![]).len(), 3);
}

#[test]
fn item_cover_tasks_split_the_search() {
    // Item 0 is the first of the items held by the fewest sets, two.
    let (item, tasks) = dlx_tasks(knuth_sets(), (0..7).collect(), vec![]).unwrap();
    assert_eq!((item, tasks.clone()), (0, vec![1, 3]));
    let all = dlx(knuth_sets(), (0..7).collect(), vec![]);
    let mut by_tasks = Vec::new();
    for task in tasks {
        by_tasks.extend(dlx_task_solutions(knuth_sets(), (0..7).collect(), vec![], item, vec![task]));
    }
    assert_eq!(by_tasks, all);
    assert!(dlx_task_solutions(knuth_sets(), (0..7).collect(), vec![], 0, vec![1]).is_empty());
    assert_eq!(dlx_tasks(knuth_sets(), vec![], (0..7).collect()), None);
}
