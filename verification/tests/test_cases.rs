use dlx::dlx::dlx;
use dlx::dlx_table::DLXTable;
use dlx::test_cases::{generate_exact_cover, is_disjoint, is_permutation};

#[test]
fn is_permutation_of_distinct_numbers() {
    assert!(is_permutation(&[3, 0, 2, 1]));
    assert!(is_permutation(&[]));
}

#[test]
fn is_permutation_finds_repeat() {
    assert!(!is_permutation(&[0, 1, 0]));
}

#[test]
fn is_disjoint_sets() {
    assert!(is_disjoint(&[vec![0, 2], vec![1], vec![3, 4]]));
    assert!(!is_disjoint(&[vec![0, 2], vec![2, 3]]));
    assert!(!is_disjoint(&[vec![5, 5]]));
    assert!(is_disjoint(&[]));
}

#[test]
fn generated_problem_is_a_partition() {
    let mut rng = rand::thread_rng();
    for n in 4..40 {
        let sets = generate_exact_cover(&mut rng, n);
        assert!(is_disjoint(&sets));
        let mut all: Vec<usize> = sets.iter().flatten().cloned().collect();
        all.sort();
        assert_eq!((0..n).collect::<Vec<usize>>(), all);
        for set in &sets {
            assert!(!set.is_empty());
            assert!(set.windows(2).all(|w| w[0] < w[1]));
        }
    }
}

#[test]
fn generated_problem_has_its_sets_as_only_cover() {
    let mut rng = rand::thread_rng();
    for n in 4..16 {
        let sets = generate_exact_cover(&mut rng, n);
        let mut table = DLXTable::from(&sets);
        let covers = dlx(&mut table);
        let mut expected = sets.clone();
        expected.sort_by_key(|set| set[0]);
        assert_eq!(vec![expected], covers);
    }
}
