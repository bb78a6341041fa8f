use dlx::exact_cover::exact_cover;

#[test]
fn exact_cover_no_sets() {
    let covers = exact_cover(vec!["a", "b"], vec![]);
    assert!(covers.is_empty());
}

#[test]
fn exact_cover_single_full_set_is_cut_to_the_elements() {
    let covers = exact_cover(vec!["a"], vec![vec![true, true, false]]);
    assert_eq!(covers, vec![vec![vec!["a"]]]);
}

#[test]
fn exact_cover_single_set_is_padded() {
    let covers = exact_cover(vec!["a", "b"], vec![vec![true]]);
    assert!(covers.is_empty());
}

#[test]
fn exact_cover_two_disjoint_sets() {
    let covers = exact_cover(vec!["a", "b"], vec![vec![true, false], vec![false, true]]);
    assert_eq!(covers, vec![vec![vec!["b"], vec!["a"]]]);
}

#[test]
fn exact_cover_branch_on_sparsest_column() {
    let covers = exact_cover(
        vec!["a", "b", "c"],
        vec![vec![true, true, false], vec![false, false, true], vec![false, true, true]],
    );
    assert_eq!(covers, vec![vec![vec!["c"], vec!["a", "b"]]]);
}

#[test]
fn exact_cover_keeps_only_columns_before_the_last_chosen_one() {
    let covers = exact_cover(
        vec!["a", "b", "c"],
        vec![vec![true, true, false], vec![false, true, true], vec![false, false, false]],
    );
    let expected: Vec<Vec<Vec<&str>>> = vec![vec![vec![], vec!["a", "b"]]];
    assert_eq!(covers, expected);
}
