use dlx::dlx::{dlx, exact_cover};
use dlx::dlx_table::DLXTable;

#[test]
fn dlx_no_sets() {
    let empty: Vec<Vec<&str>> = vec![];
    let covers = exact_cover(&empty);

    let expected: Vec<Vec<Vec<String>>> = vec![vec![]];
    assert_eq!(expected, covers);
}

#[test]
fn dlx_empty_set() {
    let empty: Vec<Vec<&str>> = vec![vec![]];
    let covers = exact_cover(&empty);

    let expected: Vec<Vec<Vec<String>>> = vec![vec![]];
    assert_eq!(expected, covers);
}

#[test]
fn dlx_one_element() {
    let set = vec![vec!["a"]];
    let covers = exact_cover(&set);

    let expected = vec![vec![vec![set[0][0].to_string()]]];
    assert_eq!(expected, covers);
}

fn knuth_sets() -> Vec<Vec<usize>> {
    vec![
        vec![2, 4, 5],
        vec![0, 3, 6],
        vec![1, 2, 5],
        vec![0, 3],
        vec![1, 6],
        vec![3, 4, 6],
    ]
}

#[test]
fn dlx_knuth_example_has_one_cover() {
    let mut table = DLXTable::from(&knuth_sets());
    let before = table.clone();
    let covers = dlx(&mut table);

    let expected = vec![vec![vec![0, 3], vec![1, 6], vec![2, 4, 5]]];
    assert_eq!(expected, covers);
    assert_eq!(before, table);
}

#[test]
fn dlx_no_cover_when_an_element_cannot_be_reached() {
    let mut table = DLXTable::from(&vec![vec![0, 1], vec![1, 2]]);
    let covers = dlx(&mut table);

    let expected: Vec<Vec<Vec<usize>>> = vec![];
    assert_eq!(expected, covers);
}

#[test]
fn dlx_covers_in_lexicographic_order() {
    let sets = vec![vec![0], vec![1], vec![0, 1]];
    let mut table = DLXTable::from(&sets);
    let covers = dlx(&mut table);

    let expected = vec![vec![vec![0], vec![1]], vec![vec![0, 1]]];
    assert_eq!(expected, covers);
}

#[test]
fn dlx_names_two_covers() {
    let sets = vec![vec!["a", "b"], vec!["c"], vec!["a"], vec!["b", "c"]];
    let covers = exact_cover(&sets);

    let s = |v: &[&str]| v.iter().map(|x| x.to_string()).collect::<Vec<String>>();
    let expected = vec![
        vec![s(&["a"]), s(&["b", "c"])],
        vec![s(&["a", "b"]), s(&["c"])],
    ];
    assert_eq!(expected, covers);
}

#[test]
fn dlx_names_overlap_has_no_cover() {
    let sets = vec![vec!["x", "y"], vec!["y", "z"]];
    let covers = exact_cover(&sets);

    let expected: Vec<Vec<Vec<String>>> = vec![];
    assert_eq!(expected, covers);
}

#[test]
fn dlx_identical_sets_give_one_cover_each() {
    // Two sets with the same names are two different covers of them.
    let sets = vec![vec!["a"], vec!["a"]];
    let covers = exact_cover(&sets);

    let expected = vec![vec![vec!["a".to_string()]], vec![vec!["a".to_string()]]];
    assert_eq!(expected, covers);
}
