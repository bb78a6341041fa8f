use std::collections::BTreeSet;

use dlx::vertex_cover::check_vertex_cover;

#[test]
fn vertex_cover_of_triangle() {
    let edges = vec![(0, 1), (0, 2), (1, 2)];
    let cover: BTreeSet<usize> = [0, 1].into_iter().collect();
    assert!(check_vertex_cover(&edges, &cover));
    let cover: BTreeSet<usize> = [2].into_iter().collect();
    assert!(!check_vertex_cover(&edges, &cover));
}

#[test]
fn vertex_cover_of_star() {
    let edges = vec![(0, 1), (0, 2), (0, 3), (0, 4)];
    let cover: BTreeSet<usize> = [0].into_iter().collect();
    assert!(check_vertex_cover(&edges, &cover));
    let empty: BTreeSet<usize> = BTreeSet::new();
    assert!(check_vertex_cover(&vec![], &empty));
    assert!(!check_vertex_cover(&edges, &empty));
}
