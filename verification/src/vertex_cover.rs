//! Vertex cover: every edge has an end in the cover.
use vstd::prelude::*;
use std::collections::BTreeSet;

verus! {

broadcast use {vstd::std_specs::btree::group_btree_axioms, vstd::laws_cmp::group_laws_cmp};

/// Every edge has an end in `cover`.
pub open spec fn covers(edges: Seq<(usize, usize)>, cover: Set<usize>) -> bool {
    forall|k: int| 0 <= k < edges.len() ==> cover.contains((#[trigger] edges[k]).0) || cover.contains(edges[k].1)
}

/// Whether `cover` holds an end of every edge.
pub fn check_vertex_cover(graph_edges: &Vec<(usize, usize)>, cover: &BTreeSet<usize>) -> (r: bool)
    ensures
        r == covers(graph_edges@, cover@),
{
    let mut is_covered = true;
    let mut k: usize = 0;
    while k < graph_edges.len()
        invariant
            k <= graph_edges@.len(),
            is_covered == covers(graph_edges@.take(k as int), cover@),
        decreases graph_edges@.len() - k,
    {
        let (a, b) = graph_edges[k];
        let ca = cover.contains(&a);
        let cb = cover.contains(&b);
        assert(ca == cover@.contains(a) && cb == cover@.contains(b));
        if !ca && !cb {
            is_covered = false;
        }
        proof {
            let s0 = graph_edges@.take(k as int);
            let s1 = graph_edges@.take(k + 1);
            assert(s1[k as int] == (a, b));
            if covers(s1, cover@) {
                assert forall|j: int| 0 <= j < s0.len() implies cover@.contains((#[trigger] s0[j]).0) || cover@.contains(s0[j].1) by {
                    assert(s0[j] == s1[j]);
                }
                assert(cover@.contains(s1[k as int].0) || cover@.contains(s1[k as int].1));
            }
            if covers(s0, cover@) && (ca || cb) {
                assert forall|j: int| 0 <= j < s1.len() implies cover@.contains((#[trigger] s1[j]).0) || cover@.contains(s1[j].1) by {
                    if j < k {
                        assert(s0[j] == s1[j]);
                    }
                }
            }
        }
        k += 1;
    }
    assert(graph_edges@.take(k as int) == graph_edges@);
    is_covered
}

} // verus!
