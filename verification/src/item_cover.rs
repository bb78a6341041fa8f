//! Exact cover over items given by value: the primary items must each be
//! covered exactly once, the secondary items at most once.  The items are
//! numbered by their place among the primary items followed by the
//! secondary ones, the sets become rows of a `DLXTable`, and each solution
//! of the search of `dlx_items` is read back as the sets it chooses, each
//! listed from the item of the column it was chosen through.
use vstd::prelude::*;
use crate::dlx_table::{DLXTable, ready, view_sets, nonempty, total_len, lemma_total_len_nonneg};
use crate::dlx::{in_row, rows_active, table_of, rows_of, lemma_table_rows, lemma_row_element_node, lemma_node_in_row};
use crate::dlx_items::{
    search, search_first, search_rows, choose_column, solution_rows, solution_path, path_rows, found_rows, live_p, distinct_paths,
};

verus! {

/// `q` is the first place of `x` in `names`.
pub open spec fn first_place(names: Seq<usize>, x: usize, q: int) -> bool {
    &&& 0 <= q < names.len()
    &&& names[q] == x
    &&& forall|k: int| 0 <= k < q ==> names[k] != x
}

/// Set `set` holds a primary item.
pub open spec fn has_primary(set: Seq<usize>, primary: Seq<usize>) -> bool {
    exists|q: int| 0 <= q < set.len() && #[trigger] primary.contains(set[q])
}

/// The sets at places `js` are a solution: each of them holds a primary
/// item, every primary item is in one of them, and no item is in two.
pub open spec fn item_solution(sets: Seq<Vec<usize>>, primary: Seq<usize>, js: Set<int>) -> bool {
    &&& js.finite()
    &&& forall|j: int| #[trigger] js.contains(j) ==> 0 <= j < sets.len() && has_primary(sets[j]@, primary)
    &&& forall|x: usize| #[trigger] primary.contains(x) ==> exists|j: int| js.contains(j) && #[trigger] sets[j]@.contains(x)
    &&& forall|j1: int, j2: int, x: usize|
        js.contains(j1) && js.contains(j2) && #[trigger] sets[j1]@.contains(x) && #[trigger] sets[j2]@.contains(x) ==> j1 == j2
}

/// `set` read from place `q` on, and then from its start up to `q`.
pub open spec fn rotation(set: Seq<usize>, q: int) -> Seq<usize> {
    set.subrange(q, set.len() as int) + set.subrange(0, q)
}

/// Entry `i` of `sol` is set `order[i]`, read from one of its places on,
/// and no set comes twice.
pub open spec fn lists_in_order(sets: Seq<Vec<usize>>, sol: Seq<Vec<usize>>, order: Seq<int>) -> bool {
    &&& order.len() == sol.len()
    &&& order.no_duplicates()
    &&& forall|i: int|
        0 <= i < sol.len() ==> 0 <= #[trigger] order[i] < sets.len() && exists|q: int|
            0 <= q < sets[order[i]]@.len() && sol[i]@ == rotation(sets[order[i]]@, q)
}

/// `sol` lists the sets at places `js`, one entry for each.
pub open spec fn lists_solution(sets: Seq<Vec<usize>>, sol: Seq<Vec<usize>>, js: Set<int>) -> bool {
    exists|order: Seq<int>| #[trigger] lists_in_order(sets, sol, order) && order.to_set() == js
}

/// `sol` lists, one entry each, the sets of a solution.
pub open spec fn solution_listed(sets: Seq<Vec<usize>>, primary: Seq<usize>, sol: Seq<Vec<usize>>) -> bool {
    exists|js: Set<int>| #[trigger] item_solution(sets, primary, js) && lists_solution(sets, sol, js)
}

/// Entry `c` of `sols` lists the sets at places `sel[c]`, which are a
/// solution, and no two entries stand for the same places.
pub open spec fn listed_apart(sets: Seq<Vec<usize>>, primary: Seq<usize>, sols: Seq<Vec<Vec<usize>>>, sel: Seq<Set<int>>) -> bool {
    &&& sel.len() == sols.len()
    &&& forall|c: int|
        0 <= c < sols.len() ==> #[trigger] item_solution(sets, primary, sel[c]) && lists_solution(sets, sols[c]@, sel[c])
    &&& forall|c1: int, c2: int| 0 <= c1 < c2 < sols.len() ==> #[trigger] sel[c1] != #[trigger] sel[c2]
}

/// Every entry of `sols` lists a solution, and no solution is listed twice.
pub open spec fn solutions_apart(sets: Seq<Vec<usize>>, primary: Seq<usize>, sols: Seq<Vec<Vec<usize>>>) -> bool {
    exists|sel: Seq<Set<int>>| #[trigger] listed_apart(sets, primary, sols, sel)
}

/// Every item of every set is one of `names`, and no set holds an item
/// twice.
pub open spec fn well_named(sets: Seq<Vec<usize>>, names: Seq<usize>) -> bool {
    &&& forall|j: int, q: int| 0 <= j < sets.len() && 0 <= q < sets[j]@.len() ==> names.contains(#[trigger] sets[j]@[q])
    &&& forall|j: int| 0 <= j < sets.len() ==> (#[trigger] sets[j])@.no_duplicates()
}

/// `idx` and `kept` number the non-empty sets of `sets`: `kept` gives their
/// places, in order, and `idx` the first place in `names` of each item.
pub open spec fn numbered(sets: Seq<Vec<usize>>, names: Seq<usize>, idx: Seq<Vec<usize>>, kept: Seq<usize>) -> bool {
    &&& sets.len() <= usize::MAX
    &&& idx.len() == kept.len()
    &&& forall|i: int, j: int| 0 <= i < j < kept.len() ==> kept[i] < kept[j]
    &&& forall|i: int| 0 <= i < kept.len() ==> (#[trigger] kept[i]) < sets.len() && sets[kept[i] as int]@.len() > 0
    &&& forall|j: int| 0 <= j < sets.len() && (#[trigger] sets[j])@.len() > 0 ==> kept.contains(j as usize)
    &&& forall|i: int| 0 <= i < idx.len() ==> (#[trigger] idx[i])@.len() == sets[kept[i] as int]@.len()
    &&& forall|i: int, q: int|
        0 <= i < idx.len() && 0 <= q < idx[i]@.len() ==> first_place(names, sets[kept[i] as int]@[q], (#[trigger] idx[i]@[q]) as int)
}

/// An item has one first place.
proof fn lemma_first_place_unique(names: Seq<usize>, x: usize, a: int, b: int)
    requires
        first_place(names, x, a),
        first_place(names, x, b),
    ensures
        a == b,
{
    if a < b {
        assert(names[a] != x);
    } else if b < a {
        assert(names[b] != x);
    }
}

/// The first place of `x` in `names`.
fn item_place(names: &Vec<usize>, x: usize) -> (r: Option<usize>)
    ensures
        r matches Some(q) ==> first_place(names@, x, q as int),
        r is None ==> !names@.contains(x),
{
    let mut q: usize = 0;
    while q < names.len()
        invariant
            q <= names@.len(),
            forall|k: int| 0 <= k < q ==> names@[k] != x,
        decreases names@.len() - q,
    {
        if names[q] == x {
            return Some(q);
        }
        q += 1;
    }
    None
}

/// The first places in `names` of the items of `set`.
fn item_indices(names: &Vec<usize>, set: &Vec<usize>) -> (idx: Vec<usize>)
    requires
        forall|q: int| 0 <= q < set@.len() ==> names@.contains(#[trigger] set@[q]),
    ensures
        idx@.len() == set@.len(),
        forall|q: int| 0 <= q < idx@.len() ==> first_place(names@, set@[q], (#[trigger] idx@[q]) as int),
{
    let mut idx: Vec<usize> = Vec::new();
    let mut q: usize = 0;
    while q < set.len()
        invariant
            q <= set@.len(),
            idx@.len() == q,
            forall|q: int| 0 <= q < set@.len() ==> names@.contains(#[trigger] set@[q]),
            forall|k: int| 0 <= k < q ==> first_place(names@, set@[k], (#[trigger] idx@[k]) as int),
        decreases set@.len() - q,
    {
        proof {
            assert(names@.contains(set@[q as int]));
        }
        match item_place(names, set[q]) {
            Some(p) => {
                idx.push(p);
            },
            None => {
                idx.push(0);
            },
        }
        q += 1;
    }
    idx
}

/// The sets with at least one item, numbered: for each, the first places
/// in `names` of its items, and its place in `sets`.
fn number_sets(names: &Vec<usize>, sets: &Vec<Vec<usize>>) -> (r: (Vec<Vec<usize>>, Vec<usize>))
    requires
        well_named(sets@, names@),
    ensures
        numbered(sets@, names@, r.0@, r.1@),
        total_len(view_sets(r.0@)) == total_len(view_sets(sets@)),
        r.0@.len() <= sets@.len(),
{
    let mut idx: Vec<Vec<usize>> = Vec::new();
    let mut kept: Vec<usize> = Vec::new();
    let mut j: usize = 0;
    while j < sets.len()
        invariant
            well_named(sets@, names@),
            j <= sets@.len(),
            idx@.len() == kept@.len(),
            kept@.len() <= j,
            forall|a: int, b: int| 0 <= a < b < kept@.len() ==> kept@[a] < kept@[b],
            forall|i: int| 0 <= i < kept@.len() ==> (#[trigger] kept@[i]) < j && sets@[kept@[i] as int]@.len() > 0,
            forall|t: int| 0 <= t < j && (#[trigger] sets@[t])@.len() > 0 ==> kept@.contains(t as usize),
            forall|i: int| 0 <= i < idx@.len() ==> (#[trigger] idx@[i])@.len() == sets@[kept@[i] as int]@.len(),
            forall|i: int, q: int|
                0 <= i < idx@.len() && 0 <= q < idx@[i]@.len() ==> first_place(
                    names@,
                    sets@[kept@[i] as int]@[q],
                    (#[trigger] idx@[i]@[q]) as int,
                ),
            total_len(view_sets(idx@)) == total_len(view_sets(sets@.take(j as int))),
        decreases sets@.len() - j,
    {
        let ghost old_kept = kept@;
        let ghost old_idx = idx@;
        proof {
            assert(view_sets(sets@.take(j + 1)).drop_last() =~= view_sets(sets@.take(j as int)));
            assert(view_sets(sets@.take(j + 1)).last() == sets@[j as int]@);
        }
        if sets[j].len() > 0 {
            let row = item_indices(names, &sets[j]);
            let ghost rv = row@;
            idx.push(row);
            kept.push(j);
            proof {
                assert(view_sets(idx@).drop_last() =~= view_sets(old_idx));
                assert(view_sets(idx@).last() == rv);
                assert forall|t: int| 0 <= t < j + 1 && (#[trigger] sets@[t])@.len() > 0 implies kept@.contains(t as usize) by {
                    if t < j {
                        let i = choose|i: int| 0 <= i < old_kept.len() && old_kept[i] == t as usize;
                        assert(kept@[i] == old_kept[i]);
                    } else {
                        assert(kept@[old_kept.len() as int] == j);
                    }
                }
                assert forall|i: int| 0 <= i < idx@.len() implies (#[trigger] idx@[i])@.len() == sets@[kept@[i] as int]@.len() by {
                    if i < old_idx.len() {
                        assert(idx@[i] == old_idx[i] && kept@[i] == old_kept[i]);
                    }
                }
                assert forall|i: int, q: int| 0 <= i < idx@.len() && 0 <= q < idx@[i]@.len() implies first_place(
                    names@,
                    sets@[kept@[i] as int]@[q],
                    (#[trigger] idx@[i]@[q]) as int,
                ) by {
                    if i < old_idx.len() {
                        assert(idx@[i] == old_idx[i] && kept@[i] == old_kept[i]);
                    }
                }
            }
        }
        j += 1;
    }
    proof {
        assert(sets@.take(sets@.len() as int) =~= sets@);
        assert(sets@.len() == sets.len());
    }
    (idx, kept)
}

/// `names` starts with the `p` primary items.
pub open spec fn primary_first(names: Seq<usize>, primary: Seq<usize>) -> bool {
    &&& primary.len() <= names.len()
    &&& forall|k: int| 0 <= k < primary.len() ==> names[k] == #[trigger] primary[k]
}

/// An item of `names` has a first place, at or before any place of it.
proof fn lemma_first_place_exists(names: Seq<usize>, x: usize, k: int) -> (e: int)
    requires
        0 <= k < names.len(),
        names[k] == x,
    ensures
        first_place(names, x, e),
        e <= k,
    decreases k,
{
    if exists|k2: int| 0 <= k2 < k && names[k2] == x {
        let k2 = choose|k2: int| 0 <= k2 < k && names[k2] == x;
        lemma_first_place_exists(names, x, k2)
    } else {
        k
    }
}

/// The table made of the numbered sets holds them as its rows, every
/// column listed.
proof fn lemma_item_table(idx: Seq<Vec<usize>>, t: DLXTable, n: int)
    requires
        forall|s: int| 0 <= s < idx.len() ==> (#[trigger] idx[s])@.len() > 0,
        t.wf(),
        t.complete(),
        t.ec() == n,
        t.holds(nonempty(view_sets(idx))),
    ensures
        table_of(t, idx, n),
        ready(t),
        rows_active(t),
{
    lemma_table_rows(idx, t);
    assert forall|g: int| #[trigger] t.active().contains(g) <==> 1 <= g <= n by {
        if 1 <= g <= n {
            assert(t.is_header(g));
        }
    }
    assert(ready(t)) by {
        reveal(ready);
    }
}

/// Row `s` has a node in column `g` just when its set holds element `g - 1`.
proof fn lemma_in_row_idx(t: DLXTable, idx: Seq<Vec<usize>>, n: int, s: int, g: int)
    requires
        table_of(t, idx, n),
        0 <= s < idx.len(),
    ensures
        in_row(t, s, g) <==> (1 <= g <= t.ec() && idx[s]@.contains((g - 1) as usize)),
{
    t.lemma_row_layout(s);
    assert(t.row_elements(s) == idx[s]@);
    if in_row(t, s, g) {
        let x = choose|x: int| t.head_of(s) <= x < t.end_of(s) && #[trigger] t.hdr(x) == g;
        assert(t.nodes@[x].set is Some);
        let k = x - t.head_of(s);
        assert(t.row_elements(s)[k] == (t.hdr(x) - 1) as usize);
        assert(1 <= t.hdr(x) <= t.ec());
    }
    if 1 <= g <= t.ec() && idx[s]@.contains((g - 1) as usize) {
        lemma_row_element_node(t, s, (g - 1) as usize);
    }
}

/// The places in `sets` of the sets of rows `rows`.
pub open spec fn sets_of_rows(kept: Seq<usize>, rows: Set<int>) -> Set<int> {
    rows.map(|s: int| kept[s] as int)
}

/// Distinct sets of rows stand for distinct places.
proof fn lemma_sets_of_rows_apart(kept: Seq<usize>, a: Set<int>, b: Set<int>)
    requires
        forall|i: int, j: int| 0 <= i < j < kept.len() ==> kept[i] < kept[j],
        forall|s: int| #[trigger] a.contains(s) ==> 0 <= s < kept.len(),
        forall|s: int| #[trigger] b.contains(s) ==> 0 <= s < kept.len(),
        a != b,
    ensures
        sets_of_rows(kept, a) != sets_of_rows(kept, b),
{
    let f = |s: int| kept[s] as int;
    if sets_of_rows(kept, a) == sets_of_rows(kept, b) {
        assert forall|s: int| a.contains(s) <==> b.contains(s) by {
            if a.contains(s) {
                assert(sets_of_rows(kept, a).contains(f(s)));
                let s2 = choose|s2: int| b.contains(s2) && f(s2) == f(s);
                if s < s2 {
                    assert(kept[s] < kept[s2]);
                } else if s2 < s {
                    assert(kept[s2] < kept[s]);
                }
            }
            if b.contains(s) {
                assert(sets_of_rows(kept, b).contains(f(s)));
                let s2 = choose|s2: int| a.contains(s2) && f(s2) == f(s);
                if s < s2 {
                    assert(kept[s] < kept[s2]);
                } else if s2 < s {
                    assert(kept[s2] < kept[s]);
                }
            }
        }
        assert(a =~= b);
    }
}

/// The rows of a solution of the table are rows of the table.
proof fn lemma_rows_in_range(t: DLXTable, p: int, rows: Set<int>, s: int)
    requires
        t.wf_layout(),
        solution_rows(t, p, rows),
        rows.contains(s),
    ensures
        0 <= s < t.sets_count(),
        live_p(t, p, s),
{
    reveal(solution_rows);
    let z = choose|z: int| #[trigger] t.col(t.hdr(z)).contains(z) && t.active().contains(t.hdr(z)) && t.hdr(z) <= p
        && t.set_of(z) == s;
    lemma_node_in_row(t, z);
}

/// Each set of a solution of the table holds a primary item.
proof fn lemma_sound_primary(
    sets: Seq<Vec<usize>>,
    primary: Seq<usize>,
    names: Seq<usize>,
    idx: Seq<Vec<usize>>,
    kept: Seq<usize>,
    t: DLXTable,
    rows: Set<int>,
    s: int,
)
    requires
        numbered(sets, names, idx, kept),
        primary_first(names, primary),
        table_of(t, idx, names.len() as int),
        solution_rows(t, primary.len() as int, rows),
        rows.contains(s),
    ensures
        0 <= s < kept.len(),
        has_primary(sets[kept[s] as int]@, primary),
{
    let p = primary.len() as int;
    lemma_rows_in_range(t, p, rows, s);
    let z = choose|z: int| #[trigger] t.col(t.hdr(z)).contains(z) && t.active().contains(t.hdr(z)) && t.hdr(z) <= p
        && t.set_of(z) == s;
    lemma_node_in_row(t, z);
    let e = (t.hdr(z) - 1) as usize;
    assert(t.row_elements(s) == idx[s]@);
    let q = choose|q: int| 0 <= q < idx[s]@.len() && idx[s]@[q] == e;
    assert(first_place(names, sets[kept[s] as int]@[q], idx[s]@[q] as int));
    assert(primary[e as int] == names[e as int]);
    assert(primary.contains(sets[kept[s] as int]@[q]));
}

/// Each primary item is in a set of a solution of the table.
proof fn lemma_sound_covered(
    sets: Seq<Vec<usize>>,
    primary: Seq<usize>,
    names: Seq<usize>,
    idx: Seq<Vec<usize>>,
    kept: Seq<usize>,
    t: DLXTable,
    rows: Set<int>,
    x: usize,
) -> (s: int)
    requires
        numbered(sets, names, idx, kept),
        primary_first(names, primary),
        table_of(t, idx, names.len() as int),
        solution_rows(t, primary.len() as int, rows),
        primary.contains(x),
    ensures
        rows.contains(s),
        0 <= s < kept.len(),
        sets[kept[s] as int]@.contains(x),
{
    reveal(solution_rows);
    let n = names.len() as int;
    let k = choose|k: int| 0 <= k < primary.len() && primary[k] == x;
    let e = lemma_first_place_exists(names, x, k);
    let g = e + 1;
    assert(t.active().contains(g));
    let s = choose|s: int| rows.contains(s) && #[trigger] in_row(t, s, g);
    lemma_rows_in_range(t, primary.len() as int, rows, s);
    lemma_in_row_idx(t, idx, n, s, g);
    let q = choose|q: int| 0 <= q < idx[s]@.len() && idx[s]@[q] == e as usize;
    assert(first_place(names, sets[kept[s] as int]@[q], idx[s]@[q] as int));
    assert(sets[kept[s] as int]@[q] == x);
    s
}

/// No item is in the sets of two rows of a solution of the table.
#[verifier::spinoff_prover]
#[verifier::rlimit(30)]
proof fn lemma_sound_unique(
    sets: Seq<Vec<usize>>,
    names: Seq<usize>,
    idx: Seq<Vec<usize>>,
    kept: Seq<usize>,
    t: DLXTable,
    p: int,
    rows: Set<int>,
    s1: int,
    s2: int,
    x: usize,
)
    requires
        numbered(sets, names, idx, kept),
        table_of(t, idx, names.len() as int),
        solution_rows(t, p, rows),
        rows.contains(s1),
        rows.contains(s2),
        sets[kept[s1] as int]@.contains(x),
        sets[kept[s2] as int]@.contains(x),
    ensures
        s1 == s2,
{
    reveal(solution_rows);
    let n = names.len() as int;
    lemma_rows_in_range(t, p, rows, s1);
    lemma_rows_in_range(t, p, rows, s2);
    let j1 = kept[s1] as int;
    let j2 = kept[s2] as int;
    let q1 = choose|q: int| 0 <= q < sets[j1]@.len() && sets[j1]@[q] == x;
    let q2 = choose|q: int| 0 <= q < sets[j2]@.len() && sets[j2]@[q] == x;
    let e1 = idx[s1]@[q1];
    let e2 = idx[s2]@[q2];
    assert(first_place(names, x, e1 as int));
    assert(first_place(names, x, e2 as int));
    lemma_first_place_unique(names, x, e1 as int, e2 as int);
    assert(idx[s1]@.contains(e1));
    assert(idx[s2]@.contains(e1));
    lemma_in_row_idx(t, idx, n, s1, e1 + 1);
    lemma_in_row_idx(t, idx, n, s2, e1 + 1);
}

/// A solution of the table, read as sets, is a solution over the items.
proof fn lemma_item_sound(
    sets: Seq<Vec<usize>>,
    primary: Seq<usize>,
    names: Seq<usize>,
    idx: Seq<Vec<usize>>,
    kept: Seq<usize>,
    t: DLXTable,
    rows: Set<int>,
)
    requires
        numbered(sets, names, idx, kept),
        primary_first(names, primary),
        table_of(t, idx, names.len() as int),
        solution_rows(t, primary.len() as int, rows),
    ensures
        item_solution(sets, primary, sets_of_rows(kept, rows)),
        forall|s: int| #[trigger] rows.contains(s) ==> 0 <= s < kept.len(),
{
    let p = primary.len() as int;
    let f = |s: int| kept[s] as int;
    let js = sets_of_rows(kept, rows);
    assert forall|s: int| #[trigger] rows.contains(s) implies 0 <= s < kept.len() by {
        lemma_rows_in_range(t, p, rows, s);
    }
    assert(rows.finite()) by {
        reveal(solution_rows);
    }
    rows.lemma_map_finite(f);
    assert forall|j: int| #[trigger] js.contains(j) implies 0 <= j < sets.len() && has_primary(sets[j]@, primary) by {
        let s = choose|s: int| rows.contains(s) && j == f(s);
        lemma_sound_primary(sets, primary, names, idx, kept, t, rows, s);
    }
    assert forall|x: usize| #[trigger] primary.contains(x) implies exists|j: int| js.contains(j) && #[trigger] sets[j]@.contains(x) by {
        let s = lemma_sound_covered(sets, primary, names, idx, kept, t, rows, x);
        assert(js.contains(f(s)));
    }
    assert forall|j1: int, j2: int, x: usize|
        js.contains(j1) && js.contains(j2) && #[trigger] sets[j1]@.contains(x) && #[trigger] sets[j2]@.contains(x) implies j1 == j2 by {
        let s1 = choose|s: int| rows.contains(s) && j1 == f(s);
        let s2 = choose|s: int| rows.contains(s) && j2 == f(s);
        lemma_sound_unique(sets, names, idx, kept, t, p, rows, s1, s2, x);
    }
}

/// Each row of the sets of a solution over the items has a node in a
/// primary column.
proof fn lemma_complete_live(
    sets: Seq<Vec<usize>>,
    primary: Seq<usize>,
    names: Seq<usize>,
    idx: Seq<Vec<usize>>,
    kept: Seq<usize>,
    t: DLXTable,
    js: Set<int>,
    s: int,
)
    requires
        numbered(sets, names, idx, kept),
        primary_first(names, primary),
        table_of(t, idx, names.len() as int),
        item_solution(sets, primary, js),
        rows_of(kept, js).contains(s),
    ensures
        live_p(t, primary.len() as int, s),
{
    let j = kept[s] as int;
    assert(has_primary(sets[j]@, primary));
    let q = choose|q: int| 0 <= q < sets[j]@.len() && #[trigger] primary.contains(sets[j]@[q]);
    let x = sets[j]@[q];
    let k = choose|k: int| 0 <= k < primary.len() && primary[k] == x;
    let e = lemma_first_place_exists(names, x, k);
    assert(first_place(names, x, idx[s]@[q] as int));
    lemma_first_place_unique(names, x, e, idx[s]@[q] as int);
    t.lemma_row_layout(s);
    assert(t.row_elements(s) == idx[s]@);
    let z = t.head_of(s) + q;
    assert(t.row_elements(s)[q] == (t.hdr(z) - 1) as usize);
    assert(t.nodes@[z].set is Some);
    assert(t.col(t.hdr(z)).contains(z));
    assert(t.active().contains(t.hdr(z)));
}

/// Each primary column has a node in the row of a set of a solution over
/// the items.
proof fn lemma_complete_covered(
    sets: Seq<Vec<usize>>,
    primary: Seq<usize>,
    names: Seq<usize>,
    idx: Seq<Vec<usize>>,
    kept: Seq<usize>,
    t: DLXTable,
    js: Set<int>,
    g: int,
) -> (s: int)
    requires
        numbered(sets, names, idx, kept),
        primary_first(names, primary),
        primary.no_duplicates(),
        table_of(t, idx, names.len() as int),
        item_solution(sets, primary, js),
        1 <= g <= primary.len(),
    ensures
        rows_of(kept, js).contains(s),
        in_row(t, s, g),
{
    let n = names.len() as int;
    let e = g - 1;
    let x = primary[e];
    assert(names[e] == x);
    assert forall|k: int| 0 <= k < e implies names[k] != x by {
        assert(names[k] == primary[k]);
    }
    assert(primary.contains(x));
    let j = choose|j: int| js.contains(j) && #[trigger] sets[j]@.contains(x);
    assert(sets[j]@.len() > 0);
    assert(kept.contains(j as usize));
    let s = choose|s: int| 0 <= s < kept.len() && kept[s] == j as usize;
    let q = choose|q: int| 0 <= q < sets[j]@.len() && sets[j]@[q] == x;
    assert(first_place(names, x, idx[s]@[q] as int));
    lemma_first_place_unique(names, x, e, idx[s]@[q] as int);
    assert(idx[s]@.contains(e as usize));
    lemma_in_row_idx(t, idx, n, s, g);
    s
}

/// No two rows of the sets of a solution over the items share a column.
proof fn lemma_complete_unique(
    sets: Seq<Vec<usize>>,
    primary: Seq<usize>,
    names: Seq<usize>,
    idx: Seq<Vec<usize>>,
    kept: Seq<usize>,
    t: DLXTable,
    js: Set<int>,
    s1: int,
    s2: int,
    g: int,
)
    requires
        numbered(sets, names, idx, kept),
        table_of(t, idx, names.len() as int),
        item_solution(sets, primary, js),
        rows_of(kept, js).contains(s1),
        rows_of(kept, js).contains(s2),
        in_row(t, s1, g),
        in_row(t, s2, g),
    ensures
        s1 == s2,
{
    let n = names.len() as int;
    lemma_in_row_idx(t, idx, n, s1, g);
    lemma_in_row_idx(t, idx, n, s2, g);
    let e = (g - 1) as usize;
    let q1 = choose|q: int| 0 <= q < idx[s1]@.len() && idx[s1]@[q] == e;
    let q2 = choose|q: int| 0 <= q < idx[s2]@.len() && idx[s2]@[q] == e;
    assert(first_place(names, sets[kept[s1] as int]@[q1], idx[s1]@[q1] as int));
    assert(first_place(names, sets[kept[s2] as int]@[q2], idx[s2]@[q2] as int));
    let y = names[e as int];
    assert(sets[kept[s1] as int]@.contains(y));
    assert(sets[kept[s2] as int]@.contains(y));
    assert(kept[s1] == kept[s2]);
    if s1 < s2 {
        assert(kept[s1] < kept[s2]);
    } else if s2 < s1 {
        assert(kept[s2] < kept[s1]);
    }
}

/// A solution over the items, with no primary item named twice, is a
/// solution of the table, by the rows of its sets.
proof fn lemma_item_complete(
    sets: Seq<Vec<usize>>,
    primary: Seq<usize>,
    names: Seq<usize>,
    idx: Seq<Vec<usize>>,
    kept: Seq<usize>,
    t: DLXTable,
    js: Set<int>,
)
    requires
        numbered(sets, names, idx, kept),
        primary_first(names, primary),
        primary.no_duplicates(),
        table_of(t, idx, names.len() as int),
        item_solution(sets, primary, js),
    ensures
        solution_rows(t, primary.len() as int, rows_of(kept, js)),
        sets_of_rows(kept, rows_of(kept, js)) == js,
{
    reveal(solution_rows);
    let p = primary.len() as int;
    let rs = rows_of(kept, js);
    let f = |s: int| kept[s] as int;
    assert(rs.finite()) by {
        vstd::set_lib::lemma_int_range(0, kept.len() as int);
        assert(rs.subset_of(vstd::set_lib::set_int_range(0, kept.len() as int)));
        vstd::set_lib::lemma_len_subset(rs, vstd::set_lib::set_int_range(0, kept.len() as int));
    }
    assert forall|s: int| #[trigger] rs.contains(s) implies live_p(t, p, s) by {
        lemma_complete_live(sets, primary, names, idx, kept, t, js, s);
    }
    assert forall|g: int| #[trigger] t.active().contains(g) && g <= p implies exists|s: int| rs.contains(s) && #[trigger] in_row(t, s, g) by {
        let s = lemma_complete_covered(sets, primary, names, idx, kept, t, js, g);
    }
    assert forall|s1: int, s2: int, g: int|
        rs.contains(s1) && rs.contains(s2) && #[trigger] in_row(t, s1, g) && #[trigger] in_row(t, s2, g) implies s1 == s2 by {
        lemma_complete_unique(sets, primary, names, idx, kept, t, js, s1, s2, g);
    }
    assert(sets_of_rows(kept, rs) =~= js) by {
        assert forall|j: int| #[trigger] js.contains(j) implies sets_of_rows(kept, rs).contains(j) by {
            assert(has_primary(sets[j]@, primary));
            assert(sets[j]@.len() > 0);
            assert(kept.contains(j as usize));
            let s = choose|s: int| 0 <= s < kept.len() && kept[s] == j as usize;
            assert(rs.contains(s) && f(s) == j);
        }
    }
}

/// The place of `e` in `row`.
fn find_place(row: &Vec<usize>, e: usize) -> (q: usize)
    requires
        row@.contains(e),
    ensures
        q < row@.len(),
        row@[q as int] == e,
{
    let mut q: usize = 0;
    while q < row.len()
        invariant
            q <= row@.len(),
            row@.contains(e),
            forall|k: int| 0 <= k < q ==> row@[k] != e,
        decreases row@.len() - q,
    {
        if row[q] == e {
            return q;
        }
        q += 1;
    }
    proof {
        let k = choose|k: int| 0 <= k < row@.len() && row@[k] == e;
    }
    0
}

/// `set` read from place `q` on, and then from its start up to `q`.
fn rotate(set: &Vec<usize>, q: usize) -> (v: Vec<usize>)
    requires
        q < set@.len(),
    ensures
        v@ == rotation(set@, q as int),
{
    let mut v: Vec<usize> = Vec::new();
    let mut k: usize = q;
    while k < set.len()
        invariant
            q <= k <= set@.len(),
            v@ == set@.subrange(q as int, k as int),
        decreases set@.len() - k,
    {
        v.push(set[k]);
        k += 1;
        proof {
            assert(v@ =~= set@.subrange(q as int, k as int));
        }
    }
    let mut k: usize = 0;
    while k < q
        invariant
            k <= q < set@.len(),
            v@ == set@.subrange(q as int, set@.len() as int) + set@.subrange(0, k as int),
        decreases q - k,
    {
        v.push(set[k]);
        k += 1;
        proof {
            assert(v@ =~= set@.subrange(q as int, set@.len() as int) + set@.subrange(0, k as int));
        }
    }
    v
}

/// `v` is the set of row `e.0`, read from the place of element `e.1` on.
pub open spec fn reads_entry(sets: Seq<Vec<usize>>, idx: Seq<Vec<usize>>, kept: Seq<usize>, e: (usize, usize), v: Seq<usize>) -> bool {
    exists|q: int|
        0 <= q < idx[e.0 as int]@.len() && idx[e.0 as int]@[q] == e.1 && v == rotation(sets[kept[e.0 as int] as int]@, q)
}

/// The sets a path of (row, element) choices stands for, each read from
/// the item of its element on.
fn read_path(sets: &Vec<Vec<usize>>, idx: &Vec<Vec<usize>>, kept: &Vec<usize>, path: &Vec<(usize, usize)>) -> (out: Vec<Vec<usize>>)
    requires
        idx@.len() == kept@.len(),
        forall|i: int| 0 <= i < kept@.len() ==> (#[trigger] kept@[i]) < sets@.len(),
        forall|i: int| 0 <= i < idx@.len() ==> (#[trigger] idx@[i])@.len() == sets@[kept@[i] as int]@.len(),
        forall|i: int| 0 <= i < path@.len() ==> (#[trigger] path@[i]).0 < kept@.len() && idx@[path@[i].0 as int]@.contains(path@[i].1),
    ensures
        out@.len() == path@.len(),
        forall|i: int| 0 <= i < path@.len() ==> #[trigger] reads_entry(sets@, idx@, kept@, path@[i], out@[i]@),
{
    let mut out: Vec<Vec<usize>> = Vec::new();
    let mut i: usize = 0;
    while i < path.len()
        invariant
            i <= path@.len(),
            out@.len() == i,
            idx@.len() == kept@.len(),
            forall|i: int| 0 <= i < kept@.len() ==> (#[trigger] kept@[i]) < sets@.len(),
            forall|i: int| 0 <= i < idx@.len() ==> (#[trigger] idx@[i])@.len() == sets@[kept@[i] as int]@.len(),
            forall|i: int| 0 <= i < path@.len() ==> (#[trigger] path@[i]).0 < kept@.len() && idx@[path@[i].0 as int]@.contains(path@[i].1),
            forall|j: int| 0 <= j < i ==> #[trigger] reads_entry(sets@, idx@, kept@, path@[j], out@[j]@),
        decreases path@.len() - i,
    {
        let (s, e) = path[i];
        proof {
            assert(path@[i as int].0 < kept@.len());
        }
        let q = find_place(&idx[s], e);
        let v = rotate(&sets[kept[s]], q);
        proof {
            assert(reads_entry(sets@, idx@, kept@, path@[i as int], v@));
        }
        out.push(v);
        i += 1;
    }
    out
}

/// The sets a path reads, in its order, list the sets of its rows.
proof fn lemma_path_lists(
    sets: Seq<Vec<usize>>,
    names: Seq<usize>,
    idx: Seq<Vec<usize>>,
    kept: Seq<usize>,
    c: Seq<(usize, usize)>,
    out: Seq<Vec<usize>>,
)
    requires
        numbered(sets, names, idx, kept),
        forall|i: int, j: int| 0 <= i < j < c.len() ==> (#[trigger] c[i]).0 != (#[trigger] c[j]).0,
        forall|i: int| 0 <= i < c.len() ==> (#[trigger] c[i]).0 < kept.len(),
        out.len() == c.len(),
        forall|i: int| 0 <= i < c.len() ==> #[trigger] reads_entry(sets, idx, kept, c[i], out[i]@),
    ensures
        lists_solution(sets, out, sets_of_rows(kept, path_rows(c))),
{
    let order = Seq::new(c.len(), |i: int| kept[c[i].0 as int] as int);
    assert(order.no_duplicates()) by {
        assert forall|i: int, j: int| 0 <= i < order.len() && 0 <= j < order.len() && i != j implies order[i] != order[j] by {
            let a = c[i].0 as int;
            let b = c[j].0 as int;
            if i < j {
                assert(c[i].0 != c[j].0);
            } else {
                assert(c[j].0 != c[i].0);
            }
            if a < b {
                assert(kept[a] < kept[b]);
            } else {
                assert(kept[b] < kept[a]);
            }
        }
    }
    assert forall|i: int| 0 <= i < out.len() implies 0 <= #[trigger] order[i] < sets.len() && exists|q: int|
        0 <= q < sets[order[i]]@.len() && out[i]@ == rotation(sets[order[i]]@, q) by {
        assert(reads_entry(sets, idx, kept, c[i], out[i]@));
        let q = choose|q: int|
            0 <= q < idx[c[i].0 as int]@.len() && idx[c[i].0 as int]@[q] == c[i].1 && out[i]@ == rotation(
                sets[kept[c[i].0 as int] as int]@,
                q,
            );
        assert(c[i].0 < kept.len());
    }
    assert(lists_in_order(sets, out, order));
    let f = |s: int| kept[s] as int;
    assert(order.to_set() =~= sets_of_rows(kept, path_rows(c))) by {
        assert forall|j: int| order.to_set().contains(j) implies sets_of_rows(kept, path_rows(c)).contains(j) by {
            let i = choose|i: int| 0 <= i < order.len() && order[i] == j;
            let s = c[i].0 as int;
            assert(path_rows(c).contains(s));
            assert(f(s) == j);
        }
        assert forall|j: int| sets_of_rows(kept, path_rows(c)).contains(j) implies order.to_set().contains(j) by {
            let s = choose|s: int| path_rows(c).contains(s) && j == f(s);
            let i = choose|i: int| 0 <= i < c.len() && c[i].0 as int == s;
            assert(order[i] == j);
        }
    }
}

/// Distinct items have distinct first places.
proof fn lemma_places_distinct(names: Seq<usize>, set: Seq<usize>, row: Seq<usize>)
    requires
        set.no_duplicates(),
        row.len() == set.len(),
        forall|q: int| 0 <= q < row.len() ==> first_place(names, set[q], (#[trigger] row[q]) as int),
    ensures
        row.no_duplicates(),
        forall|q: int| 0 <= q < row.len() ==> (#[trigger] row[q]) < names.len(),
{
    assert forall|a: int, b: int| 0 <= a < row.len() && 0 <= b < row.len() && a != b implies row[a] != row[b] by {
        assert(first_place(names, set[a], row[a] as int));
        assert(first_place(names, set[b], row[b] as int));
    }
    assert forall|q: int| 0 <= q < row.len() implies (#[trigger] row[q]) < names.len() by {
        assert(first_place(names, set[q], row[q] as int));
    }
}

/// The numbered sets of `sets` over the primary items followed by the
/// secondary ones, and the table of them.
fn item_table(sets: &Vec<Vec<usize>>, primary_items: Vec<usize>, secondary_items: Vec<usize>) -> (r: (
    Vec<usize>,
    Vec<Vec<usize>>,
    Vec<usize>,
    DLXTable,
))
    requires
        well_named(sets@, primary_items@ + secondary_items@),
        primary_items@.len() + secondary_items@.len() + total_len(view_sets(sets@)) + sets@.len() + 2 < usize::MAX,
    ensures
        r.0@ == primary_items@ + secondary_items@,
        numbered(sets@, r.0@, r.1@, r.2@),
        primary_first(r.0@, primary_items@),
        table_of(r.3, r.1@, r.0@.len() as int),
        ready(r.3),
        rows_active(r.3),
{
    let ghost prim = primary_items@;
    let ghost sec = secondary_items@;
    let mut names = primary_items;
    let mut rest = secondary_items;
    names.append(&mut rest);
    proof {
        assert(names@ =~= prim + sec);
    }
    let (idx, kept) = number_sets(&names, sets);
    proof {
        lemma_total_len_nonneg(view_sets(idx@));
        assert forall|s: int| 0 <= s < idx@.len() implies (#[trigger] idx@[s])@.no_duplicates() by {
            assert(sets@[kept@[s] as int]@.no_duplicates());
            assert forall|q: int| 0 <= q < idx@[s]@.len() implies first_place(
                names@,
                sets@[kept@[s] as int]@[q],
                (#[trigger] idx@[s]@[q]) as int,
            ) by {}
            lemma_places_distinct(names@, sets@[kept@[s] as int]@, idx@[s]@);
        }
        assert forall|s: int, k: int| 0 <= s < idx@.len() && 0 <= k < idx@[s]@.len() implies idx@[s]@[k] < names@.len() by {
            assert(first_place(names@, sets@[kept@[s] as int]@[k], idx@[s]@[k] as int));
        }
        assert forall|s: int| 0 <= s < idx@.len() implies (#[trigger] idx@[s])@.len() > 0 by {}
    }
    let table = DLXTable::from_elements(names.len(), &idx);
    proof {
        lemma_item_table(idx@, table, names@.len() as int);
    }
    (names, idx, kept, table)
}

/// Every solution, as the sets it chooses, in the order the search finds
/// them: the items are the primary items, which must each be in exactly one
/// chosen set, and the secondary items, which may be in at most one; only
/// sets with a primary item are chosen.  The search always covers the
/// primary item with the fewest sets left (the first such), and tries its
/// sets in their order.  Each chosen set is listed from the item it was
/// chosen through, followed by the items after it and then those before
/// it.  With no primary items the empty choice is the one solution.
pub fn dlx(sets: Vec<Vec<usize>>, primary_items: Vec<usize>, secondary_items: Vec<usize>) -> (r: Vec<Vec<Vec<usize>>>)
    requires
        well_named(sets@, primary_items@ + secondary_items@),
        primary_items@.len() + secondary_items@.len() + total_len(view_sets(sets@)) + sets@.len() + 2 < usize::MAX,
    ensures
        forall|c: int| 0 <= c < r@.len() ==> solution_listed(sets@, primary_items@, #[trigger] r@[c]@),
        primary_items@.no_duplicates() ==> forall|js: Set<int>|
            #[trigger] item_solution(sets@, primary_items@, js) ==> exists|c: int| 0 <= c < r@.len() && lists_solution(sets@, #[trigger] r@[c]@, js),
        solutions_apart(sets@, primary_items@, r@),
        primary_items@.len() == 0 ==> r@.len() == 1 && r@[0]@.len() == 0,
{
    let ghost prim = primary_items@;
    let p = primary_items.len();
    let (names, idx, kept, mut table) = item_table(&sets, primary_items, secondary_items);
    let ghost t0 = table;
    let paths = search(&mut table, p);
    proof {
        if p == 0 {
            assert forall|g: int| #[trigger] t0.active().contains(g) implies g > p by {}
        }
    }
    let mut r: Vec<Vec<Vec<usize>>> = Vec::new();
    let mut c: usize = 0;
    while c < paths.len()
        invariant
            c <= paths@.len(),
            r@.len() == c,
            p == prim.len(),
            numbered(sets@, names@, idx@, kept@),
            primary_first(names@, prim),
            table_of(t0, idx@, names@.len() as int),
            forall|c: int| 0 <= c < paths@.len() ==> solution_path(t0, p as int, #[trigger] paths@[c]@),
            forall|j: int| 0 <= j < c ==> lists_solution(sets@, #[trigger] r@[j]@, sets_of_rows(kept@, path_rows(paths@[j]@))),
            forall|j: int| 0 <= j < c ==> solution_listed(sets@, prim, #[trigger] r@[j]@),
            forall|j: int| 0 <= j < c ==> item_solution(sets@, prim, sets_of_rows(kept@, path_rows(#[trigger] paths@[j]@))),
            forall|j: int| 0 <= j < c ==> (#[trigger] r@[j])@.len() == paths@[j]@.len(),
            p == 0 ==> paths@.len() == 1 && paths@[0]@.len() == 0,
        decreases paths@.len() - c,
    {
        let ghost cv = paths@[c as int]@;
        proof {
            lemma_path_ready(sets@, prim, names@, idx@, kept@, t0, cv);
        }
        let out = read_path(&sets, &idx, &kept, &paths[c]);
        proof {
            lemma_path_lists(sets@, names@, idx@, kept@, cv, out@);
            assert(solution_path(t0, p as int, cv));
            reveal(solution_path);
            lemma_item_sound(sets@, prim, names@, idx@, kept@, t0, path_rows(cv));
            assert(item_solution(sets@, prim, sets_of_rows(kept@, path_rows(cv))));
        }
        r.push(out);
        c += 1;
    }
    proof {
        assert forall|js: Set<int>| #[trigger] item_solution(sets@, prim, js) && prim.no_duplicates() implies exists|c: int|
            0 <= c < r@.len() && lists_solution(sets@, #[trigger] r@[c]@, js) by {
            lemma_item_complete(sets@, prim, names@, idx@, kept@, t0, js);
            let rows = rows_of(kept@, js);
            assert(found_rows(paths@, rows));
            reveal(found_rows);
            let c = choose|c: int| 0 <= c < paths@.len() && #[trigger] path_rows(paths@[c]@) == rows;
            assert(lists_solution(sets@, r@[c]@, sets_of_rows(kept@, path_rows(paths@[c]@))));
        }
        let sel = Seq::new(r@.len(), |c: int| sets_of_rows(kept@, path_rows(paths@[c]@)));
        assert forall|c1: int, c2: int| 0 <= c1 < c2 < r@.len() implies #[trigger] sel[c1] != #[trigger] sel[c2] by {
            assert(path_rows(paths@[c1]@) != path_rows(paths@[c2]@));
            lemma_path_ready(sets@, prim, names@, idx@, kept@, t0, paths@[c1]@);
            lemma_path_ready(sets@, prim, names@, idx@, kept@, t0, paths@[c2]@);
            lemma_sets_of_rows_apart(kept@, path_rows(paths@[c1]@), path_rows(paths@[c2]@));
        }
        assert(listed_apart(sets@, prim, r@, sel));
    }
    r
}

/// The solutions of `dlx`, one by one in the same order, as an iterator
/// over them would give them; with no primary items there are none.
pub fn dlx_iter(sets: Vec<Vec<usize>>, primary_items: Vec<usize>, secondary_items: Vec<usize>) -> (r: Vec<Vec<Vec<usize>>>)
    requires
        well_named(sets@, primary_items@ + secondary_items@),
        primary_items@.len() + secondary_items@.len() + total_len(view_sets(sets@)) + sets@.len() + 2 < usize::MAX,
    ensures
        primary_items@.len() == 0 ==> r@.len() == 0,
        forall|c: int| 0 <= c < r@.len() ==> solution_listed(sets@, primary_items@, #[trigger] r@[c]@),
        primary_items@.len() > 0 && primary_items@.no_duplicates() ==> forall|js: Set<int>|
            #[trigger] item_solution(sets@, primary_items@, js) ==> exists|c: int| 0 <= c < r@.len() && lists_solution(sets@, #[trigger] r@[c]@, js),
        solutions_apart(sets@, primary_items@, r@),
{
    if primary_items.len() == 0 {
        let none: Vec<Vec<Vec<usize>>> = Vec::new();
        proof {
            assert(listed_apart(sets@, primary_items@, none@, Seq::empty()));
        }
        return none;
    }
    dlx(sets, primary_items, secondary_items)
}

/// What `read_path` needs of a path that solves the table.
proof fn lemma_path_ready(
    sets: Seq<Vec<usize>>,
    primary: Seq<usize>,
    names: Seq<usize>,
    idx: Seq<Vec<usize>>,
    kept: Seq<usize>,
    t: DLXTable,
    c: Seq<(usize, usize)>,
)
    requires
        numbered(sets, names, idx, kept),
        table_of(t, idx, names.len() as int),
        solution_path(t, primary.len() as int, c),
    ensures
        forall|i: int| 0 <= i < c.len() ==> (#[trigger] c[i]).0 < kept.len() && idx[c[i].0 as int]@.contains(c[i].1),
        forall|i: int, j: int| 0 <= i < j < c.len() ==> (#[trigger] c[i]).0 != (#[trigger] c[j]).0,
{
    reveal(solution_path);
    assert forall|i: int| 0 <= i < c.len() implies (#[trigger] c[i]).0 < kept.len() && idx[c[i].0 as int]@.contains(c[i].1) by {
        let s = c[i].0 as int;
        assert(path_rows(c).contains(s));
        lemma_rows_in_range(t, primary.len() as int, path_rows(c), s);
        lemma_in_row_idx(t, idx, names.len() as int, s, c[i].1 + 1);
    }
}

/// The first solution in the order of `dlx_iter`, as the sets it chooses,
/// each listed from the item of the column it was chosen through; with no
/// primary items, the empty choice.  `None` when there is no solution.
pub fn dlx_first(sets: Vec<Vec<usize>>, primary_items: Vec<usize>, secondary_items: Vec<usize>) -> (r: Option<Vec<Vec<usize>>>)
    requires
        well_named(sets@, primary_items@ + secondary_items@),
        primary_items@.len() + secondary_items@.len() + total_len(view_sets(sets@)) + sets@.len() + 2 < usize::MAX,
    ensures
        r matches Some(sol) ==> solution_listed(sets@, primary_items@, sol@),
        primary_items@.len() == 0 ==> (r matches Some(sol) && sol@.len() == 0),
        r is None && primary_items@.no_duplicates() ==> forall|js: Set<int>| !#[trigger] item_solution(sets@, primary_items@, js),
{
    let ghost prim = primary_items@;
    let p = primary_items.len();
    if p == 0 {
        let none: Vec<Vec<usize>> = Vec::new();
        proof {
            let js = Set::<int>::empty();
            let order = Seq::<int>::empty();
            assert(lists_in_order(sets@, none@, order));
            assert(order.to_set() =~= js);
            assert(item_solution(sets@, prim, js));
        }
        return Some(none);
    }
    let (names, idx, kept, mut table) = item_table(&sets, primary_items, secondary_items);
    let ghost t0 = table;
    match search_first(&mut table, p) {
        Some(path) => {
            let ghost cv = path@;
            proof {
                lemma_path_ready(sets@, prim, names@, idx@, kept@, t0, cv);
            }
            let out = read_path(&sets, &idx, &kept, &path);
            proof {
                lemma_path_lists(sets@, names@, idx@, kept@, cv, out@);
                reveal(solution_path);
                lemma_item_sound(sets@, prim, names@, idx@, kept@, t0, path_rows(cv));
                assert(item_solution(sets@, prim, sets_of_rows(kept@, path_rows(cv))));
            }
            Some(out)
        },
        None => {
            proof {
                assert forall|js: Set<int>| prim.no_duplicates() implies !#[trigger] item_solution(sets@, prim, js) by {
                    if item_solution(sets@, prim, js) {
                        lemma_item_complete(sets@, prim, names@, idx@, kept@, t0, js);
                    }
                }
            }
            None
        },
    }
}


/// The sets a row of the table stands for hold item `q` exactly when the
/// row is in the column of `q`.
proof fn lemma_col_sets_idx(t: DLXTable, idx: Seq<Vec<usize>>, n: int, s: int, q: int)
    requires
        table_of(t, idx, n),
        0 <= s < idx.len(),
        0 <= q < n,
    ensures
        t.col_sets(q + 1).contains(s) <==> idx[s]@.contains(q as usize),
{
    lemma_in_row_idx(t, idx, n, s, q + 1);
    reveal(DLXTable::col_sets);
    if idx[s]@.contains(q as usize) {
        let x = choose|x: int| t.head_of(s) <= x < t.end_of(s) && #[trigger] t.hdr(x) == q + 1;
        t.lemma_row_layout(s);
        assert(t.is_item(x) && t.set_of(x) == s);
        assert(t.col(t.hdr(x)).contains(x));
    }
    if t.col_sets(q + 1).contains(s) {
        let y = choose|y: int| #[trigger] t.col(q + 1).contains(y) && t.set_of(y) == s;
        assert(t.col(t.hdr(y)).contains(y));
        lemma_node_in_row(t, y);
    }
}

/// The place in `kept` of set `j`, a set with an item.
fn row_of_set(kept: &Vec<usize>, j: usize) -> (r: usize)
    requires
        kept@.contains(j),
    ensures
        r < kept@.len(),
        kept@[r as int] == j,
{
    let mut r: usize = 0;
    while r < kept.len()
        invariant
            r <= kept@.len(),
            kept@.contains(j),
            forall|i: int| 0 <= i < r ==> kept@[i] != j,
        decreases kept@.len() - r,
    {
        if kept[r] == j {
            return r;
        }
        r += 1;
    }
    proof {
        let i = choose|i: int| 0 <= i < kept@.len() && kept@[i] == j;
    }
    0
}

/// The tasks read from the rows of the column of `elem` are the sets that
/// hold the primary item at place `elem`, in order.
#[verifier::spinoff_prover]
#[verifier::rlimit(40)]
proof fn lemma_tasks_of(
    sets: Seq<Vec<usize>>,
    prim: Seq<usize>,
    names: Seq<usize>,
    idx: Seq<Vec<usize>>,
    kept: Seq<usize>,
    table: DLXTable,
    elem: usize,
    rows: Seq<usize>,
    tasks: Seq<usize>,
)
    requires
        numbered(sets, names, idx, kept),
        table_of(table, idx, names.len() as int),
        elem < prim.len(),
        primary_first(names, prim),
        forall|a: int, b: int| 0 <= a < b < rows.len() ==> rows[a] < rows[b],
        forall|x: usize| rows.contains(x) <==> elem < table.element_count && table.col_sets(elem + 1).contains(x as int),
        tasks.len() == rows.len(),
        forall|m: int| 0 <= m < rows.len() ==> #[trigger] tasks[m] == kept[rows[m] as int],
        forall|m: int| 0 <= m < rows.len() ==> #[trigger] rows[m] < kept.len(),
        kept.len() <= usize::MAX,
    ensures
        forall|a: int, b: int| 0 <= a < b < tasks.len() ==> tasks[a] < tasks[b],
        forall|k: int| 0 <= k < tasks.len() ==> (#[trigger] tasks[k]) < sets.len() && sets[tasks[k] as int]@.contains(prim[elem as int]),
        prim.no_duplicates() ==> forall|j: int| 0 <= j < sets.len() && #[trigger] sets[j]@.contains(prim[elem as int]) ==> tasks.contains(j as usize),
{
    assert forall|a: int, b: int| 0 <= a < b < tasks.len() implies tasks[a] < tasks[b] by {
        assert(tasks[a] == kept[rows[a] as int] && tasks[b] == kept[rows[b] as int]);
    }
    assert forall|m: int| 0 <= m < tasks.len() implies (#[trigger] tasks[m]) < sets.len() && sets[tasks[m] as int]@.contains(
        prim[elem as int],
    ) by {
        let r = rows[m] as int;
        assert(tasks[m] == kept[r]);
        assert(r < kept.len());
        assert(rows.contains(rows[m]));
        lemma_col_sets_idx(table, idx, names.len() as int, r, elem as int);
        let q = choose|q: int| 0 <= q < idx[r]@.len() && idx[r]@[q] == elem;
        assert(first_place(names, sets[kept[r] as int]@[q], elem as int));
        assert(names[elem as int] == prim[elem as int]);
    }
    assert forall|j: int| prim.no_duplicates() && 0 <= j < sets.len() && #[trigger] sets[j]@.contains(prim[elem as int]) implies tasks.contains(j as usize) by {
        assert(sets[j]@.len() > 0);
        assert(kept.contains(j as usize));
        let r = choose|r: int| 0 <= r < kept.len() && kept[r] == j as usize;
        let q = choose|q: int| 0 <= q < sets[j]@.len() && sets[j]@[q] == prim[elem as int];
        assert(first_place(names, sets[kept[r] as int]@[q], idx[r]@[q] as int));
        assert(first_place(names, prim[elem as int], elem as int)) by {
            assert forall|m: int| 0 <= m < elem implies names[m] != prim[elem as int] by {
                assert(names[m] == prim[m]);
            }
        }
        lemma_first_place_unique(names, prim[elem as int], idx[r]@[q] as int, elem as int);
        assert(idx[r]@.contains(elem));
        lemma_col_sets_idx(table, idx, names.len() as int, r, elem as int);
        assert(elem < table.element_count);
        assert(table.col_sets(elem + 1).contains(r));
        assert((r as usize) as int == r);
        assert(rows.contains(r as usize));
        let m = choose|m: int| 0 <= m < rows.len() && rows[m] == r as usize;
        assert(tasks[m] == j as usize);
    }
}

/// How the search splits into tasks that can run apart: the primary item
/// it branches on first, the one whose column has the fewest sets left
/// (the first such), and, in order, the sets that hold it, one task each.
/// `None` when there are no primary items.
pub fn dlx_tasks(sets: Vec<Vec<usize>>, primary_items: Vec<usize>, secondary_items: Vec<usize>) -> (r: Option<(usize, Vec<usize>)>)
    requires
        well_named(sets@, primary_items@ + secondary_items@),
        primary_items@.len() + secondary_items@.len() + total_len(view_sets(sets@)) + sets@.len() + 2 < usize::MAX,
    ensures
        primary_items@.len() == 0 <==> r is None,
        r matches Some((item, tasks)) ==> {
            &&& item < primary_items@.len()
            &&& forall|a: int, b: int| 0 <= a < b < tasks@.len() ==> tasks@[a] < tasks@[b]
            &&& forall|k: int| 0 <= k < tasks@.len() ==> (#[trigger] tasks@[k]) < sets@.len() && sets@[tasks@[k] as int]@.contains(
                primary_items@[item as int],
            )
            &&& primary_items@.no_duplicates() ==> forall|j: int|
                0 <= j < sets@.len() && #[trigger] sets@[j]@.contains(primary_items@[item as int]) ==> tasks@.contains(j as usize)
        },
{
    let ghost prim = primary_items@;
    let p = primary_items.len();
    let (names, idx, kept, table) = item_table(&sets, primary_items, secondary_items);
    assert(table.wf()) by {
        reveal(ready);
    }
    let elements = table.elements();
    proof {
        assert forall|k: int| 0 <= k < elements@.len() implies (#[trigger] elements@[k]) < table.element_count by {
            assert(elements@.contains(elements@[k]));
        }
    }
    match choose_column(&table, &elements, p) {
        None => {
            proof {
                if p > 0 {
                    assert(table.active().contains(1));
                }
            }
            None
        },
        Some(elem) => {
            assert(table.wf_layout() && table.wf_vertical()) by {
                reveal(ready);
            }
            let rows = table.element_sets(elem);
            proof {
                crate::dlx_table::lemma_col_sets_bound(table, elem + 1);
                assert forall|m: int| 0 <= m < rows@.len() implies #[trigger] rows@[m] < kept@.len() by {
                    assert(rows@.contains(rows@[m]));
                }
            }
            let mut tasks: Vec<usize> = Vec::new();
            let mut k: usize = 0;
            while k < rows.len()
                invariant
                    k <= rows@.len(),
                    tasks@.len() == k,
                    numbered(sets@, names@, idx@, kept@),
                    table_of(table, idx@, names@.len() as int),
                    elem < p,
                    p == prim.len(),
                    primary_first(names@, prim),
                    forall|a: int, b: int| 0 <= a < b < rows@.len() ==> rows@[a] < rows@[b],
                    forall|x: usize| rows@.contains(x) <==> elem < table.element_count && table.col_sets(elem + 1).contains(x as int),
                    forall|m: int| 0 <= m < k ==> #[trigger] tasks@[m] == kept@[rows@[m] as int],
                    forall|m: int| 0 <= m < rows@.len() ==> #[trigger] rows@[m] < kept@.len(),
                decreases rows@.len() - k,
            {

                tasks.push(kept[rows[k]]);
                k += 1;
            }
            proof {
                lemma_tasks_of(sets@, prim, names@, idx@, kept@, table, elem, rows@, tasks@);
            }
            Some((elem, tasks))
        },
    }
}


/// The place in the table of each of the sets `tasks`, each a set that
/// holds the primary item at place `item`: rows of that item's column, in
/// order.
fn task_rows(kept: &Vec<usize>, tasks: &Vec<usize>, Ghost(sets): Ghost<Seq<Vec<usize>>>, Ghost(names): Ghost<Seq<usize>>, Ghost(idx): Ghost<Seq<Vec<usize>>>, Ghost(t): Ghost<DLXTable>, item: usize) -> (rows: Vec<usize>)
    requires
        numbered(sets, names, idx, kept@),
        table_of(t, idx, names.len() as int),
        item < names.len(),
        first_place(names, names[item as int], item as int),
        forall|a: int, b: int| 0 <= a < b < tasks@.len() ==> tasks@[a] < tasks@[b],
        forall|k: int| 0 <= k < tasks@.len() ==> (#[trigger] tasks@[k]) < sets.len() && sets[tasks@[k] as int]@.contains(names[item as int]),
    ensures
        rows@.len() == tasks@.len(),
        forall|a: int, b: int| 0 <= a < b < rows@.len() ==> rows@[a] < rows@[b],
        forall|k: int| 0 <= k < rows@.len() ==> (#[trigger] rows@[k]) < kept@.len() && kept@[rows@[k] as int] == tasks@[k]
            && t.col_sets(item + 1).contains(rows@[k] as int),
{
    let mut rows: Vec<usize> = Vec::new();
    let mut k: usize = 0;
    while k < tasks.len()
        invariant
            k <= tasks@.len(),
            rows@.len() == k,
            numbered(sets, names, idx, kept@),
            table_of(t, idx, names.len() as int),
            item < names.len(),
            first_place(names, names[item as int], item as int),
            forall|a: int, b: int| 0 <= a < b < tasks@.len() ==> tasks@[a] < tasks@[b],
            forall|k: int| 0 <= k < tasks@.len() ==> (#[trigger] tasks@[k]) < sets.len() && sets[tasks@[k] as int]@.contains(names[item as int]),
            forall|m: int| 0 <= m < k ==> (#[trigger] rows@[m]) < kept@.len() && kept@[rows@[m] as int] == tasks@[m]
                && t.col_sets(item + 1).contains(rows@[m] as int),
        decreases tasks@.len() - k,
    {
        let j = tasks[k];
        proof {
            assert(sets[j as int]@.contains(names[item as int]));
            assert(sets[j as int]@.len() > 0);
        }
        let r = row_of_set(kept, j);
        proof {
            let q = choose|q: int| 0 <= q < sets[j as int]@.len() && sets[j as int]@[q] == names[item as int];
            assert(first_place(names, sets[kept@[r as int] as int]@[q], idx[r as int]@[q] as int));
            lemma_first_place_unique(names, names[item as int], idx[r as int]@[q] as int, item as int);
            assert(idx[r as int]@.contains(item));
            lemma_col_sets_idx(t, idx, names.len() as int, r as int, item as int);
            if k > 0 {
                let rp = rows@[k - 1] as int;
                assert(kept@[rp] == tasks@[k - 1]);
                assert(tasks@[k - 1] < tasks@[k as int]);
                if r as int <= rp {
                    if (r as int) < rp {
                        assert(kept@[r as int] < kept@[rp]);
                    }
                }
            }
        }
        let ghost before = rows@;
        rows.push(r);
        proof {
            assert forall|a: int, b: int| 0 <= a < b < rows@.len() implies rows@[a] < rows@[b] by {
                if b < k {
                    assert(rows@[a] == before[a] && rows@[b] == before[b]);
                } else if a < k - 1 {
                    assert(rows@[a] == before[a]);
                    assert(kept@[rows@[a] as int] == tasks@[a]);
                    assert(tasks@[a] < tasks@[k - 1]);
                    assert(kept@[before[k - 1] as int] == tasks@[k - 1]);
                    if rows@[a] >= before[k - 1] {
                        if rows@[a] > before[k - 1] {
                            assert(kept@[before[k - 1] as int] < kept@[rows@[a] as int]);
                        }
                    }
                }
            }
        }
        k += 1;
    }
    rows
}

/// The solutions that choose, for the primary item at place `item`, one
/// of the sets `tasks`: the sets `dlx_tasks` gives, or some of them, each
/// one task that can run apart from the others.  The item's column is
/// covered and each task's set tried in turn, as `dlx` tries them; each
/// solution lists its sets as `dlx` does.
pub fn dlx_task_solutions(
    sets: Vec<Vec<usize>>,
    primary_items: Vec<usize>,
    secondary_items: Vec<usize>,
    item: usize,
    tasks: Vec<usize>,
) -> (r: Vec<Vec<Vec<usize>>>)
    requires
        well_named(sets@, primary_items@ + secondary_items@),
        primary_items@.len() + secondary_items@.len() + total_len(view_sets(sets@)) + sets@.len() + 2 < usize::MAX,
        item < primary_items@.len(),
        forall|m: int| 0 <= m < item ==> primary_items@[m] != primary_items@[item as int],
        forall|a: int, b: int| 0 <= a < b < tasks@.len() ==> tasks@[a] < tasks@[b],
        forall|k: int| 0 <= k < tasks@.len() ==> (#[trigger] tasks@[k]) < sets@.len() && sets@[tasks@[k] as int]@.contains(
            primary_items@[item as int],
        ),
    ensures
        forall|c: int| 0 <= c < r@.len() ==> solution_listed(sets@, primary_items@, #[trigger] r@[c]@),
        primary_items@.no_duplicates() ==> forall|js: Set<int>, k: int|
            #![trigger item_solution(sets@, primary_items@, js), tasks@[k]]
            0 <= k < tasks@.len() && item_solution(sets@, primary_items@, js) && js.contains(tasks@[k] as int) ==> exists|c: int|
                0 <= c < r@.len() && lists_solution(sets@, #[trigger] r@[c]@, js),
        solutions_apart(sets@, primary_items@, r@),
{
    let ghost prim = primary_items@;
    let p = primary_items.len();
    let (names, idx, kept, mut table) = item_table(&sets, primary_items, secondary_items);
    let ghost t0 = table;
    proof {
        assert(names@[item as int] == prim[item as int]);
        assert forall|m: int| 0 <= m < item implies names@[m] != names@[item as int] by {
            assert(names@[m] == prim[m]);
        }
        assert(t0.active().contains(item + 1));
    }
    let rows = task_rows(&kept, &tasks, Ghost(sets@), Ghost(names@), Ghost(idx@), Ghost(t0), item);
    let paths = search_rows(&mut table, p, item, &rows);
    let mut r: Vec<Vec<Vec<usize>>> = Vec::new();
    let mut c: usize = 0;
    while c < paths.len()
        invariant
            c <= paths@.len(),
            r@.len() == c,
            p == prim.len(),
            numbered(sets@, names@, idx@, kept@),
            primary_first(names@, prim),
            table_of(t0, idx@, names@.len() as int),
            forall|c: int| 0 <= c < paths@.len() ==> solution_path(t0, p as int, #[trigger] paths@[c]@),
            forall|j: int| 0 <= j < c ==> lists_solution(sets@, #[trigger] r@[j]@, sets_of_rows(kept@, path_rows(paths@[j]@))),
            forall|j: int| 0 <= j < c ==> solution_listed(sets@, prim, #[trigger] r@[j]@),
            forall|j: int| 0 <= j < c ==> item_solution(sets@, prim, sets_of_rows(kept@, path_rows(#[trigger] paths@[j]@))),
        decreases paths@.len() - c,
    {
        let ghost cv = paths@[c as int]@;
        proof {
            lemma_path_ready(sets@, prim, names@, idx@, kept@, t0, cv);
        }
        let out = read_path(&sets, &idx, &kept, &paths[c]);
        proof {
            lemma_path_lists(sets@, names@, idx@, kept@, cv, out@);
            assert(solution_path(t0, p as int, cv));
            reveal(solution_path);
            lemma_item_sound(sets@, prim, names@, idx@, kept@, t0, path_rows(cv));
            assert(item_solution(sets@, prim, sets_of_rows(kept@, path_rows(cv))));
        }
        r.push(out);
        c += 1;
    }
    proof {
        assert forall|js: Set<int>, k: int|
            #![trigger item_solution(sets@, prim, js), tasks@[k]]
            prim.no_duplicates() && 0 <= k < tasks@.len() && item_solution(sets@, prim, js) && js.contains(tasks@[k] as int) implies exists|c: int|
                0 <= c < r@.len() && lists_solution(sets@, #[trigger] r@[c]@, js) by {
            lemma_item_complete(sets@, prim, names@, idx@, kept@, t0, js);
            let rs = rows_of(kept@, js);
            assert(rows@[k] < kept@.len() && kept@[rows@[k] as int] == tasks@[k]);
            assert(rs.contains(rows@[k] as int));
            assert(found_rows(paths@, rs));
            reveal(found_rows);
            let c = choose|c: int| 0 <= c < paths@.len() && #[trigger] path_rows(paths@[c]@) == rs;
            assert(lists_solution(sets@, r@[c]@, sets_of_rows(kept@, path_rows(paths@[c]@))));
        }
        let sel = Seq::new(r@.len(), |c: int| sets_of_rows(kept@, path_rows(paths@[c]@)));
        assert forall|c1: int, c2: int| 0 <= c1 < c2 < r@.len() implies #[trigger] sel[c1] != #[trigger] sel[c2] by {
            assert(path_rows(paths@[c1]@) != path_rows(paths@[c2]@));
            lemma_path_ready(sets@, prim, names@, idx@, kept@, t0, paths@[c1]@);
            lemma_path_ready(sets@, prim, names@, idx@, kept@, t0, paths@[c2]@);
            lemma_sets_of_rows_apart(kept@, path_rows(paths@[c1]@), path_rows(paths@[c2]@));
        }
        assert(listed_apart(sets@, prim, r@, sel));
    }
    r
}

} // verus!
