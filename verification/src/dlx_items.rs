//! Exact cover with primary and secondary items, by dancing links on the
//! table of `dlx_table`: every primary item is covered exactly once, every
//! secondary item at most once.  The search goes depth first, always on the
//! listed primary column with the fewest nodes, and tries the rows of that
//! column from top to bottom.
use vstd::prelude::*;
use crate::sorting::strictly_increasing;
use crate::dlx_table::{
    DLXTable, ready, row_cover_chain, uncover_pre, same_layout, same_rows, lemma_ready_same, lemma_uncover_pre_same,
    lemma_chain_at, lemma_col_sets_bound,
};
use crate::dlx::{
    in_row, conflict, rows_active, row_covered, lemma_cover_step, lemma_row_step, lemma_same_active, lemma_rows_active_same,
    lemma_rows_active_cover, lemma_rows_active_chain, lemma_cover_row_ready, lemma_active_finite, lemma_same_rows_in_row,
    lemma_node_in_row,
};

verus! {

/// Row `s` has a node in the column of a listed primary header, a header
/// among `1..=p`.
pub open spec fn live_p(t: DLXTable, p: int, s: int) -> bool {
    exists|z: int|
        #[trigger] t.col(t.hdr(z)).contains(z) && t.active().contains(t.hdr(z)) && t.hdr(z) <= p && t.set_of(z) == s
}

/// The rows `rows` each have a node in a listed primary column, cover every
/// listed primary column, and share no column.
#[verifier::opaque]
pub open spec fn solution_rows(t: DLXTable, p: int, rows: Set<int>) -> bool {
    &&& rows.finite()
    &&& forall|s: int| #[trigger] rows.contains(s) ==> live_p(t, p, s)
    &&& forall|g: int| #[trigger] t.active().contains(g) && g <= p ==> exists|s: int| rows.contains(s) && #[trigger] in_row(t, s, g)
    &&& forall|s1: int, s2: int, g: int|
        rows.contains(s1) && rows.contains(s2) && #[trigger] in_row(t, s1, g) && #[trigger] in_row(t, s2, g) ==> s1 == s2
}

/// The rows of a path of (row, element) choices.
pub open spec fn path_rows(c: Seq<(usize, usize)>) -> Set<int> {
    Set::new(|s: int| exists|i: int| 0 <= i < c.len() && c[i].0 as int == s)
}

/// `c` chooses each row once, each through an element of its own, and its
/// rows are a solution of `t`.
#[verifier::opaque]
pub open spec fn solution_path(t: DLXTable, p: int, c: Seq<(usize, usize)>) -> bool {
    &&& solution_rows(t, p, path_rows(c))
    &&& forall|i: int, j: int| 0 <= i < j < c.len() ==> (#[trigger] c[i]).0 != (#[trigger] c[j]).0
    &&& forall|i: int| 0 <= i < c.len() ==> in_row(t, (#[trigger] c[i]).0 as int, c[i].1 + 1)
}

/// Some path of `paths` has the rows `rows`.
#[verifier::opaque]
pub open spec fn found_rows(paths: Seq<Vec<(usize, usize)>>, rows: Set<int>) -> bool {
    exists|c: int| 0 <= c < paths.len() && #[trigger] path_rows(paths[c]@) == rows
}

/// No two paths of `paths` choose the same rows.
pub open spec fn distinct_paths(paths: Seq<Vec<(usize, usize)>>) -> bool {
    forall|c1: int, c2: int|
        0 <= c1 < c2 < paths.len() ==> path_rows(#[trigger] paths[c1]@) != path_rows(#[trigger] paths[c2]@)
}

/// Adding one element that neither set holds keeps two sets apart.
proof fn lemma_insert_apart(a: Set<int>, b: Set<int>, s: int)
    requires
        !a.contains(s),
        !b.contains(s),
        a != b,
    ensures
        a.insert(s) != b.insert(s),
{
    assert(a =~= a.insert(s).remove(s));
    assert(b =~= b.insert(s).remove(s));
}

/// A row with a node in a listed primary column is a row of the table.
proof fn lemma_live_p_index(t: DLXTable, p: int, s: int)
    requires
        t.wf_layout(),
        live_p(t, p, s),
    ensures
        0 <= s < t.sets_count(),
{
    let z = choose|z: int|
        #[trigger] t.col(t.hdr(z)).contains(z) && t.active().contains(t.hdr(z)) && t.hdr(z) <= p && t.set_of(z) == s;
    assert(t.nodes@[z].set is Some);
}

/// Choosing row `s` before a path of the smaller table gives the rows of
/// the path with `s` added.
proof fn lemma_path_rows_prepend(s: usize, e: usize, sub: Seq<(usize, usize)>)
    ensures
        path_rows(seq![(s, e)] + sub) == path_rows(sub).insert(s as int),
{
    let c = seq![(s, e)] + sub;
    assert forall|r: int| path_rows(c).contains(r) <==> path_rows(sub).insert(s as int).contains(r) by {
        if path_rows(c).contains(r) {
            let i = choose|i: int| 0 <= i < c.len() && c[i].0 as int == r;
            if i > 0 {
                assert(c[i] == sub[i - 1]);
            }
        }
        if path_rows(sub).contains(r) {
            let i = choose|i: int| 0 <= i < sub.len() && sub[i].0 as int == r;
            assert(c[i + 1] == sub[i]);
        }
        if r == s as int {
            assert(c[0].0 == s);
        }
    }
    assert(path_rows(c) =~= path_rows(sub).insert(s as int));
}

/// Covering row `s` keeps the rows where they are.
proof fn lemma_rc_same(t0: DLXTable, t2: DLXTable, s: int)
    requires
        row_covered(t0, t2, s),
    ensures
        same_rows(t0, t2),
{
    reveal(row_covered);
}

/// Covering row `s` unlists exactly its columns.
proof fn lemma_rc_active(t0: DLXTable, t2: DLXTable, s: int)
    requires
        row_covered(t0, t2, s),
    ensures
        forall|g: int| #[trigger] t2.active().contains(g) == (t0.active().contains(g) && !in_row(t0, s, g)),
{
    reveal(row_covered);
}

/// The rows of a solution of the smaller table, and `s`, have a node in a
/// listed primary column of the table before.
#[verifier::spinoff_prover]
proof fn lemma_extend_live(t0: DLXTable, t2: DLXTable, p: int, s: int, rows: Set<int>)
    requires
        t0.wf_layout(),
        t2.wf_layout(),
        rows_active(t2),
        live_p(t0, p, s),
        row_covered(t0, t2, s),
        solution_rows(t2, p, rows),
    ensures
        forall|r: int| #[trigger] rows.insert(s).contains(r) ==> live_p(t0, p, r),
{
    reveal(solution_rows);
    reveal(row_covered);
    assert forall|r: int| #[trigger] rows.insert(s).contains(r) implies live_p(t0, p, r) by {
        if r != s {
            let z = choose|z: int|
                #[trigger] t2.col(t2.hdr(z)).contains(z) && t2.active().contains(t2.hdr(z)) && t2.hdr(z) <= p && t2.set_of(z) == r;
            assert(t2.nodes@[z].header == t0.nodes@[z].header && t2.nodes@[z].set == t0.nodes@[z].set);
            assert(t0.col(t0.hdr(z)).contains(z));
        }
    }
}

/// Each listed primary column of the table before is in `s` or in a row of
/// the solution of the smaller table.
#[verifier::spinoff_prover]
proof fn lemma_extend_cover(t0: DLXTable, t2: DLXTable, p: int, s: int, rows: Set<int>)
    requires
        t0.wf_layout(),
        t2.wf_layout(),
        rows_active(t2),
        live_p(t0, p, s),
        row_covered(t0, t2, s),
        solution_rows(t2, p, rows),
    ensures
        forall|g: int| #[trigger] t0.active().contains(g) && g <= p ==> exists|r: int|
            rows.insert(s).contains(r) && #[trigger] in_row(t0, r, g),
{
    reveal(solution_rows);
    reveal(row_covered);
    assert forall|g: int| #[trigger] t0.active().contains(g) && g <= p implies exists|r: int|
        rows.insert(s).contains(r) && #[trigger] in_row(t0, r, g) by {
        if !in_row(t0, s, g) {
            assert(t2.active().contains(g));
            let r = choose|r: int| rows.contains(r) && #[trigger] in_row(t2, r, g);
            lemma_live_p_index(t2, p, r);
            lemma_same_rows_in_row(t0, t2, r);
            assert(rows.insert(s).contains(r));
        } else {
            assert(rows.insert(s).contains(s));
        }
    }
}

/// A row of a solution of the smaller table shares no column with `s`: its
/// columns are all still listed there, and none of `s`'s is.
#[verifier::spinoff_prover]
proof fn lemma_extend_apart(t0: DLXTable, t2: DLXTable, p: int, s: int, rows: Set<int>)
    requires
        t0.wf_layout(),
        t2.wf_layout(),
        rows_active(t2),
        live_p(t0, p, s),
        row_covered(t0, t2, s),
        solution_rows(t2, p, rows),
    ensures
        forall|r: int, g: int| rows.contains(r) && #[trigger] in_row(t2, r, g) ==> !in_row(t0, s, g),
        !rows.contains(s),
{
    reveal(solution_rows);
    reveal(row_covered);
    assert forall|r: int, g: int| rows.contains(r) && #[trigger] in_row(t2, r, g) implies !in_row(t0, s, g) by {
        let z = choose|z: int|
            #[trigger] t2.col(t2.hdr(z)).contains(z) && t2.active().contains(t2.hdr(z)) && t2.hdr(z) <= p && t2.set_of(z) == r;
        lemma_live_p_index(t2, p, r);
        let x = choose|x: int| t2.head_of(r) <= x < t2.end_of(r) && #[trigger] t2.hdr(x) == g;
        t2.lemma_row_layout(r);
        assert(t2.col(t2.hdr(z)).contains(z));
        assert(t2.active().contains(g));
    }
    if rows.contains(s) {
        let z = choose|z: int|
            #[trigger] t2.col(t2.hdr(z)).contains(z) && t2.active().contains(t2.hdr(z)) && t2.hdr(z) <= p && t2.set_of(z) == s;
        lemma_node_in_row(t2, z);
        lemma_live_p_index(t0, p, s);
        lemma_same_rows_in_row(t0, t2, s);
        assert(in_row(t2, s, t2.hdr(z)));
    }
}

/// No two rows of a solution of the smaller table, with `s`, share a
/// column of the table before.
#[verifier::spinoff_prover]
proof fn lemma_extend_unique(t0: DLXTable, t2: DLXTable, p: int, s: int, rows: Set<int>)
    requires
        t0.wf_layout(),
        t2.wf_layout(),
        rows_active(t2),
        live_p(t0, p, s),
        row_covered(t0, t2, s),
        solution_rows(t2, p, rows),
    ensures
        forall|s1: int, s2: int, g: int|
            rows.insert(s).contains(s1) && rows.insert(s).contains(s2) && #[trigger] in_row(t0, s1, g)
                && #[trigger] in_row(t0, s2, g) ==> s1 == s2,
{
    lemma_extend_apart(t0, t2, p, s, rows);
    lemma_rc_same(t0, t2, s);
    assert forall|r: int| #[trigger] rows.contains(r) implies 0 <= r < t2.sets_count() by {
        reveal(solution_rows);
        lemma_live_p_index(t2, p, r);
    }
    assert forall|s1: int, s2: int, g: int|
        rows.insert(s).contains(s1) && rows.insert(s).contains(s2) && #[trigger] in_row(t0, s1, g)
            && #[trigger] in_row(t0, s2, g) implies s1 == s2 by {
        if s1 != s {
            lemma_same_rows_in_row(t0, t2, s1);
            assert(in_row(t2, s1, g));
        }
        if s2 != s {
            lemma_same_rows_in_row(t0, t2, s2);
            assert(in_row(t2, s2, g));
        }
        if s1 != s && s2 != s {
            lemma_unique_in(t2, p, rows, s1, s2, g);
        }
    }
}

/// Two rows of a solution that share a column are the same row.
proof fn lemma_unique_in(t: DLXTable, p: int, rows: Set<int>, s1: int, s2: int, g: int)
    requires
        solution_rows(t, p, rows),
        rows.contains(s1),
        rows.contains(s2),
        in_row(t, s1, g),
        in_row(t, s2, g),
    ensures
        s1 == s2,
{
    reveal(solution_rows);
}

/// Adding row `s` to a solution of the table left by covering `s` gives a
/// solution of the table before.
proof fn lemma_solution_extend(t0: DLXTable, t2: DLXTable, p: int, s: int, rows: Set<int>)
    requires
        t0.wf_layout(),
        t2.wf_layout(),
        rows_active(t2),
        live_p(t0, p, s),
        row_covered(t0, t2, s),
        solution_rows(t2, p, rows),
    ensures
        solution_rows(t0, p, rows.insert(s)),
        !rows.contains(s),
{
    lemma_extend_live(t0, t2, p, s, rows);
    lemma_extend_cover(t0, t2, p, s, rows);
    lemma_extend_apart(t0, t2, p, s, rows);
    lemma_extend_unique(t0, t2, p, s, rows);
    assert(rows.finite()) by {
        reveal(solution_rows);
    }
    reveal(solution_rows);
}

/// The rows of a solution other than `s` have a node in a listed primary
/// column of the table left by covering `s`.
#[verifier::spinoff_prover]
proof fn lemma_step_live(t0: DLXTable, t2: DLXTable, p: int, s: int, rows: Set<int>)
    requires
        t0.wf_layout(),
        solution_rows(t0, p, rows),
        rows.contains(s),
        row_covered(t0, t2, s),
    ensures
        forall|r: int| #[trigger] rows.remove(s).contains(r) ==> live_p(t2, p, r),
{
    reveal(solution_rows);
    reveal(row_covered);
    assert forall|r: int| #[trigger] rows.remove(s).contains(r) implies live_p(t2, p, r) by {
        let z = choose|z: int|
            #[trigger] t0.col(t0.hdr(z)).contains(z) && t0.active().contains(t0.hdr(z)) && t0.hdr(z) <= p && t0.set_of(z) == r;
        if conflict(t0, r, s) {
            let g = choose|g: int| #[trigger] in_row(t0, r, g) && in_row(t0, s, g);
            assert(false);
        }
        assert(t2.col(t0.hdr(z)).contains(z));
        lemma_node_in_row(t0, z);
        assert(t2.nodes@[z].header == t0.nodes@[z].header && t2.nodes@[z].set == t0.nodes@[z].set);
        assert(t2.active().contains(t0.hdr(z)));
    }
}

/// Each listed primary column of the smaller table is in a row of the
/// solution other than `s`.
#[verifier::spinoff_prover]
proof fn lemma_step_cover(t0: DLXTable, t2: DLXTable, p: int, s: int, rows: Set<int>)
    requires
        t0.wf_layout(),
        solution_rows(t0, p, rows),
        rows.contains(s),
        row_covered(t0, t2, s),
    ensures
        forall|g: int| #[trigger] t2.active().contains(g) && g <= p ==> exists|r: int|
            rows.remove(s).contains(r) && #[trigger] in_row(t2, r, g),
{
    lemma_rc_same(t0, t2, s);
    lemma_rc_active(t0, t2, s);
    assert forall|g: int| #[trigger] t2.active().contains(g) && g <= p implies exists|r: int|
        rows.remove(s).contains(r) && #[trigger] in_row(t2, r, g) by {
        reveal(solution_rows);
        assert(t0.active().contains(g));
        let r = choose|r: int| rows.contains(r) && #[trigger] in_row(t0, r, g);
        lemma_live_p_index(t0, p, r);
        lemma_same_rows_in_row(t0, t2, r);
        assert(!in_row(t0, s, g));
        assert(r != s);
        assert(rows.remove(s).contains(r));
        assert(in_row(t2, r, g));
    }
}

/// No two rows of the solution other than `s` share a column of the
/// smaller table.
#[verifier::spinoff_prover]
proof fn lemma_step_unique(t0: DLXTable, t2: DLXTable, p: int, s: int, rows: Set<int>)
    requires
        t0.wf_layout(),
        solution_rows(t0, p, rows),
        rows.contains(s),
        row_covered(t0, t2, s),
    ensures
        forall|s1: int, s2: int, g: int|
            rows.remove(s).contains(s1) && rows.remove(s).contains(s2) && #[trigger] in_row(t2, s1, g)
                && #[trigger] in_row(t2, s2, g) ==> s1 == s2,
{
    reveal(solution_rows);
    reveal(row_covered);
    assert forall|s1: int, s2: int, g: int|
        rows.remove(s).contains(s1) && rows.remove(s).contains(s2) && #[trigger] in_row(t2, s1, g)
            && #[trigger] in_row(t2, s2, g) implies s1 == s2 by {
        lemma_live_p_index(t0, p, s1);
        lemma_live_p_index(t0, p, s2);
        lemma_same_rows_in_row(t0, t2, s1);
        lemma_same_rows_in_row(t0, t2, s2);
    }
}

/// Taking row `s` out of a solution of a table leaves a solution of the
/// table left by covering `s`.
proof fn lemma_solution_step(t0: DLXTable, t2: DLXTable, p: int, s: int, rows: Set<int>)
    requires
        t0.wf_layout(),
        solution_rows(t0, p, rows),
        rows.contains(s),
        row_covered(t0, t2, s),
    ensures
        solution_rows(t2, p, rows.remove(s)),
{
    lemma_step_live(t0, t2, p, s, rows);
    lemma_step_cover(t0, t2, p, s, rows);
    lemma_step_unique(t0, t2, p, s, rows);
    assert(rows.finite()) by {
        reveal(solution_rows);
    }
    reveal(solution_rows);
}

/// A path of the smaller table with row `s` chosen first is a path of the
/// table before.
proof fn lemma_path_extend(t0: DLXTable, t2: DLXTable, p: int, s: usize, e: usize, sub: Seq<(usize, usize)>)
    requires
        t0.wf_layout(),
        t2.wf_layout(),
        rows_active(t2),
        live_p(t0, p, s as int),
        in_row(t0, s as int, e + 1),
        row_covered(t0, t2, s as int),
        solution_path(t2, p, sub),
    ensures
        solution_path(t0, p, seq![(s, e)] + sub),
{
    reveal(solution_path);
    let c = seq![(s, e)] + sub;
    lemma_path_rows_prepend(s, e, sub);
    lemma_solution_extend(t0, t2, p, s as int, path_rows(sub));
    assert(same_rows(t0, t2)) by {
        reveal(row_covered);
    }
    assert forall|i: int, j: int| 0 <= i < j < c.len() implies (#[trigger] c[i]).0 != (#[trigger] c[j]).0 by {
        assert(c[j] == sub[j - 1]);
        if i > 0 {
            assert(c[i] == sub[i - 1]);
        } else {
            assert(path_rows(sub).contains(sub[j - 1].0 as int));
        }
    }
    assert forall|i: int| 0 <= i < c.len() implies in_row(t0, (#[trigger] c[i]).0 as int, c[i].1 + 1) by {
        if i > 0 {
            assert(c[i] == sub[i - 1]);
            assert(in_row(t2, sub[i - 1].0 as int, sub[i - 1].1 + 1));
            assert(path_rows(sub).contains(sub[i - 1].0 as int));
            reveal(solution_rows);
            lemma_live_p_index(t2, p, sub[i - 1].0 as int);
            lemma_same_rows_in_row(t0, t2, sub[i - 1].0 as int);
        }
    }
}

/// The listed primary element (header at most `p`) whose column has the
/// fewest nodes, the first one among equals; `None` when no primary element
/// is listed.
#[verifier::spinoff_prover]
#[verifier::rlimit(30)]
pub(crate) fn choose_column(table: &DLXTable, elements: &Vec<usize>, p: usize) -> (c: Option<usize>)
    requires
        table.wf(),
        forall|k: int| 0 <= k < elements@.len() ==> (#[trigger] elements@[k]) < table.element_count,
        forall|x: usize| elements@.contains(x) <==> table.active().contains(x + 1),
    ensures
        c is None ==> forall|g: int| #[trigger] table.active().contains(g) ==> g > p,
        c matches Some(e) ==> e < p && table.active().contains(e + 1) && forall|k: int|
            0 <= k < elements@.len() && elements@[k] < p ==> table.col(e + 1).len() <= table.col(#[trigger] elements@[k] + 1).len(),
{
    let mut best: Option<usize> = None;
    let mut best_count: usize = 0;
    let mut k: usize = 0;
    while k < elements.len()
        invariant
            table.wf(),
            k <= elements@.len(),
            forall|j: int| 0 <= j < elements@.len() ==> (#[trigger] elements@[j]) < table.element_count,
            best is None ==> forall|j: int| 0 <= j < k ==> (#[trigger] elements@[j]) >= p,
            best matches Some(e) ==> e < p && elements@.contains(e) && best_count == table.col(e + 1).len()
                && forall|j: int| 0 <= j < k && elements@[j] < p ==> best_count <= table.col(#[trigger] elements@[j] + 1).len(),
        decreases elements@.len() - k,
    {
        let e = elements[k];
        if e < p {
            let count = table.element_sets_count(e);
            match best {
                None => {
                    best = Some(e);
                    best_count = count;
                    proof {
                        assert(elements@.contains(e));
                    }
                },
                Some(_) => {
                    if count < best_count {
                        best = Some(e);
                        best_count = count;
                        proof {
                            assert(elements@.contains(e));
                        }
                    }
                },
            }
        }
        k += 1;
    }
    proof {
        if best is None {
            assert forall|g: int| #[trigger] table.active().contains(g) implies g > p by {
                assert(1 <= g <= table.ec());
                let x = (g - 1) as usize;
                assert(elements@.contains(x));
                let j = choose|j: int| 0 <= j < elements@.len() && elements@[j] == x;
            }
        }
    }
    best
}

/// The row through listed primary column `h` of a solution has a node in
/// that column.
proof fn lemma_row_through(t0: DLXTable, p: int, h: int, rows: Set<int>) -> (s: int)
    requires
        ready(t0),
        t0.active().contains(h),
        h <= p,
        solution_rows(t0, p, rows),
    ensures
        0 <= s < t0.sets_count(),
        s < usize::MAX,
        rows.contains(s),
        in_row(t0, s, h),
        t0.col_sets(h).contains(s),
{
    reveal(solution_rows);
    reveal(ready);
    let s = choose|s: int| rows.contains(s) && #[trigger] in_row(t0, s, h);
    lemma_live_p_index(t0, p, s);
    let z = choose|z: int|
        #[trigger] t0.col(t0.hdr(z)).contains(z) && t0.active().contains(t0.hdr(z)) && t0.hdr(z) <= p && t0.set_of(z) == s;
    let x = choose|x: int| t0.head_of(s) <= x < t0.end_of(s) && #[trigger] t0.hdr(x) == h;
    t0.lemma_row_layout(s);
    assert(t0.col(t0.hdr(z)).contains(z));
    assert(t0.col(h).contains(x));
    reveal(DLXTable::col_sets);
    assert(t0.col_sets(h).contains(s));
    lemma_head_below(t0, s);
    s
}

/// Row `s` starts after `s` nodes, so `s` is below the number of nodes.
proof fn lemma_head_below(t: DLXTable, s: int)
    requires
        t.wf_layout(),
        0 <= s < t.sets_count(),
    ensures
        s < t.head_of(s),
    decreases s,
{
    if s > 0 {
        lemma_head_below(t, s - 1);
        assert(t.head_of(s - 1) < t.head_of(s));
    }
}

/// With no listed primary column, the empty choice is the one solution.
proof fn lemma_no_primary(t0: DLXTable, p: int, r: Seq<Vec<(usize, usize)>>)
    requires
        forall|g: int| #[trigger] t0.active().contains(g) ==> g > p,
        r.len() == 1,
        r[0]@.len() == 0,
    ensures
        solution_path(t0, p, r[0]@),
        forall|rows: Set<int>| #[trigger] solution_rows(t0, p, rows) ==> found_rows(r, rows),
{
    reveal(solution_path);
    reveal(solution_rows);
    reveal(found_rows);
    assert(path_rows(r[0]@) =~= Set::<int>::empty());
    assert forall|rows: Set<int>| #[trigger] solution_rows(t0, p, rows) implies found_rows(r, rows) by {
        assert forall|s: int| !#[trigger] rows.contains(s) by {
            if rows.contains(s) {
                assert(live_p(t0, p, s));
            }
        }
        assert(rows =~= Set::<int>::empty());
    }
}

/// Adds to `paths` each path of `subs` with row `s`, chosen through element
/// `e`, put first.
#[verifier::spinoff_prover]
#[verifier::rlimit(40)]
fn add_row_paths(
    paths: &mut Vec<Vec<(usize, usize)>>,
    subs: Vec<Vec<(usize, usize)>>,
    s: usize,
    e: usize,
    Ghost(t0): Ghost<DLXTable>,
    Ghost(t2): Ghost<DLXTable>,
    Ghost(p): Ghost<int>,
)
    requires
        t0.wf_layout(),
        t2.wf_layout(),
        rows_active(t2),
        live_p(t0, p, s as int),
        in_row(t0, s as int, e + 1),
        row_covered(t0, t2, s as int),
        forall|c: int| 0 <= c < subs@.len() ==> solution_path(t2, p, #[trigger] subs@[c]@),
        forall|c: int| 0 <= c < old(paths)@.len() ==> solution_path(t0, p, #[trigger] old(paths)@[c]@),
    ensures
        forall|c: int| 0 <= c < final(paths)@.len() ==> solution_path(t0, p, #[trigger] final(paths)@[c]@),
        forall|rows: Set<int>| #[trigger] found_rows(old(paths)@, rows) ==> found_rows(final(paths)@, rows),
        forall|rows: Set<int>| #[trigger] found_rows(subs@, rows) ==> found_rows(final(paths)@, rows.insert(s as int)),
        final(paths)@.len() == old(paths)@.len() + subs@.len(),
        forall|c: int| 0 <= c < old(paths)@.len() ==> #[trigger] final(paths)@[c] == old(paths)@[c],
        forall|c: int|
            0 <= c < subs@.len() ==> path_rows(#[trigger] final(paths)@[old(paths)@.len() + c]@) == path_rows(subs@[c]@).insert(
                s as int,
            ) && !path_rows(subs@[c]@).contains(s as int),
{
    let ghost subs0 = subs@;
    let ghost p0 = paths@;
    let mut subs = subs;
    let ghost mut used: int = 0;
    while subs.len() > 0
        invariant
            t0.wf_layout(),
            t2.wf_layout(),
            rows_active(t2),
            live_p(t0, p, s as int),
            in_row(t0, s as int, e + 1),
            row_covered(t0, t2, s as int),
            0 <= used <= subs0.len(),
            subs@ == subs0.subrange(used, subs0.len() as int),
            forall|c: int| 0 <= c < subs0.len() ==> solution_path(t2, p, #[trigger] subs0[c]@),
            forall|c: int| 0 <= c < paths@.len() ==> solution_path(t0, p, #[trigger] paths@[c]@),
            forall|rows: Set<int>| #[trigger] found_rows(p0, rows) ==> found_rows(paths@, rows),
            forall|j: int| 0 <= j < used ==> #[trigger] found_rows(paths@, path_rows(subs0[j]@).insert(s as int)),
            paths@.len() == p0.len() + used,
            forall|c: int| 0 <= c < p0.len() ==> #[trigger] paths@[c] == p0[c],
            forall|c: int|
                0 <= c < used ==> path_rows(#[trigger] paths@[p0.len() + c]@) == path_rows(subs0[c]@).insert(s as int)
                    && !path_rows(subs0[c]@).contains(s as int),
        decreases subs@.len(),
    {
        let mut sub = subs.remove(0);
        proof {
            assert(subs@ =~= subs0.subrange(used + 1, subs0.len() as int));
            assert(sub == subs0[used]);
        }
        let ghost sv = sub@;
        let mut path: Vec<(usize, usize)> = Vec::new();
        path.push((s, e));
        path.append(&mut sub);
        proof {
            assert(path@ =~= seq![(s, e)] + sv);
            lemma_path_extend(t0, t2, p, s, e, sv);
            lemma_path_rows_prepend(s, e, sv);
            assert(!path_rows(sv).contains(s as int)) by {
                reveal(solution_path);
                let pv = seq![(s, e)] + sv;
                if path_rows(sv).contains(s as int) {
                    let i = choose|i: int| 0 <= i < sv.len() && sv[i].0 as int == s as int;
                    assert(pv[0].0 != pv[i + 1].0);
                }
            }
        }
        let ghost before = paths@;
        paths.push(path);
        proof {
            assert(paths@[before.len() as int] == path);
            assert forall|c: int| 0 <= c < paths@.len() implies solution_path(t0, p, #[trigger] paths@[c]@) by {
                if c < before.len() {
                    assert(paths@[c] == before[c]);
                }
            }
            assert forall|rows: Set<int>| #[trigger] found_rows(before, rows) implies found_rows(paths@, rows) by {
                reveal(found_rows);
                let c = choose|c: int| 0 <= c < before.len() && #[trigger] path_rows(before[c]@) == rows;
                assert(paths@[c] == before[c]);
            }
            assert forall|j: int| 0 <= j < used + 1 implies #[trigger] found_rows(paths@, path_rows(subs0[j]@).insert(s as int)) by {
                if j < used {
                    assert(found_rows(before, path_rows(subs0[j]@).insert(s as int)));
                } else {
                    reveal(found_rows);
                    assert(path_rows(paths@[before.len() as int]@) == path_rows(subs0[j]@).insert(s as int));
                }
            }
            assert forall|c: int| 0 <= c < p0.len() implies #[trigger] paths@[c] == p0[c] by {
                assert(paths@[c] == before[c]);
            }
            assert forall|c: int| 0 <= c < used + 1 implies path_rows(#[trigger] paths@[p0.len() + c]@) == path_rows(
                subs0[c]@,
            ).insert(s as int) && !path_rows(subs0[c]@).contains(s as int) by {
                if c < used {
                    assert(paths@[p0.len() + c] == before[p0.len() + c]);
                }
            }
            used = used + 1;
        }
    }
    proof {
        assert forall|rows: Set<int>| #[trigger] found_rows(subs0, rows) implies found_rows(paths@, rows.insert(s as int)) by {
            reveal(found_rows);
            let c = choose|c: int| 0 <= c < subs0.len() && #[trigger] path_rows(subs0[c]@) == rows;
            assert(found_rows(paths@, path_rows(subs0[c]@).insert(s as int)));
        }
    }
}

/// The paths of a branch on row `sets[k]` of column `h`, added after those
/// of the rows before it, keep all paths apart.
proof fn lemma_branch_distinct(
    t0: DLXTable,
    p: int,
    h: int,
    sets: Seq<usize>,
    k: int,
    bp: Seq<Vec<(usize, usize)>>,
    subs0: Seq<Vec<(usize, usize)>>,
    paths: Seq<Vec<(usize, usize)>>,
    tags: Seq<int>,
) -> (t2: Seq<int>)
    requires
        strictly_increasing(sets),
        0 <= k < sets.len(),
        in_row(t0, sets[k] as int, h),
        distinct_paths(bp),
        distinct_paths(subs0),
        tags.len() == bp.len(),
        forall|c: int|
            0 <= c < bp.len() ==> 0 <= #[trigger] tags[c] < k && path_rows(bp[c]@).contains(sets[tags[c]] as int)
                && in_row(t0, sets[tags[c]] as int, h),
        paths.len() == bp.len() + subs0.len(),
        forall|c: int| 0 <= c < bp.len() ==> #[trigger] paths[c] == bp[c],
        forall|c: int|
            0 <= c < subs0.len() ==> path_rows(#[trigger] paths[bp.len() + c]@) == path_rows(subs0[c]@).insert(
                sets[k] as int,
            ) && !path_rows(subs0[c]@).contains(sets[k] as int),
        forall|c: int| 0 <= c < paths.len() ==> solution_path(t0, p, #[trigger] paths[c]@),
    ensures
        distinct_paths(paths),
        t2.len() == paths.len(),
        forall|c: int|
            0 <= c < paths.len() ==> 0 <= #[trigger] t2[c] < k + 1 && path_rows(paths[c]@).contains(sets[t2[c]] as int)
                && in_row(t0, sets[t2[c]] as int, h),
{
    let s = sets[k] as int;
    let t2 = tags + Seq::new(subs0.len(), |i: int| k);
    assert forall|c: int| 0 <= c < paths.len() implies 0 <= #[trigger] t2[c] < k + 1 && path_rows(paths[c]@).contains(
        sets[t2[c]] as int,
    ) && in_row(t0, sets[t2[c]] as int, h) by {
        if c < bp.len() {
            assert(paths[c] == bp[c]);
            assert(t2[c] == tags[c]);
        } else {
            assert(t2[c] == k);
            let i = c - bp.len();
            assert(path_rows(paths[bp.len() + i]@) == path_rows(subs0[i]@).insert(s));
        }
    }
    assert forall|c1: int, c2: int| 0 <= c1 < c2 < paths.len() implies path_rows(#[trigger] paths[c1]@) != path_rows(
        #[trigger] paths[c2]@,
    ) by {
        if c2 < bp.len() {
            assert(paths[c1] == bp[c1]);
            assert(paths[c2] == bp[c2]);
        } else if c1 < bp.len() {
            assert(paths[c1] == bp[c1]);
            let j = tags[c1];
            let i2 = c2 - bp.len();
            assert(path_rows(paths[bp.len() + i2]@) == path_rows(subs0[i2]@).insert(s));
            if path_rows(paths[c1]@) == path_rows(paths[c2]@) {
                let rows = path_rows(paths[c2]@);
                assert(solution_path(t0, p, paths[c2]@));
                reveal(solution_path);
                reveal(solution_rows);
                assert(rows.contains(s));
                assert(rows.contains(sets[j] as int));
                assert(sets[j] as int == s);
                assert(sets[j] < sets[k]);
            }
        } else {
            let i1 = c1 - bp.len();
            let i2 = c2 - bp.len();
            assert(path_rows(paths[bp.len() + i1]@) == path_rows(subs0[i1]@).insert(s));
            assert(path_rows(paths[bp.len() + i2]@) == path_rows(subs0[i2]@).insert(s));
            assert(path_rows(subs0[i1]@) != path_rows(subs0[i2]@));
            lemma_insert_apart(path_rows(subs0[i1]@), path_rows(subs0[i2]@), s);
        }
    }
    t2
}

/// Every solution of the table, as the rows it chooses, each with the
/// element of the column it was chosen through, in the order of the search:
/// with no listed primary column the empty choice is the one solution;
/// otherwise the listed primary column with the fewest nodes is covered and
/// each of its rows is tried in turn, from top to bottom.  The table is
/// given back as it was.
#[verifier::spinoff_prover]
#[verifier::rlimit(40)]
pub fn search(table: &mut DLXTable, p: usize) -> (r: Vec<Vec<(usize, usize)>>)
    requires
        ready(*old(table)),
        rows_active(*old(table)),
    ensures
        final(table).same(*old(table)),
        forall|c: int| 0 <= c < r@.len() ==> solution_path(*old(table), p as int, #[trigger] r@[c]@),
        forall|rows: Set<int>| #[trigger] solution_rows(*old(table), p as int, rows) ==> found_rows(r@, rows),
        distinct_paths(r@),
        (forall|g: int| #[trigger] old(table).active().contains(g) ==> g > p) ==> r@.len() == 1 && r@[0]@.len() == 0,
    decreases old(table).active().len(),
{
    let ghost t0 = *table;
    assert(table.wf() && table.full_rows()) by {
        reveal(ready);
    }
    let elements = table.elements();
    proof {
        lemma_active_finite(t0);
        assert forall|k: int| 0 <= k < elements@.len() implies (#[trigger] elements@[k]) < table.element_count by {
            assert(elements@.contains(elements@[k]));
        }
    }
    let elem = match choose_column(table, &elements, p) {
        None => {
            let mut r: Vec<Vec<(usize, usize)>> = Vec::new();
            r.push(Vec::new());
            proof {
                lemma_no_primary(t0, p as int, r@);
            }
            return r;
        },
        Some(elem) => elem,
    };
    let ghost h = elem + 1;
    table.cover_element(elem);
    let ghost t1 = *table;
    proof {
        lemma_rows_active_cover(t0, t1, h);
        lemma_active_finite(t1);
        lemma_cover_step(t0, t1, h);
    }
    assert(ready(t1)) by {
        reveal(ready);
    }
    let sets = table.element_sets(elem);
    let mut paths: Vec<Vec<(usize, usize)>> = Vec::new();
    let ghost mut tags: Seq<int> = Seq::empty();
    let mut k: usize = 0;
    while k < sets.len()
        invariant
            table.same(t1),
            ready(t1),
            rows_active(t1),
            rows_active(t0),
            ready(t0),
            t0 == *old(table),
            uncover_pre(t0, t1, h),
            h == elem + 1,
            h <= p,
            t1.active() == t0.active().remove(h),
            t0.active().contains(h),
            t0.active().finite(),
            t1.ec() == t0.ec(),
            same_layout(t0, t1),
            t0.col_sets(h) == t1.col_sets(h),
            forall|g: int| #[trigger] t1.col(g) == t0.col(g).difference(t0.cover_set(h)),
            forall|x: usize| sets@.contains(x) <==> elem < t1.element_count && t1.col_sets(h).contains(x as int),
            forall|c: int| 0 <= c < paths@.len() ==> solution_path(t0, p as int, #[trigger] paths@[c]@),
            forall|rows: Set<int>, j: int|
                #![trigger found_rows(paths@, rows), sets@[j]]
                0 <= j < k && solution_rows(t0, p as int, rows) && rows.contains(sets@[j] as int)
                    && in_row(t0, sets@[j] as int, h) ==> found_rows(paths@, rows),
            strictly_increasing(sets@),
            k <= sets@.len(),
            distinct_paths(paths@),
            tags.len() == paths@.len(),
            forall|c: int|
                0 <= c < paths@.len() ==> 0 <= #[trigger] tags[c] < k && path_rows(paths@[c]@).contains(sets@[tags[c]] as int)
                    && in_row(t0, sets@[tags[c]] as int, h),
        decreases sets@.len() - k,
    {
        let set_index = sets[k];
        let ghost s = set_index as int;
        proof {
            assert(sets@.contains(set_index));
            assert(t1.wf_layout()) by {
                reveal(ready);
            }
            lemma_col_sets_bound(t1, h);
            lemma_ready_same(t1, *table);
            lemma_rows_active_same(t1, *table);
            lemma_same_active(t1, *table);
            lemma_cover_row_ready(t0, t1, *table, h, set_index as int);
        }
        let ghost before = *table;
        table.cover_row(elem, set_index);
        let ghost t2 = *table;
        proof {
            let ts = choose|ts: Seq<DLXTable>| #[trigger] row_cover_chain(ts, set_index as int, elem + 1) && ts[0] == before
                && ts.last() == t2;
            let m = ts[0].end_of(set_index as int) - ts[0].head_of(set_index as int);
            lemma_rows_active_same(t1, before);
            lemma_rows_active_chain(ts, set_index as int, h, m, m);
            lemma_chain_at(ts, set_index as int, h, m, m);
            lemma_same_active(t1, before);
            lemma_active_finite(t2);
            assert(t2.active().subset_of(t1.active()));
            vstd::set_lib::lemma_len_subset(t2.active(), t1.active());
            assert(t1.active().len() == t0.active().len() - 1);
            assert(t2.active().len() < t0.active().len());
            lemma_row_step(t0, t1, before, t2, h, s);
            assert(t0.wf_layout()) by {
                reveal(ready);
            }
            reveal(DLXTable::col_sets);
            let y = choose|y: int| #[trigger] t0.col(h).contains(y) && t0.set_of(y) == s;
            assert(t0.col(t0.hdr(y)).contains(y));
            assert(live_p(t0, p as int, s));
        }
        let subs = search(table, p);
        let ghost subs0 = subs@;
        let ghost bp = paths@;
        proof {
            assert(t2.wf_layout()) by {
                reveal(ready);
            }
            assert(in_row(t0, s, h));
        }
        add_row_paths(&mut paths, subs, set_index, elem, Ghost(t0), Ghost(t2), Ghost(p as int));
        proof {
            tags = lemma_branch_distinct(t0, p as int, h, sets@, k as int, bp, subs0, paths@, tags);
            assert forall|rows: Set<int>, j: int|
                #![trigger found_rows(paths@, rows), sets@[j]]
                0 <= j < k + 1 && solution_rows(t0, p as int, rows) && rows.contains(sets@[j] as int)
                    && in_row(t0, sets@[j] as int, h) implies found_rows(paths@, rows) by {
                if j < k {
                    assert(found_rows(bp, rows));
                } else {
                    assert(t0.wf_layout()) by {
                        reveal(ready);
                    }
                    lemma_solution_step(t0, t2, p as int, s, rows);
                    assert(found_rows(subs0, rows.remove(s)));
                    assert(rows.remove(s).insert(s) =~= rows);
                }
            }
        }
        table.uncover_row(elem, set_index);
        k += 1;
    }
    proof {
        lemma_uncover_pre_same(t0, t1, *table, h);
    }
    table.uncover_element(elem);
    proof {
        assert forall|rows: Set<int>| #[trigger] solution_rows(t0, p as int, rows) implies found_rows(paths@, rows) by {
            let s = lemma_row_through(t0, p as int, h, rows);
            let x = s as usize;
            assert(sets@.contains(x));
            let j = choose|j: int| 0 <= j < sets@.len() && sets@[j] == x;
            assert(sets@[j] as int == s);
        }
    }
    paths
}

/// The solutions of the table that choose one of `cands`, rows of the
/// column of `elem`, a listed primary column, through that column: the
/// column is covered and each of the rows tried in turn, as `search` tries
/// all of them; each solution starts with its row.  The table is given
/// back as it was.  Run on parts of the rows of the column, the searches
/// together find what `search` finds.
#[verifier::spinoff_prover]
#[verifier::rlimit(40)]
pub fn search_rows(table: &mut DLXTable, p: usize, elem: usize, cands: &Vec<usize>) -> (r: Vec<Vec<(usize, usize)>>)
    requires
        ready(*old(table)),
        rows_active(*old(table)),
        elem < p,
        old(table).active().contains(elem + 1),
        forall|j: int| 0 <= j < cands@.len() ==> old(table).col_sets(elem + 1).contains(#[trigger] cands@[j] as int),
        forall|i: int, j: int| 0 <= i < j < cands@.len() ==> cands@[i] < cands@[j],
    ensures
        final(table).same(*old(table)),
        forall|c: int| 0 <= c < r@.len() ==> solution_path(*old(table), p as int, #[trigger] r@[c]@),
        forall|rs: Set<int>, j: int|
            #![trigger solution_rows(*old(table), p as int, rs), cands@[j]]
            0 <= j < cands@.len() && solution_rows(*old(table), p as int, rs) && rs.contains(cands@[j] as int) ==> found_rows(r@, rs),
        distinct_paths(r@),
{
    let ghost t0 = *table;
    assert(table.wf() && table.full_rows()) by {
        reveal(ready);
    }
    proof {
        lemma_active_finite(t0);
    }
    let ghost h = elem + 1;
    table.cover_element(elem);
    let ghost t1 = *table;
    proof {
        lemma_rows_active_cover(t0, t1, h);
        lemma_active_finite(t1);
        lemma_cover_step(t0, t1, h);
    }
    assert(ready(t1)) by {
        reveal(ready);
    }
    let mut paths: Vec<Vec<(usize, usize)>> = Vec::new();
    let ghost mut tags: Seq<int> = Seq::empty();
    let mut k: usize = 0;
    while k < cands.len()
        invariant
            table.same(t1),
            ready(t1),
            rows_active(t1),
            rows_active(t0),
            ready(t0),
            t0 == *old(table),
            uncover_pre(t0, t1, h),
            h == elem + 1,
            h <= p,
            t1.active() == t0.active().remove(h),
            t0.active().contains(h),
            t0.active().finite(),
            t1.ec() == t0.ec(),
            same_layout(t0, t1),
            t0.col_sets(h) == t1.col_sets(h),
            forall|g: int| #[trigger] t1.col(g) == t0.col(g).difference(t0.cover_set(h)),
            forall|j: int| 0 <= j < cands@.len() ==> t0.col_sets(h).contains(#[trigger] cands@[j] as int),
            elem < t1.element_count,
            forall|c: int| 0 <= c < paths@.len() ==> solution_path(t0, p as int, #[trigger] paths@[c]@),
            forall|rows: Set<int>, j: int|
                #![trigger found_rows(paths@, rows), cands@[j]]
                0 <= j < k && solution_rows(t0, p as int, rows) && rows.contains(cands@[j] as int)
                    && in_row(t0, cands@[j] as int, h) ==> found_rows(paths@, rows),
            strictly_increasing(cands@),
            k <= cands@.len(),
            distinct_paths(paths@),
            tags.len() == paths@.len(),
            forall|c: int|
                0 <= c < paths@.len() ==> 0 <= #[trigger] tags[c] < k && path_rows(paths@[c]@).contains(cands@[tags[c]] as int)
                    && in_row(t0, cands@[tags[c]] as int, h),
        decreases cands@.len() - k,
    {
        let set_index = cands[k];
        let ghost s = set_index as int;
        proof {
            assert(t0.col_sets(h).contains(cands@[k as int] as int));
            assert(t1.wf_layout()) by {
                reveal(ready);
            }
            lemma_col_sets_bound(t1, h);
            lemma_ready_same(t1, *table);
            lemma_rows_active_same(t1, *table);
            lemma_same_active(t1, *table);
            lemma_cover_row_ready(t0, t1, *table, h, set_index as int);
        }
        let ghost before = *table;
        table.cover_row(elem, set_index);
        let ghost t2 = *table;
        proof {
            let ts = choose|ts: Seq<DLXTable>| #[trigger] row_cover_chain(ts, set_index as int, elem + 1) && ts[0] == before
                && ts.last() == t2;
            let m = ts[0].end_of(set_index as int) - ts[0].head_of(set_index as int);
            lemma_rows_active_same(t1, before);
            lemma_rows_active_chain(ts, set_index as int, h, m, m);
            lemma_chain_at(ts, set_index as int, h, m, m);
            lemma_same_active(t1, before);
            lemma_active_finite(t2);
            assert(t2.active().subset_of(t1.active()));
            vstd::set_lib::lemma_len_subset(t2.active(), t1.active());
            assert(t1.active().len() == t0.active().len() - 1);
            assert(t2.active().len() < t0.active().len());
            lemma_row_step(t0, t1, before, t2, h, s);
            assert(t0.wf_layout()) by {
                reveal(ready);
            }
            reveal(DLXTable::col_sets);
            let y = choose|y: int| #[trigger] t0.col(h).contains(y) && t0.set_of(y) == s;
            assert(t0.col(t0.hdr(y)).contains(y));
            assert(live_p(t0, p as int, s));
        }
        let subs = search(table, p);
        let ghost subs0 = subs@;
        let ghost bp = paths@;
        proof {
            assert(t2.wf_layout()) by {
                reveal(ready);
            }
            assert(in_row(t0, s, h));
        }
        add_row_paths(&mut paths, subs, set_index, elem, Ghost(t0), Ghost(t2), Ghost(p as int));
        proof {
            tags = lemma_branch_distinct(t0, p as int, h, cands@, k as int, bp, subs0, paths@, tags);
            assert forall|rows: Set<int>, j: int|
                #![trigger found_rows(paths@, rows), cands@[j]]
                0 <= j < k + 1 && solution_rows(t0, p as int, rows) && rows.contains(cands@[j] as int)
                    && in_row(t0, cands@[j] as int, h) implies found_rows(paths@, rows) by {
                if j < k {
                    assert(found_rows(bp, rows));
                } else {
                    assert(t0.wf_layout()) by {
                        reveal(ready);
                    }
                    lemma_solution_step(t0, t2, p as int, s, rows);
                    assert(found_rows(subs0, rows.remove(s)));
                    assert(rows.remove(s).insert(s) =~= rows);
                }
            }
        }
        table.uncover_row(elem, set_index);
        k += 1;
    }
    proof {
        lemma_uncover_pre_same(t0, t1, *table, h);
    }
    table.uncover_element(elem);
    proof {
        assert forall|rs: Set<int>, j: int|
            #![trigger solution_rows(t0, p as int, rs), cands@[j]]
            0 <= j < cands@.len() && solution_rows(t0, p as int, rs) && rs.contains(cands@[j] as int) implies found_rows(paths@, rs) by {
            assert(t0.wf_layout()) by {
                reveal(ready);
            }
            reveal(DLXTable::col_sets);
            let y = choose|y: int| #[trigger] t0.col(h).contains(y) && t0.set_of(y) == cands@[j] as int;
            assert(t0.col(t0.hdr(y)).contains(y));
            lemma_node_in_row(t0, y);
        }
    }
    paths
}

/// The first solution of the table in the order of `search`, as the rows it
/// chooses, each with the element of the column it was chosen through; the
/// search stops there and leaves the table as it is.  `None` when the table
/// has no solution; the table is then given back as it was.
#[verifier::spinoff_prover]
#[verifier::rlimit(40)]
pub fn search_first(table: &mut DLXTable, p: usize) -> (r: Option<Vec<(usize, usize)>>)
    requires
        ready(*old(table)),
        rows_active(*old(table)),
    ensures
        r matches Some(c) ==> solution_path(*old(table), p as int, c@),
        r is None ==> final(table).same(*old(table)),
        r is None ==> forall|rows: Set<int>| !#[trigger] solution_rows(*old(table), p as int, rows),
    decreases old(table).active().len(),
{
    let ghost t0 = *table;
    assert(table.wf() && table.full_rows()) by {
        reveal(ready);
    }
    let elements = table.elements();
    proof {
        lemma_active_finite(t0);
        assert forall|k: int| 0 <= k < elements@.len() implies (#[trigger] elements@[k]) < table.element_count by {
            assert(elements@.contains(elements@[k]));
        }
    }
    let elem = match choose_column(table, &elements, p) {
        None => {
            let r: Vec<(usize, usize)> = Vec::new();
            proof {
                let one = seq![r];
                lemma_no_primary(t0, p as int, one);
                assert(one[0]@ == r@);
            }
            return Some(r);
        },
        Some(elem) => elem,
    };
    let ghost h = elem + 1;
    table.cover_element(elem);
    let ghost t1 = *table;
    proof {
        lemma_rows_active_cover(t0, t1, h);
        lemma_active_finite(t1);
        lemma_cover_step(t0, t1, h);
    }
    assert(ready(t1)) by {
        reveal(ready);
    }
    let sets = table.element_sets(elem);
    let mut k: usize = 0;
    while k < sets.len()
        invariant
            table.same(t1),
            ready(t1),
            rows_active(t1),
            rows_active(t0),
            ready(t0),
            t0 == *old(table),
            uncover_pre(t0, t1, h),
            h == elem + 1,
            h <= p,
            t1.active() == t0.active().remove(h),
            t0.active().contains(h),
            t0.active().finite(),
            t1.ec() == t0.ec(),
            same_layout(t0, t1),
            t0.col_sets(h) == t1.col_sets(h),
            forall|g: int| #[trigger] t1.col(g) == t0.col(g).difference(t0.cover_set(h)),
            forall|x: usize| sets@.contains(x) <==> elem < t1.element_count && t1.col_sets(h).contains(x as int),
            forall|rows: Set<int>, j: int|
                #![trigger solution_rows(t0, p as int, rows), sets@[j]]
                0 <= j < k && solution_rows(t0, p as int, rows) && rows.contains(sets@[j] as int) ==> !in_row(
                    t0,
                    sets@[j] as int,
                    h,
                ),
        decreases sets@.len() - k,
    {
        let set_index = sets[k];
        let ghost s = set_index as int;
        proof {
            assert(sets@.contains(set_index));
            assert(t1.wf_layout()) by {
                reveal(ready);
            }
            lemma_col_sets_bound(t1, h);
            lemma_ready_same(t1, *table);
            lemma_rows_active_same(t1, *table);
            lemma_same_active(t1, *table);
            lemma_cover_row_ready(t0, t1, *table, h, set_index as int);
        }
        let ghost before = *table;
        table.cover_row(elem, set_index);
        let ghost t2 = *table;
        proof {
            let ts = choose|ts: Seq<DLXTable>| #[trigger] row_cover_chain(ts, set_index as int, elem + 1) && ts[0] == before
                && ts.last() == t2;
            let m = ts[0].end_of(set_index as int) - ts[0].head_of(set_index as int);
            lemma_rows_active_same(t1, before);
            lemma_rows_active_chain(ts, set_index as int, h, m, m);
            lemma_chain_at(ts, set_index as int, h, m, m);
            lemma_same_active(t1, before);
            lemma_active_finite(t2);
            assert(t2.active().subset_of(t1.active()));
            vstd::set_lib::lemma_len_subset(t2.active(), t1.active());
            assert(t1.active().len() == t0.active().len() - 1);
            assert(t2.active().len() < t0.active().len());
            lemma_row_step(t0, t1, before, t2, h, s);
            assert(t0.wf_layout()) by {
                reveal(ready);
            }
            reveal(DLXTable::col_sets);
            let y = choose|y: int| #[trigger] t0.col(h).contains(y) && t0.set_of(y) == s;
            assert(t0.col(t0.hdr(y)).contains(y));
            assert(live_p(t0, p as int, s));
            assert(t2.wf_layout()) by {
                reveal(ready);
            }
        }
        match search_first(table, p) {
            Some(sub) => {
                let ghost sv = sub@;
                let mut sub = sub;
                let mut path: Vec<(usize, usize)> = Vec::new();
                path.push((set_index, elem));
                path.append(&mut sub);
                proof {
                    assert(path@ =~= seq![(set_index, elem)] + sv);
                    lemma_path_extend(t0, t2, p as int, set_index, elem, sv);
                }
                return Some(path);
            },
            None => {},
        }
        proof {
            assert forall|rows: Set<int>, j: int|
                #![trigger solution_rows(t0, p as int, rows), sets@[j]]
                0 <= j < k + 1 && solution_rows(t0, p as int, rows) && rows.contains(sets@[j] as int) implies !in_row(
                    t0,
                    sets@[j] as int,
                    h,
                ) by {
                if j == k && in_row(t0, s, h) {
                    assert(t0.wf_layout()) by {
                        reveal(ready);
                    }
                    lemma_solution_step(t0, t2, p as int, s, rows);
                }
            }
        }
        table.uncover_row(elem, set_index);
        k += 1;
    }
    proof {
        lemma_uncover_pre_same(t0, t1, *table, h);
    }
    table.uncover_element(elem);
    proof {
        assert forall|rows: Set<int>| !#[trigger] solution_rows(t0, p as int, rows) by {
            if solution_rows(t0, p as int, rows) {
                let s = lemma_row_through(t0, p as int, h, rows);
                let x = s as usize;
                assert(sets@.contains(x));
                let j = choose|j: int| 0 <= j < sets@.len() && sets@[j] == x;
                assert(sets@[j] as int == s);
            }
        }
    }
    None
}

} // verus!
