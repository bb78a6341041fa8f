//! All exact covers of sets of named elements, by dancing links on the
//! table of `dlx_table`.
use vstd::prelude::*;
use crate::dlx_table::{
    DLXTable, ready, row_cover_chain, row_has_col, uncover_pre, same_layout, lemma_ready_same,
    lemma_uncover_pre_same, lemma_chain_at, lemma_taken_all, lemma_cover_facts, lemma_removed_vertical,
    lemma_removed_horizontal, view_sets, row_chain_upto, same_rows, row_cover_step, lemma_col_sets_bound,
    nonempty, total_len, universe_size, lemma_total_len_nonneg,
};
use crate::sorting::{sorted, lemma_count_two, lemma_two_places};
use crate::naming::{
    element_names, index_sets, total_names, distinct_names, has_name, has_name_s, name_in, same_names, names_a_set, names_cover, exact_sets, lists_sets, indexed, named,
    named_cover, names_of,
};

verus! {

// ---------------------------------------------------------------------
// Orders on sets and covers
// ---------------------------------------------------------------------

/// The order of `cmp_index_sets`: by first element, an empty set first.
pub open spec fn first_lt(a: Seq<usize>, b: Seq<usize>) -> bool {
    if a.len() == 0 {
        b.len() > 0
    } else {
        b.len() > 0 && a[0] < b[0]
    }
}

/// The lexicographic order of index sets.
pub open spec fn seq_lt(a: Seq<usize>, b: Seq<usize>) -> bool
    decreases a.len(),
{
    if a.len() == 0 {
        b.len() > 0
    } else if b.len() == 0 {
        false
    } else if a[0] != b[0] {
        a[0] < b[0]
    } else {
        seq_lt(a.drop_first(), b.drop_first())
    }
}

/// The lexicographic order of covers, each set ordered by `seq_lt`.
pub open spec fn cover_lt(a: Seq<Seq<usize>>, b: Seq<Seq<usize>>) -> bool
    decreases a.len(),
{
    if a.len() == 0 {
        b.len() > 0
    } else if b.len() == 0 {
        false
    } else if a[0] != b[0] {
        seq_lt(a[0], b[0])
    } else {
        cover_lt(a.drop_first(), b.drop_first())
    }
}

proof fn lemma_seq_lt_asym(a: Seq<usize>, b: Seq<usize>)
    requires
        seq_lt(a, b),
    ensures
        !seq_lt(b, a),
    decreases a.len(),
{
    if a.len() > 0 && b.len() > 0 && a[0] == b[0] {
        lemma_seq_lt_asym(a.drop_first(), b.drop_first());
    }
}

proof fn lemma_cover_lt_asym(a: Seq<Seq<usize>>, b: Seq<Seq<usize>>)
    requires
        cover_lt(a, b),
    ensures
        !cover_lt(b, a),
    decreases a.len(),
{
    if a.len() > 0 && b.len() > 0 {
        if a[0] == b[0] {
            lemma_cover_lt_asym(a.drop_first(), b.drop_first());
        } else {
            lemma_seq_lt_asym(a[0], b[0]);
        }
    }
}

/// The sets of a cover, viewed.
pub open spec fn cover_view(c: Seq<Vec<usize>>) -> Seq<Seq<usize>> {
    c.map_values(|v: Vec<usize>| v@)
}

/// No set comes before the one before it, by first element.
pub open spec fn sorted_by_first(c: Seq<Vec<usize>>) -> bool {
    forall|i: int, j: int| 0 <= i && j == i + 1 && j < c.len() ==> !first_lt(#[trigger] c[j]@, #[trigger] c[i]@)
}

/// No cover comes before the one before it, lexicographically.
pub open spec fn sorted_covers(cs: Seq<Vec<Vec<usize>>>) -> bool {
    forall|i: int, j: int| 0 <= i && j == i + 1 && j < cs.len() ==> !cover_lt(
        cover_view(#[trigger] cs[j]@),
        cover_view(#[trigger] cs[i]@),
    )
}

/// `cmp_index_sets(a, b) == Less`.
fn first_less(a: &Vec<usize>, b: &Vec<usize>) -> (r: bool)
    ensures
        r == first_lt(a@, b@),
{
    if a.len() == 0 {
        b.len() > 0
    } else {
        b.len() > 0 && a[0] < b[0]
    }
}

fn vec_less(a: &Vec<usize>, b: &Vec<usize>) -> (r: bool)
    ensures
        r == seq_lt(a@, b@),
{
    let mut k: usize = 0;
    assert(a@.skip(0) == a@ && b@.skip(0) == b@);
    assert(a@.take(0) =~= b@.take(0));
    while k < a.len() && k < b.len() && a[k] == b[k]
        invariant
            k <= a@.len(),
            k <= b@.len(),
            a@.take(k as int) == b@.take(k as int),
            seq_lt(a@, b@) == seq_lt(a@.skip(k as int), b@.skip(k as int)),
        decreases a@.len() - k,
    {
        proof {
            assert(a@.skip(k as int).drop_first() == a@.skip(k + 1));
            assert(b@.skip(k as int).drop_first() == b@.skip(k + 1));
            assert(a@.take(k + 1) == a@.take(k as int).push(a@[k as int]));
            assert(b@.take(k + 1) == b@.take(k as int).push(b@[k as int]));
        }
        k += 1;
    }
    if k == a.len() {
        k < b.len()
    } else if k == b.len() {
        false
    } else {
        a[k] < b[k]
    }
}

fn cover_less(a: &Vec<Vec<usize>>, b: &Vec<Vec<usize>>) -> (r: bool)
    ensures
        r == cover_lt(cover_view(a@), cover_view(b@)),
{
    let ghost va = cover_view(a@);
    let ghost vb = cover_view(b@);
    let mut k: usize = 0;
    assert(va.skip(0) == va && vb.skip(0) == vb);
    loop
        invariant
            k <= a@.len(),
            k <= b@.len(),
            va == cover_view(a@),
            vb == cover_view(b@),
            cover_lt(va, vb) == cover_lt(va.skip(k as int), vb.skip(k as int)),
        decreases a@.len() - k,
    {
        if k == a.len() {
            return k < b.len();
        }
        if k == b.len() {
            return false;
        }
        let less = vec_less(&a[k], &b[k]);
        let greater = vec_less(&b[k], &a[k]);
        assert(va.skip(k as int)[0] == a@[k as int]@ && vb.skip(k as int)[0] == b@[k as int]@);
        proof {
            lemma_seq_lt_irrefl(a@[k as int]@);
        }
        if less || greater {
            return less;
        }
        proof {
            if a@[k as int]@ != b@[k as int]@ {
                lemma_seq_total(a@[k as int]@, b@[k as int]@);
            }
            assert(va.skip(k as int).drop_first() == va.skip(k + 1));
            assert(vb.skip(k as int).drop_first() == vb.skip(k + 1));
        }
        k += 1;
    }
}

proof fn lemma_seq_lt_irrefl(a: Seq<usize>)
    ensures
        !seq_lt(a, a),
    decreases a.len(),
{
    if a.len() > 0 {
        lemma_seq_lt_irrefl(a.drop_first());
    }
}

proof fn lemma_seq_total(a: Seq<usize>, b: Seq<usize>)
    requires
        a != b,
    ensures
        seq_lt(a, b) || seq_lt(b, a),
    decreases a.len(),
{
    if a.len() > 0 && b.len() > 0 && a[0] == b[0] {
        if a.drop_first() == b.drop_first() {
            assert(a == seq![a[0]] + a.drop_first());
            assert(b == seq![b[0]] + b.drop_first());
        }
        lemma_seq_total(a.drop_first(), b.drop_first());
    } else if a.len() == 0 && b.len() == 0 {
        assert(a == b);
    }
}

proof fn lemma_empty_mset<A>(s: Seq<A>)
    requires
        s.len() == 0,
    ensures
        s.to_multiset() =~= vstd::multiset::Multiset::<A>::empty(),
{
    broadcast use vstd::seq_lib::group_to_multiset_ensures, vstd::multiset::group_multiset_axioms;
    assert forall|x: A| s.to_multiset().count(x) == 0 by {
        assert(!s.contains(x));
    }
}

/// Sorts the sets of a cover by first element, keeping sets with equal
/// first elements in order.
fn sort_by_first(v: &mut Vec<Vec<usize>>)
    ensures
        sorted_by_first(final(v)@),
        final(v)@.to_multiset() == old(v)@.to_multiset(),
{
    broadcast use vstd::multiset::group_multiset_axioms, vstd::seq_lib::group_to_multiset_ensures,
        vstd::seq_lib::to_multiset_insert;
    let ghost orig = v@;
    let mut out: Vec<Vec<usize>> = Vec::new();
    proof {
        lemma_empty_mset(out@);
    }
    assert(out@.to_multiset().add(v@.to_multiset()) =~= orig.to_multiset());
    while v.len() > 0
        invariant
            sorted_by_first(out@),
            out@.to_multiset().add(v@.to_multiset()) == orig.to_multiset(),
        decreases v@.len(),
    {
        let ghost v0 = v@;
        let x = v.remove(0);
        let mut p: usize = 0;
        while p < out.len() && !first_less(&x, &out[p])
            invariant
                p <= out@.len(),
                p > 0 ==> !first_lt(x@, out@[p - 1]@),
            decreases out@.len() - p,
        {
            p += 1;
        }
        let ghost before = out@;
        out.insert(p, x);
        proof {
            assert(out@ == before.insert(p as int, x));
            assert(v@ == v0.remove(0));
            assert(v0[0] == x);
            assert(v0.contains(x));
            v0.to_multiset_ensures();
            before.to_multiset_ensures();
            assert(v0.to_multiset().count(x) > 0);
            assert(v@.to_multiset() == v0.to_multiset().remove(x));
            vstd::seq_lib::to_multiset_insert(before, p as int, x);
            assert(out@.to_multiset() == before.to_multiset().insert(x));
            assert(out@.to_multiset().add(v@.to_multiset()) =~= orig.to_multiset());
            assert forall|a: int, b: int| 0 <= a && b == a + 1 && b < out@.len() implies !first_lt(#[trigger] out@[b]@, #[trigger] out@[a]@) by {
                if b < p {
                    assert(out@[a] == before[a] && out@[b] == before[b]);
                } else if b == p {
                    assert(out@[a] == before[a]);
                } else if a == p {
                    assert(out@[b] == before[p as int]);
                    assert(first_lt(x@, before[p as int]@));
                } else {
                    assert(out@[a] == before[a - 1] && out@[b] == before[b - 1]);
                }
            }
        }
    }
    assert(out@.to_multiset() =~= orig.to_multiset());
    *v = out;
}

/// Entry `i` of `a` is entry `perm[i]` of `b`, and `perm` takes no entry
/// of `b` twice.
#[verifier::opaque]
pub open spec fn permutes(a: Seq<Vec<Vec<usize>>>, b: Seq<Vec<Vec<usize>>>, perm: Seq<int>) -> bool {
    &&& perm.len() == a.len()
    &&& a.len() == b.len()
    &&& forall|i: int| 0 <= i < a.len() ==> 0 <= #[trigger] perm[i] < b.len() && a[i] == b[perm[i]]
    &&& forall|i: int, j: int| 0 <= i < j < a.len() ==> #[trigger] perm[i] != #[trigger] perm[j]
}

/// Sorts covers lexicographically, keeping equal covers in order.
fn sort_covers(v: &mut Vec<Vec<Vec<usize>>>)
    ensures
        sorted_covers(final(v)@),
        final(v)@.to_multiset() == old(v)@.to_multiset(),
        exists|places: Seq<int>| #[trigger] permutes(final(v)@, old(v)@, places),
{
    broadcast use vstd::multiset::group_multiset_axioms, vstd::seq_lib::group_to_multiset_ensures,
        vstd::seq_lib::to_multiset_insert;
    let ghost orig = v@;
    let mut out: Vec<Vec<Vec<usize>>> = Vec::new();
    proof {
        lemma_empty_mset(out@);
    }
    assert(out@.to_multiset().add(v@.to_multiset()) =~= orig.to_multiset());
    let ghost mut moved: int = 0;
    let ghost mut places: Seq<int> = Seq::empty();
    assert(v@ =~= orig.subrange(0, orig.len() as int));
    while v.len() > 0
        invariant
            sorted_covers(out@),
            out@.to_multiset().add(v@.to_multiset()) == orig.to_multiset(),
            0 <= moved <= orig.len(),
            v@ == orig.subrange(moved, orig.len() as int),
            out@.len() == moved,
            places.len() == moved,
            forall|i: int| 0 <= i < moved ==> 0 <= #[trigger] places[i] < moved && out@[i] == orig[places[i]],
            forall|i: int, j: int| 0 <= i < j < moved ==> #[trigger] places[i] != #[trigger] places[j],
        decreases v@.len(),
    {
        let ghost v0 = v@;
        let x = v.remove(0);
        let mut p: usize = 0;
        while p < out.len() && !cover_less(&x, &out[p])
            invariant
                p <= out@.len(),
                p > 0 ==> !cover_lt(cover_view(x@), cover_view(out@[p - 1]@)),
            decreases out@.len() - p,
        {
            p += 1;
        }
        let ghost before = out@;
        let ghost xv = cover_view(x@);
        out.insert(p, x);
        proof {
            assert(out@ == before.insert(p as int, x));
            assert(v@ == v0.remove(0));
            assert(v0[0] == x);
            assert(v0.contains(x));
            v0.to_multiset_ensures();
            before.to_multiset_ensures();
            assert(v0.to_multiset().count(x) > 0);
            assert(v@.to_multiset() == v0.to_multiset().remove(x));
            vstd::seq_lib::to_multiset_insert(before, p as int, x);
            assert(out@.to_multiset() == before.to_multiset().insert(x));
            assert(out@.to_multiset().add(v@.to_multiset()) =~= orig.to_multiset());
            assert forall|a: int, b: int| 0 <= a && b == a + 1 && b < out@.len() implies !cover_lt(
                cover_view(#[trigger] out@[b]@),
                cover_view(#[trigger] out@[a]@),
            ) by {
                if b < p {
                    assert(out@[a] == before[a] && out@[b] == before[b]);
                } else if b == p {
                    assert(out@[a] == before[a]);
                } else if a == p {
                    assert(out@[b] == before[p as int]);
                    assert(cover_lt(xv, cover_view(before[p as int]@)));
                    lemma_cover_lt_asym(xv, cover_view(before[p as int]@));
                } else {
                    assert(out@[a] == before[a - 1] && out@[b] == before[b - 1]);
                }
            }
            let p0 = places;
            places = places.insert(p as int, moved);
            assert(x == orig[moved]);
            assert forall|i: int| 0 <= i < moved + 1 implies 0 <= #[trigger] places[i] < moved + 1 && out@[i] == orig[places[i]] by {
                if i < p {
                    assert(places[i] == p0[i] && out@[i] == before[i]);
                } else if i > p {
                    assert(places[i] == p0[i - 1] && out@[i] == before[i - 1]);
                }
            }
            assert forall|i: int, j: int| 0 <= i < j < moved + 1 implies #[trigger] places[i] != #[trigger] places[j] by {
                if j < p {
                    assert(places[i] == p0[i] && places[j] == p0[j]);
                } else if j == p {
                    assert(places[i] == p0[i]);
                } else if i < p {
                    assert(places[i] == p0[i] && places[j] == p0[j - 1]);
                } else if i == p {
                    assert(places[j] == p0[j - 1]);
                } else {
                    assert(places[i] == p0[i - 1] && places[j] == p0[j - 1]);
                }
            }
            moved = moved + 1;
            assert(v@ =~= orig.subrange(moved, orig.len() as int));
        }
    }
    assert(out@.to_multiset() =~= orig.to_multiset());
    assert(permutes(out@, orig, places)) by {
        reveal(permutes);
    }
    *v = out;
}

// ---------------------------------------------------------------------
// Exact covers of a table
// ---------------------------------------------------------------------

/// Row `s` has a node in column `g`.
pub open spec fn in_row(t: DLXTable, s: int, g: int) -> bool {
    row_has_col(t, s, g, t.end_of(s))
}

/// Rows `r` and `s` share a column.
pub open spec fn conflict(t: DLXTable, r: int, s: int) -> bool {
    exists|g: int| #[trigger] in_row(t, r, g) && in_row(t, s, g)
}

/// Row `s` has a node in the column of a listed header.
pub open spec fn live(t: DLXTable, s: int) -> bool {
    exists|z: int|
        #[trigger] t.col(t.hdr(z)).contains(z) && t.active().contains(t.hdr(z)) && t.set_of(z) == s
}

/// The rows `rows` cover every listed column of `t` exactly once, and each
/// of them has a node in a listed column.
#[verifier::opaque]
pub open spec fn exact_rows(t: DLXTable, rows: Set<int>) -> bool {
    &&& rows.finite()
    &&& forall|s: int| #[trigger] rows.contains(s) ==> live(t, s)
    &&& forall|g: int| #[trigger] t.active().contains(g) ==> exists|s: int| rows.contains(s) && #[trigger] in_row(t, s, g)
    &&& forall|s1: int, s2: int, g: int|
        rows.contains(s1) && rows.contains(s2) && #[trigger] in_row(t, s1, g) && #[trigger] in_row(t, s2, g) ==> s1 == s2
}

/// `v` lists the elements of row `s`, in some order.
pub open spec fn lists_row(t: DLXTable, v: Seq<usize>, s: int) -> bool {
    &&& 0 <= s < t.sets_count()
    &&& v.to_multiset() == t.row_elements(s).to_multiset()
}

/// `v` lists the elements of a row with a node in a listed column.
pub open spec fn lists_live_row(t: DLXTable, v: Seq<usize>) -> bool {
    exists|s: int| live(t, s) && #[trigger] lists_row(t, v, s)
}

/// `c` is an exact cover of the listed elements of `t`: each of its sets
/// lists a row with a node in a listed column, every listed element is in
/// one of them, and no element is in two.
#[verifier::opaque]
pub open spec fn valid_cover(t: DLXTable, c: Seq<Vec<usize>>) -> bool {
    &&& forall|i: int| 0 <= i < c.len() ==> #[trigger] lists_live_row(t, c[i]@)
    &&& forall|e: usize| #[trigger] t.active().contains(e + 1) ==> exists|i: int| 0 <= i < c.len() && #[trigger] c[i]@.contains(e)
    &&& forall|i: int, j: int, e: usize|
        0 <= i < c.len() && 0 <= j < c.len() && i != j && #[trigger] c[i]@.contains(e) ==> !(#[trigger] c[j]@.contains(e))
}

/// `c` lists the rows of `rows`, one set per row.
#[verifier::opaque]
pub open spec fn lists_rows(t: DLXTable, c: Seq<Vec<usize>>, rows: Set<int>) -> bool {
    &&& c.len() == rows.len()
    &&& forall|s: int| #[trigger] rows.contains(s) ==> exists|i: int| 0 <= i < c.len() && #[trigger] lists_row(t, c[i]@, s)
}

/// Tables with the same rows agree on where each row lies.
pub(crate) proof fn lemma_same_rows_in_row(a: DLXTable, b: DLXTable, s: int)
    requires
        a.wf_layout(),
        same_rows(a, b),
        0 <= s < a.sets_count(),
    ensures
        forall|g: int| #[trigger] in_row(b, s, g) == in_row(a, s, g),
        b.row_elements(s) == a.row_elements(s),
        b.head_of(s) == a.head_of(s),
        b.end_of(s) == a.end_of(s),
{
    a.lemma_row_layout(s);
    assert forall|g: int| #[trigger] in_row(b, s, g) == in_row(a, s, g) by {
        if in_row(b, s, g) {
            let x = choose|x: int| b.head_of(s) <= x < b.end_of(s) && #[trigger] b.hdr(x) == g;
            assert(b.nodes@[x].header == a.nodes@[x].header);
            assert(a.hdr(x) == g);
        }
        if in_row(a, s, g) {
            let x = choose|x: int| a.head_of(s) <= x < a.end_of(s) && #[trigger] a.hdr(x) == g;
            assert(b.nodes@[x].header == a.nodes@[x].header);
            assert(b.hdr(x) == g);
        }
    }
    assert forall|k: int| 0 <= k < a.row_elements(s).len() implies b.row_elements(s)[k] == a.row_elements(s)[k] by {
        assert(b.nodes@[a.head_of(s) + k].header == a.nodes@[a.head_of(s) + k].header);
    }
    assert(b.row_elements(s) =~= a.row_elements(s));
}

/// A node's row has the node's column.
pub(crate) proof fn lemma_node_in_row(t: DLXTable, z: int)
    requires
        t.wf_layout(),
        t.is_item(z),
    ensures
        0 <= t.set_of(z) < t.sets_count(),
        in_row(t, t.set_of(z), t.hdr(z)),
        t.row_elements(t.set_of(z)).contains((t.hdr(z) - 1) as usize),
        1 <= t.hdr(z),
{
    let s = t.set_of(z);
    assert(t.nodes@[z].set is Some);
    t.lemma_row_layout(s);
    let k = z - t.head_of(s);
    assert(t.row_elements(s)[k] == (t.hdr(z) - 1) as usize);
}

/// An element of a row is the element of one of its nodes.
pub(crate) proof fn lemma_row_element_node(t: DLXTable, s: int, e: usize)
    requires
        t.wf_layout(),
        0 <= s < t.sets_count(),
        t.row_elements(s).contains(e),
    ensures
        exists|x: int| t.head_of(s) <= x < t.end_of(s) && t.is_item(x) && t.set_of(x) == s && #[trigger] t.hdr(x) == e + 1,
        in_row(t, s, e + 1),
{
    t.lemma_row_layout(s);
    let k = choose|k: int| 0 <= k < t.row_elements(s).len() && t.row_elements(s)[k] == e;
    let x = t.head_of(s) + k;
    assert(t.is_item(x));
    assert(t.nodes@[x].set is Some);
    assert(t.hdr(x) == e + 1);
}

/// What a sequence holds, another with its multiset holds too.
proof fn lemma_mset_has<A>(a: Seq<A>, b: Seq<A>, i: int)
    requires
        a.to_multiset() == b.to_multiset(),
        0 <= i < a.len(),
    ensures
        exists|k: int| 0 <= k < b.len() && b[k] == a[i],
{
    a.to_multiset_ensures();
    b.to_multiset_ensures();
    assert(a.contains(a[i]));
    assert(a.to_multiset().count(a[i]) > 0);
    assert(b.to_multiset().count(a[i]) > 0);
    assert(b.contains(a[i]));
}

/// Reordering a cover keeps it an exact cover.
proof fn lemma_valid_perm(t: DLXTable, a: Seq<Vec<usize>>, b: Seq<Vec<usize>>)
    requires
        a.to_multiset() == b.to_multiset(),
        valid_cover(t, b),
    ensures
        valid_cover(t, a),
{
    reveal(valid_cover);
    assert forall|i: int| 0 <= i < a.len() implies #[trigger] lists_live_row(t, a[i]@) by {
        lemma_mset_has(a, b, i);
        let k = choose|k: int| 0 <= k < b.len() && b[k] == a[i];
        assert(lists_live_row(t, b[k]@));
    }
    assert forall|e: usize| #[trigger] t.active().contains(e + 1) implies exists|i: int| 0 <= i < a.len() && #[trigger] a[i]@.contains(e) by {
        let k = choose|k: int| 0 <= k < b.len() && #[trigger] b[k]@.contains(e);
        lemma_mset_has(b, a, k);
        let i = choose|i: int| 0 <= i < a.len() && a[i] == b[k];
        assert(a[i]@.contains(e));
    }
    assert forall|i: int, j: int, e: usize|
        0 <= i < a.len() && 0 <= j < a.len() && i != j && #[trigger] a[i]@.contains(e) implies !(#[trigger] a[j]@.contains(e)) by {
        if a[j]@.contains(e) {
            if a[i] == a[j] {
                lemma_count_two(a, i, j);
                lemma_two_places(b, a[i]);
                let (k, l) = choose|k: int, l: int| 0 <= k < b.len() && 0 <= l < b.len() && k != l && b[k] == a[i] && b[l] == a[i];
                assert(b[k]@.contains(e) && b[l]@.contains(e));
            } else {
                lemma_mset_has(a, b, i);
                lemma_mset_has(a, b, j);
                let k = choose|k: int| 0 <= k < b.len() && b[k] == a[i];
                let l = choose|l: int| 0 <= l < b.len() && b[l] == a[j];
                assert(b[k]@.contains(e) && b[l]@.contains(e));
            }
        }
    }
}

/// Reordering a cover keeps the rows it lists.
proof fn lemma_lists_perm(t: DLXTable, a: Seq<Vec<usize>>, b: Seq<Vec<usize>>, rows: Set<int>)
    requires
        a.to_multiset() == b.to_multiset(),
        lists_rows(t, b, rows),
    ensures
        lists_rows(t, a, rows),
{
    reveal(lists_rows);
    a.to_multiset_ensures();
    b.to_multiset_ensures();
    assert forall|s: int| #[trigger] rows.contains(s) implies exists|i: int| 0 <= i < a.len() && #[trigger] lists_row(t, a[i]@, s) by {
        let k = choose|k: int| 0 <= k < b.len() && #[trigger] lists_row(t, b[k]@, s);
        lemma_mset_has(b, a, k);
        let i = choose|i: int| 0 <= i < a.len() && a[i] == b[k];
        assert(lists_row(t, a[i]@, s));
    }
}

/// Covering listed header `h`: the rows stay, the listing loses `h`, and
/// each column loses the nodes of `cover_set(h)`.
pub(crate) proof fn lemma_cover_step(t0: DLXTable, t1: DLXTable, h: int)
    requires
        uncover_pre(t0, t1, h),
    ensures
        same_rows(t0, t1),
        t1.active() == t0.active().remove(h),
        forall|d: int| #[trigger] t1.col(d) == t0.col(d).difference(t0.cover_set(h)),
        t0.col_sets(h) == t1.col_sets(h),
        t0.wf_layout(),
{
    crate::dlx_table::lemma_uncover_pre(t0, t1, h);
    reveal(uncover_pre);
    lemma_cover_facts(t0, h);
    crate::dlx_table::lemma_hfacts(t0, h);
    lemma_taken_all(t0, h);
    lemma_removed_vertical(t0, t1, h, t0.n());
    lemma_removed_horizontal(t0, t1, h);
    assert forall|z: int| #![trigger t1.nodes@[z]] 0 <= z < t0.n() implies t1.nodes@[z].header == t0.nodes@[z].header
        && t1.nodes@[z].set == t0.nodes@[z].set by {
    }
}

/// A node outside `cover_set(g)` whose row shares no column with row `s`
/// of the first table of a run, where `g` is a column of `s`.
proof fn lemma_not_taken(t0: DLXTable, t: DLXTable, g: int, s: int, z: int)
    requires
        t0.wf_layout(),
        same_rows(t0, t),
        in_row(t0, s, g),
        t.is_item(z),
        !conflict(t0, t0.set_of(z), s),
    ensures
        !t.cover_set(g).contains(z),
{
    reveal(DLXTable::cover_set);
    reveal(DLXTable::col_sets);
    if t.cover_set(g).contains(z) {
        let y = choose|y: int| #[trigger] t.col(g).contains(y) && t.set_of(y) == t.set_of(z);
        assert(t.nodes@[y].header == t0.nodes@[y].header && t.nodes@[y].set == t0.nodes@[y].set);
        assert(t.nodes@[z].header == t0.nodes@[z].header && t.nodes@[z].set == t0.nodes@[z].set);
        lemma_node_in_row(t0, y);
        assert(in_row(t0, t0.set_of(z), g));
        assert(conflict(t0, t0.set_of(z), s));
    }
}

/// One step of covering the columns of row `s`: covering column `g` of the
/// row takes no node of a row that shares no column with `s`.
proof fn lemma_cols_step(t0: DLXTable, a: DLXTable, b: DLXTable, g: int, s: int)
    requires
        t0.wf_layout(),
        same_rows(t0, a),
        in_row(t0, s, g),
        uncover_pre(a, b, g),
    ensures
        forall|d: int, z: int| #[trigger] b.col(d).contains(z) ==> a.col(d).contains(z),
        forall|d: int, z: int| a.col(d).contains(z) && !conflict(t0, t0.set_of(z), s)
            ==> #[trigger] b.col(d).contains(z),
{
    lemma_cover_step(a, b, g);
    assert forall|d: int, z: int| a.col(d).contains(z) && !conflict(t0, t0.set_of(z), s)
        implies #[trigger] b.col(d).contains(z) by {
        lemma_not_taken(t0, a, g, s, z);
    }
}

/// Along a run of covers of the columns of row `s`, columns only lose
/// nodes, and never one of a row that shares no column with `s`.
#[verifier::spinoff_prover]
#[verifier::rlimit(40)]
proof fn lemma_chain_cols(ts: Seq<DLXTable>, s: int, h: int, m: int, j: int)
    requires
        row_chain_upto(ts, s, h, m),
        0 <= j <= m,
        m == ts[0].end_of(s) - ts[0].head_of(s),
        0 <= s < ts[0].sets_count(),
    ensures
        forall|d: int, z: int| #[trigger] ts[j].col(d).contains(z) ==> ts[0].col(d).contains(z),
        forall|d: int, z: int| ts[0].col(d).contains(z) && !conflict(ts[0], ts[0].set_of(z), s)
            ==> #[trigger] ts[j].col(d).contains(z),
    decreases j,
{
    if j > 0 {
        lemma_chain_cols(ts, s, h, m, j - 1);
        lemma_chain_at(ts, s, h, m, 0);
        lemma_chain_at(ts, s, h, m, j - 1);
        assert(ts[0].wf_layout()) by {
            reveal(ready);
        }
        let x = ts[0].head_of(s) + j - 1;
        let g = ts[0].hdr(x);
        assert(row_cover_step(ts, s, h, j - 1));
        if g == h {
            lemma_same_active(ts[j - 1], ts[j]);
        } else {
            assert(in_row(ts[0], s, g));
            lemma_cols_step(ts[0], ts[j - 1], ts[j], g, s);
        }
    }
}

/// `t2` is `t0` with row `s` covered: the rows stay where they are, the
/// listing loses the columns of `s`, and the columns lose nodes, but none
/// of a row that shares no column with `s`.
#[verifier::opaque]
pub open spec fn row_covered(t0: DLXTable, t2: DLXTable, s: int) -> bool {
    &&& same_rows(t0, t2)
    &&& forall|g: int| #[trigger] t2.active().contains(g) == (t0.active().contains(g) && !in_row(t0, s, g))
    &&& forall|d: int, z: int| #[trigger] t2.col(d).contains(z) ==> t0.col(d).contains(z)
    &&& forall|d: int, z: int| t0.col(d).contains(z) && !conflict(t0, t0.set_of(z), s)
        ==> #[trigger] t2.col(d).contains(z)
}

/// What covering header `h` and then the other columns of row `s` does.
pub(crate) proof fn lemma_row_step(t0: DLXTable, t1: DLXTable, before: DLXTable, t2: DLXTable, h: int, s: int)
    requires
        uncover_pre(t0, t1, h),
        before.same(t1),
        t1.col_sets(h).contains(s),
        0 <= s < before.sets_count(),
        forall|g: int| #[trigger] t2.active().contains(g) <==> before.active().contains(g)
            && !(g != h && row_has_col(before, s, g, before.end_of(s))),
        exists|ts: Seq<DLXTable>| #[trigger] row_cover_chain(ts, s, h) && ts[0] == before && ts.last() == t2,
    ensures
        row_covered(t0, t2, s),
        in_row(t0, s, h),
{
    reveal(row_covered);
    lemma_cover_step(t0, t1, h);
    lemma_same_active(t1, before);
    let ts = choose|ts: Seq<DLXTable>| #[trigger] row_cover_chain(ts, s, h) && ts[0] == before && ts.last() == t2;
    let m = ts[0].end_of(s) - ts[0].head_of(s);
    lemma_chain_at(ts, s, h, m, m);
    lemma_chain_cols(ts, s, h, m, m);
    assert(ts[m] == t2);
    assert forall|z: int| #![trigger t2.nodes@[z]] 0 <= z < t0.n() implies t2.nodes@[z].header == t0.nodes@[z].header
        && t2.nodes@[z].set == t0.nodes@[z].set by {
        assert(t1.nodes@[z] == before.nodes@[z]);
        assert(t1.nodes@[z].header == t0.nodes@[z].header);
    }
    assert(same_rows(t0, t2));
    assert(same_rows(t0, before)) by {
        assert forall|z: int| #![trigger before.nodes@[z]] 0 <= z < t0.n() implies before.nodes@[z].header == t0.nodes@[z].header
            && before.nodes@[z].set == t0.nodes@[z].set by {
            assert(t1.nodes@[z] == before.nodes@[z]);
        }
    }
    lemma_same_rows_in_row(t0, before, s);
    reveal(DLXTable::col_sets);
    let y = choose|y: int| #[trigger] t1.col(h).contains(y) && t1.set_of(y) == s;
    assert(t0.col(h).contains(y));
    assert(t1.nodes@[y].set == t0.nodes@[y].set);
    lemma_node_in_row(t0, y);
    assert(in_row(t0, s, h));
    assert forall|g: int| #[trigger] t2.active().contains(g) == (t0.active().contains(g) && !in_row(t0, s, g)) by {
        assert(in_row(before, s, g) == in_row(t0, s, g));
    }
    assert forall|d: int, z: int| t0.col(d).contains(z) && !conflict(t0, t0.set_of(z), s)
        implies #[trigger] t2.col(d).contains(z) by {
        lemma_not_taken(t0, t0, h, s, z);
        assert(t1.col(d).contains(z));
        assert(before.col(d).contains(z));
        assert(before.nodes@[z].set == t0.nodes@[z].set);
        if conflict(before, before.set_of(z), s) {
            let g = choose|g: int| #[trigger] in_row(before, before.set_of(z), g) && in_row(before, s, g);
            lemma_node_in_row(t0, z);
            lemma_same_rows_in_row(t0, before, t0.set_of(z));
            assert(in_row(t0, t0.set_of(z), g) && in_row(t0, s, g));
        }
    }
}

/// A row with a node in a listed column is a row of the table.
proof fn lemma_live_index(t: DLXTable, s: int)
    requires
        t.wf_layout(),
        live(t, s),
    ensures
        0 <= s < t.sets_count(),
{
    let z = choose|z: int| #[trigger] t.col(t.hdr(z)).contains(z) && t.active().contains(t.hdr(z)) && t.set_of(z) == s;
    assert(t.nodes@[z].set is Some);
}

/// What a listing of a row holds, the row holds, and back.
proof fn lemma_lists_row_contains(t: DLXTable, v: Seq<usize>, s: int, e: usize)
    requires
        lists_row(t, v, s),
    ensures
        v.contains(e) == t.row_elements(s).contains(e),
{
    v.to_multiset_ensures();
    t.row_elements(s).to_multiset_ensures();
    assert(v.to_multiset().count(e) == t.row_elements(s).to_multiset().count(e));
}

/// Adding row `s` to an exact cover of the table left by covering `s`
/// gives an exact cover of the table before.
proof fn lemma_sound_step(t0: DLXTable, t2: DLXTable, s: int, c: Seq<Vec<usize>>, v: Vec<usize>)
    requires
        t0.wf_layout(),
        t2.wf_layout(),
        rows_active(t2),
        live(t0, s),
        lists_row(t0, v@, s),
        same_rows(t0, t2),
        forall|g: int| #[trigger] t2.active().contains(g) == (t0.active().contains(g) && !in_row(t0, s, g)),
        forall|d: int, z: int| #[trigger] t2.col(d).contains(z) ==> t0.col(d).contains(z),
        valid_cover(t2, c),
    ensures
        valid_cover(t0, c.push(v)),
{
    reveal(valid_cover);
    let cv = c.push(v);
    assert forall|i: int| 0 <= i < cv.len() implies #[trigger] lists_live_row(t0, cv[i]@) by {
        if i < c.len() {
            assert(cv[i] == c[i]);
            assert(lists_live_row(t2, c[i]@));
            let s2 = choose|s2: int| live(t2, s2) && #[trigger] lists_row(t2, c[i]@, s2);
            let z = choose|z: int| #[trigger] t2.col(t2.hdr(z)).contains(z) && t2.active().contains(t2.hdr(z)) && t2.set_of(z) == s2;
            assert(t2.nodes@[z].header == t0.nodes@[z].header && t2.nodes@[z].set == t0.nodes@[z].set);
            assert(t0.col(t0.hdr(z)).contains(z));
            assert(live(t0, s2));
            lemma_live_index(t0, s2);
            lemma_same_rows_in_row(t0, t2, s2);
            assert(lists_row(t0, c[i]@, s2));
        } else {
            assert(cv[i] == v);
            assert(lists_row(t0, v@, s));
        }
    }
    assert forall|e: usize| #[trigger] t0.active().contains(e + 1) implies exists|i: int| 0 <= i < cv.len() && #[trigger] cv[i]@.contains(e) by {
        if in_row(t0, s, e + 1) {
            let x = choose|x: int| t0.head_of(s) <= x < t0.end_of(s) && #[trigger] t0.hdr(x) == e + 1;
            t0.lemma_row_layout(s);
            assert(t0.row_elements(s)[x - t0.head_of(s)] == e);
            lemma_lists_row_contains(t0, v@, s, e);
            assert(cv[c.len() as int] == v);
        } else {
            assert(t2.active().contains(e + 1));
            let i = choose|i: int| 0 <= i < c.len() && #[trigger] c[i]@.contains(e);
            assert(cv[i] == c[i]);
        }
    }
    assert forall|i: int, j: int, e: usize|
        0 <= i < cv.len() && 0 <= j < cv.len() && i != j && #[trigger] cv[i]@.contains(e) implies !(#[trigger] cv[j]@.contains(e)) by {
        if i < c.len() && j < c.len() {
            assert(cv[i] == c[i] && cv[j] == c[j]);
        } else if cv[j]@.contains(e) {
            let k = if i < c.len() { i } else { j };
            assert(cv[k] == c[k]);
            assert(c[k]@.contains(e));
            assert(v@.contains(e));
            assert(lists_live_row(t2, c[k]@));
            let s2 = choose|s2: int| live(t2, s2) && #[trigger] lists_row(t2, c[k]@, s2);
            let z = choose|z: int| #[trigger] t2.col(t2.hdr(z)).contains(z) && t2.active().contains(t2.hdr(z)) && t2.set_of(z) == s2;
            lemma_live_index(t2, s2);
            lemma_lists_row_contains(t2, c[k]@, s2, e);
            lemma_row_element_node(t2, s2, e);
            let x = choose|x: int| t2.head_of(s2) <= x < t2.end_of(s2) && t2.is_item(x) && t2.set_of(x) == s2 && #[trigger] t2.hdr(x) == e + 1;
            assert(t2.active().contains(e + 1));
            lemma_lists_row_contains(t0, v@, s, e);
            lemma_row_element_node(t0, s, e);
        }
    }
}

/// Taking row `s` out of an exact cover of a table leaves an exact cover of
/// the table left by covering `s`.
proof fn lemma_exact_step(t0: DLXTable, t2: DLXTable, s: int, rows: Set<int>)
    requires
        t0.wf_layout(),
        exact_rows(t0, rows),
        rows.contains(s),
        same_rows(t0, t2),
        forall|g: int| #[trigger] t2.active().contains(g) == (t0.active().contains(g) && !in_row(t0, s, g)),
        forall|d: int, z: int| t0.col(d).contains(z) && !conflict(t0, t0.set_of(z), s)
            ==> #[trigger] t2.col(d).contains(z),
    ensures
        exact_rows(t2, rows.remove(s)),
{
    reveal(exact_rows);
    let rest = rows.remove(s);
    assert forall|r: int| #[trigger] rest.contains(r) implies live(t2, r) by {
        let z = choose|z: int| #[trigger] t0.col(t0.hdr(z)).contains(z) && t0.active().contains(t0.hdr(z)) && t0.set_of(z) == r;
        if conflict(t0, r, s) {
            let g = choose|g: int| #[trigger] in_row(t0, r, g) && in_row(t0, s, g);
            assert(false);
        }
        assert(t2.col(t0.hdr(z)).contains(z));
        lemma_node_in_row(t0, z);
        assert(t2.nodes@[z].header == t0.nodes@[z].header && t2.nodes@[z].set == t0.nodes@[z].set);
        assert(t2.active().contains(t0.hdr(z)));
    }
    assert forall|g: int| #[trigger] t2.active().contains(g) implies exists|r: int| rest.contains(r) && #[trigger] in_row(t2, r, g) by {
        let r = choose|r: int| rows.contains(r) && #[trigger] in_row(t0, r, g);
        lemma_live_index(t0, r);
        lemma_same_rows_in_row(t0, t2, r);
        assert(rest.contains(r));
        assert(in_row(t2, r, g));
    }
    assert forall|s1: int, s2: int, g: int|
        rest.contains(s1) && rest.contains(s2) && #[trigger] in_row(t2, s1, g) && #[trigger] in_row(t2, s2, g) implies s1 == s2 by {
        lemma_live_index(t0, s1);
        lemma_live_index(t0, s2);
        lemma_same_rows_in_row(t0, t2, s1);
        lemma_same_rows_in_row(t0, t2, s2);
        assert(in_row(t0, s1, g) && in_row(t0, s2, g));
    }
}

/// A row with a node in a listed column of the smaller table has all its
/// columns listed there.
proof fn lemma_live_cols(t2: DLXTable, r: int, g: int)
    requires
        t2.wf_layout(),
        rows_active(t2),
        live(t2, r),
        in_row(t2, r, g),
    ensures
        t2.active().contains(g),
{
    let z = choose|z: int| #[trigger] t2.col(t2.hdr(z)).contains(z) && t2.active().contains(t2.hdr(z)) && t2.set_of(z) == r;
    lemma_live_index(t2, r);
    let x = choose|x: int| t2.head_of(r) <= x < t2.end_of(r) && #[trigger] t2.hdr(x) == g;
    t2.lemma_row_layout(r);
    assert(t2.is_item(x) && t2.set_of(x) == r);
    assert(t2.nodes@[x] == t2.nodes@[x]);
}

/// The rows of an exact cover of the table left by covering row `s` are
/// rows of the table before, other than `s`, with a node in a listed
/// column.
proof fn lemma_extend_live(t0: DLXTable, t2: DLXTable, s: int, rows: Set<int>)
    requires
        t0.wf_layout(),
        t2.wf_layout(),
        rows_active(t2),
        live(t0, s),
        row_covered(t0, t2, s),
        exact_rows(t2, rows),
    ensures
        !rows.contains(s),
        forall|r: int| #[trigger] rows.insert(s).contains(r) ==> live(t0, r),
{
    reveal(exact_rows);
    reveal(row_covered);
    lemma_live_index(t0, s);
    if rows.contains(s) {
        let z = choose|z: int| #[trigger] t2.col(t2.hdr(z)).contains(z) && t2.active().contains(t2.hdr(z)) && t2.set_of(z) == s;
        assert(t0.col(t2.hdr(z)).contains(z));
        lemma_node_in_row(t2, z);
        lemma_same_rows_in_row(t0, t2, s);
        assert(in_row(t0, s, t2.hdr(z)));
    }
    assert forall|r: int| #[trigger] rows.insert(s).contains(r) implies live(t0, r) by {
        if r != s {
            let z = choose|z: int| #[trigger] t2.col(t2.hdr(z)).contains(z) && t2.active().contains(t2.hdr(z)) && t2.set_of(z) == r;
            assert(t0.col(t2.hdr(z)).contains(z));
            assert(t2.nodes@[z].header == t0.nodes@[z].header && t2.nodes@[z].set == t0.nodes@[z].set);
            assert(t0.col(t0.hdr(z)).contains(z));
        }
    }
}

/// An exact cover of the table left by covering row `s`, with `s` added,
/// covers every listed column of the table before.
proof fn lemma_extend_covers(t0: DLXTable, t2: DLXTable, s: int, rows: Set<int>)
    requires
        t0.wf_layout(),
        t2.wf_layout(),
        live(t0, s),
        row_covered(t0, t2, s),
        exact_rows(t2, rows),
    ensures
        forall|g: int| #[trigger] t0.active().contains(g) ==> exists|r: int| rows.insert(s).contains(r) && #[trigger] in_row(t0, r, g),
{
    reveal(exact_rows);
    reveal(row_covered);
    assert forall|g: int| #[trigger] t0.active().contains(g) implies exists|r: int| rows.insert(s).contains(r) && #[trigger] in_row(t0, r, g) by {
        if !in_row(t0, s, g) {
            assert(t2.active().contains(g));
            let r = choose|r: int| rows.contains(r) && #[trigger] in_row(t2, r, g);
            lemma_live_index(t2, r);
            lemma_same_rows_in_row(t0, t2, r);
            assert(in_row(t0, r, g));
            assert(rows.insert(s).contains(r));
        } else {
            assert(rows.insert(s).contains(s));
        }
    }
}

/// No two rows of an exact cover of the table left by covering row `s`,
/// with `s` added, share a column of the table before.
#[verifier::spinoff_prover]
#[verifier::rlimit(30)]
proof fn lemma_extend_apart_rows(t0: DLXTable, t2: DLXTable, s: int, rows: Set<int>)
    requires
        t0.wf_layout(),
        t2.wf_layout(),
        rows_active(t2),
        live(t0, s),
        row_covered(t0, t2, s),
        exact_rows(t2, rows),
    ensures
        forall|s1: int, s2: int, g: int|
            rows.insert(s).contains(s1) && rows.insert(s).contains(s2) && #[trigger] in_row(t0, s1, g) && #[trigger] in_row(t0, s2, g)
                ==> s1 == s2,
{
    reveal(exact_rows);
    reveal(row_covered);
    let all = rows.insert(s);
    assert forall|s1: int, s2: int, g: int|
        all.contains(s1) && all.contains(s2) && #[trigger] in_row(t0, s1, g) && #[trigger] in_row(t0, s2, g) implies s1 == s2 by {
        if s1 != s && s2 != s {
            lemma_live_index(t2, s1);
            lemma_live_index(t2, s2);
            lemma_same_rows_in_row(t0, t2, s1);
            lemma_same_rows_in_row(t0, t2, s2);
            assert(in_row(t2, s1, g) && in_row(t2, s2, g));
        } else if s1 != s || s2 != s {
            let r = if s1 != s { s1 } else { s2 };
            lemma_live_index(t2, r);
            lemma_same_rows_in_row(t0, t2, r);
            assert(in_row(t2, r, g));
            lemma_live_cols(t2, r, g);
        }
    }
}

/// An exact cover of the table left by covering row `s`, with `s` added,
/// is an exact cover of the table before; it did not hold `s`.
proof fn lemma_exact_extend(t0: DLXTable, t2: DLXTable, s: int, rows: Set<int>)
    requires
        t0.wf_layout(),
        t2.wf_layout(),
        rows_active(t2),
        live(t0, s),
        row_covered(t0, t2, s),
        exact_rows(t2, rows),
    ensures
        !rows.contains(s),
        exact_rows(t0, rows.insert(s)),
{
    lemma_extend_live(t0, t2, s, rows);
    lemma_extend_covers(t0, t2, s, rows);
    lemma_extend_apart_rows(t0, t2, s, rows);
    assert(rows.finite()) by {
        reveal(exact_rows);
    }
    reveal(exact_rows);
}

/// A listing of an exact cover of the smaller table, with row `s` added,
/// lists the cover with `s`.
proof fn lemma_lists_step(t0: DLXTable, t2: DLXTable, s: int, rows: Set<int>, c: Seq<Vec<usize>>, v: Vec<usize>)
    requires
        t0.wf_layout(),
        same_rows(t0, t2),
        rows.finite(),
        rows.contains(s),
        lists_rows(t2, c, rows.remove(s)),
        lists_row(t0, v@, s),
    ensures
        lists_rows(t0, c.push(v), rows),
{
    reveal(lists_rows);
    let cv = c.push(v);
    assert forall|r: int| #[trigger] rows.contains(r) implies exists|i: int| 0 <= i < cv.len() && #[trigger] lists_row(t0, cv[i]@, r) by {
        if r == s {
            assert(cv[c.len() as int] == v);
        } else {
            assert(rows.remove(s).contains(r));
            let i = choose|i: int| 0 <= i < c.len() && #[trigger] lists_row(t2, c[i]@, r);
            lemma_same_rows_in_row(t0, t2, r);
            assert(cv[i] == c[i]);
            assert(lists_row(t0, cv[i]@, r));
        }
    }
}

/// The row of an exact cover that covers listed header `h` has a node in
/// the column of `h`.
proof fn lemma_row_of_column(t0: DLXTable, h: int, rows: Set<int>)
    requires
        t0.wf_layout(),
        t0.full_rows(),
        exact_rows(t0, rows),
        t0.active().contains(h),
    ensures
        exists|s: int| #[trigger] rows.contains(s) && in_row(t0, s, h) && t0.col_sets(h).contains(s),
{
    reveal(exact_rows);
    let s = choose|s: int| rows.contains(s) && #[trigger] in_row(t0, s, h);
    let z = choose|z: int| #[trigger] t0.col(t0.hdr(z)).contains(z) && t0.active().contains(t0.hdr(z)) && t0.set_of(z) == s;
    lemma_live_index(t0, s);
    let x = choose|x: int| t0.head_of(s) <= x < t0.end_of(s) && #[trigger] t0.hdr(x) == h;
    t0.lemma_row_layout(s);
    assert(t0.col(t0.hdr(z)).contains(z));
    assert(t0.col(h).contains(x));
    reveal(DLXTable::col_sets);
    assert(t0.col_sets(h).contains(s));
}

/// Found among `covers`: a listing of `rows`.
#[verifier::opaque]
pub open spec fn found(t: DLXTable, covers: Seq<Vec<Vec<usize>>>, rows: Set<int>) -> bool {
    exists|c: int| 0 <= c < covers.len() && #[trigger] lists_rows(t, covers[c]@, rows)
}

/// Cover `c` of `covers` lists the rows `sel[c]`, an exact cover of `t`,
/// and no two covers stand for the same rows.
#[verifier::opaque]
pub open spec fn rows_apart_by(t: DLXTable, covers: Seq<Vec<Vec<usize>>>, sel: Seq<Set<int>>) -> bool {
    &&& sel.len() == covers.len()
    &&& forall|c: int| 0 <= c < covers.len() ==> #[trigger] exact_rows(t, sel[c]) && lists_rows(t, covers[c]@, sel[c])
    &&& forall|c1: int, c2: int| 0 <= c1 < c2 < covers.len() ==> #[trigger] sel[c1] != #[trigger] sel[c2]
}

/// The covers stand for exact covers of `t`, no two for the same rows.
pub open spec fn covers_apart(t: DLXTable, covers: Seq<Vec<Vec<usize>>>) -> bool {
    exists|sel: Seq<Set<int>>| #[trigger] rows_apart_by(t, covers, sel)
}

/// The covers of the rows of column `h` tried so far: cover `c` stands for
/// the rows `sel[c]`, which hold row `sets[tags[c]]`, one of the first `k`.
#[verifier::opaque]
pub open spec fn branches_apart(
    t0: DLXTable,
    h: int,
    sets: Seq<usize>,
    k: int,
    covers: Seq<Vec<Vec<usize>>>,
    sel: Seq<Set<int>>,
    tags: Seq<int>,
) -> bool {
    &&& rows_apart_by(t0, covers, sel)
    &&& tags.len() == covers.len()
    &&& forall|c: int|
        0 <= c < covers.len() ==> 0 <= #[trigger] tags[c] < k && sel[c].contains(sets[tags[c]] as int) && in_row(
            t0,
            sets[tags[c]] as int,
            h,
        )
}

/// The covers of a branch on row `sets[k]` of column `h`, added after those
/// of the rows before it, keep all covers apart.
#[verifier::spinoff_prover]
#[verifier::rlimit(30)]
proof fn lemma_branch_apart(
    t0: DLXTable,
    h: int,
    sets: Seq<usize>,
    k: int,
    bc: Seq<Vec<Vec<usize>>>,
    sel: Seq<Set<int>>,
    tags: Seq<int>,
    subsel: Seq<Set<int>>,
    covers: Seq<Vec<Vec<usize>>>,
) -> (r: (Seq<Set<int>>, Seq<int>))
    requires
        forall|i: int, j: int| 0 <= i < j < sets.len() ==> sets[i] < sets[j],
        0 <= k < sets.len(),
        in_row(t0, sets[k] as int, h),
        branches_apart(t0, h, sets, k, bc, sel, tags),
        covers.len() == bc.len() + subsel.len(),
        forall|c: int| 0 <= c < bc.len() ==> #[trigger] covers[c] == bc[c],
        forall|j: int|
            0 <= j < subsel.len() ==> #[trigger] exact_rows(t0, subsel[j].insert(sets[k] as int)) && lists_rows(
                t0,
                covers[bc.len() + j]@,
                subsel[j].insert(sets[k] as int),
            ) && !subsel[j].contains(sets[k] as int),
        forall|j1: int, j2: int| 0 <= j1 < j2 < subsel.len() ==> #[trigger] subsel[j1] != #[trigger] subsel[j2],
    ensures
        branches_apart(t0, h, sets, k + 1, covers, r.0, r.1),
{
    reveal(branches_apart);
    reveal(rows_apart_by);
    let s = sets[k] as int;
    let sel2 = sel + Seq::new(subsel.len(), |j: int| subsel[j].insert(s));
    let tags2 = tags + Seq::new(subsel.len(), |j: int| k);
    assert forall|c: int| 0 <= c < covers.len() implies #[trigger] exact_rows(t0, sel2[c]) && lists_rows(t0, covers[c]@, sel2[c]) by {
        if c < bc.len() {
            assert(covers[c] == bc[c] && sel2[c] == sel[c]);
        } else {
            let j = c - bc.len();
            assert(sel2[c] == subsel[j].insert(s));
            assert(exact_rows(t0, subsel[j].insert(s)));
        }
    }
    assert forall|c: int| 0 <= c < covers.len() implies 0 <= #[trigger] tags2[c] < k + 1 && sel2[c].contains(sets[tags2[c]] as int)
        && in_row(t0, sets[tags2[c]] as int, h) by {
        if c < bc.len() {
            assert(tags2[c] == tags[c] && sel2[c] == sel[c]);
        } else {
            let j = c - bc.len();
            assert(tags2[c] == k && sel2[c] == subsel[j].insert(s));
        }
    }
    assert forall|c1: int, c2: int| 0 <= c1 < c2 < covers.len() implies #[trigger] sel2[c1] != #[trigger] sel2[c2] by {
        if c2 < bc.len() {
            assert(sel2[c1] == sel[c1] && sel2[c2] == sel[c2]);
        } else if c1 < bc.len() {
            let j2 = c2 - bc.len();
            assert(sel2[c1] == sel[c1]);
            assert(sel2[c2] == subsel[j2].insert(s));
            let j = tags[c1];
            assert(sel[c1].contains(sets[j] as int) && in_row(t0, sets[j] as int, h));
            if sel2[c1] == sel2[c2] {
                assert(exact_rows(t0, sel2[c2]));
                reveal(exact_rows);
                assert(sel2[c2].contains(s));
                assert(sets[j] as int == s);
                assert(sets[j] < sets[k]);
            }
        } else {
            let j1 = c1 - bc.len();
            let j2 = c2 - bc.len();
            assert(sel2[c1] == subsel[j1].insert(s));
            assert(sel2[c2] == subsel[j2].insert(s));
            assert(exact_rows(t0, subsel[j1].insert(s)));
            assert(exact_rows(t0, subsel[j2].insert(s)));
            assert(subsel[j1] =~= subsel[j1].insert(s).remove(s));
            assert(subsel[j2] =~= subsel[j2].insert(s).remove(s));
        }
    }
    (sel2, tags2)
}

/// A cover of the smaller table standing for `rows`, with row `s` added,
/// stands for `rows` and `s`, an exact cover of the table before.
proof fn lemma_extend_rows(t0: DLXTable, t2: DLXTable, s: int, sub: Seq<Vec<usize>>, v: Vec<usize>, out: Seq<Vec<usize>>, rows: Set<int>)
    requires
        t0.wf_layout(),
        t2.wf_layout(),
        rows_active(t2),
        live(t0, s),
        lists_row(t0, v@, s),
        row_covered(t0, t2, s),
        valid_cover(t2, sub),
        out.to_multiset() == sub.push(v).to_multiset(),
        exact_rows(t2, rows),
        lists_rows(t2, sub, rows),
    ensures
        !rows.contains(s),
        exact_rows(t0, rows.insert(s)),
        lists_rows(t0, out, rows.insert(s)),
{
    lemma_exact_extend(t0, t2, s, rows);
    lemma_extend(t0, t2, s, sub, v, out);
    assert(rows.insert(s).remove(s) =~= rows);
    assert(rows.insert(s).finite()) by {
        reveal(exact_rows);
    }
}

/// With nothing listed, the empty cover is apart from nothing.
proof fn lemma_one_empty_apart(t0: DLXTable, r: Seq<Vec<Vec<usize>>>)
    requires
        t0.active() == Set::<int>::empty(),
        r.len() == 1,
        r[0]@.len() == 0,
    ensures
        covers_apart(t0, r),
{
    reveal(rows_apart_by);
    reveal(exact_rows);
    reveal(lists_rows);
    let sel = seq![Set::<int>::empty()];
    assert(exact_rows(t0, sel[0]));
    assert(lists_rows(t0, r[0]@, sel[0]));
    assert(rows_apart_by(t0, r, sel));
}

/// No covers are apart.
proof fn lemma_none_apart(t0: DLXTable, r: Seq<Vec<Vec<usize>>>)
    requires
        r.len() == 0,
    ensures
        covers_apart(t0, r),
{
    reveal(rows_apart_by);
    assert(rows_apart_by(t0, r, Seq::empty()));
}

/// Covers in another order, each standing for the rows it stood for, are
/// still apart.
proof fn lemma_apart_permuted(t: DLXTable, covers: Seq<Vec<Vec<usize>>>, unsorted: Seq<Vec<Vec<usize>>>, sel: Seq<Set<int>>)
    requires
        rows_apart_by(t, unsorted, sel),
        exists|places: Seq<int>| #[trigger] permutes(covers, unsorted, places),
    ensures
        covers_apart(t, covers),
{
    reveal(rows_apart_by);
    reveal(permutes);
    let places = choose|places: Seq<int>| #[trigger] permutes(covers, unsorted, places);
    let sel2 = Seq::new(covers.len(), |i: int| sel[places[i]]);
    assert forall|c: int| 0 <= c < covers.len() implies #[trigger] exact_rows(t, sel2[c]) && lists_rows(t, covers[c]@, sel2[c]) by {
        assert(covers[c] == unsorted[places[c]]);
        assert(exact_rows(t, sel[places[c]]));
    }
    assert forall|c1: int, c2: int| 0 <= c1 < c2 < covers.len() implies #[trigger] sel2[c1] != #[trigger] sel2[c2] by {
        assert(places[c1] != places[c2]);
        if places[c1] < places[c2] {
            assert(sel[places[c1]] != sel[places[c2]]);
        } else {
            assert(sel[places[c2]] != sel[places[c1]]);
        }
    }
    assert(rows_apart_by(t, covers, sel2));
}

/// A cover of the smaller table with row `s` added, in any order, is an
/// exact cover of the table before, and lists each exact cover it came from
/// with `s` added.
proof fn lemma_extend(t0: DLXTable, t2: DLXTable, s: int, sub: Seq<Vec<usize>>, v: Vec<usize>, out: Seq<Vec<usize>>)
    requires
        t0.wf_layout(),
        t2.wf_layout(),
        rows_active(t2),
        live(t0, s),
        lists_row(t0, v@, s),
        row_covered(t0, t2, s),
        valid_cover(t2, sub),
        out.to_multiset() == sub.push(v).to_multiset(),
    ensures
        valid_cover(t0, out),
        forall|rows: Set<int>| rows.finite() && rows.contains(s) && #[trigger] lists_rows(t2, sub, rows.remove(s))
            ==> lists_rows(t0, out, rows),
{
    reveal(row_covered);
    lemma_sound_step(t0, t2, s, sub, v);
    lemma_valid_perm(t0, out, sub.push(v));
    assert forall|rows: Set<int>| rows.finite() && rows.contains(s) && #[trigger] lists_rows(t2, sub, rows.remove(s))
        implies lists_rows(t0, out, rows) by {
        lemma_lists_step(t0, t2, s, rows, sub, v);
        lemma_lists_perm(t0, out, sub.push(v), rows);
    }
}

/// Pushing a cover keeps what was found, and what the cover lists.
proof fn lemma_push_found(t: DLXTable, bc: Seq<Vec<Vec<usize>>>, x: Vec<Vec<usize>>, n: int)
    requires
        indices_below(bc, n),
        forall|c: int| 0 <= c < bc.len() ==> sorted_by_first(#[trigger] bc[c]@),
        forall|c: int| 0 <= c < bc.len() ==> valid_cover(t, #[trigger] bc[c]@),
        forall|i: int, q: int| 0 <= i < x@.len() && 0 <= q < x@[i]@.len() ==> x@[i]@[q] < n,
        sorted_by_first(x@),
        valid_cover(t, x@),
    ensures
        indices_below(bc.push(x), n),
        forall|c: int| 0 <= c < bc.push(x).len() ==> sorted_by_first(#[trigger] bc.push(x)[c]@),
        forall|c: int| 0 <= c < bc.push(x).len() ==> valid_cover(t, #[trigger] bc.push(x)[c]@),
        forall|rows: Set<int>| #[trigger] found(t, bc, rows) ==> found(t, bc.push(x), rows),
        forall|rows: Set<int>| #[trigger] lists_rows(t, x@, rows) ==> found(t, bc.push(x), rows),
{
    reveal(found);
    let cs = bc.push(x);
    assert forall|c: int, i: int, q: int| 0 <= c < cs.len() && 0 <= i < cs[c]@.len() && 0 <= q < cs[c]@[i]@.len()
        implies #[trigger] cs[c]@[i]@[q] < n by {
        if c < bc.len() {
            assert(cs[c] == bc[c]);
        }
    }
    assert forall|c: int| 0 <= c < cs.len() implies sorted_by_first(#[trigger] cs[c]@) by {
        if c < bc.len() {
            assert(cs[c] == bc[c]);
        }
    }
    assert forall|c: int| 0 <= c < cs.len() implies valid_cover(t, #[trigger] cs[c]@) by {
        if c < bc.len() {
            assert(cs[c] == bc[c]);
        }
    }
    assert forall|rows: Set<int>| #[trigger] found(t, bc, rows) implies found(t, cs, rows) by {
        let c = choose|c: int| 0 <= c < bc.len() && #[trigger] lists_rows(t, bc[c]@, rows);
        assert(cs[c] == bc[c]);
    }
    assert forall|rows: Set<int>| #[trigger] lists_rows(t, x@, rows) implies found(t, cs, rows) by {
        assert(cs[bc.len() as int] == x);
    }
}

/// Each exact cover of the table that uses row `s` is found once every
/// cover of the smaller table has been extended by `s`.
#[verifier::spinoff_prover]
#[verifier::rlimit(50)]
proof fn lemma_row_done(t0: DLXTable, t2: DLXTable, s: int, subs0: Seq<Vec<Vec<usize>>>, covers: Seq<Vec<Vec<usize>>>, rows: Set<int>)
    requires
        t0.wf_layout(),
        exact_rows(t0, rows),
        rows.contains(s),
        row_covered(t0, t2, s),
        forall|r: Set<int>| #[trigger] exact_rows(t2, r) ==> found(t2, subs0, r),
        forall|r: Set<int>, j: int|
            #![trigger found(t0, covers, r), subs0[j]]
            0 <= j < subs0.len() && r.finite() && r.contains(s) && lists_rows(t2, subs0[j]@, r.remove(s))
                ==> found(t0, covers, r),
    ensures
        found(t0, covers, rows),
{
    reveal(found);
    reveal(exact_rows);
    reveal(row_covered);
    lemma_exact_step(t0, t2, s, rows);
    assert(found(t2, subs0, rows.remove(s)));
    let c = choose|c: int| 0 <= c < subs0.len() && #[trigger] lists_rows(t2, subs0[c]@, rows.remove(s));
}

/// Every exact cover of the table has its row through column `h` among
/// `sets`.
proof fn lemma_rows_through(t0: DLXTable, h: int, sets: Seq<usize>)
    requires
        ready(t0),
        t0.active().contains(h),
        forall|x: usize| #![trigger sets.contains(x)] sets.contains(x) <==> t0.col_sets(h).contains(x as int),
    ensures
        forall|rows: Set<int>| #[trigger] exact_rows(t0, rows) ==> exists|j: int|
            0 <= j < sets.len() && rows.contains(#[trigger] sets[j] as int) && in_row(t0, sets[j] as int, h),
{
    assert forall|rows: Set<int>| #[trigger] exact_rows(t0, rows) implies exists|j: int|
        0 <= j < sets.len() && rows.contains(#[trigger] sets[j] as int) && in_row(t0, sets[j] as int, h) by {
        let s = lemma_row_in_sets(t0, h, rows);
        let x = s as usize;
        assert(x as int == s);
        assert(sets.contains(x));
        let j = choose|j: int| 0 <= j < sets.len() && sets[j] == x;
        assert(sets[j] as int == s);
    }
}

/// After all rows through column `h` were tried and the covers reordered,
/// every exact cover of the table is found.
proof fn lemma_all_found(t0: DLXTable, h: int, sets: Seq<usize>, unsorted: Seq<Vec<Vec<usize>>>, covers: Seq<Vec<Vec<usize>>>)
    requires
        forall|rows: Set<int>| #[trigger] exact_rows(t0, rows) ==> exists|j: int|
            0 <= j < sets.len() && rows.contains(#[trigger] sets[j] as int) && in_row(t0, sets[j] as int, h),
        covers.to_multiset() == unsorted.to_multiset(),
        forall|c: int| 0 <= c < unsorted.len() ==> valid_cover(t0, #[trigger] unsorted[c]@),
        forall|rows: Set<int>, j: int|
            #![trigger found(t0, unsorted, rows), sets[j]]
            0 <= j < sets.len() && exact_rows(t0, rows) && rows.contains(sets[j] as int) && in_row(t0, sets[j] as int, h)
                ==> found(t0, unsorted, rows),
    ensures
        forall|c: int| 0 <= c < covers.len() ==> valid_cover(t0, #[trigger] covers[c]@),
        forall|rows: Set<int>| #[trigger] exact_rows(t0, rows) ==> found(t0, covers, rows),
{
    assert forall|c: int| 0 <= c < covers.len() implies valid_cover(t0, #[trigger] covers[c]@) by {
        lemma_mset_has(covers, unsorted, c);
    }
    assert forall|rows: Set<int>| #[trigger] exact_rows(t0, rows) implies found(t0, covers, rows) by {
        let j = choose|j: int| 0 <= j < sets.len() && rows.contains(#[trigger] sets[j] as int) && in_row(t0, sets[j] as int, h);
        lemma_found_of(t0, h, sets, unsorted, covers, rows, j);
    }
}

/// The row of an exact cover through column `h` has a node in that column.
proof fn lemma_row_in_sets(t0: DLXTable, h: int, rows: Set<int>) -> (s: int)
    requires
        ready(t0),
        t0.active().contains(h),
        exact_rows(t0, rows),
    ensures
        0 <= s < t0.sets_count(),
        s < usize::MAX,
        rows.contains(s),
        in_row(t0, s, h),
        t0.col_sets(h).contains(s),
{
    reveal(ready);
    lemma_row_of_column(t0, h, rows);
    let s = choose|s: int| #[trigger] rows.contains(s) && in_row(t0, s, h) && t0.col_sets(h).contains(s);
    lemma_col_sets_bound(t0, h);
    lemma_head_bound(t0, s);
    t0.lemma_row_layout(s);
    s
}

/// Row `s` starts after `s` nodes.
proof fn lemma_head_bound(t: DLXTable, s: int)
    requires
        t.wf_layout(),
        0 <= s < t.sets_count(),
    ensures
        t.head_of(s) >= s + 1,
    decreases s,
{
    if s > 0 {
        lemma_head_bound(t, s - 1);
        assert(t.head_of(s - 1) < t.head_of(s));
    }
}

/// An exact cover of the table is found among the reordered covers.
proof fn lemma_found_of(t0: DLXTable, h: int, sets: Seq<usize>, unsorted: Seq<Vec<Vec<usize>>>, covers: Seq<Vec<Vec<usize>>>, rows: Set<int>, j: int)
    requires
        0 <= j < sets.len(),
        rows.contains(sets[j] as int),
        in_row(t0, sets[j] as int, h),
        exact_rows(t0, rows),
        covers.to_multiset() == unsorted.to_multiset(),
        forall|rows: Set<int>, j: int|
            #![trigger found(t0, unsorted, rows), sets[j]]
            0 <= j < sets.len() && exact_rows(t0, rows) && rows.contains(sets[j] as int) && in_row(t0, sets[j] as int, h)
                ==> found(t0, unsorted, rows),
    ensures
        found(t0, covers, rows),
{
    assert(found(t0, unsorted, rows));
    reveal(found);
    let c = choose|c: int| 0 <= c < unsorted.len() && #[trigger] lists_rows(t0, unsorted[c]@, rows);
    lemma_mset_has(unsorted, covers, c);
    let c2 = choose|c2: int| 0 <= c2 < covers.len() && covers[c2] == unsorted[c];
    assert(lists_rows(t0, covers[c2]@, rows));
}

// ---------------------------------------------------------------------
// The search
// ---------------------------------------------------------------------

/// Every row with a node in a listed column has all its columns listed.
pub open spec fn rows_active(t: DLXTable) -> bool {
    forall|h: int, z: int, x: int|
        #![trigger t.col(h).contains(z), t.nodes@[x]]
        t.active().contains(h) && t.col(h).contains(z) && t.is_item(x) && t.set_of(x) == t.set_of(z)
            ==> t.active().contains(t.hdr(x))
}

pub(crate) proof fn lemma_same_active(a: DLXTable, b: DLXTable)
    requires
        a.same(b),
    ensures
        a.active() == b.active(),
        forall|h: int| #[trigger] b.col(h) == a.col(h),
{
    reveal(DLXTable::linked);
    reveal(DLXTable::hlinked);
    assert forall|h: int| #[trigger] b.col(h) == a.col(h) by {
        assert(a.col(h) =~= b.col(h));
    }
    assert(a.active() =~= b.active());
}

pub(crate) proof fn lemma_rows_active_same(a: DLXTable, b: DLXTable)
    requires
        rows_active(a),
        a.same(b),
    ensures
        rows_active(b),
{
    lemma_same_active(a, b);
    assert forall|h: int, z: int, x: int|
        #![trigger b.col(h).contains(z), b.nodes@[x]]
        b.active().contains(h) && b.col(h).contains(z) && b.is_item(x) && b.set_of(x) == b.set_of(z)
            implies b.active().contains(b.hdr(x)) by {
        assert(a.col(h).contains(z));
        assert(a.nodes@[x] == b.nodes@[x]);
    }
}

/// Covering a listed column keeps every row with a node in a listed column
/// complete in its columns' listing.
pub(crate) proof fn lemma_rows_active_cover(t0: DLXTable, t1: DLXTable, h: int)
    requires
        uncover_pre(t0, t1, h),
        rows_active(t0),
    ensures
        rows_active(t1),
{
    reveal(uncover_pre);
    lemma_cover_facts(t0, h);
    crate::dlx_table::lemma_hfacts(t0, h);
    lemma_taken_all(t0, h);
    lemma_removed_vertical(t0, t1, h, t0.n());
    lemma_removed_horizontal(t0, t1, h);
    assert forall|g: int, z: int, x: int|
        #![trigger t1.col(g).contains(z), t1.nodes@[x]]
        t1.active().contains(g) && t1.col(g).contains(z) && t1.is_item(x) && t1.set_of(x) == t1.set_of(z)
            implies t1.active().contains(t1.hdr(x)) by {
        assert(t0.col(g).contains(z));
        assert(!t0.cover_set(h).contains(z));
        assert(t0.active().contains(g));
        assert(t1.nodes@[x].set == t0.nodes@[x].set && t1.nodes@[x].header == t0.nodes@[x].header);
        assert(t1.nodes@[z].set == t0.nodes@[z].set && t1.nodes@[z].header == t0.nodes@[z].header);
        assert(t0.is_item(x) && t0.set_of(x) == t0.set_of(z));
        assert(t0.active().contains(t0.hdr(x)));
        if t0.hdr(x) == h {
            assert(t0.col(t0.hdr(x)).contains(x));
            reveal(DLXTable::col_sets);
            reveal(DLXTable::cover_set);
            assert(t0.col_sets(h).contains(t0.set_of(x)));
            assert(t0.is_item(z));
            assert(t0.hdr(z) == g);
            assert(g != h);
            assert(t0.cover_set(h).contains(z));
        }
    }
}

/// Along a run of covers of a row, every table has its rows complete.
pub(crate) proof fn lemma_rows_active_chain(ts: Seq<DLXTable>, s: int, h: int, m: int, j: int)
    requires
        row_chain_upto(ts, s, h, m),
        0 <= j <= m,
        rows_active(ts[0]),
    ensures
        rows_active(ts[j]),
    decreases j,
{
    if j > 0 {
        lemma_rows_active_chain(ts, s, h, m, j - 1);
        lemma_chain_at(ts, s, h, m, j - 1);
        let g = ts[0].hdr(ts[0].head_of(s) + j - 1);
        if g == h {
            lemma_rows_active_same(ts[j - 1], ts[j]);
        } else {
            lemma_rows_active_cover(ts[j - 1], ts[j], g);
        }
    }
}

/// A sequence with the multiset of another keeps what holds of all of the
/// other's index sets.
proof fn lemma_mset_keeps(a: Seq<Vec<usize>>, b: Seq<Vec<usize>>, n: int)
    requires
        a.to_multiset() == b.to_multiset(),
        forall|s: int, q: int| 0 <= s < b.len() && 0 <= q < b[s]@.len() ==> b[s]@[q] < n,
    ensures
        forall|s: int, q: int| 0 <= s < a.len() && 0 <= q < a[s]@.len() ==> a[s]@[q] < n,
{
    assert forall|s: int, q: int| 0 <= s < a.len() && 0 <= q < a[s]@.len() implies a[s]@[q] < n by {
        a.to_multiset_ensures();
        b.to_multiset_ensures();
        assert(a.contains(a[s]));
        assert(a.to_multiset().count(a[s]) > 0);
        assert(b.to_multiset().count(a[s]) > 0);
        assert(b.contains(a[s]));
        let t = choose|t: int| 0 <= t < b.len() && b[t] == a[s];
        assert(b[t]@[q] < n);
    }
}

proof fn lemma_mset_keeps_covers(a: Seq<Vec<Vec<usize>>>, b: Seq<Vec<Vec<usize>>>, n: int)
    requires
        a.to_multiset() == b.to_multiset(),
        indices_below(b, n),
        forall|c: int| 0 <= c < b.len() ==> sorted_by_first(#[trigger] b[c]@),
    ensures
        indices_below(a, n),
        forall|c: int| 0 <= c < a.len() ==> sorted_by_first(#[trigger] a[c]@),
{
    a.to_multiset_ensures();
    b.to_multiset_ensures();
    assert forall|c: int| 0 <= c < a.len() implies exists|t: int| 0 <= t < b.len() && b[t] == #[trigger] a[c] by {
        assert(a.contains(a[c]));
        assert(a.to_multiset().count(a[c]) > 0);
        assert(b.to_multiset().count(a[c]) > 0);
        assert(b.contains(a[c]));
    }
    assert forall|c: int, s: int, q: int| 0 <= c < a.len() && 0 <= s < a[c]@.len() && 0 <= q < a[c]@[s]@.len()
        implies #[trigger] a[c]@[s]@[q] < n by {
        let t = choose|t: int| 0 <= t < b.len() && b[t] == a[c];
        assert(b[t]@[s]@[q] < n);
    }
    assert forall|c: int| 0 <= c < a.len() implies sorted_by_first(#[trigger] a[c]@) by {
        let t = choose|t: int| 0 <= t < b.len() && b[t] == a[c];
        assert(sorted_by_first(b[t]@));
    }
}

/// The elements of a row are below the number of elements.
proof fn lemma_row_elements_below(t: DLXTable, s: int, r: Seq<usize>)
    requires
        t.wf_layout(),
        0 <= s < t.sets_count() ==> r.to_multiset() == t.row_elements(s).to_multiset(),
        s >= t.sets_count() ==> r.len() == 0,
        0 <= s,
    ensures
        forall|q: int| 0 <= q < r.len() ==> r[q] < t.ec(),
{
    if s < t.sets_count() {
        t.lemma_row_layout(s);
        assert forall|q: int| 0 <= q < r.len() implies r[q] < t.ec() by {
            r.to_multiset_ensures();
            t.row_elements(s).to_multiset_ensures();
            assert(r.contains(r[q]));
            assert(r.to_multiset().count(r[q]) > 0);
            assert(t.row_elements(s).to_multiset().count(r[q]) > 0);
            assert(t.row_elements(s).contains(r[q]));
            let k = choose|k: int| 0 <= k < t.row_elements(s).len() && t.row_elements(s)[k] == r[q];
            let x = t.head_of(s) + k;
            assert(t.is_item(x));
            assert(t.nodes@[x].set is Some);
        }
    }
}

/// Every other column of a row through covered column `h` is still
/// listed, so covering the row can go ahead.
pub(crate) proof fn lemma_cover_row_ready(t0: DLXTable, t1: DLXTable, t: DLXTable, h: int, s: int)
    requires
        uncover_pre(t0, t1, h),
        rows_active(t0),
        t0.active().contains(h),
        t1.active() == t0.active().remove(h),
        forall|g: int| #[trigger] t1.col(g) == t0.col(g).difference(t0.cover_set(h)),
        t1.col_sets(h).contains(s),
        t.same(t1),
        t.active() == t1.active(),
        ready(t1),
    ensures
        0 <= s < t.sets_count() ==> forall|x: int|
            t.head_of(s) <= x < t.end_of(s) && t.hdr(x) != h ==> t.active().contains(#[trigger] t.hdr(x)),
{
    reveal(DLXTable::col_sets);
    reveal(ready);
    let z = choose|z: int| #[trigger] t1.col(h).contains(z) && t1.set_of(z) == s;
    assert(t0.col(h).contains(z));
    crate::dlx_table::lemma_uncover_pre(t0, t1, h);
    if 0 <= s < t.sets_count() {
        t1.lemma_row_layout(s);
        assert forall|x: int| t.head_of(s) <= x < t.end_of(s) && t.hdr(x) != h implies t.active().contains(#[trigger] t.hdr(x)) by {
            assert(t1.nodes@[x] == t.nodes@[x]);
            assert(t1.is_item(x) && t1.set_of(x) == s);
            assert(t0.nodes@[x].set == t1.nodes@[x].set && t0.nodes@[x].header == t1.nodes@[x].header) by {
                reveal(uncover_pre);
            }
            assert(t0.nodes@[z].set == t1.nodes@[z].set) by {
                reveal(uncover_pre);
            }
            assert(t0.is_item(x));
            assert(t0.active().contains(t0.hdr(x)));
        }
    }
}

/// The listed columns lie among the headers, so there are finitely many.
pub(crate) proof fn lemma_active_finite(t: DLXTable)
    ensures
        t.active().finite(),
        t.active().len() <= t.ec() + 1,
{
    let r = vstd::set_lib::set_int_range(0, t.ec() + 1);
    vstd::set_lib::lemma_int_range(0, t.ec() + 1);
    assert(t.active().subset_of(r));
    vstd::set_lib::lemma_len_subset(t.active(), r);
}

/// Some listed column has a node.
#[verifier::spinoff_prover]
#[verifier::rlimit(30)]
fn has_sets(table: &DLXTable, elements: &Vec<usize>) -> (r: bool)
    requires
        table.wf(),
        forall|k: int| 0 <= k < elements@.len() ==> (#[trigger] elements@[k]) < table.element_count,
    ensures
        r == exists|k: int| 0 <= k < elements@.len() && table.col(elements@[k] + 1).len() > 0,
{
    let mut k: usize = 0;
    while k < elements.len()
        invariant
            table.wf(),
            k <= elements@.len(),
            forall|j: int| 0 <= j < elements@.len() ==> (#[trigger] elements@[j]) < table.element_count,
            forall|j: int| 0 <= j < k ==> table.col(#[trigger] elements@[j] + 1).len() == 0,
        decreases elements@.len() - k,
    {
        if table.element_sets_count(elements[k]) > 0 {
            return true;
        }
        k += 1;
    }
    false
}

/// The listed element whose column has the fewest nodes; the first one
/// among equals.
#[verifier::spinoff_prover]
#[verifier::rlimit(30)]
fn mrv(table: &DLXTable, elements: &Vec<usize>) -> (e: usize)
    requires
        table.wf(),
        elements@.len() > 0,
        forall|k: int| 0 <= k < elements@.len() ==> (#[trigger] elements@[k]) < table.element_count,
    ensures
        elements@.contains(e),
        forall|k: int| 0 <= k < elements@.len() ==> table.col(e + 1).len() <= table.col(#[trigger] elements@[k] + 1).len(),
{
    let mut best = elements[0];
    let mut best_count = table.element_sets_count(best);
    let mut k: usize = 1;
    while k < elements.len()
        invariant
            table.wf(),
            1 <= k <= elements@.len(),
            forall|j: int| 0 <= j < elements@.len() ==> (#[trigger] elements@[j]) < table.element_count,
            elements@.contains(best),
            best < table.element_count,
            best_count == table.col(best + 1).len(),
            forall|j: int| 0 <= j < k ==> best_count <= table.col(#[trigger] elements@[j] + 1).len(),
        decreases elements@.len() - k,
    {
        let c = table.element_sets_count(elements[k]);
        if c < best_count {
            best = elements[k];
            best_count = c;
        }
        k += 1;
    }
    best
}

/// Every index of every set of every cover is below `n`.
pub open spec fn indices_below(covers: Seq<Vec<Vec<usize>>>, n: int) -> bool {
    forall|c: int, s: int, k: int| 0 <= c < covers.len() && 0 <= s < covers[c]@.len() && 0 <= k < covers[c]@[s]@.len()
        ==> #[trigger] covers[c]@[s]@[k] < n
}

/// With no listed element, the empty cover is the one exact cover.
proof fn lemma_no_active(t0: DLXTable, r: Seq<Vec<Vec<usize>>>)
    requires
        t0.active() == Set::<int>::empty(),
        r.len() == 1,
        r[0]@.len() == 0,
    ensures
        valid_cover(t0, r[0]@),
        forall|rows: Set<int>| #[trigger] exact_rows(t0, rows) ==> found(t0, r, rows),
{
    reveal(valid_cover);
    reveal(exact_rows);
    reveal(lists_rows);
    reveal(found);
    assert forall|rows: Set<int>| #[trigger] exact_rows(t0, rows) implies found(t0, r, rows) by {
        assert forall|s: int| !#[trigger] rows.contains(s) by {
            if rows.contains(s) {
                assert(live(t0, s));
            }
        }
        assert(rows =~= Set::<int>::empty());
        assert(lists_rows(t0, r[0]@, rows));
    }
}

/// With every listed column empty, no rows make an exact cover.
proof fn lemma_no_rows(t0: DLXTable)
    requires
        t0.wf_layout(),
        t0.active().len() > 0,
        t0.active().finite(),
        forall|g: int| #[trigger] t0.active().contains(g) ==> t0.col(g).len() == 0,
    ensures
        forall|rows: Set<int>| !#[trigger] exact_rows(t0, rows),
{
    reveal(exact_rows);
    let h = t0.active().choose();
    assert(t0.active().contains(h));
    assert forall|rows: Set<int>| !#[trigger] exact_rows(t0, rows) by {
        if exact_rows(t0, rows) {
            let s = choose|s: int| rows.contains(s) && #[trigger] in_row(t0, s, h);
            let z = choose|z: int| #[trigger] t0.col(t0.hdr(z)).contains(z) && t0.active().contains(t0.hdr(z)) && t0.set_of(z) == s;
            let g = t0.hdr(z);
            t0.lemma_col_sub(g);
            assert(t0.col(g).remove(z).len() + 1 == t0.col(g).len());
        }
    }
}

/// Adds to `covers` each cover of `subcovers` with row `set_index` added,
/// its sets ordered by first element.
#[verifier::spinoff_prover]
#[verifier::rlimit(40)]
fn add_row_covers(
    covers: &mut Vec<Vec<Vec<usize>>>,
    subcovers: Vec<Vec<Vec<usize>>>,
    table: &DLXTable,
    set_index: usize,
    Ghost(t0): Ghost<DLXTable>,
    Ghost(t2): Ghost<DLXTable>,
    Ghost(subsel): Ghost<Seq<Set<int>>>,
)
    requires
        rows_apart_by(t2, subcovers@, subsel),
        table.same(t2),
        ready(t2),
        ready(t0),
        rows_active(t2),
        t2.ec() == t0.ec(),
        indices_below(subcovers@, t0.ec()),
        forall|c: int| 0 <= c < subcovers@.len() ==> valid_cover(t2, #[trigger] subcovers@[c]@),
        set_index < t0.sets_count(),
        live(t0, set_index as int),
        row_covered(t0, t2, set_index as int),
        forall|c: int| 0 <= c < old(covers)@.len() ==> sorted_by_first(#[trigger] old(covers)@[c]@),
        indices_below(old(covers)@, t0.ec()),
        forall|c: int| 0 <= c < old(covers)@.len() ==> valid_cover(t0, #[trigger] old(covers)@[c]@),
    ensures
        forall|c: int| 0 <= c < final(covers)@.len() ==> sorted_by_first(#[trigger] final(covers)@[c]@),
        indices_below(final(covers)@, t0.ec()),
        forall|c: int| 0 <= c < final(covers)@.len() ==> valid_cover(t0, #[trigger] final(covers)@[c]@),
        forall|rows: Set<int>| #[trigger] found(t0, old(covers)@, rows) ==> found(t0, final(covers)@, rows),
        forall|rows: Set<int>, j: int|
            #![trigger found(t0, final(covers)@, rows), subcovers@[j]]
            0 <= j < subcovers@.len() && rows.finite() && rows.contains(set_index as int)
                && lists_rows(t2, subcovers@[j]@, rows.remove(set_index as int)) ==> found(t0, final(covers)@, rows),
        final(covers)@.len() == old(covers)@.len() + subcovers@.len(),
        forall|c: int| 0 <= c < old(covers)@.len() ==> #[trigger] final(covers)@[c] == old(covers)@[c],
        forall|j: int|
            0 <= j < subcovers@.len() ==> #[trigger] exact_rows(t0, subsel[j].insert(set_index as int)) && lists_rows(
                t0,
                final(covers)@[old(covers)@.len() + j]@,
                subsel[j].insert(set_index as int),
            ) && !subsel[j].contains(set_index as int),
{
    let ghost s = set_index as int;
    let ghost subs0 = subcovers@;
    let ghost c0 = covers@;
    let mut subcovers = subcovers;
    let ghost mut used: int = 0;
    proof {
        lemma_ready_same(t2, *table);
    }
    assert(table.wf_layout() && t0.wf_layout() && t2.wf_layout()) by {
        reveal(ready);
    }
    while subcovers.len() > 0
        invariant
            table.same(t2),
            table.wf_layout(),
            ready(t2),
            ready(t0),
            rows_active(t2),
            t2.wf_layout(),
            t0.wf_layout(),
            0 <= used <= subs0.len(),
            subcovers@ == subs0.subrange(used, subs0.len() as int),
            indices_below(subs0, t0.ec()),
            forall|c: int| 0 <= c < subs0.len() ==> valid_cover(t2, #[trigger] subs0[c]@),
            0 <= s < t0.sets_count(),
            s == set_index as int,
            live(t0, s),
            row_covered(t0, t2, s),
            forall|c: int| 0 <= c < covers@.len() ==> sorted_by_first(#[trigger] covers@[c]@),
            indices_below(covers@, t0.ec()),
            forall|c: int| 0 <= c < covers@.len() ==> valid_cover(t0, #[trigger] covers@[c]@),
            forall|rows: Set<int>| #[trigger] found(t0, c0, rows) ==> found(t0, covers@, rows),
            forall|rows: Set<int>, j: int|
                #![trigger found(t0, covers@, rows), subs0[j]]
                0 <= j < used && rows.finite() && rows.contains(s) && lists_rows(t2, subs0[j]@, rows.remove(s))
                    ==> found(t0, covers@, rows),
            rows_apart_by(t2, subs0, subsel),
            covers@.len() == c0.len() + used,
            forall|c: int| 0 <= c < c0.len() ==> #[trigger] covers@[c] == c0[c],
            forall|j: int|
                0 <= j < used ==> #[trigger] exact_rows(t0, subsel[j].insert(s)) && lists_rows(t0, covers@[c0.len() + j]@, subsel[j].insert(s))
                    && !subsel[j].contains(s),
        decreases subcovers@.len(),
    {
        let mut subcover = subcovers.remove(0);
        proof {
            assert(subcovers@ =~= subs0.subrange(used + 1, subs0.len() as int));
            assert(subcover == subs0[used]);
        }
        let set_row = table.set_elements(set_index);
        proof {
            lemma_row_elements_below(*table, s, set_row@);
            reveal(row_covered);
            lemma_same_rows_in_row(t0, t2, s);
            assert(table.row_elements(s) == t2.row_elements(s));
            assert(lists_row(t0, set_row@, s));
        }
        let ghost unsorted = subcover@.push(set_row);
        subcover.push(set_row);
        sort_by_first(&mut subcover);
        proof {
            assert forall|i: int, q: int| 0 <= i < unsorted.len() && 0 <= q < unsorted[i]@.len() implies unsorted[i]@[q] < t0.ec() by {
                if i < subs0[used]@.len() {
                    assert(unsorted[i] == subs0[used]@[i]);
                    assert(subs0[used]@[i]@[q] < t0.ec());
                }
            }
            lemma_mset_keeps(subcover@, unsorted, t0.ec());
            assert(valid_cover(t2, subs0[used]@));
            lemma_extend(t0, t2, s, subs0[used]@, set_row, subcover@);
            assert(used < subs0.len());
            assert(exact_rows(t2, subsel[used]) && lists_rows(t2, subs0[used]@, subsel[used])) by {
                assert(rows_apart_by(t2, subs0, subsel));
                reveal(rows_apart_by);
                assert(subsel.len() == subs0.len());
                assert(0 <= used < subs0.len());
                assert(exact_rows(t2, subsel[used]));
            }
            lemma_extend_rows(t0, t2, s, subs0[used]@, set_row, subcover@, subsel[used]);
        }
        let ghost bc = covers@;
        covers.push(subcover);
        proof {
            lemma_push_found(t0, bc, subcover, t0.ec());
            assert forall|rows: Set<int>, j: int|
                #![trigger found(t0, covers@, rows), subs0[j]]
                0 <= j < used + 1 && rows.finite() && rows.contains(s) && lists_rows(t2, subs0[j]@, rows.remove(s))
                    implies found(t0, covers@, rows) by {
                if j == used {
                    assert(lists_rows(t0, subcover@, rows));
                } else {
                    assert(found(t0, bc, rows));
                }
            }
            assert forall|c: int| 0 <= c < c0.len() implies #[trigger] covers@[c] == c0[c] by {
                assert(covers@[c] == bc[c]);
            }
            assert forall|j: int| 0 <= j < used + 1 implies #[trigger] exact_rows(t0, subsel[j].insert(s)) && lists_rows(
                t0,
                covers@[c0.len() + j]@,
                subsel[j].insert(s),
            ) && !subsel[j].contains(s) by {
                if j < used {
                    assert(covers@[c0.len() + j] == bc[c0.len() + j]);
                } else {
                    assert(covers@[c0.len() + j] == subcover);
                }
            }
            used = used + 1;
        }
    }
}

/// All exact covers of the listed elements by the rows of the table, by
/// dancing links: with no listed element the empty cover is the one cover;
/// otherwise the column with the fewest nodes is covered and each of its
/// rows is tried in turn.  Every cover returned is an exact cover of the
/// listed elements, and every exact cover by the rows is returned.  Each
/// cover lists its rows' elements, rows ordered by first element, and the
/// covers come in lexicographic order.  The table is given back as it was.
#[verifier::spinoff_prover]
#[verifier::rlimit(100)]
pub fn dlx(table: &mut DLXTable) -> (r: Vec<Vec<Vec<usize>>>)
    requires
        ready(*old(table)),
        rows_active(*old(table)),
    ensures
        final(table).same(*old(table)),
        forall|c: int| 0 <= c < r@.len() ==> valid_cover(*old(table), #[trigger] r@[c]@),
        forall|rows: Set<int>| #[trigger] exact_rows(*old(table), rows) ==> found(*old(table), r@, rows),
        sorted_covers(r@),
        forall|c: int| 0 <= c < r@.len() ==> sorted_by_first(#[trigger] r@[c]@),
        indices_below(r@, old(table).ec()),
        old(table).active().len() == 0 ==> r@.len() == 1 && r@[0]@.len() == 0,
        covers_apart(*old(table), r@),
    decreases old(table).active().len(),
{
    let ghost t0 = *table;
    assert(table.wf() && table.full_rows()) by {
        reveal(ready);
    }
    let elements = table.elements();
    proof {
        lemma_active_finite(t0);
        assert forall|k: int| 0 <= k < elements@.len() implies (#[trigger] elements@[k]) < table.element_count by {
            assert(elements@.contains(elements@[k]));
        }
    }
    if elements.len() == 0 {
        let mut r: Vec<Vec<Vec<usize>>> = Vec::new();
        r.push(Vec::new());
        proof {
            assert forall|g: int| !#[trigger] t0.active().contains(g) by {
                if t0.active().contains(g) {
                    assert(elements@.contains((g - 1) as usize));
                }
            }
            assert(t0.active() =~= Set::<int>::empty());
            lemma_no_active(t0, r@);
            lemma_one_empty_apart(t0, r@);
        }
        return r;
    }
    proof {
        assert(t0.active().contains(elements@[0] + 1)) by {
            assert(elements@.contains(elements@[0]));
        }
        assert(t0.active().len() > 0);
    }
    if !has_sets(table, &elements) {
        proof {
            assert forall|g: int| #[trigger] t0.active().contains(g) implies t0.col(g).len() == 0 by {
                assert(elements@.contains((g - 1) as usize));
                let k = choose|k: int| 0 <= k < elements@.len() && elements@[k] == (g - 1) as usize;
                assert(t0.col(elements@[k] + 1).len() == 0);
            }
            lemma_no_rows(t0);
            lemma_none_apart(t0, Seq::empty());
        }
        return Vec::new();
    }
    let elem = mrv(table, &elements);
    let ghost h = elem + 1;
    assert(t0.active().contains(h));
    table.cover_element(elem);
    let ghost t1 = *table;
    proof {
        lemma_rows_active_cover(t0, t1, h);
        lemma_active_finite(t1);
        lemma_cover_step(t0, t1, h);
    }
    assert(ready(t1)) by {
        reveal(ready);
    }
    let sets = table.element_sets(elem);
    let mut covers: Vec<Vec<Vec<usize>>> = Vec::new();
    let ghost mut sel: Seq<Set<int>> = Seq::empty();
    let ghost mut tags: Seq<int> = Seq::empty();
    proof {
        reveal(branches_apart);
        reveal(rows_apart_by);
    }
    let mut k: usize = 0;
    while k < sets.len()
        invariant
            branches_apart(t0, h, sets@, k as int, covers@, sel, tags),
            forall|i: int, j: int| 0 <= i < j < sets@.len() ==> sets@[i] < sets@[j],
            table.same(t1),
            ready(t1),
            rows_active(t1),
            rows_active(t0),
            ready(t0),
            t0 == *old(table),
            uncover_pre(t0, t1, h),
            h == elem + 1,
            t1.active() == t0.active().remove(h),
            t0.active().contains(h),
            t0.active().finite(),
            t1.ec() == t0.ec(),
            same_layout(t0, t1),
            t0.col_sets(h) == t1.col_sets(h),
            forall|g: int| #[trigger] t1.col(g) == t0.col(g).difference(t0.cover_set(h)),
            forall|x: usize| sets@.contains(x) <==> elem < t1.element_count && t1.col_sets(h).contains(x as int),
            forall|c: int| 0 <= c < covers@.len() ==> sorted_by_first(#[trigger] covers@[c]@),
            indices_below(covers@, t0.ec()),
            forall|c: int| 0 <= c < covers@.len() ==> valid_cover(t0, #[trigger] covers@[c]@),
            forall|rows: Set<int>, j: int|
                #![trigger found(t0, covers@, rows), sets@[j]]
                0 <= j < k && exact_rows(t0, rows) && rows.contains(sets@[j] as int) && in_row(t0, sets@[j] as int, h)
                    ==> found(t0, covers@, rows),
        decreases sets@.len() - k,
    {
        let set_index = sets[k];
        let ghost s = set_index as int;
        proof {
            assert(sets@.contains(set_index));
            assert(t1.wf_layout()) by {
                reveal(ready);
            }
            crate::dlx_table::lemma_col_sets_bound(t1, h);
            lemma_ready_same(t1, *table);
            lemma_rows_active_same(t1, *table);
            lemma_same_active(t1, *table);
            lemma_cover_row_ready(t0, t1, *table, h, set_index as int);
        }
        let ghost before = *table;
        table.cover_row(elem, set_index);
        let ghost t2 = *table;
        proof {
            let ts = choose|ts: Seq<DLXTable>| #[trigger] row_cover_chain(ts, set_index as int, elem + 1) && ts[0] == before
                && ts.last() == t2;
            let m = ts[0].end_of(set_index as int) - ts[0].head_of(set_index as int);
            lemma_rows_active_same(t1, before);
            lemma_rows_active_chain(ts, set_index as int, h, m, m);
            lemma_chain_at(ts, set_index as int, h, m, m);
            lemma_same_active(t1, before);
            lemma_active_finite(t2);
            assert(t2.active().subset_of(t1.active()));
            vstd::set_lib::lemma_len_subset(t2.active(), t1.active());
            assert(t1.active().len() == t0.active().len() - 1);
            assert(t2.active().len() < t0.active().len());
            lemma_row_step(t0, t1, before, t2, h, s);
            assert(t0.wf_layout()) by {
                reveal(ready);
            }
            reveal(DLXTable::col_sets);
            let y = choose|y: int| #[trigger] t0.col(h).contains(y) && t0.set_of(y) == s;
            assert(t0.col(t0.hdr(y)).contains(y));
            assert(live(t0, s));
        }
        let subcovers = dlx(table);
        let ghost subs0 = subcovers@;
        let ghost bc = covers@;
        let ghost subsel = choose|subsel: Seq<Set<int>>| #[trigger] rows_apart_by(t2, subs0, subsel);
        proof {
            lemma_ready_same(t2, *table);
            lemma_rows_active_same(t2, *table);
        }
        add_row_covers(&mut covers, subcovers, table, set_index, Ghost(t0), Ghost(t2), Ghost(subsel));
        proof {
            assert(forall|j1: int, j2: int| 0 <= j1 < j2 < subsel.len() ==> #[trigger] subsel[j1] != #[trigger] subsel[j2]) by {
                reveal(rows_apart_by);
            }
            assert(subsel.len() == subs0.len()) by {
                reveal(rows_apart_by);
            }
            assert(in_row(t0, s, h));
            let r = lemma_branch_apart(t0, h, sets@, k as int, bc, sel, tags, subsel, covers@);
            sel = r.0;
            tags = r.1;
        }
        proof {
            assert forall|rows: Set<int>, j: int|
                #![trigger found(t0, covers@, rows), sets@[j]]
                0 <= j < k && exact_rows(t0, rows) && rows.contains(sets@[j] as int) && in_row(t0, sets@[j] as int, h)
                    implies found(t0, covers@, rows) by {
                assert(found(t0, bc, rows));
            }
        }
        proof {
            assert forall|rows: Set<int>, j: int|
                #![trigger found(t0, covers@, rows), sets@[j]]
                0 <= j < k + 1 && exact_rows(t0, rows) && rows.contains(sets@[j] as int) && in_row(t0, sets@[j] as int, h)
                    implies found(t0, covers@, rows) by {
                if j == k {
                    assert(t0.wf_layout()) by {
                        reveal(ready);
                    }
                    lemma_row_done(t0, t2, s, subs0, covers@, rows);
                }
            }
        }
        table.uncover_row(elem, set_index);
        k += 1;
    }
    proof {
        lemma_uncover_pre_same(t0, t1, *table, h);
    }
    table.uncover_element(elem);
    let ghost unsorted = covers@;
    sort_covers(&mut covers);
    proof {
        assert(rows_apart_by(t0, unsorted, sel)) by {
            reveal(branches_apart);
        }
        lemma_apart_permuted(t0, covers@, unsorted, sel);
        lemma_mset_keeps_covers(covers@, unsorted, t0.ec());
        assert(t0.wf_layout()) by {
            reveal(ready);
        }
        lemma_rows_through(t0, h, sets@);
        lemma_all_found(t0, h, sets@, unsorted, covers@);
    }
    covers
}

// ---------------------------------------------------------------------
// Named sets
// ---------------------------------------------------------------------

/// `t` is the table of the index sets `idx` over `n` elements, with every
/// header listed and every node in its column.
pub open spec fn table_of(t: DLXTable, idx: Seq<Vec<usize>>, n: int) -> bool {
    &&& t.wf_layout()
    &&& t.ec() == n
    &&& t.sets_count() == idx.len()
    &&& forall|s: int| 0 <= s < idx.len() ==> #[trigger] t.row_elements(s) == idx[s]@
    &&& forall|g: int| #[trigger] t.active().contains(g) <==> 1 <= g <= n
    &&& forall|z: int| t.is_item(z) ==> #[trigger] t.col(t.hdr(z)).contains(z)
}

/// A listing of row `s`, with names for indices, holds the names of the
/// set the row stands for.
proof fn lemma_row_names(
    sets: Seq<Vec<&str>>,
    names: Seq<String>,
    idx: Seq<Vec<usize>>,
    kept: Seq<usize>,
    t: DLXTable,
    v: Seq<usize>,
    w: Seq<String>,
    s: int,
)
    requires
        indexed(sets, names, idx, kept),
        table_of(t, idx, names.len() as int),
        lists_row(t, v, s),
        named(names, v, w),
    ensures
        0 <= s < kept.len(),
        same_names(w, sets[kept[s] as int]@),
{
    let set = sets[kept[s] as int]@;
    let row = idx[s]@;
    assert(t.row_elements(s) == row);
    v.to_multiset_ensures();
    row.to_multiset_ensures();
    assert(w.len() == set.len());
    assert forall|n: Seq<char>| #[trigger] has_name_s(w, n) == has_name(set, n) by {
        if has_name_s(w, n) {
            let k = choose|k: int| 0 <= k < w.len() && #[trigger] w[k]@ == n;
            let e = v[k];
            assert(v.contains(e));
            assert(v.to_multiset().count(e) > 0);
            assert(row.to_multiset().count(e) > 0);
            assert(row.contains(e));
            let q = choose|q: int| 0 <= q < row.len() && row[q] == e;
            assert(idx[s]@[q] == e);
            assert(set[q]@ == n);
        }
        if has_name(set, n) {
            let q = choose|q: int| 0 <= q < set.len() && #[trigger] set[q]@ == n;
            let e = row[q];
            assert(idx[s]@[q] == e);
            assert(row.contains(e));
            assert(row.to_multiset().count(e) > 0);
            assert(v.to_multiset().count(e) > 0);
            assert(v.contains(e));
            let k = choose|k: int| 0 <= k < v.len() && v[k] == e;
            assert(w[k]@ == n);
        }
    }
}

/// Each exact cover of the table, with names for indices, is an exact
/// cover of the names.
proof fn lemma_names_sound(
    sets: Seq<Vec<&str>>,
    names: Seq<String>,
    idx: Seq<Vec<usize>>,
    kept: Seq<usize>,
    t: DLXTable,
    c: Seq<Vec<usize>>,
    w: Seq<Vec<String>>,
)
    requires
        indexed(sets, names, idx, kept),
        table_of(t, idx, names.len() as int),
        valid_cover(t, c),
        named_cover(names, c, w),
    ensures
        names_cover(sets, w),
{
    reveal(valid_cover);
    assert forall|i: int| 0 <= i < w.len() implies #[trigger] names_a_set(sets, w[i]@) by {
        assert(lists_live_row(t, c[i]@));
        let s = choose|s: int| live(t, s) && #[trigger] lists_row(t, c[i]@, s);
        assert(named(names, c[i]@, w[i]@));
        lemma_row_names(sets, names, idx, kept, t, c[i]@, w[i]@, s);
        assert(same_names(w[i]@, sets[kept[s] as int]@));
    }
    assert forall|n: Seq<char>| #[trigger] name_in(sets, n) implies exists|i: int| 0 <= i < w.len() && #[trigger] has_name_s(w[i]@, n) by {
        let (j, q) = choose|j: int, q: int| 0 <= j < sets.len() && 0 <= q < sets[j]@.len() && #[trigger] sets[j]@[q]@ == n;
        assert(has_name_s(names, sets[j]@[q]@));
        let p = choose|p: int| 0 <= p < names.len() && #[trigger] names[p]@ == n;
        let e = p as usize;
        assert(e as int == p);
        assert(t.active().contains(e + 1));
        assert(exists|i: int| 0 <= i < c.len() && #[trigger] c[i]@.contains(e));
        let i = choose|i: int| 0 <= i < c.len() && #[trigger] c[i]@.contains(e);
        let k = choose|k: int| 0 <= k < c[i]@.len() && c[i]@[k] == e;
        assert(named(names, c[i]@, w[i]@));
        assert(w[i]@[k]@ == n);
        assert(has_name_s(w[i]@, n));
    }
    assert forall|i: int, i2: int, n: Seq<char>|
        0 <= i < w.len() && 0 <= i2 < w.len() && i != i2 && #[trigger] has_name_s(w[i]@, n) implies !#[trigger] has_name_s(w[i2]@, n) by {
        if has_name_s(w[i2]@, n) {
            assert(named(names, c[i]@, w[i]@));
            assert(named(names, c[i2]@, w[i2]@));
            let k = choose|k: int| 0 <= k < w[i]@.len() && #[trigger] w[i]@[k]@ == n;
            let k2 = choose|k2: int| 0 <= k2 < w[i2]@.len() && #[trigger] w[i2]@[k2]@ == n;
            let e = c[i]@[k];
            let e2 = c[i2]@[k2];
            assert(names[e as int]@ == names[e2 as int]@);
            assert(e == e2);
            assert(c[i]@.contains(e));
            assert(c[i2]@.contains(e));
        }
    }
}

/// The rows that stand for the sets at places `js`.
pub open spec fn rows_of(kept: Seq<usize>, js: Set<int>) -> Set<int> {
    Set::new(|s: int| 0 <= s < kept.len() && js.contains(kept[s] as int))
}

/// The rows of the sets of an exact cover each have a node in a listed
/// column.
proof fn lemma_names_live(
    sets: Seq<Vec<&str>>,
    names: Seq<String>,
    idx: Seq<Vec<usize>>,
    kept: Seq<usize>,
    t: DLXTable,
    js: Set<int>,
)
    requires
        indexed(sets, names, idx, kept),
        table_of(t, idx, names.len() as int),
        exact_sets(sets, js),
    ensures
        forall|s: int| #[trigger] rows_of(kept, js).contains(s) ==> live(t, s),
{
    let rs = rows_of(kept, js);
    assert forall|s: int| #[trigger] rs.contains(s) implies live(t, s) by {
        t.lemma_row_layout(s);
        let z = t.head_of(s);
        assert(t.row_elements(s) == idx[s]@);
        assert(t.is_item(z) && t.set_of(z) == s);
        assert(t.col(t.hdr(z)).contains(z));
        assert(t.nodes@[z].set is Some);
        assert(t.active().contains(t.hdr(z)));
    }
}

/// Each listed column has a node in the row of a set of an exact cover.
proof fn lemma_names_covered(
    sets: Seq<Vec<&str>>,
    names: Seq<String>,
    idx: Seq<Vec<usize>>,
    kept: Seq<usize>,
    t: DLXTable,
    js: Set<int>,
)
    requires
        indexed(sets, names, idx, kept),
        table_of(t, idx, names.len() as int),
        exact_sets(sets, js),
    ensures
        forall|g: int| #[trigger] t.active().contains(g) ==> exists|s: int| rows_of(kept, js).contains(s) && #[trigger] in_row(t, s, g),
{
    let rs = rows_of(kept, js);
    assert forall|g: int| #[trigger] t.active().contains(g) implies exists|s: int| rs.contains(s) && #[trigger] in_row(t, s, g) by {
        let p = g - 1;
        let n = names[p]@;
        assert(name_in(sets, n));
        let (j0, q0) = choose|j0: int, q0: int| 0 <= j0 < sets.len() && 0 <= q0 < sets[j0]@.len() && #[trigger] sets[j0]@[q0]@ == n;
        assert(has_name(sets[j0]@, n));
        let j2 = choose|j2: int| js.contains(j2) && #[trigger] has_name(sets[j2]@, n);
        assert(kept.contains(j2 as usize));
        let s2 = choose|s2: int| 0 <= s2 < kept.len() && kept[s2] == j2 as usize;
        assert(rs.contains(s2));
        let q2 = choose|q2: int| 0 <= q2 < sets[j2]@.len() && #[trigger] sets[j2]@[q2]@ == n;
        let e = idx[s2]@[q2];
        assert(names[e as int]@ == n);
        assert(e as int == p);
        t.lemma_row_layout(s2);
        assert(t.row_elements(s2) == idx[s2]@);
        let x = t.head_of(s2) + q2;
        assert(t.row_elements(s2)[q2] == (t.hdr(x) - 1) as usize);
        assert(t.nodes@[x].set is Some);
        assert(t.hdr(x) == g);
        assert(in_row(t, s2, g));
    }
}

/// No two rows of the sets of an exact cover share a column.
#[verifier::spinoff_prover]
#[verifier::rlimit(40)]
proof fn lemma_names_unique(
    sets: Seq<Vec<&str>>,
    names: Seq<String>,
    idx: Seq<Vec<usize>>,
    kept: Seq<usize>,
    t: DLXTable,
    js: Set<int>,
)
    requires
        indexed(sets, names, idx, kept),
        table_of(t, idx, names.len() as int),
        exact_sets(sets, js),
    ensures
        forall|s1: int, s2: int, g: int|
            rows_of(kept, js).contains(s1) && rows_of(kept, js).contains(s2) && #[trigger] in_row(t, s1, g)
                && #[trigger] in_row(t, s2, g) ==> s1 == s2,
{
    let rs = rows_of(kept, js);
    assert forall|s1: int, s2: int, g: int|
        rs.contains(s1) && rs.contains(s2) && #[trigger] in_row(t, s1, g) && #[trigger] in_row(t, s2, g) implies s1 == s2 by {
        let x1 = choose|x: int| t.head_of(s1) <= x < t.end_of(s1) && #[trigger] t.hdr(x) == g;
        let x2 = choose|x: int| t.head_of(s2) <= x < t.end_of(s2) && #[trigger] t.hdr(x) == g;
        t.lemma_row_layout(s1);
        t.lemma_row_layout(s2);
        assert(t.nodes@[x1].set is Some && t.nodes@[x2].set is Some);
        let q1 = x1 - t.head_of(s1);
        let q2 = x2 - t.head_of(s2);
        assert(t.row_elements(s1) == idx[s1]@);
        assert(t.row_elements(s2) == idx[s2]@);
        assert(t.row_elements(s1)[q1] == (g - 1) as usize);
        assert(t.row_elements(s2)[q2] == (g - 1) as usize);
        let n = names[g - 1]@;
        assert(sets[kept[s1] as int]@[q1]@ == n);
        assert(sets[kept[s2] as int]@[q2]@ == n);
        assert(has_name(sets[kept[s1] as int]@, n));
        assert(has_name(sets[kept[s2] as int]@, n));
        assert(kept[s1] == kept[s2]);
        if s1 < s2 {
            assert(kept[s1] < kept[s2]);
        } else if s2 < s1 {
            assert(kept[s2] < kept[s1]);
        }
    }
}

/// The places of the sets of rows `rows`.
pub open spec fn places_of(kept: Seq<usize>, rows: Set<int>) -> Set<int> {
    rows.map(|s: int| kept[s] as int)
}

/// A name of the sets is one of the names, at some place.
proof fn lemma_name_place(sets: Seq<Vec<&str>>, names: Seq<String>, n: Seq<char>) -> (p: int)
    requires
        names_of(sets, names),
        name_in(sets, n),
    ensures
        0 <= p < names.len(),
        names[p]@ == n,
{
    let (j, q) = choose|j: int, q: int| 0 <= j < sets.len() && 0 <= q < sets[j]@.len() && #[trigger] sets[j]@[q]@ == n;
    assert(has_name_s(names, sets[j]@[q]@));
    choose|p: int| 0 <= p < names.len() && #[trigger] names[p]@ == n
}

/// Row `s` of the table has a node in the column of name `p` exactly when
/// its set holds that name.
proof fn lemma_row_name(
    sets: Seq<Vec<&str>>,
    names: Seq<String>,
    idx: Seq<Vec<usize>>,
    kept: Seq<usize>,
    t: DLXTable,
    s: int,
    p: int,
)
    requires
        indexed(sets, names, idx, kept),
        table_of(t, idx, names.len() as int),
        0 <= s < idx.len(),
        0 <= p < names.len(),
    ensures
        in_row(t, s, p + 1) <==> has_name(sets[kept[s] as int]@, names[p]@),
{
    t.lemma_row_layout(s);
    assert(t.row_elements(s) == idx[s]@);
    if in_row(t, s, p + 1) {
        let x = choose|x: int| t.head_of(s) <= x < t.end_of(s) && #[trigger] t.hdr(x) == p + 1;
        let q = x - t.head_of(s);
        assert(t.nodes@[x].set is Some);
        assert(t.row_elements(s)[q] == (t.hdr(x) - 1) as usize);
        assert(idx[s]@[q] == p);
        assert(sets[kept[s] as int]@[q]@ == names[p]@);
    }
    if has_name(sets[kept[s] as int]@, names[p]@) {
        let q = choose|q: int| 0 <= q < sets[kept[s] as int]@.len() && #[trigger] sets[kept[s] as int]@[q]@ == names[p]@;
        let e = idx[s]@[q];
        assert(names[e as int]@ == names[p]@);
        if e < p {
            assert(names[e as int]@ != names[p]@);
        } else if p < e {
            assert(names[p]@ != names[e as int]@);
        }
        let x = t.head_of(s) + q;
        assert(t.nodes@[x].set is Some);
        assert(t.row_elements(s)[q] == (t.hdr(x) - 1) as usize);
        assert(t.hdr(x) == p + 1);
    }
}

/// The sets of the rows of an exact cover of the table are an exact cover
/// of the names, and those rows are the rows of their sets.
#[verifier::spinoff_prover]
#[verifier::rlimit(40)]
proof fn lemma_rows_exact(
    sets: Seq<Vec<&str>>,
    names: Seq<String>,
    idx: Seq<Vec<usize>>,
    kept: Seq<usize>,
    t: DLXTable,
    rows: Set<int>,
)
    requires
        indexed(sets, names, idx, kept),
        table_of(t, idx, names.len() as int),
        exact_rows(t, rows),
    ensures
        exact_sets(sets, places_of(kept, rows)),
        rows_of(kept, places_of(kept, rows)) == rows,
{
    reveal(exact_rows);
    let js = places_of(kept, rows);
    let f = |s: int| kept[s] as int;
    assert forall|s: int| #[trigger] rows.contains(s) implies 0 <= s < kept.len() by {
        lemma_live_index(t, s);
    }
    rows.lemma_map_finite(f);
    assert forall|j: int| #[trigger] js.contains(j) implies 0 <= j < sets.len() && sets[j]@.len() > 0 by {
        let s = choose|s: int| rows.contains(s) && f(s) == j;
        assert(rows.contains(s));
    }
    assert forall|n: Seq<char>| #[trigger] name_in(sets, n) implies exists|j: int| js.contains(j) && #[trigger] has_name(sets[j]@, n) by {
        let p = lemma_name_place(sets, names, n);
        assert(t.active().contains(p + 1));
        let s = choose|s: int| rows.contains(s) && #[trigger] in_row(t, s, p + 1);
        assert(rows.contains(s));
        lemma_row_name(sets, names, idx, kept, t, s, p);
        assert(js.contains(f(s)));
    }
    assert forall|j1: int, j2: int, n: Seq<char>|
        js.contains(j1) && js.contains(j2) && #[trigger] has_name(sets[j1]@, n) && #[trigger] has_name(sets[j2]@, n) implies j1 == j2 by {
        let s1 = choose|s: int| rows.contains(s) && f(s) == j1;
        let s2 = choose|s: int| rows.contains(s) && f(s) == j2;
        assert(rows.contains(s1) && rows.contains(s2));
        let q = choose|q: int| 0 <= q < sets[j1]@.len() && #[trigger] sets[j1]@[q]@ == n;
        assert(name_in(sets, n));
        let p = lemma_name_place(sets, names, n);
        lemma_row_name(sets, names, idx, kept, t, s1, p);
        lemma_row_name(sets, names, idx, kept, t, s2, p);
    }
    assert(rows_of(kept, js) =~= rows) by {
        assert forall|s: int| #[trigger] rows_of(kept, js).contains(s) implies rows.contains(s) by {
            let s2 = choose|s2: int| rows.contains(s2) && f(s2) == kept[s] as int;
            assert(rows.contains(s2));
            if s < s2 {
                assert(kept[s] < kept[s2]);
            } else if s2 < s {
                assert(kept[s2] < kept[s]);
            }
        }
        assert forall|s: int| #[trigger] rows.contains(s) implies rows_of(kept, js).contains(s) by {
            assert(js.contains(f(s)));
        }
    }
}

/// An exact cover of the names by sets is an exact cover of the table by
/// their rows.
#[verifier::spinoff_prover]
#[verifier::rlimit(40)]
proof fn lemma_names_exact(
    sets: Seq<Vec<&str>>,
    names: Seq<String>,
    idx: Seq<Vec<usize>>,
    kept: Seq<usize>,
    t: DLXTable,
    js: Set<int>,
)
    requires
        indexed(sets, names, idx, kept),
        table_of(t, idx, names.len() as int),
        exact_sets(sets, js),
    ensures
        exact_rows(t, rows_of(kept, js)),
{
    reveal(exact_rows);
    let rs = rows_of(kept, js);
    assert(rs.finite()) by {
        vstd::set_lib::lemma_int_range(0, kept.len() as int);
        assert(rs.subset_of(vstd::set_lib::set_int_range(0, kept.len() as int)));
        vstd::set_lib::lemma_len_subset(rs, vstd::set_lib::set_int_range(0, kept.len() as int));
    }
    lemma_names_live(sets, names, idx, kept, t, js);
    lemma_names_covered(sets, names, idx, kept, t, js);
    lemma_names_unique(sets, names, idx, kept, t, js);
}

/// A listing of the rows of the sets at places `js`, with names for
/// indices, lists those sets.
proof fn lemma_names_lists(
    sets: Seq<Vec<&str>>,
    names: Seq<String>,
    idx: Seq<Vec<usize>>,
    kept: Seq<usize>,
    t: DLXTable,
    js: Set<int>,
    c: Seq<Vec<usize>>,
    w: Seq<Vec<String>>,
)
    requires
        indexed(sets, names, idx, kept),
        table_of(t, idx, names.len() as int),
        exact_sets(sets, js),
        lists_rows(t, c, rows_of(kept, js)),
        named_cover(names, c, w),
    ensures
        lists_sets(sets, w, js),
{
    reveal(lists_rows);
    let rs = rows_of(kept, js);
    let f = |s: int| kept[s] as int;
    assert(rs.finite()) by {
        vstd::set_lib::lemma_int_range(0, kept.len() as int);
        assert(rs.subset_of(vstd::set_lib::set_int_range(0, kept.len() as int)));
        vstd::set_lib::lemma_len_subset(rs, vstd::set_lib::set_int_range(0, kept.len() as int));
    }
    assert(vstd::relations::injective_on(f, rs)) by {
        assert forall|s1: int, s2: int| rs.contains(s1) && rs.contains(s2) && #[trigger] f(s1) == #[trigger] f(s2) implies s1 == s2 by {
            if s1 < s2 {
                assert(kept[s1] < kept[s2]);
            } else if s2 < s1 {
                assert(kept[s2] < kept[s1]);
            }
        }
    }
    assert(rs.map(f) =~= js) by {
        assert forall|j: int| #[trigger] js.contains(j) implies rs.map(f).contains(j) by {
            assert(kept.contains(j as usize));
            let s = choose|s: int| 0 <= s < kept.len() && kept[s] == j as usize;
            assert(rs.contains(s));
            assert(f(s) == j);
        }
    }
    vstd::set_lib::lemma_map_size(rs, js, f);
    assert forall|j: int| #[trigger] js.contains(j) implies exists|i: int| 0 <= i < w.len() && #[trigger] same_names(w[i]@, sets[j]@) by {
        assert(kept.contains(j as usize));
        let s = choose|s: int| 0 <= s < kept.len() && kept[s] == j as usize;
        assert(rs.contains(s));
        let i = choose|i: int| 0 <= i < c.len() && #[trigger] lists_row(t, c[i]@, s);
        assert(named(names, c[i]@, w[i]@));
        lemma_row_names(sets, names, idx, kept, t, c[i]@, w[i]@, s);
    }
}

/// With every set non-empty, the non-empty sets are all the sets.
proof fn lemma_all_nonempty(ss: Seq<Seq<usize>>)
    requires
        forall|s: int| 0 <= s < ss.len() ==> (#[trigger] ss[s]).len() > 0,
    ensures
        nonempty(ss) == ss,
    decreases ss.len(),
{
    if ss.len() > 0 {
        lemma_all_nonempty(ss.drop_last());
        assert(ss.drop_last().push(ss.last()) =~= ss);
    }
}

/// The rows of the table of non-empty index sets are those sets.
#[verifier::spinoff_prover]
pub(crate) proof fn lemma_table_rows(idx: Seq<Vec<usize>>, t: DLXTable)
    requires
        forall|s: int| 0 <= s < idx.len() ==> (#[trigger] idx[s])@.len() > 0,
        t.holds(nonempty(view_sets(idx))),
    ensures
        t.sets_count() == idx.len(),
        forall|s: int| 0 <= s < idx.len() ==> #[trigger] t.row_elements(s) == idx[s]@,
{
    let ss = view_sets(idx);
    assert forall|s: int| 0 <= s < ss.len() implies (#[trigger] ss[s]).len() > 0 by {
        assert(ss[s] == idx[s]@);
    }
    lemma_all_nonempty(ss);
    assert forall|s: int| 0 <= s < idx.len() implies #[trigger] t.row_elements(s) == idx[s]@ by {
        assert(ss[s] == idx[s]@);
        assert forall|k: int| 0 <= k < idx[s]@.len() implies t.row_elements(s)[k] == idx[s]@[k] by {
            assert(t.hdr(t.head_of(s) + k) == ss[s][k] + 1);
        }
        assert(t.row_elements(s) =~= idx[s]@);
    }
}

/// The table of the index sets has one header per name.
#[verifier::spinoff_prover]
proof fn lemma_table_size(sets: Seq<Vec<&str>>, names: Seq<String>, idx: Seq<Vec<usize>>, kept: Seq<usize>, ec: int)
    requires
        indexed(sets, names, idx, kept),
        universe_size(view_sets(idx), ec),
        0 <= ec < usize::MAX,
    ensures
        ec == names.len(),
{
    let ss = view_sets(idx);
    if ec > 0 {
        let (s, k) = choose|s: int, k: int| 0 <= s < ss.len() && 0 <= k < ss[s].len() && ss[s][k] == (ec - 1) as usize;
        assert(ss[s][k] == idx[s]@[k]);
        assert(ec <= names.len());
    }
    if names.len() > 0 {
        let p = names.len() - 1;
        assert(name_in(sets, names[p]@));
        let (j, q) = choose|j: int, q: int| 0 <= j < sets.len() && 0 <= q < sets[j]@.len() && #[trigger] sets[j]@[q]@ == names[p]@;
        assert(kept.contains(j as usize));
        let s = choose|s: int| 0 <= s < kept.len() && kept[s] == j as usize;
        let e = idx[s]@[q];
        assert(names[e as int]@ == names[p]@);
        assert(e as int == p);
        assert(ss[s][q] == e);
        assert(e < ec);
    }
}

/// What `DLXTable::from` gives for index sets with names is the table of
/// those sets, ready for the search.
#[verifier::spinoff_prover]
proof fn lemma_table_of(sets: Seq<Vec<&str>>, names: Seq<String>, idx: Seq<Vec<usize>>, kept: Seq<usize>, t: DLXTable)
    requires
        indexed(sets, names, idx, kept),
        t.wf(),
        t.complete(),
        universe_size(view_sets(idx), t.ec()),
        t.holds(nonempty(view_sets(idx))),
    ensures
        table_of(t, idx, names.len() as int),
        ready(t),
        rows_active(t),
{
    lemma_table_rows(idx, t);
    lemma_table_size(sets, names, idx, kept, t.ec());
    assert forall|g: int| #[trigger] t.active().contains(g) <==> 1 <= g <= names.len() by {
        if 1 <= g <= names.len() {
            assert(t.is_header(g));
        }
    }
    assert(ready(t)) by {
        reveal(ready);
    }
}

/// The names of the indices of `set`.
fn name_set(names: &Vec<String>, set: &Vec<usize>) -> (w: Vec<String>)
    requires
        forall|k: int| 0 <= k < set@.len() ==> (#[trigger] set@[k]) < names@.len(),
    ensures
        named(names@, set@, w@),
{
    let mut w: Vec<String> = Vec::new();
    let mut k: usize = 0;
    while k < set.len()
        invariant
            k <= set@.len(),
            w@.len() == k,
            forall|j: int| 0 <= j < set@.len() ==> (#[trigger] set@[j]) < names@.len(),
            forall|j: int| 0 <= j < k ==> w@[j]@ == names@[(#[trigger] set@[j]) as int]@,
        decreases set@.len() - k,
    {
        w.push(names[set[k]].clone());
        k += 1;
    }
    w
}

/// Cover `c` of `covers` lists the sets at places `sel[c]`, an exact
/// cover of the names, and no two covers stand for the same places.
pub open spec fn sets_listed_apart(sets: Seq<Vec<&str>>, covers: Seq<Vec<Vec<String>>>, sel: Seq<Set<int>>) -> bool {
    &&& sel.len() == covers.len()
    &&& forall|c: int| 0 <= c < covers.len() ==> #[trigger] exact_sets(sets, sel[c]) && lists_sets(sets, covers[c]@, sel[c])
    &&& forall|c1: int, c2: int| 0 <= c1 < c2 < covers.len() ==> #[trigger] sel[c1] != #[trigger] sel[c2]
}

/// No two covers list the same sets.
pub open spec fn named_covers_apart(sets: Seq<Vec<&str>>, covers: Seq<Vec<Vec<String>>>) -> bool {
    exists|sel: Seq<Set<int>>| #[trigger] sets_listed_apart(sets, covers, sel)
}

/// Covers of the table that stand for distinct rows, with names for
/// indices, list distinct sets.
proof fn lemma_named_apart(
    sets: Seq<Vec<&str>>,
    names: Seq<String>,
    idx: Seq<Vec<usize>>,
    kept: Seq<usize>,
    t: DLXTable,
    covers: Seq<Vec<Vec<usize>>>,
    r: Seq<Vec<Vec<String>>>,
)
    requires
        indexed(sets, names, idx, kept),
        table_of(t, idx, names.len() as int),
        covers_apart(t, covers),
        r.len() == covers.len(),
        forall|c: int| 0 <= c < covers.len() ==> #[trigger] named_cover(names, covers[c]@, r[c]@),
    ensures
        named_covers_apart(sets, r),
{
    let rsel = choose|rsel: Seq<Set<int>>| #[trigger] rows_apart_by(t, covers, rsel);
    assert(rows_apart_by(t, covers, rsel));
    reveal(rows_apart_by);
    assert(rsel.len() == covers.len());
    let sel = Seq::new(r.len(), |c: int| places_of(kept, rsel[c]));
    assert forall|c: int| 0 <= c < r.len() implies #[trigger] exact_sets(sets, sel[c]) && lists_sets(sets, r[c]@, sel[c]) by {
        assert(exact_rows(t, rsel[c]));
        assert(lists_rows(t, covers[c]@, rsel[c]));
        lemma_rows_exact(sets, names, idx, kept, t, rsel[c]);
        assert(named_cover(names, covers[c]@, r[c]@));
        lemma_names_lists(sets, names, idx, kept, t, sel[c], covers[c]@, r[c]@);
    }
    assert forall|c1: int, c2: int| 0 <= c1 < c2 < r.len() implies #[trigger] sel[c1] != #[trigger] sel[c2] by {
        assert(exact_rows(t, rsel[c1]));
        assert(exact_rows(t, rsel[c2]));
        lemma_rows_exact(sets, names, idx, kept, t, rsel[c1]);
        lemma_rows_exact(sets, names, idx, kept, t, rsel[c2]);
        assert(rsel[c1] != rsel[c2]);
    }
    assert(sets_listed_apart(sets, r, sel));
}

/// The names of the indices of each set of `cover`.
fn name_cover(names: &Vec<String>, cover: &Vec<Vec<usize>>) -> (w: Vec<Vec<String>>)
    requires
        forall|i: int, k: int| 0 <= i < cover@.len() && 0 <= k < cover@[i]@.len() ==> #[trigger] cover@[i]@[k] < names@.len(),
    ensures
        named_cover(names@, cover@, w@),
{
    let mut w: Vec<Vec<String>> = Vec::new();
    let mut i: usize = 0;
    while i < cover.len()
        invariant
            i <= cover@.len(),
            w@.len() == i,
            forall|i: int, k: int| 0 <= i < cover@.len() && 0 <= k < cover@[i]@.len() ==> #[trigger] cover@[i]@[k] < names@.len(),
            forall|j: int| 0 <= j < i ==> #[trigger] named(names@, cover@[j]@, w@[j]@),
        decreases cover@.len() - i,
    {
        let set = name_set(names, &cover[i]);
        w.push(set);
        i += 1;
    }
    w
}

/// Every way to cover all names of `sets` exactly by some of the sets: the
/// names are numbered in the order they first appear, the sets with a name
/// become the rows of a table, and each cover that `dlx` finds lists the
/// names of its sets.
pub fn exact_cover(sets: &Vec<Vec<&str>>) -> (r: Vec<Vec<Vec<String>>>)
    requires
        forall|j: int| 0 <= j < sets@.len() ==> distinct_names(#[trigger] sets@[j]@),
        2 * total_names(sets@) + sets@.len() + 3 < usize::MAX,
    ensures
        forall|c: int| 0 <= c < r@.len() ==> names_cover(sets@, #[trigger] r@[c]@),
        forall|js: Set<int>| #[trigger] exact_sets(sets@, js) ==> exists|c: int|
            0 <= c < r@.len() && #[trigger] lists_sets(sets@, r@[c]@, js),
        named_covers_apart(sets@, r@),
{
    let names = element_names(sets);
    let (idx, kept) = index_sets(&names, sets);
    proof {
        assert(indexed(sets@, names@, idx@, kept@));
        lemma_total_len_nonneg(view_sets(idx@));
        assert forall|s: int| 0 <= s < idx@.len() implies (#[trigger] idx@[s])@.no_duplicates() by {
            assert forall|a: int, b: int| 0 <= a < idx@[s]@.len() && 0 <= b < idx@[s]@.len() && a != b
                implies idx@[s]@[a] != idx@[s]@[b] by {
                let set = sets@[kept@[s] as int]@;
                assert(distinct_names(set));
                if idx@[s]@[a] == idx@[s]@[b] {
                    assert(set[a]@ == set[b]@);
                    if a < b {
                        assert(set[a]@ != set[b]@);
                    } else {
                        assert(set[b]@ != set[a]@);
                    }
                }
            }
        }
        assert forall|s: int, k: int| 0 <= s < idx@.len() && 0 <= k < idx@[s]@.len() implies idx@[s]@[k] + total_len(
            view_sets(idx@)) + idx@.len() + 3 < usize::MAX by {
            assert(idx@[s]@[k] < names@.len());
        }
    }
    let mut table = DLXTable::from(&idx);
    let ghost t0 = table;
    proof {
        lemma_table_of(sets@, names@, idx@, kept@, t0);
    }
    let covers = dlx(&mut table);
    let mut r: Vec<Vec<Vec<String>>> = Vec::new();
    let mut c: usize = 0;
    while c < covers.len()
        invariant
            c <= covers@.len(),
            r@.len() == c,
            indices_below(covers@, names@.len() as int),
            forall|j: int| 0 <= j < c ==> #[trigger] named_cover(names@, covers@[j]@, r@[j]@),
        decreases covers@.len() - c,
    {
        proof {
            assert forall|i: int, k: int| 0 <= i < covers@[c as int]@.len() && 0 <= k < covers@[c as int]@[i]@.len()
                implies #[trigger] covers@[c as int]@[i]@[k] < names@.len() by {
            }
        }
        let w = name_cover(&names, &covers[c]);
        r.push(w);
        c += 1;
    }
    proof {
        assert forall|c: int| 0 <= c < r@.len() implies names_cover(sets@, #[trigger] r@[c]@) by {
            assert(named_cover(names@, covers@[c]@, r@[c]@));
            lemma_names_sound(sets@, names@, idx@, kept@, t0, covers@[c]@, r@[c]@);
        }
        assert forall|js: Set<int>| #[trigger] exact_sets(sets@, js) implies exists|c: int|
            0 <= c < r@.len() && #[trigger] lists_sets(sets@, r@[c]@, js) by {
            lemma_names_exact(sets@, names@, idx@, kept@, t0, js);
            let rs = rows_of(kept@, js);
            assert(found(t0, covers@, rs));
            reveal(found);
            let c = choose|c: int| 0 <= c < covers@.len() && #[trigger] lists_rows(t0, covers@[c]@, rs);
            assert(named_cover(names@, covers@[c]@, r@[c]@));
            lemma_names_lists(sets@, names@, idx@, kept@, t0, js, covers@[c]@, r@[c]@);
        }
        lemma_named_apart(sets@, names@, idx@, kept@, t0, covers@, r@);
    }
    r
}

} // verus!
