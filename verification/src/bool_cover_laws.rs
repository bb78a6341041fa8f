//! What the boolean-vector search finds: for a family of non-empty
//! vectors of one width, exactly the exact covers, each once.
use vstd::prelude::*;
use crate::exact_cover2::{
    SetView, Label, member, any_member, difference_of, elements_of, upto, vwidth, voccurrences, vincluding,
    vcover_of, vwith_labels, is_least, least_of, all_members, found, found_each, found_with, lemma_elements_of,
    vector_views,
};

verus! {

/// Some position of `arr` is a member.
pub open spec fn nonempty(arr: Seq<bool>) -> bool {
    exists|p: int| 0 <= p < arr.len() && #[trigger] arr[p]
}

/// `a` and `b` share no member below `w`.
pub open spec fn disjoint(a: Seq<bool>, b: Seq<bool>, w: nat) -> bool {
    forall|p: int| 0 <= p < w ==> !(#[trigger] member(a, p) && member(b, p))
}

/// The sets form a family of width `w`: each vector has length `w` and
/// some member, and no two sets share a label.
pub open spec fn family(sets: Seq<SetView>, w: nat) -> bool {
    &&& forall|i: int| 0 <= i < sets.len() ==> (#[trigger] sets[i]).1.len() == w && nonempty(sets[i].1)
    &&& forall|i: int, j: int|
        0 <= i < sets.len() && 0 <= j < sets.len() && i != j ==> (#[trigger] sets[i]).0 != (#[trigger] sets[j]).0
}

/// The labels the sets of `cov` carry.
pub open spec fn picked_by(cov: Seq<SetView>) -> Set<Label> {
    Set::new(|l: Label| exists|k: int| 0 <= k < cov.len() && (#[trigger] cov[k]).0 == l)
}

/// Position `p` is a member of some set labelled in `picked`.
pub open spec fn covered(sets: Seq<SetView>, picked: Set<Label>, p: int) -> bool {
    exists|i: int| 0 <= i < sets.len() && picked.contains((#[trigger] sets[i]).0) && member(sets[i].1, p)
}

/// The sets labelled in `picked` are an exact cover of the positions
/// below `w`: every picked label is one of the sets', and every position
/// is a member of exactly one picked set.
pub open spec fn exact(sets: Seq<SetView>, picked: Set<Label>, w: nat) -> bool {
    &&& forall|l: Label| #[trigger] picked.contains(l) ==> exists|i: int| 0 <= i < sets.len() && (#[trigger] sets[i]).0 == l
    &&& forall|p: int| 0 <= p < w ==> #[trigger] covered(sets, picked, p)
    &&& forall|p: int, i: int, j: int|
        #![trigger member(sets[i].1, p), member(sets[j].1, p)]
        0 <= p < w && 0 <= i < sets.len() && 0 <= j < sets.len() && picked.contains(sets[i].0) && picked.contains(sets[j].0)
            && member(sets[i].1, p) && member(sets[j].1, p) ==> i == j
}

/// `cov` is an exact cover drawn from `sets`: its sets are among them,
/// no label twice, and their labels pick an exact cover.
pub open spec fn cover_from(sets: Seq<SetView>, cov: Seq<SetView>, w: nat) -> bool {
    &&& forall|k: int| 0 <= k < cov.len() ==> sets.contains(#[trigger] cov[k])
    &&& forall|a: int, b: int| 0 <= a < cov.len() && 0 <= b < cov.len() && a != b ==> (#[trigger] cov[a]).0 != (#[trigger] cov[b]).0
    &&& exact(sets, picked_by(cov), w)
}

/// Every cover of `found` is an exact cover drawn from `sets`.
pub open spec fn all_exact(sets: Seq<SetView>, covers: Seq<Seq<SetView>>, w: nat) -> bool {
    forall|k: int| 0 <= k < covers.len() ==> cover_from(sets, #[trigger] covers[k], w)
}

/// No two covers pick the same labels.
pub open spec fn apart(covers: Seq<Seq<SetView>>) -> bool {
    forall|a: int, b: int|
        0 <= a < covers.len() && 0 <= b < covers.len() && a != b ==> picked_by(#[trigger] covers[a]) != picked_by(
            #[trigger] covers[b],
        )
}

/// Some cover picks exactly the labels of `picked`.
pub open spec fn listed(covers: Seq<Seq<SetView>>, picked: Set<Label>) -> bool {
    exists|k: int| 0 <= k < covers.len() && picked_by(#[trigger] covers[k]) == picked
}

// ---------------------------------------------------------------------
// Positions left after dropping a set's members
// ---------------------------------------------------------------------

/// The number of positions below `p` that are not members of `c`.
pub open spec fn rank(c: Seq<bool>, p: int) -> nat
    decreases p,
{
    if p <= 0 {
        0
    } else {
        rank(c, p - 1) + if member(c, p - 1) { 0nat } else { 1nat }
    }
}

proof fn lemma_rank_mono(c: Seq<bool>, p: int, q: int)
    requires
        0 <= p <= q,
    ensures
        rank(c, p) <= rank(c, q),
        p < q && !member(c, p) ==> rank(c, p) < rank(c, q),
    decreases q,
{
    if p < q {
        lemma_rank_mono(c, p, q - 1);
    }
}

/// Some position of `a` outside `c` lands at `j` once `c`'s members are
/// dropped.
pub open spec fn lands(a: Seq<bool>, c: Seq<bool>, j: int) -> bool {
    exists|p: int| 0 <= p < a.len() && !member(c, p) && #[trigger] rank(c, p) == j
}

/// Dropping `c`'s members from `a` keeps the other positions, in order:
/// position `p` lands at `rank(c, p)`.
proof fn lemma_difference(a: Seq<bool>, c: Seq<bool>)
    ensures
        difference_of(a, c).len() == rank(c, a.len() as int),
        forall|p: int|
            0 <= p < a.len() && !member(c, p) ==> #[trigger] difference_of(a, c)[rank(c, p) as int] == a[p],
        forall|j: int| 0 <= j < difference_of(a, c).len() ==> #[trigger] lands(a, c, j),
    decreases a.len(),
{
    if a.len() > 0 {
        let a0 = a.drop_last();
        let n = a.len() - 1;
        lemma_difference(a0, c);
        let d0 = difference_of(a0, c);
        let d = difference_of(a, c);
        assert forall|p: int| 0 <= p < a.len() && !member(c, p) implies #[trigger] d[rank(c, p) as int] == a[p] by {
            if p < n {
                lemma_rank_mono(c, p, n);
                assert(d0[rank(c, p) as int] == a0[p]);
            }
        }
        assert forall|j: int| 0 <= j < d.len() implies #[trigger] lands(a, c, j) by {
            if j < d0.len() {
                assert(lands(a0, c, j));
                let p = choose|p: int| 0 <= p < a0.len() && !member(c, p) && #[trigger] rank(c, p) == j;
                assert(0 <= p < a.len() && !member(c, p) && rank(c, p) == j);
            } else {
                assert(!member(c, n) && rank(c, n) == j);
            }
        }
    }
}

/// A member of what is left after dropping `c`'s members is a member of
/// `a` at a position outside `c`, and back.
proof fn lemma_difference_member(a: Seq<bool>, c: Seq<bool>, j: int)
    requires
        member(difference_of(a, c), j),
    ensures
        exists|p: int| 0 <= p < a.len() && !member(c, p) && rank(c, p) == j && #[trigger] member(a, p),
{
    lemma_difference(a, c);
    assert(lands(a, c, j));
    let p = choose|p: int| 0 <= p < a.len() && !member(c, p) && #[trigger] rank(c, p) == j;
    assert(difference_of(a, c)[rank(c, p) as int] == a[p]);
    assert(member(a, p));
}

// ---------------------------------------------------------------------
// Basic facts of the search's pieces
// ---------------------------------------------------------------------

proof fn lemma_family_width(sets: Seq<SetView>, w: nat)
    requires
        family(sets, w),
        sets.len() > 0,
    ensures
        vwidth(sets) == w,
    decreases sets.len(),
{
    if sets.len() > 1 {
        assert forall|i: int| 0 <= i < sets.drop_last().len() implies (#[trigger] sets.drop_last()[i]).1.len() == w
            && nonempty(sets.drop_last()[i].1) by {
            assert(sets.drop_last()[i] == sets[i]);
        }
        assert forall|i: int, j: int|
            0 <= i < sets.drop_last().len() && 0 <= j < sets.drop_last().len() && i != j implies (
            #[trigger] sets.drop_last()[i]).0 != (#[trigger] sets.drop_last()[j]).0 by {
            assert(sets.drop_last()[i] == sets[i] && sets.drop_last()[j] == sets[j]);
        }
        lemma_family_width(sets.drop_last(), w);
    } else {
        assert(vwidth(sets.drop_last()) == 0);
    }
    assert(sets[sets.len() - 1].1.len() == w);
    assert(sets.last().1.len() == w);
}

/// The first element among `0..n` in the fewest sets.
proof fn least_below(sets: Seq<SetView>, n: int) -> (e: int)
    requires
        1 <= n,
    ensures
        0 <= e < n,
        forall|x: int| 0 <= x < n ==> voccurrences(sets, e) <= #[trigger] voccurrences(sets, x),
        forall|x: int| 0 <= x < e ==> voccurrences(sets, e) < #[trigger] voccurrences(sets, x),
    decreases n,
{
    if n == 1 {
        0
    } else {
        let e0 = least_below(sets, n - 1);
        if voccurrences(sets, n - 1) < voccurrences(sets, e0) {
            n - 1
        } else {
            e0
        }
    }
}

proof fn lemma_least_exists(sets: Seq<SetView>)
    requires
        vwidth(sets) > 0,
    ensures
        is_least(sets, least_of(sets)),
{
    let e = least_below(sets, vwidth(sets) as int);
    assert(is_least(sets, e));
}

/// No two of the sets share a label.
pub open spec fn distinct_labels(sets: Seq<SetView>) -> bool {
    forall|i: int, j: int|
        0 <= i < sets.len() && 0 <= j < sets.len() && i != j ==> (#[trigger] sets[i]).0 != (#[trigger] sets[j]).0
}

proof fn lemma_vincluding(sets: Seq<SetView>, e: int)
    ensures
        forall|k: int|
            0 <= k < vincluding(sets, e).len() ==> sets.contains(#[trigger] vincluding(sets, e)[k]) && member(
                vincluding(sets, e)[k].1,
                e,
            ),
        forall|t: int| 0 <= t < sets.len() && member(#[trigger] sets[t].1, e) ==> vincluding(sets, e).contains(sets[t]),
        distinct_labels(sets) ==> distinct_labels(vincluding(sets, e)),
    decreases sets.len(),
{
    if sets.len() > 0 {
        let s0 = sets.drop_last();
        lemma_vincluding(s0, e);
        let c0 = vincluding(s0, e);
        let c = vincluding(sets, e);
        assert forall|k: int| 0 <= k < c.len() implies sets.contains(#[trigger] c[k]) && member(c[k].1, e) by {
            if k < c0.len() {
                assert(c[k] == c0[k]);
                let t = choose|t: int| 0 <= t < s0.len() && s0[t] == c0[k];
                assert(sets[t] == c[k]);
            } else {
                assert(sets[sets.len() - 1] == c[k]);
            }
        }
        assert forall|t: int| 0 <= t < sets.len() && member(#[trigger] sets[t].1, e) implies c.contains(sets[t]) by {
            if t < s0.len() {
                assert(s0[t] == sets[t]);
                assert(c0.contains(sets[t]));
                let k = choose|k: int| 0 <= k < c0.len() && c0[k] == sets[t];
                assert(c[k] == sets[t]);
            } else {
                assert(c[c.len() - 1] == sets[t]);
            }
        }
        if distinct_labels(sets) {
            assert(distinct_labels(s0)) by {
                assert forall|i: int, j: int| 0 <= i < s0.len() && 0 <= j < s0.len() && i != j implies (#[trigger] s0[i]).0
                    != (#[trigger] s0[j]).0 by {
                    assert(s0[i] == sets[i] && s0[j] == sets[j]);
                }
            }
            assert forall|i: int, j: int| 0 <= i < c.len() && 0 <= j < c.len() && i != j implies (#[trigger] c[i]).0
                != (#[trigger] c[j]).0 by {
                if i < c0.len() && j < c0.len() {
                    assert(c[i] == c0[i] && c[j] == c0[j]);
                } else if i < c0.len() {
                    assert(c[i] == c0[i]);
                    let t = choose|t: int| 0 <= t < s0.len() && s0[t] == c0[i];
                    assert(sets[t] == c[i]);
                    assert(c[j] == sets[sets.len() - 1]);
                } else if j < c0.len() {
                    assert(c[j] == c0[j]);
                    let t = choose|t: int| 0 <= t < s0.len() && s0[t] == c0[j];
                    assert(sets[t] == c[j]);
                    assert(c[i] == sets[sets.len() - 1]);
                }
            }
        }
    }
}

proof fn lemma_vwith_labels(sets: Seq<SetView>, ls: Seq<Label>)
    ensures
        forall|k: int|
            0 <= k < vwith_labels(sets, ls).len() ==> sets.contains(#[trigger] vwith_labels(sets, ls)[k]) && ls.contains(
                vwith_labels(sets, ls)[k].0,
            ),
        forall|t: int| 0 <= t < sets.len() && ls.contains(#[trigger] sets[t].0) ==> vwith_labels(sets, ls).contains(sets[t]),
        distinct_labels(sets) ==> distinct_labels(vwith_labels(sets, ls)),
    decreases sets.len(),
{
    if sets.len() > 0 {
        let s0 = sets.drop_last();
        lemma_vwith_labels(s0, ls);
        let c0 = vwith_labels(s0, ls);
        let c = vwith_labels(sets, ls);
        assert forall|k: int| 0 <= k < c.len() implies sets.contains(#[trigger] c[k]) && ls.contains(c[k].0) by {
            if k < c0.len() {
                assert(c[k] == c0[k]);
                let t = choose|t: int| 0 <= t < s0.len() && s0[t] == c0[k];
                assert(sets[t] == c[k]);
            } else {
                assert(sets[sets.len() - 1] == c[k]);
            }
        }
        assert forall|t: int| 0 <= t < sets.len() && ls.contains(#[trigger] sets[t].0) implies c.contains(sets[t]) by {
            if t < s0.len() {
                assert(s0[t] == sets[t]);
                assert(c0.contains(sets[t]));
                let k = choose|k: int| 0 <= k < c0.len() && c0[k] == sets[t];
                assert(c[k] == sets[t]);
            } else {
                assert(c[c.len() - 1] == sets[t]);
            }
        }
        if distinct_labels(sets) {
            assert(distinct_labels(s0)) by {
                assert forall|i: int, j: int| 0 <= i < s0.len() && 0 <= j < s0.len() && i != j implies (#[trigger] s0[i]).0
                    != (#[trigger] s0[j]).0 by {
                    assert(s0[i] == sets[i] && s0[j] == sets[j]);
                }
            }
            assert forall|i: int, j: int| 0 <= i < c.len() && 0 <= j < c.len() && i != j implies (#[trigger] c[i]).0
                != (#[trigger] c[j]).0 by {
                if i < c0.len() && j < c0.len() {
                    assert(c[i] == c0[i] && c[j] == c0[j]);
                } else if i < c0.len() {
                    assert(c[i] == c0[i]);
                    let t = choose|t: int| 0 <= t < s0.len() && s0[t] == c0[i];
                    assert(sets[t] == c[i]);
                    assert(c[j] == sets[sets.len() - 1]);
                } else if j < c0.len() {
                    assert(c[j] == c0[j]);
                    let t = choose|t: int| 0 <= t < s0.len() && s0[t] == c0[j];
                    assert(sets[t] == c[j]);
                    assert(c[i] == sets[sets.len() - 1]);
                }
            }
        }
    }
}

/// Whether choosing `c` keeps `s`, as the search decides it.
pub open spec fn kept(s: SetView, c: SetView) -> bool {
    !any_member(s.1, elements_of(c.1)) && (s.0 == c.0 || any_member(difference_of(s.1, c.1), upto(c.1.len())))
}

/// `v` is what is left of one of the sets that choosing `c` keeps.
pub open spec fn left_of(sets: Seq<SetView>, c: SetView, v: SetView) -> bool {
    exists|t: int| 0 <= t < sets.len() && kept(#[trigger] sets[t], c) && v == (sets[t].0, difference_of(sets[t].1, c.1))
}

proof fn lemma_vcover(sets: Seq<SetView>, c: SetView)
    ensures
        forall|k: int| 0 <= k < vcover_of(sets, c).len() ==> #[trigger] left_of(sets, c, vcover_of(sets, c)[k]),
        forall|t: int|
            0 <= t < sets.len() && kept(#[trigger] sets[t], c) ==> vcover_of(sets, c).contains(
                (sets[t].0, difference_of(sets[t].1, c.1)),
            ),
        distinct_labels(sets) ==> distinct_labels(vcover_of(sets, c)),
        vcover_of(sets, c).len() <= sets.len(),
        (exists|t: int| 0 <= t < sets.len() && !kept(#[trigger] sets[t], c)) ==> vcover_of(sets, c).len() < sets.len(),
    decreases sets.len(),
{
    if sets.len() > 0 {
        let s0 = sets.drop_last();
        lemma_vcover(s0, c);
        let c0 = vcover_of(s0, c);
        let r = vcover_of(sets, c);
        assert forall|k: int| 0 <= k < r.len() implies #[trigger] left_of(sets, c, r[k]) by {
            if k < c0.len() {
                assert(r[k] == c0[k]);
                assert(left_of(s0, c, c0[k]));
                let t = choose|t: int| 0 <= t < s0.len() && kept(#[trigger] s0[t], c) && c0[k] == (s0[t].0, difference_of(s0[t].1, c.1));
                assert(sets[t] == s0[t]);
            } else {
                assert(sets[sets.len() - 1] == sets.last());
            }
        }
        assert forall|t: int| 0 <= t < sets.len() && kept(#[trigger] sets[t], c) implies r.contains(
            (sets[t].0, difference_of(sets[t].1, c.1)),
        ) by {
            let v = (sets[t].0, difference_of(sets[t].1, c.1));
            if t < s0.len() {
                assert(s0[t] == sets[t]);
                assert(c0.contains(v));
                let k = choose|k: int| 0 <= k < c0.len() && c0[k] == v;
                assert(r[k] == v);
            } else {
                assert(r[r.len() - 1] == v);
            }
        }
        if distinct_labels(sets) {
            assert(distinct_labels(s0)) by {
                assert forall|i: int, j: int| 0 <= i < s0.len() && 0 <= j < s0.len() && i != j implies (#[trigger] s0[i]).0
                    != (#[trigger] s0[j]).0 by {
                    assert(s0[i] == sets[i] && s0[j] == sets[j]);
                }
            }
            assert forall|i: int, j: int| 0 <= i < r.len() && 0 <= j < r.len() && i != j implies (#[trigger] r[i]).0
                != (#[trigger] r[j]).0 by {
                if i < c0.len() && j < c0.len() {
                    assert(r[i] == c0[i] && r[j] == c0[j]);
                } else if i < c0.len() {
                    assert(r[i] == c0[i]);
                    assert(left_of(s0, c, c0[i]));
                    let t = choose|t: int| 0 <= t < s0.len() && kept(#[trigger] s0[t], c) && c0[i] == (s0[t].0, difference_of(s0[t].1, c.1));
                    assert(sets[t] == s0[t]);
                } else if j < c0.len() {
                    assert(r[j] == c0[j]);
                    assert(left_of(s0, c, c0[j]));
                    let t = choose|t: int| 0 <= t < s0.len() && kept(#[trigger] s0[t], c) && c0[j] == (s0[t].0, difference_of(s0[t].1, c.1));
                    assert(sets[t] == s0[t]);
                }
            }
        }
        if exists|t: int| 0 <= t < sets.len() && !kept(#[trigger] sets[t], c) {
            let t = choose|t: int| 0 <= t < sets.len() && !kept(#[trigger] sets[t], c);
            if t < s0.len() {
                assert(s0[t] == sets[t]);
            }
        }
    }
}

/// Within a family, choosing `c` keeps exactly the other sets that share
/// no member with it.
proof fn lemma_kept(s: SetView, c: SetView, w: nat)
    requires
        s.1.len() == w,
        c.1.len() == w,
        nonempty(s.1),
        nonempty(c.1),
        w <= usize::MAX,
    ensures
        s == c ==> !kept(s, c),
        s.0 != c.0 ==> (kept(s, c) <==> disjoint(s.1, c.1, w)),
        kept(s, c) ==> nonempty(difference_of(s.1, c.1)) && disjoint(s.1, c.1, w),
        difference_of(s.1, c.1).len() == rank(c.1, w as int),
        rank(c.1, w as int) <= w,
{
    lemma_elements_of(c.1);
    lemma_difference(s.1, c.1);
    lemma_rank_le(c.1, w as int);
    let es = elements_of(c.1);
    let d = difference_of(s.1, c.1);
    if any_member(s.1, es) {
        let k = choose|k: int| 0 <= k < es.len() && member(s.1, es[k] as int);
        assert(member(c.1, es[k] as int));
        assert(!disjoint(s.1, c.1, w));
    } else {
        assert forall|p: int| 0 <= p < w implies !(#[trigger] member(s.1, p) && member(c.1, p)) by {
            if member(s.1, p) && member(c.1, p) {
                assert(es.contains(p as usize));
                let k = choose|k: int| 0 <= k < es.len() && es[k] == p as usize;
                assert(member(s.1, es[k] as int));
            }
        }
    }
    if s == c {
        let p = choose|p: int| 0 <= p < c.1.len() && #[trigger] c.1[p];
        assert(es.contains(p as usize));
        let k = choose|k: int| 0 <= k < es.len() && es[k] == p as usize;
        assert(member(s.1, es[k] as int));
    }
    if disjoint(s.1, c.1, w) {
        let p = choose|p: int| 0 <= p < s.1.len() && #[trigger] s.1[p];
        assert(member(s.1, p));
        assert(!member(c.1, p));
        lemma_rank_mono(c.1, p, w as int);
        assert(d[rank(c.1, p) as int] == s.1[p]);
        let j = rank(c.1, p) as int;
        assert(upto(c.1.len())[j] == j as usize);
        assert(member(d, upto(c.1.len())[j] as int));
        assert(any_member(d, upto(c.1.len())));
        assert(nonempty(d));
    }
    if kept(s, c) && s.0 == c.0 {
        assert(disjoint(s.1, c.1, w));
    }
}

proof fn lemma_rank_le(c: Seq<bool>, p: int)
    requires
        0 <= p,
    ensures
        rank(c, p) <= p,
    decreases p,
{
    if p > 0 {
        lemma_rank_le(c, p - 1);
    }
}

// ---------------------------------------------------------------------
// Choosing a set: what is left, and covers carried across
// ---------------------------------------------------------------------

/// The labels of the sets, in order.
pub open spec fn labels_of(cov: Seq<SetView>) -> Seq<Label> {
    cov.map_values(|v: SetView| v.0)
}

/// The set of `sets` that what is left at `k` after choosing `c` comes
/// from.
proof fn origin(sets: Seq<SetView>, c: SetView, k: int) -> (t: int)
    requires
        0 <= k < vcover_of(sets, c).len(),
    ensures
        0 <= t < sets.len(),
        kept(sets[t], c),
        vcover_of(sets, c)[k] == (sets[t].0, difference_of(sets[t].1, c.1)),
{
    lemma_vcover(sets, c);
    assert(left_of(sets, c, vcover_of(sets, c)[k]));
    choose|t: int| 0 <= t < sets.len() && kept(#[trigger] sets[t], c) && vcover_of(sets, c)[k] == (sets[t].0, difference_of(sets[t].1, c.1))
}

/// Where what is left of a kept set stands after choosing `c`.
proof fn left_index(sets: Seq<SetView>, c: SetView, t: int) -> (k: int)
    requires
        0 <= t < sets.len(),
        kept(sets[t], c),
    ensures
        0 <= k < vcover_of(sets, c).len(),
        vcover_of(sets, c)[k] == (sets[t].0, difference_of(sets[t].1, c.1)),
{
    lemma_vcover(sets, c);
    let v = (sets[t].0, difference_of(sets[t].1, c.1));
    assert(vcover_of(sets, c).contains(v));
    choose|k: int| 0 <= k < vcover_of(sets, c).len() && vcover_of(sets, c)[k] == v
}

/// Choosing a set `c` of a family leaves a smaller family, of the width
/// of `c`'s non-members, none of which carries `c`'s label; the sets kept
/// are the others that share no member with `c`.
proof fn lemma_rest_family(sets: Seq<SetView>, w: nat, c: SetView, ic: int)
    requires
        family(sets, w),
        w <= usize::MAX,
        0 <= ic < sets.len(),
        sets[ic] == c,
    ensures
        family(vcover_of(sets, c), rank(c.1, w as int)),
        vcover_of(sets, c).len() < sets.len(),
        rank(c.1, w as int) <= w,
        forall|t: int| 0 <= t < sets.len() ==> (#[trigger] kept(sets[t], c) <==> (t != ic && disjoint(sets[t].1, c.1, w))),
        forall|k: int| 0 <= k < vcover_of(sets, c).len() ==> (#[trigger] vcover_of(sets, c)[k]).0 != c.0,
{
    let rest = vcover_of(sets, c);
    let w2 = rank(c.1, w as int);
    lemma_vcover(sets, c);
    lemma_rank_le(c.1, w as int);
    assert forall|t: int| 0 <= t < sets.len() implies (#[trigger] kept(sets[t], c) <==> (t != ic && disjoint(sets[t].1, c.1, w))) by {
        lemma_kept(sets[t], c, w);
        if t != ic {
            assert(sets[t].0 != c.0);
        }
    }
    assert(!kept(sets[ic], c));
    assert forall|k: int| 0 <= k < rest.len() implies (#[trigger] rest[k]).1.len() == w2 && nonempty(rest[k].1) by {
        let t = origin(sets, c, k);
        lemma_kept(sets[t], c, w);
    }
    assert forall|k: int| 0 <= k < rest.len() implies (#[trigger] rest[k]).0 != c.0 by {
        let t = origin(sets, c, k);
        assert(t != ic);
    }
}

/// An exact cover of what is left after choosing `c`, with `c`, is an
/// exact cover of the family.
proof fn lemma_lift_exact(sets: Seq<SetView>, w: nat, c: SetView, ic: int, ls: Set<Label>)
    requires
        family(sets, w),
        1 <= w <= usize::MAX,
        0 <= ic < sets.len(),
        sets[ic] == c,
        exact(vcover_of(sets, c), ls, rank(c.1, w as int)),
    ensures
        exact(sets, ls.insert(c.0), w),
{
    let rest = vcover_of(sets, c);
    let w2 = rank(c.1, w as int);
    let pk = ls.insert(c.0);
    lemma_rest_family(sets, w, c, ic);
    assert forall|l: Label| #[trigger] pk.contains(l) implies exists|i: int| 0 <= i < sets.len() && (#[trigger] sets[i]).0 == l by {
        if l == c.0 {
            assert(sets[ic].0 == l);
        } else {
            let k = choose|k: int| 0 <= k < rest.len() && (#[trigger] rest[k]).0 == l;
            let t = origin(sets, c, k);
            assert(sets[t].0 == l);
        }
    }
    assert forall|p: int| 0 <= p < w implies #[trigger] covered(sets, pk, p) by {
        if member(c.1, p) {
            assert(pk.contains(sets[ic].0) && member(sets[ic].1, p));
        } else {
            lemma_rank_mono(c.1, p, w as int);
            let j = rank(c.1, p) as int;
            assert(covered(rest, ls, j));
            let k = choose|k: int| 0 <= k < rest.len() && ls.contains((#[trigger] rest[k]).0) && member(rest[k].1, j);
            let t = origin(sets, c, k);
            lemma_difference(sets[t].1, c.1);
            assert(difference_of(sets[t].1, c.1)[rank(c.1, p) as int] == sets[t].1[p]);
            assert(pk.contains(sets[t].0) && member(sets[t].1, p));
        }
    }
    assert forall|p: int, i: int, j: int|
        #![trigger member(sets[i].1, p), member(sets[j].1, p)]
        0 <= p < w && 0 <= i < sets.len() && 0 <= j < sets.len() && pk.contains(sets[i].0) && pk.contains(sets[j].0)
            && member(sets[i].1, p) && member(sets[j].1, p) implies i == j by {
        lemma_carried(sets, w, c, ic, ls, p, i);
        lemma_carried(sets, w, c, ic, ls, p, j);
        if i != ic && j != ic {
            let ki = left_index(sets, c, i);
            let kj = left_index(sets, c, j);
            lemma_rank_mono(c.1, p, w as int);
            lemma_difference(sets[i].1, c.1);
            lemma_difference(sets[j].1, c.1);
            let r = rank(c.1, p) as int;
            assert(member(rest[ki].1, r) && member(rest[kj].1, r));
            assert(ki == kj);
        }
    }
}

/// A set other than `c` picked with `c` in a cover of what is left is
/// kept, so it shares no member with `c`.
proof fn lemma_carried(sets: Seq<SetView>, w: nat, c: SetView, ic: int, ls: Set<Label>, p: int, i: int)
    requires
        family(sets, w),
        1 <= w <= usize::MAX,
        0 <= ic < sets.len(),
        sets[ic] == c,
        exact(vcover_of(sets, c), ls, rank(c.1, w as int)),
        0 <= i < sets.len(),
        ls.insert(c.0).contains(sets[i].0),
        0 <= p < w,
        member(sets[i].1, p),
    ensures
        i != ic ==> kept(sets[i], c) && !member(c.1, p),
{
    let rest = vcover_of(sets, c);
    lemma_rest_family(sets, w, c, ic);
    if i != ic {
        assert(sets[i].0 != c.0);
        assert(ls.contains(sets[i].0));
        let k = choose|k: int| 0 <= k < rest.len() && (#[trigger] rest[k]).0 == sets[i].0;
        let t = origin(sets, c, k);
        assert(sets[t].0 == sets[i].0);
        assert(t == i);
        assert(kept(sets[i], c));
        assert(disjoint(sets[i].1, c.1, w));
        assert(!(member(sets[i].1, p) && member(c.1, p)));
    }
}

/// An exact cover of the family that picks `c` gives, without `c`, an
/// exact cover of what is left after choosing `c`.
proof fn lemma_drop_exact(sets: Seq<SetView>, w: nat, c: SetView, ic: int, pk: Set<Label>)
    requires
        family(sets, w),
        1 <= w <= usize::MAX,
        0 <= ic < sets.len(),
        sets[ic] == c,
        exact(sets, pk, w),
        pk.contains(c.0),
    ensures
        exact(vcover_of(sets, c), pk.remove(c.0), rank(c.1, w as int)),
{
    let rest = vcover_of(sets, c);
    let w2 = rank(c.1, w as int);
    let ls = pk.remove(c.0);
    lemma_rest_family(sets, w, c, ic);
    assert forall|i: int| 0 <= i < sets.len() && #[trigger] ls.contains(sets[i].0) implies kept(sets[i], c) by {
        assert(i != ic);
        assert forall|p: int| 0 <= p < w implies !(#[trigger] member(sets[i].1, p) && member(c.1, p)) by {
            if member(sets[i].1, p) && member(c.1, p) {
                assert(member(sets[ic].1, p));
            }
        }
    }
    assert forall|l: Label| #[trigger] ls.contains(l) implies exists|k: int| 0 <= k < rest.len() && (#[trigger] rest[k]).0 == l by {
        let i = choose|i: int| 0 <= i < sets.len() && (#[trigger] sets[i]).0 == l;
        let k = left_index(sets, c, i);
        assert(rest[k].0 == l);
    }
    assert forall|j: int| 0 <= j < w2 implies #[trigger] covered(rest, ls, j) by {
        lemma_difference(c.1, c.1);
        assert(lands(c.1, c.1, j));
        let p = choose|p: int| 0 <= p < c.1.len() && !member(c.1, p) && #[trigger] rank(c.1, p) == j;
        assert(covered(sets, pk, p));
        let i = choose|i: int| 0 <= i < sets.len() && pk.contains((#[trigger] sets[i]).0) && member(sets[i].1, p);
        assert(i != ic);
        assert(ls.contains(sets[i].0));
        let k = left_index(sets, c, i);
        lemma_difference(sets[i].1, c.1);
        assert(difference_of(sets[i].1, c.1)[rank(c.1, p) as int] == sets[i].1[p]);
        assert(ls.contains(rest[k].0) && member(rest[k].1, j));
    }
    assert forall|j: int, a: int, b: int|
        #![trigger member(rest[a].1, j), member(rest[b].1, j)]
        0 <= j < w2 && 0 <= a < rest.len() && 0 <= b < rest.len() && ls.contains(rest[a].0) && ls.contains(rest[b].0)
            && member(rest[a].1, j) && member(rest[b].1, j) implies a == b by {
        let ta = origin(sets, c, a);
        let tb = origin(sets, c, b);
        lemma_difference_member(sets[ta].1, c.1, j);
        lemma_difference_member(sets[tb].1, c.1, j);
        let pa = choose|p: int| 0 <= p < sets[ta].1.len() && !member(c.1, p) && rank(c.1, p) == j && #[trigger] member(sets[ta].1, p);
        let pb = choose|p: int| 0 <= p < sets[tb].1.len() && !member(c.1, p) && rank(c.1, p) == j && #[trigger] member(sets[tb].1, p);
        if pa < pb {
            lemma_rank_mono(c.1, pa, pb);
        } else if pb < pa {
            lemma_rank_mono(c.1, pb, pa);
        }
        assert(pa == pb);
        assert(pk.contains(sets[ta].0) && pk.contains(sets[tb].0));
        assert(member(sets[ta].1, pa) && member(sets[tb].1, pa));
        assert(ta == tb);
    }
}

/// A cover of what is left after choosing `c`, given back as the sets of
/// the family with its labels and then `c`, is an exact cover of the
/// family picking its labels and `c`'s.
proof fn lemma_lifted_cover(sets: Seq<SetView>, w: nat, c: SetView, ic: int, sub: Seq<SetView>)
    requires
        family(sets, w),
        1 <= w <= usize::MAX,
        0 <= ic < sets.len(),
        sets[ic] == c,
        cover_from(vcover_of(sets, c), sub, rank(c.1, w as int)),
    ensures
        cover_from(sets, vwith_labels(sets, labels_of(sub)).push(c), w),
        picked_by(vwith_labels(sets, labels_of(sub)).push(c)) == picked_by(sub).insert(c.0),
        !picked_by(sub).contains(c.0),
{
    let rest = vcover_of(sets, c);
    let ls = labels_of(sub);
    let vw = vwith_labels(sets, ls);
    let cov = vw.push(c);
    lemma_rest_family(sets, w, c, ic);
    lemma_vwith_labels(sets, ls);
    assert(distinct_labels(sets));
    assert(distinct_labels(vw));
    assert forall|l: Label| picked_by(vw).contains(l) <==> picked_by(sub).contains(l) by {
        if picked_by(vw).contains(l) {
            let k = choose|k: int| 0 <= k < vw.len() && (#[trigger] vw[k]).0 == l;
            assert(ls.contains(vw[k].0));
            let i = choose|i: int| 0 <= i < ls.len() && ls[i] == vw[k].0;
            assert(sub[i].0 == l);
        }
        if picked_by(sub).contains(l) {
            let i = choose|i: int| 0 <= i < sub.len() && (#[trigger] sub[i]).0 == l;
            assert(rest.contains(sub[i]));
            let k = choose|k: int| 0 <= k < rest.len() && rest[k] == sub[i];
            let t = origin(sets, c, k);
            assert(ls[i] == l);
            assert(ls.contains(sets[t].0));
            assert(vw.contains(sets[t]));
            let m = choose|m: int| 0 <= m < vw.len() && vw[m] == sets[t];
            assert(vw[m].0 == l);
        }
    }
    assert(!picked_by(sub).contains(c.0)) by {
        if picked_by(sub).contains(c.0) {
            let i = choose|i: int| 0 <= i < sub.len() && (#[trigger] sub[i]).0 == c.0;
            assert(rest.contains(sub[i]));
            let k = choose|k: int| 0 <= k < rest.len() && rest[k] == sub[i];
            assert(rest[k].0 != c.0);
        }
    }
    assert forall|l: Label| picked_by(cov).contains(l) <==> picked_by(sub).insert(c.0).contains(l) by {
        if picked_by(cov).contains(l) {
            let k = choose|k: int| 0 <= k < cov.len() && (#[trigger] cov[k]).0 == l;
            if k < vw.len() {
                assert(vw[k] == cov[k]);
                assert(picked_by(vw).contains(l));
            }
        }
        if picked_by(sub).insert(c.0).contains(l) {
            if l == c.0 {
                assert(cov[vw.len() as int] == c);
            } else {
                assert(picked_by(vw).contains(l));
                let k = choose|k: int| 0 <= k < vw.len() && (#[trigger] vw[k]).0 == l;
                assert(cov[k] == vw[k]);
            }
        }
    }
    assert(picked_by(cov) =~= picked_by(sub).insert(c.0));
    assert(exact(rest, picked_by(sub), rank(c.1, w as int)));
    lemma_lift_exact(sets, w, c, ic, picked_by(sub));
    assert forall|k: int| 0 <= k < cov.len() implies sets.contains(#[trigger] cov[k]) by {
        if k < vw.len() {
            assert(cov[k] == vw[k]);
        } else {
            assert(sets[ic] == cov[k]);
        }
    }
    assert forall|a: int, b: int| 0 <= a < cov.len() && 0 <= b < cov.len() && a != b implies (#[trigger] cov[a]).0 != (
    #[trigger] cov[b]).0 by {
        if a < vw.len() && b < vw.len() {
            assert(cov[a] == vw[a] && cov[b] == vw[b]);
        } else if a < vw.len() {
            assert(cov[a] == vw[a]);
            assert(picked_by(vw).contains(vw[a].0));
        } else if b < vw.len() {
            assert(cov[b] == vw[b]);
            assert(picked_by(vw).contains(vw[b].0));
        }
    }
}

/// Some of `cands` carries a label of `pk`.
pub open spec fn picks_one(cands: Seq<SetView>, pk: Set<Label>) -> bool {
    exists|j: int| 0 <= j < cands.len() && pk.contains((#[trigger] cands[j]).0)
}

/// The single set `c` is an exact cover exactly when it holds every
/// position, and an exact cover picking `c` and nothing left after
/// choosing it picks `c` alone.
proof fn lemma_single(sets: Seq<SetView>, w: nat, c: SetView, ic: int)
    requires
        family(sets, w),
        1 <= w <= usize::MAX,
        0 <= ic < sets.len(),
        sets[ic] == c,
    ensures
        all_members(c.1, w as int) ==> cover_from(sets, seq![c], w),
        picked_by(seq![c]) == Set::<Label>::empty().insert(c.0),
        forall|pk: Set<Label>|
            #[trigger] exact(sets, pk, w) && pk.contains(c.0) && vcover_of(sets, c).len() == 0 ==> pk
                == Set::<Label>::empty().insert(c.0) && all_members(c.1, w as int),
{
    let one = Set::<Label>::empty().insert(c.0);
    assert forall|l: Label| picked_by(seq![c]).contains(l) <==> one.contains(l) by {
        if l == c.0 {
            assert(seq![c][0] == c);
        }
    }
    assert(picked_by(seq![c]) =~= one);
    if all_members(c.1, w as int) {
        assert forall|l: Label| #[trigger] one.contains(l) implies exists|i: int| 0 <= i < sets.len() && (#[trigger] sets[i]).0 == l by {
            assert(sets[ic].0 == l);
        }
        assert forall|p: int| 0 <= p < w implies #[trigger] covered(sets, one, p) by {
            assert(one.contains(sets[ic].0) && member(sets[ic].1, p));
        }
        assert forall|p: int, i: int, j: int|
            #![trigger member(sets[i].1, p), member(sets[j].1, p)]
            0 <= p < w && 0 <= i < sets.len() && 0 <= j < sets.len() && one.contains(sets[i].0) && one.contains(sets[j].0)
                && member(sets[i].1, p) && member(sets[j].1, p) implies i == j by {
            if i != ic {
                assert(sets[i].0 != sets[ic].0);
            }
            if j != ic {
                assert(sets[j].0 != sets[ic].0);
            }
        }
        assert(exact(sets, one, w));
    }
    assert forall|pk: Set<Label>|
        #[trigger] exact(sets, pk, w) && pk.contains(c.0) && vcover_of(sets, c).len() == 0 implies pk
            == one && all_members(c.1, w as int) by {
        lemma_drop_exact(sets, w, c, ic, pk);
        assert forall|l: Label| pk.contains(l) <==> one.contains(l) by {
            if pk.contains(l) && l != c.0 {
                assert(pk.remove(c.0).contains(l));
            }
        }
        assert(pk =~= one);
        assert forall|p: int| 0 <= p < w implies member(c.1, p) by {
            assert(covered(sets, pk, p));
            let i = choose|i: int| 0 <= i < sets.len() && pk.contains((#[trigger] sets[i]).0) && member(sets[i].1, p);
            if i != ic {
                assert(sets[i].0 != sets[ic].0);
            }
        }
    }
}

/// What the search finds when it branches on `c`: exact covers of the
/// family, each picking `c`, no two alike, and every exact cover that
/// picks `c`.
proof fn lemma_found_with(sets: Seq<SetView>, w: nat, c: SetView, ic: int)
    requires
        family(sets, w),
        1 <= w <= usize::MAX,
        0 <= ic < sets.len(),
        sets[ic] == c,
    ensures
        all_exact(sets, found_with(sets, c), w),
        apart(found_with(sets, c)),
        forall|k: int| 0 <= k < found_with(sets, c).len() ==> picked_by(#[trigger] found_with(sets, c)[k]).contains(c.0),
        forall|pk: Set<Label>| exact(sets, pk, w) && pk.contains(c.0) ==> #[trigger] listed(found_with(sets, c), pk),
    decreases sets.len(), 0int, 0int,
{
    let rest = vcover_of(sets, c);
    let w2 = rank(c.1, w as int);
    lemma_rest_family(sets, w, c, ic);
    lemma_family_width(sets, w);
    lemma_single(sets, w, c, ic);
    let fw = found_with(sets, c);
    let one = Set::<Label>::empty().insert(c.0);
    if rest.len() == 0 {
        let e: Seq<SetView> = Seq::empty();
        lemma_vwith_labels(sets, labels_of(e));
        assert(vwith_labels(sets, labels_of(e)).len() == 0) by {
            if vwith_labels(sets, labels_of(e)).len() > 0 {
                assert(labels_of(e).contains(vwith_labels(sets, labels_of(e))[0].0));
            }
        }
        if all_members(c.1, w as int) {
            assert(fw.len() == 1);
            assert(fw[0] =~= seq![c]);
        } else {
            assert(fw.len() == 0);
        }
        assert forall|pk: Set<Label>| exact(sets, pk, w) && pk.contains(c.0) implies #[trigger] listed(fw, pk) by {
            assert(pk == one && all_members(c.1, w as int));
            assert(picked_by(fw[0]) == pk);
        }
        assert forall|k: int| 0 <= k < fw.len() implies picked_by(#[trigger] fw[k]).contains(c.0) by {
            assert(one.contains(c.0));
        }
    } else {
        assert(rest[0].1.len() == w2 && nonempty(rest[0].1));
        assert(w2 >= 1);
        lemma_found(rest, w2);
        let fr = found(rest);
        assert(fw.len() == fr.len());
        assert forall|k: int| 0 <= k < fw.len() implies #[trigger] fw[k] == vwith_labels(sets, labels_of(fr[k])).push(c) by {}
        assert forall|k: int| 0 <= k < fw.len() implies cover_from(sets, #[trigger] fw[k], w) && picked_by(fw[k]) == picked_by(
            fr[k],
        ).insert(c.0) && !picked_by(fr[k]).contains(c.0) by {
            assert(cover_from(rest, fr[k], w2));
            lemma_lifted_cover(sets, w, c, ic, fr[k]);
        }
        assert forall|k: int| 0 <= k < fw.len() implies picked_by(#[trigger] fw[k]).contains(c.0) by {
            assert(picked_by(fw[k]) == picked_by(fr[k]).insert(c.0));
        }
        assert forall|a: int, b: int| 0 <= a < fw.len() && 0 <= b < fw.len() && a != b implies picked_by(#[trigger] fw[a])
            != picked_by(#[trigger] fw[b]) by {
            assert(picked_by(fr[a]) != picked_by(fr[b]));
            if picked_by(fw[a]) == picked_by(fw[b]) {
                assert(picked_by(fr[a]) =~= picked_by(fw[a]).remove(c.0));
                assert(picked_by(fr[b]) =~= picked_by(fw[b]).remove(c.0));
            }
        }
        assert forall|pk: Set<Label>| exact(sets, pk, w) && pk.contains(c.0) implies #[trigger] listed(fw, pk) by {
            lemma_drop_exact(sets, w, c, ic, pk);
            assert(listed(fr, pk.remove(c.0)));
            let k = choose|k: int| 0 <= k < fr.len() && picked_by(#[trigger] fr[k]) == pk.remove(c.0);
            assert(picked_by(fw[k]) == picked_by(fr[k]).insert(c.0));
            assert(picked_by(fw[k]) =~= pk);
        }
    }
}

/// What the search finds when it branches on each of `cands`, sets that
/// hold position `e`: exact covers, each picking one of them, no two
/// alike, and every exact cover that picks one of them.
proof fn lemma_found_each(sets: Seq<SetView>, w: nat, cands: Seq<SetView>, e: int)
    requires
        family(sets, w),
        1 <= w <= usize::MAX,
        0 <= e < w,
        forall|k: int| 0 <= k < cands.len() ==> sets.contains(#[trigger] cands[k]) && member(cands[k].1, e),
        distinct_labels(cands),
    ensures
        all_exact(sets, found_each(sets, cands), w),
        apart(found_each(sets, cands)),
        forall|k: int| 0 <= k < found_each(sets, cands).len() ==> #[trigger] picks_one(cands, picked_by(found_each(sets, cands)[k])),
        forall|pk: Set<Label>| exact(sets, pk, w) && picks_one(cands, pk) ==> #[trigger] listed(found_each(sets, cands), pk),
    decreases sets.len(), 1int, cands.len(),
{
    let fe = found_each(sets, cands);
    if cands.len() > 0 {
        let c0 = cands.drop_last();
        let last = cands.last();
        let n = cands.len() - 1;
        assert(distinct_labels(c0)) by {
            assert forall|i: int, j: int| 0 <= i < c0.len() && 0 <= j < c0.len() && i != j implies (#[trigger] c0[i]).0 != (
            #[trigger] c0[j]).0 by {
                assert(c0[i] == cands[i] && c0[j] == cands[j]);
            }
        }
        assert forall|k: int| 0 <= k < c0.len() implies sets.contains(#[trigger] c0[k]) && member(c0[k].1, e) by {
            assert(c0[k] == cands[k]);
        }
        lemma_found_each(sets, w, c0, e);
        assert(sets.contains(cands[n]));
        let ic = choose|i: int| 0 <= i < sets.len() && sets[i] == last;
        lemma_found_with(sets, w, last, ic);
        let f0 = found_each(sets, c0);
        let fw = found_with(sets, last);
        assert(fe == f0 + fw);
        assert forall|k: int| 0 <= k < fe.len() implies cover_from(sets, #[trigger] fe[k], w) && picks_one(cands, picked_by(fe[k])) by {
            if k < f0.len() {
                assert(fe[k] == f0[k]);
                assert(cover_from(sets, f0[k], w));
                assert(picks_one(c0, picked_by(f0[k])));
                let j = choose|j: int| 0 <= j < c0.len() && picked_by(f0[k]).contains((#[trigger] c0[j]).0);
                assert(cands[j] == c0[j]);
            } else {
                assert(fe[k] == fw[k - f0.len()]);
                assert(cover_from(sets, fw[k - f0.len()], w));
                assert(picked_by(fw[k - f0.len()]).contains(last.0));
                assert(cands[n] == last);
            }
        }
        assert forall|a: int, b: int| 0 <= a < fe.len() && 0 <= b < fe.len() && a != b implies picked_by(#[trigger] fe[a])
            != picked_by(#[trigger] fe[b]) by {
            if a < f0.len() && b < f0.len() {
                assert(fe[a] == f0[a] && fe[b] == f0[b]);
            } else if a >= f0.len() && b >= f0.len() {
                assert(fe[a] == fw[a - f0.len()] && fe[b] == fw[b - f0.len()]);
            } else {
                let (x, y) = if a < f0.len() { (a, b) } else { (b, a) };
                assert(fe[x] == f0[x]);
                assert(fe[y] == fw[y - f0.len()]);
                assert(picked_by(fw[y - f0.len()]).contains(last.0));
                assert(picks_one(c0, picked_by(f0[x])));
                let j = choose|j: int| 0 <= j < c0.len() && picked_by(f0[x]).contains((#[trigger] c0[j]).0);
                if picked_by(fe[x]) == picked_by(fe[y]) {
                    let pk = picked_by(fe[x]);
                    assert(cover_from(sets, f0[x], w));
                    assert(exact(sets, pk, w));
                    assert(sets.contains(c0[j]));
                    let ij = choose|i: int| 0 <= i < sets.len() && sets[i] == c0[j];
                    assert(cands[j] == c0[j]);
                    assert(member(sets[ij].1, e) && member(sets[ic].1, e));
                    assert(pk.contains(sets[ij].0) && pk.contains(sets[ic].0));
                    assert(ij == ic);
                    assert(cands[j].0 != cands[n].0);
                }
            }
        }
        assert forall|pk: Set<Label>| exact(sets, pk, w) && picks_one(cands, pk) implies #[trigger] listed(fe, pk) by {
            let j = choose|j: int| 0 <= j < cands.len() && pk.contains((#[trigger] cands[j]).0);
            if j < n {
                assert(c0[j] == cands[j]);
                assert(picks_one(c0, pk));
                assert(listed(f0, pk));
                let k = choose|k: int| 0 <= k < f0.len() && picked_by(#[trigger] f0[k]) == pk;
                assert(fe[k] == f0[k]);
            } else {
                assert(listed(fw, pk));
                let k = choose|k: int| 0 <= k < fw.len() && picked_by(#[trigger] fw[k]) == pk;
                assert(fe[k + f0.len()] == fw[k]);
            }
        }
    }
}

/// What the search finds for a family of non-empty vectors of one width
/// at least 1: exact covers drawn from it, no two picking the same sets,
/// and every exact cover.
pub proof fn lemma_found(sets: Seq<SetView>, w: nat)
    requires
        family(sets, w),
        1 <= w <= usize::MAX,
        sets.len() >= 1,
    ensures
        all_exact(sets, found(sets), w),
        apart(found(sets)),
        forall|pk: Set<Label>| exact(sets, pk, w) ==> #[trigger] listed(found(sets), pk),
    decreases sets.len(), 2int, 0int,
{
    lemma_family_width(sets, w);
    let f = found(sets);
    if sets.len() == 1 {
        let c = sets[0];
        lemma_single(sets, w, c, 0);
        lemma_rest_family(sets, w, c, 0);
        assert(c.1.len() == w);
        assert forall|pk: Set<Label>| exact(sets, pk, w) implies #[trigger] listed(f, pk) by {
            assert(covered(sets, pk, 0));
            let i = choose|i: int| 0 <= i < sets.len() && pk.contains((#[trigger] sets[i]).0) && member(sets[i].1, 0);
            assert(i == 0);
            assert(pk.contains(c.0));
            assert(vcover_of(sets, c).len() == 0);
            assert(pk == Set::<Label>::empty().insert(c.0) && all_members(c.1, w as int));
            assert(f[0] == seq![c]);
        }
    } else {
        lemma_least_exists(sets);
        let e = least_of(sets);
        let cands = vincluding(sets, e);
        lemma_vincluding(sets, e);
        lemma_found_each(sets, w, cands, e);
        assert forall|pk: Set<Label>| exact(sets, pk, w) implies #[trigger] listed(f, pk) by {
            assert(covered(sets, pk, e));
            let i = choose|i: int| 0 <= i < sets.len() && pk.contains((#[trigger] sets[i]).0) && member(sets[i].1, e);
            assert(cands.contains(sets[i]));
            let j = choose|j: int| 0 <= j < cands.len() && cands[j] == sets[i];
            assert(picks_one(cands, pk));
        }
    }
}

/// The vectors are a non-empty list of one width of at least 1, and each
/// holds some `true`.
pub open spec fn uniform(vectors: Seq<Vec<bool>>) -> bool {
    &&& vectors.len() > 0
    &&& vectors[0]@.len() >= 1
    &&& forall|i: int| 0 <= i < vectors.len() ==> (#[trigger] vectors[i])@.len() == vectors[0]@.len() && nonempty(vectors[i]@)
}

/// The common width of uniform vectors.
pub open spec fn width_of(vectors: Seq<Vec<bool>>) -> nat {
    vectors[0]@.len()
}

/// Uniform vectors, labelled by their positions, form a family.
pub proof fn lemma_vector_family(vectors: Seq<Vec<bool>>)
    requires
        uniform(vectors),
        vectors.len() <= usize::MAX,
    ensures
        family(vector_views(vectors), width_of(vectors)),
        1 <= width_of(vectors) <= usize::MAX,
        vector_views(vectors).len() >= 1,
        forall|c: Seq<SetView>, k: int|
            cover_from(vector_views(vectors), c, width_of(vectors)) && 0 <= k < c.len() ==> (#[trigger] c[k]).1
                == vectors[c[k].0 as int]@,
{
    let v = vector_views(vectors);
    assert(vectors[0]@.len() == vectors[0].len());
    assert forall|i: int| 0 <= i < v.len() implies (#[trigger] v[i]).1.len() == width_of(vectors) && nonempty(v[i].1) by {
        assert(v[i].1 == vectors[i]@);
    }
    assert forall|i: int, j: int| 0 <= i < v.len() && 0 <= j < v.len() && i != j implies (#[trigger] v[i]).0 != (
    #[trigger] v[j]).0 by {
        assert(v[i].0 == i as usize && v[j].0 == j as usize);
    }
    assert forall|c: Seq<SetView>, k: int|
        cover_from(v, c, width_of(vectors)) && 0 <= k < c.len() implies (#[trigger] c[k]).1 == vectors[c[k].0 as int]@ by {
        assert(v.contains(c[k]));
        let i = choose|i: int| 0 <= i < v.len() && v[i] == c[k];
        assert(v[i] == (i as usize, vectors[i]@));
        assert(c[k].0 as int == i);
    }
}

} // verus!
