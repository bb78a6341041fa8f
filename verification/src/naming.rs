//! Element names: the distinct names of a family of named sets, and the
//! index sets that stand for the non-empty sets.
use vstd::prelude::*;
use crate::dlx_table::{total_len, view_sets};

verus! {

/// `n` is one of the names of `set`.
pub open spec fn has_name(set: Seq<&str>, n: Seq<char>) -> bool {
    exists|q: int| 0 <= q < set.len() && #[trigger] set[q]@ == n
}

/// `n` is one of the names in `v`.
pub open spec fn has_name_s(v: Seq<String>, n: Seq<char>) -> bool {
    exists|q: int| 0 <= q < v.len() && #[trigger] v[q]@ == n
}

/// The number of names in all sets together, repeats counted.
pub open spec fn total_names(sets: Seq<Vec<&str>>) -> int
    decreases sets.len(),
{
    if sets.len() == 0 {
        0
    } else {
        total_names(sets.drop_last()) + sets.last()@.len()
    }
}

pub proof fn lemma_total_names_take(sets: Seq<Vec<&str>>, i: int)
    requires
        0 <= i < sets.len(),
    ensures
        total_names(sets.take(i)) + sets[i]@.len() <= total_names(sets),
        total_names(sets.take(i + 1)) == total_names(sets.take(i)) + sets[i]@.len(),
        total_names(sets.take(i)) >= 0,
    decreases sets.len(), i,
{
    assert(sets.take(i + 1).drop_last() =~= sets.take(i));
    if i + 1 < sets.len() {
        lemma_total_names_take(sets.drop_last(), i);
        assert(sets.drop_last().take(i) =~= sets.take(i));
        assert(sets.drop_last().take(i + 1) =~= sets.take(i + 1));
    } else {
        assert(sets.take(i) =~= sets.drop_last());
        if i > 0 {
            lemma_total_names_take(sets, i - 1);
        }
    }
}

/// `n` is a name of one of the sets.
pub open spec fn name_in(sets: Seq<Vec<&str>>, n: Seq<char>) -> bool {
    exists|s: int, q: int| 0 <= s < sets.len() && 0 <= q < sets[s]@.len() && #[trigger] sets[s]@[q]@ == n
}

/// No two names of a set are the same.
pub open spec fn distinct_names(set: Seq<&str>) -> bool {
    forall|q1: int, q2: int| 0 <= q1 < q2 < set.len() ==> (#[trigger] set[q1])@ != (#[trigger] set[q2])@
}

/// `names` holds each name of `sets` once, and nothing else.
pub open spec fn names_of(sets: Seq<Vec<&str>>, names: Seq<String>) -> bool {
    &&& forall|i: int, j: int| 0 <= i < j < names.len() ==> (#[trigger] names[i])@ != (#[trigger] names[j])@
    &&& forall|s: int, q: int| 0 <= s < sets.len() && 0 <= q < sets[s]@.len()
        ==> #[trigger] has_name_s(names, sets[s]@[q]@)
    &&& forall|p: int| 0 <= p < names.len() ==> name_in(sets, #[trigger] names[p]@)
}

/// `v` holds the names of `set`, in some order.
pub open spec fn same_names(v: Seq<String>, set: Seq<&str>) -> bool {
    &&& v.len() == set.len()
    &&& forall|n: Seq<char>| #[trigger] has_name_s(v, n) == has_name(set, n)
}

/// `v` holds the names of one of the sets that have a name.
pub open spec fn names_a_set(sets: Seq<Vec<&str>>, v: Seq<String>) -> bool {
    exists|j: int| 0 <= j < sets.len() && sets[j]@.len() > 0 && #[trigger] same_names(v, sets[j]@)
}

/// `c` is an exact cover of the names of `sets`: each of its sets holds
/// the names of one of the sets, every name is in one of them, and no name
/// is in two.
pub open spec fn names_cover(sets: Seq<Vec<&str>>, c: Seq<Vec<String>>) -> bool {
    &&& forall|i: int| 0 <= i < c.len() ==> #[trigger] names_a_set(sets, c[i]@)
    &&& forall|n: Seq<char>| #[trigger] name_in(sets, n) ==> exists|i: int| 0 <= i < c.len() && #[trigger] has_name_s(c[i]@, n)
    &&& forall|i: int, i2: int, n: Seq<char>|
        0 <= i < c.len() && 0 <= i2 < c.len() && i != i2 && #[trigger] has_name_s(c[i]@, n) ==> !#[trigger] has_name_s(c[i2]@, n)
}

/// The sets at places `js` have a name each, and together hold every name
/// of `sets` exactly once.
pub open spec fn exact_sets(sets: Seq<Vec<&str>>, js: Set<int>) -> bool {
    &&& js.finite()
    &&& forall|j: int| #[trigger] js.contains(j) ==> 0 <= j < sets.len() && sets[j]@.len() > 0
    &&& forall|n: Seq<char>| #[trigger] name_in(sets, n) ==> exists|j: int| js.contains(j) && #[trigger] has_name(sets[j]@, n)
    &&& forall|j1: int, j2: int, n: Seq<char>|
        js.contains(j1) && js.contains(j2) && #[trigger] has_name(sets[j1]@, n) && #[trigger] has_name(sets[j2]@, n) ==> j1 == j2
}

/// `c` lists the sets at places `js`, one set of names for each.
pub open spec fn lists_sets(sets: Seq<Vec<&str>>, c: Seq<Vec<String>>, js: Set<int>) -> bool {
    &&& c.len() == js.len()
    &&& forall|j: int| #[trigger] js.contains(j) ==> exists|i: int| 0 <= i < c.len() && #[trigger] same_names(c[i]@, sets[j]@)
}

/// `names`, `idx` and `kept` are what `element_names` and `index_sets`
/// give for `sets`.
pub open spec fn indexed(sets: Seq<Vec<&str>>, names: Seq<String>, idx: Seq<Vec<usize>>, kept: Seq<usize>) -> bool {
    &&& names_of(sets, names)
    &&& sets.len() <= usize::MAX
    &&& idx.len() == kept.len()
    &&& forall|i: int, j: int| 0 <= i < j < kept.len() ==> kept[i] < kept[j]
    &&& forall|i: int| 0 <= i < kept.len() ==> (#[trigger] kept[i]) < sets.len() && sets[kept[i] as int]@.len() > 0
    &&& forall|j: int| 0 <= j < sets.len() && (#[trigger] sets[j])@.len() > 0 ==> kept.contains(j as usize)
    &&& forall|i: int| 0 <= i < idx.len() ==> (#[trigger] idx[i])@.len() == sets[kept[i] as int]@.len()
    &&& forall|i: int, q: int| 0 <= i < idx.len() && 0 <= q < idx[i]@.len() ==> (#[trigger] idx[i]@[q]) < names.len()
        && names[idx[i]@[q] as int]@ == sets[kept[i] as int]@[q]@
}

/// `w` is `v` with each index replaced by its name.
pub open spec fn named(names: Seq<String>, v: Seq<usize>, w: Seq<String>) -> bool {
    &&& w.len() == v.len()
    &&& forall|k: int| 0 <= k < v.len() ==> (#[trigger] v[k]) < names.len() && w[k]@ == names[v[k] as int]@
}

/// Each set of `w` is the set of `c` with each index replaced by its name.
pub open spec fn named_cover(names: Seq<String>, c: Seq<Vec<usize>>, w: Seq<Vec<String>>) -> bool {
    &&& w.len() == c.len()
    &&& forall|i: int| 0 <= i < c.len() ==> #[trigger] named(names, c[i]@, w[i]@)
}

/// Where `name` stands in `names`.
pub fn position(names: &Vec<String>, name: &String) -> (r: Option<usize>)
    ensures
        r is Some ==> r->0 < names@.len() && names@[r->0 as int]@ == name@,
        r is None ==> !has_name_s(names@, name@),
{
    let mut p: usize = 0;
    while p < names.len()
        invariant
            p <= names@.len(),
            forall|j: int| 0 <= j < p ==> (#[trigger] names@[j])@ != name@,
        decreases names@.len() - p,
    {
        if names[p] == *name {
            return Some(p);
        }
        p += 1;
    }
    None
}

/// The names of `sets`, each once, in the order they first appear.
pub fn element_names(sets: &Vec<Vec<&str>>) -> (names: Vec<String>)
    ensures
        names_of(sets@, names@),
        names@.len() <= total_names(sets@),
{
    let mut names: Vec<String> = Vec::new();
    let mut s: usize = 0;
    while s < sets.len()
        invariant
            s <= sets@.len(),
            forall|i: int, j: int| 0 <= i < j < names@.len() ==> (#[trigger] names@[i])@ != (#[trigger] names@[j])@,
            forall|t: int, q: int| 0 <= t < s && 0 <= q < sets@[t]@.len() ==> #[trigger] has_name_s(names@, sets@[t]@[q]@),
            forall|p: int| 0 <= p < names@.len() ==> name_in(sets@, #[trigger] names@[p]@),
            names@.len() <= total_names(sets@.take(s as int)),
        decreases sets@.len() - s,
    {
        proof {
            lemma_total_names_take(sets@, s as int);
        }
        let set = &sets[s];
        let mut q: usize = 0;
        while q < set.len()
            invariant
                s < sets@.len(),
                *set == sets@[s as int],
                q <= set@.len(),
                forall|i: int, j: int| 0 <= i < j < names@.len() ==> (#[trigger] names@[i])@ != (#[trigger] names@[j])@,
                forall|t: int, k: int| 0 <= t < s && 0 <= k < sets@[t]@.len() ==> #[trigger] has_name_s(names@, sets@[t]@[k]@),
                forall|k: int| 0 <= k < q ==> #[trigger] has_name_s(names@, set@[k]@),
                forall|p: int| 0 <= p < names@.len() ==> name_in(sets@, #[trigger] names@[p]@),
                names@.len() <= total_names(sets@.take(s as int)) + q,
            decreases set@.len() - q,
        {
            let name = set[q].to_owned();
            let ghost old_names = names@;
            match position(&names, &name) {
                Some(_) => {},
                None => {
                    names.push(name);
                    proof {
                        assert(names@[old_names.len() as int] == name);
                        assert forall|t: int, k: int| 0 <= t < s && 0 <= k < sets@[t]@.len() implies #[trigger] has_name_s(names@, sets@[t]@[k]@) by {
                            assert(has_name_s(old_names, sets@[t]@[k]@));
                            let p = choose|p: int| 0 <= p < old_names.len() && #[trigger] old_names[p]@ == sets@[t]@[k]@;
                            assert(names@[p] == old_names[p]);
                        }
                        assert forall|k: int| 0 <= k < q implies #[trigger] has_name_s(names@, set@[k]@) by {
                            assert(has_name_s(old_names, set@[k]@));
                            let p = choose|p: int| 0 <= p < old_names.len() && #[trigger] old_names[p]@ == set@[k]@;
                            assert(names@[p] == old_names[p]);
                        }
                        assert forall|p: int| 0 <= p < names@.len() implies name_in(sets@, #[trigger] names@[p]@) by {
                            if p < old_names.len() {
                                assert(names@[p] == old_names[p]);
                            } else {
                                assert(names@[p]@ == sets@[s as int]@[q as int]@);
                            }
                        }
                    }
                },
            }
            proof {
                assert(has_name_s(names@, set@[q as int]@)) by {
                    let p = choose|p: int| 0 <= p < names@.len() && names@[p]@ == name@;
                    assert(names@[p]@ == set@[q as int]@);
                }
            }
            q += 1;
        }
        s += 1;
    }
    proof {
        assert(sets@.take(sets@.len() as int) =~= sets@);
    }
    names
}

/// The index sets of the sets with at least one name, in order: for each
/// such set, the places in `names` of its names, and the place of the set
/// in `sets`.
pub fn index_sets(names: &Vec<String>, sets: &Vec<Vec<&str>>) -> (r: (Vec<Vec<usize>>, Vec<usize>))
    requires
        names_of(sets@, names@),
    ensures
        r.0@.len() == r.1@.len(),
        r.1@.len() <= sets@.len(),
        forall|i: int, j: int| 0 <= i < j < r.1@.len() ==> r.1@[i] < r.1@[j],
        forall|i: int| 0 <= i < r.1@.len() ==> (#[trigger] r.1@[i]) < sets@.len() && sets@[r.1@[i] as int]@.len() > 0,
        forall|j: int| 0 <= j < sets@.len() && (#[trigger] sets@[j])@.len() > 0 ==> r.1@.contains(j as usize),
        forall|i: int| 0 <= i < r.0@.len() ==> (#[trigger] r.0@[i])@.len() == sets@[r.1@[i] as int]@.len(),
        forall|i: int, q: int| 0 <= i < r.0@.len() && 0 <= q < r.0@[i]@.len() ==> (#[trigger] r.0@[i]@[q]) < names@.len()
            && names@[r.0@[i]@[q] as int]@ == sets@[r.1@[i] as int]@[q]@,
        total_len(view_sets(r.0@)) <= total_names(sets@),
{
    let mut idx: Vec<Vec<usize>> = Vec::new();
    let mut kept: Vec<usize> = Vec::new();
    let mut j: usize = 0;
    while j < sets.len()
        invariant
            names_of(sets@, names@),
            j <= sets@.len(),
            idx@.len() == kept@.len(),
            kept@.len() <= j,
            forall|a: int, b: int| 0 <= a < b < kept@.len() ==> kept@[a] < kept@[b],
            forall|i: int| 0 <= i < kept@.len() ==> (#[trigger] kept@[i]) < j && sets@[kept@[i] as int]@.len() > 0,
            forall|t: int| 0 <= t < j && (#[trigger] sets@[t])@.len() > 0 ==> kept@.contains(t as usize),
            forall|i: int| 0 <= i < idx@.len() ==> (#[trigger] idx@[i])@.len() == sets@[kept@[i] as int]@.len(),
            forall|i: int, q: int| 0 <= i < idx@.len() && 0 <= q < idx@[i]@.len() ==> (#[trigger] idx@[i]@[q]) < names@.len()
                && names@[idx@[i]@[q] as int]@ == sets@[kept@[i] as int]@[q]@,
            total_len(view_sets(idx@)) <= total_names(sets@.take(j as int)),
        decreases sets@.len() - j,
    {
        proof {
            lemma_total_names_take(sets@, j as int);
        }
        let ghost old_kept = kept@;
        let ghost old_idx = idx@;
        if sets[j].len() > 0 {
            proof {
                assert forall|q: int| 0 <= q < sets@[j as int]@.len() implies #[trigger] has_name_s(names@, sets@[j as int]@[q]@) by {
                }
            }
            let row = name_indices(names, &sets[j]);
            let ghost rv = row@;
            idx.push(row);
            kept.push(j);
            proof {
                assert(view_sets(idx@) =~= view_sets(old_idx).push(rv));
                assert(view_sets(idx@).drop_last() =~= view_sets(old_idx));
                assert forall|t: int| 0 <= t < j + 1 && (#[trigger] sets@[t])@.len() > 0 implies kept@.contains(t as usize) by {
                    if t < j {
                        let i = choose|i: int| 0 <= i < old_kept.len() && old_kept[i] == t as usize;
                        assert(kept@[i] == old_kept[i]);
                    } else {
                        assert(kept@[old_kept.len() as int] == j);
                    }
                }
                assert forall|i: int| 0 <= i < idx@.len() implies (#[trigger] idx@[i])@.len() == sets@[kept@[i] as int]@.len() by {
                    if i < old_idx.len() {
                        assert(idx@[i] == old_idx[i] && kept@[i] == old_kept[i]);
                    }
                }
                assert forall|i: int, q: int| 0 <= i < idx@.len() && 0 <= q < idx@[i]@.len() implies (#[trigger] idx@[i]@[q]) < names@.len()
                    && names@[idx@[i]@[q] as int]@ == sets@[kept@[i] as int]@[q]@ by {
                    if i < old_idx.len() {
                        assert(idx@[i] == old_idx[i] && kept@[i] == old_kept[i]);
                    }
                }
            }
        }
        j += 1;
    }
    proof {
        assert(sets@.take(sets@.len() as int) =~= sets@);
    }
    (idx, kept)
}

/// The places in `names` of the names of set `set`.
pub fn name_indices(names: &Vec<String>, set: &Vec<&str>) -> (idx: Vec<usize>)
    requires
        forall|q: int| 0 <= q < set@.len() ==> #[trigger] has_name_s(names@, set@[q]@),
    ensures
        idx@.len() == set@.len(),
        forall|q: int| 0 <= q < idx@.len() ==> (#[trigger] idx@[q]) < names@.len() && names@[idx@[q] as int]@ == set@[q]@,
{
    let mut idx: Vec<usize> = Vec::new();
    let mut q: usize = 0;
    while q < set.len()
        invariant
            q <= set@.len(),
            idx@.len() == q,
            forall|q: int| 0 <= q < set@.len() ==> #[trigger] has_name_s(names@, set@[q]@),
            forall|k: int| 0 <= k < q ==> (#[trigger] idx@[k]) < names@.len() && names@[idx@[k] as int]@ == set@[k]@,
        decreases set@.len() - q,
    {
        let name = set[q].to_owned();
        proof {
            assert(has_name_s(names@, set@[q as int]@));
        }
        match position(names, &name) {
            Some(p) => {
                idx.push(p);
            },
            None => {
                proof {
                    assert(has_name_s(names@, name@));
                }
                idx.push(0);
            },
        }
        q += 1;
    }
    idx
}

} // verus!
