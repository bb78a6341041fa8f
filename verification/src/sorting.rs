//! Sorting of index vectors.
use vstd::prelude::*;

verus! {

pub open spec fn sorted(s: Seq<usize>) -> bool {
    forall|i: int, j: int| 0 <= i < j < s.len() ==> s[i] <= s[j]
}

pub open spec fn strictly_increasing(s: Seq<usize>) -> bool {
    forall|i: int, j: int| 0 <= i < j < s.len() ==> s[i] < s[j]
}

/// Sorts `v` in ascending order, keeping its elements.
pub fn sort(v: &mut Vec<usize>)
    ensures
        sorted(final(v)@),
        final(v)@.to_multiset() == old(v)@.to_multiset(),
{
    let mut out: Vec<usize> = Vec::new();
    let mut i: usize = 0;
    proof {
        broadcast use vstd::multiset::group_multiset_axioms;
        assert(v@.take(0) =~= Seq::<usize>::empty());
        assert(out@ =~= Seq::<usize>::empty());
        assert(out@ == v@.take(0));
    }
    while i < v.len()
        invariant
            i <= v@.len(),
            sorted(out@),
            out@.to_multiset() == v@.take(i as int).to_multiset(),
        decreases v@.len() - i,
    {
        let x = v[i];
        let mut p: usize = 0;
        while p < out.len() && out[p] <= x
            invariant
                p <= out@.len(),
                forall|k: int| 0 <= k < p ==> out@[k] <= x,
            decreases out@.len() - p,
        {
            p += 1;
        }
        let ghost before = out@;
        out.insert(p, x);
        proof {
            broadcast use vstd::seq_lib::to_multiset_insert, vstd::seq_lib::to_multiset_build;
            assert(out@ == before.insert(p as int, x));
            assert(v@.take(i + 1) =~= v@.take(i as int).push(x));
            assert forall|a: int, b: int| 0 <= a < b < out@.len() implies out@[a] <= out@[b] by {
                if p < before.len() {
                    assert(before[p as int] > x);
                }
            }
        }
        i += 1;
    }
    proof {
        assert(v@.take(v@.len() as int) =~= v@);
    }
    *v = out;
}

/// A sorted vector whose elements are those of a strictly increasing one
/// is that vector.
pub proof fn lemma_sort_keeps_increasing(a: Seq<usize>, b: Seq<usize>)
    requires
        strictly_increasing(a),
        sorted(b),
        b.to_multiset() == a.to_multiset(),
    ensures
        b == a,
{
    let leq = |x: usize, y: usize| x <= y;
    assert(vstd::relations::sorted_by(a, leq));
    assert(vstd::relations::sorted_by(b, leq));
    assert(vstd::relations::total_ordering(leq));
    vstd::seq_lib::lemma_sorted_unique(a, b, leq);
}

/// Equal values at two places make a count of at least two.
pub proof fn lemma_count_two<A>(a: Seq<A>, i: int, j: int)
    requires
        0 <= i < a.len(),
        0 <= j < a.len(),
        i != j,
        a[i] == a[j],
    ensures
        a.to_multiset().count(a[i]) >= 2,
{
    a.to_multiset_ensures();
    let r = a.remove(i);
    r.to_multiset_ensures();
    let jj = if j < i { j } else { j - 1 };
    assert(r[jj] == a[j]);
    assert(r.contains(a[i]));
    assert(r.to_multiset().count(a[i]) > 0);
}

/// A count of at least two shows at two places.
pub proof fn lemma_two_places<A>(b: Seq<A>, x: A)
    requires
        b.to_multiset().count(x) >= 2,
    ensures
        exists|k: int, l: int| 0 <= k < b.len() && 0 <= l < b.len() && k != l && b[k] == x && b[l] == x,
{
    b.to_multiset_ensures();
    assert(b.contains(x));
    let k = choose|k: int| 0 <= k < b.len() && b[k] == x;
    let r = b.remove(k);
    r.to_multiset_ensures();
    assert(r.to_multiset().count(x) > 0);
    assert(r.contains(x));
    let l0 = choose|l0: int| 0 <= l0 < r.len() && r[l0] == x;
    let l = if l0 < k { l0 } else { l0 + 1 };
    assert(b[l] == x);
}

} // verus!
