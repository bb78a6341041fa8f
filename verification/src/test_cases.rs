//! Random exact cover problems with a known answer: the numbers `0..n`,
//! shuffled and cut into consecutive runs, one set per run.
use vstd::prelude::*;
use rand::Rng;
use rand::rngs::ThreadRng;
use std::collections::BTreeSet;
use crate::sorting::{sort, sorted, strictly_increasing, lemma_count_two, lemma_two_places};

verus! {

broadcast use {vstd::std_specs::btree::group_btree_axioms, vstd::laws_cmp::group_laws_cmp};

#[verifier::external_type_specification]
#[verifier::external_body]
pub struct ExThreadRng(ThreadRng);

/// `rand::Rng::gen_range` on the range `lo..hi`: a number of the range,
/// which must not be empty (the call panics on an empty range).  Which
/// number comes out is left open.
#[verifier::external_body]
fn random_in(rng: &mut ThreadRng, lo: usize, hi: usize) -> (r: usize)
    requires
        lo < hi,
    ensures
        lo <= r < hi,
{
    rng.gen_range(lo..hi)
}

/// `k` is at some place of `p`.
pub open spec fn placed(p: Seq<usize>, k: int) -> bool {
    exists|i: int| 0 <= i < p.len() && #[trigger] p[i] == k
}

/// `p` holds each of the numbers `0..n` once.
pub open spec fn is_permutation_of(p: Seq<usize>, n: int) -> bool {
    &&& p.len() == n
    &&& forall|i: int| 0 <= i < n ==> (#[trigger] p[i]) < n
    &&& forall|i: int, j: int| 0 <= i < n && 0 <= j < n && i != j ==> (#[trigger] p[i]) != (#[trigger] p[j])
    &&& forall|k: int| 0 <= k < n ==> #[trigger] placed(p, k)
}

/// The numbers `0..n` in a random order: from the last place down, each
/// place swaps its number with that of a random place.
fn random_permutation(rng: &mut ThreadRng, n: usize) -> (p: Vec<usize>)
    requires
        n >= 1,
    ensures
        is_permutation_of(p@, n as int),
{
    let mut permutation: Vec<usize> = Vec::new();
    let mut k: usize = 0;
    while k < n
        invariant
            k <= n,
            permutation@.len() == k,
            forall|i: int| 0 <= i < k ==> permutation@[i] == i,
        decreases n - k,
    {
        permutation.push(k);
        k += 1;
    }
    assert forall|k: int| 0 <= k < n implies #[trigger] placed(permutation@, k) by {
        assert(permutation@[k] == k);
    }
    let mut i: usize = n - 1;
    while i > 0
        invariant
            i < n,
            is_permutation_of(permutation@, n as int),
        decreases i,
    {
        let selection = random_in(rng, 0, n);
        let ghost s = permutation@;
        let val = permutation[i];
        let other = permutation[selection];
        permutation.set(i, other);
        permutation.set(selection, val);
        proof {
            let t = permutation@;
            let swap = |a: int| if a == i as int { selection as int } else if a == selection as int { i as int } else { a };
            assert forall|a: int| 0 <= a < n implies #[trigger] t[a] == s[swap(a)] by {
            }
            assert forall|a: int, b: int| 0 <= a < n && 0 <= b < n && a != b implies (#[trigger] t[a]) != (#[trigger] t[b]) by {
                assert(t[a] == s[swap(a)] && t[b] == s[swap(b)]);
                assert(swap(a) != swap(b));
            }
            assert forall|a: int| 0 <= a < n implies (#[trigger] t[a]) < n by {
                assert(t[a] == s[swap(a)]);
            }
            assert forall|v: int| 0 <= v < n implies #[trigger] placed(t, v) by {
                assert(placed(s, v));
                let a = choose|a: int| 0 <= a < n && #[trigger] s[a] == v;
                let b = swap(a);
                assert(t[b] == s[swap(b)]);
                assert(swap(b) == a);
            }
        }
        i -= 1;
    }
    permutation
}

/// The runs `ranges` are non-empty, follow each other without gap or
/// overlap, and together make up `0..n`.
pub open spec fn runs_of(ranges: Seq<(usize, usize)>, n: int) -> bool {
    &&& ranges.len() > 0
    &&& ranges[0].0 == 0
    &&& ranges.last().1 == n
    &&& forall|s: int| 0 <= s < ranges.len() ==> (#[trigger] ranges[s]).0 < ranges[s].1
    &&& forall|s: int| 0 <= s < ranges.len() - 1 ==> (#[trigger] ranges[s]).1 == ranges[s + 1].0
}

/// `0..n` cut at `r` random places from `2..n-1`; places drawn twice cut
/// once.
fn generate_set_sizes(rng: &mut ThreadRng, n: usize, r: usize) -> (ranges: Vec<(usize, usize)>)
    requires
        n >= 1,
        r > 0 ==> n >= 4,
    ensures
        runs_of(ranges@, n as int),
{
    let mut boundaries: Vec<usize> = Vec::new();
    let mut k: usize = 0;
    while k < r
        invariant
            k <= r,
            r > 0 ==> n >= 4,
            forall|j: int| 0 <= j < boundaries@.len() ==> 2 <= #[trigger] boundaries@[j] <= n - 2,
        decreases r - k,
    {
        let val = 1 + random_in(rng, 1, n - 2);
        boundaries.push(val);
        k += 1;
    }
    let ghost drawn = boundaries@;
    sort(&mut boundaries);
    proof {
        boundaries@.to_multiset_ensures();
        drawn.to_multiset_ensures();
        assert forall|j: int| 0 <= j < boundaries@.len() implies 2 <= #[trigger] boundaries@[j] <= n - 2 by {
            assert(boundaries@.contains(boundaries@[j]));
            assert(boundaries@.to_multiset().count(boundaries@[j]) > 0);
            assert(drawn.contains(boundaries@[j]));
        }
    }
    let mut ranges: Vec<(usize, usize)> = Vec::new();
    let mut prev_bound: usize = 0;
    let mut j: usize = 0;
    while j < boundaries.len()
        invariant
            j <= boundaries@.len(),
            sorted(boundaries@),
            forall|q: int| 0 <= q < boundaries@.len() ==> 2 <= #[trigger] boundaries@[q] <= n - 2,
            j > 0 ==> prev_bound == boundaries@[j - 1],
            j == 0 ==> prev_bound == 0,
            ranges@.len() == 0 ==> prev_bound == 0,
            ranges@.len() > 0 ==> ranges@[0].0 == 0 && ranges@.last().1 == prev_bound,
            forall|s: int| 0 <= s < ranges@.len() ==> (#[trigger] ranges@[s]).0 < ranges@[s].1,
            forall|s: int| 0 <= s < ranges@.len() - 1 ==> (#[trigger] ranges@[s]).1 == ranges@[s + 1].0,
        decreases boundaries@.len() - j,
    {
        let bound = boundaries[j];
        if prev_bound != bound {
            let ghost old_ranges = ranges@;
            ranges.push((prev_bound, bound));
            proof {
                assert forall|s: int| 0 <= s < ranges@.len() - 1 implies (#[trigger] ranges@[s]).1 == ranges@[s + 1].0 by {
                    if s < old_ranges.len() - 1 {
                        assert(ranges@[s] == old_ranges[s] && ranges@[s + 1] == old_ranges[s + 1]);
                    } else {
                        assert(ranges@[s] == old_ranges.last());
                    }
                }
                assert forall|s: int| 0 <= s < ranges@.len() implies (#[trigger] ranges@[s]).0 < ranges@[s].1 by {
                    if s < old_ranges.len() {
                        assert(ranges@[s] == old_ranges[s]);
                    } else if j > 0 {
                        assert(boundaries@[j - 1] <= boundaries@[j as int]);
                    }
                }
            }
            prev_bound = bound;
        }
        j += 1;
    }
    let ghost old_ranges = ranges@;
    ranges.push((prev_bound, n));
    proof {
        if j > 0 {
            assert(prev_bound == boundaries@[j - 1]);
        }
        assert forall|s: int| 0 <= s < ranges@.len() - 1 implies (#[trigger] ranges@[s]).1 == ranges@[s + 1].0 by {
            if s < old_ranges.len() - 1 {
                assert(ranges@[s] == old_ranges[s] && ranges@[s + 1] == old_ranges[s + 1]);
            } else {
                assert(ranges@[s] == old_ranges.last());
            }
        }
        assert forall|s: int| 0 <= s < ranges@.len() implies (#[trigger] ranges@[s]).0 < ranges@[s].1 by {
            if s < old_ranges.len() {
                assert(ranges@[s] == old_ranges[s]);
            }
        }
    }
    ranges
}

/// `k` is in one of the sets.
pub open spec fn in_some_set(sets: Seq<Vec<usize>>, k: int) -> bool {
    exists|s: int, q: int| 0 <= s < sets.len() && 0 <= q < sets[s]@.len() && #[trigger] sets[s]@[q] == k
}

/// The sets are non-empty, each in ascending order, and hold each of the
/// numbers `0..n` exactly once between them: the whole family is its one
/// exact cover.
pub open spec fn partition_of(sets: Seq<Vec<usize>>, n: int) -> bool {
    &&& forall|s: int| 0 <= s < sets.len() ==> (#[trigger] sets[s])@.len() > 0 && strictly_increasing(sets[s]@)
    &&& forall|s: int, q: int| 0 <= s < sets.len() && 0 <= q < sets[s]@.len() ==> #[trigger] sets[s]@[q] < n
    &&& forall|k: int| 0 <= k < n ==> #[trigger] in_some_set(sets, k)
    &&& forall|s1: int, q1: int, s2: int, q2: int|
        0 <= s1 < sets.len() && 0 <= q1 < sets[s1]@.len() && 0 <= s2 < sets.len() && 0 <= q2 < sets[s2]@.len()
            && #[trigger] sets[s1]@[q1] == #[trigger] sets[s2]@[q2] ==> s1 == s2 && q1 == q2
}

/// Runs that follow each other are ordered: an earlier one ends before a
/// later one starts.
proof fn lemma_runs_ordered(ranges: Seq<(usize, usize)>, n: int, s1: int, s2: int)
    requires
        runs_of(ranges, n),
        0 <= s1 < s2 < ranges.len(),
    ensures
        ranges[s1].1 <= ranges[s2].0,
    decreases s2 - s1,
{
    if s1 + 1 < s2 {
        lemma_runs_ordered(ranges, n, s1 + 1, s2);
    }
}

/// Each place of `0..n` lies in one of the runs.
proof fn lemma_runs_cover(ranges: Seq<(usize, usize)>, n: int, p: int, j: int) -> (s: int)
    requires
        runs_of(ranges, n),
        0 <= j < ranges.len(),
        0 <= p < ranges[j].1,
    ensures
        0 <= s <= j,
        ranges[s].0 <= p < ranges[s].1,
    decreases j,
{
    if p >= ranges[j].0 {
        j
    } else {
        assert(j > 0);
        assert(ranges[j - 1].1 == ranges[j].0);
        lemma_runs_cover(ranges, n, p, j - 1)
    }
}

/// A random exact cover problem over the numbers `0..n`: a random number of
/// random cuts, and the runs of a random order of the numbers, each sorted.
pub fn generate_exact_cover(rng: &mut ThreadRng, n: usize) -> (sets: Vec<Vec<usize>>)
    requires
        n >= 4,
    ensures
        partition_of(sets@, n as int),
{
    let r: usize = random_in(rng, 0, n - 1);
    let ranges = generate_set_sizes(rng, n, r);
    let permutation: Vec<usize> = random_permutation(rng, n);
    let ghost perm = permutation@;
    let mut sets: Vec<Vec<usize>> = Vec::new();
    let mut j: usize = 0;
    while j < ranges.len()
        invariant
            j <= ranges@.len(),
            runs_of(ranges@, n as int),
            is_permutation_of(perm, n as int),
            permutation@ == perm,
            sets@.len() == j,
            forall|s: int| 0 <= s < j ==> sorted((#[trigger] sets@[s])@) && sets@[s]@.to_multiset()
                == perm.subrange(ranges@[s].0 as int, ranges@[s].1 as int).to_multiset(),
        decreases ranges@.len() - j,
    {
        let (lo, hi) = ranges[j];
        proof {
            if j + 1 < ranges@.len() {
                lemma_runs_ordered(ranges@, n as int, j as int, ranges@.len() - 1);
            }
        }
        let mut set: Vec<usize> = Vec::new();
        let mut i: usize = lo;
        while i < hi
            invariant
                lo <= i <= hi <= n,
                permutation@ == perm,
                perm.len() == n,
                set@ == perm.subrange(lo as int, i as int),
            decreases hi - i,
        {
            set.push(permutation[i]);
            i += 1;
            proof {
                assert(set@ =~= perm.subrange(lo as int, i as int));
            }
        }
        sort(&mut set);
        let ghost old_sets = sets@;
        sets.push(set);
        proof {
            assert forall|s: int| 0 <= s < j + 1 implies sorted((#[trigger] sets@[s])@) && sets@[s]@.to_multiset()
                == perm.subrange(ranges@[s].0 as int, ranges@[s].1 as int).to_multiset() by {
                if s < j {
                    assert(sets@[s] == old_sets[s]);
                }
            }
        }
        j += 1;
    }
    proof {
        lemma_partition(sets@, ranges@, perm, n as int);
    }
    sets
}

/// The sorted runs of a permutation of `0..n` cut into runs partition
/// `0..n`.
proof fn lemma_partition(sets: Seq<Vec<usize>>, ranges: Seq<(usize, usize)>, perm: Seq<usize>, n: int)
    requires
        runs_of(ranges, n),
        is_permutation_of(perm, n),
        sets.len() == ranges.len(),
        forall|s: int| 0 <= s < sets.len() ==> sorted((#[trigger] sets[s])@) && sets[s]@.to_multiset()
            == perm.subrange(ranges[s].0 as int, ranges[s].1 as int).to_multiset(),
    ensures
        partition_of(sets, n),
{
    assert forall|s: int| 0 <= s < sets.len() implies ranges[s].1 <= n by {
        if s < sets.len() - 1 {
            lemma_runs_ordered(ranges, n, s, sets.len() - 1);
        }
    }
    // Where a number of a set stands in the permutation.
    assert forall|s: int, q: int| #![trigger sets[s]@[q]] 0 <= s < sets.len() && 0 <= q < sets[s]@.len() implies exists|p: int|
        ranges[s].0 <= p < ranges[s].1 && #[trigger] perm[p] == sets[s]@[q] by {
        let sub = perm.subrange(ranges[s].0 as int, ranges[s].1 as int);
        sets[s]@.to_multiset_ensures();
        sub.to_multiset_ensures();
        assert(sets[s]@.contains(sets[s]@[q]));
        assert(sets[s]@.to_multiset().count(sets[s]@[q]) > 0);
        assert(sub.to_multiset().count(sets[s]@[q]) > 0);
        assert(sub.contains(sets[s]@[q]));
        let k = choose|k: int| 0 <= k < sub.len() && sub[k] == sets[s]@[q];
        assert(perm[ranges[s].0 + k] == sets[s]@[q]);
    }
    assert forall|s: int| 0 <= s < sets.len() implies (#[trigger] sets[s])@.len() > 0 && strictly_increasing(sets[s]@) by {
        let sub = perm.subrange(ranges[s].0 as int, ranges[s].1 as int);
        sets[s]@.to_multiset_ensures();
        sub.to_multiset_ensures();
        assert forall|a: int, b: int| 0 <= a < b < sets[s]@.len() implies sets[s]@[a] < sets[s]@[b] by {
            if sets[s]@[a] == sets[s]@[b] {
                lemma_count_two(sets[s]@, a, b);
                lemma_two_places(sub, sets[s]@[a]);
                let (k, l) = choose|k: int, l: int| 0 <= k < sub.len() && 0 <= l < sub.len() && k != l && sub[k] == sets[s]@[a]
                    && sub[l] == sets[s]@[a];
                assert(perm[ranges[s].0 + k] == perm[ranges[s].0 + l]);
            }
        }
    }
    assert forall|s: int, q: int| 0 <= s < sets.len() && 0 <= q < sets[s]@.len() implies #[trigger] sets[s]@[q] < n by {
        let p = choose|p: int| ranges[s].0 <= p < ranges[s].1 && #[trigger] perm[p] == sets[s]@[q];
    }
    assert forall|k: int| 0 <= k < n implies #[trigger] in_some_set(sets, k) by {
        assert(placed(perm, k));
        let p = choose|p: int| 0 <= p < perm.len() && #[trigger] perm[p] == k;
        let s = lemma_runs_cover(ranges, n, p, ranges.len() - 1);
        let sub = perm.subrange(ranges[s].0 as int, ranges[s].1 as int);
        assert(sub[p - ranges[s].0] == perm[p]);
        sets[s]@.to_multiset_ensures();
        sub.to_multiset_ensures();
        assert(sub.contains(perm[p]));
        assert(sub.to_multiset().count(perm[p]) > 0);
        assert(sets[s]@.to_multiset().count(perm[p]) > 0);
        assert(sets[s]@.contains(perm[p]));
        let q = choose|q: int| 0 <= q < sets[s]@.len() && sets[s]@[q] == perm[p];
        assert(sets[s]@[q] == k);
    }
    assert forall|s1: int, q1: int, s2: int, q2: int|
        0 <= s1 < sets.len() && 0 <= q1 < sets[s1]@.len() && 0 <= s2 < sets.len() && 0 <= q2 < sets[s2]@.len()
            && #[trigger] sets[s1]@[q1] == #[trigger] sets[s2]@[q2] implies s1 == s2 && q1 == q2 by {
        let p1 = choose|p: int| ranges[s1].0 <= p < ranges[s1].1 && #[trigger] perm[p] == sets[s1]@[q1];
        let p2 = choose|p: int| ranges[s2].0 <= p < ranges[s2].1 && #[trigger] perm[p] == sets[s2]@[q2];
        assert(p1 == p2);
        if s1 < s2 {
            lemma_runs_ordered(ranges, n, s1, s2);
        } else if s2 < s1 {
            lemma_runs_ordered(ranges, n, s2, s1);
        }
        assert(s1 == s2);
        assert(strictly_increasing(sets[s1]@));
        if q1 < q2 {
            assert(sets[s1]@[q1] < sets[s1]@[q2]);
        } else if q2 < q1 {
            assert(sets[s1]@[q2] < sets[s1]@[q1]);
        }
    }
}

/// The numbers at places `0..i` of `set`.
pub open spec fn seen(set: Seq<usize>, i: int) -> Set<usize> {
    Set::new(|x: usize| exists|j: int| 0 <= j < i && set[j] == x)
}

/// Whether no number occurs twice in `set`.
pub fn is_permutation(set: &[usize]) -> (r: bool)
    ensures
        r == set@.no_duplicates(),
{
    let mut visited: BTreeSet<usize> = BTreeSet::new();
    let mut i: usize = 0;
    assert(visited@ =~= seen(set@, 0));
    while i < set.len()
        invariant
            i <= set@.len(),
            visited@ == seen(set@, i as int),
            forall|a: int, b: int| 0 <= a < b < i ==> set@[a] != set@[b],
        decreases set@.len() - i,
    {
        let elem = set[i];
        if visited.contains(&elem) {
            proof {
                let j = choose|j: int| 0 <= j < i && set@[j] == elem;
                assert(set@[j] == set@[i as int]);
            }
            return false;
        }
        visited.insert(elem);
        proof {
            assert(visited@ =~= seen(set@, i + 1));
        }
        i += 1;
    }
    true
}

/// No number occurs twice in the sets, within one set or across two.
pub open spec fn all_distinct(sets: Seq<Vec<usize>>) -> bool {
    forall|s1: int, q1: int, s2: int, q2: int|
        0 <= s1 < sets.len() && 0 <= q1 < sets[s1]@.len() && 0 <= s2 < sets.len() && 0 <= q2 < sets[s2]@.len()
            && (s1 != s2 || q1 != q2) ==> #[trigger] sets[s1]@[q1] != #[trigger] sets[s2]@[q2]
}

/// The numbers of the sets before set `s`, and of set `s` before place `q`.
pub open spec fn seen_sets(sets: Seq<Vec<usize>>, s: int, q: int) -> Set<usize> {
    Set::new(|x: usize| exists|s2: int, q2: int|
        0 <= s2 < sets.len() && 0 <= q2 < sets[s2]@.len() && (s2 < s || (s2 == s && q2 < q)) && sets[s2]@[q2] == x)
}

/// Whether no number occurs twice in the sets.
pub fn is_disjoint(sets: &[Vec<usize>]) -> (r: bool)
    ensures
        r == all_distinct(sets@),
{
    let mut visited: BTreeSet<usize> = BTreeSet::new();
    let mut s: usize = 0;
    assert(visited@ =~= seen_sets(sets@, 0, 0));
    while s < sets.len()
        invariant
            s <= sets@.len(),
            visited@ == seen_sets(sets@, s as int, 0),
            forall|s1: int, q1: int, s2: int, q2: int|
                0 <= s1 < s && 0 <= q1 < sets@[s1]@.len() && 0 <= s2 < s && 0 <= q2 < sets@[s2]@.len()
                    && (s1 != s2 || q1 != q2) ==> #[trigger] sets@[s1]@[q1] != #[trigger] sets@[s2]@[q2],
        decreases sets@.len() - s,
    {
        let set = &sets[s];
        let mut q: usize = 0;
        while q < set.len()
            invariant
                s < sets@.len(),
                *set == sets@[s as int],
                q <= set@.len(),
                visited@ == seen_sets(sets@, s as int, q as int),
                forall|s1: int, q1: int, s2: int, q2: int|
                    0 <= s1 < sets@.len() && 0 <= q1 < sets@[s1]@.len() && 0 <= s2 < sets@.len() && 0 <= q2 < sets@[s2]@.len()
                        && (s1 < s || (s1 == s && q1 < q)) && (s2 < s || (s2 == s && q2 < q))
                        && (s1 != s2 || q1 != q2) ==> #[trigger] sets@[s1]@[q1] != #[trigger] sets@[s2]@[q2],
            decreases set@.len() - q,
        {
            let elem = set[q];
            if visited.contains(&elem) {
                proof {
                    let (s2, q2) = choose|s2: int, q2: int| 0 <= s2 < sets@.len() && 0 <= q2 < sets@[s2]@.len()
                        && (s2 < s || (s2 == s && q2 < q)) && sets@[s2]@[q2] == elem;
                    assert(sets@[s2]@[q2] == sets@[s as int]@[q as int]);
                }
                return false;
            }
            visited.insert(elem);
            proof {
                assert(visited@ =~= seen_sets(sets@, s as int, q + 1));
            }
            q += 1;
        }
        proof {
            assert(visited@ =~= seen_sets(sets@, s + 1, 0));
        }
        s += 1;
    }
    true
}

} // verus!
