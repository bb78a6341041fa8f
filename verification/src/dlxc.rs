//! Exact covering with colours: items are primary (covered exactly once)
//! or secondary (covered at most once, or by options that agree on its
//! colour).  The search goes depth first: it always takes the uncovered
//! primary item with the fewest options left that agree with the options
//! chosen so far (the first such), and tries those options in their order.
use vstd::prelude::*;
use std::time::Duration;
use std::time::Instant;
use crate::queens::{now, out_of_time, as_nanos, Search};
use rand::rngs::ThreadRng;
use rand::seq::SliceRandom;

verus! {

/// An item of an option: primary, secondary, or secondary with a colour.
#[derive(Clone, Copy, PartialEq, Eq, Debug)]
pub enum Item<P, S, C> {
    Primary(P),
    Secondary(S),
    ColoredSecondary(S, C),
}

/// Two items name the same primary item or the same secondary item.
pub open spec fn same_key(a: Item<usize, usize, usize>, b: Item<usize, usize, usize>) -> bool {
    match (a, b) {
        (Item::Primary(p), Item::Primary(q)) => p == q,
        (Item::Primary(_), _) => false,
        (_, Item::Primary(_)) => false,
        (Item::Secondary(s), Item::Secondary(t)) => s == t,
        (Item::Secondary(s), Item::ColoredSecondary(t, _)) => s == t,
        (Item::ColoredSecondary(s, _), Item::Secondary(t)) => s == t,
        (Item::ColoredSecondary(s, _), Item::ColoredSecondary(t, _)) => s == t,
    }
}

/// Two options agree: they share no primary item, and a secondary item in
/// both has the same colour in both.
pub open spec fn compatible(a: Seq<Item<usize, usize, usize>>, b: Seq<Item<usize, usize, usize>>) -> bool {
    forall|x: int, y: int|
        0 <= x < a.len() && 0 <= y < b.len() && #[trigger] same_key(a[x], b[y]) ==> (a[x] is ColoredSecondary && a[x] == b[y])
}

/// Option `set` holds a primary item.
pub open spec fn has_primary_item(set: Seq<Item<usize, usize, usize>>) -> bool {
    exists|q: int| 0 <= q < set.len() && #[trigger] set[q] is Primary
}

/// The options at places `js` are a solution: each holds a primary item,
/// every primary item is in one of them, and any two agree.
pub open spec fn colored_solution(sets: Seq<Vec<Item<usize, usize, usize>>>, primary: Seq<usize>, js: Set<int>) -> bool {
    &&& js.finite()
    &&& forall|j: int| #[trigger] js.contains(j) ==> 0 <= j < sets.len() && has_primary_item(sets[j]@)
    &&& forall|p: usize| #[trigger] primary.contains(p) ==> exists|j: int| js.contains(j) && #[trigger] sets[j]@.contains(Item::Primary(p))
    &&& forall|j1: int, j2: int| js.contains(j1) && js.contains(j2) && j1 != j2 ==> #[trigger] compatible(sets[j1]@, sets[j2]@)
}

/// Whether `a` and `b` name the same item.
fn same_key_exec(a: Item<usize, usize, usize>, b: Item<usize, usize, usize>) -> (r: bool)
    ensures
        r == same_key(a, b),
{
    match (a, b) {
        (Item::Primary(p), Item::Primary(q)) => p == q,
        (Item::Primary(_), _) => false,
        (_, Item::Primary(_)) => false,
        (Item::Secondary(s), Item::Secondary(t)) => s == t,
        (Item::Secondary(s), Item::ColoredSecondary(t, _)) => s == t,
        (Item::ColoredSecondary(s, _), Item::Secondary(t)) => s == t,
        (Item::ColoredSecondary(s, _), Item::ColoredSecondary(t, _)) => s == t,
    }
}

/// Whether two items of the same name agree: both coloured alike.
fn agree_exec(a: Item<usize, usize, usize>, b: Item<usize, usize, usize>) -> (r: bool)
    ensures
        r == (a is ColoredSecondary && a == b),
{
    match (a, b) {
        (Item::ColoredSecondary(s, c), Item::ColoredSecondary(t, d)) => s == t && c == d,
        _ => false,
    }
}

/// Whether two options agree.
fn compatible_exec(a: &Vec<Item<usize, usize, usize>>, b: &Vec<Item<usize, usize, usize>>) -> (r: bool)
    ensures
        r == compatible(a@, b@),
{
    let mut x: usize = 0;
    while x < a.len()
        invariant
            x <= a@.len(),
            forall|x2: int, y: int|
                0 <= x2 < x && 0 <= y < b@.len() && #[trigger] same_key(a@[x2], b@[y]) ==> (a@[x2] is ColoredSecondary && a@[x2] == b@[y]),
        decreases a@.len() - x,
    {
        let mut y: usize = 0;
        while y < b.len()
            invariant
                x < a@.len(),
                y <= b@.len(),
                forall|x2: int, y2: int|
                    0 <= x2 < x && 0 <= y2 < b@.len() && #[trigger] same_key(a@[x2], b@[y2]) ==> (a@[x2] is ColoredSecondary && a@[x2] == b@[y2]),
                forall|y2: int| 0 <= y2 < y && #[trigger] same_key(a@[x as int], b@[y2]) ==> (a@[x as int] is ColoredSecondary && a@[x as int] == b@[y2]),
            decreases b@.len() - y,
        {
            if same_key_exec(a[x], b[y]) && !agree_exec(a[x], b[y]) {
                return false;
            }
            y += 1;
        }
        x += 1;
    }
    true
}

/// Whether `set` holds primary item `p`.
fn has_primary_exec(set: &Vec<Item<usize, usize, usize>>, p: usize) -> (r: bool)
    ensures
        r == set@.contains(Item::Primary(p)),
{
    let mut q: usize = 0;
    while q < set.len()
        invariant
            q <= set@.len(),
            forall|k: int| 0 <= k < q ==> set@[k] != Item::<usize, usize, usize>::Primary(p),
        decreases set@.len() - q,
    {
        match set[q] {
            Item::Primary(x) => {
                if x == p {
                    assert(set@[q as int] == Item::<usize, usize, usize>::Primary(p));
                    return true;
                }
            },
            _ => {},
        }
        q += 1;
    }
    false
}

/// Option `j` agrees with every chosen option.
pub open spec fn fits(sets: Seq<Vec<Item<usize, usize, usize>>>, chosen: Seq<usize>, j: int) -> bool {
    forall|k: int| 0 <= k < chosen.len() ==> #[trigger] compatible(sets[chosen[k] as int]@, sets[j]@)
}

/// Primary item `p` is in a chosen option.
pub open spec fn is_covered(sets: Seq<Vec<Item<usize, usize, usize>>>, chosen: Seq<usize>, p: usize) -> bool {
    exists|k: int| 0 <= k < chosen.len() && #[trigger] sets[chosen[k] as int]@.contains(Item::Primary(p))
}

/// The chosen options are options, each once, each with a primary item,
/// and any two agree.
pub open spec fn chosen_ok(sets: Seq<Vec<Item<usize, usize, usize>>>, chosen: Seq<usize>) -> bool {
    &&& chosen.no_duplicates()
    &&& forall|k: int| 0 <= k < chosen.len() ==> (#[trigger] chosen[k]) < sets.len() && has_primary_item(sets[chosen[k] as int]@)
    &&& forall|a: int, b: int|
        0 <= a < chosen.len() && 0 <= b < chosen.len() && a != b ==> #[trigger] compatible(sets[chosen[a] as int]@, sets[chosen[b] as int]@)
}

/// Whether option `j` agrees with every chosen option.
fn fits_exec(sets: &Vec<Vec<Item<usize, usize, usize>>>, chosen: &Vec<usize>, j: usize) -> (r: bool)
    requires
        j < sets@.len(),
        forall|k: int| 0 <= k < chosen@.len() ==> (#[trigger] chosen@[k]) < sets@.len(),
    ensures
        r == fits(sets@, chosen@, j as int),
{
    let mut k: usize = 0;
    while k < chosen.len()
        invariant
            k <= chosen@.len(),
            j < sets@.len(),
            forall|k: int| 0 <= k < chosen@.len() ==> (#[trigger] chosen@[k]) < sets@.len(),
            forall|k2: int| 0 <= k2 < k ==> #[trigger] compatible(sets@[chosen@[k2] as int]@, sets@[j as int]@),
        decreases chosen@.len() - k,
    {
        if !compatible_exec(&sets[chosen[k]], &sets[j]) {
            return false;
        }
        k += 1;
    }
    true
}

/// Whether primary item `p` is in a chosen option.
fn covered_exec(sets: &Vec<Vec<Item<usize, usize, usize>>>, chosen: &Vec<usize>, p: usize) -> (r: bool)
    requires
        forall|k: int| 0 <= k < chosen@.len() ==> (#[trigger] chosen@[k]) < sets@.len(),
    ensures
        r == is_covered(sets@, chosen@, p),
{
    let mut k: usize = 0;
    while k < chosen.len()
        invariant
            k <= chosen@.len(),
            forall|k: int| 0 <= k < chosen@.len() ==> (#[trigger] chosen@[k]) < sets@.len(),
            forall|k2: int| 0 <= k2 < k ==> !(#[trigger] sets@[chosen@[k2] as int]@.contains(Item::Primary(p))),
        decreases chosen@.len() - k,
    {
        if has_primary_exec(&sets[chosen[k]], p) {
            return true;
        }
        k += 1;
    }
    false
}

/// The options that hold primary item `p` and agree with every chosen
/// option, in their order.
fn candidates(sets: &Vec<Vec<Item<usize, usize, usize>>>, chosen: &Vec<usize>, p: usize) -> (r: Vec<usize>)
    requires
        forall|k: int| 0 <= k < chosen@.len() ==> (#[trigger] chosen@[k]) < sets@.len(),
    ensures
        forall|a: int, b: int| 0 <= a < b < r@.len() ==> r@[a] < r@[b],
        forall|k: int| 0 <= k < r@.len() ==> (#[trigger] r@[k]) < sets@.len(),
        forall|j: int|
            0 <= j < sets@.len() && #[trigger] sets@[j]@.contains(Item::Primary(p)) && fits(sets@, chosen@, j) ==> r@.contains(j as usize),
        forall|k: int| 0 <= k < r@.len() ==> sets@[#[trigger] r@[k] as int]@.contains(Item::Primary(p)) && fits(sets@, chosen@, r@[k] as int),
{
    let mut r: Vec<usize> = Vec::new();
    let mut j: usize = 0;
    while j < sets.len()
        invariant
            j <= sets@.len(),
            forall|k: int| 0 <= k < chosen@.len() ==> (#[trigger] chosen@[k]) < sets@.len(),
            forall|a: int, b: int| 0 <= a < b < r@.len() ==> r@[a] < r@[b],
            forall|k: int| 0 <= k < r@.len() ==> (#[trigger] r@[k]) < j,
            forall|i: int|
                0 <= i < j && #[trigger] sets@[i]@.contains(Item::Primary(p)) && fits(sets@, chosen@, i) ==> r@.contains(i as usize),
            forall|k: int| 0 <= k < r@.len() ==> sets@[#[trigger] r@[k] as int]@.contains(Item::Primary(p)) && fits(sets@, chosen@, r@[k] as int),
        decreases sets@.len() - j,
    {
        let ghost before = r@;
        if has_primary_exec(&sets[j], p) && fits_exec(sets, chosen, j) {
            r.push(j);
            proof {
                assert forall|i: int|
                    0 <= i < j + 1 && #[trigger] sets@[i]@.contains(Item::Primary(p)) && fits(sets@, chosen@, i) implies r@.contains(i as usize) by {
                    if i < j {
                        let k = choose|k: int| 0 <= k < before.len() && before[k] == i as usize;
                        assert(r@[k] == before[k]);
                    } else {
                        assert(r@[before.len() as int] == j);
                    }
                }
            }
        }
        j += 1;
    }
    r
}

/// `r` is a next step of the search: `None` when every primary item is
/// covered, else an uncovered primary item and, in order, all options that
/// hold it and agree with the chosen ones.
pub open spec fn choice(
    sets: Seq<Vec<Item<usize, usize, usize>>>,
    primary: Seq<usize>,
    chosen: Seq<usize>,
    r: Option<(usize, Vec<usize>)>,
) -> bool {
    &&& r is None ==> forall|p: usize| #[trigger] primary.contains(p) ==> is_covered(sets, chosen, p)
    &&& r matches Some((p, cand)) ==> {
        &&& primary.contains(p)
        &&& !is_covered(sets, chosen, p)
        &&& forall|a: int, b: int| 0 <= a < b < cand@.len() ==> cand@[a] < cand@[b]
        &&& forall|k: int| 0 <= k < cand@.len() ==> (#[trigger] cand@[k]) < sets.len()
        &&& forall|j: int|
            0 <= j < sets.len() && #[trigger] sets[j]@.contains(Item::Primary(p)) && fits(sets, chosen, j) ==> cand@.contains(j as usize)
        &&& forall|k: int| 0 <= k < cand@.len() ==> sets[#[trigger] cand@[k] as int]@.contains(Item::Primary(p)) && fits(sets, chosen, cand@[k] as int)
    }
}

/// `rand::thread_rng`: the random number generator of this thread.
/// Nothing is stated of it.
#[verifier::external_body]
fn thread_rng() -> ThreadRng {
    rand::thread_rng()
}

/// `SliceRandom::choose` on the items of `v`: one of them, picked at
/// random; `None` just when `v` is empty.  Which one comes out is left
/// open.
#[verifier::external_body]
fn pick(v: &Vec<usize>, rng: &mut ThreadRng) -> (r: Option<usize>)
    ensures
        r matches Some(x) ==> v@.contains(x),
        r is None <==> v@.len() == 0,
{
    v.as_slice().choose(rng).copied()
}

/// An uncovered primary item with the fewest candidates, picked at random
/// among those with that many, and its candidates; `None` when every
/// primary item is covered.
fn choose_item_randomized(
    sets: &Vec<Vec<Item<usize, usize, usize>>>,
    primary: &Vec<usize>,
    chosen: &Vec<usize>,
    rng: &mut ThreadRng,
) -> (r: Option<(usize, Vec<usize>)>)
    requires
        forall|k: int| 0 <= k < chosen@.len() ==> (#[trigger] chosen@[k]) < sets@.len(),
    ensures
        choice(sets@, primary@, chosen@, r),
{
    let fewest = match choose_item(sets, primary, chosen) {
        None => {
            return None;
        },
        Some((_, cand)) => cand.len(),
    };
    let mut ties: Vec<usize> = Vec::new();
    let mut k: usize = 0;
    while k < primary.len()
        invariant
            k <= primary@.len(),
            forall|k: int| 0 <= k < chosen@.len() ==> (#[trigger] chosen@[k]) < sets@.len(),
            forall|m: int| 0 <= m < ties@.len() ==> primary@.contains(#[trigger] ties@[m]) && !is_covered(sets@, chosen@, ties@[m]),
        decreases primary@.len() - k,
    {
        let p = primary[k];
        if !covered_exec(sets, chosen, p) {
            let cand = candidates(sets, chosen, p);
            if cand.len() == fewest {
                proof {
                    assert(primary@[k as int] == p);
                }
                ties.push(p);
            }
        }
        k += 1;
    }
    match pick(&ties, rng) {
        None => choose_item(sets, primary, chosen),
        Some(p) => {
            proof {
                let m = choose|m: int| 0 <= m < ties@.len() && ties@[m] == p;
                assert(primary@.contains(ties@[m]));
            }
            let cand = candidates(sets, chosen, p);
            Some((p, cand))
        },
    }
}

/// The next step of the search: the first best primary item, or one picked
/// at random among the best.
fn choose_next(
    sets: &Vec<Vec<Item<usize, usize, usize>>>,
    primary: &Vec<usize>,
    chosen: &Vec<usize>,
    randomized: bool,
    rng: &mut ThreadRng,
) -> (r: Option<(usize, Vec<usize>)>)
    requires
        forall|k: int| 0 <= k < chosen@.len() ==> (#[trigger] chosen@[k]) < sets@.len(),
    ensures
        choice(sets@, primary@, chosen@, r),
{
    if randomized {
        choose_item_randomized(sets, primary, chosen, rng)
    } else {
        choose_item(sets, primary, chosen)
    }
}

/// The first uncovered primary item with the fewest candidates, and its
/// candidates; `None` when every primary item is covered.
fn choose_item(sets: &Vec<Vec<Item<usize, usize, usize>>>, primary: &Vec<usize>, chosen: &Vec<usize>) -> (r: Option<(usize, Vec<usize>)>)
    requires
        forall|k: int| 0 <= k < chosen@.len() ==> (#[trigger] chosen@[k]) < sets@.len(),
    ensures
        choice(sets@, primary@, chosen@, r),
{
    let mut best: Option<(usize, Vec<usize>)> = None;
    let mut k: usize = 0;
    while k < primary.len()
        invariant
            k <= primary@.len(),
            forall|k: int| 0 <= k < chosen@.len() ==> (#[trigger] chosen@[k]) < sets@.len(),
            best is None ==> forall|i: int| 0 <= i < k ==> is_covered(sets@, chosen@, #[trigger] primary@[i]),
            best matches Some((p, cand)) ==> {
                &&& primary@.contains(p)
                &&& !is_covered(sets@, chosen@, p)
                &&& forall|a: int, b: int| 0 <= a < b < cand@.len() ==> cand@[a] < cand@[b]
                &&& forall|k: int| 0 <= k < cand@.len() ==> (#[trigger] cand@[k]) < sets@.len()
                &&& forall|j: int|
                    0 <= j < sets@.len() && #[trigger] sets@[j]@.contains(Item::Primary(p)) && fits(sets@, chosen@, j) ==> cand@.contains(j as usize)
                &&& forall|k: int| 0 <= k < cand@.len() ==> sets@[#[trigger] cand@[k] as int]@.contains(Item::Primary(p)) && fits(sets@, chosen@, cand@[k] as int)
            },
        decreases primary@.len() - k,
    {
        let p = primary[k];
        if !covered_exec(sets, chosen, p) {
            let cand = candidates(sets, chosen, p);
            let better = match &best {
                None => true,
                Some((_, old)) => cand.len() < old.len(),
            };
            if better {
                proof {
                    assert(primary@.contains(p)) by {
                        assert(primary@[k as int] == p);
                    }
                }
                best = Some((p, cand));
            }
        }
        k += 1;
    }
    proof {
        if best is None {
            assert forall|p: usize| #[trigger] primary@.contains(p) implies is_covered(sets@, chosen@, p) by {
                let i = choose|i: int| 0 <= i < primary@.len() && primary@[i] == p;
                assert(is_covered(sets@, chosen@, primary@[i]));
            }
        }
    }
    best
}

/// Every primary item of every option is one of `primary`.
pub open spec fn primaries_listed(sets: Seq<Vec<Item<usize, usize, usize>>>, primary: Seq<usize>) -> bool {
    forall|j: int, q: int|
        0 <= j < sets.len() && 0 <= q < sets[j]@.len() && (#[trigger] sets[j]@[q]) is Primary ==> primary.contains(sets[j]@[q]->Primary_0)
}

/// The options of `chosen` and of path `c`.
pub open spec fn path_set(chosen: Seq<usize>, c: Seq<(usize, usize)>) -> Set<int> {
    Set::new(
        |j: int|
            (exists|k: int| 0 <= k < chosen.len() && chosen[k] as int == j) || (exists|i: int| 0 <= i < c.len() && c[i].0 as int == j),
    )
}

/// The options of path `c`, in order.
pub open spec fn path_options(c: Seq<(usize, usize)>) -> Seq<usize> {
    c.map_values(|e: (usize, usize)| e.0)
}

/// Path `c` completes `chosen` to a solution: its options are new, each
/// once, each entered through a primary item at place `c[i].1`, and all of
/// them together are a solution.
pub open spec fn completes(sets: Seq<Vec<Item<usize, usize, usize>>>, primary: Seq<usize>, chosen: Seq<usize>, c: Seq<(usize, usize)>) -> bool {
    &&& (chosen + path_options(c)).no_duplicates()
    &&& forall|i: int|
        0 <= i < c.len() ==> (#[trigger] c[i]).0 < sets.len() && c[i].1 < sets[c[i].0 as int]@.len() && sets[c[i].0 as int]@[c[i].1 as int] is Primary
    &&& colored_solution(sets, primary, path_set(chosen, c))
}

/// Some path of `paths` completes `chosen` to exactly the options `js`.
pub open spec fn found_set(chosen: Seq<usize>, paths: Seq<Vec<(usize, usize)>>, js: Set<int>) -> bool {
    exists|c: int| 0 <= c < paths.len() && #[trigger] path_set(chosen, paths[c]@) == js
}

/// Distinct places below `m` are at most `m`.
proof fn lemma_no_dup_len(s: Seq<usize>, m: int)
    requires
        s.no_duplicates(),
        forall|k: int| 0 <= k < s.len() ==> s[k] < m,
        0 <= m,
    ensures
        s.len() <= m,
{
    let t = s.map_values(|x: usize| x as int);
    assert forall|a: int, b: int| 0 <= a < t.len() && 0 <= b < t.len() && a != b implies t[a] != t[b] by {
        assert(s[a] != s[b]);
    }
    assert(t.no_duplicates());
    t.unique_seq_to_set();
    vstd::set_lib::lemma_int_range(0, m);
    assert(t.to_set().subset_of(vstd::set_lib::set_int_range(0, m))) by {
        assert forall|x: int| t.to_set().contains(x) implies vstd::set_lib::set_int_range(0, m).contains(x) by {
            let k = choose|k: int| 0 <= k < t.len() && t[k] == x;
            assert(s[k] < m);
        }
    }
    vstd::set_lib::lemma_len_subset(t.to_set(), vstd::set_lib::set_int_range(0, m));
}

/// The options of `chosen` are finitely many.
proof fn lemma_path_set_finite(sets: Seq<Vec<Item<usize, usize, usize>>>, chosen: Seq<usize>, c: Seq<(usize, usize)>)
    requires
        forall|k: int| 0 <= k < chosen.len() ==> (#[trigger] chosen[k]) < sets.len(),
        forall|i: int| 0 <= i < c.len() ==> (#[trigger] c[i]).0 < sets.len(),
    ensures
        path_set(chosen, c).finite(),
{
    vstd::set_lib::lemma_int_range(0, sets.len() as int);
    assert(path_set(chosen, c).subset_of(vstd::set_lib::set_int_range(0, sets.len() as int)));
    vstd::set_lib::lemma_len_subset(path_set(chosen, c), vstd::set_lib::set_int_range(0, sets.len() as int));
}

/// With every primary item covered, the chosen options are a solution.
proof fn lemma_leaf_sound(sets: Seq<Vec<Item<usize, usize, usize>>>, primary: Seq<usize>, chosen: Seq<usize>)
    requires
        chosen_ok(sets, chosen),
        forall|p: usize| #[trigger] primary.contains(p) ==> is_covered(sets, chosen, p),
    ensures
        completes(sets, primary, chosen, Seq::empty()),
{
    let e = Seq::<(usize, usize)>::empty();
    let ps = path_set(chosen, e);
    assert(chosen + path_options(e) =~= chosen);
    lemma_path_set_finite(sets, chosen, e);
    assert forall|j: int| #[trigger] ps.contains(j) implies 0 <= j < sets.len() && has_primary_item(sets[j]@) by {
        let k = choose|k: int| 0 <= k < chosen.len() && chosen[k] as int == j;
    }
    assert forall|p: usize| #[trigger] primary.contains(p) implies exists|j: int| ps.contains(j) && #[trigger] sets[j]@.contains(Item::Primary(p)) by {
        assert(is_covered(sets, chosen, p));
        let k = choose|k: int| 0 <= k < chosen.len() && #[trigger] sets[chosen[k] as int]@.contains(Item::Primary(p));
        assert(ps.contains(chosen[k] as int));
    }
    assert forall|j1: int, j2: int| ps.contains(j1) && ps.contains(j2) && j1 != j2 implies #[trigger] compatible(sets[j1]@, sets[j2]@) by {
        let a = choose|k: int| 0 <= k < chosen.len() && chosen[k] as int == j1;
        let b = choose|k: int| 0 <= k < chosen.len() && chosen[k] as int == j2;
        assert(compatible(sets[chosen[a] as int]@, sets[chosen[b] as int]@));
    }
}

/// An option with a primary item that a chosen option covers is chosen,
/// in a solution holding the chosen options.
#[verifier::spinoff_prover]
proof fn lemma_leaf_member(sets: Seq<Vec<Item<usize, usize, usize>>>, primary: Seq<usize>, chosen: Seq<usize>, js: Set<int>, j: int)
    requires
        chosen_ok(sets, chosen),
        primaries_listed(sets, primary),
        forall|p: usize| #[trigger] primary.contains(p) ==> is_covered(sets, chosen, p),
        colored_solution(sets, primary, js),
        forall|k: int| 0 <= k < chosen.len() ==> js.contains(chosen[k] as int),
        js.contains(j),
    ensures
        exists|k: int| 0 <= k < chosen.len() && chosen[k] as int == j,
{
    assert(has_primary_item(sets[j]@));
    let q = choose|q: int| 0 <= q < sets[j]@.len() && #[trigger] sets[j]@[q] is Primary;
    let x = sets[j]@[q]->Primary_0;
    assert(sets[j]@[q] == Item::<usize, usize, usize>::Primary(x));
    assert(primary.contains(x));
    assert(is_covered(sets, chosen, x));
    let k = choose|k: int| 0 <= k < chosen.len() && #[trigger] sets[chosen[k] as int]@.contains(Item::Primary(x));
    let jc = chosen[k] as int;
    if jc != j {
        assert(js.contains(jc));
        assert(compatible(sets[j]@, sets[jc]@));
        let y = choose|y: int| 0 <= y < sets[jc]@.len() && sets[jc]@[y] == Item::<usize, usize, usize>::Primary(x);
        assert(same_key(sets[j]@[q], sets[jc]@[y]));
    }
}

/// With every primary item covered, the chosen options are the only
/// solution that holds them.
#[verifier::spinoff_prover]
#[verifier::rlimit(30)]
proof fn lemma_leaf_complete(sets: Seq<Vec<Item<usize, usize, usize>>>, primary: Seq<usize>, chosen: Seq<usize>, js: Set<int>)
    requires
        chosen_ok(sets, chosen),
        primaries_listed(sets, primary),
        forall|p: usize| #[trigger] primary.contains(p) ==> is_covered(sets, chosen, p),
        colored_solution(sets, primary, js),
        forall|k: int| 0 <= k < chosen.len() ==> js.contains(chosen[k] as int),
    ensures
        js == path_set(chosen, Seq::empty()),
{
    let ps = path_set(chosen, Seq::empty());
    assert forall|j: int| js.contains(j) implies ps.contains(j) by {
        lemma_leaf_member(sets, primary, chosen, js, j);
    }
    assert forall|j: int| ps.contains(j) implies js.contains(j) by {
        let k = choose|k: int| 0 <= k < chosen.len() && chosen[k] as int == j;
    }
    assert(js =~= ps);
}

/// The place of primary item `p` in `set`.
fn place_of_primary(set: &Vec<Item<usize, usize, usize>>, p: usize) -> (q: usize)
    requires
        set@.contains(Item::Primary(p)),
    ensures
        q < set@.len(),
        set@[q as int] == Item::<usize, usize, usize>::Primary(p),
{
    let mut q: usize = 0;
    while q < set.len()
        invariant
            q <= set@.len(),
            set@.contains(Item::Primary(p)),
            forall|k: int| 0 <= k < q ==> set@[k] != Item::<usize, usize, usize>::Primary(p),
        decreases set@.len() - q,
    {
        match set[q] {
            Item::Primary(x) => {
                if x == p {
                    return q;
                }
            },
            _ => {},
        }
        q += 1;
    }
    proof {
        let k = choose|k: int| 0 <= k < set@.len() && set@[k] == Item::<usize, usize, usize>::Primary(p);
    }
    0
}

/// Entering option `j` at place `q` before a path that completes the
/// chosen options and `j` gives a path that completes the chosen options.
proof fn lemma_prefix(
    sets: Seq<Vec<Item<usize, usize, usize>>>,
    primary: Seq<usize>,
    chosen: Seq<usize>,
    j: usize,
    q: usize,
    sub: Seq<(usize, usize)>,
)
    requires
        completes(sets, primary, chosen.push(j), sub),
        j < sets.len(),
        q < sets[j as int]@.len(),
        sets[j as int]@[q as int] is Primary,
    ensures
        completes(sets, primary, chosen, seq![(j, q)] + sub),
        path_set(chosen, seq![(j, q)] + sub) == path_set(chosen.push(j), sub),
{
    let c = seq![(j, q)] + sub;
    assert(chosen + path_options(c) =~= chosen.push(j) + path_options(sub));
    assert forall|i: int| 0 <= i < c.len() implies (#[trigger] c[i]).0 < sets.len() && c[i].1 < sets[c[i].0 as int]@.len()
        && sets[c[i].0 as int]@[c[i].1 as int] is Primary by {
        if i > 0 {
            assert(c[i] == sub[i - 1]);
        }
    }
    assert(path_set(chosen, c) =~= path_set(chosen.push(j), sub)) by {
        assert forall|x: int| path_set(chosen, c).contains(x) implies path_set(chosen.push(j), sub).contains(x) by {
            if exists|i: int| 0 <= i < c.len() && c[i].0 as int == x {
                let i = choose|i: int| 0 <= i < c.len() && c[i].0 as int == x;
                if i == 0 {
                    assert(chosen.push(j)[chosen.len() as int] == j);
                } else {
                    assert(sub[i - 1] == c[i]);
                }
            } else {
                let k = choose|k: int| 0 <= k < chosen.len() && chosen[k] as int == x;
                assert(chosen.push(j)[k] == chosen[k]);
            }
        }
        assert forall|x: int| path_set(chosen.push(j), sub).contains(x) implies path_set(chosen, c).contains(x) by {
            if exists|i: int| 0 <= i < sub.len() && sub[i].0 as int == x {
                let i = choose|i: int| 0 <= i < sub.len() && sub[i].0 as int == x;
                assert(c[i + 1] == sub[i]);
            } else {
                let k = choose|k: int| 0 <= k < chosen.push(j).len() && chosen.push(j)[k] as int == x;
                if k == chosen.len() {
                    assert(c[0].0 == j);
                } else {
                    assert(chosen.push(j)[k] == chosen[k]);
                }
            }
        }
    }
}

/// Adds each path of `subs`, entered by option `j` at place `q` first, to
/// `paths`.
fn add_prefixed(paths: &mut Vec<Vec<(usize, usize)>>, subs: Vec<Vec<(usize, usize)>>, j: usize, q: usize)
    ensures
        final(paths)@.len() == old(paths)@.len() + subs@.len(),
        forall|i: int| 0 <= i < old(paths)@.len() ==> #[trigger] final(paths)@[i] == old(paths)@[i],
        forall|i: int| 0 <= i < subs@.len() ==> (#[trigger] final(paths)@[old(paths)@.len() + i])@ == seq![(j, q)] + subs@[i]@,
{
    let ghost before = paths@;
    let mut i: usize = 0;
    while i < subs.len()
        invariant
            i <= subs@.len(),
            paths@.len() == before.len() + i,
            forall|k: int| 0 <= k < before.len() ==> #[trigger] paths@[k] == before[k],
            forall|k: int| 0 <= k < i ==> (#[trigger] paths@[before.len() + k])@ == seq![(j, q)] + subs@[k]@,
        decreases subs@.len() - i,
    {
        let mut v: Vec<(usize, usize)> = Vec::new();
        v.push((j, q));
        let mut k: usize = 0;
        while k < subs[i].len()
            invariant
                i < subs@.len(),
                k <= subs@[i as int]@.len(),
                v@ == seq![(j, q)] + subs@[i as int]@.take(k as int),
            decreases subs@[i as int]@.len() - k,
        {
            v.push(subs[i][k]);
            k += 1;
            proof {
                assert(v@ =~= seq![(j, q)] + subs@[i as int]@.take(k as int));
            }
        }
        proof {
            assert(subs@[i as int]@.take(k as int) =~= subs@[i as int]@);
        }
        paths.push(v);
        i += 1;
    }
}

/// A solution holding the chosen options has an option with an uncovered
/// primary item `p`, and it agrees with every chosen option.
proof fn lemma_candidate_in(sets: Seq<Vec<Item<usize, usize, usize>>>, primary: Seq<usize>, chosen: Seq<usize>, js: Set<int>, p: usize) -> (j: int)
    requires
        chosen_ok(sets, chosen),
        colored_solution(sets, primary, js),
        forall|k: int| 0 <= k < chosen.len() ==> js.contains(chosen[k] as int),
        primary.contains(p),
        !is_covered(sets, chosen, p),
    ensures
        js.contains(j),
        0 <= j < sets.len(),
        sets[j]@.contains(Item::Primary(p)),
        fits(sets, chosen, j),
{
    let j = choose|j: int| js.contains(j) && #[trigger] sets[j]@.contains(Item::Primary(p));
    assert forall|k: int| 0 <= k < chosen.len() implies #[trigger] compatible(sets[chosen[k] as int]@, sets[j]@) by {
        let jc = chosen[k] as int;
        if jc == j {
            assert(sets[chosen[k] as int]@.contains(Item::Primary(p)));
            assert(is_covered(sets, chosen, p));
        }
        assert(js.contains(jc));
    }
    j
}

/// Adding an agreeing option with an uncovered primary item keeps the
/// chosen options in order.
proof fn lemma_choose_ok(sets: Seq<Vec<Item<usize, usize, usize>>>, chosen: Seq<usize>, j: usize, p: usize)
    requires
        chosen_ok(sets, chosen),
        j < sets.len(),
        sets[j as int]@.contains(Item::Primary(p)),
        fits(sets, chosen, j as int),
        !is_covered(sets, chosen, p),
    ensures
        chosen_ok(sets, chosen.push(j)),
{
    let c = chosen.push(j);
    assert forall|a: int, b: int| 0 <= a < c.len() && 0 <= b < c.len() && a != b implies c[a] != c[b] by {
        if a == chosen.len() {
            assert(!sets[chosen[b] as int]@.contains(Item::Primary(p)));
        } else if b == chosen.len() {
            assert(!sets[chosen[a] as int]@.contains(Item::Primary(p)));
        }
    }
    assert forall|k: int| 0 <= k < c.len() implies (#[trigger] c[k]) < sets.len() && has_primary_item(sets[c[k] as int]@) by {
        if k == chosen.len() {
            let q = choose|q: int| 0 <= q < sets[j as int]@.len() && sets[j as int]@[q] == Item::<usize, usize, usize>::Primary(p);
            assert(sets[j as int]@[q] is Primary);
        }
    }
    assert forall|a: int, b: int| 0 <= a < c.len() && 0 <= b < c.len() && a != b implies #[trigger] compatible(sets[c[a] as int]@, sets[c[b] as int]@) by {
        if a == chosen.len() {
            assert(compatible(sets[chosen[b] as int]@, sets[j as int]@));
            lemma_compatible_sym(sets[chosen[b] as int]@, sets[j as int]@);
        } else if b == chosen.len() {
            assert(compatible(sets[chosen[a] as int]@, sets[j as int]@));
        }
    }
}

/// Agreeing is symmetric.
proof fn lemma_compatible_sym(a: Seq<Item<usize, usize, usize>>, b: Seq<Item<usize, usize, usize>>)
    requires
        compatible(a, b),
    ensures
        compatible(b, a),
{
    assert forall|x: int, y: int| 0 <= x < b.len() && 0 <= y < a.len() && #[trigger] same_key(b[x], a[y]) implies (b[x] is ColoredSecondary && b[x] == a[y]) by {
        assert(same_key(a[y], b[x]));
    }
}

/// The paths after adding the prefixed paths of option `j`.
pub open spec fn prefixed_paths(bp: Seq<Vec<(usize, usize)>>, subs: Seq<Vec<(usize, usize)>>, j: usize, q: usize, np: Seq<Vec<(usize, usize)>>) -> bool {
    &&& np.len() == bp.len() + subs.len()
    &&& forall|i: int| 0 <= i < bp.len() ==> #[trigger] np[i] == bp[i]
    &&& forall|i: int| 0 <= i < subs.len() ==> (#[trigger] np[bp.len() + i])@ == seq![(j, q)] + subs[i]@
}

/// The prefixed paths of option `j` complete the chosen options.
proof fn lemma_paths_sound(
    sets: Seq<Vec<Item<usize, usize, usize>>>,
    primary: Seq<usize>,
    c0: Seq<usize>,
    j: usize,
    q: usize,
    bp: Seq<Vec<(usize, usize)>>,
    subs: Seq<Vec<(usize, usize)>>,
    np: Seq<Vec<(usize, usize)>>,
)
    requires
        prefixed_paths(bp, subs, j, q, np),
        forall|c: int| 0 <= c < bp.len() ==> completes(sets, primary, c0, #[trigger] bp[c]@),
        forall|c: int| 0 <= c < subs.len() ==> completes(sets, primary, c0.push(j), #[trigger] subs[c]@),
        j < sets.len(),
        q < sets[j as int]@.len(),
        sets[j as int]@[q as int] is Primary,
    ensures
        forall|c: int| 0 <= c < np.len() ==> completes(sets, primary, c0, #[trigger] np[c]@),
{
    assert forall|c: int| 0 <= c < np.len() implies completes(sets, primary, c0, #[trigger] np[c]@) by {
        if c >= bp.len() {
            let i = c - bp.len();
            assert(completes(sets, primary, c0.push(j), subs[i]@));
            lemma_prefix(sets, primary, c0, j, q, subs[i]@);
            assert(np[bp.len() + i] == np[c]);
        } else {
            assert(np[c] == bp[c]);
        }
    }
}

/// What was found before adding the prefixed paths of option `j` is still
/// found, and what the search after `j` found is found too.
proof fn lemma_paths_found(
    sets: Seq<Vec<Item<usize, usize, usize>>>,
    primary: Seq<usize>,
    c0: Seq<usize>,
    j: usize,
    q: usize,
    bp: Seq<Vec<(usize, usize)>>,
    subs: Seq<Vec<(usize, usize)>>,
    np: Seq<Vec<(usize, usize)>>,
    js: Set<int>,
)
    requires
        prefixed_paths(bp, subs, j, q, np),
        forall|c: int| 0 <= c < subs.len() ==> completes(sets, primary, c0.push(j), #[trigger] subs[c]@),
        found_set(c0, bp, js) || found_set(c0.push(j), subs, js),
        j < sets.len(),
        q < sets[j as int]@.len(),
        sets[j as int]@[q as int] is Primary,
    ensures
        found_set(c0, np, js),
{
    if found_set(c0, bp, js) {
        let c = choose|c: int| 0 <= c < bp.len() && #[trigger] path_set(c0, bp[c]@) == js;
        assert(np[c] == bp[c]);
    } else {
        let c = choose|c: int| 0 <= c < subs.len() && #[trigger] path_set(c0.push(j), subs[c]@) == js;
        lemma_prefix(sets, primary, c0, j, q, subs[c]@);
        assert(path_set(c0, np[bp.len() + c]@) == js);
    }
}

/// No two paths of `paths` complete `chosen` to the same options.
pub open spec fn sets_apart(chosen: Seq<usize>, paths: Seq<Vec<(usize, usize)>>) -> bool {
    forall|c1: int, c2: int|
        0 <= c1 < c2 < paths.len() ==> path_set(chosen, #[trigger] paths[c1]@) != path_set(chosen, #[trigger] paths[c2]@)
}

/// The prefixed paths of candidate `cand[k]`, added after those of the
/// candidates before it, keep all paths apart: two candidates both hold
/// primary item `p`, so no solution holds both.
#[verifier::spinoff_prover]
#[verifier::rlimit(30)]
proof fn lemma_paths_apart(
    sets: Seq<Vec<Item<usize, usize, usize>>>,
    primary: Seq<usize>,
    c0: Seq<usize>,
    cand: Seq<usize>,
    p: usize,
    k: int,
    q: usize,
    bp: Seq<Vec<(usize, usize)>>,
    subs: Seq<Vec<(usize, usize)>>,
    np: Seq<Vec<(usize, usize)>>,
    tags: Seq<int>,
) -> (t2: Seq<int>)
    requires
        forall|a: int, b: int| 0 <= a < b < cand.len() ==> cand[a] < cand[b],
        0 <= k < cand.len(),
        forall|i: int| 0 <= i < cand.len() ==> (#[trigger] cand[i]) < sets.len() && sets[cand[i] as int]@.contains(Item::Primary(p)),
        q < sets[cand[k] as int]@.len(),
        sets[cand[k] as int]@[q as int] is Primary,
        sets_apart(c0, bp),
        sets_apart(c0.push(cand[k]), subs),
        tags.len() == bp.len(),
        forall|c: int| 0 <= c < bp.len() ==> 0 <= #[trigger] tags[c] < k && path_set(c0, bp[c]@).contains(cand[tags[c]] as int),
        prefixed_paths(bp, subs, cand[k], q, np),
        forall|c: int| 0 <= c < subs.len() ==> completes(sets, primary, c0.push(cand[k]), #[trigger] subs[c]@),
        forall|c: int| 0 <= c < np.len() ==> completes(sets, primary, c0, #[trigger] np[c]@),
    ensures
        sets_apart(c0, np),
        t2.len() == np.len(),
        forall|c: int| 0 <= c < np.len() ==> 0 <= #[trigger] t2[c] < k + 1 && path_set(c0, np[c]@).contains(cand[t2[c]] as int),
{
    let j = cand[k];
    let t2 = tags + Seq::new(subs.len(), |i: int| k);
    assert forall|i: int| 0 <= i < subs.len() implies path_set(c0, #[trigger] np[bp.len() + i]@) == path_set(c0.push(j), subs[i]@)
        && path_set(c0, np[bp.len() + i]@).contains(j as int) by {
        lemma_prefix(sets, primary, c0, j, q, subs[i]@);
        assert(c0.push(j)[c0.len() as int] == j);
    }
    assert forall|c: int| 0 <= c < np.len() implies 0 <= #[trigger] t2[c] < k + 1 && path_set(c0, np[c]@).contains(cand[t2[c]] as int) by {
        if c < bp.len() {
            assert(np[c] == bp[c]);
            assert(t2[c] == tags[c]);
        } else {
            let i = c - bp.len();
            assert(t2[c] == k);
            assert(path_set(c0, np[bp.len() + i]@).contains(j as int));
        }
    }
    assert forall|c1: int, c2: int| 0 <= c1 < c2 < np.len() implies path_set(c0, #[trigger] np[c1]@) != path_set(c0, #[trigger] np[c2]@) by {
        if c2 < bp.len() {
            assert(np[c1] == bp[c1]);
            assert(np[c2] == bp[c2]);
        } else if c1 < bp.len() {
            assert(np[c1] == bp[c1]);
            let i2 = c2 - bp.len();
            assert(path_set(c0, np[bp.len() + i2]@).contains(j as int));
            let j1 = cand[tags[c1]];
            if path_set(c0, np[c1]@) == path_set(c0, np[c2]@) {
                let js = path_set(c0, np[c2]@);
                assert(completes(sets, primary, c0, np[c2]@));
                assert(colored_solution(sets, primary, js));
                assert(js.contains(j1 as int) && js.contains(j as int));
                assert(j1 < j);
                assert(compatible(sets[j1 as int]@, sets[j as int]@));
                let x = choose|x: int| 0 <= x < sets[j1 as int]@.len() && sets[j1 as int]@[x] == Item::<usize, usize, usize>::Primary(p);
                let y = choose|y: int| 0 <= y < sets[j as int]@.len() && sets[j as int]@[y] == Item::<usize, usize, usize>::Primary(p);
                assert(same_key(sets[j1 as int]@[x], sets[j as int]@[y]));
            }
        } else {
            let i1 = c1 - bp.len();
            let i2 = c2 - bp.len();
            assert(path_set(c0, np[bp.len() + i1]@) == path_set(c0.push(j), subs[i1]@));
            assert(path_set(c0, np[bp.len() + i2]@) == path_set(c0.push(j), subs[i2]@));
        }
    }
    t2
}

/// Every way to complete the chosen options to a solution, each as the
/// options it adds, in the order of the search, with the place of the
/// primary item each was chosen through.  The chosen options are given
/// back as they were.
fn search_all(
    sets: &Vec<Vec<Item<usize, usize, usize>>>,
    primary: &Vec<usize>,
    chosen: &mut Vec<usize>,
    randomized: bool,
    rng: &mut ThreadRng,
) -> (r: Vec<Vec<(usize, usize)>>)
    requires
        chosen_ok(sets@, old(chosen)@),
        primaries_listed(sets@, primary@),
    ensures
        final(chosen)@ == old(chosen)@,
        forall|c: int| 0 <= c < r@.len() ==> completes(sets@, primary@, old(chosen)@, #[trigger] r@[c]@),
        forall|js: Set<int>|
            #[trigger] colored_solution(sets@, primary@, js) && (forall|k: int| 0 <= k < old(chosen)@.len() ==> js.contains(old(chosen)@[k] as int))
                ==> found_set(old(chosen)@, r@, js),
        sets_apart(old(chosen)@, r@),
    decreases sets@.len() - old(chosen)@.len(),
{
    let ghost c0 = chosen@;
    let slen = sets.len();
    proof {
        lemma_no_dup_len(c0, sets@.len() as int);
    }
    match choose_next(sets, primary, chosen, randomized, rng) {
        None => {
            let mut r: Vec<Vec<(usize, usize)>> = Vec::new();
            r.push(Vec::new());
            proof {
                lemma_leaf_sound(sets@, primary@, c0);
                assert(r@[0]@ == Seq::<(usize, usize)>::empty());
                assert forall|js: Set<int>|
                    #[trigger] colored_solution(sets@, primary@, js) && (forall|k: int| 0 <= k < c0.len() ==> js.contains(c0[k] as int))
                        implies found_set(c0, r@, js) by {
                    lemma_leaf_complete(sets@, primary@, c0, js);
                }
            }
            r
        },
        Some((p, cand)) => {
            let mut paths: Vec<Vec<(usize, usize)>> = Vec::new();
            let ghost mut tags: Seq<int> = Seq::empty();
            let mut k: usize = 0;
            while k < cand.len()
                invariant
                    sets_apart(c0, paths@),
                    tags.len() == paths@.len(),
                    forall|c: int| 0 <= c < paths@.len() ==> 0 <= #[trigger] tags[c] < k && path_set(c0, paths@[c]@).contains(cand@[tags[c]] as int),
                    forall|a: int, b: int| 0 <= a < b < cand@.len() ==> cand@[a] < cand@[b],
                    chosen@ == c0,
                    old(chosen)@ == c0,
                    chosen_ok(sets@, c0),
                    primaries_listed(sets@, primary@),
                    c0.len() <= sets@.len(),
                    primary@.contains(p),
                    !is_covered(sets@, c0, p),
                    k <= cand@.len(),
                    forall|k: int| 0 <= k < cand@.len() ==> (#[trigger] cand@[k]) < sets@.len(),
                    forall|k: int| 0 <= k < cand@.len() ==> sets@[#[trigger] cand@[k] as int]@.contains(Item::Primary(p)) && fits(sets@, c0, cand@[k] as int),
                    forall|c: int| 0 <= c < paths@.len() ==> completes(sets@, primary@, c0, #[trigger] paths@[c]@),
                    forall|js: Set<int>, i: int|
                        #![trigger colored_solution(sets@, primary@, js), cand@[i]]
                        0 <= i < k && colored_solution(sets@, primary@, js) && (forall|k: int| 0 <= k < c0.len() ==> js.contains(c0[k] as int))
                            && js.contains(cand@[i] as int) ==> found_set(c0, paths@, js),
                decreases cand@.len() - k,
            {
                let j = cand[k];
                proof {
                    assert(sets@[cand@[k as int] as int]@.contains(Item::Primary(p)));
                    lemma_choose_ok(sets@, c0, j, p);
                    lemma_no_dup_len(c0.push(j), sets@.len() as int);
                }
                let q = place_of_primary(&sets[j], p);
                chosen.push(j);
                let subs = search_all(sets, primary, chosen, randomized, rng);
                let ghost subs0 = subs@;
                let ghost bp = paths@;
                chosen.pop();
                proof {
                    assert(chosen@ =~= c0);
                }
                add_prefixed(&mut paths, subs, j, q);
                proof {
                    lemma_paths_sound(sets@, primary@, c0, j, q, bp, subs0, paths@);
                    tags = lemma_paths_apart(sets@, primary@, c0, cand@, p, k as int, q, bp, subs0, paths@, tags);
                    assert forall|js: Set<int>, i: int|
                        #![trigger colored_solution(sets@, primary@, js), cand@[i]]
                        0 <= i < k + 1 && colored_solution(sets@, primary@, js) && (forall|k: int| 0 <= k < c0.len() ==> js.contains(c0[k] as int))
                            && js.contains(cand@[i] as int) implies found_set(c0, paths@, js) by {
                        if i == k {
                            let c1 = c0.push(j);
                            assert forall|m: int| 0 <= m < c1.len() implies js.contains(c1[m] as int) by {
                                if m < c0.len() {
                                    assert(c1[m] == c0[m]);
                                }
                            }
                        }
                        lemma_paths_found(sets@, primary@, c0, j, q, bp, subs0, paths@, js);
                    }
                }
                k += 1;
            }
            proof {
                assert forall|js: Set<int>|
                    #[trigger] colored_solution(sets@, primary@, js) && (forall|k: int| 0 <= k < c0.len() ==> js.contains(c0[k] as int))
                        implies found_set(c0, paths@, js) by {
                    let j = lemma_candidate_in(sets@, primary@, c0, js, p);
                    assert(j < slen);
                    assert(cand@.contains(j as usize));
                    let i = choose|i: int| 0 <= i < cand@.len() && cand@[i] == j as usize;
                    assert(cand@[i] as int == j);
                    assert(js.contains(cand@[i] as int));
                }
            }
            paths
        },
    }
}

/// How a search for a first way to complete the chosen options ended.
enum Outcome {
    /// A path that completes the chosen options.
    Found(Vec<(usize, usize)>),
    /// No solution holds the chosen options.
    Exhausted,
    /// The time ran out first.
    OutOfTime,
}

/// The first way to complete the chosen options to a solution in the order
/// of `search_all`, unless the time limit, if there is one, checked as each
/// choice is entered, runs out first.  The chosen options are given back as they
/// were.
fn search_first(
    sets: &Vec<Vec<Item<usize, usize, usize>>>,
    primary: &Vec<usize>,
    chosen: &mut Vec<usize>,
    start: &Instant,
    limit: Option<u128>,
    randomized: bool,
    rng: &mut ThreadRng,
) -> (r: Outcome)
    requires
        chosen_ok(sets@, old(chosen)@),
        primaries_listed(sets@, primary@),
    ensures
        final(chosen)@ == old(chosen)@,
        r matches Outcome::Found(c) ==> completes(sets@, primary@, old(chosen)@, c@),
        r is Exhausted ==> forall|js: Set<int>|
            #[trigger] colored_solution(sets@, primary@, js) ==> !(forall|k: int| 0 <= k < old(chosen)@.len() ==> js.contains(old(chosen)@[k] as int)),
        limit is None ==> !(r is OutOfTime),
        limit == Some(0u128) ==> r is OutOfTime,
    decreases sets@.len() - old(chosen)@.len(),
{
    let ghost c0 = chosen@;
    let slen = sets.len();
    proof {
        lemma_no_dup_len(c0, sets@.len() as int);
    }
    if out_of_time(start, limit) {
        return Outcome::OutOfTime;
    }
    match choose_next(sets, primary, chosen, randomized, rng) {
        None => {
            proof {
                lemma_leaf_sound(sets@, primary@, c0);
            }
            Outcome::Found(Vec::new())
        },
        Some((p, cand)) => {
            let mut k: usize = 0;
            while k < cand.len()
                invariant
                    chosen@ == c0,
                    old(chosen)@ == c0,
                    chosen_ok(sets@, c0),
                    primaries_listed(sets@, primary@),
                    c0.len() <= sets@.len(),
                    primary@.contains(p),
                    !is_covered(sets@, c0, p),
                    k <= cand@.len(),
                    forall|k: int| 0 <= k < cand@.len() ==> (#[trigger] cand@[k]) < sets@.len(),
                    forall|k: int| 0 <= k < cand@.len() ==> sets@[#[trigger] cand@[k] as int]@.contains(Item::Primary(p)) && fits(sets@, c0, cand@[k] as int),
                    forall|js: Set<int>, i: int|
                        #![trigger colored_solution(sets@, primary@, js), cand@[i]]
                        0 <= i < k && colored_solution(sets@, primary@, js) && (forall|k: int| 0 <= k < c0.len() ==> js.contains(c0[k] as int))
                            ==> !js.contains(cand@[i] as int),
                decreases cand@.len() - k,
            {
                let j = cand[k];
                proof {
                    assert(sets@[cand@[k as int] as int]@.contains(Item::Primary(p)));
                    lemma_choose_ok(sets@, c0, j, p);
                    lemma_no_dup_len(c0.push(j), sets@.len() as int);
                }
                let q = place_of_primary(&sets[j], p);
                chosen.push(j);
                let sub = search_first(sets, primary, chosen, start, limit, randomized, rng);
                chosen.pop();
                proof {
                    assert(chosen@ =~= c0);
                }
                match sub {
                    Outcome::Found(c) => {
                        let ghost cv = c@;
                        let mut path: Vec<(usize, usize)> = Vec::new();
                        path.push((j, q));
                        let mut c = c;
                        path.append(&mut c);
                        proof {
                            assert(path@ =~= seq![(j, q)] + cv);
                            lemma_prefix(sets@, primary@, c0, j, q, cv);
                        }
                        return Outcome::Found(path);
                    },
                    Outcome::OutOfTime => {
                        return Outcome::OutOfTime;
                    },
                    Outcome::Exhausted => {},
                }
                proof {
                    assert forall|js: Set<int>, i: int|
                        #![trigger colored_solution(sets@, primary@, js), cand@[i]]
                        0 <= i < k + 1 && colored_solution(sets@, primary@, js) && (forall|k: int| 0 <= k < c0.len() ==> js.contains(c0[k] as int))
                            implies !js.contains(cand@[i] as int) by {
                        if i == k && js.contains(cand@[i] as int) {
                            let c1 = c0.push(j);
                            assert forall|m: int| 0 <= m < c1.len() implies js.contains(c1[m] as int) by {
                                if m < c0.len() {
                                    assert(c1[m] == c0[m]);
                                }
                            }
                        }
                    }
                }
                k += 1;
            }
            proof {
                assert forall|js: Set<int>|
                    #[trigger] colored_solution(sets@, primary@, js) implies !(forall|k: int| 0 <= k < c0.len() ==> js.contains(c0[k] as int)) by {
                    if forall|k: int| 0 <= k < c0.len() ==> js.contains(c0[k] as int) {
                        let j = lemma_candidate_in(sets@, primary@, c0, js, p);
                        assert(j < slen);
                        assert(cand@.contains(j as usize));
                        let i = choose|i: int| 0 <= i < cand@.len() && cand@[i] == j as usize;
                        assert(cand@[i] as int == j);
                    }
                }
            }
            Outcome::Exhausted
        },
    }
}

/// `set` read from place `q` on, and then from its start up to `q`.
pub open spec fn rotated(set: Seq<Item<usize, usize, usize>>, q: int) -> Seq<Item<usize, usize, usize>> {
    set.subrange(q, set.len() as int) + set.subrange(0, q)
}

/// Entry `i` of `rows` is option `order[i]`, read from the place of one of
/// its primary items on, and no option comes twice.
pub open spec fn lists_options(sets: Seq<Vec<Item<usize, usize, usize>>>, rows: Seq<Vec<Item<usize, usize, usize>>>, order: Seq<int>) -> bool {
    &&& order.len() == rows.len()
    &&& order.no_duplicates()
    &&& forall|i: int|
        0 <= i < rows.len() ==> 0 <= #[trigger] order[i] < sets.len() && exists|q: int|
            0 <= q < sets[order[i]]@.len() && sets[order[i]]@[q] is Primary && rows[i]@ == rotated(sets[order[i]]@, q)
}

/// Secondary item `k` is named earlier in the list too.
pub open spec fn named_before(secondary: Seq<usize>, k: int) -> bool {
    exists|k2: int| 0 <= k2 < k && secondary[k2] == secondary[k]
}

/// `out` gives each secondary item, in order, with the colour the options at
/// `js` give it, if any; an item named a second time gets none.
pub open spec fn colors_reported(
    sets: Seq<Vec<Item<usize, usize, usize>>>,
    js: Set<int>,
    secondary: Seq<usize>,
    out: Seq<(usize, Option<usize>)>,
) -> bool {
    &&& out.len() == secondary.len()
    &&& forall|k: int| 0 <= k < out.len() ==> (#[trigger] out[k]).0 == secondary[k]
    &&& forall|k: int| 0 <= k < out.len() && named_before(secondary, k) ==> (#[trigger] out[k]).1 is None
    &&& forall|k: int|
        0 <= k < out.len() && !named_before(secondary, k) ==> {
            &&& ((#[trigger] out[k]).1 matches Some(c) ==> exists|j: int| js.contains(j) && #[trigger] sets[j]@.contains(Item::ColoredSecondary(secondary[k], c)))
            &&& (out[k].1 is None ==> forall|j: int, c: usize| js.contains(j) ==> !(#[trigger] sets[j]@.contains(Item::ColoredSecondary(secondary[k], c))))
        }
}

/// `rows` and `colors` are a solution: its options, each read from the
/// primary item it was chosen through, and the colours of the secondary
/// items.
pub open spec fn colored_listed(
    sets: Seq<Vec<Item<usize, usize, usize>>>,
    primary: Seq<usize>,
    secondary: Seq<usize>,
    rows: Seq<Vec<Item<usize, usize, usize>>>,
    colors: Seq<(usize, Option<usize>)>,
) -> bool {
    exists|order: Seq<int>|
        #[trigger] lists_options(sets, rows, order) && colored_solution(sets, primary, order.to_set()) && colors_reported(
            sets,
            order.to_set(),
            secondary,
            colors,
        )
}

/// Entry `c` of `sols` lists the options at places `orders[c]`, and no
/// two entries list the same options.
pub open spec fn options_listed_apart(
    sets: Seq<Vec<Item<usize, usize, usize>>>,
    sols: Seq<(Vec<Vec<Item<usize, usize, usize>>>, Vec<(usize, Option<usize>)>)>,
    orders: Seq<Seq<int>>,
) -> bool {
    &&& orders.len() == sols.len()
    &&& forall|c: int| 0 <= c < sols.len() ==> #[trigger] lists_options(sets, sols[c].0@, orders[c])
    &&& forall|c1: int, c2: int| 0 <= c1 < c2 < sols.len() ==> (#[trigger] orders[c1]).to_set() != (#[trigger] orders[c2]).to_set()
}

/// No two entries of `sols` list the same options.
pub open spec fn options_apart(
    sets: Seq<Vec<Item<usize, usize, usize>>>,
    sols: Seq<(Vec<Vec<Item<usize, usize, usize>>>, Vec<(usize, Option<usize>)>)>,
) -> bool {
    exists|orders: Seq<Seq<int>>| #[trigger] options_listed_apart(sets, sols, orders)
}

/// Every item of every option is one of the items and colours given, and
/// no option names an item twice.
pub open spec fn options_named(
    sets: Seq<Vec<Item<usize, usize, usize>>>,
    primary: Seq<usize>,
    secondary: Seq<usize>,
    colors: Seq<usize>,
) -> bool {
    &&& primaries_listed(sets, primary)
    &&& forall|j: int, q: int|
        0 <= j < sets.len() && 0 <= q < sets[j]@.len() ==> match #[trigger] sets[j]@[q] {
            Item::Primary(_) => true,
            Item::Secondary(s) => secondary.contains(s),
            Item::ColoredSecondary(s, c) => secondary.contains(s) && colors.contains(c),
        }
    &&& forall|j: int, a: int, b: int|
        0 <= j < sets.len() && 0 <= a < b < sets[j]@.len() ==> !same_key(#[trigger] sets[j]@[a], #[trigger] sets[j]@[b])
}

/// `set` read from place `q` on, and then from its start up to `q`.
fn rotate_items(set: &Vec<Item<usize, usize, usize>>, q: usize) -> (v: Vec<Item<usize, usize, usize>>)
    requires
        q < set@.len(),
    ensures
        v@ == rotated(set@, q as int),
{
    let mut v: Vec<Item<usize, usize, usize>> = Vec::new();
    let mut k: usize = q;
    while k < set.len()
        invariant
            q <= k <= set@.len(),
            v@ == set@.subrange(q as int, k as int),
        decreases set@.len() - k,
    {
        v.push(set[k]);
        k += 1;
        proof {
            assert(v@ =~= set@.subrange(q as int, k as int));
        }
    }
    let mut k: usize = 0;
    while k < q
        invariant
            k <= q < set@.len(),
            v@ == set@.subrange(q as int, set@.len() as int) + set@.subrange(0, k as int),
        decreases q - k,
    {
        v.push(set[k]);
        k += 1;
        proof {
            assert(v@ =~= set@.subrange(q as int, set@.len() as int) + set@.subrange(0, k as int));
        }
    }
    v
}

/// The options of a path, each read from the place it was entered at.
fn read_rows(sets: &Vec<Vec<Item<usize, usize, usize>>>, path: &Vec<(usize, usize)>) -> (rows: Vec<Vec<Item<usize, usize, usize>>>)
    requires
        forall|i: int| 0 <= i < path@.len() ==> (#[trigger] path@[i]).0 < sets@.len() && path@[i].1 < sets@[path@[i].0 as int]@.len(),
    ensures
        rows@.len() == path@.len(),
        forall|i: int| 0 <= i < path@.len() ==> (#[trigger] rows@[i])@ == rotated(sets@[path@[i].0 as int]@, path@[i].1 as int),
{
    let mut rows: Vec<Vec<Item<usize, usize, usize>>> = Vec::new();
    let mut i: usize = 0;
    while i < path.len()
        invariant
            i <= path@.len(),
            rows@.len() == i,
            forall|i: int| 0 <= i < path@.len() ==> (#[trigger] path@[i]).0 < sets@.len() && path@[i].1 < sets@[path@[i].0 as int]@.len(),
            forall|k: int| 0 <= k < i ==> (#[trigger] rows@[k])@ == rotated(sets@[path@[k].0 as int]@, path@[k].1 as int),
        decreases path@.len() - i,
    {
        let (j, q) = path[i];
        proof {
            assert(path@[i as int].0 < sets@.len());
        }
        let v = rotate_items(&sets[j], q);
        rows.push(v);
        i += 1;
    }
    rows
}

/// The colour option `set` gives secondary item `s`, if any.
fn color_in(set: &Vec<Item<usize, usize, usize>>, s: usize) -> (r: Option<usize>)
    ensures
        r matches Some(c) ==> set@.contains(Item::ColoredSecondary(s, c)),
        r is None ==> forall|c: usize| !(#[trigger] set@.contains(Item::ColoredSecondary(s, c))),
{
    let mut q: usize = 0;
    while q < set.len()
        invariant
            q <= set@.len(),
            forall|k: int, c: usize| 0 <= k < q ==> set@[k] != Item::<usize, usize, usize>::ColoredSecondary(s, c),
        decreases set@.len() - q,
    {
        match set[q] {
            Item::ColoredSecondary(t, c) => {
                if t == s {
                    assert(set@[q as int] == Item::<usize, usize, usize>::ColoredSecondary(s, c));
                    return Some(c);
                }
            },
            _ => {},
        }
        q += 1;
    }
    proof {
        assert forall|c: usize| !(#[trigger] set@.contains(Item::ColoredSecondary(s, c))) by {
            if set@.contains(Item::ColoredSecondary(s, c)) {
                let k = choose|k: int| 0 <= k < set@.len() && set@[k] == Item::<usize, usize, usize>::ColoredSecondary(s, c);
            }
        }
    }
    None
}

/// The colour the options of a path give secondary item `s`, if any.
fn path_color(sets: &Vec<Vec<Item<usize, usize, usize>>>, path: &Vec<(usize, usize)>, s: usize) -> (r: Option<usize>)
    requires
        forall|i: int| 0 <= i < path@.len() ==> (#[trigger] path@[i]).0 < sets@.len(),
    ensures
        r matches Some(c) ==> exists|j: int| path_set(Seq::empty(), path@).contains(j) && #[trigger] sets@[j]@.contains(Item::ColoredSecondary(s, c)),
        r is None ==> forall|j: int, c: usize|
            path_set(Seq::empty(), path@).contains(j) ==> !(#[trigger] sets@[j]@.contains(Item::ColoredSecondary(s, c))),
{
    let ghost ps = path_set(Seq::empty(), path@);
    let mut i: usize = 0;
    while i < path.len()
        invariant
            i <= path@.len(),
            ps == path_set(Seq::empty(), path@),
            forall|i: int| 0 <= i < path@.len() ==> (#[trigger] path@[i]).0 < sets@.len(),
            forall|k: int, c: usize| 0 <= k < i ==> !(#[trigger] sets@[path@[k].0 as int]@.contains(Item::ColoredSecondary(s, c))),
        decreases path@.len() - i,
    {
        match color_in(&sets[path[i].0], s) {
            Some(c) => {
                proof {
                    assert(ps.contains(path@[i as int].0 as int));
                }
                return Some(c);
            },
            None => {},
        }
        i += 1;
    }
    proof {
        assert forall|j: int, c: usize| ps.contains(j) implies !(#[trigger] sets@[j]@.contains(Item::ColoredSecondary(s, c))) by {
            let k = choose|k: int| 0 <= k < path@.len() && path@[k].0 as int == j;
            assert(!sets@[path@[k].0 as int]@.contains(Item::ColoredSecondary(s, c)));
        }
    }
    None
}

/// Each secondary item with the colour the options of a path give it; an
/// item named a second time gets none.
fn read_colors(sets: &Vec<Vec<Item<usize, usize, usize>>>, path: &Vec<(usize, usize)>, secondary: &Vec<usize>) -> (out: Vec<(usize, Option<usize>)>)
    requires
        forall|i: int| 0 <= i < path@.len() ==> (#[trigger] path@[i]).0 < sets@.len(),
    ensures
        colors_reported(sets@, path_set(Seq::empty(), path@), secondary@, out@),
{
    let ghost ps = path_set(Seq::empty(), path@);
    let mut out: Vec<(usize, Option<usize>)> = Vec::new();
    let mut k: usize = 0;
    while k < secondary.len()
        invariant
            k <= secondary@.len(),
            out@.len() == k,
            ps == path_set(Seq::empty(), path@),
            forall|i: int| 0 <= i < path@.len() ==> (#[trigger] path@[i]).0 < sets@.len(),
            forall|m: int| 0 <= m < k ==> (#[trigger] out@[m]).0 == secondary@[m],
            forall|m: int| 0 <= m < k && named_before(secondary@, m) ==> (#[trigger] out@[m]).1 is None,
            forall|m: int|
                0 <= m < k && !named_before(secondary@, m) ==> {
                    &&& ((#[trigger] out@[m]).1 matches Some(c) ==> exists|j: int| ps.contains(j) && #[trigger] sets@[j]@.contains(Item::ColoredSecondary(secondary@[m], c)))
                    &&& (out@[m].1 is None ==> forall|j: int, c: usize| ps.contains(j) ==> !(#[trigger] sets@[j]@.contains(Item::ColoredSecondary(secondary@[m], c))))
                },
        decreases secondary@.len() - k,
    {
        let s = secondary[k];
        let mut repeated = false;
        let mut k2: usize = 0;
        while k2 < k
            invariant
                k2 <= k < secondary@.len(),
                s == secondary@[k as int],
                repeated <==> exists|m2: int| 0 <= m2 < k2 && secondary@[m2] == s,
                named_before(secondary@, k as int) <==> exists|m2: int| 0 <= m2 < k && secondary@[m2] == s,
            decreases k - k2,
        {
            if secondary[k2] == s {
                repeated = true;
            }
            k2 += 1;
        }
        let color = if repeated {
            None
        } else {
            path_color(sets, path, s)
        };
        out.push((s, color));
        proof {
            assert(out@[k as int] == (s, color));
        }
        k += 1;
    }
    out
}

/// The options of a path, as places.
pub open spec fn path_order(c: Seq<(usize, usize)>) -> Seq<int> {
    Seq::new(c.len(), |i: int| c[i].0 as int)
}

/// The options of a path that completes nothing chosen, each read from the
/// place it was entered at, list the solution of its options.
proof fn lemma_listed(
    sets: Seq<Vec<Item<usize, usize, usize>>>,
    primary: Seq<usize>,
    c: Seq<(usize, usize)>,
    rows: Seq<Vec<Item<usize, usize, usize>>>,
)
    requires
        completes(sets, primary, Seq::empty(), c),
        rows.len() == c.len(),
        forall|i: int| 0 <= i < c.len() ==> (#[trigger] rows[i])@ == rotated(sets[c[i].0 as int]@, c[i].1 as int),
    ensures
        lists_options(sets, rows, path_order(c)),
        path_order(c).to_set() == path_set(Seq::empty(), c),
{
    let order = path_order(c);
    let po = Seq::<usize>::empty() + path_options(c);
    assert forall|a: int, b: int| 0 <= a < order.len() && 0 <= b < order.len() && a != b implies order[a] != order[b] by {
        assert(po[a] == c[a].0 && po[b] == c[b].0);
    }
    assert forall|i: int| 0 <= i < rows.len() implies 0 <= #[trigger] order[i] < sets.len() && exists|q: int|
        0 <= q < sets[order[i]]@.len() && sets[order[i]]@[q] is Primary && rows[i]@ == rotated(sets[order[i]]@, q) by {
        assert(c[i].0 < sets.len() && c[i].1 < sets[c[i].0 as int]@.len() && sets[c[i].0 as int]@[c[i].1 as int] is Primary);
        assert(order[i] == c[i].0 as int);
        let q = c[i].1 as int;
        assert(rows[i]@ == rotated(sets[order[i]]@, q));
    }
    assert(order.to_set() =~= path_set(Seq::empty(), c)) by {
        assert forall|j: int| order.to_set().contains(j) implies path_set(Seq::empty(), c).contains(j) by {
            let i = choose|i: int| 0 <= i < order.len() && order[i] == j;
        }
        assert forall|j: int| path_set(Seq::empty(), c).contains(j) implies order.to_set().contains(j) by {
            let i = choose|i: int| 0 <= i < c.len() && c[i].0 as int == j;
            assert(order[i] == j);
        }
    }
}

/// Whether no item of `v` comes twice.
fn all_distinct(v: &Vec<usize>) -> (r: bool)
    ensures
        r == v@.no_duplicates(),
{
    let mut a: usize = 0;
    while a < v.len()
        invariant
            a <= v@.len(),
            forall|x: int, y: int| 0 <= x < a && 0 <= y < v@.len() && x != y ==> v@[x] != v@[y],
        decreases v@.len() - a,
    {
        let mut b: usize = 0;
        while b < v.len()
            invariant
                a < v@.len(),
                b <= v@.len(),
                forall|x: int, y: int| 0 <= x < a && 0 <= y < v@.len() && x != y ==> v@[x] != v@[y],
                forall|y: int| 0 <= y < b && a != y ==> v@[a as int] != v@[y],
            decreases v@.len() - b,
        {
            if a != b && v[a] == v[b] {
                return false;
            }
            b += 1;
        }
        a += 1;
    }
    true
}

/// A solution, read from the path of options that gives it.
fn read_solution(sets: &Vec<Vec<Item<usize, usize, usize>>>, primary: &Vec<usize>, secondary: &Vec<usize>, path: &Vec<(usize, usize)>) -> (r: (
    Vec<Vec<Item<usize, usize, usize>>>,
    Vec<(usize, Option<usize>)>,
))
    requires
        completes(sets@, primary@, Seq::empty(), path@),
    ensures
        colored_listed(sets@, primary@, secondary@, r.0@, r.1@),
        lists_options(sets@, r.0@, path_order(path@)),
        path_order(path@).to_set() == path_set(Seq::empty(), path@),
{
    let rows = read_rows(sets, path);
    let colors = read_colors(sets, path, secondary);
    proof {
        lemma_listed(sets@, primary@, path@, rows@);
        assert(lists_options(sets@, rows@, path_order(path@)));
    }
    (rows, colors)
}

/// The solutions of `dlxc_iter`, found with the best primary item picked
/// first, or at random among the best.
fn all_found(
    sets: Vec<Vec<Item<usize, usize, usize>>>,
    primary_items: Vec<usize>,
    secondary_items: Vec<usize>,
    colors: Vec<usize>,
    randomized: bool,
) -> (r: Vec<(Vec<Vec<Item<usize, usize, usize>>>, Vec<(usize, Option<usize>)>)>)
    requires
        options_named(sets@, primary_items@, secondary_items@, colors@),
    ensures
        primary_items@.len() == 0 || !primary_items@.no_duplicates() ==> r@.len() == 0,
        forall|c: int| 0 <= c < r@.len() ==> colored_listed(sets@, primary_items@, secondary_items@, (#[trigger] r@[c]).0@, r@[c].1@),
        primary_items@.len() > 0 && primary_items@.no_duplicates() ==> forall|js: Set<int>|
            #[trigger] colored_solution(sets@, primary_items@, js) ==> exists|c: int, order: Seq<int>|
                0 <= c < r@.len() && #[trigger] lists_options(sets@, r@[c].0@, order) && order.to_set() == js,
        options_apart(sets@, r@),
{
    let mut r: Vec<(Vec<Vec<Item<usize, usize, usize>>>, Vec<(usize, Option<usize>)>)> = Vec::new();
    if primary_items.len() == 0 || !all_distinct(&primary_items) {
        proof {
            assert(options_listed_apart(sets@, r@, Seq::<Seq<int>>::empty()));
        }
        return r;
    }
    let mut chosen: Vec<usize> = Vec::new();
    proof {
        assert(chosen_ok(sets@, chosen@));
    }
    let mut rng = thread_rng();
    let paths = search_all(&sets, &primary_items, &mut chosen, randomized, &mut rng);
    let mut c: usize = 0;
    while c < paths.len()
        invariant
            c <= paths@.len(),
            r@.len() == c,
            forall|c: int| 0 <= c < paths@.len() ==> completes(sets@, primary_items@, Seq::empty(), #[trigger] paths@[c]@),
            forall|k: int| 0 <= k < c ==> colored_listed(sets@, primary_items@, secondary_items@, (#[trigger] r@[k]).0@, r@[k].1@),
            forall|k: int| 0 <= k < c ==> #[trigger] lists_options(sets@, r@[k].0@, path_order(paths@[k]@)) && path_order(paths@[k]@).to_set() == path_set(Seq::empty(), paths@[k]@),
        decreases paths@.len() - c,
    {
        let sol = read_solution(&sets, &primary_items, &secondary_items, &paths[c]);
        let ghost before = r@;
        r.push(sol);
        proof {
            assert(r@[c as int] == sol);
            assert forall|k: int| 0 <= k < c implies #[trigger] r@[k] == before[k] by {}
        }
        c += 1;
    }
    proof {
        assert forall|js: Set<int>| #[trigger] colored_solution(sets@, primary_items@, js) implies exists|c: int, order: Seq<int>|
            0 <= c < r@.len() && #[trigger] lists_options(sets@, r@[c].0@, order) && order.to_set() == js by {
            assert(found_set(Seq::empty(), paths@, js));
            let c = choose|c: int| 0 <= c < paths@.len() && #[trigger] path_set(Seq::empty(), paths@[c]@) == js;
            assert(lists_options(sets@, r@[c].0@, path_order(paths@[c]@)));
        }
        let orders = Seq::new(r@.len(), |c: int| path_order(paths@[c]@));
        assert forall|c: int| 0 <= c < r@.len() implies #[trigger] lists_options(sets@, r@[c].0@, orders[c]) by {
            assert(lists_options(sets@, r@[c].0@, path_order(paths@[c]@)));
        }
        assert forall|c1: int, c2: int| 0 <= c1 < c2 < r@.len() implies (#[trigger] orders[c1]).to_set() != (
        #[trigger] orders[c2]).to_set() by {
            assert(lists_options(sets@, r@[c1].0@, path_order(paths@[c1]@)));
            assert(lists_options(sets@, r@[c2].0@, path_order(paths@[c2]@)));
            assert(path_set(Seq::empty(), paths@[c1]@) != path_set(Seq::empty(), paths@[c2]@));
        }
        assert(options_listed_apart(sets@, r@, orders));
    }
    r
}

/// Every solution of the exact cover problem with colours, in the order
/// the search finds them: its options, each read from the primary item it
/// was chosen through, followed by the items after it and then those
/// before it, and each secondary item with the colour it got, if any.  A
/// solution covers every primary item exactly once, by options that each
/// hold a primary item, and any two of its options agree on the colour of
/// a secondary item they share (an item without colour agrees with
/// nothing).  With no primary items, or one named twice, there are none.
pub fn dlxc_iter(
    sets: Vec<Vec<Item<usize, usize, usize>>>,
    primary_items: Vec<usize>,
    secondary_items: Vec<usize>,
    colors: Vec<usize>,
) -> (r: Vec<(Vec<Vec<Item<usize, usize, usize>>>, Vec<(usize, Option<usize>)>)>)
    requires
        options_named(sets@, primary_items@, secondary_items@, colors@),
    ensures
        primary_items@.len() == 0 || !primary_items@.no_duplicates() ==> r@.len() == 0,
        forall|c: int| 0 <= c < r@.len() ==> colored_listed(sets@, primary_items@, secondary_items@, (#[trigger] r@[c]).0@, r@[c].1@),
        primary_items@.len() > 0 && primary_items@.no_duplicates() ==> forall|js: Set<int>|
            #[trigger] colored_solution(sets@, primary_items@, js) ==> exists|c: int, order: Seq<int>|
                0 <= c < r@.len() && #[trigger] lists_options(sets@, r@[c].0@, order) && order.to_set() == js,
        options_apart(sets@, r@),
{
    all_found(sets, primary_items, secondary_items, colors, false)
}

/// The solutions of `dlxc_iter`, with the search taking at each step one
/// of the uncovered primary items with the fewest options left, picked at
/// random: the same solutions, in an order left to chance.
pub fn dlxc_iter_randomized(
    sets: Vec<Vec<Item<usize, usize, usize>>>,
    primary_items: Vec<usize>,
    secondary_items: Vec<usize>,
    colors: Vec<usize>,
) -> (r: Vec<(Vec<Vec<Item<usize, usize, usize>>>, Vec<(usize, Option<usize>)>)>)
    requires
        options_named(sets@, primary_items@, secondary_items@, colors@),
    ensures
        primary_items@.len() == 0 || !primary_items@.no_duplicates() ==> r@.len() == 0,
        forall|c: int| 0 <= c < r@.len() ==> colored_listed(sets@, primary_items@, secondary_items@, (#[trigger] r@[c]).0@, r@[c].1@),
        primary_items@.len() > 0 && primary_items@.no_duplicates() ==> forall|js: Set<int>|
            #[trigger] colored_solution(sets@, primary_items@, js) ==> exists|c: int, order: Seq<int>|
                0 <= c < r@.len() && #[trigger] lists_options(sets@, r@[c].0@, order) && order.to_set() == js,
        options_apart(sets@, r@),
{
    all_found(sets, primary_items, secondary_items, colors, true)
}

/// The first solution of the search, with the best primary item picked
/// first, or at random among the best, unless the time limit, if there is
/// one, runs out first.  With no primary items, or one named twice, the
/// search ends at once, exhausted.
pub fn dlxc_first_search(
    sets: Vec<Vec<Item<usize, usize, usize>>>,
    primary_items: Vec<usize>,
    secondary_items: Vec<usize>,
    colors: Vec<usize>,
    time_limit: Option<u128>,
    randomized: bool,
) -> (r: Search<(Vec<Vec<Item<usize, usize, usize>>>, Vec<(usize, Option<usize>)>)>)
    requires
        options_named(sets@, primary_items@, secondary_items@, colors@),
    ensures
        primary_items@.len() == 0 || !primary_items@.no_duplicates() ==> r is Exhausted,
        r matches Search::Found(sol) ==> colored_listed(sets@, primary_items@, secondary_items@, sol.0@, sol.1@),
        r is Exhausted && primary_items@.len() > 0 && primary_items@.no_duplicates() ==> forall|js: Set<int>|
            !#[trigger] colored_solution(sets@, primary_items@, js),
        time_limit is None ==> !(r is OutOfTime),
        primary_items@.len() > 0 && primary_items@.no_duplicates() && time_limit == Some(0u128) ==> r is OutOfTime,
{
    if primary_items.len() == 0 || !all_distinct(&primary_items) {
        return Search::Exhausted;
    }
    let start = now();
    let mut chosen: Vec<usize> = Vec::new();
    proof {
        assert(chosen_ok(sets@, chosen@));
    }
    let mut rng = thread_rng();
    match search_first(&sets, &primary_items, &mut chosen, &start, time_limit, randomized, &mut rng) {
        Outcome::Found(path) => Search::Found(read_solution(&sets, &primary_items, &secondary_items, &path)),
        Outcome::Exhausted => Search::Exhausted,
        Outcome::OutOfTime => Search::OutOfTime,
    }
}

/// The first solution in the order of `dlxc_iter`, unless `time_limit`
/// runs out first: the solution `dlxc_first_search` finds with this limit,
/// if it finds one.  `None` when there is no solution, when the time runs
/// out, and when there are no primary items or one is named twice.
pub fn dlxc_first(
    sets: Vec<Vec<Item<usize, usize, usize>>>,
    primary_items: Vec<usize>,
    secondary_items: Vec<usize>,
    colors: Vec<usize>,
    time_limit: Duration,
) -> (r: Option<(Vec<Vec<Item<usize, usize, usize>>>, Vec<(usize, Option<usize>)>)>)
    requires
        options_named(sets@, primary_items@, secondary_items@, colors@),
    ensures
        primary_items@.len() == 0 || !primary_items@.no_duplicates() ==> r is None,
        r matches Some(sol) ==> colored_listed(sets@, primary_items@, secondary_items@, sol.0@, sol.1@),
{
    match dlxc_first_search(sets, primary_items, secondary_items, colors, Some(as_nanos(time_limit)), false) {
        Search::Found(sol) => Some(sol),
        _ => None,
    }
}

/// A first solution of the search of `dlxc_iter_randomized`, unless
/// `time_limit` runs out first: the solution the randomized
/// `dlxc_first_search` finds with this limit, if it finds one.  `None`
/// when there is no solution, when the time runs out, and when there are
/// no primary items or one is named twice.
pub fn dlxc_first_randomized(
    sets: Vec<Vec<Item<usize, usize, usize>>>,
    primary_items: Vec<usize>,
    secondary_items: Vec<usize>,
    colors: Vec<usize>,
    time_limit: Duration,
) -> (r: Option<(Vec<Vec<Item<usize, usize, usize>>>, Vec<(usize, Option<usize>)>)>)
    requires
        options_named(sets@, primary_items@, secondary_items@, colors@),
    ensures
        primary_items@.len() == 0 || !primary_items@.no_duplicates() ==> r is None,
        r matches Some(sol) ==> colored_listed(sets@, primary_items@, secondary_items@, sol.0@, sol.1@),
{
    match dlxc_first_search(sets, primary_items, secondary_items, colors, Some(as_nanos(time_limit)), true) {
        Search::Found(sol) => Some(sol),
        _ => None,
    }
}

} // verus!
