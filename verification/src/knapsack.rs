//! The 0/1 knapsack problem: choose items of the greatest total value
//! whose total volume fits.
use vstd::prelude::*;

verus! {

#[derive(Clone, Copy, PartialEq, Eq, Debug)]
pub struct Item {
    pub value: usize,
    pub volume: usize,
}

/// The recursive search from item `start` on.  It takes an item only when
/// the item's volume exceeds `max_volume`, where computing the volume left
/// would underflow; so on every input it accepts, it takes nothing.
fn knapsack_naive_from(max_volume: usize, items: &[Item], start: usize) -> (r: (Vec<Item>, usize))
    requires
        start <= items@.len(),
        max_volume == 0 || forall|i: int| start <= i < items@.len() ==> (#[trigger] items@[i]).volume <= max_volume,
    ensures
        r.0@.len() == 0,
        r.1 == 0,
    decreases items@.len() - start,
{
    if start == items.len() || max_volume == 0 {
        (Vec::new(), 0)
    } else {
        let item = items[start];
        let (exclude, exc_value) = knapsack_naive_from(max_volume, items, start + 1);
        if item.volume > max_volume {
            assert(false);
        }
        (exclude, exc_value)
    }
}

/// The choice of the naive search: see `knapsack_naive_from`.  An item whose
/// volume exceeds a non-zero `max_volume` makes the search underflow, so
/// such inputs are left out.
pub fn knapsack_naive(max_volume: usize, items: &[Item]) -> (r: (Vec<Item>, usize))
    requires
        max_volume == 0 || forall|i: int| 0 <= i < items@.len() ==> (#[trigger] items@[i]).volume <= max_volume,
    ensures
        r.0@.len() == 0,
        r.1 == 0,
{
    knapsack_naive_from(max_volume, items, 0)
}

/// The best value reachable with volume `v` from items `1..=i` (item 0 is
/// never taken), by the usual recurrence: an item that does not fit is
/// skipped, otherwise the better of taking and skipping it.
pub open spec fn best(items: Seq<Item>, v: int, i: int) -> int
    decreases i,
{
    if v <= 0 || i <= 0 {
        0
    } else if items[i].volume > v {
        best(items, v, i - 1)
    } else {
        let inc = best(items, v - items[i].volume, i - 1) + items[i].value;
        let exc = best(items, v, i - 1);
        if inc > exc { inc } else { exc }
    }
}

/// The total of the values of the listed items.
pub open spec fn value_of(items: Seq<Item>, idx: Seq<usize>) -> int
    decreases idx.len(),
{
    if idx.len() == 0 {
        0
    } else {
        value_of(items, idx.drop_last()) + items[idx.last() as int].value
    }
}

/// The total of the volumes of the listed items.
pub open spec fn volume_of(items: Seq<Item>, idx: Seq<usize>) -> int
    decreases idx.len(),
{
    if idx.len() == 0 {
        0
    } else {
        volume_of(items, idx.drop_last()) + items[idx.last() as int].volume
    }
}

/// The total of all values.
pub open spec fn total_value(items: Seq<Item>, n: int) -> int
    decreases n,
{
    if n <= 0 {
        0
    } else {
        total_value(items, n - 1) + items[n - 1].value
    }
}

proof fn lemma_total_nonneg(items: Seq<Item>, n: int)
    ensures
        0 <= total_value(items, n),
    decreases n,
{
    if n > 0 {
        lemma_total_nonneg(items, n - 1);
    }
}

proof fn lemma_best_bound(items: Seq<Item>, v: int, i: int)
    requires
        0 <= i < items.len(),
    ensures
        0 <= best(items, v, i) <= total_value(items, i + 1),
    decreases i,
{
    lemma_total_nonneg(items, i + 1);
    lemma_total_nonneg(items, i);
    if v > 0 && i > 0 {
        lemma_best_bound(items, v, i - 1);
        if items[i].volume <= v {
            lemma_best_bound(items, v - items[i].volume, i - 1);
        }
    }
}

/// A listed choice of items `1..=i`, in ascending order, of volume at most
/// `v` and value `val`.
pub open spec fn choice(items: Seq<Item>, idx: Seq<usize>, i: int, v: int, val: int) -> bool {
    &&& forall|k: int| 0 <= k < idx.len() ==> 1 <= #[trigger] idx[k] <= i
    &&& forall|a: int, b: int| 0 <= a < b < idx.len() ==> idx[a] < idx[b]
    &&& volume_of(items, idx) <= v
    &&& value_of(items, idx) == val
}

proof fn lemma_choice_push(items: Seq<Item>, idx: Seq<usize>, i: int, v: int, val: int, j: usize)
    requires
        choice(items, idx, i, v, val),
        0 <= i < j < items.len(),
    ensures
        choice(items, idx.push(j), j as int, v + items[j as int].volume, val + items[j as int].value),
{
    let idx2 = idx.push(j);
    assert(idx2.drop_last() == idx);
    assert forall|a: int, b: int| 0 <= a < b < idx2.len() implies idx2[a] < idx2[b] by {
        if b < idx.len() {
            assert(idx2[a] == idx[a] && idx2[b] == idx[b]);
        } else {
            assert(1 <= idx[a] <= i);
        }
    }
}

proof fn lemma_choice_widen(items: Seq<Item>, idx: Seq<usize>, i: int, j: int, v: int, val: int)
    requires
        choice(items, idx, i, v, val),
        i <= j,
    ensures
        choice(items, idx, j, v, val),
{
}

/// Every item from `1` to `i` takes some volume.
pub open spec fn positive_volumes(items: Seq<Item>, i: int) -> bool {
    forall|k: int| 1 <= k <= i ==> (#[trigger] items[k]).volume > 0
}

/// When items `1..=i` all take some volume, no choice of them that fits in
/// volume `v` is worth more than `best(items, v, i)`: the recurrence gives
/// the greatest value.  (An item of volume 0 is never counted at volume 0,
/// so there the recurrence can fall short.)
pub proof fn lemma_best_is_greatest(items: Seq<Item>, idx: Seq<usize>, i: int, v: int, val: int)
    requires
        0 <= i < items.len(),
        positive_volumes(items, i),
        choice(items, idx, i, v, val),
    ensures
        val <= best(items, v, i),
    decreases i,
{
    lemma_best_bound(items, v, i);
    if idx.len() == 0 {
        return;
    }
    let last = idx.last() as int;
    let rest = idx.drop_last();
    lemma_volume_nonneg(items, rest);
    assert(1 <= last <= i);
    assert(volume_of(items, idx) == volume_of(items, rest) + items[last].volume);
    if v <= 0 || i <= 0 {
        assert(items[last].volume > 0);
        assert(false);
    }
    if last == i {
        assert forall|k: int| 0 <= k < rest.len() implies 1 <= #[trigger] rest[k] <= i - 1 by {
            assert(rest[k] == idx[k]);
            assert(idx[k] < idx[idx.len() - 1]);
        }
        assert forall|a: int, b: int| 0 <= a < b < rest.len() implies rest[a] < rest[b] by {
            assert(rest[a] == idx[a] && rest[b] == idx[b]);
        }
        assert(choice(items, rest, i - 1, v - items[i].volume, val - items[i].value));
        lemma_best_is_greatest(items, rest, i - 1, v - items[i].volume, val - items[i].value);
    } else {
        assert forall|k: int| 0 <= k < idx.len() implies 1 <= #[trigger] idx[k] <= i - 1 by {
            if k < idx.len() - 1 {
                assert(idx[k] < idx[idx.len() - 1]);
            }
        }
        lemma_best_is_greatest(items, idx, i - 1, v, val);
    }
}

proof fn lemma_volume_nonneg(items: Seq<Item>, idx: Seq<usize>)
    ensures
        volume_of(items, idx) >= 0,
    decreases idx.len(),
{
    if idx.len() > 0 {
        lemma_volume_nonneg(items, idx.drop_last());
    }
}

/// Every listed index is an item other than the first.
pub open spec fn indices_below(idx: Seq<usize>, n: int) -> bool {
    forall|k: int| 0 <= k < idx.len() ==> 1 <= #[trigger] idx[k] < n
}

/// Knapsack by dynamic programming over volumes `0..=max_volume` and items:
/// the value is the best one reachable from items `1..` (item 0 is never
/// taken), and the indices listed reach it within the volume.
pub fn knapsack_dp(max_volume: usize, items: &[Item]) -> (r: (Vec<usize>, usize))
    requires
        items@.len() > 0,
        max_volume < usize::MAX,
        total_value(items@, items@.len() as int) <= usize::MAX,
    ensures
        r.1 == best(items@, max_volume as int, items@.len() - 1),
        choice(items@, r.0@, items@.len() - 1, max_volume as int, r.1 as int),
        positive_volumes(items@, items@.len() - 1) ==> forall|idx: Seq<usize>, val: int|
            #[trigger] choice(items@, idx, items@.len() - 1, max_volume as int, val) ==> val <= r.1,
{
    let n = items.len();
    let mut solutions: Vec<Vec<usize>> = Vec::new();
    solutions.push(Vec::new());
    let mut dp: Vec<Vec<(usize, usize)>> = Vec::new();
    let mut v: usize = 0;
    proof {
        assert forall|k: int| 0 <= k < n implies total_value(items@, k) <= total_value(items@, n as int) by {
            lemma_total_mono(items@, k, n as int);
        }
    }
    while v <= max_volume
        invariant
            n == items@.len(),
            n > 0,
            v <= max_volume + 1,
            max_volume < usize::MAX,
            total_value(items@, n as int) <= usize::MAX,
            forall|k: int| 0 <= k < n ==> total_value(items@, k) <= total_value(items@, n as int),
            dp@.len() == v,
            solutions@.len() >= 1,
            solutions@[0]@.len() == 0,
            forall|a: int| 0 <= a < solutions@.len() ==> indices_below(#[trigger] solutions@[a]@, n as int),
            forall|w: int, i: int| 0 <= w < v && 0 <= i < n ==> {
                let (si, val) = #[trigger] dp@[w]@[i];
                &&& dp@[w]@.len() == n
                &&& si < solutions@.len()
                &&& val == best(items@, w, i)
                &&& choice(items@, solutions@[si as int]@, i, w, val as int)
            },
            forall|w: int| 0 <= w < v ==> (#[trigger] dp@[w])@.len() == n,
        decreases max_volume + 1 - v,
    {
        let mut row: Vec<(usize, usize)> = Vec::new();
        let mut i: usize = 0;
        while i < n
            invariant
                n == items@.len(),
                n > 0,
                v <= max_volume,
                total_value(items@, n as int) <= usize::MAX,
                forall|k: int| 0 <= k < n ==> total_value(items@, k) <= total_value(items@, n as int),
                dp@.len() == v,
                row@.len() == i,
                i <= n,
                solutions@.len() >= 1,
                solutions@[0]@.len() == 0,
                forall|a: int| 0 <= a < solutions@.len() ==> indices_below(#[trigger] solutions@[a]@, n as int),
                forall|w: int, j: int| 0 <= w < v && 0 <= j < n ==> {
                    let (si, val) = #[trigger] dp@[w]@[j];
                    &&& si < solutions@.len()
                    &&& val == best(items@, w, j)
                    &&& choice(items@, solutions@[si as int]@, j, w, val as int)
                },
                forall|w: int| 0 <= w < v ==> (#[trigger] dp@[w])@.len() == n,
                forall|j: int| 0 <= j < i ==> {
                    let (si, val) = #[trigger] row@[j];
                    &&& si < solutions@.len()
                    &&& val == best(items@, v as int, j)
                    &&& choice(items@, solutions@[si as int]@, j, v as int, val as int)
                },
            decreases n - i,
        {
            if v == 0 || i == 0 {
                proof {
                    assert(choice(items@, solutions@[0]@, i as int, v as int, 0));
                }
                row.push((0, 0));
            } else if items[i].volume > v {
                let prev = row[i - 1];
                row.push(prev);
            } else {
                let item = items[i];
                let (inc_index, inc_value) = if item.volume == 0 { row[i - 1] } else { dp[v - item.volume][i - 1] };
                let (exc_index, exc_value) = row[i - 1];
                proof {
                    lemma_best_bound(items@, v - item.volume, i - 1);
                    assert(total_value(items@, i as int + 1) == total_value(items@, i as int) + items@[i as int].value);
                    assert(total_value(items@, i as int + 1) <= total_value(items@, n as int)) by {
                        lemma_total_mono(items@, i as int + 1, n as int);
                    }
                }
                if inc_value + items[i].value > exc_value {
                    let mut new_include = solutions[inc_index].clone();
                    let ghost old_sol = solutions@[inc_index as int]@;
                    assert(new_include@ == old_sol);
                    new_include.push(i);
                    proof {
                        lemma_choice_push(items@, old_sol, i - 1, v - item.volume, inc_value as int, i);
                    }
                    let ghost before = solutions@;
                    solutions.push(new_include);
                    proof {
                        assert forall|a: int| 0 <= a < solutions@.len() implies indices_below(#[trigger] solutions@[a]@, n as int) by {
                            if a < before.len() {
                                assert(solutions@[a] == before[a]);
                            }
                        }
                    }
                    row.push((solutions.len() - 1, inc_value + item.value));
                } else {
                    proof {
                        lemma_choice_widen(items@, solutions@[exc_index as int]@, i - 1, i as int, v as int, exc_value as int);
                    }
                    row.push((exc_index, exc_value));
                }
            }
            proof {
                if !(v == 0 || i == 0) && items@[i as int].volume > v {
                    let (si, val) = row@[i as int];
                    lemma_choice_widen(items@, solutions@[si as int]@, i - 1, i as int, v as int, val as int);
                }
            }
            i += 1;
        }
        dp.push(row);
        v += 1;
    }
    let (sol_index, volume) = dp[max_volume][n - 1];
    let solution = solutions[sol_index].clone();
    proof {
        if positive_volumes(items@, n - 1) {
            assert forall|idx: Seq<usize>, val: int| #[trigger] choice(items@, idx, n - 1, max_volume as int, val)
                implies val <= volume by {
                lemma_best_is_greatest(items@, idx, n - 1, max_volume as int, val);
            }
        }
    }
    (solution, volume)
}

proof fn lemma_total_mono(items: Seq<Item>, a: int, b: int)
    requires
        0 <= a <= b,
    ensures
        total_value(items, a) <= total_value(items, b),
    decreases b - a,
{
    if a < b {
        lemma_total_mono(items, a, b - 1);
    }
}

} // verus!
