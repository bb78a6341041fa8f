//! The n-queens problem: as an exact cover problem with colours (rows and
//! columns are primary items, diagonals secondary), and by a depth-first
//! search with a time limit.
use vstd::prelude::*;
use std::time::Duration;
use std::time::Instant;
use crate::dlxc::Item;

verus! {

#[derive(Clone, Copy, PartialEq, Eq, Hash, Debug)]
pub enum Position {
    Row(usize),
    Column(usize),
    DownDiagonal(usize),
    UpDiagonal(usize),
}

/// The option of a queen on row `i`, column `j` of an `n`-board.
pub open spec fn queen_option(n: int, i: int, j: int) -> Seq<Item<Position, Position, ()>> {
    seq![
        Item::Primary(Position::Row(i as usize)),
        Item::Primary(Position::Column(j as usize)),
        Item::Secondary(Position::UpDiagonal((i + j) as usize)),
        Item::Secondary(Position::DownDiagonal((n + i - j) as usize)),
    ]
}

/// One option per square, row after row.
pub fn n_queens_problem(n: usize) -> (r: Vec<Vec<Item<Position, Position, ()>>>)
    requires
        2 * n < usize::MAX,
    ensures
        r@.len() == n * n,
        forall|i: int, j: int| 0 <= i < n && 0 <= j < n ==> (#[trigger] r@[i * n + j])@ == queen_option(n as int, i, j),
{
    let mut all_sets: Vec<Vec<Item<Position, Position, ()>>> = Vec::new();
    let mut i: usize = 0;
    while i < n
        invariant
            i <= n,
            2 * n < usize::MAX,
            all_sets@.len() == i * n,
            forall|a: int, b: int| 0 <= a < i && 0 <= b < n ==> (#[trigger] all_sets@[a * n + b])@ == queen_option(n as int, a, b),
        decreases n - i,
    {
        let mut j: usize = 0;
        while j < n
            invariant
                i < n,
                j <= n,
                2 * n < usize::MAX,
                all_sets@.len() == i * n + j,
                forall|a: int, b: int| 0 <= a < i && 0 <= b < n ==> (#[trigger] all_sets@[a * n + b])@ == queen_option(n as int, a, b),
                forall|b: int| 0 <= b < j ==> (#[trigger] all_sets@[i * n + b])@ == queen_option(n as int, i as int, b),
            decreases n - j,
        {
            let up = i + j;
            let down = n + i - j;
            let set = vec![
                Item::Primary(Position::Row(i)),
                Item::Primary(Position::Column(j)),
                Item::Secondary(Position::UpDiagonal(up)),
                Item::Secondary(Position::DownDiagonal(down)),
            ];
            let ghost before = all_sets@;
            all_sets.push(set);
            proof {
                assert(set@ == queen_option(n as int, i as int, j as int));
                assert forall|a: int, b: int| 0 <= a < i && 0 <= b < n implies (#[trigger] all_sets@[a * n + b])@ == queen_option(n as int, a, b) by {
                    assert(a * n + b < i * n) by (nonlinear_arith)
                        requires 0 <= a < i, 0 <= b < n;
                    assert(all_sets@[a * n + b] == before[a * n + b]);
                }
                assert forall|b: int| 0 <= b < j + 1 implies (#[trigger] all_sets@[i * n + b])@ == queen_option(n as int, i as int, b) by {
                    if b < j {
                        assert(all_sets@[i * n + b] == before[i * n + b]);
                    }
                }
            }
            j += 1;
        }
        proof {
            assert((i + 1) * n == i * n + n) by (nonlinear_arith);
            assert forall|a: int, b: int| 0 <= a < i + 1 && 0 <= b < n implies (#[trigger] all_sets@[a * n + b])@ == queen_option(n as int, a, b) by {
                if a == i {
                    assert(all_sets@[i * n + b] == all_sets@[a * n + b]);
                }
            }
        }
        i += 1;
    }
    all_sets
}

/// The primary items: the row and the column of each index, in turn.
pub fn make_primary_items(n: usize) -> (r: Vec<Position>)
    requires
        2 * n <= usize::MAX,
    ensures
        r@.len() == 2 * n,
        forall|k: int| 0 <= k < 2 * n ==> #[trigger] r@[k] == (if k % 2 == 0 { Position::Row((k / 2) as usize) } else { Position::Column((k / 2) as usize) }),
{
    let mut primary_items: Vec<Position> = Vec::new();
    let mut i: usize = 0;
    while i < n
        invariant
            i <= n,
            primary_items@.len() == 2 * i,
            forall|k: int| 0 <= k < 2 * i ==> #[trigger] primary_items@[k] == (if k % 2 == 0 { Position::Row((k / 2) as usize) } else { Position::Column((k / 2) as usize) }),
        decreases n - i,
    {
        primary_items.push(Position::Row(i));
        primary_items.push(Position::Column(i));
        i += 1;
    }
    primary_items
}

/// The secondary items: the two diagonals of each index below `2 n`.
pub fn make_secondary_items(n: usize) -> (r: Vec<Position>)
    requires
        4 * n <= usize::MAX,
    ensures
        r@.len() == 4 * n,
        forall|k: int| 0 <= k < 4 * n ==> #[trigger] r@[k] == (if k % 2 == 0 { Position::UpDiagonal((k / 2) as usize) } else { Position::DownDiagonal((k / 2) as usize) }),
{
    let mut secondary_items: Vec<Position> = Vec::new();
    let mut i: usize = 0;
    while i < 2 * n
        invariant
            i <= 2 * n,
            4 * n <= usize::MAX,
            secondary_items@.len() == 2 * i,
            forall|k: int| 0 <= k < 2 * i ==> #[trigger] secondary_items@[k] == (if k % 2 == 0 { Position::UpDiagonal((k / 2) as usize) } else { Position::DownDiagonal((k / 2) as usize) }),
        decreases 2 * n - i,
    {
        secondary_items.push(Position::UpDiagonal(i));
        secondary_items.push(Position::DownDiagonal(i));
        i += 1;
    }
    secondary_items
}

/// The square an option names: the last row and the last column among its
/// primary items, 0 where there is none.
pub open spec fn option_square(option: Seq<Item<Position, Position, ()>>) -> (usize, usize)
    decreases option.len(),
{
    if option.len() == 0 {
        (0, 0)
    } else {
        let (r, c) = option_square(option.drop_last());
        match option.last() {
            Item::Primary(Position::Row(i)) => (i, c),
            Item::Primary(Position::Column(j)) => (r, j),
            _ => (r, c),
        }
    }
}

/// The squares of the queens of a solution, one per option.
pub fn dlx_to_solution(dlx_solution: &Vec<Vec<Item<Position, Position, ()>>>) -> (r: Vec<(usize, usize)>)
    ensures
        r@.len() == dlx_solution@.len(),
        forall|k: int| 0 <= k < r@.len() ==> r@[k] == option_square(#[trigger] dlx_solution@[k]@),
{
    let mut solution: Vec<(usize, usize)> = Vec::new();
    let mut k: usize = 0;
    while k < dlx_solution.len()
        invariant
            k <= dlx_solution@.len(),
            solution@.len() == k,
            forall|a: int| 0 <= a < k ==> solution@[a] == option_square(#[trigger] dlx_solution@[a]@),
        decreases dlx_solution@.len() - k,
    {
        let option = &dlx_solution[k];
        let mut row: usize = 0;
        let mut column: usize = 0;
        let mut p: usize = 0;
        while p < option.len()
            invariant
                p <= option@.len(),
                (row, column) == option_square(option@.take(p as int)),
            decreases option@.len() - p,
        {
            assert(option@.take(p + 1).drop_last() == option@.take(p as int));
            match option[p] {
                Item::Primary(Position::Row(i)) => {
                    row = i;
                },
                Item::Primary(Position::Column(j)) => {
                    column = j;
                },
                _ => {},
            }
            p += 1;
        }
        assert(option@.take(p as int) == option@);
        solution.push((row, column));
        k += 1;
    }
    solution
}

/// Two queens attack each other: same row, same column or same diagonal.
pub open spec fn attack(a: (usize, usize), b: (usize, usize)) -> bool {
    let dr = a.0 - b.0;
    let dc = a.1 - b.1;
    a.0 == b.0 || a.1 == b.1 || (if dr < 0 { -dr } else { dr }) == (if dc < 0 { -dc } else { dc })
}

/// Some two of the queens attack each other.
pub open spec fn in_conflict(queens: Seq<(usize, usize)>) -> bool {
    exists|i: int, j: int| 0 <= j < i < queens.len() && attack(#[trigger] queens[i], #[trigger] queens[j])
}

fn abs_diff(a: usize, b: usize) -> (r: isize)
    requires
        a <= isize::MAX,
        b <= isize::MAX,
    ensures
        r == (if a - b < 0 { b - a } else { a - b }),
{
    let d = a as isize - b as isize;
    if d < 0 { -d } else { d }
}

/// Some two of the queens attack each other.
pub fn conflict(queens: &[(usize, usize)]) -> (r: bool)
    requires
        forall|k: int| 0 <= k < queens@.len() ==> (#[trigger] queens@[k]).0 <= isize::MAX && queens@[k].1 <= isize::MAX,
    ensures
        r == in_conflict(queens@),
{
    let mut i: usize = 1;
    while i < queens.len()
        invariant
            1 <= i,
            forall|k: int| 0 <= k < queens@.len() ==> (#[trigger] queens@[k]).0 <= isize::MAX && queens@[k].1 <= isize::MAX,
            forall|a: int, b: int| 0 <= b < a < i && a < queens@.len() ==> !attack(#[trigger] queens@[a], #[trigger] queens@[b]),
        decreases queens@.len() - i,
    {
        let mut j: usize = 0;
        while j < i
            invariant
                1 <= i < queens@.len(),
                j <= i,
                forall|k: int| 0 <= k < queens@.len() ==> (#[trigger] queens@[k]).0 <= isize::MAX && queens@[k].1 <= isize::MAX,
                forall|a: int, b: int| 0 <= b < a < i ==> !attack(#[trigger] queens@[a], #[trigger] queens@[b]),
                forall|b: int| 0 <= b < j ==> !attack(queens@[i as int], #[trigger] queens@[b]),
            decreases i - j,
        {
            let (rowa, cola) = queens[i];
            let (rowb, colb) = queens[j];
            if rowa == rowb || cola == colb || abs_diff(rowa, rowb) == abs_diff(cola, colb) {
                assert(attack(queens@[i as int], queens@[j as int]));
                return true;
            }
            j += 1;
        }
        i += 1;
    }
    false
}

/// A placement of `n` queens, one per row in row order, none attacking
/// another.
pub open spec fn is_solution(n: int, queens: Seq<(usize, usize)>) -> bool {
    &&& queens.len() == n
    &&& forall|k: int| 0 <= k < n ==> (#[trigger] queens[k]).0 == k && queens[k].1 < n
    &&& !in_conflict(queens)
}

/// The rows `0..len` in order, each with a column below `n`.
pub open spec fn partial(n: int, queens: Seq<(usize, usize)>) -> bool {
    &&& queens.len() <= n
    &&& forall|k: int| 0 <= k < queens.len() ==> (#[trigger] queens[k]).0 == k && queens[k].1 < n
}

/// How many placements the search may still visit below one of `l` queens.
pub open spec fn subtree(n: int, l: int) -> nat
    decreases n - l,
{
    if l >= n { 1 } else { 1 + (n * subtree(n, l + 1)) as nat }
}

/// How many placements the search may still visit from a stack.
pub open spec fn pending(n: int, stack: Seq<Vec<(usize, usize)>>) -> nat
    decreases stack.len(),
{
    if stack.len() == 0 {
        0
    } else {
        pending(n, stack.drop_last()) + subtree(n, stack.last()@.len() as int)
    }
}

#[verifier::external_type_specification]
#[verifier::external_body]
pub struct ExInstant(Instant);

/// `Instant::now()`: the current time.  Nothing about it is stated.
#[verifier::external_body]
pub(crate) fn now() -> Instant {
    Instant::now()
}

/// `Instant::elapsed`: the time passed since `start`.  It depends on the
/// clock, so nothing is stated.
#[verifier::external_body]
fn elapsed(start: &Instant) -> Duration {
    start.elapsed()
}

/// `Duration::as_nanos`: the whole nanoseconds of `d`.  A `Duration` is
/// opaque here, so nothing is stated.
#[verifier::external_body]
pub(crate) fn as_nanos(d: Duration) -> u128 {
    d.as_nanos()
}

/// Whether at least `limit` nanoseconds have passed since `start`: always
/// so for a limit of 0.
pub(crate) fn time_is_up(start: &Instant, limit: u128) -> (r: bool)
    ensures
        limit == 0 ==> r,
{
    as_nanos(elapsed(start)) >= limit
}

/// Whether the time limit in nanoseconds, if there is one, has run out
/// since `start`; without a limit the time never runs out, and a limit of
/// 0 has always run out.
pub(crate) fn out_of_time(start: &Instant, limit: Option<u128>) -> (r: bool)
    ensures
        limit is None ==> !r,
        limit == Some(0u128) ==> r,
{
    match limit {
        Some(l) => time_is_up(start, l),
        None => false,
    }
}

/// How a search for one solution ended.
pub enum Search<T> {
    /// The solution found.
    Found(T),
    /// The whole search space was gone through without a solution.
    Exhausted,
    /// The time limit ran out first.
    OutOfTime,
}

/// A copy of a placement.
fn copy_placement(v: &Vec<(usize, usize)>) -> (r: Vec<(usize, usize)>)
    ensures
        r@ == v@,
{
    let mut r: Vec<(usize, usize)> = Vec::new();
    let mut k: usize = 0;
    while k < v.len()
        invariant
            k <= v@.len(),
            r@ == v@.take(k as int),
        decreases v@.len() - k,
    {
        r.push(v[k]);
        k += 1;
        assert(r@ =~= v@.take(k as int));
    }
    assert(v@.take(k as int) == v@);
    r
}

/// Pushes the placements with one more queen, on row `row`, one per
/// column.
fn push_children(stack: &mut Vec<Vec<(usize, usize)>>, solution: &Vec<(usize, usize)>, n: usize)
    requires
        partial(n as int, solution@),
        solution@.len() < n,
        n <= isize::MAX,
        forall|s: int| 0 <= s < old(stack)@.len() ==> partial(n as int, #[trigger] old(stack)@[s]@),
    ensures
        pending(n as int, final(stack)@) == pending(n as int, old(stack)@) + subtree(n as int, solution@.len() as int) - 1,
        forall|s: int| 0 <= s < final(stack)@.len() ==> partial(n as int, #[trigger] final(stack)@[s]@),
        final(stack)@.len() == old(stack)@.len() + n,
        forall|s: int| 0 <= s < old(stack)@.len() ==> #[trigger] final(stack)@[s] == old(stack)@[s],
        forall|c: int| 0 <= c < n ==> (#[trigger] final(stack)@[old(stack)@.len() + c])@ == solution@.push(
            (solution@.len() as usize, c as usize),
        ),
{
    let row = solution.len();
    let ghost base = pending(n as int, stack@);
    let ghost t = subtree(n as int, row + 1);
    let ghost mut acc: int = 0;
    let mut column: usize = 0;
    while column < n
        invariant
            column <= n,
            row == solution@.len(),
            row < n,
            n <= isize::MAX,
            partial(n as int, solution@),
            acc == column * t,
            t == subtree(n as int, row + 1),
            base == pending(n as int, old(stack)@),
            pending(n as int, stack@) == base + acc,
            forall|s: int| 0 <= s < stack@.len() ==> partial(n as int, #[trigger] stack@[s]@),
            stack@.len() == old(stack)@.len() + column,
            forall|s: int| 0 <= s < old(stack)@.len() ==> #[trigger] stack@[s] == old(stack)@[s],
            forall|c: int| 0 <= c < column ==> (#[trigger] stack@[old(stack)@.len() + c])@ == solution@.push(
                (row, c as usize),
            ),
        decreases n - column,
    {
        let mut queens = copy_placement(solution);
        queens.push((row, column));
        let ghost q = queens;
        assert(q@.len() == row + 1);
        let ghost before = stack@;
        stack.push(queens);
        assert(stack@.last() == q);
        proof {
            assert(stack@.drop_last() == before);
            assert(stack@.last()@.len() == row + 1);
            assert(stack@.len() > 0);
            assert(pending(n as int, stack@) == pending(n as int, stack@.drop_last()) + subtree(n as int, stack@.last()@.len() as int));
            assert(pending(n as int, stack@) == pending(n as int, before) + t);
            acc = acc + t;
            assert(acc == (column + 1) * t) by (nonlinear_arith)
                requires acc == column * t + t;
            assert forall|s: int| 0 <= s < stack@.len() implies partial(n as int, #[trigger] stack@[s]@) by {
                if s < before.len() {
                    assert(stack@[s] == before[s]);
                }
            }
            assert forall|c: int| 0 <= c < column + 1 implies (#[trigger] stack@[old(stack)@.len() + c])@ == solution@.push(
                (row, c as usize),
            ) by {
                if c < column {
                    assert(stack@[old(stack)@.len() + c] == before[old(stack)@.len() + c]);
                }
            }
        }
        column += 1;
    }
    proof {
        assert(subtree(n as int, row as int) == 1 + n * t);
    }
}

/// `p` is the first rows of `q`.
pub open spec fn prefix_of(p: Seq<(usize, usize)>, q: Seq<(usize, usize)>) -> bool {
    p.len() <= q.len() && q.take(p.len() as int) == p
}

/// `q` is one of `sols`.
pub open spec fn found_placement(sols: Seq<Vec<(usize, usize)>>, q: Seq<(usize, usize)>) -> bool {
    exists|k: int| 0 <= k < sols.len() && #[trigger] sols[k]@ == q
}

/// Some placement on the stack is the first rows of `q`.
pub open spec fn on_stack(stack: Seq<Vec<(usize, usize)>>, q: Seq<(usize, usize)>) -> bool {
    exists|s: int| 0 <= s < stack.len() && #[trigger] prefix_of(stack[s]@, q)
}

/// What was on the stack is on what is left of it, or was the top.
proof fn lemma_popped(before: Seq<Vec<(usize, usize)>>, q: Seq<(usize, usize)>)
    requires
        before.len() > 0,
    ensures
        on_stack(before, q) ==> on_stack(before.drop_last(), q) || prefix_of(before.last()@, q),
{
    if on_stack(before, q) {
        let s = choose|s: int| 0 <= s < before.len() && #[trigger] prefix_of(before[s]@, q);
        if s < before.len() - 1 {
            assert(before.drop_last()[s] == before[s]);
        }
    }
}

/// Queens that attack each other still do with more queens added.
proof fn lemma_conflict_prefix(p: Seq<(usize, usize)>, q: Seq<(usize, usize)>)
    requires
        prefix_of(p, q),
        in_conflict(p),
    ensures
        in_conflict(q),
{
    let (i, j) = choose|i: int, j: int| 0 <= j < i < p.len() && attack(#[trigger] p[i], #[trigger] p[j]);
    assert(q[i] == p[i] && q[j] == p[j]);
}

/// Neither of `a` and `b` is the first rows of the other.
pub open spec fn apart(a: Seq<(usize, usize)>, b: Seq<(usize, usize)>) -> bool {
    !prefix_of(a, b) && !prefix_of(b, a)
}

/// A placement one row longer than `e` is apart from what `e` is apart
/// from.
proof fn lemma_child_apart(e: Seq<(usize, usize)>, x: Seq<(usize, usize)>, c: usize)
    requires
        apart(e, x),
    ensures
        apart(e.push((e.len() as usize, c)), x),
{
    let ch = e.push((e.len() as usize, c));
    if prefix_of(ch, x) {
        assert(x.take(e.len() as int) =~= ch.take(e.len() as int));
        assert(ch.take(e.len() as int) =~= e);
    }
    if prefix_of(x, ch) {
        if x.len() <= e.len() {
            assert(e.take(x.len() as int) =~= ch.take(x.len() as int));
        } else {
            assert(x =~= ch);
            assert(x.take(e.len() as int) =~= e);
        }
    }
}

/// Two placements one row longer than `e`, in different columns, are
/// apart.
proof fn lemma_children_apart(e: Seq<(usize, usize)>, c1: usize, c2: usize)
    requires
        c1 != c2,
    ensures
        apart(e.push((e.len() as usize, c1)), e.push((e.len() as usize, c2))),
{
    let a = e.push((e.len() as usize, c1));
    let b = e.push((e.len() as usize, c2));
    if prefix_of(a, b) {
        assert(b.take(a.len() as int)[e.len() as int] == b[e.len() as int]);
    }
    if prefix_of(b, a) {
        assert(a.take(b.len() as int)[e.len() as int] == a[e.len() as int]);
    }
}

/// The stack after its top `e` was replaced by the placements one row
/// longer keeps all placements on it and found apart.
proof fn lemma_push_apart(
    st: Seq<Vec<(usize, usize)>>,
    e: Seq<(usize, usize)>,
    n: int,
    stack: Seq<Vec<(usize, usize)>>,
    sols: Seq<Vec<(usize, usize)>>,
)
    requires
        forall|s1: int, s2: int| 0 <= s1 < s2 < st.len() ==> apart(#[trigger] st[s1]@, #[trigger] st[s2]@),
        forall|s: int| 0 <= s < st.len() ==> apart(#[trigger] st[s]@, e),
        forall|k: int| 0 <= k < sols.len() ==> apart(e, #[trigger] sols[k]@),
        forall|s: int, k: int| 0 <= s < st.len() && 0 <= k < sols.len() ==> apart(#[trigger] st[s]@, #[trigger] sols[k]@),
        0 <= n <= usize::MAX,
        stack.len() == st.len() + n,
        forall|s: int| 0 <= s < st.len() ==> #[trigger] stack[s] == st[s],
        forall|c: int| 0 <= c < n ==> (#[trigger] stack[st.len() + c])@ == e.push((e.len() as usize, c as usize)),
    ensures
        forall|s1: int, s2: int| 0 <= s1 < s2 < stack.len() ==> apart(#[trigger] stack[s1]@, #[trigger] stack[s2]@),
        forall|s: int, k: int| 0 <= s < stack.len() && 0 <= k < sols.len() ==> apart(#[trigger] stack[s]@, #[trigger] sols[k]@),
{
    assert forall|s1: int, s2: int| 0 <= s1 < s2 < stack.len() implies apart(#[trigger] stack[s1]@, #[trigger] stack[s2]@) by {
        if s2 < st.len() {
            assert(stack[s1] == st[s1] && stack[s2] == st[s2]);
        } else if s1 < st.len() {
            let c = s2 - st.len();
            assert(stack[s1] == st[s1]);
            assert(stack[st.len() + c]@ == e.push((e.len() as usize, c as usize)));
            lemma_child_apart(e, st[s1]@, c as usize);
        } else {
            let c1 = s1 - st.len();
            let c2 = s2 - st.len();
            assert(stack[st.len() + c1]@ == e.push((e.len() as usize, c1 as usize)));
            assert(stack[st.len() + c2]@ == e.push((e.len() as usize, c2 as usize)));
            lemma_children_apart(e, c1 as usize, c2 as usize);
        }
    }
    assert forall|s: int, k: int| 0 <= s < stack.len() && 0 <= k < sols.len() implies apart(#[trigger] stack[s]@, #[trigger] sols[k]@) by {
        if s < st.len() {
            assert(stack[s] == st[s]);
        } else {
            let c = s - st.len();
            assert(stack[st.len() + c]@ == e.push((e.len() as usize, c as usize)));
            lemma_child_apart(e, sols[k]@, c as usize);
        }
    }
}

/// `a` and `b` agree on their first `k` queens and `a`'s queen `k` stands
/// in a lower column.
pub open spec fn splits(a: Seq<(usize, usize)>, b: Seq<(usize, usize)>, k: int) -> bool {
    0 <= k < a.len() && k < b.len() && a.take(k) == b.take(k) && a[k].1 < b[k].1
}

/// `a` comes before `b` in the order of columns, row by row.
pub open spec fn lex_below(a: Seq<(usize, usize)>, b: Seq<(usize, usize)>) -> bool {
    exists|k: int| #[trigger] splits(a, b, k)
}

/// Placements that extend two ordered ones keep their order.
proof fn lemma_lex_extend(p1: Seq<(usize, usize)>, p2: Seq<(usize, usize)>, q1: Seq<(usize, usize)>, q2: Seq<(usize, usize)>)
    requires
        lex_below(p1, p2),
        prefix_of(p1, q1),
        prefix_of(p2, q2),
    ensures
        lex_below(q1, q2),
{
    let k = choose|k: int| #[trigger] splits(p1, p2, k);
    assert(q1.take(k) =~= p1.take(k)) by {
        assert(q1.take(p1.len() as int) == p1);
        assert forall|x: int| 0 <= x < k implies q1.take(k)[x] == p1.take(k)[x] by {
            assert(q1.take(p1.len() as int)[x] == q1[x]);
        }
    }
    assert(q2.take(k) =~= p2.take(k)) by {
        assert(q2.take(p2.len() as int) == p2);
        assert forall|x: int| 0 <= x < k implies q2.take(k)[x] == p2.take(k)[x] by {
            assert(q2.take(p2.len() as int)[x] == q2[x]);
        }
    }
    assert(q1[k] == q1.take(p1.len() as int)[k]);
    assert(q2[k] == q2.take(p2.len() as int)[k]);
    assert(splits(q1, q2, k));
}

/// The stack after its top `e` was replaced by the placements one row
/// longer, in column order, stays ordered from the bottom up.
proof fn lemma_push_order(st: Seq<Vec<(usize, usize)>>, e: Seq<(usize, usize)>, n: int, stack: Seq<Vec<(usize, usize)>>)
    requires
        forall|s1: int, s2: int| 0 <= s1 < s2 < st.len() ==> lex_below(#[trigger] st[s1]@, #[trigger] st[s2]@),
        forall|s: int| 0 <= s < st.len() ==> lex_below(#[trigger] st[s]@, e),
        0 <= n <= usize::MAX,
        stack.len() == st.len() + n,
        forall|s: int| 0 <= s < st.len() ==> #[trigger] stack[s] == st[s],
        forall|c: int| 0 <= c < n ==> (#[trigger] stack[st.len() + c])@ == e.push((e.len() as usize, c as usize)),
    ensures
        forall|s1: int, s2: int| 0 <= s1 < s2 < stack.len() ==> lex_below(#[trigger] stack[s1]@, #[trigger] stack[s2]@),
{
    assert forall|s1: int, s2: int| 0 <= s1 < s2 < stack.len() implies lex_below(#[trigger] stack[s1]@, #[trigger] stack[s2]@) by {
        if s2 < st.len() {
            assert(stack[s1] == st[s1] && stack[s2] == st[s2]);
        } else if s1 < st.len() {
            let c = s2 - st.len();
            assert(stack[s1] == st[s1]);
            let ch = e.push((e.len() as usize, c as usize));
            assert(stack[st.len() + c]@ == ch);
            assert(ch.take(e.len() as int) =~= e);
            assert(st[s1]@.take(st[s1]@.len() as int) =~= st[s1]@);
            lemma_lex_extend(st[s1]@, e, st[s1]@, ch);
        } else {
            let c1 = s1 - st.len();
            let c2 = s2 - st.len();
            let a = e.push((e.len() as usize, c1 as usize));
            let b = e.push((e.len() as usize, c2 as usize));
            assert(stack[st.len() + c1]@ == a);
            assert(stack[st.len() + c2]@ == b);
            assert(a.take(e.len() as int) =~= b.take(e.len() as int));
            assert(splits(a, b, e.len() as int));
        }
    }
}

/// Placements one row longer than `e` come before what `e` comes before.
proof fn lemma_children_below(e: Seq<(usize, usize)>, c: usize, x: Seq<(usize, usize)>)
    requires
        lex_below(e, x),
    ensures
        lex_below(e.push((e.len() as usize, c)), x),
{
    let ch = e.push((e.len() as usize, c));
    assert(ch.take(e.len() as int) =~= e);
    assert(x.take(x.len() as int) =~= x);
    lemma_lex_extend(e, x, ch, x);
}

/// Every placement of `n` queens, by depth-first search, or `None` when
/// `time_limit` runs out first.  The search is that of
/// `n_queens_dfs_search` with this limit.
pub fn n_queens_dfs(n: usize, time_limit: Duration) -> (r: Option<Vec<Vec<(usize, usize)>>>)
    requires
        n <= isize::MAX,
    ensures
        r matches Some(sols) ==> forall|k: int| 0 <= k < sols@.len() ==> is_solution(n as int, #[trigger] sols@[k]@),
        r matches Some(sols) ==> forall|q: Seq<(usize, usize)>| #[trigger] is_solution(n as int, q) ==> found_placement(sols@, q),
        r matches Some(sols) ==> forall|k1: int, k2: int| 0 <= k1 < k2 < sols@.len() ==> (#[trigger] sols@[k1])@ != (#[trigger] sols@[k2])@,
        r matches Some(sols) ==> forall|k1: int, k2: int|
            0 <= k1 < k2 < sols@.len() ==> lex_below(#[trigger] sols@[k2]@, #[trigger] sols@[k1]@),
{
    n_queens_dfs_search(n, Some(as_nanos(time_limit)))
}

/// Every placement of `n` queens, by depth-first search: the placements
/// are built row by row from a stack, the top one first, and the time
/// limit, if there is one, is checked as each is taken.  `None` when it
/// runs out first; without a limit the search always ends with the
/// placements.
pub fn n_queens_dfs_search(n: usize, time_limit: Option<u128>) -> (r: Option<Vec<Vec<(usize, usize)>>>)
    requires
        n <= isize::MAX,
    ensures
        r matches Some(sols) ==> forall|k: int| 0 <= k < sols@.len() ==> is_solution(n as int, #[trigger] sols@[k]@),
        r matches Some(sols) ==> forall|q: Seq<(usize, usize)>| #[trigger] is_solution(n as int, q) ==> found_placement(sols@, q),
        r matches Some(sols) ==> forall|k1: int, k2: int| 0 <= k1 < k2 < sols@.len() ==> (#[trigger] sols@[k1])@ != (#[trigger] sols@[k2])@,
        time_limit is None ==> r is Some,
        time_limit == Some(0u128) ==> r is None,
        r matches Some(sols) ==> forall|k1: int, k2: int|
            0 <= k1 < k2 < sols@.len() ==> lex_below(#[trigger] sols@[k2]@, #[trigger] sols@[k1]@),
{
    let start_time = now();
    let mut solutions: Vec<Vec<(usize, usize)>> = Vec::new();
    let mut stack: Vec<Vec<(usize, usize)>> = Vec::new();
    stack.push(Vec::new());
    proof {
        assert forall|q: Seq<(usize, usize)>| #[trigger] is_solution(n as int, q) implies on_stack(stack@, q) by {
            assert(q.take(0) =~= stack@[0]@);
            assert(prefix_of(stack@[0]@, q));
        }
    }
    loop
        invariant
            n <= isize::MAX,
            forall|s: int| 0 <= s < stack@.len() ==> partial(n as int, #[trigger] stack@[s]@),
            forall|k: int| 0 <= k < solutions@.len() ==> is_solution(n as int, #[trigger] solutions@[k]@),
            forall|q: Seq<(usize, usize)>| #[trigger] is_solution(n as int, q) ==> found_placement(solutions@, q)
                || on_stack(stack@, q),
            forall|s1: int, s2: int| 0 <= s1 < s2 < stack@.len() ==> apart(#[trigger] stack@[s1]@, #[trigger] stack@[s2]@),
            forall|k1: int, k2: int| 0 <= k1 < k2 < solutions@.len() ==> apart(#[trigger] solutions@[k1]@, #[trigger] solutions@[k2]@),
            forall|s: int, k: int| 0 <= s < stack@.len() && 0 <= k < solutions@.len() ==> apart(#[trigger] stack@[s]@, #[trigger] solutions@[k]@),
            time_limit == Some(0u128) ==> stack@.len() > 0,
            forall|s1: int, s2: int| 0 <= s1 < s2 < stack@.len() ==> lex_below(#[trigger] stack@[s1]@, #[trigger] stack@[s2]@),
            forall|k1: int, k2: int| 0 <= k1 < k2 < solutions@.len() ==> lex_below(#[trigger] solutions@[k2]@, #[trigger] solutions@[k1]@),
            forall|s: int, k: int| 0 <= s < stack@.len() && 0 <= k < solutions@.len() ==> lex_below(#[trigger] stack@[s]@, #[trigger] solutions@[k]@),
        ensures
            time_limit != Some(0u128),
            forall|k1: int, k2: int| 0 <= k1 < k2 < solutions@.len() ==> lex_below(#[trigger] solutions@[k2]@, #[trigger] solutions@[k1]@),
            forall|k: int| 0 <= k < solutions@.len() ==> is_solution(n as int, #[trigger] solutions@[k]@),
            forall|q: Seq<(usize, usize)>| #[trigger] is_solution(n as int, q) ==> found_placement(solutions@, q),
            forall|k1: int, k2: int| 0 <= k1 < k2 < solutions@.len() ==> apart(#[trigger] solutions@[k1]@, #[trigger] solutions@[k2]@),
        decreases pending(n as int, stack@),
    {
        let ghost before = stack@;
        match stack.pop() {
            Some(solution) => {
                proof {
                    assert(stack@ == before.drop_last());
                    assert(partial(n as int, before[before.len() - 1]@));
                    assert forall|s: int| 0 <= s < stack@.len() implies apart(#[trigger] stack@[s]@, solution@) by {
                        assert(stack@[s] == before[s]);
                        assert(apart(before[s]@, before[before.len() - 1]@));
                    }
                    assert forall|k: int| 0 <= k < solutions@.len() implies apart(solution@, #[trigger] solutions@[k]@) by {
                        assert(apart(before[before.len() - 1]@, solutions@[k]@));
                    }
                    assert forall|s1: int, s2: int| 0 <= s1 < s2 < stack@.len() implies apart(#[trigger] stack@[s1]@, #[trigger] stack@[s2]@) by {
                        assert(stack@[s1] == before[s1] && stack@[s2] == before[s2]);
                    }
                    assert forall|s: int, k: int| 0 <= s < stack@.len() && 0 <= k < solutions@.len() implies apart(
                        #[trigger] stack@[s]@,
                        #[trigger] solutions@[k]@,
                    ) by {
                        assert(stack@[s] == before[s]);
                    }
                    assert forall|s1: int, s2: int| 0 <= s1 < s2 < stack@.len() implies lex_below(#[trigger] stack@[s1]@, #[trigger] stack@[s2]@) by {
                        assert(stack@[s1] == before[s1] && stack@[s2] == before[s2]);
                    }
                    assert forall|s: int, k: int| 0 <= s < stack@.len() && 0 <= k < solutions@.len() implies lex_below(
                        #[trigger] stack@[s]@,
                        #[trigger] solutions@[k]@,
                    ) by {
                        assert(stack@[s] == before[s]);
                    }
                }
                if out_of_time(&start_time, time_limit) {
                    return None;
                }
                if conflict(solution.as_slice()) {
                    proof {
                        assert forall|q: Seq<(usize, usize)>| #[trigger] is_solution(n as int, q) implies found_placement(solutions@, q)
                            || on_stack(stack@, q) by {
                            lemma_popped(before, q);
                            if prefix_of(solution@, q) {
                                lemma_conflict_prefix(solution@, q);
                            }
                        }
                    }
                    continue;
                }
                let row = solution.len();
                if row == n {
                    let ghost b = solutions@;
                    let ghost sv = solution@;
                    solutions.push(solution);
                    proof {
                        assert forall|k: int| 0 <= k < solutions@.len() implies is_solution(n as int, #[trigger] solutions@[k]@) by {
                            if k < b.len() {
                                assert(solutions@[k] == b[k]);
                            }
                        }
                        assert forall|k1: int, k2: int| 0 <= k1 < k2 < solutions@.len() implies apart(
                            #[trigger] solutions@[k1]@,
                            #[trigger] solutions@[k2]@,
                        ) by {
                            assert(solutions@[k1] == b[k1]);
                            if k2 < b.len() {
                                assert(solutions@[k2] == b[k2]);
                            } else {
                                assert(apart(sv, b[k1]@));
                            }
                        }
                        assert forall|s: int, k: int| 0 <= s < stack@.len() && 0 <= k < solutions@.len() implies apart(
                            #[trigger] stack@[s]@,
                            #[trigger] solutions@[k]@,
                        ) by {
                            if k < b.len() {
                                assert(solutions@[k] == b[k]);
                            }
                        }
                        let top = before.len() - 1;
                        assert forall|k1: int, k2: int| 0 <= k1 < k2 < solutions@.len() implies lex_below(
                            #[trigger] solutions@[k2]@,
                            #[trigger] solutions@[k1]@,
                        ) by {
                            assert(solutions@[k1] == b[k1]);
                            if k2 < b.len() {
                                assert(solutions@[k2] == b[k2]);
                            } else {
                                assert(lex_below(before[top]@, b[k1]@));
                            }
                        }
                        assert forall|s: int, k: int| 0 <= s < stack@.len() && 0 <= k < solutions@.len() implies lex_below(
                            #[trigger] stack@[s]@,
                            #[trigger] solutions@[k]@,
                        ) by {
                            if k < b.len() {
                                assert(solutions@[k] == b[k]);
                            } else {
                                assert(stack@[s] == before[s]);
                                assert(lex_below(before[s]@, before[top]@));
                            }
                        }
                        assert forall|q: Seq<(usize, usize)>| #[trigger] is_solution(n as int, q) implies found_placement(solutions@, q)
                            || on_stack(stack@, q) by {
                            lemma_popped(before, q);
                            if found_placement(b, q) {
                                let k = choose|k: int| 0 <= k < b.len() && #[trigger] b[k]@ == q;
                                assert(solutions@[k] == b[k]);
                            } else if prefix_of(sv, q) {
                                assert(q.take(n as int) =~= q);
                                assert(solutions@[b.len() as int]@ == q);
                            }
                        }
                    }
                    continue;
                }
                let ghost sv = solution@;
                let ghost st = stack@;
                push_children(&mut stack, &solution, n);
                proof {
                    lemma_push_apart(st, sv, n as int, stack@, solutions@);
                    assert forall|s: int| 0 <= s < st.len() implies lex_below(#[trigger] st[s]@, sv) by {
                        assert(st[s] == before[s]);
                        assert(lex_below(before[s]@, before[before.len() - 1]@));
                    }
                    lemma_push_order(st, sv, n as int, stack@);
                    assert forall|s: int, k: int| 0 <= s < stack@.len() && 0 <= k < solutions@.len() implies lex_below(
                        #[trigger] stack@[s]@,
                        #[trigger] solutions@[k]@,
                    ) by {
                        if s < st.len() {
                            assert(stack@[s] == st[s]);
                            assert(lex_below(before[s]@, solutions@[k]@));
                        } else {
                            let c = s - st.len();
                            assert(stack@[st.len() + c]@ == sv.push((sv.len() as usize, c as usize)));
                            assert(lex_below(before[before.len() - 1]@, solutions@[k]@));
                            lemma_children_below(sv, c as usize, solutions@[k]@);
                        }
                    }
                    assert forall|q: Seq<(usize, usize)>| #[trigger] is_solution(n as int, q) implies found_placement(solutions@, q)
                        || on_stack(stack@, q) by {
                        lemma_popped(before, q);
                        if on_stack(st, q) {
                            let s = choose|s: int| 0 <= s < st.len() && #[trigger] prefix_of(st[s]@, q);
                            assert(stack@[s] == st[s]);
                        } else if !found_placement(solutions@, q) && prefix_of(sv, q) {
                            let c = q[row as int].1 as int;
                            assert(q[row as int].0 == row);
                            assert(stack@[st.len() + c]@ == sv.push((row, c as usize)));
                            assert(q.take(row + 1) =~= sv.push((row, c as usize)));
                            assert(prefix_of(stack@[st.len() + c]@, q));
                        }
                    }
                }
            },
            None => {
                proof {
                    assert(stack@.len() == 0);
                }
                break;
            },
        }
    }
    proof {
        assert forall|k1: int, k2: int| 0 <= k1 < k2 < solutions@.len() implies (#[trigger] solutions@[k1])@ != (
        #[trigger] solutions@[k2])@ by {
            assert(apart(solutions@[k1]@, solutions@[k2]@));
            if solutions@[k1]@ == solutions@[k2]@ {
                assert(solutions@[k2]@.take(solutions@[k1]@.len() as int) =~= solutions@[k1]@);
            }
        }
    }
    Some(solutions)
}

/// A placement of `n` queens found by depth-first search, or `None` when
/// there is none or `time_limit` runs out first: the outcome of
/// `n_queens_dfs_first_search` with this limit, its placement if it found
/// one.
pub fn n_queens_dfs_first(n: usize, time_limit: Duration) -> (r: Option<Vec<(usize, usize)>>)
    requires
        n <= isize::MAX,
    ensures
        r matches Some(sol) ==> is_solution(n as int, sol@),
        r matches Some(sol) ==> forall|q: Seq<(usize, usize)>|
            #[trigger] is_solution(n as int, q) && q != sol@ ==> lex_below(q, sol@),
{
    match n_queens_dfs_first_search(n, Some(as_nanos(time_limit))) {
        Search::Found(sol) => Some(sol),
        _ => None,
    }
}

/// The first placement of `n` queens in the order of `n_queens_dfs_search`:
/// `Exhausted` when there is none, `OutOfTime` when the time limit, checked
/// as each partial placement is taken, runs out first.  Without a limit
/// the time never runs out.
pub fn n_queens_dfs_first_search(n: usize, time_limit: Option<u128>) -> (r: Search<Vec<(usize, usize)>>)
    requires
        n <= isize::MAX,
    ensures
        r matches Search::Found(sol) ==> is_solution(n as int, sol@),
        r is Exhausted ==> forall|q: Seq<(usize, usize)>| !#[trigger] is_solution(n as int, q),
        time_limit is None ==> !(r is OutOfTime),
        time_limit == Some(0u128) ==> r is OutOfTime,
        r matches Search::Found(sol) ==> forall|q: Seq<(usize, usize)>|
            #[trigger] is_solution(n as int, q) && q != sol@ ==> lex_below(q, sol@),
{
    let start_time = now();
    let mut stack: Vec<Vec<(usize, usize)>> = Vec::new();
    stack.push(Vec::new());
    proof {
        assert forall|q: Seq<(usize, usize)>| #[trigger] is_solution(n as int, q) implies on_stack(stack@, q) by {
            assert(q.take(0) =~= stack@[0]@);
            assert(prefix_of(stack@[0]@, q));
        }
    }
    loop
        invariant
            n <= isize::MAX,
            forall|s: int| 0 <= s < stack@.len() ==> partial(n as int, #[trigger] stack@[s]@),
            forall|q: Seq<(usize, usize)>| #[trigger] is_solution(n as int, q) ==> on_stack(stack@, q),
            time_limit == Some(0u128) ==> stack@.len() > 0,
            forall|s1: int, s2: int| 0 <= s1 < s2 < stack@.len() ==> lex_below(#[trigger] stack@[s1]@, #[trigger] stack@[s2]@),
        decreases pending(n as int, stack@),
    {
        let ghost before = stack@;
        match stack.pop() {
            Some(solution) => {
                proof {
                    assert(stack@ == before.drop_last());
                    assert(partial(n as int, before[before.len() - 1]@));
                    assert forall|s1: int, s2: int| 0 <= s1 < s2 < stack@.len() implies lex_below(#[trigger] stack@[s1]@, #[trigger] stack@[s2]@) by {
                        assert(stack@[s1] == before[s1] && stack@[s2] == before[s2]);
                    }
                }
                if out_of_time(&start_time, time_limit) {
                    return Search::OutOfTime;
                }
                if conflict(solution.as_slice()) {
                    proof {
                        assert forall|q: Seq<(usize, usize)>| #[trigger] is_solution(n as int, q) implies on_stack(stack@, q) by {
                            lemma_popped(before, q);
                            if prefix_of(solution@, q) {
                                lemma_conflict_prefix(solution@, q);
                            }
                        }
                    }
                    continue;
                }
                let row = solution.len();
                if row == n {
                    proof {
                        let top = before.len() - 1;
                        assert forall|q: Seq<(usize, usize)>| #[trigger] is_solution(n as int, q) && q != solution@ implies lex_below(
                            q,
                            solution@,
                        ) by {
                            assert(on_stack(before, q));
                            let s = choose|s: int| 0 <= s < before.len() && #[trigger] prefix_of(before[s]@, q);
                            if s == top {
                                assert(q =~= solution@);
                            } else {
                                assert(lex_below(before[s]@, before[top]@));
                                assert(solution@.take(solution@.len() as int) =~= solution@);
                                lemma_lex_extend(before[s]@, solution@, q, solution@);
                            }
                        }
                    }
                    return Search::Found(solution);
                }
                let ghost sv = solution@;
                let ghost st = stack@;
                push_children(&mut stack, &solution, n);
                proof {
                    assert forall|s: int| 0 <= s < st.len() implies lex_below(#[trigger] st[s]@, sv) by {
                        assert(st[s] == before[s]);
                        assert(lex_below(before[s]@, before[before.len() - 1]@));
                    }
                    lemma_push_order(st, sv, n as int, stack@);
                    assert forall|q: Seq<(usize, usize)>| #[trigger] is_solution(n as int, q) implies on_stack(stack@, q) by {
                        lemma_popped(before, q);
                        if on_stack(st, q) {
                            let s = choose|s: int| 0 <= s < st.len() && #[trigger] prefix_of(st[s]@, q);
                            assert(stack@[s] == st[s]);
                        } else if prefix_of(sv, q) {
                            let c = q[row as int].1 as int;
                            assert(q[row as int].0 == row);
                            assert(stack@[st.len() + c]@ == sv.push((row, c as usize)));
                            assert(q.take(row + 1) =~= sv.push((row, c as usize)));
                            assert(prefix_of(stack@[st.len() + c]@, q));
                        }
                    }
                }
            },
            None => {
                proof {
                    assert forall|q: Seq<(usize, usize)>| !#[trigger] is_solution(n as int, q) by {
                        if is_solution(n as int, q) {
                            assert(on_stack(stack@, q));
                        }
                    }
                }
                return Search::Exhausted;
            },
        }
    }
}

} // verus!
