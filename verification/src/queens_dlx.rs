//! The n-queens problem as exact cover with primary and secondary items:
//! each square is a set of four items, its row and its column (primary,
//! each to be covered exactly once) and its two diagonals (secondary, at
//! most once).  Items are numbered: row `i` is `i`, column `j` is `n + j`,
//! the up-diagonal `i + j` is `2 n + i + j` and the down-diagonal
//! `n + i - j` is `4 n + (n + i - j)`.
use vstd::prelude::*;
use crate::dlx_table::{view_sets, total_len};
use crate::item_cover::{
    dlx_iter, solutions_apart, listed_apart, item_solution, lists_solution, lists_in_order, solution_listed, rotation, well_named, has_primary,
};
use crate::queens::{attack, in_conflict, is_solution};
use crate::dlxc::{
    Item, dlxc_first_search, colored_listed, colored_solution, lists_options, rotated, compatible, same_key, options_named,
    has_primary_item,
};
use crate::queens::{Search, as_nanos};
use std::time::Duration;

verus! {

/// The items of square (`i`, `j`) of an `n`-board.
pub open spec fn square_items(n: int, i: int, j: int) -> Seq<usize> {
    seq![i as usize, (n + j) as usize, (2 * n + i + j) as usize, (5 * n + i - j) as usize]
}

/// The primary items, the row and the column of each index in turn.
pub open spec fn queens_primary(n: int) -> Seq<usize> {
    Seq::new((2 * n) as nat, |k: int| if k % 2 == 0 { (k / 2) as usize } else { (n + k / 2) as usize })
}

/// The secondary items, the two diagonals of each index below `2 n` in turn.
pub open spec fn queens_secondary(n: int) -> Seq<usize> {
    Seq::new((4 * n) as nat, |k: int| if k % 2 == 0 { (2 * n + k / 2) as usize } else { (4 * n + k / 2) as usize })
}

/// Square (`i`, `j`) is one of `squares`.
pub open spec fn has_square(squares: Seq<(usize, usize)>, i: int, j: int) -> bool {
    exists|k: int| 0 <= k < squares.len() && squares[k] == (i as usize, j as usize)
}

/// Set `k` of `sets` is the set of square `squares[k]`, every square of the
/// board comes once, and each is on the board.
pub open spec fn board_sets(n: int, sets: Seq<Vec<usize>>, squares: Seq<(usize, usize)>) -> bool {
    &&& sets.len() == squares.len()
    &&& forall|k: int| 0 <= k < sets.len() ==> #[trigger] sets[k]@ == square_items(n, squares[k].0 as int, squares[k].1 as int)
    &&& forall|k: int| 0 <= k < squares.len() ==> (#[trigger] squares[k]).0 < n && squares[k].1 < n
    &&& forall|a: int, b: int| 0 <= a < b < squares.len() ==> #[trigger] squares[a] != #[trigger] squares[b]
    &&& forall|i: int, j: int| 0 <= i < n && 0 <= j < n ==> #[trigger] has_square(squares, i, j)
}

/// A queen of `queens` stands on row `i`.
pub open spec fn has_row(queens: Seq<(usize, usize)>, i: int) -> bool {
    exists|k: int| 0 <= k < queens.len() && queens[k].0 == i
}

/// `queens` stands on an `n`-board with a queen on every row, and no two of
/// them attack each other.
pub open spec fn placement(n: int, queens: Seq<(usize, usize)>) -> bool {
    &&& forall|k: int| 0 <= k < queens.len() ==> (#[trigger] queens[k]).0 < n && queens[k].1 < n
    &&& forall|i: int| 0 <= i < n ==> #[trigger] has_row(queens, i)
    &&& !in_conflict(queens)
}

/// Some entry of `found` has the squares of `queens`.
pub open spec fn found_queens(found: Seq<Vec<(usize, usize)>>, queens: Seq<(usize, usize)>) -> bool {
    exists|c: int| 0 <= c < found.len() && (#[trigger] found[c])@.to_set() == queens.to_set()
}

/// One set per square, row after row, with the squares they stand for.
fn board(n: usize) -> (r: (Vec<Vec<usize>>, Vec<(usize, usize)>))
    requires
        5 * n * n + 6 * n + 2 < usize::MAX,
    ensures
        board_sets(n as int, r.0@, r.1@),
        r.0@.len() == n * n,
        total_len(view_sets(r.0@)) == 4 * r.0@.len(),
{
    let mut sets: Vec<Vec<usize>> = Vec::new();
    let mut squares: Vec<(usize, usize)> = Vec::new();
    assert(n * n <= 5 * n * n) by (nonlinear_arith);
    let mut i: usize = 0;
    while i < n
        invariant
            i <= n,
            5 * n * n + 6 * n + 2 < usize::MAX,
            n * n <= 5 * n * n,
            sets@.len() == squares@.len(),
            sets@.len() == i * n,
            total_len(view_sets(sets@)) == 4 * sets@.len(),
            forall|k: int| 0 <= k < sets@.len() ==> #[trigger] sets@[k]@ == square_items(n as int, squares@[k].0 as int, squares@[k].1 as int),
            forall|k: int| 0 <= k < squares@.len() ==> (#[trigger] squares@[k]).0 < i && squares@[k].1 < n,
            forall|a: int, b: int| 0 <= a < b < squares@.len() ==> #[trigger] squares@[a] != #[trigger] squares@[b],
            forall|a: int, b: int| 0 <= a < i && 0 <= b < n ==> #[trigger] has_square(squares@, a, b),
        decreases n - i,
    {
        assert((i + 1) * n <= n * n) by (nonlinear_arith)
            requires
                i < n,
        ;
        assert((i + 1) * n == i * n + n) by (nonlinear_arith);
        let mut j: usize = 0;
        while j < n
            invariant
                i < n,
                j <= n,
                5 * n * n + 6 * n + 2 < usize::MAX,
                n * n <= 5 * n * n,
                (i + 1) * n <= n * n,
                sets@.len() == squares@.len(),
                sets@.len() == i * n + j,
                total_len(view_sets(sets@)) == 4 * sets@.len(),
                forall|k: int| 0 <= k < sets@.len() ==> #[trigger] sets@[k]@ == square_items(n as int, squares@[k].0 as int, squares@[k].1 as int),
                forall|k: int| 0 <= k < squares@.len() ==> ((#[trigger] squares@[k]).0 < i || (squares@[k].0 == i && squares@[k].1 < j)) && squares@[k].1 < n,
                forall|a: int, b: int| 0 <= a < b < squares@.len() ==> #[trigger] squares@[a] != #[trigger] squares@[b],
                forall|a: int, b: int| (0 <= a < i && 0 <= b < n) || (a == i && 0 <= b < j) ==> #[trigger] has_square(squares@, a, b),
            decreases n - j,
        {
            let ghost old_sets = sets@;
            let ghost old_squares = squares@;
            let up = 2 * n + i + j;
            let down = 5 * n + i - j;
            let set = vec![i, n + j, up, down];
            proof {
                assert(set@ =~= square_items(n as int, i as int, j as int));
            }
            sets.push(set);
            squares.push((i, j));
            proof {
                assert(view_sets(sets@).drop_last() =~= view_sets(old_sets));
                assert(view_sets(sets@).last() == square_items(n as int, i as int, j as int));
                assert forall|k: int| 0 <= k < sets@.len() implies #[trigger] sets@[k]@ == square_items(n as int, squares@[k].0 as int, squares@[k].1 as int) by {
                    if k < old_sets.len() {
                        assert(sets@[k] == old_sets[k] && squares@[k] == old_squares[k]);
                    }
                }
                assert forall|a: int, b: int| 0 <= a < b < squares@.len() implies #[trigger] squares@[a] != #[trigger] squares@[b] by {
                    if b == old_squares.len() {
                        assert(squares@[a] == old_squares[a]);
                    } else {
                        assert(squares@[a] == old_squares[a] && squares@[b] == old_squares[b]);
                    }
                }
                assert forall|a: int, b: int| (0 <= a < i && 0 <= b < n) || (a == i && 0 <= b < j + 1) implies #[trigger] has_square(squares@, a, b) by {
                    if a == i && b == j {
                        assert(squares@[old_squares.len() as int] == (a as usize, b as usize));
                    } else {
                        assert(has_square(old_squares, a, b));
                        let k = choose|k: int| 0 <= k < old_squares.len() && old_squares[k] == (a as usize, b as usize);
                        assert(squares@[k] == old_squares[k]);
                    }
                }
            }
            j += 1;
        }
        i += 1;
    }
    assert(n * n == i * n);
    (sets, squares)
}

/// The primary items and the secondary items, in the order of
/// `queens_primary` and `queens_secondary`.
fn queens_items(n: usize) -> (r: (Vec<usize>, Vec<usize>))
    requires
        6 * n < usize::MAX,
    ensures
        r.0@ == queens_primary(n as int),
        r.1@ == queens_secondary(n as int),
{
    let mut primary: Vec<usize> = Vec::new();
    let mut i: usize = 0;
    while i < n
        invariant
            i <= n,
            6 * n < usize::MAX,
            primary@.len() == 2 * i,
            forall|m: int| 0 <= m < 2 * i ==> #[trigger] primary@[m] == queens_primary(n as int)[m],
        decreases n - i,
    {
        primary.push(i);
        primary.push(n + i);
        i += 1;
    }
    proof {
        assert(primary@ =~= queens_primary(n as int));
    }
    let mut secondary: Vec<usize> = Vec::new();
    let mut k: usize = 0;
    while k < 2 * n
        invariant
            k <= 2 * n,
            6 * n < usize::MAX,
            secondary@.len() == 2 * k,
            forall|m: int| 0 <= m < 2 * k ==> #[trigger] secondary@[m] == queens_secondary(n as int)[m],
        decreases 2 * n - k,
    {
        secondary.push(2 * n + k);
        secondary.push(4 * n + k);
        k += 1;
    }
    proof {
        assert(secondary@ =~= queens_secondary(n as int));
    }
    (primary, secondary)
}

/// The items of every square are among the primary and secondary items,
/// each once.
proof fn lemma_board_named(n: int, sets: Seq<Vec<usize>>, squares: Seq<(usize, usize)>)
    requires
        board_sets(n, sets, squares),
        0 <= n,
        6 * n < usize::MAX,
    ensures
        well_named(sets, queens_primary(n) + queens_secondary(n)),
{
    let names = queens_primary(n) + queens_secondary(n);
    assert forall|k: int, q: int| 0 <= k < sets.len() && 0 <= q < sets[k]@.len() implies names.contains(#[trigger] sets[k]@[q]) by {
        let i = squares[k].0 as int;
        let j = squares[k].1 as int;
        assert(sets[k]@ == square_items(n, i, j));
        if q == 0 {
            assert(names[2 * i] == i);
        } else if q == 1 {
            assert(names[2 * j + 1] == n + j);
        } else if q == 2 {
            assert(names[2 * n + 2 * (i + j)] == 2 * n + i + j);
        } else {
            assert(names[2 * n + 2 * (n + i - j) + 1] == 5 * n + i - j);
        }
    }
    assert forall|k: int| 0 <= k < sets.len() implies (#[trigger] sets[k])@.no_duplicates() by {
        let i = squares[k].0 as int;
        let j = squares[k].1 as int;
        assert(sets[k]@ == square_items(n, i, j));
    }
}

/// No primary item comes twice.
proof fn lemma_primary_distinct(n: int)
    requires
        0 <= n,
        6 * n < usize::MAX,
    ensures
        queens_primary(n).no_duplicates(),
{
    let p = queens_primary(n);
    assert forall|a: int, b: int| 0 <= a < p.len() && 0 <= b < p.len() && a != b implies p[a] != p[b] by {
        if a % 2 == 0 && b % 2 == 0 {
            assert(a / 2 != b / 2);
        } else if a % 2 == 1 && b % 2 == 1 {
            assert(a / 2 != b / 2);
        }
    }
}

/// A set read from one of its places holds the items of the set.
proof fn lemma_rotation_contains(set: Seq<usize>, q: int, x: usize)
    requires
        0 <= q < set.len(),
    ensures
        rotation(set, q).contains(x) <==> set.contains(x),
        rotation(set, q).len() == set.len(),
{
    let r = rotation(set, q);
    let m = set.len() - q;
    if r.contains(x) {
        let k = choose|k: int| 0 <= k < r.len() && r[k] == x;
        if k < m {
            assert(set[q + k] == x);
        } else {
            assert(set[k - m] == x);
        }
    }
    if set.contains(x) {
        let k = choose|k: int| 0 <= k < set.len() && set[k] == x;
        if k >= q {
            assert(r[k - q] == x);
        } else {
            assert(r[m + k] == x);
        }
    }
}

/// The square a set of items stands for: its item below `n` gives the row,
/// its item in `n..2 n` the column.
fn square_of(n: usize, v: &Vec<usize>) -> (r: (usize, usize))
    requires
        2 * n < usize::MAX,
        forall|a: int, b: int| 0 <= a < v@.len() && 0 <= b < v@.len() && v@[a] < n && v@[b] < n ==> v@[a] == v@[b],
        forall|a: int, b: int|
            0 <= a < v@.len() && 0 <= b < v@.len() && n <= v@[a] < 2 * n && n <= v@[b] < 2 * n ==> v@[a] == v@[b],
    ensures
        forall|k: int| 0 <= k < v@.len() && v@[k] < n ==> r.0 == v@[k],
        forall|k: int| 0 <= k < v@.len() && n <= v@[k] < 2 * n ==> r.1 == v@[k] - n,
{
    let mut row: usize = 0;
    let mut column: usize = 0;
    let mut p: usize = 0;
    while p < v.len()
        invariant
            p <= v@.len(),
            2 * n < usize::MAX,
            forall|a: int, b: int| 0 <= a < v@.len() && 0 <= b < v@.len() && v@[a] < n && v@[b] < n ==> v@[a] == v@[b],
            forall|a: int, b: int|
                0 <= a < v@.len() && 0 <= b < v@.len() && n <= v@[a] < 2 * n && n <= v@[b] < 2 * n ==> v@[a] == v@[b],
            forall|k: int| 0 <= k < p && v@[k] < n ==> row == v@[k],
            forall|k: int| 0 <= k < p && n <= v@[k] < 2 * n ==> column == v@[k] - n,
        decreases v@.len() - p,
    {
        let x = v[p];
        if x < n {
            row = x;
        } else if x < 2 * n {
            column = x - n;
        }
        p += 1;
    }
    (row, column)
}

/// The set of a square, read from any place, gives that square back.
proof fn lemma_square_of(n: int, i: int, j: int, q: int, v: Seq<usize>)
    requires
        0 <= i < n,
        0 <= j < n,
        0 <= q < 4,
        6 * n < usize::MAX,
        v == rotation(square_items(n, i, j), q),
    ensures
        forall|a: int, b: int| 0 <= a < v.len() && 0 <= b < v.len() && v[a] < n && v[b] < n ==> v[a] == v[b],
        forall|a: int, b: int| 0 <= a < v.len() && 0 <= b < v.len() && n <= v[a] < 2 * n && n <= v[b] < 2 * n ==> v[a] == v[b],
        exists|k: int| 0 <= k < v.len() && v[k] == i,
        exists|k: int| 0 <= k < v.len() && v[k] == n + j,
{
    let set = square_items(n, i, j);
    assert forall|a: int| 0 <= a < v.len() implies set.contains(#[trigger] v[a]) by {
        lemma_rotation_contains(set, q, v[a]);
        assert(v.contains(v[a]));
    }
    assert forall|a: int, b: int| 0 <= a < v.len() && 0 <= b < v.len() && v[a] < n && v[b] < n implies v[a] == v[b] by {
        assert(set.contains(v[a]) && set.contains(v[b]));
    }
    assert forall|a: int, b: int| 0 <= a < v.len() && 0 <= b < v.len() && n <= v[a] < 2 * n && n <= v[b] < 2 * n implies v[a] == v[b] by {
        assert(set.contains(v[a]) && set.contains(v[b]));
    }
    lemma_rotation_contains(set, q, i as usize);
    lemma_rotation_contains(set, q, (n + j) as usize);
    assert(set[0] == i && set[1] == n + j);
    assert(set.contains(i as usize) && set.contains((n + j) as usize));
}

/// Set `v` has one item below `n` and one in `n..2 n`.
pub open spec fn unique_codes(n: int, v: Seq<usize>) -> bool {
    &&& forall|a: int, b: int| 0 <= a < v.len() && 0 <= b < v.len() && v[a] < n && v[b] < n ==> v[a] == v[b]
    &&& forall|a: int, b: int| 0 <= a < v.len() && 0 <= b < v.len() && n <= v[a] < 2 * n && n <= v[b] < 2 * n ==> v[a] == v[b]
}

/// `r` is the square `v` stands for, by its row and column items.
pub open spec fn reads_square(n: int, v: Seq<usize>, r: (usize, usize)) -> bool {
    &&& forall|k: int| 0 <= k < v.len() && v[k] < n ==> r.0 == v[k]
    &&& forall|k: int| 0 <= k < v.len() && n <= v[k] < 2 * n ==> r.1 == v[k] - n
}

/// Entry `k` of a listed solution stands for the square of its set.
proof fn lemma_entry(n: int, sets: Seq<Vec<usize>>, squares: Seq<(usize, usize)>, sol: Seq<Vec<usize>>, order: Seq<int>, k: int)
    requires
        board_sets(n, sets, squares),
        6 * n < usize::MAX,
        lists_in_order(sets, sol, order),
        0 <= k < sol.len(),
    ensures
        0 <= order[k] < squares.len(),
        unique_codes(n, sol[k]@),
        forall|r: (usize, usize)| reads_square(n, sol[k]@, r) ==> r == squares[order[k]],
{
    let j = order[k];
    let q = choose|q: int| 0 <= q < sets[j]@.len() && sol[k]@ == rotation(sets[j]@, q);
    let sq = squares[j];
    assert(sets[j]@ == square_items(n, sq.0 as int, sq.1 as int));
    lemma_square_of(n, sq.0 as int, sq.1 as int, q, sol[k]@);
    assert forall|r: (usize, usize)| reads_square(n, sol[k]@, r) implies r == sq by {
        let a = choose|a: int| 0 <= a < sol[k]@.len() && sol[k]@[a] == sq.0;
        let b = choose|b: int| 0 <= b < sol[k]@.len() && sol[k]@[b] == n + sq.1;
    }
}

/// Sets of two squares that attack each other share an item.
proof fn lemma_attack_shares(n: int, a: (usize, usize), b: (usize, usize)) -> (x: usize)
    requires
        a.0 < n && a.1 < n && b.0 < n && b.1 < n,
        6 * n < usize::MAX,
        attack(a, b),
    ensures
        square_items(n, a.0 as int, a.1 as int).contains(x),
        square_items(n, b.0 as int, b.1 as int).contains(x),
{
    let sa = square_items(n, a.0 as int, a.1 as int);
    let sb = square_items(n, b.0 as int, b.1 as int);
    if a.0 == b.0 {
        assert(sa[0] == sb[0]);
        sa[0]
    } else if a.1 == b.1 {
        assert(sa[1] == sb[1]);
        sa[1]
    } else if a.0 - b.0 == a.1 - b.1 {
        assert(sa[3] == sb[3]);
        sa[3]
    } else {
        assert(sa[2] == sb[2]);
        sa[2]
    }
}

/// The squares of two sets that share an item attack each other.
proof fn lemma_shares_attack(n: int, a: (usize, usize), b: (usize, usize), x: usize)
    requires
        a.0 < n && a.1 < n && b.0 < n && b.1 < n,
        6 * n < usize::MAX,
        square_items(n, a.0 as int, a.1 as int).contains(x),
        square_items(n, b.0 as int, b.1 as int).contains(x),
    ensures
        attack(a, b),
{
    let sa = square_items(n, a.0 as int, a.1 as int);
    let sb = square_items(n, b.0 as int, b.1 as int);
    let p = choose|p: int| 0 <= p < 4 && sa[p] == x;
    let q = choose|q: int| 0 <= q < 4 && sb[q] == x;
}

/// What the entries of a listed solution stand for: the squares of their
/// sets.
pub open spec fn listed_squares(n: int, sets: Seq<Vec<usize>>, squares: Seq<(usize, usize)>, sol: Seq<Vec<usize>>, order: Seq<int>, out: Seq<(usize, usize)>) -> bool {
    &&& board_sets(n, sets, squares)
    &&& 0 <= n
    &&& 6 * n < usize::MAX
    &&& lists_in_order(sets, sol, order)
    &&& out.len() == sol.len()
    &&& forall|k: int| 0 <= k < sol.len() ==> 0 <= #[trigger] order[k] < squares.len() && out[k] == squares[order[k]]
}

/// The entries of a listed solution stand for the squares of their sets.
proof fn lemma_listed_squares(n: int, sets: Seq<Vec<usize>>, squares: Seq<(usize, usize)>, sol: Seq<Vec<usize>>, order: Seq<int>, out: Seq<(usize, usize)>)
    requires
        board_sets(n, sets, squares),
        0 <= n,
        6 * n < usize::MAX,
        lists_in_order(sets, sol, order),
        out.len() == sol.len(),
        forall|k: int| 0 <= k < sol.len() ==> #[trigger] reads_square(n, sol[k]@, out[k]),
    ensures
        listed_squares(n, sets, squares, sol, order, out),
{
    assert forall|k: int| 0 <= k < sol.len() implies 0 <= #[trigger] order[k] < squares.len() && out[k] == squares[order[k]] by {
        lemma_entry(n, sets, squares, sol, order, k);
        assert(reads_square(n, sol[k]@, out[k]));
    }
}

/// Every row has a queen of a listed solution.
proof fn lemma_sound_rows(n: int, sets: Seq<Vec<usize>>, squares: Seq<(usize, usize)>, sol: Seq<Vec<usize>>, order: Seq<int>, out: Seq<(usize, usize)>, js: Set<int>, i: int)
    requires
        listed_squares(n, sets, squares, sol, order, out),
        item_solution(sets, queens_primary(n), js),
        order.to_set() == js,
        0 <= i < n,
    ensures
        has_row(out, i),
{
    let x = i as usize;
    lemma_primary_items(n, i);
    let j = choose|j: int| js.contains(j) && #[trigger] sets[j]@.contains(x);
    assert(order.to_set().contains(j));
    let k = choose|k: int| 0 <= k < order.len() && order[k] == j;
    let sq = squares[j];
    assert(sets[j]@ == square_items(n, sq.0 as int, sq.1 as int));
    lemma_item_places(n, sq, x);
    assert(out[k] == sq);
}

/// Row `i` and column `i` are primary items.
proof fn lemma_primary_items(n: int, i: int)
    requires
        0 <= i < n,
        6 * n < usize::MAX,
    ensures
        queens_primary(n).contains(i as usize),
        queens_primary(n).contains((n + i) as usize),
{
    let p = queens_primary(n);
    assert(p[2 * i] == i);
    assert(p[2 * i + 1] == n + i);
}

/// Which item of a square's set an item is, by its range.
proof fn lemma_item_places(n: int, sq: (usize, usize), x: usize)
    requires
        sq.0 < n && sq.1 < n,
        6 * n < usize::MAX,
        square_items(n, sq.0 as int, sq.1 as int).contains(x),
    ensures
        x < n ==> x == sq.0,
        n <= x < 2 * n ==> x == n + sq.1,
        x < 6 * n,
{
    let set = square_items(n, sq.0 as int, sq.1 as int);
    let p = choose|p: int| 0 <= p < 4 && set[p] == x;
}

/// No two queens of a listed solution attack each other.
proof fn lemma_sound_conflict(n: int, sets: Seq<Vec<usize>>, squares: Seq<(usize, usize)>, sol: Seq<Vec<usize>>, order: Seq<int>, out: Seq<(usize, usize)>, js: Set<int>)
    requires
        listed_squares(n, sets, squares, sol, order, out),
        item_solution(sets, queens_primary(n), js),
        order.to_set() == js,
    ensures
        !in_conflict(out),
{
    if in_conflict(out) {
        let (k1, k2) = choose|k1: int, k2: int| 0 <= k2 < k1 < out.len() && attack(#[trigger] out[k1], #[trigger] out[k2]);
        let j1 = order[k1];
        let j2 = order[k2];
        assert(out[k1] == squares[j1] && out[k2] == squares[j2]);
        let x = lemma_attack_shares(n, squares[j1], squares[j2]);
        assert(sets[j1]@ == square_items(n, squares[j1].0 as int, squares[j1].1 as int));
        assert(sets[j2]@ == square_items(n, squares[j2].0 as int, squares[j2].1 as int));
        assert(order.to_set().contains(j1) && order.to_set().contains(j2));
        assert(sets[j1]@.contains(x) && sets[j2]@.contains(x));
        assert(j1 == j2);
        assert(order.no_duplicates());
    }
}

/// Every listed solution, read square by square, is a placement.
proof fn lemma_queens_sound(n: int, sets: Seq<Vec<usize>>, squares: Seq<(usize, usize)>, sol: Seq<Vec<usize>>, out: Seq<(usize, usize)>)
    requires
        board_sets(n, sets, squares),
        0 <= n,
        6 * n < usize::MAX,
        solution_listed(sets, queens_primary(n), sol),
        out.len() == sol.len(),
        forall|k: int| 0 <= k < sol.len() ==> #[trigger] reads_square(n, sol[k]@, out[k]),
    ensures
        placement(n, out),
{
    let primary = queens_primary(n);
    let js = choose|js: Set<int>| #[trigger] item_solution(sets, primary, js) && lists_solution(sets, sol, js);
    let order = choose|order: Seq<int>| #[trigger] lists_in_order(sets, sol, order) && order.to_set() == js;
    lemma_listed_squares(n, sets, squares, sol, order, out);
    assert forall|k: int| 0 <= k < out.len() implies (#[trigger] out[k]).0 < n && out[k].1 < n by {
        assert(out[k] == squares[order[k]]);
    }
    assert forall|i: int| 0 <= i < n implies #[trigger] has_row(out, i) by {
        lemma_sound_rows(n, sets, squares, sol, order, out, js, i);
    }
    lemma_sound_conflict(n, sets, squares, sol, order, out, js);
}

/// The places of the sets of the squares of `queens`.
pub open spec fn placement_sets(squares: Seq<(usize, usize)>, queens: Seq<(usize, usize)>) -> Set<int> {
    Set::new(|j: int| 0 <= j < squares.len() && queens.contains(squares[j]))
}

/// Two queens of a solution that attack each other are the same queen.
proof fn lemma_no_attack(n: int, queens: Seq<(usize, usize)>, a: int, b: int)
    requires
        is_solution(n, queens),
        0 <= a < n,
        0 <= b < n,
        attack(queens[a], queens[b]),
    ensures
        a == b,
{
    if a < b {
        let dr = queens[b].0 - queens[a].0;
        let dc = queens[b].1 - queens[a].1;
        assert(attack(queens[b], queens[a]));
        assert(in_conflict(queens));
    } else if b < a {
        assert(in_conflict(queens));
    }
}

/// A solution has a queen on every column.
proof fn lemma_columns_full(n: int, queens: Seq<(usize, usize)>, c: int)
    requires
        is_solution(n, queens),
        0 <= c < n,
    ensures
        exists|r: int| 0 <= r < n && queens[r].1 == c,
{
    let rows = vstd::set_lib::set_int_range(0, n);
    let f = |r: int| queens[r].1 as int;
    vstd::set_lib::lemma_int_range(0, n);
    assert(vstd::relations::injective_on(f, rows)) by {
        assert forall|a: int, b: int| rows.contains(a) && rows.contains(b) && #[trigger] f(a) == #[trigger] f(b) implies a == b by {
            assert(attack(queens[a], queens[b]));
            lemma_no_attack(n, queens, a, b);
        }
    }
    let cols = rows.map(f);
    vstd::set_lib::lemma_map_size(rows, cols, f);
    assert(cols.subset_of(rows));
    vstd::set_lib::lemma_subset_equality(cols, rows);
    assert(cols.contains(c));
}

/// The sets of the squares of a solution are a solution over the items.
#[verifier::spinoff_prover]
#[verifier::rlimit(30)]
proof fn lemma_queens_complete(n: int, sets: Seq<Vec<usize>>, squares: Seq<(usize, usize)>, queens: Seq<(usize, usize)>)
    requires
        board_sets(n, sets, squares),
        0 <= n,
        6 * n < usize::MAX,
        is_solution(n, queens),
    ensures
        item_solution(sets, queens_primary(n), placement_sets(squares, queens)),
{
    let primary = queens_primary(n);
    let js = placement_sets(squares, queens);
    assert(js.finite()) by {
        vstd::set_lib::lemma_int_range(0, squares.len() as int);
        assert(js.subset_of(vstd::set_lib::set_int_range(0, squares.len() as int)));
        vstd::set_lib::lemma_len_subset(js, vstd::set_lib::set_int_range(0, squares.len() as int));
    }
    assert forall|j: int| #[trigger] js.contains(j) implies 0 <= j < sets.len() && has_primary(sets[j]@, primary) by {
        let sq = squares[j];
        assert(sets[j]@ == square_items(n, sq.0 as int, sq.1 as int));
        lemma_primary_items(n, sq.0 as int);
        assert(sets[j]@[0] == sq.0);
    }
    assert forall|x: usize| #[trigger] primary.contains(x) implies exists|j: int| js.contains(j) && #[trigger] sets[j]@.contains(x) by {
        let j = lemma_primary_covered(n, sets, squares, queens, x);
    }
    assert forall|j1: int, j2: int, x: usize|
        js.contains(j1) && js.contains(j2) && #[trigger] sets[j1]@.contains(x) && #[trigger] sets[j2]@.contains(x) implies j1 == j2 by {
        let a = choose|a: int| 0 <= a < queens.len() && queens[a] == squares[j1];
        let b = choose|b: int| 0 <= b < queens.len() && queens[b] == squares[j2];
        assert(sets[j1]@ == square_items(n, squares[j1].0 as int, squares[j1].1 as int));
        assert(sets[j2]@ == square_items(n, squares[j2].0 as int, squares[j2].1 as int));
        lemma_shares_attack(n, squares[j1], squares[j2], x);
        lemma_no_attack(n, queens, a, b);
        if j1 < j2 {
            assert(squares[j1] != squares[j2]);
        } else if j2 < j1 {
            assert(squares[j2] != squares[j1]);
        }
    }
}

/// A listing of the sets of a solution's squares, read square by square,
/// has the squares of the solution.
proof fn lemma_queens_found(n: int, sets: Seq<Vec<usize>>, squares: Seq<(usize, usize)>, sol: Seq<Vec<usize>>, out: Seq<(usize, usize)>, queens: Seq<(usize, usize)>)
    requires
        board_sets(n, sets, squares),
        0 <= n,
        6 * n < usize::MAX,
        is_solution(n, queens),
        lists_solution(sets, sol, placement_sets(squares, queens)),
        out.len() == sol.len(),
        forall|k: int| 0 <= k < sol.len() ==> #[trigger] reads_square(n, sol[k]@, out[k]),
    ensures
        out.to_set() == queens.to_set(),
{
    let js = placement_sets(squares, queens);
    let order = choose|order: Seq<int>| #[trigger] lists_in_order(sets, sol, order) && order.to_set() == js;
    lemma_listed_squares(n, sets, squares, sol, order, out);
    assert forall|q: (usize, usize)| out.to_set().contains(q) implies queens.to_set().contains(q) by {
        let k = choose|k: int| 0 <= k < out.len() && out[k] == q;
        assert(order.to_set().contains(order[k]));
    }
    assert forall|q: (usize, usize)| queens.to_set().contains(q) implies out.to_set().contains(q) by {
        let r = choose|r: int| 0 <= r < queens.len() && queens[r] == q;
        assert(has_square(squares, q.0 as int, q.1 as int));
        let j = choose|j: int| 0 <= j < squares.len() && squares[j] == (q.0, q.1);
        assert(js.contains(j));
        let k = choose|k: int| 0 <= k < order.len() && order[k] == j;
        assert(out[k] == q);
    }
    assert(out.to_set() =~= queens.to_set());
}

/// The sets a listed solution reads are those of the squares it gives.
proof fn lemma_out_places(n: int, sets: Seq<Vec<usize>>, squares: Seq<(usize, usize)>, sol: Seq<Vec<usize>>, out: Seq<(usize, usize)>, js: Set<int>)
    requires
        board_sets(n, sets, squares),
        0 <= n,
        6 * n < usize::MAX,
        lists_solution(sets, sol, js),
        out.len() == sol.len(),
        forall|k: int| 0 <= k < sol.len() ==> #[trigger] reads_square(n, sol[k]@, out[k]),
    ensures
        js == placement_sets(squares, out),
{
    let order = choose|order: Seq<int>| #[trigger] lists_in_order(sets, sol, order) && order.to_set() == js;
    lemma_listed_squares(n, sets, squares, sol, order, out);
    assert forall|j: int| js.contains(j) <==> placement_sets(squares, out).contains(j) by {
        if js.contains(j) {
            let k = choose|k: int| 0 <= k < order.len() && order[k] == j;
            assert(out[k] == squares[j]);
        }
        if placement_sets(squares, out).contains(j) {
            let k = choose|k: int| 0 <= k < out.len() && out[k] == squares[j];
            assert(out[k] == squares[order[k]]);
            if order[k] < j {
                assert(squares[order[k]] != squares[j]);
            } else if j < order[k] {
                assert(squares[j] != squares[order[k]]);
            }
            assert(order.to_set().contains(order[k]));
        }
    }
    assert(js =~= placement_sets(squares, out));
}

/// Each primary item is in the set of a square of a solution.
proof fn lemma_primary_covered(n: int, sets: Seq<Vec<usize>>, squares: Seq<(usize, usize)>, queens: Seq<(usize, usize)>, x: usize) -> (j: int)
    requires
        board_sets(n, sets, squares),
        0 <= n,
        6 * n < usize::MAX,
        is_solution(n, queens),
        queens_primary(n).contains(x),
    ensures
        placement_sets(squares, queens).contains(j),
        sets[j]@.contains(x),
{
    let primary = queens_primary(n);
    let m = choose|m: int| 0 <= m < primary.len() && primary[m] == x;
    let r = if m % 2 == 0 {
        m / 2
    } else {
        lemma_columns_full(n, queens, m / 2);
        choose|r: int| 0 <= r < n && queens[r].1 == m / 2
    };
    let q = queens[r];
    assert(has_square(squares, q.0 as int, q.1 as int));
    let j = choose|j: int| 0 <= j < squares.len() && squares[j] == (q.0, q.1);
    assert(queens.contains(squares[j]));
    assert(sets[j]@ == square_items(n, q.0 as int, q.1 as int));
    if m % 2 == 0 {
        assert(sets[j]@[0] == x);
    } else {
        assert(sets[j]@[1] == x);
    }
    j
}

/// `out` holds the squares the sets of `sol` stand for, one per set.
pub open spec fn reads_solution(n: int, sol: Seq<Vec<usize>>, out: Seq<(usize, usize)>) -> bool {
    &&& out.len() == sol.len()
    &&& forall|k: int| 0 <= k < sol.len() ==> #[trigger] reads_square(n, sol[k]@, out[k])
}

/// The squares the sets of a solution stand for, one per set.
fn solution_squares(n: usize, sol: &Vec<Vec<usize>>) -> (out: Vec<(usize, usize)>)
    requires
        2 * n < usize::MAX,
        forall|k: int| 0 <= k < sol@.len() ==> #[trigger] unique_codes(n as int, sol@[k]@),
    ensures
        out@.len() == sol@.len(),
        forall|k: int| 0 <= k < sol@.len() ==> #[trigger] reads_square(n as int, sol@[k]@, out@[k]),
{
    let mut out: Vec<(usize, usize)> = Vec::new();
    let mut k: usize = 0;
    while k < sol.len()
        invariant
            k <= sol@.len(),
            out@.len() == k,
            2 * n < usize::MAX,
            forall|k: int| 0 <= k < sol@.len() ==> #[trigger] unique_codes(n as int, sol@[k]@),
            forall|j: int| 0 <= j < k ==> #[trigger] reads_square(n as int, sol@[j]@, out@[j]),
        decreases sol@.len() - k,
    {
        proof {
            assert(unique_codes(n as int, sol@[k as int]@));
        }
        let square = square_of(n, &sol[k]);
        out.push(square);
        k += 1;
    }
    out
}

/// Every way to place `n` queens on an `n`-board, none attacking another,
/// found as the exact covers of the board's squares: each solution gives
/// the squares of its queens, in the order the search chose them.
pub fn n_queens_dlx_iter(n: usize) -> (r: Vec<Vec<(usize, usize)>>)
    requires
        5 * n * n + 6 * n + 2 < usize::MAX,
    ensures
        forall|c: int| 0 <= c < r@.len() ==> placement(n as int, #[trigger] r@[c]@),
        n > 0 ==> forall|queens: Seq<(usize, usize)>| #[trigger] is_solution(n as int, queens) ==> found_queens(r@, queens),
        forall|c1: int, c2: int| 0 <= c1 < c2 < r@.len() ==> (#[trigger] r@[c1])@.to_set() != (#[trigger] r@[c2])@.to_set(),
{
    assert(6 * n <= 5 * n * n + 6 * n) by (nonlinear_arith);
    assert(5 * n * n == 5 * (n * n)) by (nonlinear_arith);
    let (sets, squares) = board(n);
    let (primary, secondary) = queens_items(n);
    let ghost sv = sets@;
    proof {
        lemma_board_named(n as int, sets@, squares@);
        lemma_primary_distinct(n as int);
        assert(sets@.len() == n * n);
    }
    let sols = dlx_iter(sets, primary, secondary);
    let mut r: Vec<Vec<(usize, usize)>> = Vec::new();
    let mut c: usize = 0;
    while c < sols.len()
        invariant
            c <= sols@.len(),
            r@.len() == c,
            6 * n < usize::MAX,
            board_sets(n as int, sv, squares@),
            forall|c: int| 0 <= c < sols@.len() ==> solution_listed(sv, queens_primary(n as int), #[trigger] sols@[c]@),
            solutions_apart(sv, queens_primary(n as int), sols@),
            forall|j: int| 0 <= j < c ==> placement(n as int, #[trigger] r@[j]@),
            forall|j: int| 0 <= j < c ==> #[trigger] reads_solution(n as int, sols@[j]@, r@[j]@),
        decreases sols@.len() - c,
    {
        let ghost sol = sols@[c as int]@;
        proof {
            assert(solution_listed(sv, queens_primary(n as int), sol));
            let js = choose|js: Set<int>| #[trigger] item_solution(sv, queens_primary(n as int), js) && lists_solution(sv, sol, js);
            let order = choose|order: Seq<int>| #[trigger] lists_in_order(sv, sol, order) && order.to_set() == js;
            assert forall|k: int| 0 <= k < sol.len() implies #[trigger] unique_codes(n as int, sol[k]@) by {
                lemma_entry(n as int, sv, squares@, sol, order, k);
            }
        }
        let out = solution_squares(n, &sols[c]);
        proof {
            lemma_queens_sound(n as int, sv, squares@, sol, out@);
        }
        r.push(out);
        c += 1;
    }
    proof {
        assert forall|queens: Seq<(usize, usize)>| n > 0 && #[trigger] is_solution(n as int, queens) implies found_queens(r@, queens) by {
            let js = placement_sets(squares@, queens);
            lemma_queens_complete(n as int, sv, squares@, queens);
            assert(queens_primary(n as int).len() > 0);
            let c = choose|c: int| 0 <= c < sols@.len() && lists_solution(sv, #[trigger] sols@[c]@, js);
            assert(reads_solution(n as int, sols@[c]@, r@[c]@));
            lemma_queens_found(n as int, sv, squares@, sols@[c]@, r@[c]@, queens);
        }
        let sel = choose|sel: Seq<Set<int>>| #[trigger] listed_apart(sv, queens_primary(n as int), sols@, sel);
        assert forall|c1: int, c2: int| 0 <= c1 < c2 < r@.len() implies (#[trigger] r@[c1])@.to_set() != (#[trigger] r@[c2])@.to_set() by {
            assert(item_solution(sv, queens_primary(n as int), sel[c1]));
            assert(item_solution(sv, queens_primary(n as int), sel[c2]));
            assert(reads_solution(n as int, sols@[c1]@, r@[c1]@));
            assert(reads_solution(n as int, sols@[c2]@, r@[c2]@));
            lemma_out_places(n as int, sv, squares@, sols@[c1]@, r@[c1]@, sel[c1]);
            lemma_out_places(n as int, sv, squares@, sols@[c2]@, r@[c2]@, sel[c2]);
            assert(sel[c1] != sel[c2]);
            if r@[c1]@.to_set() == r@[c2]@.to_set() {
                assert(placement_sets(squares@, r@[c1]@) =~= placement_sets(squares@, r@[c2]@)) by {
                    assert forall|j: int| #[trigger] placement_sets(squares@, r@[c1]@).contains(j) <==> placement_sets(squares@, r@[c2]@).contains(j) by {
                        assert(r@[c1]@.contains(squares@[j]) <==> r@[c1]@.to_set().contains(squares@[j]));
                        assert(r@[c2]@.contains(squares@[j]) <==> r@[c2]@.to_set().contains(squares@[j]));
                    }
                }
            }
        }
    }
    r
}

/// The option of square (`i`, `j`) with colours: its row and column as
/// primary items, its diagonals as secondary items.
pub open spec fn square_option(n: int, i: int, j: int) -> Seq<Item<usize, usize, usize>> {
    seq![
        Item::Primary(i as usize),
        Item::Primary((n + j) as usize),
        Item::Secondary((2 * n + i + j) as usize),
        Item::Secondary((5 * n + i - j) as usize),
    ]
}

/// Option `k` of `options` is the option of square `squares[k]`, every
/// square of the board comes once, and each is on the board.
pub open spec fn option_board(n: int, options: Seq<Vec<Item<usize, usize, usize>>>, squares: Seq<(usize, usize)>) -> bool {
    &&& options.len() == squares.len()
    &&& forall|k: int| 0 <= k < options.len() ==> #[trigger] options[k]@ == square_option(n, squares[k].0 as int, squares[k].1 as int)
    &&& forall|k: int| 0 <= k < squares.len() ==> (#[trigger] squares[k]).0 < n && squares[k].1 < n
    &&& forall|a: int, b: int| 0 <= a < b < squares.len() ==> #[trigger] squares[a] != #[trigger] squares[b]
    &&& forall|i: int, j: int| 0 <= i < n && 0 <= j < n ==> #[trigger] has_square(squares, i, j)
}

/// One option per square, row after row, with the squares they stand for.
fn option_board_of(n: usize) -> (r: (Vec<Vec<Item<usize, usize, usize>>>, Vec<(usize, usize)>))
    requires
        5 * n * n + 6 * n + 2 < usize::MAX,
    ensures
        option_board(n as int, r.0@, r.1@),
{
    let (sets, squares) = board(n);
    let mut options: Vec<Vec<Item<usize, usize, usize>>> = Vec::new();
    let mut k: usize = 0;
    while k < sets.len()
        invariant
            k <= sets@.len(),
            options@.len() == k,
            board_sets(n as int, sets@, squares@),
            forall|m: int| 0 <= m < k ==> #[trigger] options@[m]@ == square_option(n as int, squares@[m].0 as int, squares@[m].1 as int),
        decreases sets@.len() - k,
    {
        let set = &sets[k];
        proof {
            assert(set@ == square_items(n as int, squares@[k as int].0 as int, squares@[k as int].1 as int));
        }
        let option = vec![Item::Primary(set[0]), Item::Primary(set[1]), Item::Secondary(set[2]), Item::Secondary(set[3])];
        proof {
            assert(option@ =~= square_option(n as int, squares@[k as int].0 as int, squares@[k as int].1 as int));
        }
        options.push(option);
        k += 1;
    }
    (options, squares)
}

/// The options name only the primary and secondary items, each once.
proof fn lemma_options_named(n: int, options: Seq<Vec<Item<usize, usize, usize>>>, squares: Seq<(usize, usize)>)
    requires
        option_board(n, options, squares),
        0 <= n,
        6 * n < usize::MAX,
    ensures
        options_named(options, queens_primary(n), queens_secondary(n), Seq::empty()),
{
    let pr = queens_primary(n);
    let se = queens_secondary(n);
    assert forall|j: int, q: int| 0 <= j < options.len() && 0 <= q < options[j]@.len() && (#[trigger] options[j]@[q]) is Primary implies pr.contains(
        options[j]@[q]->Primary_0,
    ) by {
        let sq = squares[j];
        assert(options[j]@ == square_option(n, sq.0 as int, sq.1 as int));
        lemma_primary_items(n, sq.0 as int);
        lemma_primary_items(n, sq.1 as int);
    }
    assert forall|j: int, q: int| 0 <= j < options.len() && 0 <= q < options[j]@.len() implies match #[trigger] options[j]@[q] {
        Item::Primary(_) => true,
        Item::Secondary(s) => se.contains(s),
        Item::ColoredSecondary(s, c) => se.contains(s) && Seq::<usize>::empty().contains(c),
    } by {
        let i = squares[j].0 as int;
        let c = squares[j].1 as int;
        assert(options[j]@ == square_option(n, i, c));
        if q == 2 {
            assert(se[2 * (i + c)] == 2 * n + i + c);
        } else if q == 3 {
            assert(se[2 * (n + i - c) + 1] == 5 * n + i - c);
        }
    }
    assert forall|j: int, a: int, b: int| 0 <= j < options.len() && 0 <= a < b < options[j]@.len() implies !same_key(
        #[trigger] options[j]@[a],
        #[trigger] options[j]@[b],
    ) by {
        let sq = squares[j];
        assert(options[j]@ == square_option(n, sq.0 as int, sq.1 as int));
    }
}

/// Option `v` has one primary item below `n` and one in `n..2 n`.
pub open spec fn unique_primaries(n: int, v: Seq<Item<usize, usize, usize>>) -> bool {
    &&& forall|a: int, b: int|
        0 <= a < v.len() && 0 <= b < v.len() && v[a] is Primary && v[b] is Primary && v[a]->Primary_0 < n && v[b]->Primary_0 < n ==> v[a] == v[b]
    &&& forall|a: int, b: int|
        0 <= a < v.len() && 0 <= b < v.len() && v[a] is Primary && v[b] is Primary && n <= v[a]->Primary_0 < 2 * n && n <= v[b]->Primary_0 < 2 * n
            ==> v[a] == v[b]
}

/// `r` is the square option `v` stands for, by its row and column items.
pub open spec fn reads_option(n: int, v: Seq<Item<usize, usize, usize>>, r: (usize, usize)) -> bool {
    &&& forall|k: int| 0 <= k < v.len() && v[k] is Primary && v[k]->Primary_0 < n ==> r.0 == v[k]->Primary_0
    &&& forall|k: int| 0 <= k < v.len() && v[k] is Primary && n <= v[k]->Primary_0 < 2 * n ==> r.1 == v[k]->Primary_0 - n
}

/// The square an option stands for, by its primary items: the one below
/// `n` gives the row, the one in `n..2 n` the column.
fn option_square_of(n: usize, v: &Vec<Item<usize, usize, usize>>) -> (r: (usize, usize))
    requires
        2 * n < usize::MAX,
        unique_primaries(n as int, v@),
    ensures
        reads_option(n as int, v@, r),
{
    let mut row: usize = 0;
    let mut column: usize = 0;
    let mut p: usize = 0;
    while p < v.len()
        invariant
            p <= v@.len(),
            2 * n < usize::MAX,
            unique_primaries(n as int, v@),
            forall|k: int| 0 <= k < p && v@[k] is Primary && v@[k]->Primary_0 < n ==> row == v@[k]->Primary_0,
            forall|k: int| 0 <= k < p && v@[k] is Primary && n <= v@[k]->Primary_0 < 2 * n ==> column == v@[k]->Primary_0 - n,
        decreases v@.len() - p,
    {
        match v[p] {
            Item::Primary(x) => {
                if x < n {
                    row = x;
                } else if x < 2 * n {
                    column = x - n;
                }
            },
            _ => {},
        }
        p += 1;
    }
    (row, column)
}

/// An option read from one of its places holds the items of the option.
proof fn lemma_rotated_contains(set: Seq<Item<usize, usize, usize>>, q: int, x: Item<usize, usize, usize>)
    requires
        0 <= q < set.len(),
    ensures
        rotated(set, q).contains(x) <==> set.contains(x),
{
    let r = rotated(set, q);
    let m = set.len() - q;
    if r.contains(x) {
        let k = choose|k: int| 0 <= k < r.len() && r[k] == x;
        if k < m {
            assert(set[q + k] == x);
        } else {
            assert(set[k - m] == x);
        }
    }
    if set.contains(x) {
        let k = choose|k: int| 0 <= k < set.len() && set[k] == x;
        if k >= q {
            assert(r[k - q] == x);
        } else {
            assert(r[m + k] == x);
        }
    }
}

/// Entry `k` of a listed solution stands for the square of its option.
proof fn lemma_option_entry(
    n: int,
    options: Seq<Vec<Item<usize, usize, usize>>>,
    squares: Seq<(usize, usize)>,
    rows: Seq<Vec<Item<usize, usize, usize>>>,
    order: Seq<int>,
    k: int,
)
    requires
        option_board(n, options, squares),
        6 * n < usize::MAX,
        lists_options(options, rows, order),
        0 <= k < rows.len(),
    ensures
        0 <= order[k] < squares.len(),
        unique_primaries(n, rows[k]@),
        forall|r: (usize, usize)| reads_option(n, rows[k]@, r) ==> r == squares[order[k]],
{
    let j = order[k];
    let q = choose|q: int| 0 <= q < options[j]@.len() && options[j]@[q] is Primary && rows[k]@ == rotated(options[j]@, q);
    let sq = squares[j];
    let opt = square_option(n, sq.0 as int, sq.1 as int);
    assert(options[j]@ == opt);
    let v = rows[k]@;
    assert forall|a: int| 0 <= a < v.len() implies opt.contains(#[trigger] v[a]) by {
        lemma_rotated_contains(opt, q, v[a]);
        assert(v.contains(v[a]));
    }
    assert forall|a: int, b: int|
        0 <= a < v.len() && 0 <= b < v.len() && v[a] is Primary && v[b] is Primary && v[a]->Primary_0 < n && v[b]->Primary_0 < n implies v[a] == v[b] by {
        assert(opt.contains(v[a]) && opt.contains(v[b]));
    }
    assert forall|a: int, b: int|
        0 <= a < v.len() && 0 <= b < v.len() && v[a] is Primary && v[b] is Primary && n <= v[a]->Primary_0 < 2 * n && n <= v[b]->Primary_0
            < 2 * n implies v[a] == v[b] by {
        assert(opt.contains(v[a]) && opt.contains(v[b]));
    }
    lemma_rotated_contains(opt, q, opt[0]);
    lemma_rotated_contains(opt, q, opt[1]);
    assert(opt.contains(opt[0]) && opt.contains(opt[1]));
    assert forall|r: (usize, usize)| reads_option(n, v, r) implies r == sq by {
        let a = choose|a: int| 0 <= a < v.len() && v[a] == opt[0];
        let b = choose|b: int| 0 <= b < v.len() && v[b] == opt[1];
    }
}

/// Options of two squares that attack each other share an item that
/// neither colours.
proof fn lemma_attack_clash(n: int, a: (usize, usize), b: (usize, usize))
    requires
        a.0 < n && a.1 < n && b.0 < n && b.1 < n,
        6 * n < usize::MAX,
        attack(a, b),
    ensures
        !compatible(square_option(n, a.0 as int, a.1 as int), square_option(n, b.0 as int, b.1 as int)),
{
    let oa = square_option(n, a.0 as int, a.1 as int);
    let ob = square_option(n, b.0 as int, b.1 as int);
    if a.0 == b.0 {
        assert(same_key(oa[0], ob[0]));
    } else if a.1 == b.1 {
        assert(same_key(oa[1], ob[1]));
    } else if a.0 - b.0 == a.1 - b.1 {
        assert(same_key(oa[3], ob[3]));
    } else {
        assert(same_key(oa[2], ob[2]));
    }
}

/// Every row has a queen of a listed solution with colours.
proof fn lemma_option_rows(
    n: int,
    options: Seq<Vec<Item<usize, usize, usize>>>,
    squares: Seq<(usize, usize)>,
    rows: Seq<Vec<Item<usize, usize, usize>>>,
    order: Seq<int>,
    out: Seq<(usize, usize)>,
    i: int,
)
    requires
        option_board(n, options, squares),
        0 <= n,
        6 * n < usize::MAX,
        lists_options(options, rows, order),
        colored_solution(options, queens_primary(n), order.to_set()),
        out.len() == rows.len(),
        forall|k: int| 0 <= k < rows.len() ==> 0 <= #[trigger] order[k] < squares.len() && out[k] == squares[order[k]],
        0 <= i < n,
    ensures
        has_row(out, i),
{
    let x = i as usize;
    lemma_primary_items(n, i);
    let js = order.to_set();
    let j = choose|j: int| js.contains(j) && #[trigger] options[j]@.contains(Item::Primary(x));
    let k = choose|k: int| 0 <= k < order.len() && order[k] == j;
    let sq = squares[j];
    assert(options[j]@ == square_option(n, sq.0 as int, sq.1 as int));
    let p = choose|p: int| 0 <= p < 4 && options[j]@[p] == Item::<usize, usize, usize>::Primary(x);
    assert(out[k] == sq);
}

/// Every listed solution with colours, read square by square, is a
/// placement.
proof fn lemma_option_sound(
    n: int,
    options: Seq<Vec<Item<usize, usize, usize>>>,
    squares: Seq<(usize, usize)>,
    rows: Seq<Vec<Item<usize, usize, usize>>>,
    cols: Seq<(usize, Option<usize>)>,
    out: Seq<(usize, usize)>,
)
    requires
        option_board(n, options, squares),
        0 <= n,
        6 * n < usize::MAX,
        colored_listed(options, queens_primary(n), queens_secondary(n), rows, cols),
        out.len() == rows.len(),
        forall|k: int| 0 <= k < rows.len() ==> #[trigger] reads_option(n, rows[k]@, out[k]),
    ensures
        placement(n, out),
{
    let order = choose|order: Seq<int>|
        #[trigger] lists_options(options, rows, order) && colored_solution(options, queens_primary(n), order.to_set()) && crate::dlxc::colors_reported(
            options,
            order.to_set(),
            queens_secondary(n),
            cols,
        );
    assert forall|k: int| 0 <= k < rows.len() implies 0 <= #[trigger] order[k] < squares.len() && out[k] == squares[order[k]] by {
        lemma_option_entry(n, options, squares, rows, order, k);
        assert(reads_option(n, rows[k]@, out[k]));
    }
    assert forall|k: int| 0 <= k < out.len() implies (#[trigger] out[k]).0 < n && out[k].1 < n by {
        assert(out[k] == squares[order[k]]);
    }
    assert forall|i: int| 0 <= i < n implies #[trigger] has_row(out, i) by {
        lemma_option_rows(n, options, squares, rows, order, out, i);
    }
    if in_conflict(out) {
        let (k1, k2) = choose|k1: int, k2: int| 0 <= k2 < k1 < out.len() && attack(#[trigger] out[k1], #[trigger] out[k2]);
        let j1 = order[k1];
        let j2 = order[k2];
        assert(out[k1] == squares[j1] && out[k2] == squares[j2]);
        lemma_attack_clash(n, squares[j1], squares[j2]);
        assert(options[j1]@ == square_option(n, squares[j1].0 as int, squares[j1].1 as int));
        assert(options[j2]@ == square_option(n, squares[j2].0 as int, squares[j2].1 as int));
        assert(order.to_set().contains(j1) && order.to_set().contains(j2));
        assert(order.no_duplicates());
        assert(j1 != j2);
        assert(compatible(options[j1]@, options[j2]@));
    }
}

/// The item an option item names, primary or secondary.
pub open spec fn item_key(a: Item<usize, usize, usize>) -> usize {
    match a {
        Item::Primary(p) => p,
        Item::Secondary(s) => s,
        Item::ColoredSecondary(s, _) => s,
    }
}

/// Each primary item is in the option of a square of a solution.
proof fn lemma_primary_option(
    n: int,
    options: Seq<Vec<Item<usize, usize, usize>>>,
    squares: Seq<(usize, usize)>,
    queens: Seq<(usize, usize)>,
    x: usize,
) -> (j: int)
    requires
        option_board(n, options, squares),
        0 <= n,
        6 * n < usize::MAX,
        is_solution(n, queens),
        queens_primary(n).contains(x),
    ensures
        placement_sets(squares, queens).contains(j),
        options[j]@.contains(Item::Primary(x)),
{
    let primary = queens_primary(n);
    let m = choose|m: int| 0 <= m < primary.len() && primary[m] == x;
    let r = if m % 2 == 0 {
        m / 2
    } else {
        lemma_columns_full(n, queens, m / 2);
        choose|r: int| 0 <= r < n && queens[r].1 == m / 2
    };
    let q = queens[r];
    assert(has_square(squares, q.0 as int, q.1 as int));
    let j = choose|j: int| 0 <= j < squares.len() && squares[j] == (q.0, q.1);
    assert(queens.contains(squares[j]));
    assert(options[j]@ == square_option(n, q.0 as int, q.1 as int));
    if m % 2 == 0 {
        assert(options[j]@[0] == Item::<usize, usize, usize>::Primary(x));
    } else {
        assert(options[j]@[1] == Item::<usize, usize, usize>::Primary(x));
    }
    j
}

/// The options of the squares of a solution are a solution with colours.
#[verifier::spinoff_prover]
#[verifier::rlimit(40)]
proof fn lemma_queens_colored_complete(
    n: int,
    options: Seq<Vec<Item<usize, usize, usize>>>,
    squares: Seq<(usize, usize)>,
    queens: Seq<(usize, usize)>,
)
    requires
        option_board(n, options, squares),
        0 <= n,
        6 * n < usize::MAX,
        is_solution(n, queens),
    ensures
        colored_solution(options, queens_primary(n), placement_sets(squares, queens)),
{
    let primary = queens_primary(n);
    let js = placement_sets(squares, queens);
    assert(js.finite()) by {
        vstd::set_lib::lemma_int_range(0, squares.len() as int);
        assert(js.subset_of(vstd::set_lib::set_int_range(0, squares.len() as int)));
        vstd::set_lib::lemma_len_subset(js, vstd::set_lib::set_int_range(0, squares.len() as int));
    }
    assert forall|j: int| #[trigger] js.contains(j) implies 0 <= j < options.len() && has_primary_item(options[j]@) by {
        let sq = squares[j];
        assert(options[j]@ == square_option(n, sq.0 as int, sq.1 as int));
        assert(options[j]@[0] is Primary);
    }
    assert forall|p: usize| #[trigger] primary.contains(p) implies exists|j: int|
        js.contains(j) && #[trigger] options[j]@.contains(Item::Primary(p)) by {
        let j = lemma_primary_option(n, options, squares, queens, p);
    }
    assert forall|j1: int, j2: int| js.contains(j1) && js.contains(j2) && j1 != j2 implies #[trigger] compatible(
        options[j1]@,
        options[j2]@,
    ) by {
        let a = options[j1]@;
        let b = options[j2]@;
        let s1 = squares[j1];
        let s2 = squares[j2];
        assert(a == square_option(n, s1.0 as int, s1.1 as int));
        assert(b == square_option(n, s2.0 as int, s2.1 as int));
        assert forall|x: int, y: int| 0 <= x < a.len() && 0 <= y < b.len() && #[trigger] same_key(a[x], b[y]) implies (a[x] is ColoredSecondary
            && a[x] == b[y]) by {
            let v = item_key(a[x]);
            assert(item_key(b[y]) == v);
            assert(square_items(n, s1.0 as int, s1.1 as int)[x] == v);
            assert(square_items(n, s2.0 as int, s2.1 as int)[y] == v);
            lemma_shares_attack(n, s1, s2, v);
            let qa = choose|qa: int| 0 <= qa < queens.len() && queens[qa] == s1;
            let qb = choose|qb: int| 0 <= qb < queens.len() && queens[qb] == s2;
            lemma_no_attack(n, queens, qa, qb);
            if j1 < j2 {
                assert(squares[j1] != squares[j2]);
            } else {
                assert(squares[j2] != squares[j1]);
            }
        }
    }
}

/// The squares the options of a solution stand for, one per option.
fn option_squares(n: usize, rows: &Vec<Vec<Item<usize, usize, usize>>>) -> (out: Vec<(usize, usize)>)
    requires
        2 * n < usize::MAX,
        forall|k: int| 0 <= k < rows@.len() ==> #[trigger] unique_primaries(n as int, rows@[k]@),
    ensures
        out@.len() == rows@.len(),
        forall|k: int| 0 <= k < rows@.len() ==> #[trigger] reads_option(n as int, rows@[k]@, out@[k]),
{
    let mut out: Vec<(usize, usize)> = Vec::new();
    let mut k: usize = 0;
    while k < rows.len()
        invariant
            k <= rows@.len(),
            out@.len() == k,
            2 * n < usize::MAX,
            forall|k: int| 0 <= k < rows@.len() ==> #[trigger] unique_primaries(n as int, rows@[k]@),
            forall|j: int| 0 <= j < k ==> #[trigger] reads_option(n as int, rows@[j]@, out@[j]),
        decreases rows@.len() - k,
    {
        proof {
            assert(unique_primaries(n as int, rows@[k as int]@));
        }
        let square = option_square_of(n, &rows[k]);
        out.push(square);
        k += 1;
    }
    out
}

/// A placement of `n` queens, none attacking another, found as the first
/// exact cover with colours of the board's squares, unless `time_limit`
/// runs out first: the placement of `n_queens_dlx_first_search` with this
/// limit, if it found one.  `None` when the time runs out, when there is
/// none, and when `n` is 0.
pub fn n_queens_dlx_first(n: usize, time_limit: Duration) -> (r: Option<Vec<(usize, usize)>>)
    requires
        5 * n * n + 6 * n + 2 < usize::MAX,
    ensures
        r matches Some(queens) ==> placement(n as int, queens@),
        n == 0 ==> r is None,
{
    match n_queens_dlx_first_search(n, Some(as_nanos(time_limit))) {
        Search::Found(queens) => Some(queens),
        _ => None,
    }
}

/// The first placement of `n` queens, none attacking another, found as an
/// exact cover with colours of the board's squares by `dlxc_first_search`:
/// the squares of the queens in the order the search chose them.
/// `Exhausted` when there is no placement, and when `n` is 0; `OutOfTime`
/// when the time limit, if there is one, runs out first.
pub fn n_queens_dlx_first_search(n: usize, time_limit: Option<u128>) -> (r: Search<Vec<(usize, usize)>>)
    requires
        5 * n * n + 6 * n + 2 < usize::MAX,
    ensures
        r matches Search::Found(queens) ==> placement(n as int, queens@),
        n == 0 ==> r is Exhausted,
        r is Exhausted && n > 0 ==> forall|q: Seq<(usize, usize)>| !#[trigger] is_solution(n as int, q),
        time_limit is None ==> !(r is OutOfTime),
        n > 0 && time_limit == Some(0u128) ==> r is OutOfTime,
{
    assert(6 * n <= 5 * n * n + 6 * n) by (nonlinear_arith);
    let (options, squares) = option_board_of(n);
    let (primary, secondary) = queens_items(n);
    let ghost ov = options@;
    proof {
        lemma_options_named(n as int, options@, squares@);
        lemma_primary_distinct(n as int);
    }
    match dlxc_first_search(options, primary, secondary, Vec::new(), time_limit, false) {
        Search::Found((rows, cols)) => {
            proof {
                let order = choose|order: Seq<int>|
                    #[trigger] lists_options(ov, rows@, order) && colored_solution(ov, queens_primary(n as int), order.to_set())
                        && crate::dlxc::colors_reported(ov, order.to_set(), queens_secondary(n as int), cols@);
                assert forall|k: int| 0 <= k < rows@.len() implies #[trigger] unique_primaries(n as int, rows@[k]@) by {
                    lemma_option_entry(n as int, ov, squares@, rows@, order, k);
                }
            }
            let out = option_squares(n, &rows);
            proof {
                lemma_option_sound(n as int, ov, squares@, rows@, cols@, out@);
            }
            Search::Found(out)
        },
        Search::Exhausted => {
            proof {
                assert forall|q: Seq<(usize, usize)>| n > 0 implies !#[trigger] is_solution(n as int, q) by {
                    if is_solution(n as int, q) {
                        lemma_queens_colored_complete(n as int, ov, squares@, q);
                        assert(queens_primary(n as int).len() > 0);
                    }
                }
            }
            Search::Exhausted
        },
        Search::OutOfTime => Search::OutOfTime,
    }
}

} // verus!
