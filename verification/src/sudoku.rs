//! Sudoku: clues, the grid of candidates they leave, and the items and
//! options of sudoku as an exact cover problem.
use vstd::prelude::*;
use crate::item_cover::{
    dlx_iter, item_solution, lists_solution, lists_in_order, solution_listed, rotation, well_named, has_primary, listed_apart,
    solutions_apart,
};
use crate::dlx_table::{view_sets, total_len};

verus! {

#[derive(Clone, Copy, PartialEq, Eq, Hash, Debug)]
pub struct Clue {
    row: u8,
    column: u8,
    number: u8,
}

impl Clue {
    /// The clue is on the board and its number is one of 1 to 9.
    pub open spec fn valid(row: u8, column: u8, number: u8) -> bool {
        row < 9 && column < 9 && number != 0 && number <= 9
    }

    pub closed spec fn row_of(self) -> u8 {
        self.row
    }

    pub closed spec fn column_of(self) -> u8 {
        self.column
    }

    pub closed spec fn number_of(self) -> u8 {
        self.number
    }

    /// A clue; an invalid one is refused with a panic, so it is left out.
    pub fn new(row: u8, column: u8, number: u8) -> (c: Self)
        requires
            Self::valid(row, column, number),
        ensures
            c.row_of() == row,
            c.column_of() == column,
            c.number_of() == number,
    {
        let clue = Clue { row, column, number };
        let valid = clue.is_valid_clue();
        assert(valid);
        clue
    }

    /// A clue, or `None` when the arguments do not make a valid one.
    pub fn try_new(row: u8, column: u8, number: u8) -> (c: Option<Self>)
        ensures
            c is Some <==> Self::valid(row, column, number),
            c matches Some(clue) ==> clue.row_of() == row && clue.column_of() == column && clue.number_of() == number,
    {
        let clue = Clue { row, column, number };
        if clue.is_valid_clue() {
            Some(clue)
        } else {
            None
        }
    }

    fn is_valid_clue(self) -> (r: bool)
        ensures
            r == Self::valid(self.row, self.column, self.number),
    {
        self.row < 9 && self.column < 9 && self.number != 0 && self.number <= 9
    }
}

/// The block of a cell: blocks are numbered row by row, three per row.
pub open spec fn block_of(row: int, column: int) -> int {
    3 * (row / 3) + column / 3
}

fn get_block_index(row: u8, column: u8) -> (b: u8)
    requires
        row < 9,
        column < 9,
    ensures
        b == block_of(row as int, column as int),
        b < 9,
{
    3 * (row / 3) + column / 3
}

/// Which numbers each cell can still take: entry `81 r + 9 c + (n - 1)`
/// for the number `n` in row `r`, column `c`.
struct Grid(Vec<bool>);

/// The index of a candidate in the grid.
pub open spec fn cell(row: int, column: int, number: int) -> int {
    81 * row + 9 * column + (number - 1)
}

/// The row of a candidate index.
pub open spec fn cell_row(i: int) -> int {
    i / 81
}

/// The column of a candidate index.
pub open spec fn cell_column(i: int) -> int {
    (i % 81) / 9
}

/// The number of a candidate index.
pub open spec fn cell_number(i: int) -> int {
    i % 9 + 1
}

proof fn lemma_cell(row: int, column: int, number: int)
    requires
        0 <= row < 9,
        0 <= column < 9,
        1 <= number <= 9,
    ensures
        0 <= cell(row, column, number) < 729,
        cell_row(cell(row, column, number)) == row,
        cell_column(cell(row, column, number)) == column,
        cell_number(cell(row, column, number)) == number,
{
    let i = cell(row, column, number);
    assert(i / 81 == row) by (nonlinear_arith)
        requires i == 81 * row + 9 * column + (number - 1), 0 <= row < 9, 0 <= column < 9, 1 <= number <= 9;
    assert(i % 81 == 9 * column + (number - 1)) by (nonlinear_arith)
        requires i == 81 * row + 9 * column + (number - 1), 0 <= row < 9, 0 <= column < 9, 1 <= number <= 9;
    assert((9 * column + (number - 1)) / 9 == column) by (nonlinear_arith)
        requires 0 <= column < 9, 1 <= number <= 9;
    assert(i % 9 == number - 1) by (nonlinear_arith)
        requires i == 81 * row + 9 * column + (number - 1), 0 <= row < 9, 0 <= column < 9, 1 <= number <= 9;
}

proof fn lemma_decode(i: int)
    requires
        0 <= i < 729,
    ensures
        0 <= cell_row(i) < 9,
        0 <= cell_column(i) < 9,
        1 <= cell_number(i) <= 9,
        i == cell(cell_row(i), cell_column(i), cell_number(i)),
{
    assert(0 <= i / 81 < 9) by (nonlinear_arith)
        requires 0 <= i < 729;
    assert(0 <= (i % 81) / 9 < 9) by (nonlinear_arith)
        requires 0 <= i < 729;
    assert(i == 81 * (i / 81) + 9 * ((i % 81) / 9) + i % 9) by (nonlinear_arith)
        requires 0 <= i < 729;
}

/// Candidate `i` lies in row `row` and has number `number`.
pub open spec fn in_row(i: int, row: int, number: int, upto: int) -> bool {
    cell_row(i) == row && cell_number(i) == number && cell_column(i) < upto
}

/// Candidate `i` lies in column `column` and has number `number`.
pub open spec fn in_column(i: int, column: int, number: int, upto: int) -> bool {
    cell_column(i) == column && cell_number(i) == number && cell_row(i) < upto
}

/// Candidate `i` lies in block `block` and has number `number`: among the
/// first `upto_a` rows of the block, or in row `upto_a` among its first
/// `upto_b` columns.
pub open spec fn in_block(i: int, block: int, number: int, upto_a: int, upto_b: int) -> bool {
    let a = cell_row(i) - 3 * (block / 3);
    let b = cell_column(i) - 3 * (block % 3);
    &&& cell_number(i) == number
    &&& 0 <= a < 3
    &&& 0 <= b < 3
    &&& (a < upto_a || (a == upto_a && b < upto_b))
}

/// Candidate `i` shares the row, the column or the block of `clue`, with
/// its number.
pub open spec fn sees(clue: Clue, i: int) -> bool {
    ||| in_row(i, clue.row_of() as int, clue.number_of() as int, 9)
    ||| in_column(i, clue.column_of() as int, clue.number_of() as int, 9)
    ||| in_block(i, block_of(clue.row_of() as int, clue.column_of() as int), clue.number_of() as int, 3, 0)
}

/// Candidate `i` is on the board, and no clue sees it.
pub open spec fn candidate(clues: Seq<Clue>, i: int) -> bool {
    &&& 0 <= i < 729
    &&& forall|k: int| 0 <= k < clues.len() ==> !sees(#[trigger] clues[k], i)
}

impl Grid {
    spec fn wf(&self) -> bool {
        self.0@.len() == 729
    }

    spec fn at(&self, row: int, column: int, number: int) -> bool {
        self.0@[cell(row, column, number)]
    }

    fn new() -> (g: Self)
        ensures
            g.wf(),
            forall|i: int| 0 <= i < 729 ==> #[trigger] g.0@[i],
    {
        let mut v: Vec<bool> = Vec::new();
        let mut i: usize = 0;
        while i < 729
            invariant
                i <= 729,
                v@.len() == i,
                forall|k: int| 0 <= k < i ==> #[trigger] v@[k],
            decreases 729 - i,
        {
            v.push(true);
            i += 1;
        }
        Grid(v)
    }

    fn get(&self, row: u8, column: u8, number: u8) -> (b: bool)
        requires
            self.wf(),
            row < 9,
            column < 9,
            1 <= number <= 9,
        ensures
            b == self.at(row as int, column as int, number as int),
    {
        self.0[81 * (row as usize) + 9 * (column as usize) + (number as usize - 1)]
    }

    fn set(&mut self, row: u8, column: u8, number: u8, value: bool)
        requires
            old(self).wf(),
            row < 9,
            column < 9,
            1 <= number <= 9,
        ensures
            final(self).wf(),
            final(self).0@ == old(self).0@.update(cell(row as int, column as int, number as int), value),
    {
        self.0.set(81 * (row as usize) + 9 * (column as usize) + (number as usize - 1), value);
    }

    /// Sets the candidate `number` of every cell of the clue's row.
    fn set_row(&mut self, clue: Clue, value: bool)
        requires
            old(self).wf(),
            Clue::valid(clue.row, clue.column, clue.number),
        ensures
            final(self).wf(),
            forall|i: int| 0 <= i < 729 ==> #[trigger] final(self).0@[i] == (if in_row(i, clue.row as int, clue.number as int, 9) {
                value
            } else {
                old(self).0@[i]
            }),
    {
        let row = clue.row;
        let mut column: u8 = 0;
        while column < 9
            invariant
                self.wf(),
                column <= 9,
                row == clue.row,
                Clue::valid(clue.row, clue.column, clue.number),
                forall|i: int| 0 <= i < 729 ==> #[trigger] self.0@[i] == (if in_row(i, clue.row as int, clue.number as int, column as int) {
                    value
                } else {
                    old(self).0@[i]
                }),
            decreases 9 - column,
        {
            self.set(row, column, clue.number, value);
            proof {
                let y = cell(row as int, column as int, clue.number as int);
                lemma_cell(row as int, column as int, clue.number as int);
                assert forall|i: int| 0 <= i < 729 implies #[trigger] self.0@[i] == (if in_row(i, clue.row as int, clue.number as int, column + 1) {
                    value
                } else {
                    old(self).0@[i]
                }) by {
                    lemma_decode(i);
                }
            }
            column += 1;
        }
    }

    /// Sets the candidate `number` of every cell of the clue's column.
    fn set_column(&mut self, clue: Clue, value: bool)
        requires
            old(self).wf(),
            Clue::valid(clue.row, clue.column, clue.number),
        ensures
            final(self).wf(),
            forall|i: int| 0 <= i < 729 ==> #[trigger] final(self).0@[i] == (if in_column(i, clue.column as int, clue.number as int, 9) {
                value
            } else {
                old(self).0@[i]
            }),
    {
        let column = clue.column;
        let mut row: u8 = 0;
        while row < 9
            invariant
                self.wf(),
                row <= 9,
                column == clue.column,
                Clue::valid(clue.row, clue.column, clue.number),
                forall|i: int| 0 <= i < 729 ==> #[trigger] self.0@[i] == (if in_column(i, clue.column as int, clue.number as int, row as int) {
                    value
                } else {
                    old(self).0@[i]
                }),
            decreases 9 - row,
        {
            self.set(row, column, clue.number, value);
            proof {
                lemma_cell(row as int, column as int, clue.number as int);
                assert forall|i: int| 0 <= i < 729 implies #[trigger] self.0@[i] == (if in_column(i, clue.column as int, clue.number as int, row + 1) {
                    value
                } else {
                    old(self).0@[i]
                }) by {
                    lemma_decode(i);
                }
            }
            row += 1;
        }
    }

    /// Sets the candidate `number` of every cell of the clue's block.
    fn set_block(&mut self, clue: Clue, value: bool)
        requires
            old(self).wf(),
            Clue::valid(clue.row, clue.column, clue.number),
        ensures
            final(self).wf(),
            forall|x: int| 0 <= x < 729 ==> #[trigger] final(self).0@[x] == (if in_block(
                x,
                block_of(clue.row as int, clue.column as int),
                clue.number as int,
                3,
                0,
            ) {
                value
            } else {
                old(self).0@[x]
            }),
    {
        let block = get_block_index(clue.row, clue.column);
        let ghost bl = block as int;
        let mut i: u8 = 0;
        while i < 3
            invariant
                self.wf(),
                i <= 3,
                block < 9,
                bl == block_of(clue.row as int, clue.column as int),
                bl == block,
                Clue::valid(clue.row, clue.column, clue.number),
                forall|x: int| 0 <= x < 729 ==> #[trigger] self.0@[x] == (if in_block(x, bl, clue.number as int, i as int, 0) {
                    value
                } else {
                    old(self).0@[x]
                }),
            decreases 3 - i,
        {
            let mut j: u8 = 0;
            while j < 3
                invariant
                    self.wf(),
                    i < 3,
                    j <= 3,
                    block < 9,
                    bl == block,
                    Clue::valid(clue.row, clue.column, clue.number),
                    forall|x: int| 0 <= x < 729 ==> #[trigger] self.0@[x] == (if in_block(x, bl, clue.number as int, i as int, j as int) {
                        value
                    } else {
                        old(self).0@[x]
                    }),
                decreases 3 - j,
            {
                let row = i + 3 * (block / 3);
                let column = j + 3 * (block % 3);
                self.set(row, column, clue.number, value);
                proof {
                    lemma_cell(row as int, column as int, clue.number as int);
                    assert forall|x: int| 0 <= x < 729 implies #[trigger] self.0@[x] == (if in_block(x, bl, clue.number as int, i as int, j + 1) {
                        value
                    } else {
                        old(self).0@[x]
                    }) by {
                        lemma_decode(x);
                    }
                }
                j += 1;
            }
            proof {
                assert forall|x: int| 0 <= x < 729 implies #[trigger] self.0@[x] == (if in_block(x, bl, clue.number as int, i + 1, 0) {
                    value
                } else {
                    old(self).0@[x]
                }) by {
                    lemma_decode(x);
                }
            }
            i += 1;
        }
    }

    fn cover_row(&mut self, clue: Clue)
        requires
            old(self).wf(),
            Clue::valid(clue.row, clue.column, clue.number),
        ensures
            final(self).wf(),
            forall|i: int| 0 <= i < 729 ==> #[trigger] final(self).0@[i] == (if in_row(i, clue.row as int, clue.number as int, 9) {
                false
            } else {
                old(self).0@[i]
            }),
    {
        self.set_row(clue, false);
    }

    fn cover_column(&mut self, clue: Clue)
        requires
            old(self).wf(),
            Clue::valid(clue.row, clue.column, clue.number),
        ensures
            final(self).wf(),
            forall|i: int| 0 <= i < 729 ==> #[trigger] final(self).0@[i] == (if in_column(i, clue.column as int, clue.number as int, 9) {
                false
            } else {
                old(self).0@[i]
            }),
    {
        self.set_column(clue, false);
    }

    fn cover_block(&mut self, clue: Clue)
        requires
            old(self).wf(),
            Clue::valid(clue.row, clue.column, clue.number),
        ensures
            final(self).wf(),
            forall|x: int| 0 <= x < 729 ==> #[trigger] final(self).0@[x] == (if in_block(
                x,
                block_of(clue.row as int, clue.column as int),
                clue.number as int,
                3,
                0,
            ) {
                false
            } else {
                old(self).0@[x]
            }),
    {
        self.set_block(clue, false);
    }

    /// Removes the clue's number from the candidates of every cell that
    /// shares its row, its column or its block.
    fn cover(&mut self, clue: Clue)
        requires
            old(self).wf(),
            Clue::valid(clue.row, clue.column, clue.number),
        ensures
            final(self).wf(),
            !final(self).at(clue.row as int, clue.column as int, clue.number as int),
            forall|i: int| 0 <= i < 729 ==> #[trigger] final(self).0@[i] ==> old(self).0@[i],
            forall|i: int| 0 <= i < 729 ==> #[trigger] final(self).0@[i] == (old(self).0@[i] && !sees(clue, i)),
    {
        self.cover_row(clue);
        self.cover_column(clue);
        self.cover_block(clue);
        proof {
            lemma_cell(clue.row as int, clue.column as int, clue.number as int);
        }
    }

    fn uncover_row(&mut self, clue: Clue)
        requires
            old(self).wf(),
            Clue::valid(clue.row, clue.column, clue.number),
        ensures
            final(self).wf(),
            forall|i: int| 0 <= i < 729 ==> #[trigger] final(self).0@[i] == (if in_row(i, clue.row as int, clue.number as int, 9) {
                true
            } else {
                old(self).0@[i]
            }),
    {
        self.set_row(clue, true);
    }

    fn uncover_column(&mut self, clue: Clue)
        requires
            old(self).wf(),
            Clue::valid(clue.row, clue.column, clue.number),
        ensures
            final(self).wf(),
            forall|i: int| 0 <= i < 729 ==> #[trigger] final(self).0@[i] == (if in_column(i, clue.column as int, clue.number as int, 9) {
                true
            } else {
                old(self).0@[i]
            }),
    {
        self.set_column(clue, true);
    }

    fn uncover_block(&mut self, clue: Clue)
        requires
            old(self).wf(),
            Clue::valid(clue.row, clue.column, clue.number),
        ensures
            final(self).wf(),
            forall|x: int| 0 <= x < 729 ==> #[trigger] final(self).0@[x] == (if in_block(
                x,
                block_of(clue.row as int, clue.column as int),
                clue.number as int,
                3,
                0,
            ) {
                true
            } else {
                old(self).0@[x]
            }),
    {
        self.set_block(clue, true);
    }

    /// Gives the clue's number back to every cell that shares its row, its
    /// column or its block.
    fn uncover(&mut self, clue: Clue)
        requires
            old(self).wf(),
            Clue::valid(clue.row, clue.column, clue.number),
        ensures
            final(self).wf(),
            final(self).at(clue.row as int, clue.column as int, clue.number as int),
            forall|i: int| 0 <= i < 729 ==> old(self).0@[i] ==> #[trigger] final(self).0@[i],
            forall|i: int| 0 <= i < 729 ==> #[trigger] final(self).0@[i] == (old(self).0@[i] || sees(clue, i)),
    {
        self.uncover_row(clue);
        self.uncover_column(clue);
        self.uncover_block(clue);
        proof {
            lemma_cell(clue.row as int, clue.column as int, clue.number as int);
        }
    }
}

/// The grid of candidates the clues leave: each clue's number is removed
/// from the cells it sees.
fn init_grid(clues: &[Clue]) -> (g: Grid)
    requires
        forall|k: int| 0 <= k < clues@.len() ==> Clue::valid((#[trigger] clues@[k]).row, clues@[k].column, clues@[k].number),
    ensures
        g.wf(),
        forall|k: int| 0 <= k < clues@.len() ==> !g.at((#[trigger] clues@[k]).row as int, clues@[k].column as int, clues@[k].number as int),
        forall|i: int| 0 <= i < 729 ==> #[trigger] g.0@[i] == candidate(clues@, i),
{
    let mut grid = Grid::new();
    let mut k: usize = 0;
    while k < clues.len()
        invariant
            grid.wf(),
            k <= clues@.len(),
            forall|j: int| 0 <= j < clues@.len() ==> Clue::valid((#[trigger] clues@[j]).row, clues@[j].column, clues@[j].number),
            forall|j: int| 0 <= j < k ==> !grid.at((#[trigger] clues@[j]).row as int, clues@[j].column as int, clues@[j].number as int),
            forall|i: int| 0 <= i < 729 ==> #[trigger] grid.0@[i] == candidate(clues@.take(k as int), i),
        decreases clues@.len() - k,
    {
        let ghost before = grid.0@;
        grid.cover(clues[k]);
        proof {
            assert forall|i: int| 0 <= i < 729 implies #[trigger] grid.0@[i] == candidate(clues@.take(k + 1), i) by {
                let t0 = clues@.take(k as int);
                let t1 = clues@.take(k + 1);
                assert(t1[k as int] == clues@[k as int]);
                if candidate(t1, i) {
                    assert forall|m: int| 0 <= m < t0.len() implies !sees(#[trigger] t0[m], i) by {
                        assert(t0[m] == t1[m]);
                        assert(!sees(t1[m], i));
                    }
                    assert(!sees(t1[k as int], i));
                }
                if grid.0@[i] {
                    assert forall|m: int| 0 <= m < t1.len() implies !sees(#[trigger] t1[m], i) by {
                        if m < k {
                            assert(t0[m] == t1[m]);
                        }
                    }
                }
            }
            assert forall|j: int| 0 <= j < k + 1 implies !grid.at((#[trigger] clues@[j]).row as int, clues@[j].column as int, clues@[j].number as int) by {
                if j < k {
                    let x = cell(clues@[j].row as int, clues@[j].column as int, clues@[j].number as int);
                    assert(!before[x]);
                }
            }
        }
        k += 1;
    }
    proof {
        assert(clues@.take(clues@.len() as int) =~= clues@);
    }
    grid
}

#[derive(Clone, Copy, PartialEq, Eq, Hash, Debug)]
pub struct PositionItem {
    row: u8,
    column: u8,
}

#[derive(Clone, Copy, PartialEq, Eq, Hash, Debug)]
pub struct RowItem {
    index: u8,
    number: u8,
}

#[derive(Clone, Copy, PartialEq, Eq, Hash, Debug)]
pub struct ColumnItem {
    index: u8,
    number: u8,
}

#[derive(Clone, Copy, PartialEq, Eq, Hash, Debug)]
pub struct BlockItem {
    index: u8,
    number: u8,
}

/// An item of sudoku as an exact cover problem: each cell holds one
/// number, and each row, column and block holds each number once.
#[derive(Clone, Copy, PartialEq, Eq, Hash, Debug)]
pub enum Item {
    Position(PositionItem),
    Row(RowItem),
    Column(ColumnItem),
    Block(BlockItem),
}

/// The 324 items: for each index `i` below 9, the cells of row `i`, then
/// for each number the row, column and block items of index `i`.
fn make_items() -> (items: Vec<Item>)
    ensures
        items@.len() == 324,
        forall|i: int, j: int| 0 <= i < 9 && 0 <= j < 9 ==> #[trigger] items@[36 * i + j] == Item::Position(
            PositionItem { row: i as u8, column: j as u8 },
        ),
        forall|i: int, n: int| 0 <= i < 9 && 1 <= n <= 9 ==> {
            &&& #[trigger] items@[36 * i + 9 + 3 * (n - 1)] == Item::Row(RowItem { index: i as u8, number: n as u8 })
            &&& items@[36 * i + 10 + 3 * (n - 1)] == Item::Column(ColumnItem { index: i as u8, number: n as u8 })
            &&& items@[36 * i + 11 + 3 * (n - 1)] == Item::Block(BlockItem { index: i as u8, number: n as u8 })
        },
{
    let mut items: Vec<Item> = Vec::new();
    let mut i: u8 = 0;
    while i < 9
        invariant
            i <= 9,
            items@.len() == 36 * i,
            forall|a: int, j: int| 0 <= a < i && 0 <= j < 9 ==> #[trigger] items@[36 * a + j] == Item::Position(
                PositionItem { row: a as u8, column: j as u8 },
            ),
            forall|a: int, n: int| 0 <= a < i && 1 <= n <= 9 ==> {
                &&& #[trigger] items@[36 * a + 9 + 3 * (n - 1)] == Item::Row(RowItem { index: a as u8, number: n as u8 })
                &&& items@[36 * a + 10 + 3 * (n - 1)] == Item::Column(ColumnItem { index: a as u8, number: n as u8 })
                &&& items@[36 * a + 11 + 3 * (n - 1)] == Item::Block(BlockItem { index: a as u8, number: n as u8 })
            },
        decreases 9 - i,
    {
        let ghost start = items@;
        let mut j: u8 = 0;
        while j < 9
            invariant
                i < 9,
                j <= 9,
                items@.len() == 36 * i + j,
                items@.take(36 * i) == start,
                forall|b: int| 0 <= b < j ==> #[trigger] items@[36 * i + b] == Item::Position(
                    PositionItem { row: i as u8, column: b as u8 },
                ),
            decreases 9 - j,
        {
            items.push(Item::Position(PositionItem { row: i, column: j }));
            j += 1;
        }
        let mut n: u8 = 1;
        while n <= 9
            invariant
                i < 9,
                1 <= n <= 10,
                items@.len() == 36 * i + 9 + 3 * (n - 1),
                items@.take(36 * i) == start,
                forall|b: int| 0 <= b < 9 ==> #[trigger] items@[36 * i + b] == Item::Position(
                    PositionItem { row: i as u8, column: b as u8 },
                ),
                forall|m: int| 1 <= m < n ==> {
                    &&& #[trigger] items@[36 * i + 9 + 3 * (m - 1)] == Item::Row(RowItem { index: i as u8, number: m as u8 })
                    &&& items@[36 * i + 10 + 3 * (m - 1)] == Item::Column(ColumnItem { index: i as u8, number: m as u8 })
                    &&& items@[36 * i + 11 + 3 * (m - 1)] == Item::Block(BlockItem { index: i as u8, number: m as u8 })
                },
            decreases 10 - n,
        {
            items.push(Item::Row(RowItem { index: i, number: n }));
            items.push(Item::Column(ColumnItem { index: i, number: n }));
            items.push(Item::Block(BlockItem { index: i, number: n }));
            n += 1;
        }
        proof {
            assert forall|a: int, j: int| 0 <= a < i + 1 && 0 <= j < 9 implies #[trigger] items@[36 * a + j] == Item::Position(
                PositionItem { row: a as u8, column: j as u8 },
            ) by {
                if a < i {
                    assert(items@.take(36 * i)[36 * a + j] == start[36 * a + j]);
                }
            }
            assert forall|a: int, m: int| 0 <= a < i + 1 && 1 <= m <= 9 implies {
                &&& #[trigger] items@[36 * a + 9 + 3 * (m - 1)] == Item::Row(RowItem { index: a as u8, number: m as u8 })
                &&& items@[36 * a + 10 + 3 * (m - 1)] == Item::Column(ColumnItem { index: a as u8, number: m as u8 })
                &&& items@[36 * a + 11 + 3 * (m - 1)] == Item::Block(BlockItem { index: a as u8, number: m as u8 })
            } by {
                if a < i {
                    assert(items@.take(36 * i)[36 * a + 9 + 3 * (m - 1)] == start[36 * a + 9 + 3 * (m - 1)]);
                    assert(items@.take(36 * i)[36 * a + 10 + 3 * (m - 1)] == start[36 * a + 10 + 3 * (m - 1)]);
                    assert(items@.take(36 * i)[36 * a + 11 + 3 * (m - 1)] == start[36 * a + 11 + 3 * (m - 1)]);
                }
            }
        }
        i += 1;
    }
    items
}

/// The option of `number` in row `row`, column `column`: its cell, and the
/// number in its row, its column and its block.
fn make_option(row: u8, column: u8, number: u8) -> (o: Vec<Item>)
    requires
        row < 9,
        column < 9,
    ensures
        o@ == seq![
            Item::Position(PositionItem { row, column }),
            Item::Row(RowItem { index: row, number }),
            Item::Column(ColumnItem { index: column, number }),
            Item::Block(BlockItem { index: block_of(row as int, column as int) as u8, number }),
        ],
{
    let block = get_block_index(row, column);
    vec![
        Item::Position(PositionItem { row, column }),
        Item::Row(RowItem { index: row, number }),
        Item::Column(ColumnItem { index: column, number }),
        Item::Block(BlockItem { index: block, number }),
    ]
}

/// The clue after `clue` in the order the search tries them: the next
/// number, else the next row, else the next column.
fn next_clue(clue: Clue) -> (r: Option<Clue>)
    requires
        Clue::valid(clue.row, clue.column, clue.number),
    ensures
        r == (if clue.number < 9 {
            Some(Clue { row: clue.row, column: clue.column, number: (clue.number + 1) as u8 })
        } else if clue.row < 8 {
            Some(Clue { row: (clue.row + 1) as u8, column: clue.column, number: clue.number })
        } else if clue.column < 8 {
            Some(Clue { row: clue.row, column: (clue.column + 1) as u8, number: clue.number })
        } else {
            None::<Clue>
        }),
{
    if clue.number < 9 {
        Some(Clue { row: clue.row, column: clue.column, number: clue.number + 1 })
    } else if clue.row < 8 {
        Some(Clue { row: clue.row + 1, column: clue.column, number: clue.number })
    } else if clue.column < 8 {
        Some(Clue { row: clue.row, column: clue.column + 1, number: clue.number })
    } else {
        None
    }
}

/// The cells below, to the right and diagonally below-right of the clue's
/// cell that are on the board, each with number 1.
fn neighbor_clues(clue: Clue) -> (r: Vec<Clue>)
    requires
        Clue::valid(clue.row, clue.column, clue.number),
    ensures
        r@ == (if clue.row < 8 { seq![Clue { row: (clue.row + 1) as u8, column: clue.column, number: 1 }] } else { seq![] })
            + (if clue.column < 8 { seq![Clue { row: clue.row, column: (clue.column + 1) as u8, number: 1 }] } else { seq![] })
            + (if clue.column < 8 && clue.row < 8 { seq![Clue { row: (clue.row + 1) as u8, column: (clue.column + 1) as u8, number: 1 }] } else { seq![] }),
{
    let mut neighbors: Vec<Clue> = Vec::new();
    if clue.row < 8 {
        neighbors.push(Clue { row: clue.row + 1, column: clue.column, number: 1 });
    }
    if clue.column < 8 {
        neighbors.push(Clue { row: clue.row, column: clue.column + 1, number: 1 });
        if clue.row < 8 {
            neighbors.push(Clue { row: clue.row + 1, column: clue.column + 1, number: 1 });
        }
    }
    assert(neighbors@ =~= (if clue.row < 8 { seq![Clue { row: (clue.row + 1) as u8, column: clue.column, number: 1 }] } else { seq![] })
        + (if clue.column < 8 { seq![Clue { row: clue.row, column: (clue.column + 1) as u8, number: 1 }] } else { seq![] })
        + (if clue.column < 8 && clue.row < 8 { seq![Clue { row: (clue.row + 1) as u8, column: (clue.column + 1) as u8, number: 1 }] } else { seq![] }));
    neighbors
}

/// How far a clue is from the last one the search can reach: clues further
/// on in the board, and higher numbers in a cell, rank lower.
pub closed spec fn rank(c: Clue) -> nat {
    (10 * (16 - c.row - c.column) + (9 - c.number)) as nat
}

/// `4` to the power `k`.
pub closed spec fn pow4(k: nat) -> nat
    decreases k,
{
    if k == 0 {
        1
    } else {
        4 * pow4((k - 1) as nat)
    }
}

proof fn lemma_pow4_pos(k: nat)
    ensures
        pow4(k) >= 1,
    decreases k,
{
    if k > 0 {
        lemma_pow4_pos((k - 1) as nat);
    }
}

proof fn lemma_pow4_grows(a: nat, b: nat)
    requires
        a < b,
    ensures
        4 * pow4(a) <= pow4(b),
    decreases b,
{
    if a + 1 < b {
        lemma_pow4_grows(a, (b - 1) as nat);
    }
}

/// The work left in the clues of the stack: each clue weighs four times as
/// much as any clue it can put on the stack.
pub closed spec fn potential(stack: Seq<Clue>) -> nat
    decreases stack.len(),
{
    if stack.len() == 0 {
        0
    } else {
        potential(stack.drop_last()) + pow4(rank(stack.last()))
    }
}

proof fn lemma_potential_push(s: Seq<Clue>, c: Clue)
    ensures
        potential(s.push(c)) == potential(s) + pow4(rank(c)),
{
    assert(s.push(c).drop_last() =~= s);
}

proof fn lemma_potential_append(s: Seq<Clue>, t: Seq<Clue>)
    ensures
        potential(s + t) == potential(s) + potential(t),
    decreases t.len(),
{
    if t.len() == 0 {
        assert(s + t =~= s);
    } else {
        lemma_potential_append(s, t.drop_last());
        assert((s + t).drop_last() =~= s + t.drop_last());
    }
}


/// The grid after covering `c`: its number leaves every cell that sees it.
spec fn covered(g: Seq<bool>, c: Clue) -> Seq<bool> {
    Seq::new(729, |i: int| g[i] && !sees(c, i))
}

/// The grid after uncovering `c`: its number comes back to every cell that
/// sees it.
spec fn uncovered(g: Seq<bool>, c: Clue) -> Seq<bool> {
    Seq::new(729, |i: int| g[i] || sees(c, i))
}

/// The clue after `c` in the order the search tries them.
spec fn next_of(c: Clue) -> Option<Clue> {
    if c.number < 9 {
        Some(Clue { row: c.row, column: c.column, number: (c.number + 1) as u8 })
    } else if c.row < 8 {
        Some(Clue { row: (c.row + 1) as u8, column: c.column, number: c.number })
    } else if c.column < 8 {
        Some(Clue { row: c.row, column: (c.column + 1) as u8, number: c.number })
    } else {
        None
    }
}

/// The neighbouring clues of `c` the search tries next.
spec fn neighbors_of(c: Clue) -> Seq<Clue> {
    (if c.row < 8 { seq![Clue { row: (c.row + 1) as u8, column: c.column, number: 1 }] } else { seq![] })
        + (if c.column < 8 { seq![Clue { row: c.row, column: (c.column + 1) as u8, number: 1 }] } else { seq![] })
        + (if c.column < 8 && c.row < 8 { seq![Clue { row: (c.row + 1) as u8, column: (c.column + 1) as u8, number: 1 }] } else { seq![] })
}

/// Every clue of the stack is on the board.
pub closed spec fn all_valid(stack: Seq<Clue>) -> bool {
    forall|k: int| 0 <= k < stack.len() ==> Clue::valid((#[trigger] stack[k]).row, stack[k].column, stack[k].number)
}

/// What the search returns from grid `g`, stack `stack` and placements
/// `sol`: with the stack empty, the placements; otherwise the last clue is
/// taken off the stack; if its cell can take its number it is covered,
/// placed, and its neighbours go on the stack; else the next clue goes on
/// the stack, or, when there is none, the clue is uncovered; then the last
/// placement is taken back.
pub closed spec fn dfs_result(g: Seq<bool>, stack: Seq<Clue>, sol: Seq<Clue>) -> Seq<Clue>
    decreases potential(stack),
    when all_valid(stack)
{
    if stack.len() == 0 {
        sol
    } else {
        let c = stack.last();
        let rest = stack.drop_last();
        proof {
            assert(stack[stack.len() - 1] == c);
            assert(rest.push(c) =~= stack);
            lemma_potential_push(rest, c);
            lemma_pow4_pos(rank(c));
        }
        let back = if sol.len() > 0 { sol.drop_last() } else { sol };
        if g[cell(c.row as int, c.column as int, c.number as int)] {
            let added = neighbors_of(c);
            proof {
                lemma_potential_append(rest, added);
                assert forall|k: int| 0 <= k < added.len() implies 4 * pow4(rank(#[trigger] added[k])) <= pow4(rank(c)) by {
                    lemma_pow4_grows(rank(added[k]), rank(c));
                }
                lemma_neighbors_light(added, pow4(rank(c)));
                assert forall|k: int| 0 <= k < (rest + added).len() implies Clue::valid(
                    (#[trigger] (rest + added)[k]).row,
                    (rest + added)[k].column,
                    (rest + added)[k].number,
                ) by {
                    if k < rest.len() {
                        assert((rest + added)[k] == stack[k]);
                    }
                }
            }
            dfs_result(covered(g, c), rest + added, sol.push(c))
        } else {
            match next_of(c) {
                Some(n) => {
                    proof {
                        lemma_potential_push(rest, n);
                        lemma_pow4_grows(rank(n), rank(c));
                        assert forall|k: int| 0 <= k < rest.push(n).len() implies Clue::valid(
                            (#[trigger] rest.push(n)[k]).row,
                            rest.push(n)[k].column,
                            rest.push(n)[k].number,
                        ) by {
                            if k < rest.len() {
                                assert(rest.push(n)[k] == stack[k]);
                            }
                        }
                    }
                    dfs_result(g, rest.push(n), back)
                },
                None => {
                    proof {
                        assert forall|k: int| 0 <= k < rest.len() implies Clue::valid(
                            (#[trigger] rest[k]).row,
                            rest[k].column,
                            rest[k].number,
                        ) by {
                            assert(rest[k] == stack[k]);
                        }
                    }
                    dfs_result(uncovered(g, c), rest, back)
                },
            }
        }
    }
}

/// A clue of number 1 whose next clue tried, once it is placed, lies in
/// its block: the cell is in neither the last row nor the last column of
/// its block (next comes number 1 diagonally below), or it is in the last
/// column of the board and not in the last row of its block (next comes
/// number 1 below), or in the last row of the board and not in the last
/// column of its block (next comes number 1 to the right).  The placement
/// rules that clue out.
pub open spec fn doomed(d: Clue) -> bool {
    let r = d.row_of();
    let c = d.column_of();
    &&& r < 9
    &&& c < 9
    &&& d.number_of() == 1
    &&& {
        ||| (r % 3 != 2 && c % 3 != 2)
        ||| (c == 8 && r % 3 != 2)
        ||| (r == 8 && c % 3 != 2)
    }
}

/// The clue the search tries right after placing `d`: number 1 in the
/// last of the neighbouring cells it puts on the stack.
spec fn next_one(d: Clue) -> Clue {
    if d.row < 8 && d.column < 8 {
        Clue { row: (d.row + 1) as u8, column: (d.column + 1) as u8, number: 1 }
    } else if d.row < 8 {
        Clue { row: (d.row + 1) as u8, column: d.column, number: 1 }
    } else {
        Clue { row: d.row, column: (d.column + 1) as u8, number: 1 }
    }
}

/// Every such clue is either not among the placements, or is the last of
/// them, placed once, with the clue that rules it out next on the stack.
spec fn doomed_ok(g: Seq<bool>, stack: Seq<Clue>, sol: Seq<Clue>) -> bool {
    forall|d: Clue|
        #[trigger] doomed(d) ==> !sol.contains(d) || {
            &&& sol.len() > 0
            &&& sol.last() == d
            &&& !sol.drop_last().contains(d)
            &&& stack.len() > 0
            &&& stack.last() == next_one(d)
            &&& !g[cell(next_one(d).row as int, next_one(d).column as int, 1)]
        }
}

/// Placing such a clue rules out the next one, and puts it last on the
/// stack.
proof fn lemma_doomed_sees(d: Clue)
    requires
        doomed(d),
    ensures
        sees(d, cell(next_one(d).row as int, next_one(d).column as int, 1)),
        neighbors_of(d).len() > 0,
        neighbors_of(d).last() == next_one(d),
        next_one(d) != d,
        Clue::valid(next_one(d).row, next_one(d).column, 1),
{
    let r = d.row as int;
    let c = d.column as int;
    let k = next_one(d);
    let kr = k.row as int;
    let kc = k.column as int;
    lemma_cell(kr, kc, 1);
    let bl = block_of(r, c);
    assert(bl / 3 == r / 3 && bl % 3 == c / 3) by (nonlinear_arith)
        requires bl == 3 * (r / 3) + c / 3, 0 <= r < 9, 0 <= c < 9;
    assert(kr / 3 == r / 3 && kc / 3 == c / 3 && 0 <= kr < 9 && 0 <= kc < 9) by (nonlinear_arith)
        requires
            0 <= r < 9,
            0 <= c < 9,
            (r % 3 != 2 && c % 3 != 2 && kr == r + 1 && kc == c + 1) || (c == 8 && r % 3 != 2 && kr == r + 1 && kc == c) || (r
                == 8 && c % 3 != 2 && kr == r && kc == c + 1);
    assert(0 <= kr - 3 * (kr / 3) < 3 && 0 <= kc - 3 * (kc / 3) < 3) by (nonlinear_arith)
        requires 0 <= kr, 0 <= kc;
    assert(in_block(cell(kr, kc, 1), bl, 1, 3, 0));
}

proof fn lemma_doomed_kept_out(g: Seq<bool>, stack: Seq<Clue>, sol: Seq<Clue>)
    requires
        g.len() == 729,
        all_valid(stack),
        doomed_ok(g, stack, sol),
    ensures
        forall|d: Clue| #[trigger] doomed(d) ==> !dfs_result(g, stack, sol).contains(d),
    decreases potential(stack),
{
    if stack.len() == 0 {
        assert forall|d: Clue| #[trigger] doomed(d) implies !dfs_result(g, stack, sol).contains(d) by {
            assert(dfs_result(g, stack, sol) == sol);
        }
    } else {
        let c = stack.last();
        let rest = stack.drop_last();
        assert(stack[stack.len() - 1] == c);
        assert(rest.push(c) =~= stack);
        lemma_potential_push(rest, c);
        lemma_pow4_pos(rank(c));
        assert(Clue::valid(stack[stack.len() - 1].row, stack[stack.len() - 1].column, stack[stack.len() - 1].number));
        let back = if sol.len() > 0 { sol.drop_last() } else { sol };
        if g[cell(c.row as int, c.column as int, c.number as int)] {
            let added = neighbors_of(c);
            lemma_potential_append(rest, added);
            assert forall|k: int| 0 <= k < added.len() implies 4 * pow4(rank(#[trigger] added[k])) <= pow4(rank(c)) by {
                lemma_pow4_grows(rank(added[k]), rank(c));
            }
            lemma_neighbors_light(added, pow4(rank(c)));
            assert forall|k: int| 0 <= k < (rest + added).len() implies Clue::valid(
                (#[trigger] (rest + added)[k]).row,
                (rest + added)[k].column,
                (rest + added)[k].number,
            ) by {
                if k < rest.len() {
                    assert((rest + added)[k] == stack[k]);
                }
            }
            let g2 = covered(g, c);
            let st2 = rest + added;
            let s2 = sol.push(c);
            assert forall|d: Clue| #[trigger] doomed(d) implies !s2.contains(d) || {
                &&& s2.len() > 0
                &&& s2.last() == d
                &&& !s2.drop_last().contains(d)
                &&& st2.len() > 0
                &&& st2.last() == next_one(d)
                &&& !g2[cell(next_one(d).row as int, next_one(d).column as int, 1)]
            } by {
                lemma_doomed_sees(d);
                let kc = cell(next_one(d).row as int, next_one(d).column as int, 1);
                lemma_cell(next_one(d).row as int, next_one(d).column as int, 1);
                if sol.contains(d) {
                    // then the clue ruling it out would be on top, and could not be placed
                    assert(stack.last() == next_one(d));
                    assert(!g[kc]);
                    assert(c == next_one(d));
                    assert(false);
                }
                if d == c {
                    assert(s2.drop_last() =~= sol);
                    assert(added.last() == next_one(d));
                    assert(st2.last() == next_one(d));
                    assert(g2[kc] == (g[kc] && !sees(c, kc)));
                } else {
                    if s2.contains(d) {
                        let k = choose|k: int| 0 <= k < s2.len() && s2[k] == d;
                        if k < sol.len() {
                            assert(sol[k] == d);
                        }
                    }
                }
            }
            lemma_doomed_kept_out(g2, st2, s2);
            assert(dfs_result(g, stack, sol) == dfs_result(g2, st2, s2));
        } else {
            assert forall|d: Clue| #[trigger] doomed(d) implies !back.contains(d) by {
                if back.contains(d) {
                    let k = choose|k: int| 0 <= k < back.len() && back[k] == d;
                    assert(sol.len() > 0 && back == sol.drop_last());
                    assert(sol[k] == d);
                    assert(sol.contains(d));
                    assert(sol.drop_last().contains(d));
                }
            }
            match next_of(c) {
                Some(n) => {
                    lemma_potential_push(rest, n);
                    lemma_pow4_grows(rank(n), rank(c));
                    assert forall|k: int| 0 <= k < rest.push(n).len() implies Clue::valid(
                        (#[trigger] rest.push(n)[k]).row,
                        rest.push(n)[k].column,
                        rest.push(n)[k].number,
                    ) by {
                        if k < rest.len() {
                            assert(rest.push(n)[k] == stack[k]);
                        }
                    }
                    lemma_doomed_kept_out(g, rest.push(n), back);
                    assert(dfs_result(g, stack, sol) == dfs_result(g, rest.push(n), back));
                },
                None => {
                    assert forall|k: int| 0 <= k < rest.len() implies Clue::valid(
                        (#[trigger] rest[k]).row,
                        rest[k].column,
                        rest[k].number,
                    ) by {
                        assert(rest[k] == stack[k]);
                    }
                    lemma_doomed_kept_out(uncovered(g, c), rest, back);
                    assert(dfs_result(g, stack, sol) == dfs_result(uncovered(g, c), rest, back));
                },
            }
        }
    }
}

/// The search always takes back a clue of number 1 whose next clue tried
/// lies in its block (see `doomed`), so no such clue is ever among the
/// placements it returns: right after placing it, the search tries
/// number 1 in that next cell, which the placement ruled out, and that
/// failure takes the placement back.  In particular the clue it starts
/// from, number 1 in the top left cell, is never returned.
pub proof fn lemma_search_drops_doomed(clues: Seq<Clue>)
    ensures
        forall|d: Clue| #[trigger] doomed(d) ==> !dfs_result(clue_grid(clues), seq![start_clue()], Seq::empty()).contains(d),
{
    let st = seq![start_clue()];
    assert(all_valid(st));
    assert(doomed_ok(clue_grid(clues), st, Seq::empty()));
    lemma_doomed_kept_out(clue_grid(clues), st, Seq::empty());
}

/// The grid the clues leave, as a plain value.
pub closed spec fn clue_grid(clues: Seq<Clue>) -> Seq<bool> {
    Seq::new(729, |i: int| candidate(clues, i))
}

/// The clue the search starts from: number 1 in the top left cell.
pub closed spec fn start_clue() -> Clue {
    Clue { row: 0, column: 0, number: 1 }
}

/// Depth-first search over the clues, cell by cell from the top left: a
/// clue whose number its cell can still take is placed, and its
/// neighbouring cells are tried next; otherwise the next clue is tried,
/// and when there is none the clue is taken back.  The clues placed last
/// are returned; each of them is on the board.
pub fn sudoku_dfs(clues: &[Clue]) -> (r: Vec<Clue>)
    requires
        forall|k: int| 0 <= k < clues@.len() ==> Clue::valid(
            (#[trigger] clues@[k]).row_of(),
            clues@[k].column_of(),
            clues@[k].number_of(),
        ),
    ensures
        forall|k: int| 0 <= k < r@.len() ==> Clue::valid(
            (#[trigger] r@[k]).row_of(),
            r@[k].column_of(),
            r@[k].number_of(),
        ),
        r@ == dfs_result(clue_grid(clues@), seq![start_clue()], Seq::empty()),
        forall|d: Clue| #[trigger] doomed(d) ==> !r@.contains(d),
{
    proof {
        lemma_search_drops_doomed(clues@);
    }
    let mut solution: Vec<Clue> = Vec::new();
    let mut grid = init_grid(clues);
    let mut stack: Vec<Clue> = Vec::new();
    stack.push(Clue { row: 0, column: 0, number: 1 });
    let ghost target = dfs_result(clue_grid(clues@), seq![start_clue()], Seq::empty());
    proof {
        assert(grid.0@ =~= clue_grid(clues@));
        assert(stack@ =~= seq![start_clue()]);
        assert(solution@ =~= Seq::<Clue>::empty());
    }
    loop
        invariant
            grid.wf(),
            dfs_result(grid.0@, stack@, solution@) == target,
            forall|k: int| 0 <= k < stack@.len() ==> Clue::valid((#[trigger] stack@[k]).row, stack@[k].column, stack@[k].number),
            forall|k: int| 0 <= k < solution@.len() ==> Clue::valid(
                (#[trigger] solution@[k]).row,
                solution@[k].column,
                solution@[k].number,
            ),
        ensures
            solution@ == target,
            forall|k: int| 0 <= k < solution@.len() ==> Clue::valid(
                (#[trigger] solution@[k]).row,
                solution@[k].column,
                solution@[k].number,
            ),
        decreases potential(stack@),
    {
        let ghost before = stack@;
        let ghost g0 = grid.0@;
        let ghost s0 = solution@;
        proof {
            assert(all_valid(before));
        }
        let clue = match stack.pop() {
            Some(clue) => clue,
            None => {
                proof {
                    assert(before.len() == 0);
                    assert(dfs_result(g0, before, s0) == s0);
                    assert(solution@ == target);
                }
                break;
            },
        };
        proof {
            assert(stack@ =~= before.drop_last());
            assert(before.last() == clue);
            lemma_pow4_pos(rank(clue));
            assert(Clue::valid(before[before.len() - 1].row, before[before.len() - 1].column, before[before.len() - 1].number));
        }
        let ghost rest = stack@;
        let free = grid.get(clue.row, clue.column, clue.number);
        proof {
            assert(free == g0[cell(clue.row as int, clue.column as int, clue.number as int)]);
        }
        if free {
            grid.cover(clue);
            let ghost before_solution = solution@;
            solution.push(clue);
            let mut neighbors = neighbor_clues(clue);
            let ghost added = neighbors@;
            stack.append(&mut neighbors);
            proof {
                assert forall|k: int| 0 <= k < solution@.len() implies Clue::valid(
                    (#[trigger] solution@[k]).row,
                    solution@[k].column,
                    solution@[k].number,
                ) by {
                    if k < before_solution.len() {
                        assert(solution@[k] == before_solution[k]);
                    }
                }
                assert forall|k: int| 0 <= k < stack@.len() implies Clue::valid(
                    (#[trigger] stack@[k]).row,
                    stack@[k].column,
                    stack@[k].number,
                ) by {
                    if k < rest.len() {
                        assert(stack@[k] == before[k]);
                    } else {
                        assert(stack@[k] == added[k - rest.len()]);
                    }
                }
                lemma_potential_append(rest, added);
                assert(potential(before) == potential(rest) + pow4(rank(clue)));
                assert forall|k: int| 0 <= k < added.len() implies 4 * pow4(rank(#[trigger] added[k])) <= pow4(rank(clue)) by {
                    lemma_pow4_grows(rank(added[k]), rank(clue));
                }
                lemma_neighbors_light(added, pow4(rank(clue)));
                assert(grid.0@ =~= covered(g0, clue));
                assert(added == neighbors_of(clue));
                assert(stack@ =~= rest + neighbors_of(clue));
                assert(solution@ =~= s0.push(clue));
                assert(dfs_result(g0, before, s0) == dfs_result(grid.0@, stack@, solution@));
            }
        } else {
            match next_clue(clue) {
                Some(next) => {
                    stack.push(next);
                    proof {
                        lemma_potential_push(rest, next);
                        lemma_pow4_grows(rank(next), rank(clue));
                        lemma_pow4_pos(rank(next));
                        assert forall|k: int| 0 <= k < stack@.len() implies Clue::valid(
                            (#[trigger] stack@[k]).row,
                            stack@[k].column,
                            stack@[k].number,
                        ) by {
                            if k < rest.len() {
                                assert(stack@[k] == before[k]);
                            }
                        }
                    }
                },
                None => {
                    grid.uncover(clue);
                    proof {
                        assert(grid.0@ =~= uncovered(g0, clue));
                    }
                },
            }
            let ghost before_solution = solution@;
            solution.pop();
            proof {
                assert forall|k: int| 0 <= k < solution@.len() implies Clue::valid(
                    (#[trigger] solution@[k]).row,
                    solution@[k].column,
                    solution@[k].number,
                ) by {
                    assert(solution@[k] == before_solution[k]);
                }
                assert(solution@ == (if s0.len() > 0 { s0.drop_last() } else { s0 }));
                match next_of(clue) {
                    Some(n) => {
                        assert(stack@ =~= rest.push(n));
                        assert(grid.0@ == g0);
                    },
                    None => {
                        assert(stack@ == rest);
                    },
                }
                assert(dfs_result(g0, before, s0) == dfs_result(grid.0@, stack@, solution@));
            }
        }
    }
    solution
}

/// At most three clues, each weighing a quarter of `w` or less, weigh less
/// than `w`.
proof fn lemma_neighbors_light(a: Seq<Clue>, w: nat)
    requires
        a.len() <= 3,
        w >= 1,
        forall|k: int| 0 <= k < a.len() ==> 4 * pow4(rank(#[trigger] a[k])) <= w,
    ensures
        potential(a) < w,
{
    reveal_with_fuel(potential, 4);
    if a.len() >= 1 {
        assert(4 * pow4(rank(a[0])) <= w);
    }
    if a.len() >= 2 {
        assert(4 * pow4(rank(a[1])) <= w);
    }
    if a.len() >= 3 {
        assert(4 * pow4(rank(a[2])) <= w);
    }
    if a.len() == 1 {
        assert(a.drop_last() =~= Seq::<Clue>::empty());
    } else if a.len() == 2 {
        assert(a.drop_last().drop_last() =~= Seq::<Clue>::empty());
    } else if a.len() == 3 {
        assert(a.drop_last().drop_last().drop_last() =~= Seq::<Clue>::empty());
    }
}

/// An item is on the board: its row, column, index below 9, its number
/// from 1 to 9.
pub closed spec fn item_ok(it: Item) -> bool {
    match it {
        Item::Position(p) => p.row < 9 && p.column < 9,
        Item::Row(r) => r.index < 9 && 1 <= r.number <= 9,
        Item::Column(c) => c.index < 9 && 1 <= c.number <= 9,
        Item::Block(b) => b.index < 9 && 1 <= b.number <= 9,
    }
}

/// The place of an item among the 324 items of `make_items`.
pub closed spec fn item_code(it: Item) -> int {
    match it {
        Item::Position(p) => 36 * p.row + p.column,
        Item::Row(r) => 36 * r.index + 9 + 3 * (r.number - 1),
        Item::Column(c) => 36 * c.index + 10 + 3 * (c.number - 1),
        Item::Block(b) => 36 * b.index + 11 + 3 * (b.number - 1),
    }
}

/// The option of candidate `i`: its cell, and its number in its row, its
/// column and its block.
pub closed spec fn option_of(i: int) -> Seq<Item> {
    let r = cell_row(i);
    let c = cell_column(i);
    let n = cell_number(i);
    seq![
        Item::Position(PositionItem { row: r as u8, column: c as u8 }),
        Item::Row(RowItem { index: r as u8, number: n as u8 }),
        Item::Column(ColumnItem { index: c as u8, number: n as u8 }),
        Item::Block(BlockItem { index: block_of(r, c) as u8, number: n as u8 }),
    ]
}

/// The places of the items of the option of candidate `i`.
spec fn option_codes(i: int) -> Seq<usize> {
    option_of(i).map_values(|it: Item| item_code(it) as usize)
}

/// An item's place is below 324; the place over 36 gives its index, and the
/// rest tells its kind and number.
proof fn lemma_code_parts(it: Item)
    requires
        item_ok(it),
    ensures
        0 <= item_code(it) < 324,
        match it {
            Item::Position(p) => item_code(it) / 36 == p.row && item_code(it) % 36 == p.column,
            Item::Row(r) => item_code(it) / 36 == r.index && item_code(it) % 36 == 9 + 3 * (r.number - 1),
            Item::Column(c) => item_code(it) / 36 == c.index && item_code(it) % 36 == 10 + 3 * (c.number - 1),
            Item::Block(b) => item_code(it) / 36 == b.index && item_code(it) % 36 == 11 + 3 * (b.number - 1),
        },
{
    match it {
        Item::Position(p) => {
            let (a, o) = (p.row as int, p.column as int);
            assert((36 * a + o) / 36 == a && (36 * a + o) % 36 == o && 36 * a + o < 324) by (nonlinear_arith)
                requires 0 <= a < 9, 0 <= o < 9;
        },
        Item::Row(r) => {
            let (a, o) = (r.index as int, 9 + 3 * (r.number - 1));
            assert((36 * a + o) / 36 == a && (36 * a + o) % 36 == o && 36 * a + o < 324) by (nonlinear_arith)
                requires 0 <= a < 9, 9 <= o < 36;
        },
        Item::Column(c) => {
            let (a, o) = (c.index as int, 10 + 3 * (c.number - 1));
            assert((36 * a + o) / 36 == a && (36 * a + o) % 36 == o && 36 * a + o < 324) by (nonlinear_arith)
                requires 0 <= a < 9, 9 <= o < 36;
        },
        Item::Block(b) => {
            let (a, o) = (b.index as int, 11 + 3 * (b.number - 1));
            assert((36 * a + o) / 36 == a && (36 * a + o) % 36 == o && 36 * a + o < 324) by (nonlinear_arith)
                requires 0 <= a < 9, 9 <= o < 36;
        },
    }
}

/// Items on the board with the same place are the same.
proof fn lemma_code_injective(a: Item, b: Item)
    requires
        item_ok(a),
        item_ok(b),
        item_code(a) == item_code(b),
    ensures
        a == b,
{
    lemma_code_parts(a);
    lemma_code_parts(b);
}

/// Every place below 324 is the place of an item on the board.
proof fn lemma_code_onto(x: int) -> (it: Item)
    requires
        0 <= x < 324,
    ensures
        item_ok(it),
        item_code(it) == x,
{
    let a = x / 36;
    let o = x % 36;
    assert(0 <= a < 9 && 0 <= o < 36 && x == 36 * a + o) by (nonlinear_arith)
        requires 0 <= x < 324, a == x / 36, o == x % 36;
    if o < 9 {
        Item::Position(PositionItem { row: a as u8, column: o as u8 })
    } else {
        let m = o - 9;
        let k = m % 3;
        let n = m / 3 + 1;
        assert(0 <= k < 3 && 1 <= n <= 9 && m == 3 * (n - 1) + k) by (nonlinear_arith)
            requires 0 <= m < 27, k == m % 3, n == m / 3 + 1;
        if k == 0 {
            Item::Row(RowItem { index: a as u8, number: n as u8 })
        } else if k == 1 {
            Item::Column(ColumnItem { index: a as u8, number: n as u8 })
        } else {
            Item::Block(BlockItem { index: a as u8, number: n as u8 })
        }
    }
}

/// The blocks of the board are 0 to 8.
proof fn lemma_block_range(r: int, c: int)
    requires
        0 <= r < 9,
        0 <= c < 9,
    ensures
        0 <= block_of(r, c) < 9,
{
    assert(0 <= 3 * (r / 3) + c / 3 < 9) by (nonlinear_arith)
        requires 0 <= r < 9, 0 <= c < 9;
}

/// The items of an option are on the board, at distinct places below 324.
proof fn lemma_option_ok(i: int)
    requires
        0 <= i < 729,
    ensures
        forall|k: int| 0 <= k < 4 ==> item_ok(#[trigger] option_of(i)[k]),
        option_of(i).len() == 4,
        option_codes(i).len() == 4,
        forall|k: int| 0 <= k < 4 ==> (#[trigger] option_codes(i)[k]) == item_code(option_of(i)[k]) && item_code(option_of(i)[k]) < 324,
        option_codes(i).no_duplicates(),
{
    lemma_decode(i);
    lemma_block_range(cell_row(i), cell_column(i));
    let o = option_of(i);
    assert forall|k: int| 0 <= k < 4 implies (#[trigger] option_codes(i)[k]) == item_code(o[k]) && item_code(o[k]) < 324 by {
        lemma_code_parts(o[k]);
    }
    assert forall|a: int, b: int| 0 <= a < 4 && 0 <= b < 4 && a != b implies option_codes(i)[a] != option_codes(i)[b] by {
        if option_codes(i)[a] == option_codes(i)[b] {
            lemma_code_injective(o[a], o[b]);
        }
    }
}

/// An item on the board sits at its place among the items of `make_items`.
proof fn lemma_items_at(items: Seq<Item>, it: Item)
    requires
        items.len() == 324,
        forall|i: int, j: int| 0 <= i < 9 && 0 <= j < 9 ==> #[trigger] items[36 * i + j] == Item::Position(
            PositionItem { row: i as u8, column: j as u8 },
        ),
        forall|i: int, n: int| 0 <= i < 9 && 1 <= n <= 9 ==> {
            &&& #[trigger] items[36 * i + 9 + 3 * (n - 1)] == Item::Row(RowItem { index: i as u8, number: n as u8 })
            &&& items[36 * i + 10 + 3 * (n - 1)] == Item::Column(ColumnItem { index: i as u8, number: n as u8 })
            &&& items[36 * i + 11 + 3 * (n - 1)] == Item::Block(BlockItem { index: i as u8, number: n as u8 })
        },
        item_ok(it),
    ensures
        items[item_code(it)] == it,
{
    match it {
        Item::Position(p) => {
            assert(items[36 * (p.row as int) + (p.column as int)] == it);
        },
        Item::Row(r) => {
            assert(items[36 * (r.index as int) + 9 + 3 * (r.number - 1)] == it);
        },
        Item::Column(c) => {
            assert(items[36 * (c.index as int) + 9 + 3 * (c.number - 1)] == Item::Row(RowItem { index: c.index, number: c.number }));
        },
        Item::Block(b) => {
            assert(items[36 * (b.index as int) + 9 + 3 * (b.number - 1)] == Item::Row(RowItem { index: b.index, number: b.number }));
        },
    }
}

/// Candidate `i` comes before (`n`, `r`, `c`) in the order number, row,
/// column.
spec fn visited(i: int, n: int, r: int, c: int) -> bool {
    ||| cell_number(i) < n
    ||| (cell_number(i) == n && cell_row(i) < r)
    ||| (cell_number(i) == n && cell_row(i) == r && cell_column(i) < c)
}

/// Distinct numbers below `m` are at most `m`.
proof fn lemma_distinct_len(s: Seq<int>, m: int)
    requires
        s.no_duplicates(),
        forall|k: int| 0 <= k < s.len() ==> 0 <= #[trigger] s[k] < m,
        0 <= m,
    ensures
        s.len() <= m,
{
    s.unique_seq_to_set();
    vstd::set_lib::lemma_int_range(0, m);
    assert(s.to_set().subset_of(vstd::set_lib::set_int_range(0, m))) by {
        assert forall|x: int| s.to_set().contains(x) implies vstd::set_lib::set_int_range(0, m).contains(x) by {
            let k = choose|k: int| 0 <= k < s.len() && s[k] == x;
        }
    }
    vstd::set_lib::lemma_len_subset(s.to_set(), vstd::set_lib::set_int_range(0, m));
}

/// The options the grid allows, in the order number, row, column, as the
/// places of their items, with the candidates they stand for.
fn candidate_sets(grid: &Grid, Ghost(clues): Ghost<Seq<Clue>>) -> (r: (Vec<Vec<usize>>, Ghost<Seq<int>>))
    requires
        grid.wf(),
        forall|i: int| 0 <= i < 729 ==> #[trigger] grid.0@[i] == candidate(clues, i),
    ensures
        r.0@.len() == r.1@.len(),
        r.0@.len() <= 729,
        forall|k: int| 0 <= k < r.0@.len() ==> candidate(clues, #[trigger] r.1@[k]) && r.0@[k]@ == option_codes(r.1@[k]),
        r.1@.no_duplicates(),
        forall|i: int| #[trigger] candidate(clues, i) ==> r.1@.contains(i),
{
    let mut sets: Vec<Vec<usize>> = Vec::new();
    let ghost mut which: Seq<int> = Seq::empty();
    let mut n: u8 = 1;
    while n <= 9
        invariant
            1 <= n <= 10,
            grid.wf(),
            forall|i: int| 0 <= i < 729 ==> #[trigger] grid.0@[i] == candidate(clues, i),
            sets@.len() == which.len(),
            forall|k: int| 0 <= k < sets@.len() ==> candidate(clues, #[trigger] which[k]) && sets@[k]@ == option_codes(which[k]),
            which.no_duplicates(),
            forall|k: int| 0 <= k < which.len() ==> visited(#[trigger] which[k], n as int, 0, 0),
            forall|i: int| #[trigger] candidate(clues, i) && visited(i, n as int, 0, 0) ==> which.contains(i),
        decreases 10 - n,
    {
        let mut r: u8 = 0;
        while r < 9
            invariant
                1 <= n <= 9,
                r <= 9,
                grid.wf(),
                forall|i: int| 0 <= i < 729 ==> #[trigger] grid.0@[i] == candidate(clues, i),
                sets@.len() == which.len(),
                forall|k: int| 0 <= k < sets@.len() ==> candidate(clues, #[trigger] which[k]) && sets@[k]@ == option_codes(which[k]),
                which.no_duplicates(),
                forall|k: int| 0 <= k < which.len() ==> visited(#[trigger] which[k], n as int, r as int, 0),
                forall|i: int| #[trigger] candidate(clues, i) && visited(i, n as int, r as int, 0) ==> which.contains(i),
            decreases 9 - r,
        {
            let mut c: u8 = 0;
            while c < 9
                invariant
                    1 <= n <= 9,
                    r < 9,
                    c <= 9,
                    grid.wf(),
                    forall|i: int| 0 <= i < 729 ==> #[trigger] grid.0@[i] == candidate(clues, i),
                    sets@.len() == which.len(),
                    forall|k: int| 0 <= k < sets@.len() ==> candidate(clues, #[trigger] which[k]) && sets@[k]@ == option_codes(which[k]),
                    which.no_duplicates(),
                    forall|k: int| 0 <= k < which.len() ==> visited(#[trigger] which[k], n as int, r as int, c as int),
                    forall|i: int| #[trigger] candidate(clues, i) && visited(i, n as int, r as int, c as int) ==> which.contains(i),
                decreases 9 - c,
            {
                let ghost i = cell(r as int, c as int, n as int);
                proof {
                    lemma_cell(r as int, c as int, n as int);
                }
                let allowed = grid.get(r, c, n);
                proof {
                    assert(allowed == grid.0@[i]);
                    assert(allowed == candidate(clues, i));
                }
                let ghost w0 = which;
                if allowed {
                    let b = get_block_index(r, c);
                    let ru = r as usize;
                    let cu = c as usize;
                    let nu = n as usize;
                    let bu = b as usize;
                    let set = vec![36 * ru + cu, 36 * ru + 9 + 3 * (nu - 1), 36 * cu + 10 + 3 * (nu - 1), 36 * bu + 11 + 3 * (nu - 1)];
                    proof {
                        lemma_option_ok(i);
                        assert(set@ =~= option_codes(i));
                        assert(!which.contains(i)) by {
                            if which.contains(i) {
                                let k = choose|k: int| 0 <= k < which.len() && which[k] == i;
                                assert(visited(which[k], n as int, r as int, c as int));
                            }
                        }
                    }
                    let ghost before = which;
                    sets.push(set);
                    proof {
                        which = which.push(i);
                        assert forall|a: int, b: int| 0 <= a < which.len() && 0 <= b < which.len() && a != b implies which[a] != which[b] by {
                            if a == before.len() {
                                assert(before.contains(before[b]));
                            } else if b == before.len() {
                                assert(before.contains(before[a]));
                            }
                        }
                    }
                }
                proof {
                    assert(allowed ==> which == w0.push(i));
                    assert(!allowed ==> which == w0);
                    assert forall|i2: int| #[trigger] candidate(clues, i2) && visited(i2, n as int, r as int, c + 1) implies which.contains(i2) by {
                        if !visited(i2, n as int, r as int, c as int) {
                            lemma_decode(i2);
                            assert(i2 == i);
                            assert(allowed);
                            assert(which[which.len() - 1] == i);
                        } else {
                            assert(w0.contains(i2));
                            let k = choose|k: int| 0 <= k < w0.len() && w0[k] == i2;
                            assert(which[k] == i2);
                        }
                    }
                }
                c += 1;
            }
            proof {
                assert forall|i2: int| #[trigger] candidate(clues, i2) && visited(i2, n as int, r + 1, 0) implies which.contains(i2) by {
                    lemma_decode(i2);
                    assert(visited(i2, n as int, r as int, 9));
                }
                assert forall|k: int| 0 <= k < which.len() implies visited(#[trigger] which[k], n as int, r + 1, 0) by {
                    lemma_decode(which[k]);
                }
            }
            r += 1;
        }
        proof {
            assert forall|i2: int| #[trigger] candidate(clues, i2) && visited(i2, n + 1, 0, 0) implies which.contains(i2) by {
                lemma_decode(i2);
                assert(visited(i2, n as int, 9, 0));
            }
            assert forall|k: int| 0 <= k < which.len() implies visited(#[trigger] which[k], n + 1, 0, 0) by {
                lemma_decode(which[k]);
            }
        }
        n += 1;
    }
    proof {
        assert forall|i: int| #[trigger] candidate(clues, i) implies which.contains(i) by {
            lemma_decode(i);
            assert(visited(i, 10, 0, 0));
        }
        lemma_distinct_len(which, 729);
    }
    (sets, Ghost(which))
}

/// `s` read from place `q` on, and then from its start up to `q`.
pub open spec fn item_rotation(s: Seq<Item>, q: int) -> Seq<Item> {
    s.subrange(q, s.len() as int) + s.subrange(0, q)
}

/// The candidates `t` cover the board exactly: each is a candidate, every
/// item on the board is in the option of one of them, and no item is in
/// the options of two.
pub open spec fn sudoku_cover(clues: Seq<Clue>, t: Set<int>) -> bool {
    &&& t.finite()
    &&& forall|i: int| #[trigger] t.contains(i) ==> candidate(clues, i)
    &&& forall|it: Item| #[trigger] item_ok(it) ==> exists|i: int| t.contains(i) && #[trigger] option_of(i).contains(it)
    &&& forall|i1: int, i2: int, it: Item|
        t.contains(i1) && t.contains(i2) && #[trigger] option_of(i1).contains(it) && #[trigger] option_of(i2).contains(it) ==> i1 == i2
}

/// Entry `k` of `sol` is the option of candidate `order[k]`, read from one
/// of its items on, and no candidate comes twice.
pub open spec fn order_lists(sol: Seq<Vec<Item>>, order: Seq<int>) -> bool {
    &&& order.len() == sol.len()
    &&& order.no_duplicates()
    &&& forall|k: int|
        0 <= k < sol.len() ==> 0 <= #[trigger] order[k] < 729 && exists|q: int| 0 <= q < 4 && sol[k]@ == item_rotation(option_of(order[k]), q)
}

/// `sol` lists the options of the candidates `t`, one entry each.
pub open spec fn lists_cover(sol: Seq<Vec<Item>>, t: Set<int>) -> bool {
    exists|order: Seq<int>| #[trigger] order_lists(sol, order) && order.to_set() == t
}

/// The places of all 324 items, in order: the primary items.
spec fn all_codes() -> Seq<usize> {
    Seq::new(324, |k: int| k as usize)
}

/// What `candidate_sets` gives: one set of item places per candidate.
spec fn numbered_sets(clues: Seq<Clue>, sets: Seq<Vec<usize>>, which: Seq<int>) -> bool {
    &&& sets.len() == which.len()
    &&& sets.len() <= 729
    &&& forall|k: int| 0 <= k < sets.len() ==> candidate(clues, #[trigger] which[k]) && sets[k]@ == option_codes(which[k])
    &&& which.no_duplicates()
    &&& forall|i: int| #[trigger] candidate(clues, i) ==> which.contains(i)
}

/// The sets of item places are well named, and small enough to search.
proof fn lemma_sets_named(clues: Seq<Clue>, sets: Seq<Vec<usize>>, which: Seq<int>)
    requires
        numbered_sets(clues, sets, which),
    ensures
        well_named(sets, all_codes() + Seq::<usize>::empty()),
        total_len(view_sets(sets)) == 4 * sets.len(),
        all_codes().no_duplicates(),
        all_codes().len() > 0,
{
    let names = all_codes() + Seq::<usize>::empty();
    assert forall|j: int, q: int| 0 <= j < sets.len() && 0 <= q < sets[j]@.len() implies names.contains(#[trigger] sets[j]@[q]) by {
        lemma_option_ok(which[j]);
        let x = sets[j]@[q];
        assert(names[x as int] == x);
    }
    assert forall|j: int| 0 <= j < sets.len() implies (#[trigger] sets[j])@.no_duplicates() by {
        lemma_option_ok(which[j]);
    }
    lemma_total_four(sets, which, clues);
}

/// Every set holds four item places.
proof fn lemma_total_four(sets: Seq<Vec<usize>>, which: Seq<int>, clues: Seq<Clue>)
    requires
        sets.len() == which.len(),
        forall|k: int| 0 <= k < sets.len() ==> candidate(clues, #[trigger] which[k]) && sets[k]@ == option_codes(which[k]),
    ensures
        total_len(view_sets(sets)) == 4 * sets.len(),
    decreases sets.len(),
{
    if sets.len() > 0 {
        let n = sets.len() - 1;
        lemma_total_four(sets.drop_last(), which.drop_last(), clues);
        assert(view_sets(sets).drop_last() =~= view_sets(sets.drop_last()));
        lemma_option_ok(which[n]);
        assert(view_sets(sets).last() == sets[n]@);
    }
}

/// An item place in a candidate's set is the place of one of its items.
proof fn lemma_code_in_option(i: int, x: usize) -> (it: Item)
    requires
        0 <= i < 729,
        option_codes(i).contains(x),
    ensures
        item_ok(it),
        item_code(it) == x,
        option_of(i).contains(it),
{
    lemma_option_ok(i);
    let k = choose|k: int| 0 <= k < 4 && option_codes(i)[k] == x;
    option_of(i)[k]
}

/// An item of a candidate's option has its place in the candidate's set.
proof fn lemma_item_in_codes(i: int, it: Item)
    requires
        0 <= i < 729,
        option_of(i).contains(it),
    ensures
        item_ok(it),
        option_codes(i).contains(item_code(it) as usize),
{
    lemma_option_ok(i);
    let k = choose|k: int| 0 <= k < 4 && option_of(i)[k] == it;
    assert(option_codes(i)[k] == item_code(it));
}

/// The candidates of the sets at places `js`.
spec fn candidates_of(which: Seq<int>, js: Set<int>) -> Set<int> {
    js.map(|j: int| which[j])
}

/// A solution over the item places is an exact cover of the board.
#[verifier::spinoff_prover]
#[verifier::rlimit(30)]
proof fn lemma_sudoku_sound(clues: Seq<Clue>, sets: Seq<Vec<usize>>, which: Seq<int>, js: Set<int>)
    requires
        numbered_sets(clues, sets, which),
        item_solution(sets, all_codes(), js),
    ensures
        sudoku_cover(clues, candidates_of(which, js)),
{
    let t = candidates_of(which, js);
    let f = |j: int| which[j];
    js.lemma_map_finite(f);
    assert forall|i: int| #[trigger] t.contains(i) implies candidate(clues, i) by {
        let j = choose|j: int| js.contains(j) && i == f(j);
    }
    assert forall|it: Item| #[trigger] item_ok(it) implies exists|i: int| t.contains(i) && #[trigger] option_of(i).contains(it) by {
        lemma_code_parts(it);
        let x = item_code(it) as usize;
        assert(all_codes()[x as int] == x);
        assert(all_codes().contains(x));
        let j = choose|j: int| js.contains(j) && #[trigger] sets[j]@.contains(x);
        let i = which[j];
        let it2 = lemma_code_in_option(i, x);
        lemma_code_injective(it, it2);
        assert(t.contains(f(j)));
    }
    assert forall|i1: int, i2: int, it: Item|
        t.contains(i1) && t.contains(i2) && #[trigger] option_of(i1).contains(it) && #[trigger] option_of(i2).contains(it) implies i1 == i2 by {
        let j1 = choose|j: int| js.contains(j) && i1 == f(j);
        let j2 = choose|j: int| js.contains(j) && i2 == f(j);
        lemma_item_in_codes(i1, it);
        lemma_item_in_codes(i2, it);
        let x = item_code(it) as usize;
        assert(sets[j1]@.contains(x) && sets[j2]@.contains(x));
    }
}

/// An exact cover of the board is a solution over the item places, by the
/// sets of its candidates.
#[verifier::spinoff_prover]
#[verifier::rlimit(30)]
proof fn lemma_sudoku_complete(clues: Seq<Clue>, sets: Seq<Vec<usize>>, which: Seq<int>, t: Set<int>) -> (js: Set<int>)
    requires
        numbered_sets(clues, sets, which),
        sudoku_cover(clues, t),
    ensures
        item_solution(sets, all_codes(), js),
        candidates_of(which, js) == t,
{
    let js = Set::new(|j: int| 0 <= j < which.len() && t.contains(which[j]));
    let f = |j: int| which[j];
    assert(js.finite()) by {
        vstd::set_lib::lemma_int_range(0, which.len() as int);
        assert(js.subset_of(vstd::set_lib::set_int_range(0, which.len() as int)));
        vstd::set_lib::lemma_len_subset(js, vstd::set_lib::set_int_range(0, which.len() as int));
    }
    assert forall|j: int| #[trigger] js.contains(j) implies 0 <= j < sets.len() && has_primary(sets[j]@, all_codes()) by {
        lemma_option_ok(which[j]);
        let x = sets[j]@[0];
        assert(all_codes()[x as int] == x);
        assert(all_codes().contains(sets[j]@[0]));
    }
    assert forall|x: usize| #[trigger] all_codes().contains(x) implies exists|j: int| js.contains(j) && #[trigger] sets[j]@.contains(x) by {
        let k = choose|k: int| 0 <= k < 324 && all_codes()[k] == x;
        let it = lemma_code_onto(x as int);
        let i = choose|i: int| t.contains(i) && #[trigger] option_of(i).contains(it);
        assert(candidate(clues, i));
        let j = choose|j: int| 0 <= j < which.len() && which[j] == i;
        lemma_item_in_codes(i, it);
        assert(js.contains(j));
        assert(sets[j]@.contains(x));
    }
    assert forall|j1: int, j2: int, x: usize|
        js.contains(j1) && js.contains(j2) && #[trigger] sets[j1]@.contains(x) && #[trigger] sets[j2]@.contains(x) implies j1 == j2 by {
        let a = lemma_code_in_option(which[j1], x);
        let b = lemma_code_in_option(which[j2], x);
        lemma_code_injective(a, b);
        assert(which[j1] == which[j2]);
        if j1 != j2 {
            assert(which.no_duplicates());
        }
    }
    assert(candidates_of(which, js) =~= t) by {
        assert forall|i: int| t.contains(i) implies candidates_of(which, js).contains(i) by {
            assert(candidate(clues, i));
            let j = choose|j: int| 0 <= j < which.len() && which[j] == i;
            assert(js.contains(j) && f(j) == i);
        }
    }
    js
}

/// What `make_items` gives: every item on the board at its place.
spec fn items_table(items: Seq<Item>) -> bool {
    &&& items.len() == 324
    &&& forall|i: int, j: int| 0 <= i < 9 && 0 <= j < 9 ==> #[trigger] items[36 * i + j] == Item::Position(
        PositionItem { row: i as u8, column: j as u8 },
    )
    &&& forall|i: int, n: int| 0 <= i < 9 && 1 <= n <= 9 ==> {
        &&& #[trigger] items[36 * i + 9 + 3 * (n - 1)] == Item::Row(RowItem { index: i as u8, number: n as u8 })
        &&& items[36 * i + 10 + 3 * (n - 1)] == Item::Column(ColumnItem { index: i as u8, number: n as u8 })
        &&& items[36 * i + 11 + 3 * (n - 1)] == Item::Block(BlockItem { index: i as u8, number: n as u8 })
    }
}

/// The items at the places `v`.
fn decode_entry(items: &Vec<Item>, v: &Vec<usize>) -> (out: Vec<Item>)
    requires
        items@.len() == 324,
        forall|k: int| 0 <= k < v@.len() ==> #[trigger] v@[k] < 324,
    ensures
        out@.len() == v@.len(),
        forall|k: int| 0 <= k < v@.len() ==> #[trigger] out@[k] == items@[v@[k] as int],
{
    let mut out: Vec<Item> = Vec::new();
    let mut k: usize = 0;
    while k < v.len()
        invariant
            k <= v@.len(),
            out@.len() == k,
            items@.len() == 324,
            forall|k: int| 0 <= k < v@.len() ==> #[trigger] v@[k] < 324,
            forall|m: int| 0 <= m < k ==> #[trigger] out@[m] == items@[v@[m] as int],
        decreases v@.len() - k,
    {
        proof {
            assert(v@[k as int] < 324);
        }
        out.push(items[v[k]]);
        k += 1;
    }
    out
}

/// The items at the places of each entry of a solution.
fn decode_solution(items: &Vec<Item>, sol: &Vec<Vec<usize>>) -> (out: Vec<Vec<Item>>)
    requires
        items@.len() == 324,
        forall|k: int, m: int| 0 <= k < sol@.len() && 0 <= m < sol@[k]@.len() ==> #[trigger] sol@[k]@[m] < 324,
    ensures
        out@.len() == sol@.len(),
        forall|k: int| 0 <= k < sol@.len() ==> (#[trigger] out@[k])@ == sol@[k]@.map_values(|x: usize| items@[x as int]),
{
    let mut out: Vec<Vec<Item>> = Vec::new();
    let mut k: usize = 0;
    while k < sol.len()
        invariant
            k <= sol@.len(),
            out@.len() == k,
            items@.len() == 324,
            forall|k: int, m: int| 0 <= k < sol@.len() && 0 <= m < sol@[k]@.len() ==> #[trigger] sol@[k]@[m] < 324,
            forall|j: int| 0 <= j < k ==> (#[trigger] out@[j])@ == sol@[j]@.map_values(|x: usize| items@[x as int]),
        decreases sol@.len() - k,
    {
        proof {
            assert forall|m: int| 0 <= m < sol@[k as int]@.len() implies #[trigger] sol@[k as int]@[m] < 324 by {}
        }
        let e = decode_entry(items, &sol[k]);
        proof {
            assert(e@ =~= sol@[k as int]@.map_values(|x: usize| items@[x as int]));
        }
        out.push(e);
        k += 1;
    }
    out
}

/// A listed solution over item places, read back as items, lists the
/// options of its candidates.
proof fn lemma_decoded_lists(
    items: Seq<Item>,
    sets: Seq<Vec<usize>>,
    which: Seq<int>,
    clues: Seq<Clue>,
    sol: Seq<Vec<usize>>,
    order: Seq<int>,
    out: Seq<Vec<Item>>,
)
    requires
        items_table(items),
        numbered_sets(clues, sets, which),
        lists_in_order(sets, sol, order),
        out.len() == sol.len(),
        forall|k: int| 0 <= k < sol.len() ==> (#[trigger] out[k])@ == sol[k]@.map_values(|x: usize| items[x as int]),
    ensures
        order_lists(out, Seq::new(order.len(), |k: int| which[order[k]])),
        Seq::new(order.len(), |k: int| which[order[k]]).to_set() == candidates_of(which, order.to_set()),
{
    let o2 = Seq::new(order.len(), |k: int| which[order[k]]);
    assert forall|a: int, b: int| 0 <= a < o2.len() && 0 <= b < o2.len() && a != b implies o2[a] != o2[b] by {
        assert(order[a] != order[b]);
        assert(which.no_duplicates());
    }
    assert forall|k: int| 0 <= k < out.len() implies 0 <= #[trigger] o2[k] < 729 && exists|q: int|
        0 <= q < 4 && out[k]@ == item_rotation(option_of(o2[k]), q) by {
        let j = order[k];
        let i = which[j];
        assert(candidate(clues, i));
        lemma_option_ok(i);
        let q = choose|q: int| 0 <= q < sets[j]@.len() && sol[k]@ == rotation(sets[j]@, q);
        let rot = item_rotation(option_of(i), q);
        assert forall|m: int| 0 <= m < 4 implies #[trigger] out[k]@[m] == rot[m] by {
            let p = if m < 4 - q { q + m } else { m - (4 - q) };
            assert(sol[k]@[m] == option_codes(i)[p]);
            lemma_items_at(items, option_of(i)[p]);
        }
        assert(out[k]@ =~= rot);
    }
    let f = |j: int| which[j];
    assert(o2.to_set() =~= candidates_of(which, order.to_set())) by {
        assert forall|i: int| o2.to_set().contains(i) implies candidates_of(which, order.to_set()).contains(i) by {
            let k = choose|k: int| 0 <= k < o2.len() && o2[k] == i;
            assert(order.to_set().contains(order[k]) && f(order[k]) == i);
        }
        assert forall|i: int| candidates_of(which, order.to_set()).contains(i) implies o2.to_set().contains(i) by {
            let j = choose|j: int| order.to_set().contains(j) && i == f(j);
            let k = choose|k: int| 0 <= k < order.len() && order[k] == j;
            assert(o2[k] == i);
        }
    }
}

/// `sol` lists the options of an exact cover of the board.
pub open spec fn solved_by(clues: Seq<Clue>, sol: Seq<Vec<Item>>) -> bool {
    exists|t: Set<int>| #[trigger] sudoku_cover(clues, t) && lists_cover(sol, t)
}

/// Entry `c` of `sols` lists the options of the candidates `orders[c]`,
/// an exact cover of the board, and no two entries list the same
/// candidates.
pub open spec fn covers_listed_apart(clues: Seq<Clue>, sols: Seq<Vec<Vec<Item>>>, orders: Seq<Seq<int>>) -> bool {
    &&& orders.len() == sols.len()
    &&& forall|c: int|
        0 <= c < sols.len() ==> #[trigger] order_lists(sols[c]@, orders[c]) && sudoku_cover(clues, orders[c].to_set())
    &&& forall|c1: int, c2: int| 0 <= c1 < c2 < sols.len() ==> (#[trigger] orders[c1]).to_set() != (#[trigger] orders[c2]).to_set()
}

/// No two entries of `sols` list the same exact cover.
pub open spec fn covers_apart(clues: Seq<Clue>, sols: Seq<Vec<Vec<Item>>>) -> bool {
    exists|orders: Seq<Seq<int>>| #[trigger] covers_listed_apart(clues, sols, orders)
}

/// Distinct sets of places stand for distinct candidates.
proof fn lemma_candidates_apart(which: Seq<int>, a: Set<int>, b: Set<int>)
    requires
        which.no_duplicates(),
        forall|j: int| #[trigger] a.contains(j) ==> 0 <= j < which.len(),
        forall|j: int| #[trigger] b.contains(j) ==> 0 <= j < which.len(),
        a != b,
    ensures
        candidates_of(which, a) != candidates_of(which, b),
{
    let f = |j: int| which[j];
    if candidates_of(which, a) == candidates_of(which, b) {
        assert forall|j: int| a.contains(j) <==> b.contains(j) by {
            if a.contains(j) {
                assert(candidates_of(which, a).contains(f(j)));
                let j2 = choose|j2: int| b.contains(j2) && f(j2) == f(j);
            }
            if b.contains(j) {
                assert(candidates_of(which, b).contains(f(j)));
                let j2 = choose|j2: int| a.contains(j2) && f(j2) == f(j);
            }
        }
        assert(a =~= b);
    }
}

/// Each entry of `out` is the items at the places of the entry of `sol`.
spec fn decodes(items: Seq<Item>, sol: Seq<Vec<usize>>, out: Seq<Vec<Item>>) -> bool {
    &&& out.len() == sol.len()
    &&& forall|k: int| 0 <= k < sol.len() ==> (#[trigger] out[k])@ == sol[k]@.map_values(|x: usize| items[x as int])
}

/// The places of a listed solution are below 324.
proof fn lemma_listed_codes(clues: Seq<Clue>, sets: Seq<Vec<usize>>, which: Seq<int>, sol: Seq<Vec<usize>>, order: Seq<int>)
    requires
        numbered_sets(clues, sets, which),
        lists_in_order(sets, sol, order),
    ensures
        forall|k: int, m: int| 0 <= k < sol.len() && 0 <= m < sol[k]@.len() ==> #[trigger] sol[k]@[m] < 324,
{
    assert forall|k: int, m: int| 0 <= k < sol.len() && 0 <= m < sol[k]@.len() implies #[trigger] sol[k]@[m] < 324 by {
        let j = order[k];
        let i = which[j];
        assert(candidate(clues, i));
        lemma_option_ok(i);
        let q = choose|q: int| 0 <= q < sets[j]@.len() && sol[k]@ == rotation(sets[j]@, q);
        let p = if m < 4 - q { q + m } else { m - (4 - q) };
        assert(sol[k]@[m] == option_codes(i)[p]);
    }
}

/// Every way to fill the board by exact cover: the items are the cells and,
/// for each number, the rows, columns and blocks; the options are the
/// candidates no clue sees, in the order number, row, column; each
/// solution lists the options of its candidates, each read from the item
/// of the column it was chosen through, as the search of `dlx_iter` finds
/// them.
pub fn sudoku_dlx(clues: &[Clue]) -> (r: Vec<Vec<Vec<Item>>>)
    requires
        forall|k: int| 0 <= k < clues@.len() ==> Clue::valid(
            (#[trigger] clues@[k]).row_of(),
            clues@[k].column_of(),
            clues@[k].number_of(),
        ),
    ensures
        forall|c: int| 0 <= c < r@.len() ==> solved_by(clues@, #[trigger] r@[c]@),
        forall|t: Set<int>| #[trigger] sudoku_cover(clues@, t) ==> exists|c: int| 0 <= c < r@.len() && lists_cover(#[trigger] r@[c]@, t),
        covers_apart(clues@, r@),
{
    let items = make_items();
    let grid = init_grid(clues);
    let (sets, Ghost(which)) = candidate_sets(&grid, Ghost(clues@));
    let mut primary: Vec<usize> = Vec::new();
    let mut k: usize = 0;
    while k < 324
        invariant
            k <= 324,
            primary@.len() == k,
            forall|m: int| 0 <= m < k ==> #[trigger] primary@[m] == m,
        decreases 324 - k,
    {
        primary.push(k);
        k += 1;
    }
    proof {
        assert(primary@ =~= all_codes());
        assert(items_table(items@));
        assert(numbered_sets(clues@, sets@, which));
        lemma_sets_named(clues@, sets@, which);
    }
    let ghost sv = sets@;
    let secondary: Vec<usize> = Vec::new();
    proof {
        assert(primary@ + secondary@ =~= all_codes() + Seq::<usize>::empty());
    }
    let sols = dlx_iter(sets, primary, secondary);
    let ghost sel = choose|sel: Seq<Set<int>>| #[trigger] listed_apart(sv, all_codes(), sols@, sel);
    let ghost mut orders: Seq<Seq<int>> = Seq::empty();
    let mut r: Vec<Vec<Vec<Item>>> = Vec::new();
    let mut c: usize = 0;
    while c < sols.len()
        invariant
            listed_apart(sv, all_codes(), sols@, sel),
            orders.len() == c,
            forall|j: int|
                0 <= j < c ==> #[trigger] order_lists(r@[j]@, orders[j]) && orders[j].to_set() == candidates_of(which, sel[j]),
            c <= sols@.len(),
            r@.len() == c,
            items_table(items@),
            numbered_sets(clues@, sv, which),
            forall|c: int| 0 <= c < sols@.len() ==> solution_listed(sv, all_codes(), #[trigger] sols@[c]@),
            forall|j: int| 0 <= j < c ==> solved_by(clues@, #[trigger] r@[j]@),
            forall|j: int| 0 <= j < c ==> #[trigger] decodes(items@, sols@[j]@, r@[j]@),
        decreases sols@.len() - c,
    {
        let ghost sol = sols@[c as int]@;
        proof {
            assert(solution_listed(sv, all_codes(), sol));
            let js = choose|js: Set<int>| #[trigger] item_solution(sv, all_codes(), js) && lists_solution(sv, sol, js);
            let order = choose|order: Seq<int>| #[trigger] lists_in_order(sv, sol, order) && order.to_set() == js;
            lemma_listed_codes(clues@, sv, which, sol, order);
        }
        let out = decode_solution(&items, &sols[c]);
        proof {
            let js = choose|js: Set<int>| #[trigger] item_solution(sv, all_codes(), js) && lists_solution(sv, sol, js);
            let order = choose|order: Seq<int>| #[trigger] lists_in_order(sv, sol, order) && order.to_set() == js;
            lemma_decoded_lists(items@, sv, which, clues@, sol, order, out@);
            lemma_sudoku_sound(clues@, sv, which, js);
            let o2 = Seq::new(order.len(), |k: int| which[order[k]]);
            assert(order_lists(out@, o2));
            assert(lists_cover(out@, candidates_of(which, js)));
            assert(solved_by(clues@, out@));
            assert(decodes(items@, sol, out@));
            assert(item_solution(sv, all_codes(), sel[c as int]));
            let order3 = choose|order: Seq<int>| #[trigger] lists_in_order(sv, sol, order) && order.to_set() == sel[c as int];
            lemma_decoded_lists(items@, sv, which, clues@, sol, order3, out@);
            orders = orders.push(Seq::new(order3.len(), |k: int| which[order3[k]]));
        }
        let ghost before = r@;
        r.push(out);
        proof {
            assert forall|j: int| 0 <= j < c + 1 implies #[trigger] order_lists(r@[j]@, orders[j]) && orders[j].to_set() == candidates_of(
                which,
                sel[j],
            ) by {
                if j < c {
                    assert(r@[j] == before[j]);
                }
            }
        }
        c += 1;
    }
    proof {
        assert forall|t: Set<int>| #[trigger] sudoku_cover(clues@, t) implies exists|c: int| 0 <= c < r@.len() && lists_cover(#[trigger] r@[c]@, t) by {
            let js = lemma_sudoku_complete(clues@, sv, which, t);
            let c = choose|c: int| 0 <= c < sols@.len() && lists_solution(sv, #[trigger] sols@[c]@, js);
            let order = choose|order: Seq<int>| #[trigger] lists_in_order(sv, sols@[c]@, order) && order.to_set() == js;
            assert(decodes(items@, sols@[c]@, r@[c]@));
            lemma_decoded_lists(items@, sv, which, clues@, sols@[c]@, order, r@[c]@);
            let o2 = Seq::new(order.len(), |k: int| which[order[k]]);
            assert(order_lists(r@[c]@, o2));
        }
        assert forall|c: int| 0 <= c < r@.len() implies #[trigger] order_lists(r@[c]@, orders[c]) && sudoku_cover(
            clues@,
            orders[c].to_set(),
        ) by {
            assert(item_solution(sv, all_codes(), sel[c]));
            lemma_sudoku_sound(clues@, sv, which, sel[c]);
            assert(order_lists(r@[c]@, orders[c]));
            assert(orders[c].to_set() == candidates_of(which, sel[c]));
            assert(sudoku_cover(clues@, candidates_of(which, sel[c])));
        }
        assert forall|c1: int, c2: int| 0 <= c1 < c2 < r@.len() implies (#[trigger] orders[c1]).to_set() != (
        #[trigger] orders[c2]).to_set() by {
            assert(item_solution(sv, all_codes(), sel[c1]));
            assert(item_solution(sv, all_codes(), sel[c2]));
            assert(order_lists(r@[c1]@, orders[c1]));
            assert(order_lists(r@[c2]@, orders[c2]));
            lemma_candidates_apart(which, sel[c1], sel[c2]);
        }
        assert(covers_listed_apart(clues@, r@, orders));
    }
    r
}

} // verus!
