use dlx::sudoku::Clue;

#[test]
fn sudoku_clue_in_range() {
    assert_eq!(Some(Clue::new(8, 8, 9)), Clue::try_new(8, 8, 9));
    assert_eq!(Some(Clue::new(0, 4, 1)), Clue::try_new(0, 4, 1));
}

#[test]
fn sudoku_clue_out_of_range() {
    assert_eq!(None, Clue::try_new(9, 0, 1));
    assert_eq!(None, Clue::try_new(0, 9, 1));
    assert_eq!(None, Clue::try_new(0, 0, 0));
    assert_eq!(None, Clue::try_new(0, 0, 10));
}

fn on_board(clue: &Clue) -> bool {
    (0..9).any(|r| (0..9).any(|c| (1..=9).any(|n| Clue::new(r, c, n) == *clue)))
}

#[test]
fn sudoku_dfs_returns_clues_on_the_board() {
    let solution = dlx::sudoku::sudoku_dfs(&[]);
    assert!(solution.iter().all(on_board));

    let clues = vec![Clue::new(0, 0, 5), Clue::new(4, 4, 1), Clue::new(8, 8, 9)];
    let solution = dlx::sudoku::sudoku_dfs(&clues);
    assert!(solution.iter().all(on_board));
}

fn full_grid_value(r: u8, c: u8) -> u8 {
    (r * 3 + r / 3 + c) % 9 + 1
}

#[test]
fn sudoku_dlx_clue_cells_have_no_option() {
    // Every candidate of a clue's cell is seen by a clue of its row, column
    // or block, so a cell under a clue has no option and there is no cover.
    let mut clues = Vec::new();
    for r in 0..9u8 {
        for c in 0..9u8 {
            if (r, c) != (0, 0) {
                clues.push(dlx::sudoku::Clue::new(r, c, full_grid_value(r, c)));
            }
        }
    }
    assert!(dlx::sudoku::sudoku_dlx(&clues).is_empty());
}
