use sudoku::grid::Board;
use sudoku::propagate::{is_solved, propagate_round, propagate_to_fixpoint};
use sudoku::solver::{solve, SolveResult};

/// A fully solved, valid grid (row-major).
fn solved_grid() -> Vec<u8> {
    vec![
        5, 3, 4, 6, 7, 8, 9, 1, 2, //
        6, 7, 2, 1, 9, 5, 3, 4, 8, //
        1, 9, 8, 3, 4, 2, 5, 6, 7, //
        8, 5, 9, 7, 6, 1, 4, 2, 3, //
        4, 2, 6, 8, 5, 3, 7, 9, 1, //
        7, 1, 3, 9, 2, 4, 8, 5, 6, //
        9, 6, 1, 5, 3, 7, 2, 8, 4, //
        2, 8, 7, 4, 1, 9, 6, 3, 5, //
        3, 4, 5, 2, 8, 6, 1, 7, 9,
    ]
}

/// The classic puzzle whose solution `solved_grid` is.
fn easy_puzzle() -> Vec<u8> {
    vec![
        5, 3, 0, 0, 7, 0, 0, 0, 0, //
        6, 0, 0, 1, 9, 5, 0, 0, 0, //
        0, 9, 8, 0, 0, 0, 0, 6, 0, //
        8, 0, 0, 0, 6, 0, 0, 0, 3, //
        4, 0, 0, 8, 0, 3, 0, 0, 1, //
        7, 0, 0, 0, 2, 0, 0, 0, 6, //
        0, 6, 0, 0, 0, 0, 2, 8, 0, //
        0, 0, 0, 4, 1, 9, 0, 0, 5, //
        0, 0, 0, 0, 8, 0, 0, 7, 9,
    ]
}

/// Panics unless every row, column and region of `cells` holds each of 1..=9
/// exactly once.
fn assert_valid(cells: &[u8]) {
    assert_eq!(cells.len(), 81);
    for r in 0..9 {
        let mut seen = [false; 10];
        for c in 0..9 {
            let v = cells[9 * r + c] as usize;
            assert!((1..=9).contains(&v));
            assert!(!seen[v], "row {} holds {} twice", r, v);
            seen[v] = true;
        }
    }
    for c in 0..9 {
        let mut seen = [false; 10];
        for r in 0..9 {
            let v = cells[9 * r + c] as usize;
            assert!(!seen[v], "column {} holds {} twice", c, v);
            seen[v] = true;
        }
    }
    for s in [0usize, 3, 6, 27, 30, 33, 54, 57, 60] {
        let mut seen = [false; 10];
        for r in 0..3 {
            for c in 0..3 {
                let v = cells[s + 9 * r + c] as usize;
                assert!(!seen[v], "region {} holds {} twice", s, v);
                seen[v] = true;
            }
        }
    }
}

fn assert_keeps_clues(clues: &[u8], solved: &[u8]) {
    for i in 0..81 {
        if clues[i] != 0 {
            assert_eq!(clues[i], solved[i], "clue at {} changed", i);
        }
    }
}

#[test]
fn solved_grid_is_returned_unchanged() {
    // Scenario: a fully solved grid fed back in comes back as-is, by
    // propagation alone.
    let cells = solved_grid();
    let mut board = Board::from_cells(cells.clone()).unwrap();
    assert!(is_solved(&board));
    let rounds = propagate_to_fixpoint(&mut board);
    assert_eq!(rounds, 0);
    assert_eq!(board.cells(), &cells);
    match solve(cells.clone()) {
        SolveResult::Complete(b) => assert_eq!(b.cells(), &cells),
        _ => panic!("a solved grid must come back complete"),
    }
}

#[test]
fn propagation_on_complete_grid_is_idempotent() {
    let cells = solved_grid();
    let mut board = Board::from_cells(cells.clone()).unwrap();
    let assigned = propagate_round(&mut board);
    assert_eq!(assigned, 0);
    assert_eq!(board.cells(), &cells);
}

#[test]
fn single_missing_cell_is_filled_in_one_round() {
    // Scenario: one empty cell whose row, column and region already hold the
    // other eight digits is assigned in round one.
    let mut cells = solved_grid();
    cells[40] = 0; // the centre cell, value 5
    let mut board = Board::from_cells(cells.clone()).unwrap();
    let assigned = propagate_round(&mut board);
    assert_eq!(assigned, 1);
    assert_eq!(board.cells()[40], 5);
    assert_eq!(board.cells(), &solved_grid());
    // monotonicity on concrete data: no assigned cell changed
    assert_keeps_clues(&cells, board.cells());
}

#[test]
fn easy_puzzle_solves_by_propagation() {
    let clues = easy_puzzle();
    let mut board = Board::from_cells(clues.clone()).unwrap();
    let rounds = propagate_to_fixpoint(&mut board);
    assert!(rounds >= 1 && rounds <= 81);
    assert!(is_solved(&board));
    assert_eq!(board.cells(), &solved_grid());
    assert_keeps_clues(&clues, board.cells());
}

#[test]
fn propagation_rounds_only_add_sound_assignments() {
    let clues = easy_puzzle();
    let mut board = Board::from_cells(clues.clone()).unwrap();
    let mut before = clues.clone();
    loop {
        let assigned = propagate_round(&mut board);
        let after = board.cells().clone();
        // every old assignment is kept
        assert_keeps_clues(&before, &after);
        // every new assignment clashes with nothing it sees
        for i in 0..81usize {
            if before[i] == 0 && after[i] != 0 {
                let (r, c) = (i / 9, i % 9);
                for j in 0..81usize {
                    if j == i {
                        continue;
                    }
                    let same_row = j / 9 == r;
                    let same_col = j % 9 == c;
                    let same_region = (j / 27 == i / 27) && ((j % 9) / 3 == c / 3);
                    if same_row || same_col || same_region {
                        assert_ne!(after[j], after[i]);
                    }
                }
            }
        }
        if assigned == 0 {
            break;
        }
        before = after;
    }
}

#[test]
fn hidden_single_is_assigned() {
    // Row 0 misses 2 and 5; cell 8 can only hold 5 (its column already has
    // a 2), which makes 2 a hidden single of row 0 at cell 0.
    let mut cells = vec![0u8; 81];
    cells[1] = 3;
    cells[2] = 4;
    cells[3] = 6;
    cells[4] = 7;
    cells[5] = 8;
    cells[6] = 9;
    cells[7] = 1;
    cells[17] = 2; // row 1, column 8
    let mut board = Board::from_cells(cells).unwrap();
    propagate_round(&mut board);
    assert_eq!(board.cells()[8], 5);
    assert_eq!(board.cells()[0], 2);
}

#[test]
fn deadly_rectangle_needs_search_and_solves() {
    // Emptying a rectangle of swapped value pairs (1/3) leaves nothing for
    // propagation to deduce, so the search must guess; both completions are
    // valid and either must be found.
    let mut cells = solved_grid();
    for i in [32usize, 35, 41, 44] {
        cells[i] = 0;
    }
    let clues = cells.clone();
    match solve(cells) {
        SolveResult::Complete(b) => {
            assert_valid(b.cells());
            assert_keeps_clues(&clues, b.cells());
        },
        _ => panic!("rectangle puzzle must solve"),
    }
}

#[test]
fn seventeen_clue_puzzle_solves() {
    // A canonical 17-clue puzzle; propagation alone cannot finish it.
    let text = "000000010400000000020000000000050407008000300001090000300400200050100000000806000";
    let clues: Vec<u8> = text.bytes().map(|b| b - b'0').collect();
    match solve(clues.clone()) {
        SolveResult::Complete(b) => {
            assert_valid(b.cells());
            assert_keeps_clues(&clues, b.cells());
        },
        _ => panic!("the 17-clue puzzle must solve"),
    }
}

#[test]
fn contradictory_grid_is_unsolvable() {
    // Scenario: a duplicated digit in a row. The last open cell of row 0 can
    // hold nothing, so the frontier never produces a complete grid.
    let mut cells = solved_grid();
    cells[0] = 0; // was 5
    cells[8] = 5; // row 0 now holds 5 twice (was 2)
    match solve(cells) {
        SolveResult::Unsolvable => {},
        _ => panic!("a contradictory grid must be unsolvable"),
    }
}

#[test]
fn wrong_length_is_malformed() {
    let cells = vec![0u8; 80];
    assert!(matches!(solve(cells), SolveResult::MalformedInput));
}

#[test]
fn out_of_range_value_is_malformed() {
    let mut cells = vec![0u8; 81];
    cells[13] = 10;
    assert!(matches!(solve(cells), SolveResult::MalformedInput));
}

#[test]
fn board_rejects_malformed_cells() {
    assert!(Board::from_cells(vec![0u8; 82]).is_none());
    let mut cells = vec![0u8; 81];
    cells[0] = 11;
    assert!(Board::from_cells(cells).is_none());
    assert!(Board::from_cells(vec![0u8; 81]).is_some());
}
