use sudoku::grid::{Area, Board};
use sudoku::propagate::{get_missing, get_used};
use sudoku::search::{add_heap, pop_best, search, Branch};

fn blank_board() -> Board {
    Board::from_cells(vec![0u8; 81]).unwrap()
}

fn branch(pos: usize, val: u8, cut: usize, depth: usize) -> Branch {
    Branch { pos, val, cut, depth, board: blank_board() }
}

#[test]
fn pop_order_follows_the_composite_key() {
    let mut heap: Vec<Branch> = Vec::new();
    // scrambled insertion order
    heap.push(branch(7, 4, 2, 1)); // d: same cut/depth as c, larger pos
    heap.push(branch(3, 4, 2, 1)); // c: cut 2, depth 1, pos 3, val 4
    heap.push(branch(3, 2, 2, 1)); // b: like c but smaller value
    heap.push(branch(50, 9, 3, 9)); // e: largest cut comes last
    heap.push(branch(60, 8, 2, 2)); // a: cut 2, deepest
    heap.push(branch(10, 1, 1, 0)); // first: smallest cut
    let expect = [(10usize, 1u8), (60, 8), (3, 2), (3, 4), (7, 4), (50, 9)];
    for (pos, val) in expect {
        let b = pop_best(&mut heap).unwrap();
        assert_eq!((b.pos, b.val), (pos, val));
    }
    assert!(pop_best(&mut heap).is_none());
}

#[test]
fn add_heap_seeds_one_branch_per_candidate() {
    // a solved grid with two cells emptied: each has exactly one free value
    let mut cells = vec![
        5u8, 3, 4, 6, 7, 8, 9, 1, 2, //
        6, 7, 2, 1, 9, 5, 3, 4, 8, //
        1, 9, 8, 3, 4, 2, 5, 6, 7, //
        8, 5, 9, 7, 6, 1, 4, 2, 3, //
        4, 2, 6, 8, 5, 3, 7, 9, 1, //
        7, 1, 3, 9, 2, 4, 8, 5, 6, //
        9, 6, 1, 5, 3, 7, 2, 8, 4, //
        2, 8, 7, 4, 1, 9, 6, 3, 5, //
        3, 4, 5, 2, 8, 6, 1, 7, 9,
    ];
    cells[0] = 0; // was 5
    cells[40] = 0; // was 5
    let board = Board::from_cells(cells).unwrap();
    let mut heap: Vec<Branch> = Vec::new();
    add_heap(&mut heap, &board, 7);
    assert_eq!(heap.len(), 2);
    assert_eq!((heap[0].pos, heap[0].val, heap[0].cut, heap[0].depth), (0, 5, 1, 7));
    assert_eq!((heap[1].pos, heap[1].val, heap[1].cut, heap[1].depth), (40, 5, 1, 7));
    // each branch owns a snapshot of the seeding board
    assert_eq!(heap[0].board.cells(), board.cells());
    assert_eq!(heap[1].board.cells(), board.cells());
}

#[test]
fn add_heap_on_complete_board_adds_nothing() {
    let mut heap: Vec<Branch> = Vec::new();
    let board = Board::from_cells(vec![
        5u8, 3, 4, 6, 7, 8, 9, 1, 2, //
        6, 7, 2, 1, 9, 5, 3, 4, 8, //
        1, 9, 8, 3, 4, 2, 5, 6, 7, //
        8, 5, 9, 7, 6, 1, 4, 2, 3, //
        4, 2, 6, 8, 5, 3, 7, 9, 1, //
        7, 1, 3, 9, 2, 4, 8, 5, 6, //
        9, 6, 1, 5, 3, 7, 2, 8, 4, //
        2, 8, 7, 4, 1, 9, 6, 3, 5, //
        3, 4, 5, 2, 8, 6, 1, 7, 9,
    ])
    .unwrap();
    add_heap(&mut heap, &board, 0);
    assert!(heap.is_empty());
}

#[test]
fn search_completes_a_two_cell_board() {
    let mut cells = vec![
        5u8, 3, 4, 6, 7, 8, 9, 1, 2, //
        6, 7, 2, 1, 9, 5, 3, 4, 8, //
        1, 9, 8, 3, 4, 2, 5, 6, 7, //
        8, 5, 9, 7, 6, 1, 4, 2, 3, //
        4, 2, 6, 8, 5, 3, 7, 9, 1, //
        7, 1, 3, 9, 2, 4, 8, 5, 6, //
        9, 6, 1, 5, 3, 7, 2, 8, 4, //
        2, 8, 7, 4, 1, 9, 6, 3, 5, //
        3, 4, 5, 2, 8, 6, 1, 7, 9,
    ];
    cells[0] = 0;
    cells[40] = 0;
    let board = Board::from_cells(cells).unwrap();
    let solved = search(&board).unwrap();
    assert_eq!(solved.cells()[0], 5);
    assert_eq!(solved.cells()[40], 5);
}

#[test]
fn used_and_missing_values_per_area() {
    let mut cells = vec![0u8; 81];
    cells[5] = 7; // row 0, in region 1
    cells[36] = 4; // column 0, row 4
    cells[10] = 9; // region 0, row 1 column 1
    let board = Board::from_cells(cells).unwrap();
    let row = get_used(&board, 0, Area::Row);
    assert!(row.contains(7) && !row.contains(4) && !row.contains(9));
    let col = get_used(&board, 0, Area::Col);
    assert!(col.contains(4) && !col.contains(7));
    let region = get_used(&board, 0, Area::Region);
    assert!(region.contains(9) && !region.contains(4));
    let all = get_used(&board, 0, Area::All);
    assert!(all.contains(7) && all.contains(4) && all.contains(9));
    assert!(!all.contains(1));
    let free = get_missing(&board, Area::All, 0);
    for v in [1u8, 2, 3, 5, 6, 8] {
        assert!(free.contains(v));
    }
    for v in [4u8, 7, 9] {
        assert!(!free.contains(v));
    }
}
