use sudoku::codec::{check_list, flatten, list_to_seed, seed_to_board, unflatten, SeedError};
use sudoku::grid::{get_col_start, get_region_start, get_row_start, id};

fn sample_board() -> Vec<u8> {
    let mut b = vec![0u8; 81];
    b[0] = 5;
    b[10] = 5;
    b[2] = 3;
    b
}

#[test]
fn flatten_lists_values_and_indices_ascending() {
    let b = sample_board();
    assert_eq!(flatten(&b), vec![3, 1, 2, 5, 2, 0, 10]);
}

#[test]
fn unflatten_rebuilds_the_board() {
    let list = vec![3u8, 1, 2, 5, 2, 0, 10];
    assert_eq!(unflatten(&list), sample_board());
}

#[test]
fn unflatten_of_empty_list_is_blank() {
    assert_eq!(unflatten(&Vec::new()), vec![0u8; 81]);
}

#[test]
fn flatten_unflatten_round_trip() {
    let solved = vec![
        5u8, 3, 4, 6, 7, 8, 9, 1, 2, //
        6, 7, 2, 1, 9, 5, 3, 4, 8, //
        1, 9, 8, 3, 4, 2, 5, 6, 7, //
        8, 5, 9, 7, 6, 1, 4, 2, 3, //
        4, 2, 6, 8, 5, 3, 7, 9, 1, //
        7, 1, 3, 9, 2, 4, 8, 5, 6, //
        9, 6, 1, 5, 3, 7, 2, 8, 4, //
        2, 8, 7, 4, 1, 9, 6, 3, 5, //
        3, 4, 5, 2, 8, 6, 1, 7, 9,
    ];
    let list = flatten(&solved);
    assert!(check_list(&list));
    assert_eq!(unflatten(&list), solved);
}

#[test]
fn check_list_accepts_well_formed_chunks() {
    assert!(check_list(&Vec::new()));
    assert!(check_list(&vec![5, 1, 80]));
    assert!(check_list(&vec![3, 1, 2, 5, 2, 0, 10]));
}

#[test]
fn check_list_rejects_bad_chunks() {
    assert!(!check_list(&vec![5])); // truncated header
    assert!(!check_list(&vec![5, 0])); // zero count
    assert!(!check_list(&vec![5, 1, 99])); // index out of range
    assert!(!check_list(&vec![5, 2, 3])); // truncated index run
}

#[test]
fn seed_round_trip() {
    let b = sample_board();
    let list = flatten(&b);
    let seed = list_to_seed(&list);
    // the textual seed is a genuine re-encoding, not the raw bytes
    assert_ne!(seed.as_bytes(), list.as_slice());
    assert_eq!(seed_to_board(&seed).unwrap(), b);
}

#[test]
fn seed_rejects_bad_base64() {
    assert_eq!(seed_to_board("!!!"), Err(SeedError::BadBase64));
}

#[test]
fn seed_rejects_bad_list() {
    // "BQA=" is the base64 of [5, 0]: a chunk with count zero
    assert_eq!(seed_to_board("BQA="), Err(SeedError::BadList));
}

#[test]
fn flat_index_of_row_and_column() {
    assert_eq!(id(0, 0), 0);
    assert_eq!(id(4, 5), 41);
    assert_eq!(id(8, 8), 80);
}

#[test]
fn area_start_indices() {
    assert_eq!(get_row_start(41), 36);
    assert_eq!(get_col_start(41), 5);
    assert_eq!(get_region_start(41), 30);
    assert_eq!(get_region_start(0), 0);
    assert_eq!(get_region_start(80), 60);
}
