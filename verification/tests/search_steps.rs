use grid::{can_place, find_first_empty, place_square, solve};

#[test]
fn first_empty_cell_is_found_in_row_major_order() {
    let grid = vec![vec![1, 1, 0], vec![1, 1, 0], vec![0, 0, 0]];
    assert_eq!(find_first_empty(&grid), Some((0, 2)));
    let grid = vec![vec![1, 1, 2], vec![1, 1, 0], vec![0, 0, 0]];
    assert_eq!(find_first_empty(&grid), Some((1, 2)));
    let grid = vec![vec![1, 1, 2], vec![1, 1, 3], vec![0, 0, 0]];
    assert_eq!(find_first_empty(&grid), Some((2, 0)));
}

#[test]
fn first_empty_cell_of_a_blank_grid_is_the_corner() {
    assert_eq!(find_first_empty(&vec![vec![0; 4]; 4]), Some((0, 0)));
}

#[test]
fn full_grid_has_no_empty_cell() {
    assert_eq!(find_first_empty(&vec![vec![1, 2], vec![3, 4]]), None);
    assert_eq!(find_first_empty(&Vec::new()), None);
}

#[test]
fn rows_of_different_lengths_are_scanned_to_their_ends() {
    let grid = vec![vec![5], vec![], vec![7, 0, 9]];
    assert_eq!(find_first_empty(&grid), Some((2, 1)));
}

#[test]
fn free_block_can_be_placed() {
    let grid = vec![vec![1, 0, 0], vec![0, 0, 0], vec![0, 0, 0]];
    assert!(can_place(&grid, 0, 1, 1));
    assert!(can_place(&grid, 0, 1, 2));
    assert!(can_place(&grid, 1, 0, 2));
    assert!(can_place(&grid, 1, 1, 2));
}

#[test]
fn block_over_an_assigned_cell_cannot_be_placed() {
    let grid = vec![vec![1, 1, 0], vec![1, 1, 0], vec![0, 0, 2]];
    assert!(!can_place(&grid, 0, 0, 1));
    assert!(!can_place(&grid, 1, 1, 2));
    assert!(!can_place(&grid, 0, 1, 2));
    assert!(!can_place(&grid, 2, 2, 1));
    assert!(can_place(&grid, 0, 2, 1));
    assert!(can_place(&grid, 2, 0, 1));
}

#[test]
fn block_of_side_zero_is_free() {
    let grid = vec![vec![1, 1], vec![1, 1]];
    assert!(can_place(&grid, 0, 0, 0));
    assert!(can_place(&grid, 2, 2, 0));
}

#[test]
fn placing_writes_the_block_and_nothing_else() {
    let mut grid = vec![vec![1, 0, 0], vec![0, 0, 0], vec![0, 0, 0]];
    place_square(&mut grid, 0, 1, 2, 2);
    assert_eq!(grid, vec![vec![1, 2, 2], vec![0, 2, 2], vec![0, 0, 0]]);
    place_square(&mut grid, 2, 2, 1, 9);
    assert_eq!(grid, vec![vec![1, 2, 2], vec![0, 2, 2], vec![0, 0, 9]]);
    place_square(&mut grid, 1, 1, 0, 7);
    assert_eq!(grid, vec![vec![1, 2, 2], vec![0, 2, 2], vec![0, 0, 9]]);
}

#[test]
fn solve_appends_the_completions_of_a_state() {
    let mut found = vec![vec![vec![8]]];
    let state = vec![vec![1, 1, 0], vec![1, 1, 0], vec![0, 0, 0]];
    solve(3, state, 2, &mut found);
    assert_eq!(
        found,
        vec![vec![vec![8]], vec![vec![1, 1, 2], vec![1, 1, 3], vec![4, 5, 6]]]
    );
}

#[test]
fn solve_tries_smaller_squares_first() {
    let mut found = Vec::new();
    let state = vec![vec![1, 2, 3], vec![0, 0, 0], vec![0, 0, 0]];
    solve(3, state, 4, &mut found);
    assert_eq!(
        found,
        vec![
            vec![vec![1, 2, 3], vec![4, 5, 6], vec![7, 8, 9]],
            vec![vec![1, 2, 3], vec![4, 5, 5], vec![6, 5, 5]],
            vec![vec![1, 2, 3], vec![4, 4, 5], vec![4, 4, 6]],
        ]
    );
}

#[test]
fn solve_on_a_full_grid_records_it() {
    let mut found = Vec::new();
    solve(2, vec![vec![1, 1], vec![1, 1]], 2, &mut found);
    assert_eq!(found, vec![vec![vec![1, 1], vec![1, 1]]]);
}
