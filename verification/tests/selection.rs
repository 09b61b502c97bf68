use grid::{find_squarings, select_index, SquareGrid};

fn triples(grid: &SquareGrid) -> Vec<(usize, usize, usize)> {
    grid.squares().iter().map(|s| (s.row, s.col, s.size)).collect()
}

#[test]
fn index_in_range_is_kept() {
    assert_eq!(select_index(0, 472), 0);
    assert_eq!(select_index(471, 472), 471);
    assert_eq!(select_index(3, 6), 3);
}

#[test]
fn index_out_of_range_falls_back_to_zero() {
    assert_eq!(select_index(472, 472), 0);
    assert_eq!(select_index(1_000_000, 472), 0);
    assert_eq!(select_index(0, 0), 0);
    assert_eq!(select_index(5, 0), 0);
}

#[test]
fn out_of_range_index_selects_the_first_solution() {
    let far = SquareGrid::new(5, Some(1_000_000));
    let first = SquareGrid::new(5, Some(0));
    assert_eq!(far.solution_index, 0);
    assert_eq!(first.solution_index, 0);
    assert_eq!(far.solution(), first.solution());
    assert_eq!(triples(&far), triples(&first));
    let edge = SquareGrid::new(5, Some(472));
    assert_eq!(edge.solution_index, 0);
    assert_eq!(edge.solution(), first.solution());
}

#[test]
fn chosen_index_selects_that_solution() {
    let sols = find_squarings(4);
    for i in [0usize, 1, 17, 39] {
        let grid = SquareGrid::new(4, Some(i));
        assert_eq!(grid.side, 4);
        assert_eq!(grid.solution_index, i);
        assert_eq!(grid.solution(), &sols[i]);
        assert_eq!(grid.matrix, sols[i]);
    }
}

#[test]
fn last_solution_of_side_five() {
    let grid = SquareGrid::new(5, Some(471));
    assert_eq!(grid.solution_index, 471);
    assert_eq!(grid.matrix, vec![vec![1; 5]; 5]);
    assert_eq!(triples(&grid), vec![(0, 0, 5)]);
}

#[test]
fn side_two_both_solutions() {
    let small = SquareGrid::new(2, Some(0));
    assert_eq!(small.matrix, vec![vec![1, 2], vec![3, 4]]);
    assert_eq!(triples(&small), vec![(0, 0, 1), (0, 1, 1), (1, 0, 1), (1, 1, 1)]);
    let large = SquareGrid::new(2, Some(1));
    assert_eq!(large.matrix, vec![vec![1, 1], vec![1, 1]]);
    assert_eq!(triples(&large), vec![(0, 0, 2)]);
}

#[test]
fn side_zero_has_no_square() {
    let grid = SquareGrid::new(0, Some(3));
    assert_eq!(grid.side, 0);
    assert_eq!(grid.solution_index, 0);
    assert!(grid.matrix.is_empty());
    assert!(grid.squares().is_empty());
}

#[test]
fn random_choice_names_a_solution() {
    let sols = find_squarings(5);
    for _ in 0..50 {
        let grid = SquareGrid::new_random(5);
        assert!(grid.solution_index < sols.len());
        assert_eq!(grid.matrix, sols[grid.solution_index]);
    }
    let grid = SquareGrid::new(3, None);
    assert!(grid.solution_index < 6);
    assert_eq!(grid.matrix, find_squarings(3)[grid.solution_index]);
}

#[test]
fn random_choice_among_one_solution_is_that_solution() {
    let grid = SquareGrid::new_random(1);
    assert_eq!(grid.solution_index, 0);
    assert_eq!(grid.matrix, vec![vec![1]]);
    assert_eq!(triples(&grid), vec![(0, 0, 1)]);
}

#[test]
fn with_solution_takes_the_named_entry() {
    let sols = find_squarings(3);
    let grid = SquareGrid::with_solution(3, &sols, 4);
    assert_eq!(grid.side, 3);
    assert_eq!(grid.solution_index, 4);
    assert_eq!(grid.matrix, vec![vec![1, 1, 2], vec![1, 1, 3], vec![4, 5, 6]]);
    assert_eq!(
        triples(&grid),
        vec![(0, 0, 2), (0, 2, 1), (1, 2, 1), (2, 0, 1), (2, 1, 1), (2, 2, 1)]
    );
}

#[test]
fn iterator_yields_the_squares_in_order() {
    let grid = SquareGrid::new(3, Some(3));
    let seen: Vec<(usize, usize, usize)> =
        grid.iter_squares().map(|s| (s.row, s.col, s.size)).collect();
    assert_eq!(seen, triples(&grid));
    assert_eq!(seen, vec![(0, 0, 1), (0, 1, 2), (1, 0, 1), (2, 0, 1), (2, 1, 1), (2, 2, 1)]);
}
