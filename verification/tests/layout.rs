use grid::{compute_squares, find_squarings, Square};

fn triples(squares: &[Square]) -> Vec<(usize, usize, usize)> {
    squares.iter().map(|s| (s.row, s.col, s.size)).collect()
}

#[test]
fn squares_come_by_ascending_id() {
    let matrix = vec![vec![1, 1, 2], vec![1, 1, 3], vec![4, 5, 6]];
    let squares = compute_squares(3, &matrix);
    assert_eq!(
        triples(&squares),
        vec![(0, 0, 2), (0, 2, 1), (1, 2, 1), (2, 0, 1), (2, 1, 1), (2, 2, 1)]
    );
}

#[test]
fn single_square_covers_the_grid() {
    let squares = compute_squares(4, &vec![vec![1; 4]; 4]);
    assert_eq!(triples(&squares), vec![(0, 0, 4)]);
}

#[test]
fn empty_grid_has_no_square() {
    assert!(compute_squares(0, &Vec::new()).is_empty());
}

#[test]
fn ids_need_not_be_consecutive_and_zero_is_skipped() {
    let matrix = vec![vec![9, 9, 2], vec![9, 9, 0], vec![4, 0, -3]];
    let squares = compute_squares(3, &matrix);
    assert_eq!(triples(&squares), vec![(0, 2, 1), (2, 0, 1), (0, 0, 2)]);
}

#[test]
fn box_is_taken_from_the_outermost_cells_of_an_id() {
    let matrix = vec![vec![7, 0, 0], vec![0, 0, 0], vec![0, 0, 7]];
    let squares = compute_squares(3, &matrix);
    assert_eq!(triples(&squares), vec![(0, 0, 3)]);
    let matrix = vec![vec![0, 0, 3], vec![0, 0, 0], vec![3, 0, 0]];
    let squares = compute_squares(3, &matrix);
    assert_eq!(triples(&squares), vec![(0, 0, 3)]);
}

#[test]
fn one_square_for_each_id() {
    for n in 0..=5 {
        for matrix in find_squarings(n) {
            let squares = compute_squares(n, &matrix);
            let mut ids: Vec<i32> = matrix.iter().flatten().copied().collect();
            ids.sort();
            ids.dedup();
            assert_eq!(squares.len(), ids.len());
            for (i, sq) in squares.iter().enumerate() {
                assert_eq!(matrix[sq.row][sq.col], (i + 1) as i32);
            }
        }
    }
}

#[test]
fn squares_cover_each_cell_once() {
    for n in 0..=5 {
        for matrix in find_squarings(n) {
            let squares = compute_squares(n, &matrix);
            let mut hits = vec![vec![0usize; n]; n];
            for (i, sq) in squares.iter().enumerate() {
                assert!(sq.size >= 1 && sq.row + sq.size <= n && sq.col + sq.size <= n);
                for r in sq.row..sq.row + sq.size {
                    for c in sq.col..sq.col + sq.size {
                        hits[r][c] += 1;
                        assert_eq!(matrix[r][c], (i + 1) as i32);
                    }
                }
            }
            assert_eq!(hits, vec![vec![1usize; n]; n]);
            let area: usize = squares.iter().map(|s| s.size * s.size).sum();
            assert_eq!(area, n * n);
        }
    }
}

#[test]
fn square_is_copied_and_printed() {
    let sq = Square { row: 1, col: 2, size: 3 };
    let copy = sq;
    assert_eq!((sq.row, sq.col, sq.size), (copy.row, copy.col, copy.size));
    assert_eq!(format!("{:?}", sq.clone()), "Square { row: 1, col: 2, size: 3 }");
}
