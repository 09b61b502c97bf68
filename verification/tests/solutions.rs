use grid::{find_squarings, MAX_SIDE};

#[test]
fn solution_counts_small() {
    let expected = [1usize, 1usize, 2, 6, 40, 472, 10_668];
    for (i, &exp) in expected.iter().enumerate() {
        let sols = find_squarings(i);
        assert_eq!(sols.len(), exp, "n = {} should have {} solutions", i, exp);
    }
}

#[test]
fn largest_side_is_six() {
    assert_eq!(MAX_SIDE, 6);
}

#[test]
fn side_zero_has_the_empty_tiling_only() {
    let sols = find_squarings(0);
    assert_eq!(sols.len(), 1);
    assert!(sols[0].is_empty());
}

#[test]
fn side_one_has_one_tiling() {
    assert_eq!(find_squarings(1), vec![vec![vec![1]]]);
}

#[test]
fn side_two_has_four_small_squares_then_one_large() {
    let sols = find_squarings(2);
    assert_eq!(sols.len(), 2);
    assert_eq!(sols[0], vec![vec![1, 2], vec![3, 4]]);
    assert_eq!(sols[1], vec![vec![1, 1], vec![1, 1]]);
}

#[test]
fn side_three_in_listing_order() {
    let sols = find_squarings(3);
    let expected = vec![
        vec![vec![1, 2, 3], vec![4, 5, 6], vec![7, 8, 9]],
        vec![vec![1, 2, 3], vec![4, 5, 5], vec![6, 5, 5]],
        vec![vec![1, 2, 3], vec![4, 4, 5], vec![4, 4, 6]],
        vec![vec![1, 2, 2], vec![3, 2, 2], vec![4, 5, 6]],
        vec![vec![1, 1, 2], vec![1, 1, 3], vec![4, 5, 6]],
        vec![vec![1, 1, 1], vec![1, 1, 1], vec![1, 1, 1]],
    ];
    assert_eq!(sols, expected);
}

#[test]
fn side_four_first_last_and_one_between() {
    let sols = find_squarings(4);
    assert_eq!(
        sols[0],
        vec![vec![1, 2, 3, 4], vec![5, 6, 7, 8], vec![9, 10, 11, 12], vec![13, 14, 15, 16]]
    );
    assert_eq!(
        sols[17],
        vec![vec![1, 2, 3, 3], vec![4, 5, 3, 3], vec![6, 6, 7, 7], vec![6, 6, 7, 7]]
    );
    assert_eq!(sols[39], vec![vec![1; 4]; 4]);
}

#[test]
fn side_five_entry_one_hundred() {
    let sols = find_squarings(5);
    assert_eq!(
        sols[100],
        vec![
            vec![1, 2, 3, 4, 5],
            vec![6, 6, 7, 8, 8],
            vec![6, 6, 9, 8, 8],
            vec![10, 10, 11, 11, 12],
            vec![10, 10, 11, 11, 13],
        ]
    );
}

#[test]
fn two_calls_give_the_same_sequence() {
    for n in 0..=5 {
        assert_eq!(find_squarings(n), find_squarings(n));
    }
}

fn cells_of(matrix: &Vec<Vec<i32>>, id: i32) -> Vec<(usize, usize)> {
    let mut cells = Vec::new();
    for (r, row) in matrix.iter().enumerate() {
        for (c, &v) in row.iter().enumerate() {
            if v == id {
                cells.push((r, c));
            }
        }
    }
    cells
}

fn is_valid_tiling(matrix: &Vec<Vec<i32>>, n: usize) -> bool {
    if matrix.len() != n || matrix.iter().any(|row| row.len() != n) {
        return false;
    }
    let mut next_id = 1;
    for r in 0..n {
        for c in 0..n {
            let id = matrix[r][c];
            if id < 1 || id > next_id {
                return false;
            }
            if id == next_id {
                next_id += 1;
            }
            let cells = cells_of(matrix, id);
            let r0 = cells.iter().map(|p| p.0).min().unwrap();
            let r1 = cells.iter().map(|p| p.0).max().unwrap();
            let c0 = cells.iter().map(|p| p.1).min().unwrap();
            let c1 = cells.iter().map(|p| p.1).max().unwrap();
            let side = r1 - r0 + 1;
            if c1 - c0 + 1 != side || cells.len() != side * side {
                return false;
            }
        }
    }
    true
}

#[test]
fn every_solution_is_a_tiling_by_squares() {
    for n in 0..=5 {
        for matrix in find_squarings(n) {
            assert!(is_valid_tiling(&matrix, n), "side {}: {:?}", n, matrix);
        }
    }
}

fn comes_before(a: &Vec<Vec<i32>>, b: &Vec<Vec<i32>>) -> bool {
    for r in 0..a.len() {
        for c in 0..a[r].len() {
            if a[r][c] != b[r][c] {
                return a[r][c] > b[r][c];
            }
        }
    }
    false
}

#[test]
fn solutions_are_in_listing_order() {
    for n in 0..=5 {
        let sols = find_squarings(n);
        for i in 1..sols.len() {
            assert!(comes_before(&sols[i - 1], &sols[i]), "side {} at {}", n, i);
        }
    }
}

#[test]
fn all_unit_squares_come_first_and_the_whole_grid_last() {
    for n in 1..=MAX_SIDE {
        let sols = find_squarings(n);
        let first: Vec<Vec<i32>> =
            (0..n).map(|r| (0..n).map(|c| (r * n + c + 1) as i32).collect()).collect();
        assert_eq!(sols[0], first);
        assert_eq!(sols[sols.len() - 1], vec![vec![1; n]; n]);
    }
}
