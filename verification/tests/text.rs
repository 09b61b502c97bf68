use grid::render_matrix;

#[test]
fn matrix_without_cells_is_a_pair_of_brackets() {
    assert_eq!(render_matrix(&Vec::new()), "[ ]\n");
    assert_eq!(render_matrix(&vec![Vec::new()]), "[ ]\n");
    assert_eq!(render_matrix(&vec![Vec::new(), vec![1]]), "[ ]\n");
}

#[test]
fn ids_are_right_aligned_in_two_characters() {
    assert_eq!(render_matrix(&vec![vec![1, 2], vec![3, 4]]), " 1  2 \n 3  4 \n");
    assert_eq!(render_matrix(&vec![vec![0]]), " 0 \n");
    assert_eq!(render_matrix(&vec![vec![9, 10, 36]]), " 9 10 36 \n");
}

#[test]
fn wide_and_negative_ids_take_the_room_they_need() {
    assert_eq!(render_matrix(&vec![vec![100, -5, -12]]), "100 -5 -12 \n");
    assert_eq!(
        render_matrix(&vec![vec![i32::MAX], vec![i32::MIN]]),
        "2147483647 \n-2147483648 \n"
    );
}

#[test]
fn rows_may_differ_in_length() {
    assert_eq!(render_matrix(&vec![vec![1], Vec::new(), vec![2, 3]]), " 1 \n\n 2  3 \n");
}

#[test]
fn text_agrees_with_the_standard_formatter() {
    let matrix = vec![vec![1, 20, 300], vec![-1, -20, 0]];
    let mut expected = String::new();
    for row in &matrix {
        for &val in row {
            expected.push_str(&format!("{: >2} ", val));
        }
        expected.push('\n');
    }
    assert_eq!(render_matrix(&matrix), expected);
}
