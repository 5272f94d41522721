use layouts_rs::matrix::{Matrix, MatrixError, Pos};

#[test]
fn it_validates_correctness_of_input() {
    assert!(Matrix::<()>::new(vec![]).is_err());
    assert!(Matrix::new(vec![vec![1, 2], vec![3]]).is_err());
    assert!(Matrix::new(vec![vec![1, 2], vec![3, 4]]).is_ok());
}

#[test]
fn it_gets_and_sets_values() {
    let mut matrix = Matrix::new(vec![vec![1, 2], vec![3, 4]]).unwrap();
    assert_eq!(matrix.get(&Pos::new(0, 0)), Some(&1));
    assert_eq!(matrix.get(&Pos::new(0, 1)), Some(&2));
    assert_eq!(matrix.get(&Pos::new(1, 0)), Some(&3));
    assert_eq!(matrix.get(&Pos::new(1, 1)), Some(&4));
    assert_eq!(matrix.get(&Pos::new(2, 0)), None);
    assert!(matrix.get_mut(&Pos::new(0, 0)).map(|it| *it = 10).is_some());
    assert_eq!(matrix.get(&Pos::new(0, 0)), Some(&10));
}

#[test]
fn it_fills_with_value() {
    let matrix = Matrix::filled(2, 3, 5);
    assert_eq!(matrix.rows, 2);
    assert_eq!(matrix.columns, 3);
    assert_eq!(matrix.rows_iter(), vec![vec![5; 3]; 2]);
}

#[test]
fn matrix_reports_which_input_is_refused() {
    assert_eq!(Matrix::<u8>::new(vec![]).err(), Some(MatrixError::Empty));
    assert_eq!(
        Matrix::new(vec![vec![1, 2], vec![3]]).err(),
        Some(MatrixError::InconsistentRowLengths)
    );
    assert_eq!(
        Matrix::new(vec![vec![1], vec![2, 3]]).err(),
        Some(MatrixError::InconsistentRowLengths)
    );
}

#[test]
fn matrix_returns_its_rows_in_order() {
    let matrix = Matrix::new(vec![vec!['a', 'b', 'c'], vec!['d', 'e', 'f']]).unwrap();
    assert_eq!(matrix.num_rows(), 2);
    assert_eq!(matrix.num_columns(), 3);
    assert_eq!(matrix.cell_count(), 6);
    assert_eq!(matrix.rows_iter(), vec![vec!['a', 'b', 'c'], vec!['d', 'e', 'f']]);
    assert_eq!(matrix.get(&Pos::new(1, 2)), Some(&'f'));
    assert_eq!(matrix.get(&Pos::new(0, 3)), None);
}

#[test]
fn matrix_set_through_get_mut_changes_one_cell() {
    let mut matrix = Matrix::filled(2, 2, 0u32);
    *matrix.get_mut(&Pos::new(1, 0)).unwrap() = 7;
    assert_eq!(matrix.rows_iter(), vec![vec![0, 0], vec![7, 0]]);
    assert!(matrix.get_mut(&Pos::new(0, 2)).is_none());
}

#[test]
fn matrix_duplicate_is_equal() {
    let matrix = Matrix::new(vec![vec![1, 2], vec![3, 4]]).unwrap();
    let copy = matrix.duplicate();
    assert_eq!(copy.rows_iter(), matrix.rows_iter());
}
