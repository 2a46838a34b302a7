use avl_tree::matrix::Matrix;
use avl_tree::matrix::MatrixError;

#[test]
fn test_matrix_macro() {
    let mut data = Vec::new();
    let mut rows = 0;
    let mut cols = 0;

    for row in [[1, 2, 3], [4, 5, 6], [7, 8, 9]] {
        let mut current_cols = 0;
        for x in row {
            data.push(x);
            current_cols += 1;
        }
        if rows == 0 {
            cols = current_cols;
        } else if current_cols != cols {
            panic!("All rows must have the same number of columns");
        }
        rows += 1;
    }

    println!("{:?}", Matrix { rows, cols, data });
}

#[test]
fn matrix_get_reads_row_major() {
    let m = Matrix {
        rows: 2,
        cols: 3,
        data: vec![1, 2, 3, 4, 5, 6],
    };
    assert_eq!(m.get(0, 0), Ok(&1));
    assert_eq!(m.get(0, 2), Ok(&3));
    assert_eq!(m.get(1, 1), Ok(&5));
    assert_eq!(m.get(5, 1), Err(MatrixError::IndexOutOfBounds));
    assert_eq!(m.get(1, 7), Err(MatrixError::IndexOutOfBounds));
}

#[test]
fn matrix_get_mut_writes_one_element() {
    let mut m = Matrix {
        rows: 2,
        cols: 2,
        data: vec![1, 2, 3, 4],
    };
    *m.get_mut(1, 0).unwrap() = 30;
    assert_eq!(m.get(1, 0), Ok(&30));
    assert_eq!(m.get(0, 0), Ok(&1));
    assert_eq!(m.get(0, 1), Ok(&2));
    assert_eq!(m.get(1, 1), Ok(&4));
    assert_eq!(m.get_mut(9, 0), Err(MatrixError::IndexOutOfBounds));
}

#[test]
fn matrix_new_is_empty() {
    let m: Matrix<i32> = Matrix::new(3, 4);
    assert_eq!(m.rows, 3);
    assert_eq!(m.cols, 4);
    assert!(m.data.is_empty());
}
