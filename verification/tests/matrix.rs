use k2tree::matrix::{Matrix, Submatrix};

fn collect_matrix<T: Clone>(matrix: &Matrix<T>) -> Vec<T> {
    let mut cells = Vec::new();
    let mut it = matrix.iter();
    while let Some(cell) = it.next() {
        cells.push(cell.clone());
    }
    cells
}

fn collect_window<T: Clone>(window: &Submatrix<T>) -> Vec<T> {
    let mut cells = Vec::new();
    let mut it = window.iter();
    while let Some(cell) = it.next() {
        cells.push(cell.clone());
    }
    cells
}

#[test]
fn matrix_new_test() {
    let expected = [[1, 2], [3, 4]];

    let mut matrix = Matrix::with_default(2, 2, 1);
    matrix.set(0, 0, 1);
    matrix.set(0, 1, 2);
    matrix.set(1, 0, 3);
    matrix.set(1, 1, 4);

    assert_eq!(matrix.get_columns(), 2);
    assert_eq!(matrix.get_rows(), 2);

    for i in 0..2 {
        for j in 0..2 {
            assert_eq!(expected[i][j], *matrix.get(i, j).unwrap());
        }
    }
}

#[test]
fn matrix_from_vec_test() {
    let expected = [[1, 2], [3, 4]];
    let source = vec![1, 2, 3, 4];
    let matrix = Matrix::from_iterator(2, 2, source);

    assert_eq!(matrix.get_columns(), 2);
    assert_eq!(matrix.get_rows(), 2);

    for i in 0..2 {
        for j in 0..2 {
            assert_eq!(expected[i][j], *matrix.get(i, j).unwrap())
        }
    }
}

#[test]
fn matrix_to_iterator_test() {
    let expected = vec![1, 2, 3, 4];
    let matrix = Matrix::from_iterator(2, 2, expected.clone());

    assert_eq!(matrix.get_columns(), 2);
    assert_eq!(matrix.get_rows(), 2);

    let flat_matrix: Vec<&i32> = matrix.to_iterator().into_iter().collect();

    assert_eq!(flat_matrix, expected.iter().collect::<Vec<&i32>>());
}

#[test]
fn matrix_submatrix_test() {
    let expected = vec![1, 2, 3, 4, 5, 6, 7, 8, 9];
    let matrix = Matrix::from_iterator(3, 3, expected.clone());
    println!("{:?}", collect_matrix(&matrix));

    let submatrix = matrix.submatrix(0..=1, 1..=2);
    println!("");
    println!("{:?}", collect_window(&submatrix));
    assert_eq!(collect_window(&submatrix), vec![2, 3, 5, 6]);
}

#[test]
fn mod_new_test() {
    let expected = [[1, 2], [3, 4]];

    let mut matrix = Matrix::new(2, 2);
    matrix.set(0, 0, 1);
    matrix.set(0, 1, 2);
    matrix.set(1, 0, 3);
    matrix.set(1, 1, 4);

    assert_eq!(matrix.get_columns(), 2);
    assert_eq!(matrix.get_rows(), 2);

    for i in 0..2 {
        for j in 0..2 {
            assert_eq!(expected[i][j], *matrix.get(i, j).unwrap());
        }
    }
}

#[test]
fn mod_from_vec_test() {
    let expected = [[1, 2], [3, 4]];
    let source = vec![1, 2, 3, 4];
    let matrix = Matrix::from_iter(2, 2, source);

    assert_eq!(matrix.get_columns(), 2);
    assert_eq!(matrix.get_rows(), 2);

    for i in 0..2 {
        for j in 0..2 {
            assert_eq!(expected[i][j], *matrix.get(i, j).unwrap())
        }
    }
}

#[test]
fn mod_to_iterator_test() {
    let expected = vec![1, 2, 3, 4];
    let matrix = Matrix::from_iter(2, 2, expected.clone());

    assert_eq!(matrix.get_columns(), 2);
    assert_eq!(matrix.get_rows(), 2);

    let flat_matrix: Vec<i32> = collect_matrix(&matrix);

    assert_eq!(flat_matrix, expected);
}

#[test]
fn mod_submatrix_test() {
    let expected = vec![1, 2, 3, 4, 5, 6, 7, 8, 9];
    let matrix = Matrix::from_iter(3, 3, expected.clone());

    let submatrix = matrix.submatrix(0..=1, 1..=2);
    println!("{:?}", collect_window(&submatrix));
    assert_eq!(submatrix.get_rows(), 2);
    assert_eq!(submatrix.get_cols(), 2);
    assert_eq!(*submatrix.get(0, 0).unwrap(), 2);
    assert_eq!(*submatrix.get(1, 1).unwrap(), 6);
}

#[test]
fn submatrix_sum() {
    let expected = vec![1, 2, 3, 4, 5, 6, 7, 8, 9];
    let matrix = Matrix::from_iter(3, 3, expected.clone());

    let submatrix = matrix.submatrix(0..=1, 0..=1);

    let mut sum = 0;
    let mut it = submatrix.iter();
    while let Some(elem) = it.next() {
        sum = sum + elem;
    }

    assert_eq!(12, sum);
}

#[test]
fn submatrix_sum_big() {
    let size = 1000;
    let matrix = Matrix::from_iter(size, size, (0..size * size).collect());

    let sum = collect_matrix(&matrix).into_iter().fold(0, |acc, elem| acc + elem);
    assert_eq!(sum, 499999500000);
}

#[test]
fn matrix_into_iter() {
    let size = 3;
    let matrix = Matrix::from_iter(size, size, (0..size * size).collect());

    let mut seen = Vec::new();
    let mut it = matrix.iter();
    while let Some(element) = it.next() {
        println!("{}", element);
        seen.push(*element);
    }
    assert_eq!(seen, vec![0, 1, 2, 3, 4, 5, 6, 7, 8]);
}

#[test]
fn submatrix_size() {
    let size = 1;
    let matrix = Matrix::from_iter(size, size, (0..size * size).collect());
    let submatrix = matrix.submatrix(0..=0, 0..=0);
    assert_eq!(1, submatrix.elems());
}

#[test]
fn submatrix_cols_rows() {
    let size = 4;
    let matrix = Matrix::from_iter(size, size, (0..size * size).collect());
    let submatrix = matrix.submatrix(0..=1, 0..=2);
    assert_eq!(submatrix.get_rows(), 2);
    assert_eq!(submatrix.get_cols(), 3);

    let subsubmatrix = submatrix.submatrix(0..=1, 0..=0);
    assert_eq!(2, subsubmatrix.get_rows());
    assert_eq!(1, subsubmatrix.get_cols());
}

#[test]
fn submatrix_iter() {
    let size = 4;
    let matrix = Matrix::from_iter(size, size, (0..size * size).collect());
    let submatrix = matrix.submatrix(0..=1, 0..=2);

    println!("Submatrix: ");
    println!("{:?}", collect_window(&submatrix));
    println!("Iterator:");
    let mut seen = Vec::new();
    let mut it = submatrix.iter();
    while let Some(element) = it.next() {
        println!("{} ", element);
        seen.push(*element);
    }
    println!("");
    assert_eq!(seen, vec![0, 1, 2, 4, 5, 6]);
}

#[test]
fn matrix_new_holds_defaults() {
    let matrix: Matrix<i32> = Matrix::new(2, 3);
    assert_eq!(matrix.get_rows(), 2);
    assert_eq!(matrix.get_columns(), 3);
    assert_eq!(matrix.get_virtual_rows(), 2);
    assert_eq!(matrix.get_virtual_cols(), 3);
    assert_eq!(matrix.get_inner(), &vec![0, 0, 0, 0, 0, 0]);
    assert_eq!(matrix.get(1, 2), Some(&0));
    assert_eq!(matrix.get(2, 0), None);
    assert_eq!(matrix.get(0, 3), None);
}

#[test]
fn matrix_with_default_fills_every_cell() {
    let matrix = Matrix::with_default(2, 2, 7u8);
    assert_eq!(matrix.get_inner(), &vec![7, 7, 7, 7]);
    let wide = matrix.expand(3, 3);
    assert_eq!(wide.get(2, 2), Some(&7));
}

#[test]
fn matrix_is_stored_row_after_row() {
    let matrix = Matrix::from_iter(2, 3, vec![1, 2, 3, 4, 5, 6]);
    assert_eq!(matrix.get(0, 2), Some(&3));
    assert_eq!(matrix.get(1, 0), Some(&4));
    assert_eq!(matrix.get(1, 2), Some(&6));
    assert_eq!(matrix.get(0, 3), None);
    assert_eq!(matrix.get_inner(), &vec![1, 2, 3, 4, 5, 6]);
}

#[test]
fn matrix_expand_pads_with_the_default() {
    let matrix = Matrix::from_iter(2, 3, vec![1, 2, 3, 4, 5, 6]).expand(4, 4);
    assert_eq!(matrix.get_rows(), 2);
    assert_eq!(matrix.get_columns(), 3);
    assert_eq!(matrix.get_virtual_rows(), 4);
    assert_eq!(matrix.get_virtual_cols(), 4);
    assert_eq!(matrix.get(1, 2), Some(&6));
    assert_eq!(matrix.get(1, 3), Some(&0));
    assert_eq!(matrix.get(2, 0), Some(&0));
    assert_eq!(matrix.get(3, 3), Some(&0));
    assert_eq!(matrix.get(4, 0), None);
    assert_eq!(matrix.get(0, 4), None);
    assert_eq!(matrix.get_inner().len(), 6);
}

#[test]
fn matrix_expand_to_the_same_size_changes_nothing() {
    let matrix = Matrix::from_iter(2, 2, vec![1, 2, 3, 4]).expand(2, 2);
    assert_eq!(matrix.get_virtual_rows(), 2);
    assert_eq!(matrix.get_virtual_cols(), 2);
    assert_eq!(matrix.get(1, 1), Some(&4));
    assert_eq!(matrix.get(2, 2), None);
}

#[test]
fn matrix_set_and_get_mut_write_one_cell() {
    let mut matrix = Matrix::from_iter(2, 2, vec![1, 2, 3, 4]);
    matrix.set(1, 0, 30);
    *matrix.get_mut(0, 1) = 20;
    assert_eq!(matrix.get_inner(), &vec![1, 20, 30, 4]);
}

#[test]
fn matrix_clone_keeps_cells_and_extents() {
    let matrix = Matrix::from_iter(2, 2, vec![1, 2, 3, 4]).expand(4, 8);
    let copy = matrix.clone();
    assert_eq!(copy.get_inner(), matrix.get_inner());
    assert_eq!(copy.get_rows(), 2);
    assert_eq!(copy.get_columns(), 2);
    assert_eq!(copy.get_virtual_rows(), 4);
    assert_eq!(copy.get_virtual_cols(), 8);
    assert_eq!(copy.get(3, 7), Some(&0));
}

#[test]
fn matrix_iter_ends_and_stays_ended() {
    let matrix = Matrix::from_iter(1, 2, vec![5, 6]).expand(2, 2);
    let mut it = matrix.iter();
    assert_eq!(it.next(), Some(&5));
    assert_eq!(it.next(), Some(&6));
    assert_eq!(it.next(), None);
    assert_eq!(it.next(), None);
}

#[test]
fn submatrix_reads_through_its_own_coordinates() {
    let matrix = Matrix::from_iter(3, 4, (0..12).collect());
    let window = matrix.submatrix(1..=2, 2..=3);
    assert_eq!(window.get_rows(), 2);
    assert_eq!(window.get_cols(), 2);
    assert_eq!(window.elems(), 4);
    assert_eq!(window.get(0, 0), Some(&6));
    assert_eq!(window.get(0, 1), Some(&7));
    assert_eq!(window.get(1, 0), Some(&10));
    assert_eq!(window.get(1, 1), Some(&11));
    assert_eq!(window.get(2, 0), None);
    assert_eq!(window.get(0, 2), None);
}

#[test]
fn submatrix_new_is_the_window_of_the_ranges() {
    let matrix = Matrix::from_iter(3, 4, (0..12).collect());
    let window = Submatrix::new(&matrix, 2..=2, 1..=3);
    assert_eq!(window.get_rows(), 1);
    assert_eq!(window.get_cols(), 3);
    assert_eq!(collect_window(&window), vec![9, 10, 11]);
}

#[test]
fn submatrix_of_submatrix_adds_the_offsets() {
    let matrix = Matrix::from_iter(4, 4, (0..16).collect());
    let window = matrix.submatrix(1..=3, 1..=3);
    let inner = window.submatrix(1..=2, 0..=1);
    assert_eq!(inner.get_rows(), 2);
    assert_eq!(inner.get_cols(), 2);
    assert_eq!(collect_window(&inner), vec![9, 10, 13, 14]);
    let cell = inner.submatrix(1..=1, 1..=1);
    assert_eq!(cell.elems(), 1);
    assert_eq!(cell.get(0, 0), Some(&14));
}

#[test]
fn submatrix_reaches_into_the_padding() {
    let matrix = Matrix::from_iter(2, 2, vec![1, 2, 3, 4]).expand(4, 4);
    let window = matrix.submatrix(1..=2, 1..=2);
    assert_eq!(collect_window(&window), vec![4, 0, 0, 0]);
    assert!(!window.all_equal());
    let padding = matrix.submatrix(2..=3, 0..=3);
    assert_eq!(padding.elems(), 8);
    assert!(padding.all_equal());
}

#[test]
fn submatrix_all_equal_compares_with_the_first_cell() {
    let matrix = Matrix::from_iter(3, 3, vec![1, 1, 2, 1, 1, 2, 3, 3, 1]);
    assert!(matrix.submatrix(0..=1, 0..=1).all_equal());
    assert!(matrix.submatrix(0..=1, 2..=2).all_equal());
    assert!(!matrix.submatrix(0..=1, 0..=2).all_equal());
    assert!(!matrix.submatrix(0..=2, 0..=0).all_equal());
    assert!(!matrix.submatrix(1..=2, 1..=2).all_equal());
    assert!(matrix.submatrix(2..=2, 2..=2).all_equal());
}

#[test]
fn submatrix_iter_ends_and_stays_ended() {
    let matrix = Matrix::from_iter(2, 2, vec![1, 2, 3, 4]);
    let window = matrix.submatrix(0..=1, 1..=1);
    let mut it = window.iter();
    assert_eq!(it.next(), Some(&2));
    assert_eq!(it.next(), Some(&4));
    assert_eq!(it.next(), None);
    assert_eq!(it.next(), None);
}
