use k2tree::{K2tree, Matrix};
use rand::Rng;

#[test]
fn test_simple() {
    let size = 4;
    let mut matrix = Matrix::from_iter(size, size, (0..size * size).map(|_| 0).collect());
    matrix.set(0, 1, 1);

    let k2tree = K2tree::new(matrix, 2);
    for i in 0..2 {
        for j in 0..2 {
            println!("{:?}", k2tree.get(i, j));
        }
    }
    assert_eq!(k2tree.get(0, 0), Some(&0));
    assert_eq!(k2tree.get(0, 1), Some(&1));
    assert_eq!(k2tree.get(1, 0), Some(&0));
    assert_eq!(k2tree.get(1, 1), Some(&0));
}

#[test]
fn test_compression() {
    let size = 512;
    let mut rng = rand::thread_rng();
    let cells: Vec<usize> = (0..size * size).map(|_| rng.gen::<usize>() % 2).collect();
    let matrix: Matrix<usize> = Matrix::from_iter(size, size, cells.clone());

    let k2tree = K2tree::new(matrix, 2);

    let mut size_nodes =
        k2tree.get_nodes().get_data().len() * std::mem::size_of::<Option<usize>>();
    size_nodes += k2tree.get_nodes().get_target_index().len() * std::mem::size_of::<usize>();
    let size_leaves = k2tree.get_leaf().len() * std::mem::size_of::<usize>();
    let size_static = std::mem::size_of::<K2tree<usize>>();
    let total_size = size_static + size_nodes + size_leaves;
    let raw_size = size * size * std::mem::size_of::<usize>();
    println!(
        "K2tree size (bytes) {{static:{}, nodes: {}, leaves: {}}}: {}",
        size_static, size_nodes, size_leaves, total_size
    );
    println!("raw size (bytes): {}", raw_size);
    println!(
        "compression rate: {}%",
        (1.0 - (total_size as f64 / raw_size as f64)) * 100.0
    );
    for i in 0..size {
        for j in 0..size {
            assert_eq!(k2tree.get(i, j), Some(&cells[i * size + j]));
        }
    }
}

fn grid_with(rows: usize, columns: usize, set: &[(usize, usize)]) -> Matrix<bool> {
    let mut matrix = Matrix::from_iter(rows, columns, vec![false; rows * columns]);
    for &(i, j) in set {
        matrix.set(i, j, true);
    }
    matrix
}

#[test]
fn four_by_four_with_one_cell_set() {
    let tree = K2tree::new(grid_with(4, 4, &[(0, 1)]), 2);
    assert_eq!(tree.get_k(), 2);
    assert_eq!(tree.get_rows(), 4);
    assert_eq!(tree.get_cols(), 4);
    assert_eq!(tree.get_virtual_size(), 4);
    assert_eq!(
        tree.get_nodes().get_data(),
        &vec![None, Some(false), Some(false), Some(false)]
    );
    assert_eq!(tree.get_nodes().get_target_index(), &vec![1, 1, 1, 1]);
    assert_eq!(tree.get_leaf(), &vec![false, true, false, false]);
    assert_eq!(tree.get(0, 1), Some(&true));
    assert_eq!(tree.get(3, 3), Some(&false));
    for i in 0..4 {
        for j in 0..4 {
            assert_eq!(tree.get(i, j), Some(&(i == 0 && j == 1)));
        }
    }
}

#[test]
fn nine_by_nine_padded_to_sixteen() {
    let set = [(0, 1), (2, 2), (3, 0)];
    let tree = K2tree::new(grid_with(9, 9, &set), 2);
    assert_eq!(tree.get_virtual_size(), 16);
    assert_eq!(tree.get_rows(), 9);
    assert_eq!(tree.get_cols(), 9);
    for i in 0..9 {
        for j in 0..9 {
            assert_eq!(tree.get(i, j), Some(&set.contains(&(i, j))));
        }
    }
}

#[test]
fn uniform_grid_gives_the_nodes_of_its_quadrants() {
    let tree = K2tree::new(Matrix::from_iter(4, 4, vec![7u8; 16]), 2);
    assert_eq!(tree.get_nodes().get_data(), &vec![Some(7u8); 4]);
    assert_eq!(tree.get_leaf().len(), 0);

    let tree = K2tree::new(Matrix::from_iter(8, 8, vec![true; 64]), 2);
    assert_eq!(tree.get_nodes().get_data(), &vec![Some(true); 4]);
    assert_eq!(tree.get_leaf().len(), 0);

    let tree = K2tree::new(Matrix::from_iter(9, 9, vec![3i32; 81]), 3);
    assert_eq!(tree.get_virtual_size(), 9);
    assert_eq!(tree.get_nodes().get_data(), &vec![Some(3i32); 9]);
    assert_eq!(tree.get_leaf().len(), 0);
    assert_eq!(tree.get(8, 8), Some(&3));
}

#[test]
fn uniform_grid_of_single_cell_quadrants_gives_leaves() {
    let tree = K2tree::new(Matrix::from_iter(2, 2, vec![true; 4]), 2);
    assert_eq!(tree.get_nodes().len(), 0);
    assert_eq!(tree.get_leaf(), &vec![true; 4]);
    assert_eq!(tree.get(1, 1), Some(&true));
}

#[test]
fn single_cell_grid_gives_one_leaf() {
    let tree = K2tree::new(Matrix::from_iter(1, 1, vec![5u32]), 2);
    assert_eq!(tree.get_virtual_size(), 1);
    assert_eq!(tree.get_nodes().len(), 0);
    assert_eq!(tree.get_leaf(), &vec![5u32]);
    assert_eq!(tree.get(0, 0), Some(&5));

    let tree = K2tree::new(Matrix::from_iter(1, 1, vec![true]), 7);
    assert_eq!(tree.get_nodes().len(), 0);
    assert_eq!(tree.get_leaf(), &vec![true]);
}

#[test]
fn next_pow_is_the_smallest_power_that_reaches() {
    assert_eq!(k2tree::k2tree::next_pow(2, 0), 1);
    assert_eq!(k2tree::k2tree::next_pow(2, 1), 1);
    assert_eq!(k2tree::k2tree::next_pow(2, 2), 2);
    assert_eq!(k2tree::k2tree::next_pow(2, 5), 8);
    assert_eq!(k2tree::k2tree::next_pow(2, 8), 8);
    assert_eq!(k2tree::k2tree::next_pow(2, 9), 16);
    assert_eq!(k2tree::k2tree::next_pow(3, 9), 9);
    assert_eq!(k2tree::k2tree::next_pow(3, 10), 27);
    assert_eq!(k2tree::k2tree::next_pow(10, 10000), 10000);
    assert_eq!(k2tree::k2tree::next_pow(10, 10001), 100000);
}

#[test]
fn grid_is_padded_to_the_next_power() {
    let tree = K2tree::new(Matrix::from_iter(3, 3, (1..=9).collect()), 2);
    assert_eq!(tree.get_virtual_size(), 4);
    assert_eq!(
        tree.get_nodes().get_data(),
        &vec![None::<i32>, None, None, None]
    );
    assert_eq!(
        tree.get_leaf(),
        &vec![1, 2, 4, 5, 3, 0, 6, 0, 7, 8, 0, 0, 9, 0, 0, 0]
    );
    let tree = K2tree::new(Matrix::from_iter(2, 5, (0..10).collect()), 3);
    assert_eq!(tree.get_virtual_size(), 9);
    assert_eq!(tree.get_rows(), 2);
    assert_eq!(tree.get_cols(), 5);
    let tree = K2tree::new(Matrix::from_iter(5, 1, vec![0u8; 5]), 4);
    assert_eq!(tree.get_virtual_size(), 16);
}

#[test]
fn padding_joins_uniform_quadrants() {
    let tree = K2tree::new(Matrix::from_iter(3, 3, vec![0u8; 9]), 2);
    assert_eq!(tree.get_virtual_size(), 4);
    assert_eq!(tree.get_nodes().get_data(), &vec![Some(0u8); 4]);
    assert_eq!(tree.get_leaf().len(), 0);

    let tree = K2tree::new(Matrix::from_iter(5, 5, vec![0u8; 25]), 2);
    assert_eq!(tree.get_virtual_size(), 8);
    assert_eq!(tree.get_nodes().get_data(), &vec![Some(0u8); 4]);
    assert_eq!(tree.get_leaf().len(), 0);

    let tree = K2tree::new(Matrix::from_iter(5, 5, vec![1u8; 25]), 2);
    for i in 0..5 {
        for j in 0..5 {
            assert_eq!(tree.get(i, j), Some(&1));
        }
    }
    assert_eq!(tree.get_nodes().get_data()[0], Some(1));
    assert_eq!(tree.get_nodes().get_data()[1], None);
    assert_eq!(tree.get_nodes().get_data()[3], None);
}

#[test]
fn nodes_stand_level_after_level() {
    // 8 x 8, all false but (0, 0) and (7, 7).
    let tree = K2tree::new(grid_with(8, 8, &[(0, 0), (7, 7)]), 2);
    let t = Some(true);
    let f = Some(false);
    assert_eq!(
        tree.get_nodes().get_data(),
        &vec![None, f, f, None, None, f, f, f, f, f, f, None]
    );
    assert_eq!(
        tree.get_leaf(),
        &vec![true, false, false, false, false, false, false, true]
    );
    assert_eq!(
        tree.get_nodes().get_target_index(),
        &vec![1, 1, 1, 2, 3, 3, 3, 3, 3, 3, 3, 4]
    );
    assert_eq!(tree.get(0, 0), t.as_ref());
    assert_eq!(tree.get(7, 7), t.as_ref());
    assert_eq!(tree.get(7, 6), f.as_ref());
    assert_eq!(tree.get(4, 3), f.as_ref());
}

#[test]
fn every_cell_is_read_back() {
    for &(rows, columns, k) in &[
        (5usize, 7usize, 2usize),
        (7, 5, 3),
        (16, 16, 4),
        (1, 9, 2),
        (10, 1, 3),
        (27, 27, 3),
        (6, 6, 5),
    ] {
        let cells: Vec<usize> = (0..rows * columns)
            .map(|n| (n * n + n / 3) % 3 / 2 + (n / 11) % 2)
            .collect();
        let tree = K2tree::new(Matrix::from_iter(rows, columns, cells.clone()), k);
        assert_eq!(tree.get_k(), k);
        assert_eq!(tree.get_rows(), rows);
        assert_eq!(tree.get_cols(), columns);
        for i in 0..rows {
            for j in 0..columns {
                assert_eq!(tree.get(i, j), Some(&cells[i * columns + j]));
            }
        }
    }
}

#[test]
fn sparse_grid_takes_fewer_entries_than_cells() {
    let size = 256;
    let tree = K2tree::new(grid_with(size, size, &[(3, 200), (100, 17)]), 2);
    let entries = tree.get_nodes().len() + tree.get_leaf().len();
    assert_eq!(entries, 2 * 4 * 8 - 4);
    assert!(entries < size * size);
    assert_eq!(tree.get(3, 200), Some(&true));
    assert_eq!(tree.get(100, 17), Some(&true));
    assert_eq!(tree.get(100, 18), Some(&false));
}

#[test]
fn tree_of_text_values() {
    let cells: Vec<String> = ["a", "a", "b", "a", "a", "a", "a", "a", "a"]
        .iter()
        .map(|s| s.to_string())
        .collect();
    let tree = K2tree::new(Matrix::from_iter(3, 3, cells.clone()), 3);
    assert_eq!(tree.get_virtual_size(), 3);
    assert_eq!(tree.get_nodes().len(), 0);
    assert_eq!(tree.get_leaf(), &cells);
    assert_eq!(tree.get(0, 2), Some(&"b".to_string()));
}
