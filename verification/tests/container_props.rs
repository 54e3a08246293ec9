use sparse_matrix::MatrixError;
use sparse_matrix::SparseMatrix;

#[test]
fn new_matrix_is_empty_and_stale() {
    let local = SparseMatrix::new();
    assert!(local.shape() == (0, 0));
    assert!(local.num_nonzero() == 0);
    assert!(!local.is_fresh());
}

#[test]
fn identity_of_order_zero_is_empty() {
    let local = SparseMatrix::identity(0);
    assert!(local.shape() == (0, 0));
    assert!(local.num_nonzero() == 0);
}

#[test]
fn identity_off_diagonal_absent() {
    let local = SparseMatrix::identity(3);
    assert!(local.peek_at(0, 1).unwrap().is_none());
    assert!(local.peek_at(2, 0).unwrap().is_none());
    assert!(local.num_nonzero() == 3);
}

#[test]
fn insert_then_peek_returns_value() {
    let mut local = SparseMatrix::empty_with_shape(5, 5);
    local.insert(2, 3, f64::to_bits(-4.25)).unwrap();
    assert!(local.peek_at(2, 3).unwrap() == Some(f64::to_bits(-4.25)));
}

#[test]
fn insert_overwrites_existing_cell() {
    let mut local = SparseMatrix::empty_with_shape(3, 3);
    local.insert(1, 1, f64::to_bits(1.5)).unwrap();
    local.insert(1, 1, f64::to_bits(2.5)).unwrap();
    assert!(local.num_nonzero() == 1);
    assert!(local.peek_at(1, 1).unwrap() == Some(f64::to_bits(2.5)));
}

#[test]
fn explicit_zero_is_stored_and_counted() {
    let mut local = SparseMatrix::empty_with_shape(3, 3);
    local.insert(0, 0, f64::to_bits(0.0)).unwrap();
    assert!(local.num_nonzero() == 1);
    assert!(local.peek_at(0, 0).unwrap() == Some(f64::to_bits(0.0)));
}

#[test]
fn clear_on_untouched_cell_is_absent() {
    let mut local = SparseMatrix::empty_with_shape(4, 4);
    assert!(local.clear_at(3, 3).unwrap().is_none());
    assert!(local.num_nonzero() == 0);
}

#[test]
fn column_bound_checked_after_row() {
    let mut local = SparseMatrix::empty_with_shape(3, 3);
    assert!(local.insert(0, 7, f64::to_bits(1.0)) == Err(MatrixError::ColOutOfBounds));
    assert!(local.peek_at(1, 9) == Err(MatrixError::ColOutOfBounds));
    assert!(local.clear_at(9, 9) == Err(MatrixError::RowOutOfBounds));
}

#[test]
fn triplets_before_a_bad_one_stay_applied() {
    let mut local = SparseMatrix::empty_with_shape(3, 3);
    let result = local.insert_triplets(&vec![
        (0, 0, f64::to_bits(1.0)),
        (5, 0, f64::to_bits(2.0)),
        (1, 1, f64::to_bits(3.0)),
    ]);
    assert!(result == Err(MatrixError::RowOutOfBounds));
    assert!(local.peek_at(0, 0).unwrap() == Some(f64::to_bits(1.0)));
    assert!(local.peek_at(1, 1).unwrap().is_none());
    assert!(local.num_nonzero() == 1);
}

#[test]
fn empty_triplet_list_is_accepted() {
    let mut local = SparseMatrix::empty_with_shape(2, 2);
    local.insert_triplets(&vec![]).unwrap();
    assert!(local.num_nonzero() == 0);
}

#[test]
fn mutation_staleness_and_rebuild_freshness() {
    let mut local = SparseMatrix::empty_with_shape(2, 2);
    assert!(!local.is_fresh());
    local.rebuild_compressed();
    assert!(local.is_fresh());
    local.insert(0, 0, f64::to_bits(1.0)).unwrap();
    assert!(!local.is_fresh());
    local.rebuild_compressed();
    assert!(local.is_fresh());
    local.clear_at(0, 0).unwrap();
    assert!(!local.is_fresh());
    local.rebuild_compressed();
    assert!(local.is_fresh());
    local.transpose_inplace();
    assert!(!local.is_fresh());
}

#[test]
fn rebuild_of_empty_matrix_has_zero_offsets() {
    let mut local = SparseMatrix::empty_with_shape(2, 3);
    local.rebuild_compressed();
    assert!(*local.row_offsets() == vec![0, 0, 0]);
    assert!(local.col_indices().is_empty());
    assert!(local.cell_values().is_empty());
}

#[test]
fn row_iter_scatters_dense_rows() {
    let mut local = SparseMatrix::empty_with_shape(2, 3);
    local.insert(0, 1, f64::to_bits(7.0)).unwrap();
    local.insert(1, 2, f64::to_bits(8.0)).unwrap();
    local.rebuild_compressed();
    let mut rows = local.row_iter();
    let first = rows.next().unwrap();
    assert!(first == vec![0, f64::to_bits(7.0), 0]);
    let second = rows.next().unwrap();
    assert!(second == vec![0, 0, f64::to_bits(8.0)]);
    assert!(rows.next().is_none());
}

#[test]
fn transpose_of_square_matrix_moves_cells() {
    let mut local = SparseMatrix::empty_with_shape(3, 3);
    local
        .insert_triplets(&vec![
            (0, 0, f64::to_bits(10.0)),
            (0, 1, f64::to_bits(20.0)),
            (1, 1, f64::to_bits(30.0)),
            (2, 2, f64::to_bits(50.0)),
        ])
        .unwrap();
    let transposed = local.create_transpose();
    assert!(transposed.shape() == (3, 3));
    assert!(transposed.peek_at(1, 0).unwrap() == Some(f64::to_bits(20.0)));
    assert!(transposed.peek_at(0, 1).unwrap().is_none());
}

#[test]
fn transpose_round_trip_restores_cells() {
    let mut local = SparseMatrix::empty_with_shape(2, 4);
    local
        .insert_triplets(&vec![
            (0, 3, f64::to_bits(1.25)),
            (1, 0, f64::to_bits(-2.0)),
            (1, 2, f64::to_bits(9.5)),
        ])
        .unwrap();
    let round = local.create_transpose().create_transpose();
    assert!(round.shape() == (2, 4));
    assert!(round.num_nonzero() == 3);
    assert!(round.peek_at(0, 3).unwrap() == Some(f64::to_bits(1.25)));
    assert!(round.peek_at(1, 0).unwrap() == Some(f64::to_bits(-2.0)));
    assert!(round.peek_at(1, 2).unwrap() == Some(f64::to_bits(9.5)));
    assert!(round.peek_at(0, 0).unwrap().is_none());
}

#[test]
fn addition_treats_absence_as_zero() {
    let mut left = SparseMatrix::empty_with_shape(2, 2);
    left.insert(0, 0, f64::to_bits(1.0)).unwrap();
    let mut right = SparseMatrix::empty_with_shape(2, 2);
    right.insert(1, 1, f64::to_bits(2.0)).unwrap();
    let sum = left
        .add_with(&right, |a: u64, b: u64| {
            f64::to_bits(f64::from_bits(a) + f64::from_bits(b))
        })
        .unwrap();
    assert!(sum.peek_at(0, 0).unwrap() == Some(f64::to_bits(1.0)));
    assert!(sum.peek_at(1, 1).unwrap() == Some(f64::to_bits(2.0)));
    assert!(sum.peek_at(0, 1).unwrap().is_none());
    assert!(sum.num_nonzero() == 2);
}

#[test]
fn render_produces_exact_boxed_text() {
    let mut local = SparseMatrix::empty_with_shape(1, 1);
    local.insert(0, 0, f64::to_bits(10.0)).unwrap();
    local.rebuild_compressed();
    let mut cells: Vec<Vec<String>> = Vec::new();
    let mut rows = local.row_iter();
    while let Some(row) = rows.next() {
        cells.push(
            row.iter()
                .map(|w| format!("{:>6.2}", f64::from_bits(*w)))
                .collect(),
        );
    }
    let text = local.render(&cells);
    assert!(text == "\t/        \\\n\t|  10.00 |\n\t\\        /\n");
}
