use sparse_matrix::MatrixError;
use sparse_matrix::SparseMatrix;

#[test]
fn sparsemat_creation() {
    let _local = SparseMatrix::new();
    let _local2 = SparseMatrix::empty_with_shape(3, 3);
}

#[test]
fn sparsemat_identity_creation() {
    let local = SparseMatrix::identity(3);
    assert!(local.num_nonzero() == 3);
    assert!(local.peek_at(0, 0).unwrap() == Some(f64::to_bits(1.0)));
    assert!(local.peek_at(1, 1).unwrap() == Some(f64::to_bits(1.0)));
    assert!(local.peek_at(2, 2).unwrap() == Some(f64::to_bits(1.0)));
}

#[test]
fn sparsemat_transpose_creation() {
    let mut local = SparseMatrix::empty_with_shape(4, 6);
    local
        .insert_triplets(&vec![
            (0, 0, f64::to_bits(10.0)),
            (0, 1, f64::to_bits(20.0)),
            (1, 1, f64::to_bits(30.0)),
            (2, 2, f64::to_bits(50.0)),
            (1, 3, f64::to_bits(40.0)),
            (2, 3, f64::to_bits(60.0)),
            (2, 4, f64::to_bits(70.0)),
            (3, 5, f64::to_bits(80.0)),
        ])
        .unwrap();

    let local2 = local.create_transpose();
    assert!(local2.shape() == (6, 4));
    assert!(local2.peek_at(0, 0).unwrap() == Some(f64::to_bits(10.0)));
    assert!(local2.peek_at(0, 1).unwrap().is_none());
    assert!(local2.peek_at(1, 0).unwrap() == Some(f64::to_bits(20.0)));
    assert!(local2.peek_at(1, 1).unwrap() == Some(f64::to_bits(30.0)));
    assert!(local2.peek_at(2, 2).unwrap() == Some(f64::to_bits(50.0)));
    assert!(local2.peek_at(3, 1).unwrap() == Some(f64::to_bits(40.0)));
    assert!(local2.peek_at(1, 3).unwrap().is_none());
    assert!(local2.peek_at(3, 2).unwrap() == Some(f64::to_bits(60.0)));
    assert!(local2.peek_at(2, 3).unwrap().is_none());
    assert!(local2.peek_at(4, 2).unwrap() == Some(f64::to_bits(70.0)));
    assert!(local2.peek_at(5, 3).unwrap() == Some(f64::to_bits(80.0)));
}

#[test]
fn sparsemat_rowiter() {
    let mut local = SparseMatrix::empty_with_shape(4, 6);
    local
        .insert_triplets(&vec![
            (0, 0, f64::to_bits(10.0)),
            (0, 1, f64::to_bits(20.0)),
            (1, 1, f64::to_bits(30.0)),
            (2, 2, f64::to_bits(50.0)),
            (1, 3, f64::to_bits(40.0)),
            (2, 3, f64::to_bits(60.0)),
            (2, 4, f64::to_bits(70.0)),
            (3, 5, f64::to_bits(80.0)),
        ])
        .unwrap();

    local.rebuild_compressed();

    let mut rows = local.row_iter();
    while let Some(row) = rows.next() {
        let floats: Vec<f64> = row.iter().map(|w| f64::from_bits(*w)).collect();
        println!("{:?}", floats);
    }
}

#[test]
fn sparsemat_insert() {
    let mut local = SparseMatrix::empty_with_shape(3, 3);
    local.insert(0, 0, f64::to_bits(1.0)).unwrap();
}

#[test]
fn sparsemat_insert_oob() {
    let mut local = SparseMatrix::empty_with_shape(3, 3);
    assert!(local.insert(4, 4, f64::to_bits(1.0)) == Err(MatrixError::RowOutOfBounds));
}

#[test]
fn sparsemat_insert_triplets() {
    let mut local = SparseMatrix::empty_with_shape(3, 3);
    local
        .insert_triplets(&vec![
            (0, 0, f64::to_bits(1.0)),
            (1, 1, f64::to_bits(2.0)),
            (2, 2, f64::to_bits(3.0)),
        ])
        .unwrap();
    assert!(local.peek_at(0, 0).unwrap() == Some(f64::to_bits(1.0)));
    assert!(local.peek_at(1, 1).unwrap() == Some(f64::to_bits(2.0)));
    assert!(local.peek_at(2, 2).unwrap() == Some(f64::to_bits(3.0)));
}

#[test]
fn sparsemat_remove() {
    let mut local = SparseMatrix::empty_with_shape(3, 3);
    local.insert(0, 0, f64::to_bits(1.0)).unwrap();

    let output = local.clear_at(0, 0).unwrap();
    assert!(output == Some(f64::to_bits(1.0)));

    let output = local.clear_at(0, 0).unwrap();
    assert!(output.is_none());

    let output = local.clear_at(1, 1).unwrap();
    assert!(output.is_none());
}

#[test]
fn sparsemat_remove_oob() {
    let mut local = SparseMatrix::empty_with_shape(3, 3);

    assert!(local.clear_at(4, 4) == Err(MatrixError::RowOutOfBounds));
}

#[test]
fn sparsemat_peek() {
    let mut local = SparseMatrix::empty_with_shape(3, 3);

    local
        .insert_triplets(&vec![
            (0, 0, f64::to_bits(1.0)),
            (1, 1, f64::to_bits(2.0)),
            (2, 2, f64::to_bits(3.0)),
        ])
        .unwrap();

    assert!(local.peek_at(0, 0).unwrap() == Some(f64::to_bits(1.0)));
    assert!(local.peek_at(0, 1).unwrap().is_none());
}

#[test]
fn sparsemat_transposeinplace() {
    let mut local = SparseMatrix::empty_with_shape(4, 4);

    local
        .insert_triplets(&vec![
            (0, 0, f64::to_bits(1.0)),
            (1, 0, f64::to_bits(2.0)),
            (2, 2, f64::to_bits(3.0)),
            (2, 3, f64::to_bits(4.0)),
        ])
        .unwrap();
    local.transpose_inplace();

    assert!(local.peek_at(0, 0).unwrap() == Some(f64::to_bits(1.0)));
    assert!(local.peek_at(0, 1).unwrap() == Some(f64::to_bits(2.0)));
    assert!(local.peek_at(1, 0).unwrap().is_none());
    assert!(local.peek_at(2, 2).unwrap() == Some(f64::to_bits(3.0)));
    assert!(local.peek_at(3, 2).unwrap() == Some(f64::to_bits(4.0)));
    assert!(local.peek_at(2, 3).unwrap().is_none());
}

#[test]
fn sparsemat_compressedrepr() {
    let mut local = SparseMatrix::empty_with_shape(4, 4);
    local
        .insert_triplets(&vec![
            (0, 0, f64::to_bits(5.0)),
            (1, 1, f64::to_bits(8.0)),
            (3, 1, f64::to_bits(6.0)),
            (2, 2, f64::to_bits(3.0)),
        ])
        .unwrap();
    local.rebuild_compressed();
    assert!(
        *local.cell_values()
            == vec![
                f64::to_bits(5.0),
                f64::to_bits(8.0),
                f64::to_bits(3.0),
                f64::to_bits(6.0),
            ]
    );
    assert!(*local.col_indices() == vec![0, 1, 2, 1]);
    assert!(*local.row_offsets() == vec![0, 1, 2, 3, 4]);

    let mut local2 = SparseMatrix::empty_with_shape(4, 6);
    local2
        .insert_triplets(&vec![
            (0, 0, f64::to_bits(10.0)),
            (0, 1, f64::to_bits(20.0)),
            (1, 1, f64::to_bits(30.0)),
            (2, 2, f64::to_bits(50.0)),
            (1, 3, f64::to_bits(40.0)),
            (2, 3, f64::to_bits(60.0)),
            (2, 4, f64::to_bits(70.0)),
            (3, 5, f64::to_bits(80.0)),
        ])
        .unwrap();
    local2.rebuild_compressed();
    assert!(
        *local2.cell_values()
            == vec![
                f64::to_bits(10.0),
                f64::to_bits(20.0),
                f64::to_bits(30.0),
                f64::to_bits(40.0),
                f64::to_bits(50.0),
                f64::to_bits(60.0),
                f64::to_bits(70.0),
                f64::to_bits(80.0),
            ]
    );
    assert!(*local2.col_indices() == vec![0, 1, 1, 3, 2, 3, 4, 5]);
    assert!(*local2.row_offsets() == vec![0, 2, 4, 7, 8]);
}

#[test]
fn sparsemat_display() {
    let mut local = SparseMatrix::empty_with_shape(4, 6);
    local
        .insert_triplets(&vec![
            (0, 0, f64::to_bits(10.0)),
            (0, 1, f64::to_bits(20.0)),
            (1, 1, f64::to_bits(30.0)),
            (2, 2, f64::to_bits(50.0)),
            (1, 3, f64::to_bits(40.0)),
            (2, 3, f64::to_bits(60.0)),
            (2, 4, f64::to_bits(70.0)),
            (3, 5, f64::to_bits(80.0)),
        ])
        .unwrap();
    local.rebuild_compressed();
    let mut cells: Vec<Vec<String>> = Vec::new();
    let mut rows = local.row_iter();
    while let Some(row) = rows.next() {
        cells.push(
            row.iter()
                .map(|w| format!("{:>6.2}", f64::from_bits(*w)))
                .collect(),
        );
    }
    println!("{}", local.render(&cells));
}

#[test]
fn sparsemat_bad_addition() {
    let local = SparseMatrix::empty_with_shape(3, 3);
    let local2 = SparseMatrix::empty_with_shape(2, 2);

    let result = local.add_with(&local2, |a: u64, b: u64| {
        f64::to_bits(f64::from_bits(a) + f64::from_bits(b))
    });
    assert!(matches!(result, Err(MatrixError::ShapeMismatch)));
}

#[test]
fn sparsemat_good_addition() {
    let mut local = SparseMatrix::empty_with_shape(3, 3);
    local
        .insert_triplets(&vec![
            (0, 0, f64::to_bits(10.0)),
            (0, 1, f64::to_bits(20.0)),
            (1, 1, f64::to_bits(30.0)),
            (2, 2, f64::to_bits(50.0)),
        ])
        .unwrap();
    let local2 = local.create_transpose();

    let local3 = local
        .add_with(&local2, |a: u64, b: u64| {
            f64::to_bits(f64::from_bits(a) + f64::from_bits(b))
        })
        .unwrap();
    assert!(local3.peek_at(0, 0).unwrap() == Some(f64::to_bits(20.0)));
    assert!(local3.peek_at(0, 1).unwrap() == Some(f64::to_bits(20.0)));
    assert!(local3.peek_at(1, 0).unwrap() == Some(f64::to_bits(20.0)));
    assert!(local3.peek_at(1, 1).unwrap() == Some(f64::to_bits(60.0)));
    assert!(local3.peek_at(2, 2).unwrap() == Some(f64::to_bits(100.0)));
}
