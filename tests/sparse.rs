use sparse_sgd::{check_update_shapes, hcat, CooMatrix, CsrMatrix, SparseError};

fn sample() -> CooMatrix<f64> {
    let values = vec![1.0, 3.0, 2.0, 4.0];
    let indices = vec![0, 0, 1, 2];
    let indptr = vec![0, 2, 0, 2];
    CooMatrix::try_from_triplets(3, 3, indices, indptr, values).unwrap()
}

fn triplets(m: &CooMatrix<f64>) -> Vec<(usize, usize, f64)> {
    let mut t: Vec<(usize, usize, f64)> = m
        .row_indices()
        .iter()
        .zip(m.col_indices().iter())
        .zip(m.values().iter())
        .map(|((&i, &j), &v)| (i, j, v))
        .collect();
    t.sort_by(|a, b| a.partial_cmp(b).unwrap());
    t
}

#[test]
fn select_test() {
    let values = vec![1.0, 3.0, 2.0, 4.0];
    let indices = vec![0, 0, 1, 2];
    let indptr = vec![0, 2, 0, 2];
    let d = CooMatrix::try_from_triplets(3, 3, indices, indptr, values).unwrap();
    let a = d.select(0..2, 0..2).unwrap();
    let b = d.select(1..3, 1..3).unwrap();

    assert_eq!(a.nrows(), 2);
    assert_eq!(a.ncols(), 2);
    assert_eq!(a.values(), vec![1.0, 2.0]);

    assert_eq!(b.nrows(), 2);
    assert_eq!(b.ncols(), 2);
    assert_eq!(b.values(), vec![4.0]);
}

#[test]
fn hcat_test() {
    let v = vec![1.0, 3.0, 2.0, 4.0];
    let i = vec![0, 0, 1, 2];
    let j = vec![0, 2, 0, 2];
    let d = CooMatrix::try_from_triplets(3, 3, i, j, v).unwrap();

    let m = hcat(&d, &d).unwrap();
    assert_eq!(m.nrows(), 3);
    assert_eq!(m.ncols(), 6);
    assert_eq!(m.values(), vec![1.0, 3.0, 1.0, 3.0, 2.0, 2.0, 4.0, 4.0]);
}

#[test]
fn select_rebases_indices() {
    let b = sample().select(1..3, 1..3).unwrap();
    assert_eq!(b.row_indices(), vec![1]);
    assert_eq!(b.col_indices(), vec![1]);
}

#[test]
fn construction_length_mismatch() {
    let r = CooMatrix::try_from_triplets(3, 3, vec![0, 1], vec![0], vec![1.0, 2.0]);
    assert!(matches!(r, Err(SparseError::Construction { rows: 2, cols: 1, values: 2 })));
}

#[test]
fn construction_index_out_of_bounds() {
    let r = CooMatrix::try_from_triplets(2, 2, vec![0, 2], vec![0, 1], vec![1.0, 2.0]);
    assert!(matches!(r, Err(SparseError::IndexOutOfBounds { row: 2, col: 1 })));
    let r = CooMatrix::try_from_triplets(2, 2, vec![0], vec![2], vec![1.0]);
    assert!(matches!(r, Err(SparseError::IndexOutOfBounds { row: 0, col: 2 })));
}

#[test]
fn duplicates_are_refused() {
    let r = CooMatrix::try_from_triplets(2, 2, vec![1, 0, 1], vec![0, 1, 0], vec![1.5, 2.0, 2.5]);
    assert!(matches!(r, Err(SparseError::DuplicateEntry { row: 1, col: 0 })));
    let one = CooMatrix::try_from_triplets(1, 1, vec![0, 0], vec![0, 0], vec![1.0, 2.0]);
    assert!(matches!(one, Err(SparseError::DuplicateEntry { row: 0, col: 0 })));
    let ok = CooMatrix::try_from_triplets(2, 2, vec![1, 0, 1], vec![0, 0, 1], vec![1.5, 2.0, 2.5]);
    assert!(ok.is_ok());
}

#[test]
fn column_to_dense_by_row() {
    let y = CooMatrix::try_from_triplets(4, 2, vec![3, 0, 2], vec![1, 1, 0], vec![5.0, 6.0, 7.0]).unwrap();
    assert_eq!(y.column_to_dense(1, 0.0).unwrap(), vec![6.0, 0.0, 0.0, 5.0]);
    assert_eq!(y.column_to_dense(0, 0.0).unwrap(), vec![0.0, 0.0, 7.0, 0.0]);
    assert!(matches!(y.column_to_dense(2, 0.0), Err(SparseError::RangeOutOfBounds)));
}

#[test]
fn row_offsets_with_empty_rows() {
    let m = CooMatrix::try_from_triplets(5, 2, vec![3, 1], vec![0, 1], vec![1.0, 2.0]).unwrap();
    let c = CsrMatrix::from_coo(&m);
    assert_eq!(c.row_offsets(), vec![0, 0, 1, 1, 2, 2]);
    let d = c.scale_rows(&vec![1.0; 5], |a, b| a * b).unwrap();
    assert_eq!(d.row_offsets(), c.row_offsets());
}

#[test]
fn select_range_out_of_bounds() {
    let d = sample();
    assert!(matches!(d.select(0..4, 0..2), Err(SparseError::RangeOutOfBounds)));
    assert!(matches!(d.select(0..2, 1..4), Err(SparseError::RangeOutOfBounds)));
    let reversed = d.select(std::ops::Range { start: 2, end: 1 }, 0..2);
    assert!(matches!(reversed, Err(SparseError::RangeOutOfBounds)));
}

#[test]
fn select_full_range_is_identity() {
    let d = sample();
    let f = d.select(0..3, 0..3).unwrap();
    assert_eq!(f.nrows(), 3);
    assert_eq!(f.ncols(), 3);
    assert_eq!(f.row_indices(), d.row_indices());
    assert_eq!(f.col_indices(), d.col_indices());
    assert_eq!(f.values(), d.values());
}

#[test]
fn select_blocks_partition_entries() {
    let d = sample();
    let mut back: Vec<(usize, usize, f64)> = Vec::new();
    for (rows, cols) in [(0..1, 0..2), (0..1, 2..3), (1..3, 0..2), (1..3, 2..3)] {
        let (r0, c0) = (rows.start, cols.start);
        let b = d.select(rows, cols).unwrap();
        for (i, j, v) in triplets(&b) {
            back.push((i + r0, j + c0, v));
        }
    }
    back.sort_by(|a, b| a.partial_cmp(b).unwrap());
    assert_eq!(back, triplets(&d));
}

#[test]
fn round_trip_keeps_entries() {
    let m = CooMatrix::try_from_triplets(3, 4, vec![2, 0, 1, 0, 2], vec![3, 1, 0, 0, 1], vec![5.0, 1.0, 2.0, 7.0, 6.0])
        .unwrap();
    let c = CsrMatrix::from_coo(&m);
    assert_eq!(c.row_offsets(), vec![0, 2, 3, 5]);
    assert_eq!(c.col_indices(), vec![1, 0, 0, 3, 1]);
    assert_eq!(c.values(), vec![1.0, 7.0, 2.0, 5.0, 6.0]);
    let back = c.to_coo();
    assert_eq!(back.row_indices(), vec![0, 0, 1, 2, 2]);
    assert_eq!(triplets(&back), triplets(&m));
}

#[test]
fn hcat_then_select_recovers_operands() {
    let a = sample();
    let b = CooMatrix::try_from_triplets(3, 2, vec![2, 0], vec![1, 0], vec![8.0, 9.0]).unwrap();
    let m = hcat(&a, &b).unwrap().to_coo();
    assert_eq!(m.ncols(), 5);
    let left = m.select(0..3, 0..3).unwrap();
    let right = m.select(0..3, 3..5).unwrap();
    assert_eq!(triplets(&left), triplets(&a));
    assert_eq!(triplets(&right), triplets(&b));
}

#[test]
fn hcat_row_mismatch() {
    let a = sample();
    let b = CooMatrix::try_from_triplets(2, 2, vec![0], vec![0], vec![1.0]).unwrap();
    assert!(matches!(hcat(&a, &b), Err(SparseError::Shape { left: (3, 3), right: (2, 2) })));
}

#[test]
fn multiply_vec_by_storage_position() {
    let c = CsrMatrix::from_coo(&CooMatrix::try_from_triplets(3, 3, vec![0, 1, 2], vec![2, 0, 1], vec![1.0, 2.0, 3.0]).unwrap());
    let m = c.multiply_vec(&vec![10.0, 20.0, 30.0], |a, b| a * b).unwrap();
    assert_eq!(m.values(), vec![10.0, 40.0, 90.0]);
    assert_eq!(m.col_indices(), c.col_indices());
    let ones = c.multiply_vec(&vec![1.0, 1.0, 1.0], |a, b| a * b).unwrap();
    assert_eq!(ones.values(), c.values());
}

#[test]
fn multiply_vec_shape_error() {
    let c = CsrMatrix::from_coo(&sample());
    assert!(matches!(
        c.multiply_vec(&vec![1.0, 1.0], |a, b| a * b),
        Err(SparseError::Shape { left: (3, 3), right: (2, 1) })
    ));
    // Three rows but four stored entries: value three has no vector element.
    assert!(matches!(
        c.multiply_vec(&vec![1.0, 1.0, 1.0], |a, b| a * b),
        Err(SparseError::Shape { left: (3, 3), right: (3, 1) })
    ));
}

#[test]
fn multiply_vec_fewer_entries_than_rows() {
    let empty = CsrMatrix::from_coo(&CooMatrix::<bool>::try_from_triplets(2, 2, vec![], vec![], vec![]).unwrap());
    let same = empty.multiply_vec(&vec![true, true], |a, b| a && b).unwrap();
    assert_eq!(same.nnz(), 0);
    assert_eq!(same.row_offsets(), vec![0, 0, 0]);
    let c = CsrMatrix::from_coo(&CooMatrix::try_from_triplets(3, 2, vec![2, 0], vec![1, 0], vec![4.0, 5.0]).unwrap());
    let m = c.multiply_vec(&vec![2.0, 3.0, 10.0], |a, b| a * b).unwrap();
    assert_eq!(m.values(), vec![10.0, 12.0]);
    assert_eq!(m.row_offsets(), c.row_offsets());
    let ones = c.multiply_vec(&vec![1.0, 1.0, 1.0], |a, b| a * b).unwrap();
    assert_eq!(ones.values(), c.values());
}

#[test]
fn scale_rows_by_row_index() {
    let c = CsrMatrix::from_coo(&sample());
    let m = c.scale_rows(&vec![2.0, 3.0, 5.0], |a, b| a * b).unwrap();
    assert_eq!(m.values(), vec![2.0, 6.0, 6.0, 20.0]);
    let ones = c.scale_rows(&vec![1.0, 1.0, 1.0], |a, b| a * b).unwrap();
    assert_eq!(ones.values(), c.values());
    assert!(matches!(
        c.scale_rows(&vec![1.0], |a, b| a * b),
        Err(SparseError::Shape { left: (3, 3), right: (1, 1) })
    ));
}

#[test]
fn multiply_csr_elementwise() {
    let c = CsrMatrix::from_coo(&sample());
    let sq = c.multiply_csr(&c, |a, b| a * b).unwrap();
    assert_eq!(sq.values(), vec![1.0, 9.0, 4.0, 16.0]);
    let other = CsrMatrix::from_coo(&CooMatrix::try_from_triplets(3, 3, vec![0], vec![0], vec![1.0]).unwrap());
    assert!(matches!(c.multiply_csr(&other, |a, b| a * b), Err(SparseError::Shape { left: (3, 3), right: (3, 3) })));
    let wide = CsrMatrix::from_coo(&CooMatrix::<f64>::try_from_triplets(3, 4, vec![], vec![], vec![]).unwrap());
    assert!(matches!(c.multiply_csr(&wide, |a, b| a * b), Err(SparseError::Shape { left: (3, 3), right: (3, 4) })));
}

#[test]
fn sumnnz_per_row() {
    let c = CsrMatrix::from_coo(&sample());
    assert_eq!(c.sumnnz(0.0, |a, b| a + b), vec![4.0, 2.0, 4.0]);
}

#[test]
fn sumnnz_of_empty_matrix_is_zero() {
    let e = CsrMatrix::from_coo(&CooMatrix::<f64>::try_from_triplets(4, 2, vec![], vec![], vec![]).unwrap());
    assert_eq!(e.sumnnz(0.0, |a, b| a + b), vec![0.0; 4]);
}

#[test]
fn update_shapes_checked() {
    assert!(check_update_shapes(3, 5, 3, (3, 2), (5, 2), (5, 2), 2).is_ok());
    assert!(matches!(check_update_shapes(0, 5, 0, (0, 2), (5, 2), (5, 2), 2), Err(SparseError::NoObservations)));
    assert!(matches!(
        check_update_shapes(3, 5, 2, (3, 2), (5, 2), (5, 2), 2),
        Err(SparseError::Shape { left: (3, 5), right: (2, 1) })
    ));
    assert!(matches!(
        check_update_shapes(3, 5, 3, (3, 1), (5, 2), (5, 2), 2),
        Err(SparseError::Shape { left: (3, 2), right: (3, 1) })
    ));
    assert!(matches!(
        check_update_shapes(3, 5, 3, (3, 2), (4, 2), (4, 2), 2),
        Err(SparseError::Shape { left: (5, 2), right: (4, 2) })
    ));
    assert!(matches!(
        check_update_shapes(3, 5, 3, (3, 2), (5, 2), (5, 3), 2),
        Err(SparseError::Shape { left: (5, 2), right: (5, 3) })
    ));
}

#[test]
fn transpose_swaps_indices() {
    let t = sample().transpose();
    assert_eq!(t.nrows(), 3);
    assert_eq!(t.ncols(), 3);
    assert_eq!(t.row_indices(), vec![0, 2, 0, 2]);
    assert_eq!(t.col_indices(), vec![0, 0, 1, 2]);
    assert_eq!(t.values(), vec![1.0, 3.0, 2.0, 4.0]);
    let wide = CooMatrix::try_from_triplets(2, 5, vec![1], vec![4], vec![7.0]).unwrap().transpose();
    assert_eq!((wide.nrows(), wide.ncols()), (5, 2));
    assert_eq!(CsrMatrix::from_coo(&wide).sumnnz(0.0, |a, b| a + b), vec![0.0, 0.0, 0.0, 0.0, 7.0]);
}

#[test]
fn select_grid_partition_entries() {
    let d = CooMatrix::try_from_triplets(
        4,
        5,
        vec![0, 0, 1, 2, 3, 3, 2],
        vec![0, 4, 2, 1, 3, 0, 4],
        vec![1.0, 2.0, 3.0, 4.0, 5.0, 6.0, 7.0],
    )
    .unwrap();
    let row_cuts = [0, 1, 1, 4];
    let col_cuts = [0, 2, 3, 5];
    let mut back: Vec<(usize, usize, f64)> = Vec::new();
    let mut stored = 0;
    for a in 0..row_cuts.len() - 1 {
        for b in 0..col_cuts.len() - 1 {
            let block = d.select(row_cuts[a]..row_cuts[a + 1], col_cuts[b]..col_cuts[b + 1]).unwrap();
            stored += block.nnz();
            for (i, j, v) in triplets(&block) {
                back.push((i + row_cuts[a], j + col_cuts[b], v));
            }
        }
    }
    back.sort_by(|a, b| a.partial_cmp(b).unwrap());
    assert_eq!(stored, d.nnz());
    assert_eq!(back, triplets(&d));
}
