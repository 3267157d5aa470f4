use rusparse::host::{
    csr_entry_rows, csr_gather, csr_product_pattern, csr_sum_pattern, csr_to_dense_backward, csrgemm_terms,
    sampled_csrgemm_terms, scatter_positions, transpose,
};
use rusparse::{CsrMatrix, DenseMatrix, DenseOrder, IndexBase, Operation, SparseError};

fn matrix<'a>(
    rows: usize,
    columns: usize,
    offsets: &'a [u32],
    indices: &'a [u32],
    values: &'a [f32],
    base: IndexBase,
) -> CsrMatrix<'a, f32> {
    CsrMatrix::new(rows, columns, offsets, indices, values, base).unwrap()
}

#[test]
fn transpose_keeps_or_transposes_the_operand() {
    let a = matrix(2, 3, &[0, 2, 3], &[0, 2, 1], &[1.0, 2.0, 3.0], IndexBase::Zero);
    assert!(transpose(a, Operation::NoTranspose).unwrap().is_none());
    for operation in [Operation::Transpose, Operation::ConjugateTranspose] {
        let t = transpose(a, operation).unwrap().unwrap();
        let t = t.as_ref();
        assert_eq!((t.rows(), t.columns()), (3, 2));
        assert_eq!(t.row_offsets(), &[0, 1, 2, 3]);
        assert_eq!(t.column_indices(), &[0, 1, 0]);
        assert_eq!(t.values(), &[1.0, 3.0, 2.0]);
    }
}

#[test]
fn sum_pattern_is_the_sorted_union_and_maps_every_entry() {
    let a = matrix(2, 4, &[1, 3, 4], &[4, 1, 2], &[1.0, 2.0, 3.0], IndexBase::One);
    let b = matrix(2, 4, &[0, 2, 3], &[0, 3, 1], &[4.0, 5.0, 6.0], IndexBase::Zero);
    let (pattern, left, right) = csr_sum_pattern(a, b).unwrap();
    let pattern = pattern.as_ref();
    assert_eq!(pattern.index_base(), IndexBase::One);
    assert_eq!(pattern.row_offsets(), &[1, 3, 4]);
    assert_eq!(pattern.column_indices(), &[1, 4, 2]);
    assert_eq!(pattern.values(), &[0.0, 0.0, 0.0]);
    assert_eq!(left, vec![1, 0, 2]);
    assert_eq!(right, vec![0, 1, 2]);
    for (entry, position) in left.iter().enumerate() {
        assert_eq!(pattern.column_indices()[*position as usize], a.column_indices()[entry]);
    }
    for (entry, position) in right.iter().enumerate() {
        assert_eq!(pattern.column_indices()[*position as usize], b.column_indices()[entry] + 1);
    }
}

#[test]
fn sum_pattern_rejects_different_shapes() {
    let a = matrix(2, 3, &[0, 0, 0], &[], &[], IndexBase::Zero);
    let b = matrix(3, 2, &[0, 0, 0, 0], &[], &[], IndexBase::Zero);
    assert!(matches!(
        csr_sum_pattern(a, b),
        Err(SparseError::DimensionMismatch("CSR sum operands must have the same shape"))
    ));
}

#[test]
fn product_pattern_collects_reached_columns() {
    let a = matrix(2, 3, &[0, 2, 3], &[0, 2, 1], &[1.0, 2.0, 3.0], IndexBase::Zero);
    let b = matrix(3, 4, &[0, 2, 3, 5], &[3, 0, 2, 0, 1], &[1.0; 5], IndexBase::Zero);
    let p = csr_product_pattern(a, b).unwrap();
    let p = p.as_ref();
    assert_eq!((p.rows(), p.columns()), (2, 4));
    assert_eq!(p.row_offsets(), &[0, 3, 4]);
    assert_eq!(p.column_indices(), &[0, 1, 3, 2]);
    let wrong = matrix(2, 4, &[0, 0, 0], &[], &[], IndexBase::Zero);
    assert!(matches!(
        csr_product_pattern(a, wrong),
        Err(SparseError::DimensionMismatch("CSR product inner dimensions differ"))
    ));
}

#[test]
fn product_pattern_reports_a_column_range_that_does_not_fit() {
    let a = matrix(1, 1, &[1, 2], &[1], &[1.0], IndexBase::One);
    let b = matrix(1, u32::MAX as usize, &[0, 1], &[7], &[1.0], IndexBase::Zero);
    assert!(matches!(
        csr_product_pattern(a, b),
        Err(SparseError::SizeOverflow("CSR column index range"))
    ));
}

#[test]
fn gemm_terms_list_every_meeting_pair_in_order() {
    let a = matrix(2, 3, &[0, 2, 3], &[0, 2, 1], &[1.0, 2.0, 3.0], IndexBase::Zero);
    let b = matrix(3, 4, &[0, 2, 3, 5], &[3, 0, 2, 0, 1], &[1.0; 5], IndexBase::Zero);
    let (p, terms) = csrgemm_terms(a, b).unwrap();
    assert_eq!(p.as_ref().column_indices(), &[0, 1, 3, 2]);
    assert_eq!(terms, vec![(0, 0, 2), (0, 1, 0), (1, 3, 0), (1, 4, 1), (2, 2, 3)]);
    assert!(matches!(
        csrgemm_terms(a, a),
        Err(SparseError::DimensionMismatch("op(A) columns must equal op(B) rows"))
    ));
}

#[test]
fn sampled_terms_keep_pairs_on_the_pattern_column() {
    let a = matrix(2, 3, &[0, 2, 3], &[0, 2, 1], &[1.0, 2.0, 3.0], IndexBase::Zero);
    let b = matrix(3, 4, &[0, 2, 3, 5], &[3, 0, 2, 0, 1], &[1.0; 5], IndexBase::Zero);
    let pattern = matrix(2, 4, &[1, 3, 4], &[1, 4, 3], &[0.0; 3], IndexBase::One);
    let terms = sampled_csrgemm_terms(pattern, a, b).unwrap();
    assert_eq!(terms, vec![(0, 0, 1), (0, 1, 3), (1, 0, 0), (2, 2, 2)]);
    let bad = matrix(3, 4, &[0, 0, 0, 0], &[], &[], IndexBase::Zero);
    assert!(matches!(
        sampled_csrgemm_terms(bad, a, b),
        Err(SparseError::DimensionMismatch("sampled sparse product dimensions differ from pattern"))
    ));
}

#[test]
fn gather_reads_dense_at_each_entry() {
    let pattern = matrix(2, 3, &[1, 3, 4], &[3, 1, 2], &[0.0; 3], IndexBase::One);
    let values = [1.0, 2.0, 3.0, 4.0, 5.0, 6.0];
    let dense = DenseMatrix::new(&values, 2, 3, DenseOrder::ColumnMajor).unwrap();
    assert_eq!(csr_gather(pattern, dense).unwrap(), vec![5.0, 1.0, 4.0]);
    let wrong = DenseMatrix::new(&values, 3, 2, DenseOrder::RowMajor).unwrap();
    assert!(matches!(
        csr_gather(pattern, wrong),
        Err(SparseError::DimensionMismatch("CSR gather shape mismatch"))
    ));
}

#[test]
fn backward_routes_gradient_to_the_last_duplicate() {
    let pattern = matrix(2, 3, &[0, 3, 5], &[1, 2, 1, 0, 0], &[0.0; 5], IndexBase::Zero);
    let grad = [1.0, 2.0, 3.0, 4.0, 5.0, 6.0];
    let dense = DenseMatrix::new(&grad, 2, 3, DenseOrder::RowMajor).unwrap();
    assert_eq!(csr_to_dense_backward(pattern, dense).unwrap(), vec![0.0, 3.0, 2.0, 0.0, 4.0]);
    let wrong = DenseMatrix::new(&grad, 3, 2, DenseOrder::RowMajor).unwrap();
    assert!(matches!(
        csr_to_dense_backward(pattern, wrong),
        Err(SparseError::DimensionMismatch("CSR to dense gradient shape mismatch"))
    ));
}

#[test]
fn entry_rows_and_scatter_positions() {
    let m = matrix(3, 4, &[1, 2, 2, 4], &[4, 1, 3], &[1.0; 3], IndexBase::One);
    assert_eq!(csr_entry_rows(m), vec![0, 2, 2]);
    assert_eq!(scatter_positions(m).unwrap(), vec![3, 8, 10]);
}
