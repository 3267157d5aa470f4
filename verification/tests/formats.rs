use rusparse::formats::{check_length, index_limit, validate_dimension, validate_offsets};
use rusparse::{
    BlockDirection, BsrMatrix, CooMatrix, CscMatrix, CsrMatrix, DenseMatrix, DenseOrder, EllMatrix, IndexBase,
    SparseError, SparseVector,
};

#[test]
fn csr_validation_reports_the_first_failed_check() {
    let v = [1.0_f32, 2.0];
    assert!(matches!(
        CsrMatrix::new(2, 3, &[0, 1], &[0, 1], &v, IndexBase::Zero),
        Err(SparseError::BufferLength { name: "CSR row offsets", expected: 3, actual: 2 })
    ));
    assert!(matches!(
        CsrMatrix::new(2, 3, &[0, 1, 2], &[0], &v, IndexBase::Zero),
        Err(SparseError::BufferLength { name: "CSR column indices", expected: 2, actual: 1 })
    ));
    assert!(matches!(
        CsrMatrix::new(2, 3, &[1, 1, 2], &[0, 1], &v, IndexBase::Zero),
        Err(SparseError::InvalidRowOffsets("first row offset does not equal the index base"))
    ));
    assert!(matches!(
        CsrMatrix::new(2, 3, &[0, 2, 1], &[0, 1], &v, IndexBase::Zero),
        Err(SparseError::InvalidRowOffsets("row offsets are not nondecreasing"))
    ));
    assert!(matches!(
        CsrMatrix::new(2, 3, &[0, 1, 1], &[0, 1], &v, IndexBase::Zero),
        Err(SparseError::InvalidRowOffsets("terminal row offset does not match nnz"))
    ));
    assert!(matches!(
        CsrMatrix::new(2, 3, &[0, 1, 2], &[0, 3], &v, IndexBase::Zero),
        Err(SparseError::InvalidColumnIndex)
    ));
    assert!(matches!(
        CsrMatrix::new(2, 3, &[1, 2, 3], &[0, 1], &v, IndexBase::One),
        Err(SparseError::InvalidColumnIndex)
    ));
    assert!(matches!(
        CsrMatrix::<f32>::new(1 << 32, 3, &[0], &[], &[], IndexBase::Zero),
        Err(SparseError::DimensionTooLarge("CSR rows"))
    ));
    assert!(matches!(
        CsrMatrix::<f32>::new(0, u32::MAX as usize, &[1], &[], &[], IndexBase::One),
        Err(SparseError::SizeOverflow("CSR column index range"))
    ));
}

#[test]
fn csr_transpose_with_permutation_regroups_by_column() {
    let v = [1.0_f32, 2.0, 3.0, 4.0];
    let m = CsrMatrix::new(2, 3, &[1, 3, 5], &[3, 1, 1, 2], &v, IndexBase::One).unwrap();
    let (t, perm) = m.transpose_with_permutation().unwrap();
    let t = t.as_ref();
    assert_eq!((t.rows(), t.columns(), t.index_base()), (3, 2, IndexBase::One));
    assert_eq!(t.row_offsets(), &[1, 3, 4, 5]);
    assert_eq!(t.column_indices(), &[1, 2, 2, 1]);
    assert_eq!(t.values(), &[2.0, 3.0, 4.0, 1.0]);
    assert_eq!(perm, vec![1, 2, 3, 0]);
}

#[test]
fn coo_validation_and_getters() {
    let v = [1.0_f32, 2.0];
    let m = CooMatrix::new(3, 2, &[2, 0], &[1, 0], &v, IndexBase::Zero).unwrap();
    assert_eq!((m.rows(), m.columns(), m.nnz(), m.index_base()), (3, 2, 2, IndexBase::Zero));
    assert!(matches!(
        CooMatrix::new(3, 2, &[2], &[1, 0], &v, IndexBase::Zero),
        Err(SparseError::BufferLength { name: "COO row indices", expected: 2, actual: 1 })
    ));
    assert!(matches!(
        CooMatrix::new(3, 2, &[2, 0], &[1], &v, IndexBase::Zero),
        Err(SparseError::BufferLength { name: "COO column indices", expected: 2, actual: 1 })
    ));
    assert!(matches!(
        CooMatrix::new(3, 2, &[3, 0], &[1, 0], &v, IndexBase::Zero),
        Err(SparseError::InvalidSparseIndex("COO row"))
    ));
    assert!(matches!(
        CooMatrix::new(3, 2, &[2, 0], &[1, 2], &v, IndexBase::Zero),
        Err(SparseError::InvalidSparseIndex("COO column"))
    ));
    assert!(matches!(
        CooMatrix::new(3, 2, &[0, 1], &[1, 1], &v, IndexBase::One),
        Err(SparseError::InvalidSparseIndex("COO row"))
    ));
    assert!(matches!(
        CooMatrix::<f32>::new(u32::MAX as usize, 2, &[], &[], &[], IndexBase::One),
        Err(SparseError::SizeOverflow("COO row range"))
    ));
    assert!(matches!(
        CooMatrix::<f32>::new(1 << 32, 2, &[], &[], &[], IndexBase::One),
        Err(SparseError::DimensionTooLarge("COO rows"))
    ));
}

#[test]
fn csc_to_csr_regroups_by_row() {
    let v = [1.0_f32, 2.0, 3.0];
    let m = CscMatrix::new(2, 3, &[0, 2, 2, 3], &[1, 0, 1], &v, IndexBase::Zero).unwrap();
    assert_eq!(m.column_offsets(), &[0, 2, 2, 3]);
    let csr = m.to_csr().unwrap();
    let csr = csr.as_ref();
    assert_eq!(csr.row_offsets(), &[0, 1, 3]);
    assert_eq!(csr.column_indices(), &[0, 0, 2]);
    assert_eq!(csr.values(), &[2.0, 1.0, 3.0]);
    assert!(matches!(
        CscMatrix::new(2, 3, &[0, 2, 1, 3], &[1, 0, 1], &v, IndexBase::Zero),
        Err(SparseError::InvalidSparseOffsets { format: "CSC column", message: "offsets are not nondecreasing" })
    ));
    assert!(matches!(
        CscMatrix::new(2, 3, &[0, 2, 2, 3], &[1, 0, 2], &v, IndexBase::Zero),
        Err(SparseError::InvalidSparseIndex("CSC row"))
    ));
    assert!(matches!(
        CscMatrix::new(2, 3, &[0, 2, 2], &[1, 0, 1], &v, IndexBase::Zero),
        Err(SparseError::BufferLength { name: "CSC column offsets", expected: 4, actual: 3 })
    ));
}

#[test]
fn bsr_to_csr_expands_blocks_in_both_directions() {
    let v = [1.0_f32, 2.0, 3.0, 4.0];
    let row = BsrMatrix::new(1, 2, 2, &[0, 1], &[1], &v, BlockDirection::RowMajor, IndexBase::Zero).unwrap();
    assert_eq!((row.rows(), row.columns(), row.nnzb(), row.block_dimension()), (2, 4, 1, 2));
    let csr = row.to_csr().unwrap();
    assert_eq!(csr.as_ref().row_offsets(), &[0, 2, 4]);
    assert_eq!(csr.as_ref().column_indices(), &[2, 3, 2, 3]);
    assert_eq!(csr.as_ref().values(), &[1.0, 2.0, 3.0, 4.0]);
    let column = BsrMatrix::new(1, 2, 2, &[1, 2], &[2], &v, BlockDirection::ColumnMajor, IndexBase::One).unwrap();
    let csr = column.to_csr().unwrap();
    assert_eq!(csr.as_ref().row_offsets(), &[1, 3, 5]);
    assert_eq!(csr.as_ref().column_indices(), &[3, 4, 3, 4]);
    assert_eq!(csr.as_ref().values(), &[1.0, 3.0, 2.0, 4.0]);
    assert!(matches!(
        BsrMatrix::new(1, 2, 0, &[0, 1], &[1], &v, BlockDirection::RowMajor, IndexBase::Zero),
        Err(SparseError::InvalidBlockDimension)
    ));
    assert!(matches!(
        BsrMatrix::new(1, 2, 2, &[0, 1], &[1], &v[..3], BlockDirection::RowMajor, IndexBase::Zero),
        Err(SparseError::BufferLength { name: "BSR values", expected: 4, actual: 3 })
    ));
    assert!(matches!(
        BsrMatrix::new(1, 2, 2, &[0, 1], &[2], &v, BlockDirection::RowMajor, IndexBase::Zero),
        Err(SparseError::InvalidSparseIndex("BSR block column"))
    ));
    assert!(matches!(
        BsrMatrix::new(1, 2, 2, &[1, 1], &[1], &v, BlockDirection::RowMajor, IndexBase::Zero),
        Err(SparseError::InvalidSparseOffsets {
            format: "BSR row",
            message: "first offset does not equal the index base"
        })
    ));
}

#[test]
fn ell_to_csr_skips_padding() {
    let pad = EllMatrix::<f32>::padding_index();
    assert_eq!(pad, u32::MAX);
    let v = [1.0_f32, 2.0, 3.0, 4.0];
    let slots = [2, 0, pad, 1];
    let m = EllMatrix::new(2, 3, 2, &slots, &v, IndexBase::Zero).unwrap();
    assert_eq!((m.rows(), m.columns(), m.width()), (2, 3, 2));
    let csr = m.to_csr().unwrap();
    assert_eq!(csr.as_ref().row_offsets(), &[0, 1, 3]);
    assert_eq!(csr.as_ref().column_indices(), &[2, 0, 1]);
    assert_eq!(csr.as_ref().values(), &[1.0, 2.0, 4.0]);
    assert!(matches!(
        EllMatrix::new(2, 3, 2, &[2, 0, 1], &v, IndexBase::Zero),
        Err(SparseError::BufferLength { name: "ELL column indices", expected: 4, actual: 3 })
    ));
    assert!(matches!(
        EllMatrix::new(2, 3, 2, &[2, 0, 1, 1], &v[..2], IndexBase::Zero),
        Err(SparseError::BufferLength { name: "ELL values", expected: 4, actual: 2 })
    ));
    let wide = EllMatrix::<f32>::new(0, u32::MAX as usize, 0, &[], &[], IndexBase::One).unwrap();
    assert!(matches!(wide.to_csr(), Err(SparseError::SizeOverflow("ELL column range"))));
}

#[test]
fn dense_and_vector_validation() {
    let v = [1.0_f32, 2.0, 3.0];
    assert!(matches!(
        DenseMatrix::new(&v, 2, 2, DenseOrder::RowMajor),
        Err(SparseError::BufferLength { name: "dense matrix", expected: 4, actual: 3 })
    ));
    assert!(matches!(
        DenseMatrix::<f32>::new(&[], usize::MAX, 2, DenseOrder::RowMajor),
        Err(SparseError::SizeOverflow("dense matrix"))
    ));
    let x = SparseVector::new(4, &[3, 0], &v[..2], IndexBase::Zero).unwrap();
    assert_eq!((x.size(), x.nnz(), x.index_base()), (4, 2, IndexBase::Zero));
    assert!(matches!(
        SparseVector::new(4, &[4, 0], &v[..2], IndexBase::Zero),
        Err(SparseError::InvalidSparseIndex("sparse vector"))
    ));
    assert!(matches!(
        SparseVector::new(4, &[1], &v[..2], IndexBase::Zero),
        Err(SparseError::BufferLength { name: "sparse vector indices", expected: 2, actual: 1 })
    ));
    assert!(matches!(
        SparseVector::<f32>::new(u32::MAX as usize, &[], &[], IndexBase::One),
        Err(SparseError::SizeOverflow("sparse vector index range"))
    ));
}

#[test]
fn offset_and_dimension_helpers() {
    assert_eq!(validate_dimension(7, "n").unwrap(), 7);
    assert!(matches!(validate_dimension(1 << 32, "n"), Err(SparseError::DimensionTooLarge("n"))));
    assert!(check_length("x", 3, 3).is_ok());
    assert!(matches!(check_length("x", 3, 2), Err(SparseError::BufferLength { name: "x", expected: 3, actual: 2 })));
    assert_eq!(index_limit(1, 5, "r").unwrap(), 6);
    assert!(matches!(index_limit(1, u32::MAX as usize, "r"), Err(SparseError::SizeOverflow("r"))));
    assert!(validate_offsets("F", &[1, 2, 4], 3, IndexBase::One).is_ok());
    assert!(matches!(
        validate_offsets("F", &[1, 2, 5], 3, IndexBase::One),
        Err(SparseError::InvalidSparseOffsets { format: "F", message: "terminal offset does not match the entry count" })
    ));
    assert!(matches!(
        validate_offsets("F", &[], 0, IndexBase::Zero),
        Err(SparseError::InvalidSparseOffsets { format: "F", message: "first offset does not equal the index base" })
    ));
}
