use rusparse::launch::{
    csrmv_launch, dense_elements, dense_scatter_plan, launch_grid, sddmm_launch, spmm_launch, validate_dense,
    vector_row_offsets, DeviceLimits,
};
use rusparse::{CsrMatrix, DenseOrder, IndexBase, Operation, SparseAlgorithm, SparseError, SparseVector};

const LIMITS: DeviceLimits = DeviceLimits { plane_size_min: 32, plane_size_max: 32, max_block_threads: 1024 };

#[test]
fn dense_operands_are_checked_for_shape_then_device() {
    assert!(validate_dense(&[2, 3], &[2, 3], true).is_ok());
    assert!(matches!(
        validate_dense(&[3, 2], &[2, 3], true),
        Err(SparseError::DimensionMismatch("sparse dense operand shape mismatch"))
    ));
    assert!(matches!(
        validate_dense(&[2, 3, 1], &[2, 3], false),
        Err(SparseError::DimensionMismatch("sparse dense operand shape mismatch"))
    ));
    assert!(matches!(
        validate_dense(&[2, 3], &[2, 3], false),
        Err(SparseError::Device("sparse operands must be same-device unquantized F32 tensors"))
    ));
}

#[test]
fn launch_grid_covers_every_lane_in_blocks_of_128() {
    let plan = launch_grid(5, LIMITS).unwrap();
    assert_eq!(plan.algorithm, SparseAlgorithm::RowSplitWavefront32);
    assert_eq!((plan.output_elements, plan.block_threads, plan.grid_blocks), (5, 128, 2));
    assert_eq!(launch_grid(4, LIMITS).unwrap().grid_blocks, 1);
    assert_eq!(launch_grid(0, LIMITS).unwrap().grid_blocks, 0);
    let small = DeviceLimits { plane_size_min: 32, plane_size_max: 64, max_block_threads: 1024 };
    assert!(matches!(launch_grid(5, small), Err(SparseError::Device(_))));
    let narrow = DeviceLimits { plane_size_min: 32, plane_size_max: 32, max_block_threads: 64 };
    assert!(matches!(launch_grid(5, narrow), Err(SparseError::Device(_))));
    assert!(matches!(launch_grid(1 << 27, LIMITS), Err(SparseError::SizeOverflow("sparse launch lanes"))));
    assert!(matches!(launch_grid(1 << 33, LIMITS), Err(SparseError::DimensionTooLarge("sparse output"))));
}

#[test]
fn dense_elements_fit_usize_and_u32() {
    assert_eq!(dense_elements(3, 4, "x").unwrap(), 12);
    assert!(matches!(dense_elements(usize::MAX, 2, "x"), Err(SparseError::SizeOverflow("x"))));
    assert!(matches!(dense_elements(1 << 32, 1, "x"), Err(SparseError::DimensionTooLarge("x"))));
}

#[test]
fn scatter_plan_writes_each_position_once() {
    let values = [0.0_f32; 5];
    let m = CsrMatrix::new(2, 3, &[0, 3, 5], &[1, 2, 1, 0, 0], &values, IndexBase::Zero).unwrap();
    let (entries, positions) = dense_scatter_plan(m, DenseOrder::RowMajor, "CSR to dense output").unwrap();
    assert_eq!(entries, vec![2, 1, 4]);
    assert_eq!(positions, vec![1, 2, 3]);
    let (entries, positions) = dense_scatter_plan(m, DenseOrder::ColumnMajor, "CSR to dense output").unwrap();
    assert_eq!(entries, vec![2, 1, 4]);
    assert_eq!(positions, vec![2, 4, 1]);
    let mut sorted = positions.clone();
    sorted.sort();
    sorted.dedup();
    assert_eq!(sorted.len(), positions.len());
}

#[test]
fn csrmv_launch_checks_x_then_y() {
    let plan = csrmv_launch(3, 4, &[4], true, &[3], true, LIMITS).unwrap();
    assert_eq!((plan.output_elements, plan.grid_blocks), (3, 1));
    assert!(matches!(csrmv_launch(3, 4, &[3], true, &[3], true, LIMITS), Err(SparseError::DimensionMismatch(_))));
    assert!(matches!(csrmv_launch(3, 4, &[4], true, &[3], false, LIMITS), Err(SparseError::Device(_))));
}

#[test]
fn spmm_launch_lays_out_both_orders() {
    let row = spmm_launch(3, 4, Operation::NoTranspose, &[4, 5], true, None, false, DenseOrder::RowMajor, LIMITS).unwrap();
    assert_eq!((row.columns, row.elements, row.output_shape, row.row_stride, row.column_stride), (5, 15, (3, 5), 5, 1));
    assert_eq!(row.plan.grid_blocks, 4);
    let column = spmm_launch(
        3,
        4,
        Operation::Transpose,
        &[5, 4],
        true,
        Some(&[3, 5]),
        true,
        DenseOrder::ColumnMajor,
        LIMITS,
    )
    .unwrap();
    assert_eq!((column.output_shape, column.row_stride, column.column_stride), ((5, 3), 1, 3));
    assert!(matches!(
        spmm_launch(3, 4, Operation::NoTranspose, &[4], true, None, false, DenseOrder::RowMajor, LIMITS),
        Err(SparseError::DimensionMismatch("SpMM B must have two axes"))
    ));
    assert!(matches!(
        spmm_launch(3, 4, Operation::NoTranspose, &[4, 5], true, Some(&[3, 4]), true, DenseOrder::RowMajor, LIMITS),
        Err(SparseError::DimensionMismatch("sparse dense operand shape mismatch"))
    ));
}

#[test]
fn sddmm_launch_reads_the_inner_dimension_from_op_a() {
    let (inner, plan) =
        sddmm_launch(3, 4, 7, Operation::NoTranspose, &[3, 2], true, Operation::Transpose, &[4, 2], true, LIMITS).unwrap();
    assert_eq!((inner, plan.output_elements), (2, 7));
    assert!(matches!(
        sddmm_launch(3, 4, 7, Operation::NoTranspose, &[3, 2], true, Operation::NoTranspose, &[4, 2], true, LIMITS),
        Err(SparseError::DimensionMismatch("sparse dense operand shape mismatch"))
    ));
    assert!(matches!(
        sddmm_launch(3, 4, 7, Operation::NoTranspose, &[3], true, Operation::NoTranspose, &[2, 4], true, LIMITS),
        Err(SparseError::DimensionMismatch("SDDMM dense operands must have two axes"))
    ));
}

#[test]
fn vector_row_offsets_frame_one_row() {
    let values = [1.0_f32, 2.0];
    let v = SparseVector::new(6, &[2, 5], &values, IndexBase::One).unwrap();
    let offsets = vector_row_offsets(v).unwrap();
    assert_eq!(offsets, [1, 3]);
    assert!(CsrMatrix::new(1, 6, &offsets, v.indices(), v.values(), IndexBase::One).is_ok());
}
