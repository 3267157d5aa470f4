use rusparse::conversion::{csr_to_dense, dense_to_coo, dense_to_csc, dense_to_csr, coo_to_dense};
use rusparse::host::{csr_sum_pattern, csr_to_dense_backward};
use rusparse::launch::dense_scatter_plan;
use rusparse::{CsrMatrix, DenseMatrix, DenseOrder, IndexBase};

fn duplicates(base: IndexBase) -> (Vec<u32>, Vec<u32>, Vec<f32>) {
    let shift = if base == IndexBase::One { 1 } else { 0 };
    (
        [0, 3, 3, 5].iter().map(|x| x + shift).collect(),
        [2, 0, 2, 3, 1].iter().map(|x| x + shift).collect(),
        vec![1.0, 2.0, 7.0, -4.0, 5.0],
    )
}

#[test]
fn densify_keeps_the_last_duplicate_and_backward_routes_to_it() {
    for base in [IndexBase::Zero, IndexBase::One] {
        let (offsets, indices, values) = duplicates(base);
        let m = CsrMatrix::new(3, 4, &offsets, &indices, &values, base).unwrap();
        let row = csr_to_dense(m, DenseOrder::RowMajor).unwrap();
        assert_eq!(row.as_ref().values(), &[2.0, 0.0, 7.0, 0.0, 0.0, 0.0, 0.0, 0.0, 0.0, 5.0, 0.0, -4.0]);
        let column = csr_to_dense(m, DenseOrder::ColumnMajor).unwrap();
        assert_eq!(column.as_ref().values(), &[2.0, 0.0, 0.0, 0.0, 0.0, 5.0, 7.0, 0.0, 0.0, 0.0, 0.0, -4.0]);
        let grad_row = [10.0, 11.0, 12.0, 13.0, 20.0, 21.0, 22.0, 23.0, 30.0, 31.0, 32.0, 33.0];
        let grad_column = [10.0, 20.0, 30.0, 11.0, 21.0, 31.0, 12.0, 22.0, 32.0, 13.0, 23.0, 33.0];
        let g = DenseMatrix::new(&grad_row, 3, 4, DenseOrder::RowMajor).unwrap();
        assert_eq!(csr_to_dense_backward(m, g).unwrap(), vec![0.0, 10.0, 12.0, 33.0, 31.0]);
        let g = DenseMatrix::new(&grad_column, 3, 4, DenseOrder::ColumnMajor).unwrap();
        assert_eq!(csr_to_dense_backward(m, g).unwrap(), vec![0.0, 10.0, 12.0, 33.0, 31.0]);
    }
}

#[test]
fn scatter_plan_reproduces_host_densification() {
    for base in [IndexBase::Zero, IndexBase::One] {
        let (offsets, indices, values) = duplicates(base);
        let m = CsrMatrix::new(3, 4, &offsets, &indices, &values, base).unwrap();
        for order in [DenseOrder::RowMajor, DenseOrder::ColumnMajor] {
            let (entries, positions) = dense_scatter_plan(m, order, "CSR to dense output").unwrap();
            let mut scattered = vec![0.0_f32; 12];
            for (entry, position) in entries.iter().zip(positions.iter()) {
                scattered[*position as usize] = values[*entry as usize];
            }
            let host = csr_to_dense(m, order).unwrap();
            assert_eq!(host.as_ref().values(), &scattered[..]);
        }
    }
}

#[test]
fn dense_round_trip_restores_stored_elements_for_every_mask() {
    let values: Vec<f32> = (0..12).map(|i| i as f32 - 4.0).collect();
    for order in [DenseOrder::RowMajor, DenseOrder::ColumnMajor] {
        let dense = DenseMatrix::new(&values, 3, 4, order).unwrap();
        for mask in [0u32, 1, 0b1010_1010_1010, 0b1111_1111_1111, 0b0110_0000_1001] {
            let stored: Vec<bool> = (0..12).map(|i| mask >> i & 1 == 1).collect();
            let expected: Vec<f32> = (0..12).map(|i| if stored[i] { values[i] } else { 0.0 }).collect();
            for base in [IndexBase::Zero, IndexBase::One] {
                let csr = dense_to_csr(dense, &stored, base).unwrap();
                let back = csr_to_dense(csr.as_ref(), order).unwrap();
                assert_eq!(back.as_ref().values(), &expected[..]);
                let coo = dense_to_coo(dense, &stored, base).unwrap();
                let back = coo_to_dense(coo.as_ref(), order).unwrap();
                assert_eq!(back.as_ref().values(), &expected[..]);
            }
        }
    }
}

#[test]
fn sum_pattern_holds_every_operand_entry() {
    let a_values = [1.0_f32; 6];
    let b_values = [1.0_f32; 5];
    let a = CsrMatrix::new(3, 5, &[0, 2, 4, 6], &[4, 1, 0, 0, 3, 2], &a_values, IndexBase::Zero).unwrap();
    let b = CsrMatrix::new(3, 5, &[1, 1, 4, 6], &[5, 1, 2, 4, 3], &b_values, IndexBase::One).unwrap();
    let (pattern, left, right) = csr_sum_pattern(a, b).unwrap();
    let p = pattern.as_ref();
    for row in 0..3 {
        let segment = &p.column_indices()[p.row_offsets()[row] as usize..p.row_offsets()[row + 1] as usize];
        assert!(segment.windows(2).all(|pair| pair[0] < pair[1]));
    }
    for (entry, position) in left.iter().enumerate() {
        assert_eq!(p.column_indices()[*position as usize], a.column_indices()[entry]);
    }
    for (entry, position) in right.iter().enumerate() {
        assert_eq!(p.column_indices()[*position as usize], b.column_indices()[entry] - 1);
    }
    assert_eq!(p.row_offsets(), &[0, 2, 5, 7]);
    assert!(p.values().iter().all(|value| *value == 0.0));
}

#[test]
fn transposing_twice_gives_back_column_sorted_rows() {
    let values = [1.0_f32, 2.0, 3.0, 4.0, 5.0];
    for base in [IndexBase::Zero, IndexBase::One] {
        let shift = if base == IndexBase::One { 1 } else { 0 };
        let offsets: Vec<u32> = [0, 2, 2, 5].iter().map(|x| x + shift).collect();
        let sorted: Vec<u32> = [0, 3, 1, 1, 2].iter().map(|x| x + shift).collect();
        let m = CsrMatrix::new(3, 4, &offsets, &sorted, &values, base).unwrap();
        let t = m.transpose().unwrap();
        let tt = t.as_ref().transpose().unwrap();
        assert_eq!(tt.as_ref().row_offsets(), m.row_offsets());
        assert_eq!(tt.as_ref().column_indices(), m.column_indices());
        assert_eq!(tt.as_ref().values(), m.values());
        let unsorted: Vec<u32> = [3, 0, 2, 1, 1].iter().map(|x| x + shift).collect();
        let u = CsrMatrix::new(3, 4, &offsets, &unsorted, &values, base).unwrap();
        let uu = u.transpose().unwrap().as_ref().transpose().unwrap();
        let expected: Vec<u32> = [0, 3, 1, 1, 2].iter().map(|x| x + shift).collect();
        assert_eq!(uu.as_ref().column_indices(), &expected[..]);
        assert_eq!(uu.as_ref().values(), &[2.0, 1.0, 4.0, 5.0, 3.0]);
    }
}

#[test]
fn transpose_and_transpose_with_permutation_agree() {
    let values = [1.0_f32, 2.0, 3.0, 4.0, 5.0, 6.0];
    let offsets = [1u32, 3, 3, 7];
    let indices = [4u32, 2, 2, 1, 4, 2];
    let m = CsrMatrix::new(3, 4, &offsets, &indices, &values, IndexBase::One).unwrap();
    let t = m.transpose().unwrap();
    let (tp, perm) = m.transpose_with_permutation().unwrap();
    assert_eq!(t.as_ref().row_offsets(), tp.as_ref().row_offsets());
    assert_eq!(t.as_ref().column_indices(), tp.as_ref().column_indices());
    assert_eq!(t.as_ref().values(), tp.as_ref().values());
    assert_eq!(perm, vec![3, 1, 2, 5, 0, 4]);
    let mut seen = perm.clone();
    seen.sort();
    assert_eq!(seen, vec![0, 1, 2, 3, 4, 5]);
}

#[test]
fn csc_to_csr_matches_dense_to_csr() {
    let values = [0.0_f32, 1.0, 0.0, 2.0, 0.0, -1.0, 3.0, 0.0, 4.0, 0.0, 5.0, 0.0];
    for order in [DenseOrder::RowMajor, DenseOrder::ColumnMajor] {
        for base in [IndexBase::Zero, IndexBase::One] {
            let dense = DenseMatrix::new(&values, 3, 4, order).unwrap();
            let stored: Vec<bool> = values.iter().map(|v| *v != 0.0).collect();
            let direct = dense_to_csr(dense, &stored, base).unwrap();
            let via = dense_to_csc(dense, &stored, base).unwrap().as_ref().to_csr().unwrap();
            assert_eq!(via.as_ref().row_offsets(), direct.as_ref().row_offsets());
            assert_eq!(via.as_ref().column_indices(), direct.as_ref().column_indices());
            assert_eq!(via.as_ref().values(), direct.as_ref().values());
        }
    }
}

#[test]
fn dense_round_trip_fills_unstored_positions_with_zero() {
    let values = [0.0_f32, 7.0, 0.0, 0.0, -2.0, 0.0];
    let dense = DenseMatrix::new(&values, 2, 3, DenseOrder::RowMajor).unwrap();
    let stored: Vec<bool> = values.iter().map(|v| *v != 0.0).collect();
    let csr = dense_to_csr(dense, &stored, IndexBase::Zero).unwrap();
    let back = csr_to_dense(csr.as_ref(), DenseOrder::RowMajor).unwrap();
    assert_eq!(back.as_ref().values(), &values[..]);
}
