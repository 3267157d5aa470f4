use rusparse::symbolic::{sum_entry_mapping, symbolic_product, symbolic_sum, CsrPattern, SymbolicOutput};
use rusparse::{CsrMatrix, IndexBase, SparseError};

fn pattern<'a>(rows: usize, columns: usize, offsets: &'a [u32], indices: &'a [u32], base: IndexBase) -> CsrPattern<'a> {
    let units: &'static [(); 64] = &[(); 64];
    let values: &'a [()] = &units[..indices.len()];
    CsrPattern::from_matrix(CsrMatrix::new(rows, columns, offsets, indices, values, base).unwrap())
}

#[test]
fn index_base_decodes_zero_and_one_only() {
    assert_eq!(IndexBase::from_value(0), Some(IndexBase::Zero));
    assert_eq!(IndexBase::from_value(1), Some(IndexBase::One));
    assert_eq!(IndexBase::from_value(2), None);
    assert_eq!(IndexBase::One.value(), 1);
    assert_eq!(IndexBase::Zero.value(), 0);
}

#[test]
fn symbolic_sum_merges_rows_in_the_first_base() {
    let a = pattern(3, 5, &[0, 3, 3, 4], &[4, 0, 4, 2], IndexBase::Zero);
    let b = pattern(3, 5, &[1, 2, 4, 4], &[2, 5, 1], IndexBase::One);
    let out = symbolic_sum(a, b).unwrap();
    assert_eq!(out.row_offsets, vec![0, 3, 5, 6]);
    assert_eq!(out.column_indices, vec![0, 1, 4, 0, 4, 2]);
    assert_eq!(out.entry_rows, vec![0, 0, 0, 1, 1, 2]);
    assert_eq!(a.rows(), 3);
    assert_eq!(b.index_base(), IndexBase::One);
}

#[test]
fn symbolic_product_follows_the_selected_rows() {
    let a = pattern(2, 3, &[1, 3, 3], &[1, 3], IndexBase::One);
    let b = pattern(3, 4, &[0, 2, 2, 4], &[3, 1, 1, 0], IndexBase::Zero);
    let out = symbolic_product(a, b).unwrap();
    assert_eq!(out.row_offsets, vec![1, 4, 4]);
    assert_eq!(out.column_indices, vec![1, 2, 4]);
    assert_eq!(out.entry_rows, vec![0, 0, 0]);
}

#[test]
fn entry_mapping_finds_each_column_or_fails() {
    let a = pattern(2, 4, &[0, 2, 3], &[3, 1, 0], IndexBase::Zero);
    let b = pattern(2, 4, &[0, 1, 2], &[1, 2], IndexBase::Zero);
    let out = symbolic_sum(a, b).unwrap();
    assert_eq!(sum_entry_mapping(a, &out, IndexBase::Zero).unwrap(), vec![1, 0, 2]);
    assert_eq!(sum_entry_mapping(b, &out, IndexBase::Zero).unwrap(), vec![0, 3]);
    let missing = SymbolicOutput { row_offsets: vec![0, 1, 2], column_indices: vec![1, 0], entry_rows: vec![0, 1] };
    assert!(matches!(sum_entry_mapping(a, &missing, IndexBase::Zero), Err(SparseError::InvalidColumnIndex)));
}

#[test]
fn symbolic_sum_commutes_and_is_idempotent() {
    let a = pattern(3, 5, &[1, 3, 3, 5], &[2, 5, 1, 4], IndexBase::One);
    let b = pattern(3, 5, &[1, 2, 4, 4], &[3, 1, 5], IndexBase::One);
    let ab = symbolic_sum(a.clone(), b.clone()).unwrap();
    let ba = symbolic_sum(b, a.clone()).unwrap();
    assert_eq!(ab.row_offsets, ba.row_offsets);
    assert_eq!(ab.column_indices, ba.column_indices);
    assert_eq!(ab.entry_rows, ba.entry_rows);
    assert_eq!(ab.column_indices, vec![2, 3, 5, 1, 5, 1, 4]);
    let aa = symbolic_sum(a.clone(), a).unwrap();
    assert_eq!(aa.row_offsets, vec![1, 3, 3, 5]);
    assert_eq!(aa.column_indices, vec![2, 5, 1, 4]);
}
