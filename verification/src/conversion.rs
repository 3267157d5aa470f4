//! Conversions between dense matrices and the CSR, COO and CSC formats.
//!
//! Which dense elements are stored is given by a mask over the dense storage
//! array, so that these conversions work for any value type; for floating
//! point data the mask is `value != 0.0`.

use vstd::prelude::*;
use crate::assemble::{
    assemble, lemma_checked_never_overflows, lemma_closed_rows_stopped,
    lemma_stopped_early, start, visit, visit_rows, Assembly, Encoding,
};
use crate::csr::CsrView;
use crate::dense::{dense_offset, lemma_dense_offset, DenseView};
use crate::formats::{
    coo_error, csc_error, csr_outcome_checked, pick_values, CooView, CscView,
};
use crate::{
    base_of, dimension, CooMatrix, CooMatrixOwned, CscMatrix, CscMatrixOwned, CsrMatrix,
    CsrMatrixOwned, DenseMatrix, DenseMatrixOwned, DenseOrder, IndexBase, SparseError,
};

verus! {

/// Row `r` of a dense matrix restricted to its first `n` columns, keeping the
/// stored elements: each its column and storage position.
pub open spec fn dense_row_entries<V>(d: DenseView<V>, stored: Seq<bool>, r: int, n: int) -> Seq<
    (int, int),
> {
    Seq::new(n as nat, |c: int| (c, dense_offset(d.rows as int, d.columns as int, d.order, r, c))).filter(
        |x: (int, int)| stored[x.1],
    )
}

/// Column `c` of a dense matrix restricted to its first `n` rows, keeping the
/// stored elements: each its row and storage position.
pub open spec fn dense_column_entries<V>(d: DenseView<V>, stored: Seq<bool>, c: int, n: int) -> Seq<
    (int, int),
> {
    Seq::new(n as nat, |r: int| (r, dense_offset(d.rows as int, d.columns as int, d.order, r, c))).filter(
        |x: (int, int)| stored[x.1],
    )
}

/// The stored elements of every row, row by row.
pub open spec fn dense_csr_rows<V>(d: DenseView<V>, stored: Seq<bool>) -> Seq<Seq<(int, int)>> {
    Seq::new(d.rows as nat, |r: int| dense_row_entries(d, stored, r, d.columns as int))
}

/// The stored elements of every column, column by column.
pub open spec fn dense_csc_columns<V>(d: DenseView<V>, stored: Seq<bool>) -> Seq<Seq<(int, int)>> {
    Seq::new(d.columns as nat, |c: int| dense_column_entries(d, stored, c, d.rows as int))
}

pub(crate) proof fn lemma_dense_row_step<V>(d: DenseView<V>, stored: Seq<bool>, r: int, n: int)
    requires
        0 <= n,
    ensures
        ({
            let x = (n, dense_offset(d.rows as int, d.columns as int, d.order, r, n));
            dense_row_entries(d, stored, r, n + 1) == if stored[x.1] {
                dense_row_entries(d, stored, r, n).push(x)
            } else {
                dense_row_entries(d, stored, r, n)
            }
        }),
{
    let f = |c: int| (c, dense_offset(d.rows as int, d.columns as int, d.order, r, c));
    reveal(Seq::filter);
    assert(Seq::new((n + 1) as nat, f).drop_last() =~= Seq::new(n as nat, f));
}

pub(crate) proof fn lemma_dense_column_step<V>(d: DenseView<V>, stored: Seq<bool>, c: int, n: int)
    requires
        0 <= n,
    ensures
        ({
            let x = (n, dense_offset(d.rows as int, d.columns as int, d.order, n, c));
            dense_column_entries(d, stored, c, n + 1) == if stored[x.1] {
                dense_column_entries(d, stored, c, n).push(x)
            } else {
                dense_column_entries(d, stored, c, n)
            }
        }),
{
    let f = |r: int| (r, dense_offset(d.rows as int, d.columns as int, d.order, r, c));
    reveal(Seq::filter);
    assert(Seq::new((n + 1) as nat, f).drop_last() =~= Seq::new(n as nat, f));
}

/// `r` is what the assembly `a` of columns describes once the assembled
/// arrays are validated as a CSC matrix, or the error it stopped with.
pub open spec fn csc_outcome_checked<V>(
    r: Result<CscMatrixOwned<V>, SparseError>,
    a: Assembly,
    rows: usize,
    columns: usize,
    base: IndexBase,
    values: Seq<V>,
) -> bool {
    match a {
        Assembly::Building { offsets, indices, sources } => match csc_error(
            rows,
            columns,
            offsets,
            indices,
            sources.len(),
            base,
        ) {
            None => r matches Ok(m) && m@ == (CscView {
                rows,
                columns,
                base,
                column_offsets: offsets,
                row_indices: indices,
                values: pick_values(values, sources),
            }),
            Some(e) => r == Err::<CscMatrixOwned<V>, SparseError>(e),
        },
        Assembly::Failed(e) => r == Err::<CscMatrixOwned<V>, SparseError>(e),
        Assembly::Overflowed => false,
    }
}

/// Storage position of element `(row, column)`.
pub fn physical_index(rows: usize, columns: usize, order: DenseOrder, row: usize, column: usize) -> (r:
    usize)
    requires
        row < rows,
        column < columns,
        rows * columns <= usize::MAX,
    ensures
        r == dense_offset(rows as int, columns as int, order, row as int, column as int),
        r < rows * columns,
{
    proof {
        lemma_dense_offset(rows as int, columns as int, order, row as int, column as int);
    }
    match order {
        DenseOrder::RowMajor => row * columns + column,
        DenseOrder::ColumnMajor => column * rows + row,
    }
}

pub fn dense_index<V>(matrix: DenseMatrix<'_, V>, row: usize, column: usize) -> (r: usize)
    requires
        row < matrix@.rows,
        column < matrix@.columns,
    ensures
        r == dense_offset(
            matrix@.rows as int,
            matrix@.columns as int,
            matrix@.order,
            row as int,
            column as int,
        ),
        r < matrix@.values.len(),
{
    proof {
        use_type_invariant(&matrix);
    }
    physical_index(matrix.rows(), matrix.columns(), matrix.order(), row, column)
}

/// `value` encoded with the index base, each failure named `name`.
pub fn encoded_index(value: usize, base: u32, name: &'static str) -> (r: Result<u32, SparseError>)
    ensures
        value > u32::MAX ==> r == Err::<u32, SparseError>(SparseError::DimensionTooLarge(name)),
        value <= u32::MAX && value + base > u32::MAX ==> r == Err::<u32, SparseError>(
            SparseError::SizeOverflow(name),
        ),
        value + base <= u32::MAX ==> r == Ok::<u32, SparseError>((value + base) as u32),
{
    match dimension(value, name)?.checked_add(base) {
        Some(encoded) => Ok(encoded),
        None => Err(SparseError::SizeOverflow(name)),
    }
}

/// A running entry count encoded as an offset.
pub fn encoded_count(value: usize, base: u32, name: &'static str) -> (r: Result<u32, SparseError>)
    ensures
        value > u32::MAX ==> r == Err::<u32, SparseError>(SparseError::DimensionTooLarge(name)),
        value <= u32::MAX && value + base > u32::MAX ==> r == Err::<u32, SparseError>(
            SparseError::SizeOverflow(name),
        ),
        value + base <= u32::MAX ==> r == Ok::<u32, SparseError>((value + base) as u32),
{
    encoded_index(value, base, name)
}

/// The stored elements of a dense matrix, row by row, as CSR.
pub fn dense_to_csr<V: Copy>(dense: DenseMatrix<'_, V>, stored: &[bool], index_base: IndexBase) -> (r:
    Result<CsrMatrixOwned<V>, SparseError>)
    requires
        dense@.rows < usize::MAX,
        stored@.len() == dense@.values.len(),
    ensures
        csr_outcome_checked(
            r,
            assemble(
                dense_csr_rows(dense@, stored@),
                base_of(index_base),
                Encoding::Checked("dense to CSR column"),
                "dense to CSR row offsets",
                "dense to CSR row offsets",
            ),
            dense@.rows,
            dense@.columns,
            index_base,
            dense@.values,
        ),
{
    proof {
        use_type_invariant(&dense);
    }
    let base = index_base.value();
    let rows = dense.rows();
    let columns = dense.columns();
    let values_in = dense.values();
    let ghost d = dense@;
    let ghost all_rows = dense_csr_rows(d, stored@);
    let ghost enc = Encoding::Checked("dense to CSR column");
    let ghost name = "dense to CSR row offsets";
    proof {
        lemma_checked_never_overflows(all_rows, base, enc, name, name);
    }
    let mut row_offsets: Vec<u32> = Vec::with_capacity(rows + 1);
    let mut column_indices: Vec<u32> = Vec::new();
    let mut values: Vec<V> = Vec::new();
    let ghost mut sources: Seq<int> = Seq::empty();
    row_offsets.push(base);
    let mut row: usize = 0;
    while row < rows
        invariant
            d == dense@,
            d.valid(),
            rows == d.rows,
            columns == d.columns,
            values_in@ == d.values,
            stored@.len() == d.values.len(),
            base == base_of(index_base),
            all_rows == dense_csr_rows(d, stored@),
            enc == Encoding::Checked("dense to CSR column"),
            name == "dense to CSR row offsets",
            row <= rows,
            column_indices@.len() == sources.len(),
            visit_rows(start(base), all_rows.take(row as int), base, enc, name, name) == (
            Assembly::Building { offsets: row_offsets@, indices: column_indices@, sources }),
            values@.len() == sources.len(),
            forall|t: int| 0 <= t < sources.len() ==> #[trigger] values@[t] == d.values[sources[t]],
        decreases rows - row,
    {
        let ghost before = visit_rows(start(base), all_rows.take(row as int), base, enc, name, name);
        let mut column: usize = 0;
        while column < columns
            invariant
                d == dense@,
                d.valid(),
                rows == d.rows,
                columns == d.columns,
                values_in@ == d.values,
                stored@.len() == d.values.len(),
                base == base_of(index_base),
                all_rows == dense_csr_rows(d, stored@),
                enc == Encoding::Checked("dense to CSR column"),
                row < rows,
                column <= columns,
                name == "dense to CSR row offsets",
                column_indices@.len() == sources.len(),
                before == visit_rows(start(base), all_rows.take(row as int), base, enc, name, name),
                visit(before, dense_row_entries(d, stored@, row as int, column as int), base, enc) == (
                Assembly::Building { offsets: row_offsets@, indices: column_indices@, sources }),
                values@.len() == sources.len(),
                forall|t: int| 0 <= t < sources.len() ==> #[trigger] values@[t] == d.values[sources[t]],
            decreases columns - column,
        {
            let position = dense_index(dense, row, column);
            proof {
                lemma_dense_row_step(d, stored@, row as int, column as int);
            }
            let ghost prefix = dense_row_entries(d, stored@, row as int, column as int);
            let ghost x = (column as int, position as int);
            if stored[position] {
                proof {
                    assert(prefix.push(x).drop_last() =~= prefix);
                    assert(all_rows[row as int] == dense_row_entries(d, stored@, row as int, columns as int));
                }
                let encoded = match encoded_index(column, base, "dense to CSR column") {
                    Ok(encoded) => encoded,
                    Err(e) => {
                        proof {
                            lemma_row_prefix_of_dense(d, stored@, row as int, column as int + 1);
                            lemma_stopped_early(
                                all_rows,
                                row as int,
                                prefix.len() as int + 1,
                                base,
                                enc,
                                name,
                                name,
                            );
                        }
                        return Err(e);
                    },
                };
                column_indices.push(encoded);
                values.push(values_in[position]);
                proof {
                    sources = sources.push(position as int);
                }
            }
            column = column + 1;
        }
        assert(all_rows.take(row + 1).drop_last() =~= all_rows.take(row as int));
        assert(all_rows.take(row + 1).last() == all_rows[row as int]);
        let offset = match encoded_count(values.len(), base, "dense to CSR row offsets") {
            Ok(offset) => offset,
            Err(e) => {
                proof {
                    lemma_closed_rows_stopped(all_rows, row as int, base, enc, name, name);
                }
                return Err(e);
            },
        };
        row_offsets.push(offset);
        row = row + 1;
    }
    proof {
        assert(all_rows.take(rows as int) =~= all_rows);
        assert(values@ =~= pick_values(d.values, sources));
    }
    CsrMatrixOwned::new(rows, columns, row_offsets, column_indices, values, index_base)
}

/// A prefix of row `r`'s stored elements is a prefix of the whole row's.
proof fn lemma_row_prefix_of_dense<V>(d: DenseView<V>, stored: Seq<bool>, r: int, n: int)
    requires
        0 <= n <= d.columns,
    ensures
        dense_row_entries(d, stored, r, n).len() <= dense_row_entries(d, stored, r, d.columns as int).len(),
        dense_row_entries(d, stored, r, d.columns as int).take(
            dense_row_entries(d, stored, r, n).len() as int,
        ) == dense_row_entries(d, stored, r, n),
    decreases d.columns - n,
{
    if n < d.columns {
        lemma_row_prefix_of_dense(d, stored, r, n + 1);
        lemma_dense_row_step(d, stored, r, n);
        let whole = dense_row_entries(d, stored, r, d.columns as int);
        let shorter = dense_row_entries(d, stored, r, n);
        let longer = dense_row_entries(d, stored, r, n + 1);
        assert(whole.take(shorter.len() as int) =~= whole.take(longer.len() as int).take(
            shorter.len() as int,
        ));
        assert(longer.take(shorter.len() as int) =~= shorter);
    } else {
        assert(dense_row_entries(d, stored, r, n).take(dense_row_entries(d, stored, r, n).len() as int)
            =~= dense_row_entries(d, stored, r, n));
    }
}

/// A prefix of column `c`'s stored elements is a prefix of the whole column's.
proof fn lemma_column_prefix_of_dense<V>(d: DenseView<V>, stored: Seq<bool>, c: int, n: int)
    requires
        0 <= n <= d.rows,
    ensures
        dense_column_entries(d, stored, c, n).len() <= dense_column_entries(d, stored, c, d.rows as int).len(),
        dense_column_entries(d, stored, c, d.rows as int).take(
            dense_column_entries(d, stored, c, n).len() as int,
        ) == dense_column_entries(d, stored, c, n),
    decreases d.rows - n,
{
    if n < d.rows {
        lemma_column_prefix_of_dense(d, stored, c, n + 1);
        lemma_dense_column_step(d, stored, c, n);
        let whole = dense_column_entries(d, stored, c, d.rows as int);
        let shorter = dense_column_entries(d, stored, c, n);
        let longer = dense_column_entries(d, stored, c, n + 1);
        assert(whole.take(shorter.len() as int) =~= whole.take(longer.len() as int).take(
            shorter.len() as int,
        ));
        assert(longer.take(shorter.len() as int) =~= shorter);
    } else {
        assert(dense_column_entries(d, stored, c, n).take(
            dense_column_entries(d, stored, c, n).len() as int,
        ) =~= dense_column_entries(d, stored, c, n));
    }
}

/// The stored elements of a dense matrix, column by column, as CSC.
pub fn dense_to_csc<V: Copy>(dense: DenseMatrix<'_, V>, stored: &[bool], index_base: IndexBase) -> (r:
    Result<CscMatrixOwned<V>, SparseError>)
    requires
        dense@.columns < usize::MAX,
        stored@.len() == dense@.values.len(),
    ensures
        csc_outcome_checked(
            r,
            assemble(
                dense_csc_columns(dense@, stored@),
                base_of(index_base),
                Encoding::Checked("dense to CSC row"),
                "dense to CSC column offsets",
                "dense to CSC column offsets",
            ),
            dense@.rows,
            dense@.columns,
            index_base,
            dense@.values,
        ),
{
    proof {
        use_type_invariant(&dense);
    }
    let base = index_base.value();
    let rows = dense.rows();
    let columns = dense.columns();
    let values_in = dense.values();
    let ghost d = dense@;
    let ghost all_columns = dense_csc_columns(d, stored@);
    let ghost enc = Encoding::Checked("dense to CSC row");
    let ghost name = "dense to CSC column offsets";
    proof {
        lemma_checked_never_overflows(all_columns, base, enc, name, name);
    }
    let mut column_offsets: Vec<u32> = Vec::with_capacity(columns + 1);
    let mut row_indices: Vec<u32> = Vec::new();
    let mut values: Vec<V> = Vec::new();
    let ghost mut sources: Seq<int> = Seq::empty();
    column_offsets.push(base);
    let mut column: usize = 0;
    while column < columns
        invariant
            d == dense@,
            d.valid(),
            rows == d.rows,
            columns == d.columns,
            values_in@ == d.values,
            stored@.len() == d.values.len(),
            base == base_of(index_base),
            all_columns == dense_csc_columns(d, stored@),
            enc == Encoding::Checked("dense to CSC row"),
            name == "dense to CSC column offsets",
            column <= columns,
            row_indices@.len() == sources.len(),
            visit_rows(start(base), all_columns.take(column as int), base, enc, name, name) == (
            Assembly::Building { offsets: column_offsets@, indices: row_indices@, sources }),
            values@.len() == sources.len(),
            forall|t: int| 0 <= t < sources.len() ==> #[trigger] values@[t] == d.values[sources[t]],
        decreases columns - column,
    {
        let ghost before = visit_rows(start(base), all_columns.take(column as int), base, enc, name, name);
        let mut row: usize = 0;
        while row < rows
            invariant
                d == dense@,
                d.valid(),
                rows == d.rows,
                columns == d.columns,
                values_in@ == d.values,
                stored@.len() == d.values.len(),
                base == base_of(index_base),
                all_columns == dense_csc_columns(d, stored@),
                enc == Encoding::Checked("dense to CSC row"),
                column < columns,
                row <= rows,
                name == "dense to CSC column offsets",
                row_indices@.len() == sources.len(),
                before == visit_rows(start(base), all_columns.take(column as int), base, enc, name, name),
                visit(before, dense_column_entries(d, stored@, column as int, row as int), base, enc) == (
                Assembly::Building { offsets: column_offsets@, indices: row_indices@, sources }),
                values@.len() == sources.len(),
                forall|t: int| 0 <= t < sources.len() ==> #[trigger] values@[t] == d.values[sources[t]],
            decreases rows - row,
        {
            let position = dense_index(dense, row, column);
            proof {
                lemma_dense_column_step(d, stored@, column as int, row as int);
            }
            let ghost prefix = dense_column_entries(d, stored@, column as int, row as int);
            let ghost x = (row as int, position as int);
            if stored[position] {
                proof {
                    assert(prefix.push(x).drop_last() =~= prefix);
                    assert(all_columns[column as int] == dense_column_entries(
                        d,
                        stored@,
                        column as int,
                        rows as int,
                    ));
                }
                let encoded = match encoded_index(row, base, "dense to CSC row") {
                    Ok(encoded) => encoded,
                    Err(e) => {
                        proof {
                            lemma_column_prefix_of_dense(d, stored@, column as int, row as int + 1);
                            lemma_stopped_early(
                                all_columns,
                                column as int,
                                prefix.len() as int + 1,
                                base,
                                enc,
                                name,
                                name,
                            );
                        }
                        return Err(e);
                    },
                };
                row_indices.push(encoded);
                values.push(values_in[position]);
                proof {
                    sources = sources.push(position as int);
                }
            }
            row = row + 1;
        }
        assert(all_columns.take(column + 1).drop_last() =~= all_columns.take(column as int));
        assert(all_columns.take(column + 1).last() == all_columns[column as int]);
        let offset = match encoded_count(values.len(), base, "dense to CSC column offsets") {
            Ok(offset) => offset,
            Err(e) => {
                proof {
                    lemma_closed_rows_stopped(all_columns, column as int, base, enc, name, name);
                }
                return Err(e);
            },
        };
        column_offsets.push(offset);
        column = column + 1;
    }
    proof {
        assert(all_columns.take(columns as int) =~= all_columns);
        assert(values@ =~= pick_values(d.values, sources));
    }
    CscMatrixOwned::new(rows, columns, column_offsets, row_indices, values, index_base)
}

/// The stored elements among the first `n` columns of row `r`: each its row,
/// column and storage position.
pub open spec fn dense_coo_row<V>(d: DenseView<V>, stored: Seq<bool>, r: int, n: int) -> Seq<
    (int, int, int),
> {
    dense_row_entries(d, stored, r, n).map_values(|x: (int, int)| (r, x.0, x.1))
}

/// The stored elements of the rows before `r`, in row-major order.
pub open spec fn dense_coo_entries<V>(d: DenseView<V>, stored: Seq<bool>, r: int) -> Seq<
    (int, int, int),
>
    decreases r,
{
    if r <= 0 {
        Seq::empty()
    } else {
        dense_coo_entries(d, stored, r - 1) + dense_coo_row(d, stored, r - 1, d.columns as int)
    }
}

/// The error encoding an element's row and then its column would raise.
pub open spec fn coo_entry_error(entry: (int, int, int), base: u32) -> Option<SparseError> {
    if entry.0 > u32::MAX {
        Some(SparseError::DimensionTooLarge("dense to COO row"))
    } else if entry.0 + base > u32::MAX {
        Some(SparseError::SizeOverflow("dense to COO row"))
    } else if entry.1 > u32::MAX {
        Some(SparseError::DimensionTooLarge("dense to COO column"))
    } else if entry.1 + base > u32::MAX {
        Some(SparseError::SizeOverflow("dense to COO column"))
    } else {
        None
    }
}

/// The error of the first element, in order, whose encoding fails.
pub open spec fn first_coo_error(entries: Seq<(int, int, int)>, base: u32) -> Option<SparseError>
    decreases entries.len(),
{
    if entries.len() == 0 {
        None
    } else {
        match first_coo_error(entries.drop_last(), base) {
            Some(e) => Some(e),
            None => coo_entry_error(entries.last(), base),
        }
    }
}

/// `r` is the COO matrix holding the encoded elements, validated, or the
/// first encoding error.
pub open spec fn coo_outcome_checked<V>(
    r: Result<CooMatrixOwned<V>, SparseError>,
    entries: Seq<(int, int, int)>,
    rows: usize,
    columns: usize,
    base: IndexBase,
    values: Seq<V>,
) -> bool {
    let b = base_of(base);
    match first_coo_error(entries, b) {
        Some(e) => r == Err::<CooMatrixOwned<V>, SparseError>(e),
        None => {
            let row_indices = entries.map_values(|x: (int, int, int)| (x.0 + b) as u32);
            let column_indices = entries.map_values(|x: (int, int, int)| (x.1 + b) as u32);
            let picked = entries.map_values(|x: (int, int, int)| values[x.2]);
            match coo_error(rows, columns, row_indices, column_indices, picked.len(), base) {
                None => r matches Ok(m) && m@ == (CooView {
                    rows,
                    columns,
                    base,
                    row_indices,
                    column_indices,
                    values: picked,
                }),
                Some(e) => r == Err::<CooMatrixOwned<V>, SparseError>(e),
            }
        },
    }
}

proof fn lemma_first_coo_error_prefix(s: Seq<(int, int, int)>, t: Seq<(int, int, int)>, base: u32)
    requires
        first_coo_error(s, base) is Some,
    ensures
        first_coo_error(s + t, base) == first_coo_error(s, base),
    decreases t.len(),
{
    if t.len() == 0 {
        assert(s + t =~= s);
    } else {
        assert((s + t).drop_last() =~= s + t.drop_last());
        lemma_first_coo_error_prefix(s, t.drop_last(), base);
    }
}

proof fn lemma_coo_entries_prefix<V>(d: DenseView<V>, stored: Seq<bool>, r: int, r2: int)
    requires
        0 <= r <= r2,
    ensures
        dense_coo_entries(d, stored, r).len() <= dense_coo_entries(d, stored, r2).len(),
        dense_coo_entries(d, stored, r2).take(dense_coo_entries(d, stored, r).len() as int)
            == dense_coo_entries(d, stored, r),
    decreases r2 - r,
{
    if r2 > r {
        lemma_coo_entries_prefix(d, stored, r, r2 - 1);
        let a = dense_coo_entries(d, stored, r2 - 1);
        let n = dense_coo_entries(d, stored, r).len() as int;
        assert(dense_coo_entries(d, stored, r2) == a + dense_coo_row(d, stored, r2 - 1, d.columns as int));
        assert((a + dense_coo_row(d, stored, r2 - 1, d.columns as int)).take(n) =~= a.take(n));
    } else {
        assert(dense_coo_entries(d, stored, r2).take(dense_coo_entries(d, stored, r).len() as int)
            =~= dense_coo_entries(d, stored, r));
    }
}

/// The stored elements of a dense matrix, in row-major order, as COO.
pub fn dense_to_coo<V: Copy>(dense: DenseMatrix<'_, V>, stored: &[bool], index_base: IndexBase) -> (r:
    Result<CooMatrixOwned<V>, SparseError>)
    requires
        stored@.len() == dense@.values.len(),
    ensures
        coo_outcome_checked(
            r,
            dense_coo_entries(dense@, stored@, dense@.rows as int),
            dense@.rows,
            dense@.columns,
            index_base,
            dense@.values,
        ),
{
    proof {
        use_type_invariant(&dense);
    }
    let base = index_base.value();
    let rows = dense.rows();
    let columns = dense.columns();
    let values_in = dense.values();
    let ghost d = dense@;
    let ghost all = dense_coo_entries(d, stored@, rows as int);
    let mut row_indices: Vec<u32> = Vec::new();
    let mut column_indices: Vec<u32> = Vec::new();
    let mut values: Vec<V> = Vec::new();
    let mut row: usize = 0;
    while row < rows
        invariant
            d == dense@,
            d.valid(),
            rows == d.rows,
            columns == d.columns,
            values_in@ == d.values,
            stored@.len() == d.values.len(),
            base == base_of(index_base),
            all == dense_coo_entries(d, stored@, rows as int),
            row <= rows,
            first_coo_error(dense_coo_entries(d, stored@, row as int), base) is None,
            row_indices@ == dense_coo_entries(d, stored@, row as int).map_values(
                |x: (int, int, int)| (x.0 + base) as u32,
            ),
            column_indices@ == dense_coo_entries(d, stored@, row as int).map_values(
                |x: (int, int, int)| (x.1 + base) as u32,
            ),
            values@ == dense_coo_entries(d, stored@, row as int).map_values(
                |x: (int, int, int)| d.values[x.2],
            ),
        decreases rows - row,
    {
        let ghost done = dense_coo_entries(d, stored@, row as int);
        let mut column: usize = 0;
        while column < columns
            invariant
                d == dense@,
                d.valid(),
                rows == d.rows,
                columns == d.columns,
                values_in@ == d.values,
                stored@.len() == d.values.len(),
                base == base_of(index_base),
                all == dense_coo_entries(d, stored@, rows as int),
                row < rows,
                column <= columns,
                done == dense_coo_entries(d, stored@, row as int),
                first_coo_error(done + dense_coo_row(d, stored@, row as int, column as int), base)
                    is None,
                row_indices@ == (done + dense_coo_row(d, stored@, row as int, column as int)).map_values(
                    |x: (int, int, int)| (x.0 + base) as u32,
                ),
                column_indices@ == (done + dense_coo_row(d, stored@, row as int, column as int)).map_values(
                    |x: (int, int, int)| (x.1 + base) as u32,
                ),
                values@ == (done + dense_coo_row(d, stored@, row as int, column as int)).map_values(
                    |x: (int, int, int)| d.values[x.2],
                ),
            decreases columns - column,
        {
            let position = dense_index(dense, row, column);
            proof {
                lemma_dense_row_step(d, stored@, row as int, column as int);
            }
            let ghost prefix = done + dense_coo_row(d, stored@, row as int, column as int);
            let ghost x = (row as int, column as int, position as int);
            if stored[position] {
                proof {
                    assert(dense_coo_row(d, stored@, row as int, column as int + 1) =~= dense_coo_row(
                        d,
                        stored@,
                        row as int,
                        column as int,
                    ).push(x));
                    assert(done + dense_coo_row(d, stored@, row as int, column as int + 1) =~= prefix.push(x));
                    assert(prefix.push(x).drop_last() =~= prefix);
                }
                let encoded_row = match encoded_index(row, base, "dense to COO row") {
                    Ok(encoded) => encoded,
                    Err(e) => {
                        proof {
                            assert(first_coo_error(prefix.push(x), base) == Some(e));
                            assert(first_coo_error(
                                dense_coo_entries(d, stored@, row as int) + dense_coo_row(
                                    d,
                                    stored@,
                                    row as int,
                                    column as int + 1,
                                ),
                                base,
                            ) == Some(e));
                            lemma_coo_error_reaches_end(d, stored@, row as int, column as int + 1);
                        }
                        return Err(e);
                    },
                };
                let encoded_column = match encoded_index(column, base, "dense to COO column") {
                    Ok(encoded) => encoded,
                    Err(e) => {
                        proof {
                            assert(first_coo_error(prefix.push(x), base) == Some(e));
                            assert(first_coo_error(
                                dense_coo_entries(d, stored@, row as int) + dense_coo_row(
                                    d,
                                    stored@,
                                    row as int,
                                    column as int + 1,
                                ),
                                base,
                            ) == Some(e));
                            lemma_coo_error_reaches_end(d, stored@, row as int, column as int + 1);
                        }
                        return Err(e);
                    },
                };
                row_indices.push(encoded_row);
                column_indices.push(encoded_column);
                values.push(values_in[position]);
                proof {
                    assert(row_indices@ =~= prefix.push(x).map_values(
                        |x: (int, int, int)| (x.0 + base) as u32,
                    ));
                    assert(column_indices@ =~= prefix.push(x).map_values(
                        |x: (int, int, int)| (x.1 + base) as u32,
                    ));
                    assert(values@ =~= prefix.push(x).map_values(|x: (int, int, int)| d.values[x.2]));
                }
            } else {
                proof {
                    assert(dense_coo_row(d, stored@, row as int, column as int + 1) =~= dense_coo_row(
                        d,
                        stored@,
                        row as int,
                        column as int,
                    ));
                }
            }
            column = column + 1;
        }
        assert(dense_coo_entries(d, stored@, row as int + 1) == done + dense_coo_row(
            d,
            stored@,
            row as int,
            columns as int,
        ));
        row = row + 1;
    }
    CooMatrixOwned::new(rows, columns, row_indices, column_indices, values, index_base)
}

/// An encoding error among the elements visited so far is the first one of
/// the whole matrix.
proof fn lemma_coo_error_reaches_end<V>(d: DenseView<V>, stored: Seq<bool>, r: int, n: int)
    requires
        0 <= r < d.rows,
        0 <= n <= d.columns,
    ensures
        forall|base: u32|
            #![trigger first_coo_error(dense_coo_entries(d, stored, r) + dense_coo_row(d, stored, r, n), base)]
            first_coo_error(dense_coo_entries(d, stored, r) + dense_coo_row(d, stored, r, n), base) is Some
                ==> first_coo_error(dense_coo_entries(d, stored, d.rows as int), base) == first_coo_error(
                dense_coo_entries(d, stored, r) + dense_coo_row(d, stored, r, n),
                base,
            ),
{
    let done = dense_coo_entries(d, stored, r);
    let part = dense_coo_row(d, stored, r, n);
    let whole_row = dense_coo_row(d, stored, r, d.columns as int);
    lemma_row_prefix_of_dense(d, stored, r, n);
    let raw_whole = dense_row_entries(d, stored, r, d.columns as int);
    let raw_part = dense_row_entries(d, stored, r, n);
    assert(raw_whole.take(raw_part.len() as int) == raw_part);
    assert forall|i: int| 0 <= i < part.len() implies #[trigger] whole_row.take(part.len() as int)[i]
        == part[i] by {
        assert(raw_whole.take(raw_part.len() as int)[i] == raw_part[i]);
    }
    assert(whole_row.take(part.len() as int) =~= part);
    lemma_coo_entries_prefix(d, stored, r + 1, d.rows as int);
    let all = dense_coo_entries(d, stored, d.rows as int);
    assert(dense_coo_entries(d, stored, r + 1) == done + whole_row);
    let k = (done + part).len() as int;
    assert((done + whole_row).take(k) =~= done + part);
    assert(all.take(k) =~= done + part) by {
        assert(all.take((done + whole_row).len() as int) == done + whole_row);
        assert(all.take(k) =~= all.take((done + whole_row).len() as int).take(k));
    }
    assert(all =~= all.take(k) + all.skip(k));
    assert forall|base: u32|
        #![trigger first_coo_error(dense_coo_entries(d, stored, r) + dense_coo_row(d, stored, r, n), base)]
        first_coo_error(done + part, base) is Some implies first_coo_error(all, base)
        == first_coo_error(done + part, base) by {
        lemma_first_coo_error_prefix(done + part, all.skip(k), base);
    }
}

/// The value left at storage position `p` after writing the first `n`
/// entries, entry `e` to position `targets(e)`, over an array filled with `fill`:
/// the last entry written there wins.
pub open spec fn last_write<V>(targets: spec_fn(int) -> int, values: Seq<V>, fill: V, n: int, p: int) -> V
    decreases n,
{
    if n <= 0 {
        fill
    } else if targets(n - 1) == p {
        values[n - 1]
    } else {
        last_write(targets, values, fill, n - 1, p)
    }
}

/// The row that stores CSR entry `e`.
pub open spec fn csr_row_of<V>(m: CsrView<V>, e: int) -> int {
    choose|r: int| m.entry_in_row(r, e)
}

/// Dense position of CSR entry `e`.
pub open spec fn csr_target<V>(m: CsrView<V>, order: DenseOrder, e: int) -> int {
    dense_offset(
        m.rows as int,
        m.columns as int,
        order,
        csr_row_of(m, e),
        m.column_indices[e] - base_of(m.base),
    )
}

/// Dense position of COO entry `e`.
pub open spec fn coo_target<V>(m: CooView<V>, order: DenseOrder, e: int) -> int {
    dense_offset(
        m.rows as int,
        m.columns as int,
        order,
        m.row_indices[e] - base_of(m.base),
        m.column_indices[e] - base_of(m.base),
    )
}

/// The column that stores CSC entry `e`.
pub open spec fn csc_column_of<V>(m: CscView<V>, e: int) -> int {
    choose|c: int| 0 <= c < m.columns && crate::pattern::in_segment(m.column_offsets, base_of(m.base), c, e)
}

/// Dense position of CSC entry `e`.
pub open spec fn csc_target<V>(m: CscView<V>, order: DenseOrder, e: int) -> int {
    dense_offset(
        m.rows as int,
        m.columns as int,
        order,
        m.row_indices[e] - base_of(m.base),
        csc_column_of(m, e),
    )
}

/// `out` is a `rows` by `columns` dense matrix in `order` holding, at each
/// position, the last of the `n` entries written there, or `fill`.
pub open spec fn scattered<V>(
    out: DenseView<V>,
    rows: usize,
    columns: usize,
    order: DenseOrder,
    targets: spec_fn(int) -> int,
    values: Seq<V>,
    n: nat,
    fill: V,
) -> bool {
    &&& out.rows == rows
    &&& out.columns == columns
    &&& out.order == order
    &&& out.values.len() == rows * columns
    &&& forall|p: int|
        0 <= p < rows * columns ==> #[trigger] out.values[p] == last_write(targets, values, fill, n as int, p)
}

/// `d` holds the entries of CSR matrix `m` written over `fill`.
pub open spec fn csr_dense_result<V>(d: DenseView<V>, m: CsrView<V>, order: DenseOrder, fill: V) -> bool {
    scattered(d, m.rows, m.columns, order, |e: int| csr_target(m, order, e), m.values, m.nnz(), fill)
}

/// `d` holds the entries of COO matrix `m` written over `fill`.
pub open spec fn coo_dense_result<V>(d: DenseView<V>, m: CooView<V>, order: DenseOrder, fill: V) -> bool {
    scattered(
        d,
        m.rows,
        m.columns,
        order,
        |e: int| coo_target(m, order, e),
        m.values,
        m.values.len(),
        fill,
    )
}

/// `d` holds the entries of CSC matrix `m` written over `fill`.
pub open spec fn csc_dense_result<V>(d: DenseView<V>, m: CscView<V>, order: DenseOrder, fill: V) -> bool {
    scattered(
        d,
        m.rows,
        m.columns,
        order,
        |e: int| csc_target(m, order, e),
        m.values,
        m.values.len(),
        fill,
    )
}

/// `v` is a value that `V::default()` returns.
pub open spec fn is_default<V: Default>(v: V) -> bool {
    call_ensures(V::default, (), v)
}

/// Every element of `v` is `fill`.
pub open spec fn all_equal<V>(v: Seq<V>, fill: V) -> bool {
    forall|i: int| 0 <= i < v.len() ==> #[trigger] v[i] == fill
}

/// A `rows` by `columns` array of default values.
fn zero_dense<V: Copy + Default>(rows: usize, columns: usize, _order: DenseOrder) -> (r: Result<
    Vec<V>,
    SparseError,
>)
    ensures
        rows * columns > usize::MAX ==> r == Err::<Vec<V>, SparseError>(
            SparseError::SizeOverflow("sparse to dense output"),
        ),
        rows * columns <= usize::MAX ==> (r matches Ok(v) && v.len() == rows * columns && exists|
            fill: V,
        | is_default(fill) && #[trigger] all_equal(v@, fill)),
{
    let elements = match rows.checked_mul(columns) {
        Some(value) => value,
        None => return Err(SparseError::SizeOverflow("sparse to dense output")),
    };
    let fill = V::default();
    let v = crate::pattern::repeat(fill, elements);
    assert(is_default(fill));
    assert(all_equal(v@, fill));
    Ok(v)
}

/// Writes each stored entry into a dense array; where several entries share a
/// position, the last one stored wins, and unwritten positions hold `V::default()`.
pub fn csr_to_dense<V: Copy + Default>(matrix: CsrMatrix<'_, V>, order: DenseOrder) -> (r: Result<
    DenseMatrixOwned<V>,
    SparseError,
>)
    ensures
        r is Err <==> matrix@.rows * matrix@.columns > usize::MAX,
        r matches Err(e) ==> e == SparseError::SizeOverflow("sparse to dense output"),
        r matches Ok(d) ==> exists|fill: V| is_default(fill) && #[trigger] csr_dense_result(d@, matrix@, order, fill),
{
    proof {
        use_type_invariant(&matrix);
    }
    let rows = matrix.rows();
    let columns = matrix.columns();
    let offsets = matrix.row_offsets();
    let indices = matrix.column_indices();
    let values = matrix.values();
    let mut output = zero_dense(rows, columns, order)?;
    let ghost m = matrix@;
    let ghost fill = choose|fill: V| is_default(fill) && all_equal(output@, fill);
    let ghost targets = |e: int| csr_target(m, order, e);
    let base = matrix.index_base().value();
    let mut row: usize = 0;
    while row < rows
        invariant
            m == matrix@,
            m.valid(),
            rows == m.rows,
            columns == m.columns,
            offsets@ == m.row_offsets,
            indices@ == m.column_indices,
            values@ == m.values,
            base == base_of(m.base),
            targets == (|e: int| csr_target(m, order, e)),
            row <= rows,
            output.len() == rows * columns,
            forall|p: int|
                0 <= p < rows * columns ==> #[trigger] output@[p] == last_write(
                    targets,
                    m.values,
                    fill,
                    m.row_offsets[row as int] - base,
                    p,
                ),
        decreases rows - row,
    {
        let start = (offsets[row] - base) as usize;
        let end = (offsets[row + 1] - base) as usize;
        assert(m.row_offsets[row as int] <= m.row_offsets[row + 1]);
        assert(m.row_offsets[row + 1] <= m.row_offsets[rows as int]);
        let mut entry = start;
        while entry < end
            invariant
                m == matrix@,
                m.valid(),
                rows == m.rows,
                columns == m.columns,
                indices@ == m.column_indices,
                values@ == m.values,
                base == base_of(m.base),
                targets == (|e: int| csr_target(m, order, e)),
                row < rows,
                start == m.row_offsets[row as int] - base,
                end == m.row_offsets[row + 1] - base,
                start <= entry <= end <= m.nnz(),
                output.len() == rows * columns,
                forall|p: int|
                    0 <= p < rows * columns ==> #[trigger] output@[p] == last_write(
                        targets,
                        m.values,
                        fill,
                        entry as int,
                        p,
                    ),
            decreases end - entry,
        {
            assert(base <= m.column_indices[entry as int] < base + m.columns);
            let column = (indices[entry] - base) as usize;
            let index = physical_index(rows, columns, order, row, column);
            proof {
                assert(m.entry_in_row(row as int, entry as int));
                let r = csr_row_of(m, entry as int);
                let r0 = crate::pattern::lemma_segment_of(m.row_offsets, base, m.nnz(), entry as int);
                assert(r == r0 && row == r0);
                assert(targets(entry as int) == index);
            }
            output.set(index, values[entry]);
            entry = entry + 1;
        }
        row = row + 1;
    }
    proof {
        assert(m.row_offsets[rows as int] - base == m.nnz());
    }
    let dense = DenseMatrixOwned::new(output, rows, columns, order)?;
    assert(scattered(dense@, rows, columns, order, targets, m.values, m.values.len(), fill));
    assert(csr_dense_result(dense@, m, order, fill));
    Ok(dense)
}

/// Writes each stored entry into a dense array; where several entries share a
/// position, the last one stored wins, and unwritten positions hold `V::default()`.
pub fn coo_to_dense<V: Copy + Default>(matrix: CooMatrix<'_, V>, order: DenseOrder) -> (r: Result<
    DenseMatrixOwned<V>,
    SparseError,
>)
    ensures
        r is Err <==> matrix@.rows * matrix@.columns > usize::MAX,
        r matches Err(e) ==> e == SparseError::SizeOverflow("sparse to dense output"),
        r matches Ok(d) ==> exists|fill: V| is_default(fill) && #[trigger] coo_dense_result(d@, matrix@, order, fill),
{
    proof {
        use_type_invariant(&matrix);
    }
    let rows = matrix.rows();
    let columns = matrix.columns();
    let mut output = zero_dense(rows, columns, order)?;
    let ghost m = matrix@;
    let ghost fill = choose|fill: V| is_default(fill) && all_equal(output@, fill);
    let ghost targets = |e: int| coo_target(m, order, e);
    let base = matrix.index_base().value();
    let row_indices = matrix.row_indices();
    let column_indices = matrix.column_indices();
    let values = matrix.values();
    let mut entry: usize = 0;
    while entry < matrix.nnz()
        invariant
            m == matrix@,
            m.valid(),
            rows == m.rows,
            columns == m.columns,
            row_indices@ == m.row_indices,
            column_indices@ == m.column_indices,
            values@ == m.values,
            base == base_of(m.base),
            targets == (|e: int| coo_target(m, order, e)),
            entry <= m.values.len(),
            output.len() == rows * columns,
            forall|p: int|
                0 <= p < rows * columns ==> #[trigger] output@[p] == last_write(
                    targets,
                    m.values,
                    fill,
                    entry as int,
                    p,
                ),
        decreases m.values.len() - entry,
    {
        assert(base <= m.row_indices[entry as int] < base + m.rows);
        assert(base <= m.column_indices[entry as int] < base + m.columns);
        let row = (row_indices[entry] - base) as usize;
        let column = (column_indices[entry] - base) as usize;
        let index = physical_index(rows, columns, order, row, column);
        output.set(index, values[entry]);
        entry = entry + 1;
    }
    let dense = DenseMatrixOwned::new(output, rows, columns, order)?;
    assert(scattered(dense@, rows, columns, order, targets, m.values, m.values.len(), fill));
    assert(coo_dense_result(dense@, m, order, fill));
    Ok(dense)
}

/// Writes each stored entry into a dense array; where several entries share a
/// position, the last one stored wins, and unwritten positions hold `V::default()`.
pub fn csc_to_dense<V: Copy + Default>(matrix: CscMatrix<'_, V>, order: DenseOrder) -> (r: Result<
    DenseMatrixOwned<V>,
    SparseError,
>)
    ensures
        r is Err <==> matrix@.rows * matrix@.columns > usize::MAX,
        r matches Err(e) ==> e == SparseError::SizeOverflow("sparse to dense output"),
        r matches Ok(d) ==> exists|fill: V| is_default(fill) && #[trigger] csc_dense_result(d@, matrix@, order, fill),
{
    proof {
        use_type_invariant(&matrix);
    }
    let rows = matrix.rows();
    let columns = matrix.columns();
    let offsets = matrix.column_offsets();
    let indices = matrix.row_indices();
    let values = matrix.values();
    let mut output = zero_dense(rows, columns, order)?;
    let ghost m = matrix@;
    let ghost fill = choose|fill: V| is_default(fill) && all_equal(output@, fill);
    let ghost targets = |e: int| csc_target(m, order, e);
    let base = matrix.index_base().value();
    let mut column: usize = 0;
    while column < columns
        invariant
            m == matrix@,
            m.valid(),
            rows == m.rows,
            columns == m.columns,
            offsets@ == m.column_offsets,
            indices@ == m.row_indices,
            values@ == m.values,
            base == base_of(m.base),
            targets == (|e: int| csc_target(m, order, e)),
            column <= columns,
            output.len() == rows * columns,
            forall|p: int|
                0 <= p < rows * columns ==> #[trigger] output@[p] == last_write(
                    targets,
                    m.values,
                    fill,
                    m.column_offsets[column as int] - base,
                    p,
                ),
        decreases columns - column,
    {
        let start = (offsets[column] - base) as usize;
        let end = (offsets[column + 1] - base) as usize;
        assert(m.column_offsets[column as int] <= m.column_offsets[column + 1]);
        assert(m.column_offsets[column + 1] <= m.column_offsets[columns as int]);
        let mut entry = start;
        while entry < end
            invariant
                m == matrix@,
                m.valid(),
                rows == m.rows,
                columns == m.columns,
                indices@ == m.row_indices,
                values@ == m.values,
                base == base_of(m.base),
                targets == (|e: int| csc_target(m, order, e)),
                column < columns,
                start == m.column_offsets[column as int] - base,
                end == m.column_offsets[column + 1] - base,
                start <= entry <= end <= m.values.len(),
                output.len() == rows * columns,
                forall|p: int|
                    0 <= p < rows * columns ==> #[trigger] output@[p] == last_write(
                        targets,
                        m.values,
                        fill,
                        entry as int,
                        p,
                    ),
            decreases end - entry,
        {
            assert(base <= m.row_indices[entry as int] < base + m.rows);
            let row = (indices[entry] - base) as usize;
            let index = physical_index(rows, columns, order, row, column);
            proof {
                assert(crate::pattern::in_segment(m.column_offsets, base, column as int, entry as int));
                let c = csc_column_of(m, entry as int);
                let c0 = crate::pattern::lemma_segment_of(
                    m.column_offsets,
                    base,
                    m.values.len(),
                    entry as int,
                );
                assert(c == c0 && column == c0);
                assert(targets(entry as int) == index);
            }
            output.set(index, values[entry]);
            entry = entry + 1;
        }
        column = column + 1;
    }
    proof {
        assert(m.column_offsets[columns as int] == m.column_offsets.last());
    }
    let dense = DenseMatrixOwned::new(output, rows, columns, order)?;
    assert(scattered(dense@, rows, columns, order, targets, m.values, m.values.len(), fill));
    assert(csc_dense_result(dense@, m, order, fill));
    Ok(dense)
}

} // verus!
