//! Host-side sparse operations that only move, select or locate values:
//! operand transposition, the patterns of sums and products with the
//! positions their terms land at, gathering a dense matrix at a pattern, and
//! the gradient of densification.

use vstd::prelude::*;
use crate::sampling::{contributions_listed, law_sampled_terms_contribute, terms_contribute};
use crate::assemble::{assemble, Assembly, Encoding};
use crate::conversion::{all_equal, csr_row_of, csr_target, dense_index, is_default};
use crate::csr::{csr_error, transpose_of, CsrView};
use crate::pattern::repeat;
use crate::symbolic::{
    as_entries, insert_sorted, lands_at, law_sum_pattern_covers_operands, lemma_insert_sorted, pattern_of,
    product_rows, sorted_insert, sorted_strict, sum_entry_mapping, sum_rows, symbolic_product,
    symbolic_sum, CsrPattern, SymbolicOutput,
};
use crate::dense::DenseView;
use crate::terms::{
    law_product_pattern_holds_terms, product_pairs, product_terms, sampled_product_terms, sampled_terms,
    same_triples, terms_land,
};
use crate::{base_of, CsrMatrix, CsrMatrixOwned, DenseMatrix, DenseOrder, IndexBase, Operation, SparseError};

verus! {

/// The operand `op(matrix)`: `None` when `operation` leaves the matrix as it
/// is, its transpose otherwise (real values make the conjugate transpose the
/// transpose).
pub fn transpose<V: Copy>(matrix: CsrMatrix<'_, V>, operation: Operation) -> (r: Result<
    Option<CsrMatrixOwned<V>>,
    SparseError,
>)
    requires
        operation != Operation::NoTranspose ==> matrix@.columns < usize::MAX,
    ensures
        operation == Operation::NoTranspose ==> r == Ok::<Option<CsrMatrixOwned<V>>, SparseError>(None),
        operation != Operation::NoTranspose ==> (r is Err <==> base_of(matrix@.base) + matrix@.rows > u32::MAX),
        operation != Operation::NoTranspose ==> (r matches Err(e) ==> e == SparseError::SizeOverflow("CSR column index range")),
        operation != Operation::NoTranspose ==> (r matches Ok(t) ==> t is Some),
        r matches Ok(Some(t)) ==> transpose_of(t@, matrix@),
{
    match operation {
        Operation::NoTranspose => Ok(None),
        Operation::Transpose | Operation::ConjugateTranspose => match matrix.transpose() {
            Ok(t) => Ok(Some(t)),
            Err(e) => Err(e),
        },
    }
}

/// The assembly of the pattern of `a + b`.
pub open spec fn sum_assembly<V>(a: CsrView<V>, b: CsrView<V>) -> Assembly {
    assemble(
        as_entries(sum_rows(pattern_of(a), pattern_of(b))),
        base_of(a.base),
        Encoding::Encoded,
        "SpGEAM output nnz",
        "SpGEAM row offsets",
    )
}

/// The assembly of the pattern of `a * b`.
pub open spec fn product_assembly<V>(a: CsrView<V>, b: CsrView<V>) -> Assembly {
    assemble(
        as_entries(product_rows(pattern_of(a), pattern_of(b))),
        base_of(a.base),
        Encoding::Encoded,
        "SpGEMM output nnz",
        "SpGEMM row offsets",
    )
}

/// `mapping` sends every entry of `source` to a position of the same row of
/// the pattern `offsets`, `indices` (index base `base`) that holds its column.
pub open spec fn maps_into(mapping: Seq<u32>, source: CsrView<()>, offsets: Seq<u32>, indices: Seq<u32>, base: u32) -> bool {
    &&& mapping.len() == source.column_indices.len()
    &&& forall|r: int, e: int|
        #![trigger source.entry_in_row(r, e)]
        source.entry_in_row(r, e) ==> lands_at(source, offsets, indices, base, r, e, mapping[e] as int)
}

/// `m` is the matrix on the pattern `offsets`, `indices` with shape `rows` by
/// `columns`, index base `base`, and every value the one `V::default()` gave.
pub open spec fn zero_on_pattern<V: Default>(m: CsrView<V>, rows: usize, columns: usize, base: IndexBase, offsets: Seq<u32>, indices: Seq<u32>) -> bool {
    &&& m.rows == rows
    &&& m.columns == columns
    &&& m.base == base
    &&& m.row_offsets == offsets
    &&& m.column_indices == indices
    &&& m.values.len() == indices.len()
    &&& exists|fill: V| is_default(fill) && #[trigger] all_equal(m.values, fill)
}

/// The pattern of `a + b` with every value set to `V::default()`, and for
/// each operand the position of each of its entries in that pattern.
pub fn csr_sum_pattern<V: Copy + Default>(a: CsrMatrix<'_, V>, b: CsrMatrix<'_, V>) -> (r: Result<
    (CsrMatrixOwned<V>, Vec<u32>, Vec<u32>),
    SparseError,
>)
    ensures
        a@.rows != b@.rows || a@.columns != b@.columns ==> r == Err::<(CsrMatrixOwned<V>, Vec<u32>, Vec<u32>), SparseError>(
            SparseError::DimensionMismatch("CSR sum operands must have the same shape"),
        ),
        a@.rows == b@.rows && a@.columns == b@.columns ==> match sum_assembly(a@, b@) {
            Assembly::Building { offsets, indices, .. } => match csr_error(
                a@.rows,
                a@.columns,
                offsets,
                indices,
                indices.len(),
                a@.base,
            ) {
                Some(e) => r == Err::<(CsrMatrixOwned<V>, Vec<u32>, Vec<u32>), SparseError>(e),
                None => r matches Ok((m, left, right)) && zero_on_pattern(m@, a@.rows, a@.columns, a@.base, offsets, indices)
                    && maps_into(left@, pattern_of(a@), offsets, indices, base_of(a@.base))
                    && maps_into(right@, pattern_of(b@), offsets, indices, base_of(a@.base)),
            },
            Assembly::Failed(e) => r == Err::<(CsrMatrixOwned<V>, Vec<u32>, Vec<u32>), SparseError>(e),
            Assembly::Overflowed => false,
        },
{
    if a.rows() != b.rows() || a.columns() != b.columns() {
        return Err(SparseError::DimensionMismatch("CSR sum operands must have the same shape"));
    }
    let pa = CsrPattern::from_matrix(a);
    let pb = CsrPattern::from_matrix(b);
    proof {
        use_type_invariant(&pa);
        use_type_invariant(&pb);
    }
    let symbolic = match symbolic_sum(pa, pb) {
        Ok(s) => s,
        Err(e) => return Err(e),
    };
    proof {
        law_sum_pattern_covers_operands(pa@, pb@, symbolic);
    }
    let left = match sum_entry_mapping(pa, &symbolic, a.index_base()) {
        Ok(m) => m,
        Err(e) => return Err(e),
    };
    let right = match sum_entry_mapping(pb, &symbolic, a.index_base()) {
        Ok(m) => m,
        Err(e) => return Err(e),
    };
    let nnz = symbolic.column_indices.len();
    let fill = V::default();
    let values = repeat(fill, nnz);
    proof {
        assert(all_equal(values@, fill));
    }
    let SymbolicOutput { row_offsets, column_indices, entry_rows: _ } = symbolic;
    match CsrMatrixOwned::new(a.rows(), a.columns(), row_offsets, column_indices, values, a.index_base()) {
        Ok(matrix) => {
            proof {
                assert(all_equal(matrix@.values, fill));
            }
            Ok((matrix, left, right))
        },
        Err(e) => Err(e),
    }
}

/// The pattern of `a * b` with every value set to `V::default()`.
pub fn csr_product_pattern<V: Copy + Default>(a: CsrMatrix<'_, V>, b: CsrMatrix<'_, V>) -> (r: Result<
    CsrMatrixOwned<V>,
    SparseError,
>)
    ensures
        a@.columns != b@.rows ==> r == Err::<CsrMatrixOwned<V>, SparseError>(
            SparseError::DimensionMismatch("CSR product inner dimensions differ"),
        ),
        a@.columns == b@.rows ==> match product_assembly(a@, b@) {
            Assembly::Building { offsets, indices, .. } => match csr_error(
                a@.rows,
                b@.columns,
                offsets,
                indices,
                indices.len(),
                a@.base,
            ) {
                Some(e) => r == Err::<CsrMatrixOwned<V>, SparseError>(e),
                None => r matches Ok(m) && zero_on_pattern(m@, a@.rows, b@.columns, a@.base, offsets, indices),
            },
            Assembly::Failed(e) => r == Err::<CsrMatrixOwned<V>, SparseError>(e),
            Assembly::Overflowed => false,
        },
{
    if a.columns() != b.rows() {
        return Err(SparseError::DimensionMismatch("CSR product inner dimensions differ"));
    }
    let pa = CsrPattern::from_matrix(a);
    let pb = CsrPattern::from_matrix(b);
    proof {
        use_type_invariant(&pa);
        assert(crate::pattern::indices_in_range(pa@.column_indices, base_of(pa@.base), pa@.columns as nat));
    }
    let symbolic = match symbolic_product(pa, pb) {
        Ok(s) => s,
        Err(e) => return Err(e),
    };
    let nnz = symbolic.column_indices.len();
    let fill = V::default();
    let values = repeat(fill, nnz);
    proof {
        assert(all_equal(values@, fill));
    }
    let SymbolicOutput { row_offsets, column_indices, entry_rows: _ } = symbolic;
    match CsrMatrixOwned::new(a.rows(), b.columns(), row_offsets, column_indices, values, a.index_base()) {
        Ok(matrix) => {
            proof {
                assert(all_equal(matrix@.values, fill));
            }
            Ok(matrix)
        },
        Err(e) => Err(e),
    }
}


/// The values of `dense` at the positions of the entries of `pattern`, in
/// the order the entries are stored.
pub fn csr_gather<V: Copy, W>(pattern: CsrMatrix<'_, W>, dense: DenseMatrix<'_, V>) -> (r: Result<Vec<V>, SparseError>)
    ensures
        dense@.rows != pattern@.rows || dense@.columns != pattern@.columns ==> r == Err::<Vec<V>, SparseError>(
            SparseError::DimensionMismatch("CSR gather shape mismatch"),
        ),
        dense@.rows == pattern@.rows && dense@.columns == pattern@.columns ==> (r matches Ok(v) && v@.len()
            == pattern@.column_indices.len() && forall|row: int, e: int|
            #![trigger pattern@.entry_in_row(row, e)]
            pattern@.entry_in_row(row, e) ==> v@[e] == dense@.at(row, pattern@.column_indices[e] - base_of(pattern@.base))),
{
    if dense.rows() != pattern.rows() || dense.columns() != pattern.columns() {
        return Err(SparseError::DimensionMismatch("CSR gather shape mismatch"));
    }
    proof {
        use_type_invariant(&pattern);
        use_type_invariant(&dense);
    }
    let ghost m = pattern@;
    let base = pattern.index_base().value();
    let offsets = pattern.row_offsets();
    let indices = pattern.column_indices();
    let rows = pattern.rows();
    let mut output: Vec<V> = Vec::new();
    let mut row: usize = 0;
    while row < rows
        invariant
            m == pattern@,
            m.valid(),
            dense@.rows == m.rows,
            dense@.columns == m.columns,
            base == base_of(m.base),
            offsets@ == m.row_offsets,
            indices@ == m.column_indices,
            rows == m.rows,
            row <= rows,
            output@.len() == m.row_offsets[row as int] - base,
            forall|r: int, e: int|
                #![trigger m.entry_in_row(r, e)]
                m.entry_in_row(r, e) && r < row ==> output@[e] == dense@.at(r, m.column_indices[e] - base),
        decreases rows - row,
    {
        proof {
            crate::symbolic::lemma_segment_bounds(m, row as int);
        }
        let first = (offsets[row] - base) as usize;
        let last = (offsets[row + 1] - base) as usize;
        let mut entry = first;
        while entry < last
            invariant
                m == pattern@,
                m.valid(),
                dense@.rows == m.rows,
                dense@.columns == m.columns,
                base == base_of(m.base),
                offsets@ == m.row_offsets,
                indices@ == m.column_indices,
                row < rows,
                rows == m.rows,
                first == m.row_offsets[row as int] - base,
                last == m.row_offsets[row + 1] - base,
                first <= entry <= last <= m.column_indices.len(),
                output@.len() == entry,
                forall|r: int, e: int|
                    #![trigger m.entry_in_row(r, e)]
                    m.entry_in_row(r, e) && (r < row || (r == row && e < entry)) ==> output@[e] == dense@.at(
                        r,
                        m.column_indices[e] - base,
                    ),
            decreases last - entry,
        {
            proof {
                assert(crate::pattern::indices_in_range(m.column_indices, base, m.columns as nat));
            }
            let column = (indices[entry] - base) as usize;
            let position = dense_index(dense, row, column);
            output.push(dense.values()[position]);
            proof {
                assert forall|r: int, e: int|
                    #![trigger m.entry_in_row(r, e)]
                    m.entry_in_row(r, e) && (r < row || (r == row && e < entry + 1)) implies output@[e]
                        == dense@.at(r, m.column_indices[e] - base) by {
                    if r < row {
                        assert(m.row_offsets[r + 1] <= m.row_offsets[row as int]);
                    }
                }
            }
            entry = entry + 1;
        }
        proof {
            assert forall|r: int, e: int|
                #![trigger m.entry_in_row(r, e)]
                m.entry_in_row(r, e) && r < row + 1 implies output@[e] == dense@.at(r, m.column_indices[e] - base) by {
                if r == row {
                    assert(e < entry);
                }
            }
        }
        row = row + 1;
    }
    proof {
        assert(m.row_offsets[rows as int] - base == m.column_indices.len());
    }
    Ok(output)
}

/// Entry `e` of row `r` of `m` is the last entry of that row with its column.
pub open spec fn last_in_row<V>(m: CsrView<V>, r: int, e: int) -> bool {
    forall|e2: int| #![trigger m.entry_in_row(r, e2)] m.entry_in_row(r, e2) && e < e2 ==> m.column_indices[e2] != m.column_indices[e]
}

/// `v` is the gradient of densifying `m` given the dense gradient `g`, with
/// `fill` at the entries densification overwrote.
pub open spec fn backward_result<V, W>(v: Seq<V>, m: CsrView<W>, g: DenseView<V>, fill: V) -> bool {
    &&& v.len() == m.column_indices.len()
    &&& forall|row: int, e: int|
        #![trigger m.entry_in_row(row, e)]
        m.entry_in_row(row, e) ==> v[e] == if last_in_row(m, row, e) {
            g.at(row, m.column_indices[e] - base_of(m.base))
        } else {
            fill
        }
}

/// `v` is the gradient of densifying `m` given the dense gradient `g`, with
/// the value `V::default()` gave at every entry densification overwrote.
pub open spec fn is_backward<V: Default, W>(v: Seq<V>, m: CsrView<W>, g: DenseView<V>) -> bool {
    exists|fill: V| is_default(fill) && #[trigger] backward_result(v, m, g, fill)
}

/// Scanning row `row` of `m` backwards, entry `entry` is the last of its
/// column exactly when its column is not among those of the entries after it.
pub(crate) proof fn lemma_backward_step<W>(m: CsrView<W>, row: int, entry: int, last: int, before: Seq<u32>, stored: u32)
    requires
        m.valid(),
        0 <= row < m.rows,
        m.row_offsets[row] - base_of(m.base) <= entry < last,
        last == m.row_offsets[row + 1] - base_of(m.base),
        stored == m.column_indices[entry],
        sorted_strict(before),
        forall|x: u32| before.contains(x) <==> exists|e2: int| entry < e2 < last && #[trigger] m.column_indices[e2] == x,
    ensures
        sorted_strict(insert_sorted(before, stored)),
        forall|x: u32| insert_sorted(before, stored).contains(x) <==> exists|e2: int| entry <= e2 < last && #[trigger] m.column_indices[e2] == x,
        !before.contains(stored) <==> last_in_row(m, row, entry),
{
    let after = insert_sorted(before, stored);
    lemma_insert_sorted(before, stored);
    assert(m.entry_in_row(row, entry));
    if !before.contains(stored) {
        assert forall|e2: int| #![trigger m.entry_in_row(row, e2)] m.entry_in_row(row, e2) && entry < e2
            implies m.column_indices[e2] != m.column_indices[entry] by {
            if m.column_indices[e2] == stored {
                assert(before.contains(stored));
            }
        }
    } else {
        let e2 = choose|e2: int| entry < e2 < last && #[trigger] m.column_indices[e2] == stored;
        assert(m.entry_in_row(row, e2));
    }
    assert forall|x: u32| after.contains(x) <==> exists|e2: int| entry <= e2 < last && #[trigger] m.column_indices[e2] == x by {
        assert(after.to_set().contains(x) <==> after.contains(x));
        assert(before.to_set().contains(x) <==> before.contains(x));
        if x == stored {
            assert(m.column_indices[entry] == x);
        }
        if exists|e2: int| entry <= e2 < last && #[trigger] m.column_indices[e2] == x {
            let e2 = choose|e2: int| entry <= e2 < last && #[trigger] m.column_indices[e2] == x;
            if e2 > entry {
                assert(before.contains(x));
            }
        }
    }
}

/// The gradient of densifying `pattern`, given the gradient `grad` of the
/// dense result: each entry that densification wrote (the last entry of its
/// row with its column) gets the gradient at its position; every other entry
/// gets `V::default()`.
pub fn csr_to_dense_backward<V: Copy + Default, W>(pattern: CsrMatrix<'_, W>, grad: DenseMatrix<'_, V>) -> (r: Result<
    Vec<V>,
    SparseError,
>)
    ensures
        grad@.rows != pattern@.rows || grad@.columns != pattern@.columns ==> r == Err::<Vec<V>, SparseError>(
            SparseError::DimensionMismatch("CSR to dense gradient shape mismatch"),
        ),
        grad@.rows == pattern@.rows && grad@.columns == pattern@.columns ==> (r matches Ok(v) && is_backward(v@, pattern@, grad@)),
{
    if grad.rows() != pattern.rows() || grad.columns() != pattern.columns() {
        return Err(SparseError::DimensionMismatch("CSR to dense gradient shape mismatch"));
    }
    proof {
        use_type_invariant(&pattern);
        use_type_invariant(&grad);
    }
    let ghost m = pattern@;
    let base = pattern.index_base().value();
    let offsets = pattern.row_offsets();
    let indices = pattern.column_indices();
    let rows = pattern.rows();
    let fill = V::default();
    let mut values = repeat(fill, indices.len());
    let mut row: usize = 0;
    while row < rows
        invariant
            m == pattern@,
            m.valid(),
            grad@.rows == m.rows,
            grad@.columns == m.columns,
            base == base_of(m.base),
            offsets@ == m.row_offsets,
            indices@ == m.column_indices,
            rows == m.rows,
            row <= rows,
            values@.len() == m.column_indices.len(),
            forall|e: int| m.row_offsets[row as int] - base <= e < values@.len() ==> #[trigger] values@[e] == fill,
            forall|r: int, e: int|
                #![trigger m.entry_in_row(r, e)]
                m.entry_in_row(r, e) && r < row ==> values@[e] == if last_in_row(m, r, e) {
                    grad@.at(r, m.column_indices[e] - base)
                } else {
                    fill
                },
        decreases rows - row,
    {
        proof {
            crate::symbolic::lemma_segment_bounds(m, row as int);
        }
        let first = (offsets[row] - base) as usize;
        let last = (offsets[row + 1] - base) as usize;
        let mut seen: Vec<u32> = Vec::new();
        let mut entry = last;
        while entry > first
            invariant
                m == pattern@,
                m.valid(),
                grad@.rows == m.rows,
                grad@.columns == m.columns,
                base == base_of(m.base),
                offsets@ == m.row_offsets,
                indices@ == m.column_indices,
                row < rows,
                rows == m.rows,
                first == m.row_offsets[row as int] - base,
                last == m.row_offsets[row + 1] - base,
                first <= entry <= last <= m.column_indices.len(),
                values@.len() == m.column_indices.len(),
                sorted_strict(seen@),
                forall|x: u32| seen@.contains(x) <==> exists|e2: int| entry <= e2 < last && #[trigger] m.column_indices[e2] == x,
                forall|e: int| first <= e < entry ==> #[trigger] values@[e] == fill,
                forall|e: int| last <= e < values@.len() ==> #[trigger] values@[e] == fill,
                forall|r: int, e: int|
                    #![trigger m.entry_in_row(r, e)]
                    m.entry_in_row(r, e) && (r < row || (r == row && entry <= e)) ==> values@[e] == if last_in_row(m, r, e) {
                        grad@.at(r, m.column_indices[e] - base)
                    } else {
                        fill
                    },
            decreases entry - first,
        {
            entry = entry - 1;
            let stored = indices[entry];
            let ghost before = seen@;
            let added = sorted_insert(&mut seen, stored);
            proof {
                lemma_backward_step(m, row as int, entry as int, last as int, before, stored);
            }
            if added {
                proof {
                    assert(crate::pattern::indices_in_range(m.column_indices, base, m.columns as nat));
                }
                let column = (stored - base) as usize;
                let position = dense_index(grad, row, column);
                values.set(entry, grad.values()[position]);
            }
            proof {
                assert forall|r: int, e: int|
                    #![trigger m.entry_in_row(r, e)]
                    m.entry_in_row(r, e) && (r < row || (r == row && entry <= e)) implies values@[e] == if last_in_row(m, r, e) {
                        grad@.at(r, m.column_indices[e] - base)
                    } else {
                        fill
                    } by {
                    if r < row {
                        assert(m.row_offsets[r + 1] <= m.row_offsets[row as int]);
                    }
                }
            }
        }
        proof {
            assert forall|r: int, e: int|
                #![trigger m.entry_in_row(r, e)]
                m.entry_in_row(r, e) && r < row + 1 implies values@[e] == if last_in_row(m, r, e) {
                    grad@.at(r, m.column_indices[e] - base)
                } else {
                    fill
                } by {
                if r == row {
                    assert(entry <= e);
                }
            }
        }
        row = row + 1;
    }
    proof {
        assert(backward_result(values@, pattern@, grad@, fill));
        assert(is_backward(values@, pattern@, grad@));
    }
    Ok(values)
}


/// The pattern of `a * b` with every value set to `V::default()`, together
/// with the terms of the product on it: for every pair of entries that meet,
/// in row-by-row order, (entry of `a`, entry of `b`, position of the output
/// that accumulates their product).
pub fn csrgemm_terms<V: Copy + Default>(a: CsrMatrix<'_, V>, b: CsrMatrix<'_, V>) -> (r: Result<
    (CsrMatrixOwned<V>, Vec<(u32, u32, u32)>),
    SparseError,
>)
    ensures
        a@.columns != b@.rows ==> r == Err::<(CsrMatrixOwned<V>, Vec<(u32, u32, u32)>), SparseError>(
            SparseError::DimensionMismatch("op(A) columns must equal op(B) rows"),
        ),
        a@.columns == b@.rows ==> match product_assembly(a@, b@) {
            Assembly::Building { offsets, indices, .. } => match csr_error(
                a@.rows,
                b@.columns,
                offsets,
                indices,
                indices.len(),
                a@.base,
            ) {
                Some(e) => r == Err::<(CsrMatrixOwned<V>, Vec<(u32, u32, u32)>), SparseError>(e),
                None => r matches Ok((m, terms)) && zero_on_pattern(m@, a@.rows, b@.columns, a@.base, offsets, indices)
                    && terms_land(
                    terms@,
                    product_pairs(pattern_of(a@), pattern_of(b@), a@.rows as int),
                    pattern_of(b@),
                    offsets,
                    indices,
                    base_of(a@.base),
                ),
            },
            Assembly::Failed(e) => r == Err::<(CsrMatrixOwned<V>, Vec<(u32, u32, u32)>), SparseError>(e),
            Assembly::Overflowed => false,
        },
{
    if a.columns() != b.rows() {
        return Err(SparseError::DimensionMismatch("op(A) columns must equal op(B) rows"));
    }
    let pa = CsrPattern::from_matrix(a);
    let pb = CsrPattern::from_matrix(b);
    proof {
        use_type_invariant(&pa);
        use_type_invariant(&pb);
        assert(crate::pattern::indices_in_range(pa@.column_indices, base_of(pa@.base), pa@.columns as nat));
    }
    let symbolic = match symbolic_product(pa, pb) {
        Ok(s) => s,
        Err(e) => return Err(e),
    };
    proof {
        law_product_pattern_holds_terms(pa@, pb@, symbolic);
    }
    let terms = match product_terms(pa, pb, &symbolic) {
        Ok(t) => t,
        Err(e) => return Err(e),
    };
    let nnz = symbolic.column_indices.len();
    let fill = V::default();
    let values = repeat(fill, nnz);
    proof {
        assert(all_equal(values@, fill));
    }
    let SymbolicOutput { row_offsets, column_indices, entry_rows: _ } = symbolic;
    match CsrMatrixOwned::new(a.rows(), b.columns(), row_offsets, column_indices, values, a.index_base()) {
        Ok(matrix) => {
            proof {
                assert(all_equal(matrix@.values, fill));
            }
            Ok((matrix, terms))
        },
        Err(e) => Err(e),
    }
}

/// The terms of sampling `a * b` at the entries of `pattern`: for each entry
/// of the pattern, in order, every pair of entries of `a` and `b` whose
/// product contributes to it, as (pattern entry, entry of `a`, entry of `b`).
pub fn sampled_csrgemm_terms<U, V>(pattern: CsrMatrix<'_, U>, a: CsrMatrix<'_, V>, b: CsrMatrix<'_, V>) -> (r: Result<
    Vec<(u32, u32, u32)>,
    SparseError,
>)
    ensures
        a@.columns != b@.rows || pattern@.rows != a@.rows || pattern@.columns != b@.columns ==> r == Err::<
            Vec<(u32, u32, u32)>,
            SparseError,
        >(SparseError::DimensionMismatch("sampled sparse product dimensions differ from pattern")),
        a@.columns == b@.rows && pattern@.rows == a@.rows && pattern@.columns == b@.columns ==> (r matches Ok(terms)
            && same_triples(terms@, sampled_terms(pattern_of(pattern@), pattern_of(a@), pattern_of(b@), pattern@.rows as int))
            && terms_contribute(pattern_of(pattern@), pattern_of(a@), pattern_of(b@), terms@)
            && contributions_listed(pattern_of(pattern@), pattern_of(a@), pattern_of(b@), terms@)),
{
    if a.columns() != b.rows() || pattern.rows() != a.rows() || pattern.columns() != b.columns() {
        return Err(SparseError::DimensionMismatch("sampled sparse product dimensions differ from pattern"));
    }
    let ps = CsrPattern::from_matrix(pattern);
    let pa = CsrPattern::from_matrix(a);
    let pb = CsrPattern::from_matrix(b);
    proof {
        use_type_invariant(&pa);
        assert(crate::pattern::indices_in_range(pa@.column_indices, base_of(pa@.base), pa@.columns as nat));
    }
    let terms = sampled_product_terms(ps, pa, pb);
    proof {
        use_type_invariant(&ps);
        use_type_invariant(&pb);
        law_sampled_terms_contribute(ps@, pa@, pb@, terms@);
        assert(ps@ == pattern_of(pattern@) && pa@ == pattern_of(a@) && pb@ == pattern_of(b@));
    }
    Ok(terms)
}


/// The row of each entry of `matrix`, counted from zero.
pub fn csr_entry_rows<V>(matrix: CsrMatrix<'_, V>) -> (rows: Vec<u32>)
    ensures
        rows@.len() == matrix@.column_indices.len(),
        forall|r: int, e: int| #![trigger matrix@.entry_in_row(r, e)] matrix@.entry_in_row(r, e) ==> rows@[e] == r,
{
    proof {
        use_type_invariant(&matrix);
    }
    let ghost m = matrix@;
    let base = matrix.index_base().value();
    let offsets = matrix.row_offsets();
    let count = matrix.rows();
    let mut rows: Vec<u32> = Vec::new();
    let mut row: usize = 0;
    while row < count
        invariant
            m == matrix@,
            m.valid(),
            base == base_of(m.base),
            offsets@ == m.row_offsets,
            count == m.rows,
            row <= count,
            rows@.len() == m.row_offsets[row as int] - base,
            forall|r: int, e: int| #![trigger m.entry_in_row(r, e)] m.entry_in_row(r, e) && r < row ==> rows@[e] == r,
        decreases count - row,
    {
        proof {
            crate::symbolic::lemma_segment_bounds(m, row as int);
        }
        let last = (offsets[row + 1] - base) as usize;
        let ghost start = rows@.len();
        while rows.len() < last
            invariant
                m == matrix@,
                m.valid(),
                row < count,
                count == m.rows,
                count <= u32::MAX,
                start == m.row_offsets[row as int] - base,
                start <= rows@.len() <= last,
                last == m.row_offsets[row + 1] - base,
                base == base_of(m.base),
                forall|e: int| start <= e < rows@.len() ==> #[trigger] rows@[e] == row,
                forall|r: int, e: int| #![trigger m.entry_in_row(r, e)] m.entry_in_row(r, e) && r < row ==> rows@[e] == r,
            decreases last - rows@.len(),
        {
            let ghost before = rows@;
            rows.push(row as u32);
            proof {
                assert forall|r: int, e: int| #![trigger m.entry_in_row(r, e)] m.entry_in_row(r, e) && r < row
                    implies rows@[e] == r by {
                    assert(m.row_offsets[r + 1] <= m.row_offsets[row as int]);
                    assert(rows@[e] == before[e]);
                }
            }
        }
        row = row + 1;
    }
    proof {
        assert(m.row_offsets[count as int] - base == m.column_indices.len());
    }
    rows
}

/// For each entry of `matrix`, its position in a row-major dense array of
/// the matrix's shape. Fails when that array's length does not fit `usize`.
pub fn scatter_positions<V>(matrix: CsrMatrix<'_, V>) -> (r: Result<Vec<usize>, SparseError>)
    ensures
        matrix@.rows * matrix@.columns > usize::MAX ==> r == Err::<Vec<usize>, SparseError>(
            SparseError::SizeOverflow("CSR scatter output"),
        ),
        matrix@.rows * matrix@.columns <= usize::MAX ==> (r matches Ok(p) && p@.len() == matrix@.column_indices.len()
            && forall|row: int, e: int|
            #![trigger matrix@.entry_in_row(row, e)]
            matrix@.entry_in_row(row, e) ==> p@[e] == row * matrix@.columns + (matrix@.column_indices[e] - base_of(
                matrix@.base,
            ))),
{
    proof {
        use_type_invariant(&matrix);
    }
    let columns = matrix.columns();
    if matrix.rows().checked_mul(columns).is_none() {
        return Err(SparseError::SizeOverflow("CSR scatter output"));
    }
    let ghost m = matrix@;
    let base = matrix.index_base().value();
    let indices = matrix.column_indices();
    let rows = csr_entry_rows(matrix);
    let mut positions: Vec<usize> = Vec::new();
    let mut e: usize = 0;
    while e < rows.len()
        invariant
            m == matrix@,
            m.valid(),
            m.rows * m.columns <= usize::MAX,
            columns == m.columns,
            base == base_of(m.base),
            indices@ == m.column_indices,
            rows@.len() == m.column_indices.len(),
            forall|r: int, e2: int| #![trigger m.entry_in_row(r, e2)] m.entry_in_row(r, e2) ==> rows@[e2] == r,
            e <= rows@.len(),
            positions@.len() == e,
            forall|r: int, e2: int|
                #![trigger m.entry_in_row(r, e2)]
                m.entry_in_row(r, e2) && e2 < e ==> positions@[e2] == r * m.columns + (m.column_indices[e2] - base),
        decreases rows@.len() - e,
    {
        let ghost r = crate::pattern::lemma_segment_of(m.row_offsets, base, m.column_indices.len(), e as int);
        proof {
            assert(m.entry_in_row(r, e as int));
            assert(crate::pattern::indices_in_range(m.column_indices, base, m.columns as nat));
            assert(r * m.columns + (m.column_indices[e as int] - base) < m.rows * m.columns) by (nonlinear_arith)
                requires
                    0 <= r < m.rows,
                    0 <= m.column_indices[e as int] - base < m.columns,
            ;
        }
        let row = rows[e] as usize;
        let column = (indices[e] - base) as usize;
        positions.push(row * columns + column);
        proof {
            assert forall|r2: int, e2: int|
                #![trigger m.entry_in_row(r2, e2)]
                m.entry_in_row(r2, e2) && e2 < e + 1 implies positions@[e2] == r2 * m.columns + (m.column_indices[e2] - base) by {
                if e2 == e {
                    assert(r2 == r) by {
                        assert(m.entry_in_row(r, e as int));
                        crate::host::lemma_rows_disjoint(m, r, r2, e as int);
                    }
                }
            }
        }
        e = e + 1;
    }
    Ok(positions)
}

/// An entry lies in one row only.
pub proof fn lemma_rows_disjoint<V>(m: CsrView<V>, r1: int, r2: int, e: int)
    requires
        m.valid(),
        m.entry_in_row(r1, e),
        m.entry_in_row(r2, e),
    ensures
        r1 == r2,
{
    if r1 < r2 {
        assert(m.row_offsets[r1 + 1] <= m.row_offsets[r2]);
    } else if r2 < r1 {
        assert(m.row_offsets[r2 + 1] <= m.row_offsets[r1]);
    }
}


/// The row that stores an entry of a valid matrix is the row it lies in.
pub proof fn lemma_row_of_entry<V>(m: CsrView<V>, r: int, e: int)
    requires
        m.valid(),
        m.entry_in_row(r, e),
    ensures
        csr_row_of(m, e) == r,
{
    let r2 = csr_row_of(m, e);
    assert(m.entry_in_row(r2, e));
    lemma_rows_disjoint(m, r, r2, e);
}

/// Densification keeps, at each position, the value of the last entry
/// written there; the gradient of densification goes to the last entry of a
/// row with a given column. These are the same entries: an entry is the last
/// of its row with its column exactly when no later entry is densified to
/// its position.
pub proof fn law_backward_follows_densify<V>(m: CsrView<V>, order: DenseOrder, r: int, e: int)
    requires
        m.valid(),
        m.entry_in_row(r, e),
    ensures
        last_in_row(m, r, e) <==> forall|e2: int|
            e < e2 < m.column_indices.len() ==> #[trigger] csr_target(m, order, e2) != csr_target(m, order, e),
{
    let b = base_of(m.base);
    let rows = m.rows as int;
    let columns = m.columns as int;
    lemma_row_of_entry(m, r, e);
    assert(crate::pattern::indices_in_range(m.column_indices, b, m.columns as nat));
    let c = m.column_indices[e] - b;
    crate::dense::lemma_dense_offset(rows, columns, order, r, c);
    if last_in_row(m, r, e) {
        assert forall|e2: int| e < e2 < m.column_indices.len() implies #[trigger] csr_target(m, order, e2) != csr_target(
            m,
            order,
            e,
        ) by {
            let r2 = crate::pattern::lemma_segment_of(m.row_offsets, b, m.column_indices.len(), e2);
            assert(m.entry_in_row(r2, e2));
            lemma_row_of_entry(m, r2, e2);
            if csr_target(m, order, e2) == csr_target(m, order, e) {
                assert(r2 == r);
                assert(m.column_indices[e2] == m.column_indices[e]);
            }
        }
    } else {
        let e2 = choose|e2: int| m.entry_in_row(r, e2) && e < e2 && m.column_indices[e2] == m.column_indices[e];
        assert(m.entry_in_row(r, e2) && e < e2 && m.column_indices[e2] == m.column_indices[e]);
        lemma_row_of_entry(m, r, e2);
        assert(csr_target(m, order, e2) == csr_target(m, order, e));
    }
}

} // verus!
