//! Compressed sparse row matrices: validation and transposition.

use vstd::prelude::*;
use crate::pattern::{
    gather, in_segment, indices_in_range, lemma_count_below_ends, lemma_count_below_mono,
    lemma_segment_of, nondecreasing, transpose_pattern, transposed_pattern, count_below,
    copy_indices,
};
use crate::{base_of, check_result, dimension, IndexBase, SparseError};

verus! {

/// Mathematical content of a CSR matrix: its shape, its index base, and the
/// three arrays exactly as stored.
pub struct CsrView<V> {
    pub rows: usize,
    pub columns: usize,
    pub base: IndexBase,
    pub row_offsets: Seq<u32>,
    pub column_indices: Seq<u32>,
    pub values: Seq<V>,
}

/// The first check that a CSR description fails, in the order in which the
/// constructor performs them, or `None` when it describes a valid matrix.
pub open spec fn csr_error(
    rows: usize,
    columns: usize,
    offsets: Seq<u32>,
    indices: Seq<u32>,
    nnz: nat,
    base: IndexBase,
) -> Option<SparseError> {
    let b = base_of(base);
    if rows > u32::MAX {
        Some(SparseError::DimensionTooLarge("CSR rows"))
    } else if columns > u32::MAX {
        Some(SparseError::DimensionTooLarge("CSR columns"))
    } else if rows + 1 > usize::MAX {
        Some(SparseError::SizeOverflow("CSR row offsets"))
    } else if offsets.len() != rows + 1 {
        Some(
            SparseError::BufferLength {
                name: "CSR row offsets",
                expected: (rows + 1) as usize,
                actual: offsets.len() as usize,
            },
        )
    } else if indices.len() != nnz {
        Some(
            SparseError::BufferLength {
                name: "CSR column indices",
                expected: nnz as usize,
                actual: indices.len() as usize,
            },
        )
    } else if offsets[0] != b {
        Some(SparseError::InvalidRowOffsets("first row offset does not equal the index base"))
    } else if !nondecreasing(offsets) {
        Some(SparseError::InvalidRowOffsets("row offsets are not nondecreasing"))
    } else if offsets.last() - b != nnz {
        Some(SparseError::InvalidRowOffsets("terminal row offset does not match nnz"))
    } else if b + columns > u32::MAX {
        Some(SparseError::SizeOverflow("CSR column index range"))
    } else if !indices_in_range(indices, b, columns as nat) {
        Some(SparseError::InvalidColumnIndex)
    } else {
        None
    }
}

impl<V> CsrView<V> {
    pub open spec fn nnz(self) -> nat {
        self.values.len()
    }

    pub open spec fn valid(self) -> bool {
        csr_error(
            self.rows,
            self.columns,
            self.row_offsets,
            self.column_indices,
            self.values.len(),
            self.base,
        ) is None
    }

    /// Entry `e` is stored in row `r`.
    pub open spec fn entry_in_row(self, r: int, e: int) -> bool {
        0 <= r < self.rows && in_segment(self.row_offsets, base_of(self.base), r, e)
    }
}

/// `t` is the transpose of `m`: its rows are the columns of `m`, each row
/// listing the entries of that column in the order `m` stores them, and
/// `perm[d]` is the entry of `m` that entry `d` of `t` came from.
pub open spec fn is_transpose_of<V>(t: CsrView<V>, m: CsrView<V>, perm: Seq<u32>) -> bool {
    &&& t.rows == m.columns
    &&& t.columns == m.rows
    &&& t.base == m.base
    &&& transposed_pattern(
        m.rows as nat,
        m.columns as nat,
        base_of(m.base),
        m.row_offsets,
        m.column_indices,
        t.row_offsets,
        t.column_indices,
        perm,
    )
    &&& t.values.len() == perm.len()
    &&& forall|d: int| 0 <= d < perm.len() ==> #[trigger] t.values[d] == m.values[perm[d] as int]
}

/// `t` is the transpose of `m` through some permutation of its entries.
pub open spec fn transpose_of<V>(t: CsrView<V>, m: CsrView<V>) -> bool {
    exists|perm: Seq<u32>| is_transpose_of(t, m, perm)
}

/// A validated CSR matrix over borrowed arrays.
#[derive(Debug)]
pub struct CsrMatrix<'a, V> {
    values: &'a [V],
    row_offsets: &'a [u32],
    column_indices: &'a [u32],
    rows: usize,
    columns: usize,
    index_base: IndexBase,
}

impl<'a, V> Clone for CsrMatrix<'a, V> {
    fn clone(&self) -> (r: Self)
        ensures
            r@ == self@,
    {
        *self
    }
}

impl<'a, V> Copy for CsrMatrix<'a, V> {

}

impl<'a, V> View for CsrMatrix<'a, V> {
    type V = CsrView<V>;

    closed spec fn view(&self) -> CsrView<V> {
        CsrView {
            rows: self.rows,
            columns: self.columns,
            base: self.index_base,
            row_offsets: self.row_offsets@,
            column_indices: self.column_indices@,
            values: self.values@,
        }
    }
}

impl<'a, V> CsrMatrix<'a, V> {
    #[verifier::type_invariant]
    pub open spec fn well_formed(&self) -> bool {
        self@.valid()
    }

    /// Checks a CSR description in the order `csr_error` lists the checks.
    fn validate(
        rows: usize,
        columns: usize,
        row_offsets: &[u32],
        column_indices: &[u32],
        nnz: usize,
        index_base: IndexBase,
    ) -> (r: Result<(), SparseError>)
        ensures
            r == check_result(
                csr_error(rows, columns, row_offsets@, column_indices@, nnz as nat, index_base),
            ),
    {
        dimension(rows, "CSR rows")?;
        dimension(columns, "CSR columns")?;
        let expected_offsets = match rows.checked_add(1) {
            Some(value) => value,
            None => return Err(SparseError::SizeOverflow("CSR row offsets")),
        };
        if row_offsets.len() != expected_offsets {
            return Err(
                SparseError::BufferLength {
                    name: "CSR row offsets",
                    expected: expected_offsets,
                    actual: row_offsets.len(),
                },
            );
        }
        if column_indices.len() != nnz {
            return Err(
                SparseError::BufferLength {
                    name: "CSR column indices",
                    expected: nnz,
                    actual: column_indices.len(),
                },
            );
        }
        let base = index_base.value();
        if row_offsets[0] != base {
            return Err(
                SparseError::InvalidRowOffsets("first row offset does not equal the index base"),
            );
        }
        let mut i: usize = 0;
        while i + 1 < row_offsets.len()
            invariant
                i < row_offsets.len(),
                rows <= u32::MAX,
                columns <= u32::MAX,
                rows + 1 <= usize::MAX,
                row_offsets.len() == rows + 1,
                column_indices.len() == nnz,
                row_offsets@[0] == base,
                base == base_of(index_base),
                forall|a: int, c: int|
                    0 <= a <= c <= i ==> #[trigger] row_offsets@[a] <= #[trigger] row_offsets@[c],
            decreases row_offsets.len() - i,
        {
            if row_offsets[i] > row_offsets[i + 1] {
                assert(!nondecreasing(row_offsets@)) by {
                    assert(row_offsets@[i as int] > row_offsets@[i + 1]);
                }
                return Err(SparseError::InvalidRowOffsets("row offsets are not nondecreasing"));
            }
            i = i + 1;
        }
        assert(nondecreasing(row_offsets@));
        let terminal = row_offsets[rows];
        assert(row_offsets@[0] <= row_offsets@[rows as int]);
        let encoded_nnz = terminal - base;
        if encoded_nnz as usize != nnz {
            return Err(SparseError::InvalidRowOffsets("terminal row offset does not match nnz"));
        }
        let columns_u32 = dimension(columns, "CSR columns")?;
        let column_limit = match base.checked_add(columns_u32) {
            Some(value) => value,
            None => return Err(SparseError::SizeOverflow("CSR column index range")),
        };
        let mut e: usize = 0;
        while e < column_indices.len()
            invariant
                e <= column_indices.len(),
                column_limit == base + columns,
                rows <= u32::MAX,
                columns <= u32::MAX,
                rows + 1 <= usize::MAX,
                row_offsets.len() == rows + 1,
                column_indices.len() == nnz,
                base == base_of(index_base),
                nondecreasing(row_offsets@),
                row_offsets@[0] == base,
                row_offsets@.last() - base == nnz,
                forall|j: int|
                    0 <= j < e ==> base <= #[trigger] column_indices@[j] < base + columns,
            decreases column_indices.len() - e,
        {
            let column = column_indices[e];
            if column < base || column >= column_limit {
                return Err(SparseError::InvalidColumnIndex);
            }
            e = e + 1;
        }
        Ok(())
    }

    /// Validates the arrays of a CSR matrix and wraps them.
    pub fn new(
        rows: usize,
        columns: usize,
        row_offsets: &'a [u32],
        column_indices: &'a [u32],
        values: &'a [V],
        index_base: IndexBase,
    ) -> (r: Result<Self, SparseError>)
        ensures
            r is Ok <==> csr_error(
                rows,
                columns,
                row_offsets@,
                column_indices@,
                values@.len(),
                index_base,
            ) is None,
            r matches Err(e) ==> csr_error(
                rows,
                columns,
                row_offsets@,
                column_indices@,
                values@.len(),
                index_base,
            ) == Some(e),
            r matches Ok(m) ==> m@ == (CsrView {
                rows,
                columns,
                base: index_base,
                row_offsets: row_offsets@,
                column_indices: column_indices@,
                values: values@,
            }),
    {
        Self::validate(rows, columns, row_offsets, column_indices, values.len(), index_base)?;
        Ok(CsrMatrix { values, row_offsets, column_indices, rows, columns, index_base })
    }

    pub fn rows(&self) -> (r: usize)
        ensures
            r == self@.rows,
    {
        self.rows
    }

    pub fn columns(&self) -> (r: usize)
        ensures
            r == self@.columns,
    {
        self.columns
    }

    pub fn nnz(&self) -> (r: usize)
        ensures
            r == self@.nnz(),
    {
        self.values.len()
    }

    pub fn index_base(&self) -> (r: IndexBase)
        ensures
            r == self@.base,
    {
        self.index_base
    }

    pub fn row_offsets(&self) -> (r: &'a [u32])
        ensures
            r@ == self@.row_offsets,
    {
        self.row_offsets
    }

    pub fn column_indices(&self) -> (r: &'a [u32])
        ensures
            r@ == self@.column_indices,
    {
        self.column_indices
    }

    pub fn values(&self) -> (r: &'a [V])
        ensures
            r@ == self@.values,
    {
        self.values
    }
}

/// The transpose of a valid matrix is valid unless its column indices, which
/// are the row numbers of the matrix transposed, cannot be encoded.
proof fn lemma_transpose_checks<V>(m: CsrView<V>, t_offsets: Seq<u32>, t_indices: Seq<u32>, perm: Seq<u32>)
    requires
        m.valid(),
        m.columns < usize::MAX,
        transposed_pattern(
            m.rows as nat,
            m.columns as nat,
            base_of(m.base),
            m.row_offsets,
            m.column_indices,
            t_offsets,
            t_indices,
            perm,
        ),
    ensures
        csr_error(m.columns, m.rows, t_offsets, t_indices, m.nnz(), m.base) == if base_of(m.base)
            + m.rows > u32::MAX {
            Some(SparseError::SizeOverflow("CSR column index range"))
        } else {
            None::<SparseError>
        },
{
    let b = base_of(m.base);
    let keys = m.column_indices;
    let n = keys.len() as int;
    lemma_count_below_ends(keys, b, m.columns as nat, n);
    assert(t_offsets[0] == b + count_below(keys, b, 0, n));
    assert(t_offsets.last() == t_offsets[m.columns as int]);
    assert(nondecreasing(t_offsets)) by {
        assert forall|i: int, j: int| 0 <= i <= j < t_offsets.len() implies #[trigger] t_offsets[i]
            <= #[trigger] t_offsets[j] by {
            lemma_count_below_mono(keys, b, i, j, n);
        }
    }
    if b + m.rows <= u32::MAX {
        assert forall|d: int| 0 <= d < t_indices.len() implies b <= #[trigger] t_indices[d] < b
            + m.rows by {
            let r = lemma_segment_of(m.row_offsets, b, m.nnz(), perm[d] as int);
            assert(in_segment(m.row_offsets, b, r, perm[d] as int));
        }
    }
}

/// A validated CSR matrix that owns its arrays.
#[derive(Debug, PartialEq)]
pub struct CsrMatrixOwned<V> {
    values: Vec<V>,
    row_offsets: Vec<u32>,
    column_indices: Vec<u32>,
    rows: usize,
    columns: usize,
    index_base: IndexBase,
}

impl<V: Clone> Clone for CsrMatrixOwned<V> {
    fn clone(&self) -> (r: Self)
        ensures
            r@.rows == self@.rows,
            r@.columns == self@.columns,
            r@.base == self@.base,
            r@.row_offsets == self@.row_offsets,
            r@.column_indices == self@.column_indices,
            r@.values.len() == self@.values.len(),
            forall|i: int| 0 <= i < self@.values.len() ==> cloned::<V>(self@.values[i], #[trigger] r@.values[i]),
    {
        proof {
            use_type_invariant(self);
        }
        CsrMatrixOwned {
            values: self.values.clone(),
            row_offsets: copy_indices(&self.row_offsets),
            column_indices: copy_indices(&self.column_indices),
            rows: self.rows,
            columns: self.columns,
            index_base: self.index_base,
        }
    }
}

impl<V> View for CsrMatrixOwned<V> {
    type V = CsrView<V>;

    closed spec fn view(&self) -> CsrView<V> {
        CsrView {
            rows: self.rows,
            columns: self.columns,
            base: self.index_base,
            row_offsets: self.row_offsets@,
            column_indices: self.column_indices@,
            values: self.values@,
        }
    }
}

impl<V> CsrMatrixOwned<V> {
    #[verifier::type_invariant]
    pub open spec fn well_formed(&self) -> bool {
        self@.valid()
    }

    /// Validates the arrays of a CSR matrix and takes ownership of them.
    pub fn new(
        rows: usize,
        columns: usize,
        row_offsets: Vec<u32>,
        column_indices: Vec<u32>,
        values: Vec<V>,
        index_base: IndexBase,
    ) -> (r: Result<Self, SparseError>)
        ensures
            r is Ok <==> csr_error(
                rows,
                columns,
                row_offsets@,
                column_indices@,
                values@.len(),
                index_base,
            ) is None,
            r matches Err(e) ==> csr_error(
                rows,
                columns,
                row_offsets@,
                column_indices@,
                values@.len(),
                index_base,
            ) == Some(e),
            r matches Ok(m) ==> m@ == (CsrView {
                rows,
                columns,
                base: index_base,
                row_offsets: row_offsets@,
                column_indices: column_indices@,
                values: values@,
            }),
    {
        CsrMatrix::<V>::validate(
            rows,
            columns,
            row_offsets.as_slice(),
            column_indices.as_slice(),
            values.len(),
            index_base,
        )?;
        Ok(CsrMatrixOwned { values, row_offsets, column_indices, rows, columns, index_base })
    }

    /// Borrows the arrays as a `CsrMatrix`.
    pub fn as_ref(&self) -> (r: CsrMatrix<'_, V>)
        ensures
            r@ == self@,
    {
        proof {
            use_type_invariant(self);
        }
        CsrMatrix {
            values: self.values.as_slice(),
            row_offsets: self.row_offsets.as_slice(),
            column_indices: self.column_indices.as_slice(),
            rows: self.rows,
            columns: self.columns,
            index_base: self.index_base,
        }
    }
}

impl<'a, V: Copy> CsrMatrix<'a, V> {
    /// The transpose, regrouping the entries by column in stable order.
    pub fn transpose(self) -> (r: Result<CsrMatrixOwned<V>, SparseError>)
        requires
            self@.columns < usize::MAX,
        ensures
            r is Err <==> base_of(self@.base) + self@.rows > u32::MAX,
            r matches Err(e) ==> e == SparseError::SizeOverflow("CSR column index range"),
            r matches Ok(t) ==> transpose_of(t@, self@),
    {
        match self.transpose_impl(false) {
            Ok((matrix, _)) => Ok(matrix),
            Err(e) => Err(e),
        }
    }

    /// The transpose together with, for each of its entries, the position of
    /// the entry of `self` it came from.
    pub fn transpose_with_permutation(self) -> (r: Result<(CsrMatrixOwned<V>, Vec<u32>), SparseError>)
        requires
            self@.columns < usize::MAX,
        ensures
            r is Err <==> base_of(self@.base) + self@.rows > u32::MAX,
            r matches Err(e) ==> e == SparseError::SizeOverflow("CSR column index range"),
            r matches Ok((t, perm)) ==> is_transpose_of(t@, self@, perm@),
    {
        self.transpose_impl(true)
    }

    fn transpose_impl(self, capture_permutation: bool) -> (r: Result<
        (CsrMatrixOwned<V>, Vec<u32>),
        SparseError,
    >)
        requires
            self@.columns < usize::MAX,
        ensures
            r is Err <==> base_of(self@.base) + self@.rows > u32::MAX,
            r matches Err(e) ==> e == SparseError::SizeOverflow("CSR column index range"),
            r matches Ok((t, perm)) ==> exists|p: Seq<u32>|
                is_transpose_of(t@, self@, p) && (capture_permutation ==> perm@ == p) && (
                !capture_permutation ==> perm@.len() == 0),
    {
        proof {
            use_type_invariant(&self);
        }
        let base = self.index_base.value();
        let (t_offsets, t_indices, perm) = transpose_pattern(
            self.rows,
            self.columns,
            base,
            self.row_offsets,
            self.column_indices,
        );
        let values = gather(self.values, perm.as_slice());
        proof {
            lemma_transpose_checks(self@, t_offsets@, t_indices@, perm@);
        }
        let ghost p = perm@;
        let matrix = CsrMatrixOwned::new(
            self.columns,
            self.rows,
            t_offsets,
            t_indices,
            values,
            self.index_base,
        )?;
        assert(is_transpose_of(matrix@, self@, p));
        if capture_permutation {
            Ok((matrix, perm))
        } else {
            Ok((matrix, Vec::new()))
        }
    }
}

} // verus!
