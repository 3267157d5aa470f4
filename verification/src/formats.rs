//! Coordinate (COO), compressed sparse column (CSC), block sparse row (BSR)
//! and ELLPACK (ELL) matrices, and their conversion to CSR.

use vstd::prelude::*;
use crate::csr::{csr_error, CsrView};
use crate::pattern::{
    count_below, gather, in_segment, indices_in_range, key_count_overflows, lemma_count_below_ends,
    lemma_count_below_mono, nondecreasing, sorted_by_key, stable_key_sort, transpose_pattern,
    transposed_pattern,
};
use crate::assemble::{
    assemble, lemma_assemble_well_built, lemma_closed_rows_stopped, lemma_stopped_early, start,
    visit, visit_rows, Assembly, Encoding,
};
use crate::{base_of, check_result, CsrMatrixOwned, IndexBase, SparseError};

verus! {

/// The first check that an offsets array fails, if any.
pub open spec fn offsets_error(
    format: &'static str,
    offsets: Seq<u32>,
    entries: nat,
    base: IndexBase,
) -> Option<SparseError> {
    let b = base_of(base);
    if offsets.len() == 0 || offsets[0] != b {
        Some(
            SparseError::InvalidSparseOffsets {
                format,
                message: "first offset does not equal the index base",
            },
        )
    } else if !nondecreasing(offsets) {
        Some(SparseError::InvalidSparseOffsets { format, message: "offsets are not nondecreasing" })
    } else if offsets.last() - b != entries {
        Some(
            SparseError::InvalidSparseOffsets {
                format,
                message: "terminal offset does not match the entry count",
            },
        )
    } else {
        None
    }
}

/// `csr` holds the entries of a source in the order `perm` picks them.
pub open spec fn picks<V>(csr: CsrView<V>, indices: Seq<u32>, values: Seq<V>, perm: Seq<u32>) -> bool {
    &&& csr.column_indices.len() == perm.len()
    &&& csr.values.len() == perm.len()
    &&& forall|d: int|
        0 <= d < perm.len() ==> #[trigger] csr.column_indices[d] == indices[perm[d] as int]
            && csr.values[d] == values[perm[d] as int]
}

pub fn validate_dimension(value: usize, name: &'static str) -> (r: Result<u32, SparseError>)
    ensures
        value <= u32::MAX ==> r == Ok::<u32, SparseError>(value as u32),
        value > u32::MAX ==> r == Err::<u32, SparseError>(SparseError::DimensionTooLarge(name)),
{
    if value <= u32::MAX as usize {
        Ok(value as u32)
    } else {
        Err(SparseError::DimensionTooLarge(name))
    }
}

pub fn check_length(name: &'static str, expected: usize, actual: usize) -> (r: Result<(), SparseError>)
    ensures
        expected == actual ==> r == Ok::<(), SparseError>(()),
        expected != actual ==> r == Err::<(), SparseError>(
            SparseError::BufferLength { name, expected, actual },
        ),
{
    if expected != actual {
        return Err(SparseError::BufferLength { name, expected, actual });
    }
    Ok(())
}

/// One past the largest encodable index of a dimension.
pub fn index_limit(base: u32, dimension: usize, name: &'static str) -> (r: Result<u32, SparseError>)
    ensures
        dimension > u32::MAX ==> r == Err::<u32, SparseError>(SparseError::DimensionTooLarge(name)),
        dimension <= u32::MAX && base + dimension > u32::MAX ==> r == Err::<u32, SparseError>(
            SparseError::SizeOverflow(name),
        ),
        dimension <= u32::MAX && base + dimension <= u32::MAX ==> r == Ok::<u32, SparseError>(
            (base + dimension) as u32,
        ),
{
    let dimension = validate_dimension(dimension, name)?;
    match base.checked_add(dimension) {
        Some(limit) => Ok(limit),
        None => Err(SparseError::SizeOverflow(name)),
    }
}

pub fn validate_offsets(
    format: &'static str,
    offsets: &[u32],
    entries: usize,
    index_base: IndexBase,
) -> (r: Result<(), SparseError>)
    ensures
        r == check_result(offsets_error(format, offsets@, entries as nat, index_base)),
{
    let base = index_base.value();
    if offsets.len() == 0 || offsets[0] != base {
        return Err(
            SparseError::InvalidSparseOffsets {
                format,
                message: "first offset does not equal the index base",
            },
        );
    }
    let mut i: usize = 0;
    while i + 1 < offsets.len()
        invariant
            i < offsets.len(),
            offsets@[0] == base,
            base == base_of(index_base),
            forall|a: int, c: int| 0 <= a <= c <= i ==> #[trigger] offsets@[a] <= #[trigger] offsets@[c],
        decreases offsets.len() - i,
    {
        if offsets[i] > offsets[i + 1] {
            assert(offsets@[i as int] > offsets@[i + 1]);
            return Err(
                SparseError::InvalidSparseOffsets { format, message: "offsets are not nondecreasing" },
            );
        }
        i = i + 1;
    }
    assert(nondecreasing(offsets@));
    let terminal = offsets[offsets.len() - 1];
    assert(offsets@[0] <= offsets@[offsets.len() - 1]);
    if (terminal - base) as usize != entries {
        return Err(
            SparseError::InvalidSparseOffsets {
                format,
                message: "terminal offset does not match the entry count",
            },
        );
    }
    Ok(())
}

/// Loop-checks that every index encodes a position below `limit - base`.
fn find_out_of_range(indices: &[u32], base: u32, limit: u32) -> (r: bool)
    requires
        base <= limit,
    ensures
        r == !indices_in_range(indices@, base, (limit - base) as nat),
{
    let mut e: usize = 0;
    while e < indices.len()
        invariant
            e <= indices.len(),
            base <= limit,
            forall|j: int| 0 <= j < e ==> base <= #[trigger] indices@[j] < limit,
        decreases indices.len() - e,
    {
        let index = indices[e];
        if index < base || index >= limit {
            assert(!(base <= indices@[e as int] < limit));
            return true;
        }
        e = e + 1;
    }
    false
}

// ---------------------------------------------------------------- COO

/// Mathematical content of a COO matrix.
pub struct CooView<V> {
    pub rows: usize,
    pub columns: usize,
    pub base: IndexBase,
    pub row_indices: Seq<u32>,
    pub column_indices: Seq<u32>,
    pub values: Seq<V>,
}

/// The first check that a COO description fails, if any.
pub open spec fn coo_error(
    rows: usize,
    columns: usize,
    row_indices: Seq<u32>,
    column_indices: Seq<u32>,
    nnz: nat,
    base: IndexBase,
) -> Option<SparseError> {
    let b = base_of(base);
    if rows > u32::MAX {
        Some(SparseError::DimensionTooLarge("COO rows"))
    } else if columns > u32::MAX {
        Some(SparseError::DimensionTooLarge("COO columns"))
    } else if row_indices.len() != nnz {
        Some(
            SparseError::BufferLength {
                name: "COO row indices",
                expected: nnz as usize,
                actual: row_indices.len() as usize,
            },
        )
    } else if column_indices.len() != nnz {
        Some(
            SparseError::BufferLength {
                name: "COO column indices",
                expected: nnz as usize,
                actual: column_indices.len() as usize,
            },
        )
    } else if b + rows > u32::MAX {
        Some(SparseError::SizeOverflow("COO row range"))
    } else if b + columns > u32::MAX {
        Some(SparseError::SizeOverflow("COO column range"))
    } else if !indices_in_range(row_indices, b, rows as nat) {
        Some(SparseError::InvalidSparseIndex("COO row"))
    } else if !indices_in_range(column_indices, b, columns as nat) {
        Some(SparseError::InvalidSparseIndex("COO column"))
    } else {
        None
    }
}

impl<V> CooView<V> {
    pub open spec fn valid(self) -> bool {
        coo_error(
            self.rows,
            self.columns,
            self.row_indices,
            self.column_indices,
            self.values.len(),
            self.base,
        ) is None
    }
}

/// `csr` holds the entries of `coo` sorted by row, entries of one row in
/// their COO order, duplicates included.
pub open spec fn is_row_sort_of<V>(csr: CsrView<V>, coo: CooView<V>) -> bool {
    &&& csr.rows == coo.rows
    &&& csr.columns == coo.columns
    &&& csr.base == coo.base
    &&& exists|perm: Seq<u32>|
        sorted_by_key(coo.row_indices, base_of(coo.base), coo.rows as nat, csr.row_offsets, perm)
            && picks(csr, coo.column_indices, coo.values, perm)
}

/// A validated COO matrix over borrowed arrays.
#[derive(Debug)]
pub struct CooMatrix<'a, V> {
    rows: usize,
    columns: usize,
    row_indices: &'a [u32],
    column_indices: &'a [u32],
    values: &'a [V],
    index_base: IndexBase,
}

impl<'a, V> Clone for CooMatrix<'a, V> {
    fn clone(&self) -> (r: Self)
        ensures
            r@ == self@,
    {
        *self
    }
}

impl<'a, V> Copy for CooMatrix<'a, V> {

}

impl<'a, V> View for CooMatrix<'a, V> {
    type V = CooView<V>;

    closed spec fn view(&self) -> CooView<V> {
        CooView {
            rows: self.rows,
            columns: self.columns,
            base: self.index_base,
            row_indices: self.row_indices@,
            column_indices: self.column_indices@,
            values: self.values@,
        }
    }
}

impl<'a, V> CooMatrix<'a, V> {
    #[verifier::type_invariant]
    pub open spec fn well_formed(&self) -> bool {
        self@.valid()
    }

    /// Checks the shape, the array lengths and every coordinate.
    pub fn new(
        rows: usize,
        columns: usize,
        row_indices: &'a [u32],
        column_indices: &'a [u32],
        values: &'a [V],
        index_base: IndexBase,
    ) -> (r: Result<Self, SparseError>)
        ensures
            r is Ok <==> coo_error(
                rows,
                columns,
                row_indices@,
                column_indices@,
                values@.len(),
                index_base,
            ) is None,
            r matches Err(e) ==> coo_error(
                rows,
                columns,
                row_indices@,
                column_indices@,
                values@.len(),
                index_base,
            ) == Some(e),
            r matches Ok(m) ==> m@ == (CooView {
                rows,
                columns,
                base: index_base,
                row_indices: row_indices@,
                column_indices: column_indices@,
                values: values@,
            }),
    {
        validate_dimension(rows, "COO rows")?;
        validate_dimension(columns, "COO columns")?;
        check_length("COO row indices", values.len(), row_indices.len())?;
        check_length("COO column indices", values.len(), column_indices.len())?;
        let base = index_base.value();
        let row_limit = index_limit(base, rows, "COO row range")?;
        let column_limit = index_limit(base, columns, "COO column range")?;
        if find_out_of_range(row_indices, base, row_limit) {
            return Err(SparseError::InvalidSparseIndex("COO row"));
        }
        if find_out_of_range(column_indices, base, column_limit) {
            return Err(SparseError::InvalidSparseIndex("COO column"));
        }
        Ok(CooMatrix { rows, columns, row_indices, column_indices, values, index_base })
    }

    pub fn rows(&self) -> (r: usize)
        ensures
            r == self@.rows,
    {
        self.rows
    }

    pub fn columns(&self) -> (r: usize)
        ensures
            r == self@.columns,
    {
        self.columns
    }

    pub fn nnz(&self) -> (r: usize)
        ensures
            r == self@.values.len(),
    {
        self.values.len()
    }

    pub fn row_indices(&self) -> (r: &'a [u32])
        ensures
            r@ == self@.row_indices,
    {
        self.row_indices
    }

    pub fn column_indices(&self) -> (r: &'a [u32])
        ensures
            r@ == self@.column_indices,
    {
        self.column_indices
    }

    pub fn values(&self) -> (r: &'a [V])
        ensures
            r@ == self@.values,
    {
        self.values
    }

    pub fn index_base(&self) -> (r: IndexBase)
        ensures
            r == self@.base,
    {
        self.index_base
    }
}

impl<'a, V: Copy> CooMatrix<'a, V> {
    /// Converts to CSR sorted by row. Entries in the same row keep their
    /// relative order in storage, including duplicate coordinates.
    pub fn to_csr(self) -> (r: Result<CsrMatrixOwned<V>, SparseError>)
        requires
            self@.rows < usize::MAX,
        ensures
            key_count_overflows(self@.row_indices, base_of(self@.base), self@.rows as nat) ==> r
                == Err::<CsrMatrixOwned<V>, SparseError>(SparseError::SizeOverflow("COO row counts")),
            !key_count_overflows(self@.row_indices, base_of(self@.base), self@.rows as nat)
                && self@.values.len() + base_of(self@.base) > u32::MAX ==> r == Err::<
                CsrMatrixOwned<V>,
                SparseError,
            >(SparseError::SizeOverflow("COO row offsets")),
            r matches Ok(csr) ==> is_row_sort_of(csr@, self@),
            !key_count_overflows(self@.row_indices, base_of(self@.base), self@.rows as nat)
                && self@.values.len() + base_of(self@.base) <= u32::MAX ==> r is Ok,
    {
        proof {
            use_type_invariant(&self);
        }
        let base = self.index_base.value();
        let (row_offsets, perm) = stable_key_sort(
            self.row_indices,
            self.rows,
            base,
            "COO row counts",
            "COO row offsets",
        )?;
        let column_indices = gather(self.column_indices, perm.as_slice());
        let values = gather(self.values, perm.as_slice());
        let ghost keys = self@.row_indices;
        let ghost n = keys.len() as int;
        proof {
            lemma_count_below_ends(keys, base, self.rows as nat, n);
            assert(row_offsets@[0] == base + count_below(keys, base, 0, n));
            assert(row_offsets@.last() == row_offsets@[self.rows as int]);
            assert(nondecreasing(row_offsets@)) by {
                assert forall|i: int, j: int| 0 <= i <= j < row_offsets@.len() implies #[trigger] row_offsets@[i]
                    <= #[trigger] row_offsets@[j] by {
                    lemma_count_below_mono(keys, base, i, j, n);
                }
            }
            assert(indices_in_range(column_indices@, base, self.columns as nat)) by {
                assert forall|d: int| 0 <= d < column_indices@.len() implies base <= #[trigger] column_indices@[d]
                    < base + self.columns by {
                    assert(column_indices@[d] == self@.column_indices[perm@[d] as int]);
                }
            }
            assert(csr_error(
                self.rows,
                self.columns,
                row_offsets@,
                column_indices@,
                values@.len(),
                self.index_base,
            ) is None);
        }
        let ghost p = perm@;
        let csr = CsrMatrixOwned::new(
            self.rows,
            self.columns,
            row_offsets,
            column_indices,
            values,
            self.index_base,
        )?;
        assert(picks(csr@, self@.column_indices, self@.values, p));
        Ok(csr)
    }
}

/// A validated COO matrix that owns its arrays.
#[derive(Debug, PartialEq)]
pub struct CooMatrixOwned<V> {
    rows: usize,
    columns: usize,
    row_indices: Vec<u32>,
    column_indices: Vec<u32>,
    values: Vec<V>,
    index_base: IndexBase,
}

impl<V: Clone> Clone for CooMatrixOwned<V> {
    fn clone(&self) -> (r: Self)
        ensures
            r@.rows == self@.rows,
            r@.columns == self@.columns,
            r@.base == self@.base,
            r@.row_indices == self@.row_indices,
            r@.column_indices == self@.column_indices,
            r@.values.len() == self@.values.len(),
            forall|i: int| 0 <= i < self@.values.len() ==> cloned::<V>(self@.values[i], #[trigger] r@.values[i]),
    {
        proof {
            use_type_invariant(self);
        }
        CooMatrixOwned {
            rows: self.rows,
            columns: self.columns,
            row_indices: crate::pattern::copy_indices(&self.row_indices),
            column_indices: crate::pattern::copy_indices(&self.column_indices),
            values: self.values.clone(),
            index_base: self.index_base,
        }
    }
}

impl<V> View for CooMatrixOwned<V> {
    type V = CooView<V>;

    closed spec fn view(&self) -> CooView<V> {
        CooView {
            rows: self.rows,
            columns: self.columns,
            base: self.index_base,
            row_indices: self.row_indices@,
            column_indices: self.column_indices@,
            values: self.values@,
        }
    }
}

impl<V> CooMatrixOwned<V> {
    #[verifier::type_invariant]
    pub open spec fn well_formed(&self) -> bool {
        self@.valid()
    }

    /// Checks the shape, the array lengths and every coordinate, and takes the arrays.
    pub fn new(
        rows: usize,
        columns: usize,
        row_indices: Vec<u32>,
        column_indices: Vec<u32>,
        values: Vec<V>,
        index_base: IndexBase,
    ) -> (r: Result<Self, SparseError>)
        ensures
            r is Ok <==> coo_error(
                rows,
                columns,
                row_indices@,
                column_indices@,
                values@.len(),
                index_base,
            ) is None,
            r matches Err(e) ==> coo_error(
                rows,
                columns,
                row_indices@,
                column_indices@,
                values@.len(),
                index_base,
            ) == Some(e),
            r matches Ok(m) ==> m@ == (CooView {
                rows,
                columns,
                base: index_base,
                row_indices: row_indices@,
                column_indices: column_indices@,
                values: values@,
            }),
    {
        CooMatrix::new(
            rows,
            columns,
            row_indices.as_slice(),
            column_indices.as_slice(),
            values.as_slice(),
            index_base,
        )?;
        Ok(CooMatrixOwned { rows, columns, row_indices, column_indices, values, index_base })
    }

    /// Borrows the arrays as a `CooMatrix`.
    pub fn as_ref(&self) -> (r: CooMatrix<'_, V>)
        ensures
            r@ == self@,
    {
        proof {
            use_type_invariant(self);
        }
        CooMatrix {
            rows: self.rows,
            columns: self.columns,
            row_indices: self.row_indices.as_slice(),
            column_indices: self.column_indices.as_slice(),
            values: self.values.as_slice(),
            index_base: self.index_base,
        }
    }
}

// ---------------------------------------------------------------- CSC

/// Mathematical content of a CSC matrix.
pub struct CscView<V> {
    pub rows: usize,
    pub columns: usize,
    pub base: IndexBase,
    pub column_offsets: Seq<u32>,
    pub row_indices: Seq<u32>,
    pub values: Seq<V>,
}

/// The first check that a CSC description fails, if any.
pub open spec fn csc_error(
    rows: usize,
    columns: usize,
    column_offsets: Seq<u32>,
    row_indices: Seq<u32>,
    nnz: nat,
    base: IndexBase,
) -> Option<SparseError> {
    let b = base_of(base);
    if rows > u32::MAX {
        Some(SparseError::DimensionTooLarge("CSC rows"))
    } else if columns > u32::MAX {
        Some(SparseError::DimensionTooLarge("CSC columns"))
    } else if columns + 1 > usize::MAX {
        Some(SparseError::SizeOverflow("CSC column offsets"))
    } else if column_offsets.len() != columns + 1 {
        Some(
            SparseError::BufferLength {
                name: "CSC column offsets",
                expected: (columns + 1) as usize,
                actual: column_offsets.len() as usize,
            },
        )
    } else if row_indices.len() != nnz {
        Some(
            SparseError::BufferLength {
                name: "CSC row indices",
                expected: nnz as usize,
                actual: row_indices.len() as usize,
            },
        )
    } else if offsets_error("CSC column", column_offsets, nnz, base) is Some {
        offsets_error("CSC column", column_offsets, nnz, base)
    } else if b + rows > u32::MAX {
        Some(SparseError::SizeOverflow("CSC row range"))
    } else if !indices_in_range(row_indices, b, rows as nat) {
        Some(SparseError::InvalidSparseIndex("CSC row"))
    } else {
        None
    }
}

impl<V> CscView<V> {
    pub open spec fn valid(self) -> bool {
        csc_error(
            self.rows,
            self.columns,
            self.column_offsets,
            self.row_indices,
            self.values.len(),
            self.base,
        ) is None
    }
}

/// `csr` holds the entries of `csc` regrouped by row: the rows of `csr` are
/// the transpose of the column pattern of `csc`.
pub open spec fn is_csr_of_csc<V>(csr: CsrView<V>, csc: CscView<V>) -> bool {
    &&& csr.rows == csc.rows
    &&& csr.columns == csc.columns
    &&& csr.base == csc.base
    &&& exists|perm: Seq<u32>|
        transposed_pattern(
            csc.columns as nat,
            csc.rows as nat,
            base_of(csc.base),
            csc.column_offsets,
            csc.row_indices,
            csr.row_offsets,
            csr.column_indices,
            perm,
        ) && csr.values.len() == perm.len() && forall|d: int|
            0 <= d < perm.len() ==> #[trigger] csr.values[d] == csc.values[perm[d] as int]
}

/// A validated CSC matrix over borrowed arrays.
#[derive(Debug)]
pub struct CscMatrix<'a, V> {
    rows: usize,
    columns: usize,
    column_offsets: &'a [u32],
    row_indices: &'a [u32],
    values: &'a [V],
    index_base: IndexBase,
}

impl<'a, V> Clone for CscMatrix<'a, V> {
    fn clone(&self) -> (r: Self)
        ensures
            r@ == self@,
    {
        *self
    }
}

impl<'a, V> Copy for CscMatrix<'a, V> {

}

impl<'a, V> View for CscMatrix<'a, V> {
    type V = CscView<V>;

    closed spec fn view(&self) -> CscView<V> {
        CscView {
            rows: self.rows,
            columns: self.columns,
            base: self.index_base,
            column_offsets: self.column_offsets@,
            row_indices: self.row_indices@,
            values: self.values@,
        }
    }
}

impl<'a, V> CscMatrix<'a, V> {
    #[verifier::type_invariant]
    pub open spec fn well_formed(&self) -> bool {
        self@.valid()
    }

    /// Checks the shape, the array lengths, the offsets and every row index.
    pub fn new(
        rows: usize,
        columns: usize,
        column_offsets: &'a [u32],
        row_indices: &'a [u32],
        values: &'a [V],
        index_base: IndexBase,
    ) -> (r: Result<Self, SparseError>)
        ensures
            r is Ok <==> csc_error(
                rows,
                columns,
                column_offsets@,
                row_indices@,
                values@.len(),
                index_base,
            ) is None,
            r matches Err(e) ==> csc_error(
                rows,
                columns,
                column_offsets@,
                row_indices@,
                values@.len(),
                index_base,
            ) == Some(e),
            r matches Ok(m) ==> m@ == (CscView {
                rows,
                columns,
                base: index_base,
                column_offsets: column_offsets@,
                row_indices: row_indices@,
                values: values@,
            }),
    {
        validate_dimension(rows, "CSC rows")?;
        validate_dimension(columns, "CSC columns")?;
        let expected_offsets = match columns.checked_add(1) {
            Some(value) => value,
            None => return Err(SparseError::SizeOverflow("CSC column offsets")),
        };
        check_length("CSC column offsets", expected_offsets, column_offsets.len())?;
        check_length("CSC row indices", values.len(), row_indices.len())?;
        validate_offsets("CSC column", column_offsets, values.len(), index_base)?;
        let base = index_base.value();
        let row_limit = index_limit(base, rows, "CSC row range")?;
        if find_out_of_range(row_indices, base, row_limit) {
            return Err(SparseError::InvalidSparseIndex("CSC row"));
        }
        Ok(CscMatrix { rows, columns, column_offsets, row_indices, values, index_base })
    }

    pub fn rows(&self) -> (r: usize)
        ensures
            r == self@.rows,
    {
        self.rows
    }

    pub fn columns(&self) -> (r: usize)
        ensures
            r == self@.columns,
    {
        self.columns
    }

    pub fn nnz(&self) -> (r: usize)
        ensures
            r == self@.values.len(),
    {
        self.values.len()
    }

    pub fn column_offsets(&self) -> (r: &'a [u32])
        ensures
            r@ == self@.column_offsets,
    {
        self.column_offsets
    }

    pub fn row_indices(&self) -> (r: &'a [u32])
        ensures
            r@ == self@.row_indices,
    {
        self.row_indices
    }

    pub fn values(&self) -> (r: &'a [V])
        ensures
            r@ == self@.values,
    {
        self.values
    }

    pub fn index_base(&self) -> (r: IndexBase)
        ensures
            r == self@.base,
    {
        self.index_base
    }
}

impl<'a, V: Copy> CscMatrix<'a, V> {
    /// Converts to CSR: entries are regrouped by row, each row listing its
    /// entries by ascending column.
    pub fn to_csr(self) -> (r: Result<CsrMatrixOwned<V>, SparseError>)
        requires
            self@.rows < usize::MAX,
        ensures
            r is Err <==> base_of(self@.base) + self@.columns > u32::MAX,
            r matches Err(e) ==> e == SparseError::SizeOverflow("CSR column index range"),
            r matches Ok(csr) ==> is_csr_of_csc(csr@, self@),
    {
        proof {
            use_type_invariant(&self);
        }
        let base = self.index_base.value();
        let (row_offsets, column_indices, perm) = transpose_pattern(
            self.columns,
            self.rows,
            base,
            self.column_offsets,
            self.row_indices,
        );
        let values = gather(self.values, perm.as_slice());
        proof {
            let keys = self@.row_indices;
            let n = keys.len() as int;
            lemma_count_below_ends(keys, base, self.rows as nat, n);
            assert(row_offsets@[0] == base + count_below(keys, base, 0, n));
            assert(row_offsets@.last() == row_offsets@[self.rows as int]);
            assert(nondecreasing(row_offsets@)) by {
                assert forall|i: int, j: int| 0 <= i <= j < row_offsets@.len() implies #[trigger] row_offsets@[i]
                    <= #[trigger] row_offsets@[j] by {
                    lemma_count_below_mono(keys, base, i, j, n);
                }
            }
            if base + self.columns <= u32::MAX {
                assert forall|d: int| 0 <= d < column_indices@.len() implies base <= #[trigger] column_indices@[d]
                    < base + self.columns by {
                    let c = crate::pattern::lemma_segment_of(
                        self@.column_offsets,
                        base,
                        n as nat,
                        perm@[d] as int,
                    );
                    assert(in_segment(self@.column_offsets, base, c, perm@[d] as int));
                }
            }
        }
        let ghost p = perm@;
        let csr = CsrMatrixOwned::new(
            self.rows,
            self.columns,
            row_offsets,
            column_indices,
            values,
            self.index_base,
        )?;
        assert(is_csr_of_csc(csr@, self@)) by {
            assert(transposed_pattern(
                self.columns as nat,
                self.rows as nat,
                base,
                self@.column_offsets,
                self@.row_indices,
                csr@.row_offsets,
                csr@.column_indices,
                p,
            ));
        }
        Ok(csr)
    }
}

/// A validated CSC matrix that owns its arrays.
#[derive(Debug, PartialEq)]
pub struct CscMatrixOwned<V> {
    rows: usize,
    columns: usize,
    column_offsets: Vec<u32>,
    row_indices: Vec<u32>,
    values: Vec<V>,
    index_base: IndexBase,
}

impl<V: Clone> Clone for CscMatrixOwned<V> {
    fn clone(&self) -> (r: Self)
        ensures
            r@.rows == self@.rows,
            r@.columns == self@.columns,
            r@.base == self@.base,
            r@.column_offsets == self@.column_offsets,
            r@.row_indices == self@.row_indices,
            r@.values.len() == self@.values.len(),
            forall|i: int| 0 <= i < self@.values.len() ==> cloned::<V>(self@.values[i], #[trigger] r@.values[i]),
    {
        proof {
            use_type_invariant(self);
        }
        CscMatrixOwned {
            rows: self.rows,
            columns: self.columns,
            column_offsets: crate::pattern::copy_indices(&self.column_offsets),
            row_indices: crate::pattern::copy_indices(&self.row_indices),
            values: self.values.clone(),
            index_base: self.index_base,
        }
    }
}

impl<V> View for CscMatrixOwned<V> {
    type V = CscView<V>;

    closed spec fn view(&self) -> CscView<V> {
        CscView {
            rows: self.rows,
            columns: self.columns,
            base: self.index_base,
            column_offsets: self.column_offsets@,
            row_indices: self.row_indices@,
            values: self.values@,
        }
    }
}

impl<V> CscMatrixOwned<V> {
    #[verifier::type_invariant]
    pub open spec fn well_formed(&self) -> bool {
        self@.valid()
    }

    /// Checks the shape, the array lengths, the offsets and every row index,
    /// and takes the arrays.
    pub fn new(
        rows: usize,
        columns: usize,
        column_offsets: Vec<u32>,
        row_indices: Vec<u32>,
        values: Vec<V>,
        index_base: IndexBase,
    ) -> (r: Result<Self, SparseError>)
        ensures
            r is Ok <==> csc_error(
                rows,
                columns,
                column_offsets@,
                row_indices@,
                values@.len(),
                index_base,
            ) is None,
            r matches Err(e) ==> csc_error(
                rows,
                columns,
                column_offsets@,
                row_indices@,
                values@.len(),
                index_base,
            ) == Some(e),
            r matches Ok(m) ==> m@ == (CscView {
                rows,
                columns,
                base: index_base,
                column_offsets: column_offsets@,
                row_indices: row_indices@,
                values: values@,
            }),
    {
        CscMatrix::new(
            rows,
            columns,
            column_offsets.as_slice(),
            row_indices.as_slice(),
            values.as_slice(),
            index_base,
        )?;
        Ok(CscMatrixOwned { rows, columns, column_offsets, row_indices, values, index_base })
    }

    /// Borrows the arrays as a `CscMatrix`.
    pub fn as_ref(&self) -> (r: CscMatrix<'_, V>)
        ensures
            r@ == self@,
    {
        proof {
            use_type_invariant(self);
        }
        CscMatrix {
            rows: self.rows,
            columns: self.columns,
            column_offsets: self.column_offsets.as_slice(),
            row_indices: self.row_indices.as_slice(),
            values: self.values.as_slice(),
            index_base: self.index_base,
        }
    }
}

// ---------------------------------------------------------------- BSR

/// Layout of the values inside one block.
#[derive(Debug, Clone, Copy, PartialEq, Eq, Hash)]
pub enum BlockDirection {
    RowMajor,
    ColumnMajor,
}

/// Position of element `(i, j)` inside a `d` by `d` block.
pub open spec fn block_value_offset(direction: BlockDirection, d: int, i: int, j: int) -> int {
    match direction {
        BlockDirection::RowMajor => i * d + j,
        BlockDirection::ColumnMajor => j * d + i,
    }
}

/// Mathematical content of a BSR matrix: a CSR pattern over blocks, each
/// block holding `block_dimension` squared values.
pub struct BsrView<V> {
    pub block_rows: usize,
    pub block_columns: usize,
    pub block_dimension: usize,
    pub direction: BlockDirection,
    pub base: IndexBase,
    pub row_offsets: Seq<u32>,
    pub column_indices: Seq<u32>,
    pub values: Seq<V>,
}

/// The first check that a BSR description fails, if any.
pub open spec fn bsr_error(
    block_rows: usize,
    block_columns: usize,
    block_dimension: usize,
    row_offsets: Seq<u32>,
    column_indices: Seq<u32>,
    values_len: nat,
    base: IndexBase,
) -> Option<SparseError> {
    let b = base_of(base);
    let nnzb = column_indices.len();
    if block_rows > u32::MAX {
        Some(SparseError::DimensionTooLarge("BSR block rows"))
    } else if block_columns > u32::MAX {
        Some(SparseError::DimensionTooLarge("BSR block columns"))
    } else if block_dimension == 0 {
        Some(SparseError::InvalidBlockDimension)
    } else if block_dimension > u32::MAX {
        Some(SparseError::DimensionTooLarge("BSR block dimension"))
    } else if block_rows + 1 > usize::MAX {
        Some(SparseError::SizeOverflow("BSR row offsets"))
    } else if row_offsets.len() != block_rows + 1 {
        Some(
            SparseError::BufferLength {
                name: "BSR row offsets",
                expected: (block_rows + 1) as usize,
                actual: row_offsets.len() as usize,
            },
        )
    } else if offsets_error("BSR row", row_offsets, nnzb, base) is Some {
        offsets_error("BSR row", row_offsets, nnzb, base)
    } else if block_dimension * block_dimension > usize::MAX {
        Some(SparseError::SizeOverflow("BSR block"))
    } else if nnzb * (block_dimension * block_dimension) > usize::MAX {
        Some(SparseError::SizeOverflow("BSR values"))
    } else if values_len != nnzb * (block_dimension * block_dimension) {
        Some(
            SparseError::BufferLength {
                name: "BSR values",
                expected: (nnzb * (block_dimension * block_dimension)) as usize,
                actual: values_len as usize,
            },
        )
    } else if b + block_columns > u32::MAX {
        Some(SparseError::SizeOverflow("BSR block-column range"))
    } else if !indices_in_range(column_indices, b, block_columns as nat) {
        Some(SparseError::InvalidSparseIndex("BSR block column"))
    } else if block_rows * block_dimension > usize::MAX {
        Some(SparseError::SizeOverflow("BSR rows"))
    } else if block_columns * block_dimension > usize::MAX {
        Some(SparseError::SizeOverflow("BSR columns"))
    } else {
        None
    }
}

impl<V> BsrView<V> {
    pub open spec fn valid(self) -> bool {
        bsr_error(
            self.block_rows,
            self.block_columns,
            self.block_dimension,
            self.row_offsets,
            self.column_indices,
            self.values.len(),
            self.base,
        ) is None
    }

    pub open spec fn rows(self) -> int {
        self.block_rows * self.block_dimension
    }

    pub open spec fn columns(self) -> int {
        self.block_columns * self.block_dimension
    }

    /// Row `i` of block `k`: each element's column and value position.
    pub open spec fn block_entries(self, i: int, k: int) -> Seq<(int, int)> {
        let d = self.block_dimension as int;
        Seq::new(
            d as nat,
            |j: int|
                (
                    (self.column_indices[k] - base_of(self.base)) * d + j,
                    k * d * d + block_value_offset(self.direction, d, i, j),
                ),
        )
    }

    /// Row `i` of the blocks `first..k`, block after block.
    pub open spec fn block_row_entries(self, i: int, first: int, k: int) -> Seq<(int, int)>
        decreases k - first,
    {
        if k <= first {
            Seq::empty()
        } else {
            self.block_row_entries(i, first, k - 1) + self.block_entries(i, k - 1)
        }
    }

    /// The entries of CSR row `r`: row `r % d` of each block in block row `r / d`.
    pub open spec fn csr_row(self, r: int) -> Seq<(int, int)> {
        let d = self.block_dimension as int;
        let b = base_of(self.base);
        self.block_row_entries(r % d, self.row_offsets[r / d] - b, self.row_offsets[r / d + 1] - b)
    }

    pub open spec fn csr_rows(self) -> Seq<Seq<(int, int)>> {
        Seq::new((self.block_rows * self.block_dimension) as nat, |r: int| self.csr_row(r))
    }
}

proof fn lemma_block_row_len<V>(m: BsrView<V>, i: int, first: int, k: int)
    requires
        first <= k,
    ensures
        m.block_row_entries(i, first, k).len() == (k - first) * m.block_dimension,
    decreases k - first,
{
    if k > first {
        lemma_block_row_len(m, i, first, k - 1);
        assert(m.block_row_entries(i, first, k) == m.block_row_entries(i, first, k - 1)
            + m.block_entries(i, k - 1));
        assert(m.block_entries(i, k - 1).len() == m.block_dimension);
        assert((k - first) * m.block_dimension == (k - 1 - first) * m.block_dimension
            + m.block_dimension) by (nonlinear_arith);
    } else {
        assert((k - first) * m.block_dimension == 0) by (nonlinear_arith)
            requires
                k == first,
        ;
    }
}

proof fn lemma_block_row_prefix<V>(m: BsrView<V>, i: int, first: int, k: int, k2: int)
    requires
        first <= k <= k2,
    ensures
        m.block_row_entries(i, first, k2).take(m.block_row_entries(i, first, k).len() as int)
            == m.block_row_entries(i, first, k),
    decreases k2 - k,
{
    lemma_block_row_len(m, i, first, k);
    if k2 > k {
        lemma_block_row_prefix(m, i, first, k, k2 - 1);
        lemma_block_row_len(m, i, first, k2 - 1);
        let a = m.block_row_entries(i, first, k2 - 1);
        assert((k - first) * m.block_dimension <= (k2 - 1 - first) * m.block_dimension)
            by (nonlinear_arith)
            requires
                k <= k2 - 1,
        ;
        assert(m.block_row_entries(i, first, k2) == a + m.block_entries(i, k2 - 1));
        assert((a + m.block_entries(i, k2 - 1)).take(m.block_row_entries(i, first, k).len() as int)
            =~= a.take(m.block_row_entries(i, first, k).len() as int));
    } else {
        assert(m.block_row_entries(i, first, k2).take(m.block_row_entries(i, first, k).len() as int)
            =~= m.block_row_entries(i, first, k));
    }
}

/// Visiting element `j` of block `k` extends the visited prefix of the row by one.
proof fn lemma_bsr_entry_prefix<V>(m: BsrView<V>, i: int, first: int, last: int, k: int, j: int)
    requires
        first <= k < last,
        0 <= j < m.block_dimension,
    ensures
        ({
            let done = m.block_row_entries(i, first, k);
            let block = m.block_entries(i, k);
            let prefix = done + block.take(j);
            &&& (done + block.take(j + 1)).drop_last() == prefix
            &&& (done + block.take(j + 1)).last() == block[j]
            &&& prefix.len() + 1 <= m.block_row_entries(i, first, last).len()
            &&& m.block_row_entries(i, first, last).take(prefix.len() as int + 1) == done + block.take(
                j + 1,
            )
        }),
{
    let done = m.block_row_entries(i, first, k);
    let block = m.block_entries(i, k);
    let prefix = done + block.take(j);
    let whole = m.block_row_entries(i, first, last);
    assert((done + block.take(j + 1)).drop_last() =~= prefix);
    lemma_block_row_prefix(m, i, first, k + 1, last);
    lemma_block_row_len(m, i, first, k + 1);
    lemma_block_row_len(m, i, first, last);
    assert((k + 1 - first) * m.block_dimension <= (last - first) * m.block_dimension)
        by (nonlinear_arith)
        requires
            k + 1 <= last,
    ;
    assert(m.block_row_entries(i, first, k + 1) == done + block);
    assert(block.len() == m.block_dimension);
    let n = prefix.len() as int + 1;
    assert(n <= (done + block).len());
    assert((done + block).take(n) =~= done + block.take(j + 1));
    assert(whole.take(n) =~= whole.take((done + block).len() as int).take(n));
}

/// Storage position of element `(i, j)` of block `k`.
fn bsr_value_position(direction: BlockDirection, d: usize, k: usize, i: usize, j: usize, nnzb: usize) -> (r:
    usize)
    requires
        k < nnzb,
        i < d,
        j < d,
        nnzb * (d * d) <= usize::MAX,
    ensures
        r == k * d * d + block_value_offset(direction, d as int, i as int, j as int),
        r < nnzb * (d * d),
{
    assert(i * d + j < d * d && j * d + i < d * d) by (nonlinear_arith)
        requires
            i < d,
            j < d,
    ;
    assert(k * (d * d) + d * d <= nnzb * (d * d)) by (nonlinear_arith)
        requires
            k < nnzb,
    ;
    assert(k * d * d == k * (d * d)) by (nonlinear_arith);
    assert(d * d <= nnzb * (d * d)) by (nonlinear_arith)
        requires
            k < nnzb,
    ;
    let block = d * d;
    let offset = match direction {
        BlockDirection::RowMajor => i * d + j,
        BlockDirection::ColumnMajor => j * d + i,
    };
    k * block + offset
}

/// `r` is what the assembly `a` describes once the assembled arrays are
/// validated as a CSR matrix: that matrix or the first check it fails, or
/// the error the assembly stopped with. An assembly stopped by an unguarded
/// overflow describes no outcome.
pub open spec fn csr_outcome_checked<V>(
    r: Result<CsrMatrixOwned<V>, SparseError>,
    a: Assembly,
    rows: usize,
    columns: usize,
    base: IndexBase,
    values: Seq<V>,
) -> bool {
    match a {
        Assembly::Building { offsets, indices, sources } => match csr_error(
            rows,
            columns,
            offsets,
            indices,
            sources.len(),
            base,
        ) {
            None => r matches Ok(m) && m@ == (CsrView {
                rows,
                columns,
                base,
                row_offsets: offsets,
                column_indices: indices,
                values: pick_values(values, sources),
            }),
            Some(e) => r == Err::<CsrMatrixOwned<V>, SparseError>(e),
        },
        Assembly::Failed(e) => r == Err::<CsrMatrixOwned<V>, SparseError>(e),
        Assembly::Overflowed => false,
    }
}

/// A validated BSR matrix over borrowed arrays.
#[derive(Debug)]
pub struct BsrMatrix<'a, V> {
    block_rows: usize,
    block_columns: usize,
    block_dimension: usize,
    row_offsets: &'a [u32],
    column_indices: &'a [u32],
    values: &'a [V],
    direction: BlockDirection,
    index_base: IndexBase,
}

impl<'a, V> Clone for BsrMatrix<'a, V> {
    fn clone(&self) -> (r: Self)
        ensures
            r@ == self@,
    {
        *self
    }
}

impl<'a, V> Copy for BsrMatrix<'a, V> {

}

impl<'a, V> View for BsrMatrix<'a, V> {
    type V = BsrView<V>;

    closed spec fn view(&self) -> BsrView<V> {
        BsrView {
            block_rows: self.block_rows,
            block_columns: self.block_columns,
            block_dimension: self.block_dimension,
            direction: self.direction,
            base: self.index_base,
            row_offsets: self.row_offsets@,
            column_indices: self.column_indices@,
            values: self.values@,
        }
    }
}

impl<'a, V> BsrMatrix<'a, V> {
    #[verifier::type_invariant]
    pub open spec fn well_formed(&self) -> bool {
        self@.valid()
    }

    /// Checks the block shape, the offsets, the array lengths and every
    /// block column.
    pub fn new(
        block_rows: usize,
        block_columns: usize,
        block_dimension: usize,
        row_offsets: &'a [u32],
        column_indices: &'a [u32],
        values: &'a [V],
        direction: BlockDirection,
        index_base: IndexBase,
    ) -> (r: Result<Self, SparseError>)
        ensures
            r is Ok <==> bsr_error(
                block_rows,
                block_columns,
                block_dimension,
                row_offsets@,
                column_indices@,
                values@.len(),
                index_base,
            ) is None,
            r matches Err(e) ==> bsr_error(
                block_rows,
                block_columns,
                block_dimension,
                row_offsets@,
                column_indices@,
                values@.len(),
                index_base,
            ) == Some(e),
            r matches Ok(m) ==> m@ == (BsrView {
                block_rows,
                block_columns,
                block_dimension,
                direction,
                base: index_base,
                row_offsets: row_offsets@,
                column_indices: column_indices@,
                values: values@,
            }),
    {
        validate_dimension(block_rows, "BSR block rows")?;
        validate_dimension(block_columns, "BSR block columns")?;
        if block_dimension == 0 {
            return Err(SparseError::InvalidBlockDimension);
        }
        validate_dimension(block_dimension, "BSR block dimension")?;
        let expected_offsets = match block_rows.checked_add(1) {
            Some(value) => value,
            None => return Err(SparseError::SizeOverflow("BSR row offsets")),
        };
        check_length("BSR row offsets", expected_offsets, row_offsets.len())?;
        validate_offsets("BSR row", row_offsets, column_indices.len(), index_base)?;
        let block_elements = match block_dimension.checked_mul(block_dimension) {
            Some(value) => value,
            None => return Err(SparseError::SizeOverflow("BSR block")),
        };
        let expected_values = match column_indices.len().checked_mul(block_elements) {
            Some(value) => value,
            None => return Err(SparseError::SizeOverflow("BSR values")),
        };
        check_length("BSR values", expected_values, values.len())?;
        let base = index_base.value();
        let column_limit = index_limit(base, block_columns, "BSR block-column range")?;
        if find_out_of_range(column_indices, base, column_limit) {
            return Err(SparseError::InvalidSparseIndex("BSR block column"));
        }
        if block_rows.checked_mul(block_dimension).is_none() {
            return Err(SparseError::SizeOverflow("BSR rows"));
        }
        if block_columns.checked_mul(block_dimension).is_none() {
            return Err(SparseError::SizeOverflow("BSR columns"));
        }
        Ok(
            BsrMatrix {
                block_rows,
                block_columns,
                block_dimension,
                row_offsets,
                column_indices,
                values,
                direction,
                index_base,
            },
        )
    }

    pub fn block_rows(&self) -> (r: usize)
        ensures
            r == self@.block_rows,
    {
        self.block_rows
    }

    pub fn block_columns(&self) -> (r: usize)
        ensures
            r == self@.block_columns,
    {
        self.block_columns
    }

    pub fn block_dimension(&self) -> (r: usize)
        ensures
            r == self@.block_dimension,
    {
        self.block_dimension
    }

    pub fn nnzb(&self) -> (r: usize)
        ensures
            r == self@.column_indices.len(),
    {
        self.column_indices.len()
    }

    pub fn direction(&self) -> (r: BlockDirection)
        ensures
            r == self@.direction,
    {
        self.direction
    }

    pub fn index_base(&self) -> (r: IndexBase)
        ensures
            r == self@.base,
    {
        self.index_base
    }

    /// Number of scalar rows.
    pub fn rows(&self) -> (r: usize)
        ensures
            r == self@.rows(),
    {
        proof {
            use_type_invariant(self);
        }
        self.block_rows * self.block_dimension
    }

    /// Number of scalar columns.
    pub fn columns(&self) -> (r: usize)
        ensures
            r == self@.columns(),
    {
        proof {
            use_type_invariant(self);
        }
        self.block_columns * self.block_dimension
    }
}

impl<'a, V: Copy> BsrMatrix<'a, V> {
    /// Expands every block into scalar entries: CSR row `r` holds row
    /// `r % d` of each block of block row `r / d`, blocks in stored order.
    pub fn to_csr(self) -> (r: Result<CsrMatrixOwned<V>, SparseError>)
        requires
            self@.rows() < usize::MAX,
            !(assemble(
                self@.csr_rows(),
                base_of(self@.base),
                Encoding::Unchecked("BSR to CSR column"),
                "BSR to CSR nnz",
                "BSR to CSR row offsets",
            ) is Overflowed),
        ensures
            csr_outcome_checked(
                r,
                assemble(
                    self@.csr_rows(),
                    base_of(self@.base),
                    Encoding::Unchecked("BSR to CSR column"),
                    "BSR to CSR nnz",
                    "BSR to CSR row offsets",
                ),
                self@.rows() as usize,
                self@.columns() as usize,
                self@.base,
                self@.values,
            ),
    {
        proof {
            use_type_invariant(&self);
        }
        let base = self.index_base.value();
        let rows = self.rows();
        let columns = self.columns();
        let d = self.block_dimension;
        let ghost m = self@;
        let ghost all_rows = m.csr_rows();
        let ghost enc = Encoding::Unchecked("BSR to CSR column");
        let ghost cn = "BSR to CSR nnz";
        let ghost on = "BSR to CSR row offsets";
        let mut row_offsets: Vec<u32> = Vec::with_capacity(rows + 1);
        let mut column_indices: Vec<u32> = Vec::new();
        let mut values: Vec<V> = Vec::new();
        let ghost mut sources: Seq<int> = Seq::empty();
        row_offsets.push(base);
        let mut block_row: usize = 0;
        while block_row < self.block_rows
            invariant
                m == self@,
                m.valid(),
                m.rows() < usize::MAX,
                base == base_of(m.base),
                d == m.block_dimension,
                rows == m.rows(),
                all_rows == m.csr_rows(),
                enc == Encoding::Unchecked("BSR to CSR column"),
                cn == "BSR to CSR nnz",
                on == "BSR to CSR row offsets",
                block_row <= m.block_rows,
                !(assemble(all_rows, base, enc, cn, on) is Overflowed),
                visit_rows(start(base), all_rows.take(block_row * d), base, enc, cn, on) == (
                Assembly::Building { offsets: row_offsets@, indices: column_indices@, sources }),
                values@.len() == sources.len(),
                forall|t: int| 0 <= t < sources.len() ==> #[trigger] values@[t] == m.values[sources[t]],
            decreases m.block_rows - block_row,
        {
            let block_start = (self.row_offsets[block_row] - base) as usize;
            let block_end = (self.row_offsets[block_row + 1] - base) as usize;
            assert(m.row_offsets[block_row as int] <= m.row_offsets[block_row + 1]);
            let mut row_in_block: usize = 0;
            while row_in_block < d
                invariant
                    m == self@,
                    m.valid(),
                    m.rows() < usize::MAX,
                    base == base_of(m.base),
                    d == m.block_dimension,
                    rows == m.rows(),
                    all_rows == m.csr_rows(),
                    enc == Encoding::Unchecked("BSR to CSR column"),
                    cn == "BSR to CSR nnz",
                    on == "BSR to CSR row offsets",
                    block_row < m.block_rows,
                    block_start == m.row_offsets[block_row as int] - base,
                    block_end == m.row_offsets[block_row + 1] - base,
                    block_start <= block_end <= m.column_indices.len(),
                    row_in_block <= d,
                    !(assemble(all_rows, base, enc, cn, on) is Overflowed),
                    visit_rows(
                        start(base),
                        all_rows.take(block_row * d + row_in_block),
                        base,
                        enc,
                        cn,
                        on,
                    ) == (Assembly::Building {
                        offsets: row_offsets@,
                        indices: column_indices@,
                        sources,
                    }),
                    values@.len() == sources.len(),
                    forall|t: int|
                        0 <= t < sources.len() ==> #[trigger] values@[t] == m.values[sources[t]],
                decreases d - row_in_block,
            {
                let ghost r = block_row * d + row_in_block;
                proof {
                    assert(r < m.rows()) by (nonlinear_arith)
                        requires
                            r == block_row * d + row_in_block,
                            row_in_block < d,
                            block_row < m.block_rows,
                            m.rows() == m.block_rows * d,
                    ;
                    vstd::arithmetic::div_mod::lemma_fundamental_div_mod_converse(
                        r,
                        d as int,
                        block_row as int,
                        row_in_block as int,
                    );
                    assert(all_rows[r] == m.block_row_entries(
                        row_in_block as int,
                        block_start as int,
                        block_end as int,
                    ));
                }
                let ghost before = visit_rows(start(base), all_rows.take(r), base, enc, cn, on);
                let mut block_entry = block_start;
                while block_entry < block_end
                    invariant
                        m == self@,
                        m.valid(),
                        base == base_of(m.base),
                        d == m.block_dimension,
                        all_rows == m.csr_rows(),
                        enc == Encoding::Unchecked("BSR to CSR column"),
                        cn == "BSR to CSR nnz",
                        on == "BSR to CSR row offsets",
                        block_row < m.block_rows,
                        row_in_block < d,
                        r == block_row * d + row_in_block,
                        0 <= r < all_rows.len(),
                        all_rows[r] == m.block_row_entries(
                            row_in_block as int,
                            block_start as int,
                            block_end as int,
                        ),
                        block_start <= block_entry <= block_end <= m.column_indices.len(),
                        before == visit_rows(start(base), all_rows.take(r), base, enc, cn, on),
                        !(assemble(all_rows, base, enc, cn, on) is Overflowed),
                        visit(
                            before,
                            m.block_row_entries(row_in_block as int, block_start as int, block_entry as int),
                            base,
                            enc,
                        ) == (Assembly::Building {
                            offsets: row_offsets@,
                            indices: column_indices@,
                            sources,
                        }),
                        values@.len() == sources.len(),
                        forall|t: int|
                            0 <= t < sources.len() ==> #[trigger] values@[t] == m.values[sources[t]],
                    decreases block_end - block_entry,
                {
                    let block_column = (self.column_indices[block_entry] - base) as usize;
                    assert(base <= m.column_indices[block_entry as int] < base + m.block_columns);
                    let ghost done = m.block_row_entries(
                        row_in_block as int,
                        block_start as int,
                        block_entry as int,
                    );
                    let ghost block = m.block_entries(row_in_block as int, block_entry as int);
                    let mut column_in_block: usize = 0;
                    while column_in_block < d
                        invariant
                            m == self@,
                            m.valid(),
                            base == base_of(m.base),
                            d == m.block_dimension,
                            all_rows == m.csr_rows(),
                            enc == Encoding::Unchecked("BSR to CSR column"),
                            cn == "BSR to CSR nnz",
                            on == "BSR to CSR row offsets",
                            block_row < m.block_rows,
                            row_in_block < d,
                            r == block_row * d + row_in_block,
                            0 <= r < all_rows.len(),
                            all_rows[r] == m.block_row_entries(
                                row_in_block as int,
                                block_start as int,
                                block_end as int,
                            ),
                            block_start <= block_entry < block_end <= m.column_indices.len(),
                            block_column == m.column_indices[block_entry as int] - base,
                            block_column < m.block_columns,
                            done == m.block_row_entries(
                                row_in_block as int,
                                block_start as int,
                                block_entry as int,
                            ),
                            block == m.block_entries(row_in_block as int, block_entry as int),
                            column_in_block <= d,
                            before == visit_rows(start(base), all_rows.take(r), base, enc, cn, on),
                            !(assemble(all_rows, base, enc, cn, on) is Overflowed),
                            visit(before, done + block.take(column_in_block as int), base, enc) == (
                            Assembly::Building {
                                offsets: row_offsets@,
                                indices: column_indices@,
                                sources,
                            }),
                            values@.len() == sources.len(),
                            forall|t: int|
                                0 <= t < sources.len() ==> #[trigger] values@[t] == m.values[sources[t]],
                        decreases d - column_in_block,
                    {
                        let position = bsr_value_position(
                            self.direction,
                            d,
                            block_entry,
                            row_in_block,
                            column_in_block,
                            self.column_indices.len(),
                        );
                        let ghost x = block[column_in_block as int];
                        let ghost prefix = done + block.take(column_in_block as int);
                        proof {
                            lemma_bsr_entry_prefix(
                                m,
                                row_in_block as int,
                                block_start as int,
                                block_end as int,
                                block_entry as int,
                                column_in_block as int,
                            );
                            assert(block_column * d + column_in_block < m.columns()) by (nonlinear_arith)
                                requires
                                    block_column < m.block_columns,
                                    column_in_block < d,
                                    m.columns() == m.block_columns * d,
                            ;
                        }
                        let encoded = match validate_dimension(
                            block_column * d + column_in_block,
                            "BSR to CSR column",
                        ) {
                            Ok(column) => column,
                            Err(e) => {
                                proof {
                                    lemma_stopped_early(
                                        all_rows,
                                        r,
                                        prefix.len() as int + 1,
                                        base,
                                        enc,
                                        cn,
                                        on,
                                    );
                                }
                                return Err(e);
                            },
                        };
                        proof {
                            if encoded + base > u32::MAX {
                                lemma_stopped_early(all_rows, r, prefix.len() as int + 1, base, enc, cn, on);
                            }
                        }
                        column_indices.push(encoded + base);
                        values.push(self.values[position]);
                        proof {
                            sources = sources.push(position as int);
                        }
                        column_in_block = column_in_block + 1;
                    }
                    proof {
                        assert(block.take(d as int) =~= block);
                    }
                    block_entry = block_entry + 1;
                }
                assert(all_rows.take(r + 1).drop_last() =~= all_rows.take(r));
                assert(all_rows.take(r + 1).last() == all_rows[r]);
                let count = match validate_dimension(column_indices.len(), "BSR to CSR nnz") {
                    Ok(count) => count,
                    Err(e) => {
                        proof {
                            lemma_closed_rows_stopped(all_rows, r, base, enc, cn, on);
                        }
                        return Err(e);
                    },
                };
                let offset = match count.checked_add(base) {
                    Some(offset) => offset,
                    None => {
                        proof {
                            lemma_closed_rows_stopped(all_rows, r, base, enc, cn, on);
                        }
                        return Err(SparseError::SizeOverflow("BSR to CSR row offsets"));
                    },
                };
                row_offsets.push(offset);
                row_in_block = row_in_block + 1;
            }
            assert(block_row * d + d == (block_row + 1) * d) by (nonlinear_arith);
            block_row = block_row + 1;
        }
        proof {
            assert(self.block_rows * d == all_rows.len());
            assert(all_rows.take(all_rows.len() as int) =~= all_rows);
            assert(values@ =~= pick_values(m.values, sources));
        }
        CsrMatrixOwned::new(rows, columns, row_offsets, column_indices, values, self.index_base)
    }
}

// ---------------------------------------------------------------- ELL

/// Mathematical content of an ELL matrix: `width` slots per row, stored
/// column-major, so slot `s` of row `r` is at `s * rows + r`.
pub struct EllView<V> {
    pub rows: usize,
    pub columns: usize,
    pub width: usize,
    pub base: IndexBase,
    pub column_indices: Seq<u32>,
    pub values: Seq<V>,
}

/// The first check that an ELL description fails, if any.
pub open spec fn ell_error(
    rows: usize,
    columns: usize,
    width: usize,
    indices_len: nat,
    values_len: nat,
) -> Option<SparseError> {
    if rows > u32::MAX {
        Some(SparseError::DimensionTooLarge("ELL rows"))
    } else if columns > u32::MAX {
        Some(SparseError::DimensionTooLarge("ELL columns"))
    } else if width > u32::MAX {
        Some(SparseError::DimensionTooLarge("ELL width"))
    } else if rows * width > usize::MAX {
        Some(SparseError::SizeOverflow("ELL storage"))
    } else if indices_len != rows * width {
        Some(
            SparseError::BufferLength {
                name: "ELL column indices",
                expected: (rows * width) as usize,
                actual: indices_len as usize,
            },
        )
    } else if values_len != rows * width {
        Some(
            SparseError::BufferLength {
                name: "ELL values",
                expected: (rows * width) as usize,
                actual: values_len as usize,
            },
        )
    } else {
        None
    }
}

impl<V> EllView<V> {
    pub open spec fn valid(self) -> bool {
        ell_error(
            self.rows,
            self.columns,
            self.width,
            self.column_indices.len(),
            self.values.len(),
        ) is None
    }

    /// The slot holds a column inside the matrix; other slots are padding.
    pub open spec fn keeps(self, entry: (int, int)) -> bool {
        base_of(self.base) <= entry.0 < base_of(self.base) + self.columns
    }

    /// The stored slots among the first `n` slots of row `r`: each its
    /// encoded column and storage position, by ascending slot.
    pub open spec fn row_entries(self, r: int, n: int) -> Seq<(int, int)> {
        Seq::new(
            n as nat,
            |s: int| (self.column_indices[s * self.rows + r] as int, s * self.rows + r),
        ).filter(|entry: (int, int)| self.keeps(entry))
    }

    /// The stored slots of every row.
    pub open spec fn rows_entries(self) -> Seq<Seq<(int, int)>> {
        Seq::new(self.rows as nat, |r: int| self.row_entries(r, self.width as int))
    }
}

/// The values stored at the given positions.
pub open spec fn pick_values<V>(values: Seq<V>, sources: Seq<int>) -> Seq<V> {
    Seq::new(sources.len(), |d: int| values[sources[d]])
}

/// `r` is what the assembly `a` describes: the CSR matrix with the assembled
/// arrays when it finished, the error it stopped with otherwise. An assembly
/// stopped by an unguarded overflow describes no outcome.
pub open spec fn csr_outcome<V>(
    r: Result<CsrMatrixOwned<V>, SparseError>,
    a: Assembly,
    rows: usize,
    columns: usize,
    base: IndexBase,
    values: Seq<V>,
) -> bool {
    match a {
        Assembly::Building { offsets, indices, sources } => r matches Ok(m) && m@ == (CsrView {
            rows,
            columns,
            base,
            row_offsets: offsets,
            column_indices: indices,
            values: pick_values(values, sources),
        }),
        Assembly::Failed(e) => r == Err::<CsrMatrixOwned<V>, SparseError>(e),
        Assembly::Overflowed => false,
    }
}

proof fn lemma_ell_row_step<V>(m: EllView<V>, r: int, n: int)
    requires
        0 <= n,
    ensures
        m.row_entries(r, n + 1) == if m.keeps(
            (m.column_indices[n * m.rows + r] as int, n * m.rows + r),
        ) {
            m.row_entries(r, n).push((m.column_indices[n * m.rows + r] as int, n * m.rows + r))
        } else {
            m.row_entries(r, n)
        },
{
    let f = |s: int| (m.column_indices[s * m.rows + r] as int, s * m.rows + r);
    let p = |entry: (int, int)| m.keeps(entry);
    reveal(Seq::filter);
    assert(Seq::new((n + 1) as nat, f).drop_last() =~= Seq::new(n as nat, f));
    assert(Seq::new((n + 1) as nat, f).last() == f(n));
}

/// A validated ELL matrix over borrowed arrays.
#[derive(Debug)]
pub struct EllMatrix<'a, V> {
    rows: usize,
    columns: usize,
    width: usize,
    column_indices: &'a [u32],
    values: &'a [V],
    index_base: IndexBase,
}

impl<'a, V> Clone for EllMatrix<'a, V> {
    fn clone(&self) -> (r: Self)
        ensures
            r@ == self@,
    {
        *self
    }
}

impl<'a, V> Copy for EllMatrix<'a, V> {

}

impl<'a, V> View for EllMatrix<'a, V> {
    type V = EllView<V>;

    closed spec fn view(&self) -> EllView<V> {
        EllView {
            rows: self.rows,
            columns: self.columns,
            width: self.width,
            base: self.index_base,
            column_indices: self.column_indices@,
            values: self.values@,
        }
    }
}

impl<'a, V> EllMatrix<'a, V> {
    #[verifier::type_invariant]
    pub open spec fn well_formed(&self) -> bool {
        self@.valid()
    }

    /// Checks the shape and the lengths of the slot arrays; column indices
    /// outside the matrix are padding and are not rejected.
    pub fn new(
        rows: usize,
        columns: usize,
        width: usize,
        column_indices: &'a [u32],
        values: &'a [V],
        index_base: IndexBase,
    ) -> (r: Result<Self, SparseError>)
        ensures
            r is Ok <==> ell_error(rows, columns, width, column_indices@.len(), values@.len()) is None,
            r matches Err(e) ==> ell_error(rows, columns, width, column_indices@.len(), values@.len())
                == Some(e),
            r matches Ok(m) ==> m@ == (EllView {
                rows,
                columns,
                width,
                base: index_base,
                column_indices: column_indices@,
                values: values@,
            }),
    {
        validate_dimension(rows, "ELL rows")?;
        validate_dimension(columns, "ELL columns")?;
        validate_dimension(width, "ELL width")?;
        let expected = match rows.checked_mul(width) {
            Some(value) => value,
            None => return Err(SparseError::SizeOverflow("ELL storage")),
        };
        check_length("ELL column indices", expected, column_indices.len())?;
        check_length("ELL values", expected, values.len())?;
        Ok(EllMatrix { rows, columns, width, column_indices, values, index_base })
    }

    pub fn rows(&self) -> (r: usize)
        ensures
            r == self@.rows,
    {
        self.rows
    }

    pub fn columns(&self) -> (r: usize)
        ensures
            r == self@.columns,
    {
        self.columns
    }

    pub fn width(&self) -> (r: usize)
        ensures
            r == self@.width,
    {
        self.width
    }

    pub fn column_indices(&self) -> (r: &'a [u32])
        ensures
            r@ == self@.column_indices,
    {
        self.column_indices
    }

    pub fn values(&self) -> (r: &'a [V])
        ensures
            r@ == self@.values,
    {
        self.values
    }

    pub fn index_base(&self) -> (r: IndexBase)
        ensures
            r == self@.base,
    {
        self.index_base
    }

    /// The column index that marks an unused slot.
    pub fn padding_index() -> (r: u32)
        ensures
            r == u32::MAX,
    {
        u32::MAX
    }
}

impl<'a, V: Copy> EllMatrix<'a, V> {
    /// Converts the column-major slot storage (`slot * rows + row`) to CSR,
    /// skipping slots whose column lies outside the matrix.
    pub fn to_csr(self) -> (r: Result<CsrMatrixOwned<V>, SparseError>)
        requires
            self@.rows < usize::MAX,
        ensures
            base_of(self@.base) + self@.columns > u32::MAX ==> r == Err::<
                CsrMatrixOwned<V>,
                SparseError,
            >(SparseError::SizeOverflow("ELL column range")),
            base_of(self@.base) + self@.columns <= u32::MAX ==> csr_outcome(
                r,
                assemble(
                    self@.rows_entries(),
                    base_of(self@.base),
                    Encoding::Encoded,
                    "ELL to CSR nnz",
                    "ELL to CSR row offsets",
                ),
                self@.rows,
                self@.columns,
                self@.base,
                self@.values,
            ),
    {
        proof {
            use_type_invariant(&self);
        }
        let base = self.index_base.value();
        let column_limit = index_limit(base, self.columns, "ELL column range")?;
        let ghost rows_entries = self@.rows_entries();
        let ghost cn = "ELL to CSR nnz";
        let ghost on = "ELL to CSR row offsets";
        let mut row_offsets: Vec<u32> = Vec::with_capacity(self.rows + 1);
        let mut column_indices: Vec<u32> = Vec::new();
        let mut values: Vec<V> = Vec::new();
        let ghost mut sources: Seq<int> = Seq::empty();
        row_offsets.push(base);
        let mut row: usize = 0;
        while row < self.rows
            invariant
                self@.valid(),
                self@.rows < usize::MAX,
                base == base_of(self@.base),
                column_limit == base + self@.columns,
                rows_entries == self@.rows_entries(),
                cn == "ELL to CSR nnz",
                on == "ELL to CSR row offsets",
                row <= self@.rows,
                visit_rows(start(base), rows_entries.take(row as int), base, Encoding::Encoded, cn, on)
                    == (Assembly::Building {
                    offsets: row_offsets@,
                    indices: column_indices@,
                    sources,
                }),
                values@.len() == sources.len(),
                forall|d: int| 0 <= d < sources.len() ==> #[trigger] values@[d] == self@.values[sources[d]],
                forall|d: int|
                    0 <= d < column_indices@.len() ==> base <= #[trigger] column_indices@[d] < column_limit,
            decreases self@.rows - row,
        {
            let ghost before = visit_rows(
                start(base),
                rows_entries.take(row as int),
                base,
                Encoding::Encoded,
                cn,
                on,
            );
            let mut slot: usize = 0;
            while slot < self.width
                invariant
                    self@.valid(),
                    base == base_of(self@.base),
                    column_limit == base + self@.columns,
                    row < self@.rows,
                    slot <= self@.width,
                    visit(before, self@.row_entries(row as int, slot as int), base, Encoding::Encoded)
                        == (Assembly::Building {
                        offsets: row_offsets@,
                        indices: column_indices@,
                        sources,
                    }),
                    values@.len() == sources.len(),
                    forall|d: int|
                        0 <= d < sources.len() ==> #[trigger] values@[d] == self@.values[sources[d]],
                    forall|d: int|
                        0 <= d < column_indices@.len() ==> base <= #[trigger] column_indices@[d]
                            < column_limit,
                decreases self@.width - slot,
            {
                proof {
                    crate::dense::lemma_dense_offset(
                        self@.rows as int,
                        self@.width as int,
                        crate::DenseOrder::ColumnMajor,
                        row as int,
                        slot as int,
                    );
                    lemma_ell_row_step(self@, row as int, slot as int);
                }
                let entry = slot * self.rows + row;
                let column = self.column_indices[entry];
                let ghost prefix = self@.row_entries(row as int, slot as int);
                let ghost x = (column as int, entry as int);
                if column >= base && column < column_limit {
                    column_indices.push(column);
                    values.push(self.values[entry]);
                    proof {
                        sources = sources.push(entry as int);
                        assert(prefix.push(x).drop_last() =~= prefix);
                    }
                }
                slot = slot + 1;
            }
            assert(self@.row_entries(row as int, self@.width as int) == rows_entries[row as int]);
            assert(rows_entries.take(row + 1).drop_last() =~= rows_entries.take(row as int));
            assert(rows_entries.take(row + 1).last() == rows_entries[row as int]);
            let count = match validate_dimension(column_indices.len(), "ELL to CSR nnz") {
                Ok(count) => count,
                Err(e) => {
                    proof {
                        lemma_closed_rows_stopped(rows_entries, row as int, base, Encoding::Encoded, cn, on);
                    }
                    return Err(e);
                },
            };
            let offset = match count.checked_add(base) {
                Some(offset) => offset,
                None => {
                    proof {
                        lemma_closed_rows_stopped(rows_entries, row as int, base, Encoding::Encoded, cn, on);
                    }
                    return Err(SparseError::SizeOverflow("ELL to CSR row offsets"));
                },
            };
            row_offsets.push(offset);
            row = row + 1;
        }
        proof {
            assert(rows_entries.take(self@.rows as int) =~= rows_entries);
            lemma_assemble_well_built(rows_entries, base, Encoding::Encoded, cn, on);
            assert(values@ =~= pick_values(self@.values, sources));
            assert(row_offsets@.last() == row_offsets@[self@.rows as int]);
        }
        CsrMatrixOwned::new(
            self.rows,
            self.columns,
            row_offsets,
            column_indices,
            values,
            self.index_base,
        )
    }
}

} // verus!
