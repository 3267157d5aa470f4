//! Dense matrices in row-major or column-major order.

use vstd::prelude::*;
use crate::{dimension, DenseOrder, Operation, SparseError};

verus! {

/// Mathematical content of a dense matrix: its shape, its layout, and its
/// storage array.
pub struct DenseView<V> {
    pub rows: usize,
    pub columns: usize,
    pub order: DenseOrder,
    pub values: Seq<V>,
}

/// Storage position of element `(row, column)` of a `rows` by `columns`
/// matrix laid out in `order`.
pub open spec fn dense_offset(rows: int, columns: int, order: DenseOrder, row: int, column: int) -> int {
    match order {
        DenseOrder::RowMajor => row * columns + column,
        DenseOrder::ColumnMajor => column * rows + row,
    }
}

/// The first check that a dense description fails, if any.
pub open spec fn dense_error(rows: usize, columns: usize, length: nat) -> Option<SparseError> {
    if rows * columns > usize::MAX {
        Some(SparseError::SizeOverflow("dense matrix"))
    } else if length != rows * columns {
        Some(
            SparseError::BufferLength {
                name: "dense matrix",
                expected: (rows * columns) as usize,
                actual: length as usize,
            },
        )
    } else {
        None
    }
}

impl<V> DenseView<V> {
    pub open spec fn valid(self) -> bool {
        dense_error(self.rows, self.columns, self.values.len()) is None
    }

    /// Element `(row, column)`.
    pub open spec fn at(self, row: int, column: int) -> V {
        self.values[dense_offset(self.rows as int, self.columns as int, self.order, row, column)]
    }
}

/// Every in-bounds element has an in-bounds storage position, and distinct
/// elements have distinct positions.
pub proof fn lemma_dense_offset(rows: int, columns: int, order: DenseOrder, row: int, column: int)
    requires
        0 <= row < rows,
        0 <= column < columns,
    ensures
        0 <= dense_offset(rows, columns, order, row, column) < rows * columns,
        forall|r2: int, c2: int|
            0 <= r2 < rows && 0 <= c2 < columns && #[trigger] dense_offset(rows, columns, order, r2, c2)
                == dense_offset(rows, columns, order, row, column) ==> r2 == row && c2 == column,
{
    match order {
        DenseOrder::RowMajor => {
            assert(0 <= row * columns + column < rows * columns) by (nonlinear_arith)
                requires
                    0 <= row < rows,
                    0 <= column < columns,
            ;
            assert forall|r2: int, c2: int|
                0 <= r2 < rows && 0 <= c2 < columns && #[trigger] dense_offset(rows, columns, order, r2, c2)
                    == dense_offset(rows, columns, order, row, column) implies r2 == row && c2 == column by {
                lemma_unique_mixed_radix(r2, c2, row, column, columns);
            }
        },
        DenseOrder::ColumnMajor => {
            assert(0 <= column * rows + row < rows * columns) by (nonlinear_arith)
                requires
                    0 <= row < rows,
                    0 <= column < columns,
            ;
            assert forall|r2: int, c2: int|
                0 <= r2 < rows && 0 <= c2 < columns && #[trigger] dense_offset(rows, columns, order, r2, c2)
                    == dense_offset(rows, columns, order, row, column) implies r2 == row && c2 == column by {
                lemma_unique_mixed_radix(c2, r2, column, row, rows);
            }
        },
    }
}

proof fn lemma_unique_mixed_radix(a1: int, b1: int, a2: int, b2: int, radix: int)
    requires
        0 <= b1 < radix,
        0 <= b2 < radix,
        0 <= a1,
        0 <= a2,
        a1 * radix + b1 == a2 * radix + b2,
    ensures
        a1 == a2,
        b1 == b2,
{
    if a1 < a2 {
        assert(a1 * radix + radix <= a2 * radix) by (nonlinear_arith)
            requires
                a1 < a2,
                0 <= radix,
        ;
    } else if a2 < a1 {
        assert(a2 * radix + radix <= a1 * radix) by (nonlinear_arith)
            requires
                a2 < a1,
                0 <= radix,
        ;
    }
}

/// A dense matrix over a borrowed array.
#[derive(Debug)]
pub struct DenseMatrix<'a, V> {
    values: &'a [V],
    rows: usize,
    columns: usize,
    order: DenseOrder,
}

impl<'a, V> Clone for DenseMatrix<'a, V> {
    fn clone(&self) -> (r: Self)
        ensures
            r@ == self@,
    {
        *self
    }
}

impl<'a, V> Copy for DenseMatrix<'a, V> {

}

impl<'a, V> View for DenseMatrix<'a, V> {
    type V = DenseView<V>;

    closed spec fn view(&self) -> DenseView<V> {
        DenseView { rows: self.rows, columns: self.columns, order: self.order, values: self.values@ }
    }
}

impl<'a, V> DenseMatrix<'a, V> {
    #[verifier::type_invariant]
    pub open spec fn well_formed(&self) -> bool {
        self@.valid()
    }

    /// Checks that `values` holds exactly `rows * columns` elements.
    pub fn new(values: &'a [V], rows: usize, columns: usize, order: DenseOrder) -> (r: Result<
        Self,
        SparseError,
    >)
        ensures
            r is Ok <==> dense_error(rows, columns, values@.len()) is None,
            r matches Err(e) ==> dense_error(rows, columns, values@.len()) == Some(e),
            r matches Ok(m) ==> m@ == (DenseView { rows, columns, order, values: values@ }),
    {
        let expected = match rows.checked_mul(columns) {
            Some(value) => value,
            None => return Err(SparseError::SizeOverflow("dense matrix")),
        };
        if values.len() != expected {
            return Err(
                SparseError::BufferLength { name: "dense matrix", expected, actual: values.len() },
            );
        }
        Ok(DenseMatrix { values, rows, columns, order })
    }

    pub fn values(&self) -> (r: &'a [V])
        ensures
            r@ == self@.values,
    {
        self.values
    }

    pub fn rows(&self) -> (r: usize)
        ensures
            r == self@.rows,
    {
        self.rows
    }

    pub fn columns(&self) -> (r: usize)
        ensures
            r == self@.columns,
    {
        self.columns
    }

    pub fn order(&self) -> (r: DenseOrder)
        ensures
            r == self@.order,
    {
        self.order
    }

    /// Strides of the stored layout, each narrowed to `u32`.
    fn physical_strides(self) -> (r: Result<(u32, u32), SparseError>)
        ensures
            self@.rows > u32::MAX ==> r == Err::<(u32, u32), SparseError>(
                SparseError::DimensionTooLarge("dense rows"),
            ),
            self@.rows <= u32::MAX && self@.columns > u32::MAX ==> r == Err::<(u32, u32), SparseError>(
                SparseError::DimensionTooLarge("dense columns"),
            ),
            self@.rows <= u32::MAX && self@.columns <= u32::MAX ==> r == Ok::<(u32, u32), SparseError>(
                crate::spec_strides(self@.rows, self@.columns, self@.order),
            ),
    {
        let rows = dimension(self.rows, "dense rows")?;
        let columns = dimension(self.columns, "dense columns")?;
        Ok(
            match self.order {
                DenseOrder::RowMajor => (columns, 1),
                DenseOrder::ColumnMajor => (1, rows),
            },
        )
    }

    /// Shape of `op(self)`.
    fn operation_shape(self, operation: Operation) -> (r: (usize, usize))
        ensures
            operation == Operation::NoTranspose ==> r == (self@.rows, self@.columns),
            operation != Operation::NoTranspose ==> r == (self@.columns, self@.rows),
    {
        match operation {
            Operation::NoTranspose => (self.rows, self.columns),
            Operation::Transpose | Operation::ConjugateTranspose => (self.columns, self.rows),
        }
    }

    /// Strides of `op(self)` over the stored layout.
    fn operation_strides(self, operation: Operation) -> (r: Result<(u32, u32), SparseError>)
        ensures
            self@.rows > u32::MAX ==> r == Err::<(u32, u32), SparseError>(
                SparseError::DimensionTooLarge("dense rows"),
            ),
            self@.rows <= u32::MAX && self@.columns > u32::MAX ==> r == Err::<(u32, u32), SparseError>(
                SparseError::DimensionTooLarge("dense columns"),
            ),
            self@.rows <= u32::MAX && self@.columns <= u32::MAX ==> {
                let s = crate::spec_strides(self@.rows, self@.columns, self@.order);
                r == Ok::<(u32, u32), SparseError>(
                    if operation == Operation::NoTranspose {
                        s
                    } else {
                        (s.1, s.0)
                    },
                )
            },
    {
        let (row, column) = self.physical_strides()?;
        Ok(
            match operation {
                Operation::NoTranspose => (row, column),
                Operation::Transpose | Operation::ConjugateTranspose => (column, row),
            },
        )
    }
}

/// A dense matrix that owns its array.
#[derive(Debug, PartialEq)]
pub struct DenseMatrixOwned<V> {
    values: Vec<V>,
    rows: usize,
    columns: usize,
    order: DenseOrder,
}

impl<V: Clone> Clone for DenseMatrixOwned<V> {
    fn clone(&self) -> (r: Self)
        ensures
            r@.rows == self@.rows,
            r@.columns == self@.columns,
            r@.order == self@.order,
            r@.values.len() == self@.values.len(),
            forall|i: int| 0 <= i < self@.values.len() ==> cloned::<V>(self@.values[i], #[trigger] r@.values[i]),
    {
        proof {
            use_type_invariant(self);
        }
        DenseMatrixOwned {
            values: self.values.clone(),
            rows: self.rows,
            columns: self.columns,
            order: self.order,
        }
    }
}

impl<V> View for DenseMatrixOwned<V> {
    type V = DenseView<V>;

    closed spec fn view(&self) -> DenseView<V> {
        DenseView { rows: self.rows, columns: self.columns, order: self.order, values: self.values@ }
    }
}

impl<V> DenseMatrixOwned<V> {
    #[verifier::type_invariant]
    pub open spec fn well_formed(&self) -> bool {
        self@.valid()
    }

    /// Checks that `values` holds exactly `rows * columns` elements and takes it.
    pub fn new(values: Vec<V>, rows: usize, columns: usize, order: DenseOrder) -> (r: Result<
        Self,
        SparseError,
    >)
        ensures
            r is Ok <==> dense_error(rows, columns, values@.len()) is None,
            r matches Err(e) ==> dense_error(rows, columns, values@.len()) == Some(e),
            r matches Ok(m) ==> m@ == (DenseView { rows, columns, order, values: values@ }),
    {
        DenseMatrix::new(values.as_slice(), rows, columns, order)?;
        Ok(DenseMatrixOwned { values, rows, columns, order })
    }

    /// Borrows the array as a `DenseMatrix`.
    pub fn as_ref(&self) -> (r: DenseMatrix<'_, V>)
        ensures
            r@ == self@,
    {
        proof {
            use_type_invariant(self);
        }
        DenseMatrix {
            values: self.values.as_slice(),
            rows: self.rows,
            columns: self.columns,
            order: self.order,
        }
    }
}

} // verus!
