//! Sparse matrix formats, their validation, and conversions between them;
//! the symbolic phases of sparse sums and products; and the host-side
//! planning of device launches.
//!
//! Every stored container is generic over its value type: the structural
//! algorithms move values without inspecting them, so their contracts hold
//! for any value type.

use vstd::prelude::*;

pub mod pattern;
pub mod csr;
pub mod dense;
pub mod vector;
pub mod formats;
pub mod assemble;
pub mod conversion;
pub mod symbolic;
pub mod host;
pub mod terms;
pub mod launch;
pub mod roundtrip;
pub mod transposition;
pub mod sum_algebra;
pub mod routes;
pub mod sampling;

pub use csr::{CsrMatrix, CsrMatrixOwned, CsrView};
pub use dense::{DenseMatrix, DenseMatrixOwned, DenseView};
pub use vector::{SparseVector, SparseVectorOwned, SparseVectorView};
pub use formats::{
    BlockDirection, BsrMatrix, BsrView, CooMatrix, CooMatrixOwned, CooView, CscMatrix,
    CscMatrixOwned, CscView, EllMatrix, EllView,
};

verus! {

/// Whether stored indices count from zero or from one.
#[derive(Debug, Clone, Copy, PartialEq, Eq, Hash)]
pub enum IndexBase {
    Zero,
    One,
}

/// The integer that the first row or column is encoded as.
pub open spec fn base_of(base: IndexBase) -> u32 {
    match base {
        IndexBase::Zero => 0,
        IndexBase::One => 1,
    }
}

impl IndexBase {
    pub fn value(self) -> (r: u32)
        ensures
            r == base_of(self),
    {
        match self {
            IndexBase::Zero => 0,
            IndexBase::One => 1,
        }
    }

    /// The index base that encodes the first row or column as `value`, if
    /// `value` is zero or one.
    pub fn from_value(value: u32) -> (r: Option<IndexBase>)
        ensures
            value <= 1 ==> (r matches Some(b) && base_of(b) == value),
            value > 1 ==> r is None,
    {
        match value {
            0 => Some(IndexBase::Zero),
            1 => Some(IndexBase::One),
            _ => None,
        }
    }
}

/// How an operand enters a product: as is, transposed, or conjugate-transposed.
#[derive(Debug, Clone, Copy, PartialEq, Eq, Hash)]
pub enum Operation {
    NoTranspose,
    Transpose,
    ConjugateTranspose,
}

/// Physical layout of a dense matrix.
#[derive(Debug, Clone, Copy, PartialEq, Eq, Hash)]
pub enum DenseOrder {
    RowMajor,
    ColumnMajor,
}

/// Kernel family used to execute a sparse operation.
#[derive(Debug, Clone, Copy, PartialEq, Eq)]
pub enum SparseAlgorithm {
    RowSplitWavefront32,
}

/// Launch shape chosen for a sparse operation.
#[derive(Debug, Clone, Copy, PartialEq, Eq)]
pub struct SparsePlan {
    pub algorithm: SparseAlgorithm,
    pub output_elements: u32,
    pub block_threads: u32,
    pub grid_blocks: u32,
}

#[verifier::external_type_specification]
#[verifier::external_body]
pub struct ExExecutionError(ruda_core::tensor::execution::ExecutionError);

#[verifier::external_type_specification]
#[verifier::external_body]
pub struct ExDataError(ruda_core::tensor::data::DataError);

/// Everything that can go wrong when validating or converting sparse data.
#[derive(Debug)]
pub enum SparseError {
    BufferLength { name: &'static str, expected: usize, actual: usize },
    DimensionMismatch(&'static str),
    DimensionTooLarge(&'static str),
    InvalidColumnIndex,
    InvalidSparseIndex(&'static str),
    InvalidSparseOffsets { format: &'static str, message: &'static str },
    InvalidBlockDimension,
    InvalidRowOffsets(&'static str),
    SizeOverflow(&'static str),
    TensorExecution(ruda_core::tensor::execution::ExecutionError),
    TensorData(ruda_core::tensor::data::DataError),
    Device(&'static str),
}

/// Turns the first failed check, if any, into the result of a validation.
pub open spec fn check_result(first_error: Option<SparseError>) -> Result<(), SparseError> {
    match first_error {
        Some(e) => Err(e),
        None => Ok(()),
    }
}

/// Narrows a dimension to the `u32` used by encoded indices.
pub fn dimension(value: usize, name: &'static str) -> (r: Result<u32, SparseError>)
    ensures
        value <= u32::MAX ==> r == Ok::<u32, SparseError>(value as u32),
        value > u32::MAX ==> r == Err::<u32, SparseError>(SparseError::DimensionTooLarge(name)),
{
    if value <= u32::MAX as usize {
        Ok(value as u32)
    } else {
        Err(SparseError::DimensionTooLarge(name))
    }
}

/// Row and column strides of a dense matrix of the given shape and order.
pub open spec fn spec_strides(rows: usize, columns: usize, order: DenseOrder) -> (u32, u32) {
    match order {
        DenseOrder::RowMajor => (columns as u32, 1),
        DenseOrder::ColumnMajor => (1, rows as u32),
    }
}

pub fn dense_strides(rows: usize, columns: usize, order: DenseOrder, name: &'static str) -> (r:
    Result<(u32, u32), SparseError>)
    ensures
        rows > u32::MAX ==> r == Err::<(u32, u32), SparseError>(SparseError::DimensionTooLarge(name)),
        rows <= u32::MAX && columns > u32::MAX ==> r == Err::<(u32, u32), SparseError>(
            SparseError::DimensionTooLarge(name),
        ),
        rows <= u32::MAX && columns <= u32::MAX ==> r == Ok::<(u32, u32), SparseError>(
            spec_strides(rows, columns, order),
        ),
{
    let rows = dimension(rows, name)?;
    let columns = dimension(columns, name)?;
    Ok(
        match order {
            DenseOrder::RowMajor => (columns, 1),
            DenseOrder::ColumnMajor => (1, rows),
        },
    )
}

} // verus!
