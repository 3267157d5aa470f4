//! Host-side planning of device launches: shape and device checks of dense
//! operands, launch grids of the row-split kernels, and the index lists that
//! device scatters consume.

use vstd::prelude::*;
use crate::csr::{csr_error, CsrView};
use crate::dense::dense_offset;
use crate::conversion::{csr_target, last_write};
use crate::host::last_in_row;
use crate::pattern::{indices_in_range, nondecreasing};
use crate::symbolic::{lemma_segment_bounds, sorted_insert, sorted_strict};
use crate::{
    base_of, dimension, CsrMatrix, DenseOrder, Operation, SparseAlgorithm, SparseError, SparsePlan,
    SparseVector,
};

verus! {

/// What a device reports about its compute units: the range of its plane
/// (wavefront) sizes and the largest number of threads in a block.
#[derive(Debug, Clone, Copy, PartialEq, Eq)]
pub struct DeviceLimits {
    pub plane_size_min: u32,
    pub plane_size_max: u32,
    pub max_block_threads: u32,
}

/// Checks a dense operand: its shape must be `expected`, and it must be
/// `compatible` (an unquantized `f32` tensor on the matrix's device).
pub fn validate_dense(shape: &[usize], expected: &[usize], compatible: bool) -> (r: Result<(), SparseError>)
    ensures
        shape@ != expected@ ==> r == Err::<(), SparseError>(
            SparseError::DimensionMismatch("sparse dense operand shape mismatch"),
        ),
        shape@ == expected@ && !compatible ==> r == Err::<(), SparseError>(
            SparseError::Device("sparse operands must be same-device unquantized F32 tensors"),
        ),
        shape@ == expected@ && compatible ==> r == Ok::<(), SparseError>(()),
{
    let mut same = shape.len() == expected.len();
    let mut i: usize = 0;
    while same && i < shape.len()
        invariant
            i <= shape.len(),
            same ==> shape.len() == expected.len(),
            same <==> (shape.len() == expected.len() && forall|j: int| 0 <= j < i ==> shape@[j] == expected@[j]),
        decreases shape.len() - i,
    {
        if shape[i] != expected[i] {
            same = false;
        }
        i = i + 1;
    }
    proof {
        if same {
            assert(shape@ =~= expected@);
        } else if shape.len() == expected.len() {
            let j = choose|j: int| 0 <= j < i && shape@[j] != expected@[j];
            assert(shape@[j] != expected@[j]);
        }
    }
    if !same {
        return Err(SparseError::DimensionMismatch("sparse dense operand shape mismatch"));
    }
    if !compatible {
        return Err(SparseError::Device("sparse operands must be same-device unquantized F32 tensors"));
    }
    Ok(())
}

/// Number of 128-thread blocks that cover `lanes` lanes.
pub open spec fn blocks_for(lanes: int) -> int {
    (lanes + 127) / 128
}

/// The launch of a row-split kernel over `elements` outputs, one 32-lane
/// plane each, in blocks of 128 threads; or why the device or the size rules
/// it out.
pub open spec fn grid_outcome(elements: usize, limits: DeviceLimits) -> Result<SparsePlan, SparseError> {
    if elements > u32::MAX {
        Err(SparseError::DimensionTooLarge("sparse output"))
    } else if limits.plane_size_min != 32 || limits.plane_size_max != 32 || limits.max_block_threads < 128 {
        Err(SparseError::Device("row-split sparse kernels require 32-lane planes and 128-thread blocks"))
    } else if elements * 32 > u32::MAX {
        Err(SparseError::SizeOverflow("sparse launch lanes"))
    } else {
        Ok(
            SparsePlan {
                algorithm: SparseAlgorithm::RowSplitWavefront32,
                output_elements: elements as u32,
                block_threads: 128,
                grid_blocks: blocks_for(elements * 32) as u32,
            },
        )
    }
}

/// Plans a row-split launch over `elements` outputs on a device with `limits`.
pub fn launch_grid(elements: usize, limits: DeviceLimits) -> (r: Result<SparsePlan, SparseError>)
    ensures
        r == grid_outcome(elements, limits),
{
    let elements = dimension(elements, "sparse output")?;
    if limits.plane_size_min != 32 || limits.plane_size_max != 32 || limits.max_block_threads < 128 {
        return Err(SparseError::Device("row-split sparse kernels require 32-lane planes and 128-thread blocks"));
    }
    let lanes = match elements.checked_mul(32) {
        Some(lanes) => lanes,
        None => return Err(SparseError::SizeOverflow("sparse launch lanes")),
    };
    let blocks = if lanes % 128 == 0 {
        lanes / 128
    } else {
        lanes / 128 + 1
    };
    proof {
        if lanes % 128 == 0 {
            assert(blocks == blocks_for(lanes as int)) by (nonlinear_arith)
                requires
                    blocks == lanes / 128,
                    lanes % 128 == 0,
            ;
        } else {
            assert(blocks == blocks_for(lanes as int)) by (nonlinear_arith)
                requires
                    blocks == lanes / 128 + 1,
                    lanes % 128 != 0,
            ;
        }
    }
    Ok(
        SparsePlan {
            algorithm: SparseAlgorithm::RowSplitWavefront32,
            output_elements: elements,
            block_threads: 128,
            grid_blocks: blocks,
        },
    )
}

/// The number of elements of a `rows` by `columns` dense array, which must
/// fit both `usize` and `u32`; failures are named `name`.
pub fn dense_elements(rows: usize, columns: usize, name: &'static str) -> (r: Result<usize, SparseError>)
    ensures
        rows * columns > usize::MAX ==> r == Err::<usize, SparseError>(SparseError::SizeOverflow(name)),
        rows * columns <= usize::MAX && rows * columns > u32::MAX ==> r == Err::<usize, SparseError>(
            SparseError::DimensionTooLarge(name),
        ),
        rows * columns <= u32::MAX ==> r == Ok::<usize, SparseError>((rows * columns) as usize),
{
    let elements = match rows.checked_mul(columns) {
        Some(elements) => elements,
        None => return Err(SparseError::SizeOverflow(name)),
    };
    dimension(elements, name)?;
    Ok(elements)
}


/// Entries `lo..hi` of row `r` of `m`, scanned from the back, that
/// densification writes (the last of their row with their column), each
/// tagged with the row.
pub open spec fn written_desc<V>(m: CsrView<V>, r: int, hi: int, lo: int) -> Seq<(int, int)>
    decreases hi - lo,
{
    if lo >= hi {
        Seq::empty()
    } else {
        written_desc(m, r, hi, lo + 1) + if last_in_row(m, r, lo) {
            seq![(r, lo)]
        } else {
            Seq::empty()
        }
    }
}

/// The entries of the first `n` rows of `m` that densification writes, row
/// by row, each row scanned from the back.
pub open spec fn written_entries<V>(m: CsrView<V>, n: int) -> Seq<(int, int)>
    decreases n,
{
    if n <= 0 {
        Seq::empty()
    } else {
        written_entries(m, n - 1) + written_desc(
            m,
            n - 1,
            m.row_offsets[n] - base_of(m.base),
            m.row_offsets[n - 1] - base_of(m.base),
        )
    }
}

/// `entries` and `positions` list the written entries `want` of `m` and the
/// positions of a dense array in `order` they are written to.
pub open spec fn scatter_listed<V>(entries: Seq<u32>, positions: Seq<u32>, want: Seq<(int, int)>, m: CsrView<V>, order: DenseOrder) -> bool {
    &&& entries.len() == want.len()
    &&& positions.len() == want.len()
    &&& forall|i: int|
        0 <= i < want.len() ==> #[trigger] entries[i] == want[i].1 && positions[i] == dense_offset(
            m.rows as int,
            m.columns as int,
            order,
            want[i].0,
            m.column_indices[want[i].1] - base_of(m.base),
        )
}

/// The scatter that densifies `pattern` into a dense array in `order`: the
/// entries it writes (the last entry of each row and column), rows in order
/// and each row from the back, and the position each is written to. Fails,
/// naming `name`, when the dense array's length does not fit `usize` or `u32`.
pub fn dense_scatter_plan<V>(pattern: CsrMatrix<'_, V>, order: DenseOrder, name: &'static str) -> (r: Result<
    (Vec<u32>, Vec<u32>),
    SparseError,
>)
    ensures
        pattern@.rows * pattern@.columns > usize::MAX ==> r == Err::<(Vec<u32>, Vec<u32>), SparseError>(
            SparseError::SizeOverflow(name),
        ),
        pattern@.rows * pattern@.columns <= usize::MAX && pattern@.rows * pattern@.columns > u32::MAX ==> r
            == Err::<(Vec<u32>, Vec<u32>), SparseError>(SparseError::DimensionTooLarge(name)),
        pattern@.rows * pattern@.columns <= u32::MAX ==> (r matches Ok((entries, positions)) && scatter_listed(
            entries@,
            positions@,
            written_entries(pattern@, pattern@.rows as int),
            pattern@,
            order,
        )),
{
    proof {
        use_type_invariant(&pattern);
    }
    let rows = pattern.rows();
    let columns = pattern.columns();
    dense_elements(rows, columns, name)?;
    let ghost m = pattern@;
    let base = pattern.index_base().value();
    let offsets = pattern.row_offsets();
    let indices = pattern.column_indices();
    let mut entries: Vec<u32> = Vec::new();
    let mut positions: Vec<u32> = Vec::new();
    let mut row: usize = 0;
    while row < rows
        invariant
            m == pattern@,
            m.valid(),
            rows == m.rows,
            columns == m.columns,
            rows * columns <= u32::MAX,
            base == base_of(m.base),
            offsets@ == m.row_offsets,
            indices@ == m.column_indices,
            row <= rows,
            scatter_listed(entries@, positions@, written_entries(m, row as int), m, order),
        decreases rows - row,
    {
        proof {
            lemma_segment_bounds(m, row as int);
        }
        let first = (offsets[row] - base) as usize;
        let last = (offsets[row + 1] - base) as usize;
        let ghost before = written_entries(m, row as int);
        let mut seen: Vec<u32> = Vec::new();
        let mut entry = last;
        while entry > first
            invariant
                m == pattern@,
                m.valid(),
                rows == m.rows,
                columns == m.columns,
                rows * columns <= u32::MAX,
                base == base_of(m.base),
                indices@ == m.column_indices,
                row < rows,
                first == m.row_offsets[row as int] - base,
                last == m.row_offsets[row + 1] - base,
                first <= entry <= last <= m.column_indices.len(),
                m.column_indices.len() <= u32::MAX,
                sorted_strict(seen@),
                forall|x: u32| seen@.contains(x) <==> exists|e2: int| entry <= e2 < last && #[trigger] m.column_indices[e2] == x,
                before == written_entries(m, row as int),
                scatter_listed(entries@, positions@, before + written_desc(m, row as int, last as int, entry as int), m, order),
            decreases entry - first,
        {
            entry = entry - 1;
            let stored = indices[entry];
            let ghost seen_before = seen@;
            let added = sorted_insert(&mut seen, stored);
            proof {
                crate::host::lemma_backward_step(m, row as int, entry as int, last as int, seen_before, stored);
            }
            let ghost prev = before + written_desc(m, row as int, last as int, entry + 1);
            if added {
                proof {
                    assert(indices_in_range(m.column_indices, base, m.columns as nat));
                }
                let column = (stored - base) as usize;
                let position = crate::conversion::physical_index(rows, columns, order, row, column);
                let ghost entries_before = entries@;
                let ghost positions_before = positions@;
                entries.push(entry as u32);
                positions.push(position as u32);
                proof {
                    let want = before + written_desc(m, row as int, last as int, entry as int);
                    assert(last_in_row(m, row as int, entry as int));
                    assert(written_desc(m, row as int, last as int, entry as int) == written_desc(
                        m,
                        row as int,
                        last as int,
                        entry + 1,
                    ) + seq![(row as int, entry as int)]);
                    assert(want =~= prev.push((row as int, entry as int)));
                    assert forall|i: int| 0 <= i < want.len() implies #[trigger] entries@[i] == want[i].1 && positions@[i]
                        == dense_offset(
                        m.rows as int,
                        m.columns as int,
                        order,
                        want[i].0,
                        m.column_indices[want[i].1] - base_of(m.base),
                    ) by {
                        if i < want.len() - 1 {
                            assert(want[i] == prev[i]);
                            assert(entries@[i] == entries_before[i]);
                            assert(positions@[i] == positions_before[i]);
                        } else {
                            assert(want[i] == (row as int, entry as int));
                        }
                    }
                    assert(scatter_listed(entries@, positions@, want, m, order));
                }
            } else {
                proof {
                    assert(!last_in_row(m, row as int, entry as int));
                    assert(before + written_desc(m, row as int, last as int, entry as int) =~= prev);
                    assert(scatter_listed(entries@, positions@, before + written_desc(m, row as int, last as int, entry as int), m, order));
                }
            }
        }
        proof {
            assert(written_entries(m, row + 1) == before + written_desc(m, row as int, last as int, first as int));
        }
        row = row + 1;
    }
    Ok((entries, positions))
}


/// The entries of row `r` kept by a backward scan of `lo..hi` lie in that
/// range, are written by densification, and come in decreasing order.
proof fn lemma_written_desc<V>(m: CsrView<V>, r: int, hi: int, lo: int)
    ensures
        forall|i: int|
            0 <= i < written_desc(m, r, hi, lo).len() ==> (#[trigger] written_desc(m, r, hi, lo)[i]).0 == r && lo
                <= written_desc(m, r, hi, lo)[i].1 < hi && last_in_row(m, r, written_desc(m, r, hi, lo)[i].1),
        forall|i: int, j: int|
            0 <= i < j < written_desc(m, r, hi, lo).len() ==> (#[trigger] written_desc(m, r, hi, lo)[i]).1
                > (#[trigger] written_desc(m, r, hi, lo)[j]).1,
    decreases hi - lo,
{
    if lo < hi {
        lemma_written_desc(m, r, hi, lo + 1);
        let w = written_desc(m, r, hi, lo);
        let rest = written_desc(m, r, hi, lo + 1);
        assert forall|i: int| 0 <= i < w.len() implies (#[trigger] w[i]).0 == r && lo <= w[i].1 < hi && last_in_row(
            m,
            r,
            w[i].1,
        ) by {
            if i < rest.len() {
                assert(w[i] == rest[i]);
            }
        }
        assert forall|i: int, j: int| 0 <= i < j < w.len() implies (#[trigger] w[i]).1 > (#[trigger] w[j]).1 by {
            assert(w[i] == rest[i]);
            if j < rest.len() {
                assert(w[j] == rest[j]);
            }
        }
    }
}

/// The written entries of the first `n` rows: each lies in its row and is
/// written by densification; they come row by row, each row in decreasing
/// entry order.
proof fn lemma_written_entries<V>(m: CsrView<V>, n: int)
    requires
        m.valid(),
        n <= m.rows,
    ensures
        forall|i: int|
            0 <= i < written_entries(m, n).len() ==> m.entry_in_row(
                (#[trigger] written_entries(m, n)[i]).0,
                written_entries(m, n)[i].1,
            ) && last_in_row(m, written_entries(m, n)[i].0, written_entries(m, n)[i].1) && written_entries(m, n)[i].0
                < n,
        forall|i: int, j: int|
            0 <= i < j < written_entries(m, n).len() ==> (#[trigger] written_entries(m, n)[i]).0
                < (#[trigger] written_entries(m, n)[j]).0 || (written_entries(m, n)[i].0 == written_entries(m, n)[j].0
                && written_entries(m, n)[i].1 > written_entries(m, n)[j].1),
    decreases n,
{
    if n > 0 {
        lemma_written_entries(m, n - 1);
        let b = base_of(m.base);
        let hi = m.row_offsets[n] - b;
        let lo = m.row_offsets[n - 1] - b;
        lemma_written_desc(m, n - 1, hi, lo);
        let prev = written_entries(m, n - 1);
        let desc = written_desc(m, n - 1, hi, lo);
        let w = written_entries(m, n);
        assert(w == prev + desc);
        assert forall|i: int| 0 <= i < w.len() implies m.entry_in_row((#[trigger] w[i]).0, w[i].1) && last_in_row(
            m,
            w[i].0,
            w[i].1,
        ) && w[i].0 < n by {
            if i < prev.len() {
                assert(w[i] == prev[i]);
            } else {
                assert(w[i] == desc[i - prev.len()]);
            }
        }
        assert forall|i: int, j: int| 0 <= i < j < w.len() implies (#[trigger] w[i]).0 < (#[trigger] w[j]).0 || (w[i].0
            == w[j].0 && w[i].1 > w[j].1) by {
            if j < prev.len() {
                assert(w[i] == prev[i] && w[j] == prev[j]);
            } else if i < prev.len() {
                assert(w[i] == prev[i] && w[j] == desc[j - prev.len()]);
                assert(m.entry_in_row(prev[i].0, prev[i].1));
            } else {
                assert(w[i] == desc[i - prev.len()] && w[j] == desc[j - prev.len()]);
            }
        }
    }
}

/// The scatter that densifies a matrix writes each dense position at most
/// once: the positions of its planned entries are pairwise distinct, so a
/// device may perform the writes in any order, concurrently.
pub proof fn law_scatter_positions_distinct<V>(m: CsrView<V>, order: DenseOrder)
    requires
        m.valid(),
    ensures
        forall|i: int, j: int|
            0 <= i < j < written_entries(m, m.rows as int).len() ==> dense_offset(
                m.rows as int,
                m.columns as int,
                order,
                (#[trigger] written_entries(m, m.rows as int)[i]).0,
                m.column_indices[written_entries(m, m.rows as int)[i].1] - base_of(m.base),
            ) != dense_offset(
                m.rows as int,
                m.columns as int,
                order,
                (#[trigger] written_entries(m, m.rows as int)[j]).0,
                m.column_indices[written_entries(m, m.rows as int)[j].1] - base_of(m.base),
            ),
{
    let w = written_entries(m, m.rows as int);
    let b = base_of(m.base);
    lemma_written_entries(m, m.rows as int);
    assert forall|i: int, j: int| 0 <= i < j < w.len() implies dense_offset(
        m.rows as int,
        m.columns as int,
        order,
        (#[trigger] w[i]).0,
        m.column_indices[w[i].1] - b,
    ) != dense_offset(m.rows as int, m.columns as int, order, (#[trigger] w[j]).0, m.column_indices[w[j].1] - b) by {
        assert(m.entry_in_row(w[i].0, w[i].1) && last_in_row(m, w[i].0, w[i].1));
        assert(m.entry_in_row(w[j].0, w[j].1) && last_in_row(m, w[j].0, w[j].1));
        assert(indices_in_range(m.column_indices, b, m.columns as nat));
        assert(b <= m.column_indices[w[i].1] < b + m.columns);
        assert(b <= m.column_indices[w[j].1] < b + m.columns);
        crate::dense::lemma_dense_offset(
            m.rows as int,
            m.columns as int,
            order,
            w[i].0,
            m.column_indices[w[i].1] - b,
        );
        if w[i].0 == w[j].0 {
            assert(m.entry_in_row(w[i].0, w[i].1));
            assert(m.column_indices[w[i].1] != m.column_indices[w[j].1]);
        }
    }
}


/// `shape` with its two axes swapped unless `operation` leaves it as is.
pub open spec fn operated_shape(shape: Seq<usize>, operation: Operation) -> Seq<usize> {
    if operation == Operation::NoTranspose {
        shape
    } else {
        seq![shape[1], shape[0]]
    }
}

/// The shape check of a dense operand, as `validate_dense` performs it.
pub open spec fn dense_check(shape: Seq<usize>, expected: Seq<usize>, compatible: bool) -> Result<(), SparseError> {
    if shape != expected {
        Err(SparseError::DimensionMismatch("sparse dense operand shape mismatch"))
    } else if !compatible {
        Err(SparseError::Device("sparse operands must be same-device unquantized F32 tensors"))
    } else {
        Ok(())
    }
}

fn operated(shape: &[usize], operation: Operation) -> (r: [usize; 2])
    requires
        shape@.len() == 2,
    ensures
        r@ == operated_shape(shape@, operation),
{
    let r = match operation {
        Operation::NoTranspose => [shape[0], shape[1]],
        Operation::Transpose | Operation::ConjugateTranspose => [shape[1], shape[0]],
    };
    proof {
        assert(r@ =~= operated_shape(shape@, operation));
    }
    r
}

/// Launch of a sparse matrix times dense vector: the plan of a launch over
/// the matrix's rows, after checking the shapes and devices of `x` and `y`.
pub fn csrmv_launch(
    rows: usize,
    columns: usize,
    x_shape: &[usize],
    x_compatible: bool,
    y_shape: &[usize],
    y_compatible: bool,
    limits: DeviceLimits,
) -> (r: Result<SparsePlan, SparseError>)
    ensures
        r == match dense_check(x_shape@, seq![columns], x_compatible) {
            Err(e) => Err(e),
            Ok(_) => match dense_check(y_shape@, seq![rows], y_compatible) {
                Err(e) => Err(e),
                Ok(_) => grid_outcome(rows, limits),
            },
        },
{
    let expected_x = [columns];
    let expected_y = [rows];
    proof {
        assert(expected_x@ =~= seq![columns]);
        assert(expected_y@ =~= seq![rows]);
    }
    validate_dense(x_shape, &expected_x, x_compatible)?;
    validate_dense(y_shape, &expected_y, y_compatible)?;
    launch_grid(rows, limits)
}

/// What a sparse matrix times dense matrix launch needs: the number of output
/// columns and elements, the launch plan, the output's shape as allocated,
/// and the strides at which the kernel writes row and column of the output.
#[derive(Debug, Clone, Copy, PartialEq, Eq)]
pub struct SpmmLaunch {
    pub columns: usize,
    pub elements: usize,
    pub plan: SparsePlan,
    pub output_shape: (usize, usize),
    pub row_stride: u32,
    pub column_stride: u32,
}

/// The checks and plan of `alpha * A * op(B) + beta * C` for a `rows` by
/// `matrix_columns` sparse `A`, in the order they are made.
pub open spec fn spmm_outcome(
    rows: usize,
    matrix_columns: usize,
    operation_b: Operation,
    b_shape: Seq<usize>,
    b_compatible: bool,
    c_shape: Option<Seq<usize>>,
    c_compatible: bool,
    order: DenseOrder,
    limits: DeviceLimits,
) -> Result<SpmmLaunch, SparseError> {
    if b_shape.len() != 2 {
        Err(SparseError::DimensionMismatch("SpMM B must have two axes"))
    } else {
        let b = operated_shape(b_shape, operation_b);
        let columns = b[1];
        if columns > u32::MAX {
            Err(SparseError::DimensionTooLarge("SpMM columns"))
        } else {
            match dense_check(b, seq![matrix_columns, columns], b_compatible) {
                Err(e) => Err(e),
                Ok(_) => match match c_shape {
                    Some(c) => dense_check(c, seq![rows, columns], c_compatible),
                    None => Ok(()),
                } {
                    Err(e) => Err(e),
                    Ok(_) => if rows * columns > usize::MAX {
                        Err(SparseError::SizeOverflow("SpMM output"))
                    } else {
                        match grid_outcome((rows * columns) as usize, limits) {
                            Err(e) => Err(e),
                            Ok(plan) => match order {
                                DenseOrder::RowMajor => Ok(
                                    SpmmLaunch {
                                        columns,
                                        elements: (rows * columns) as usize,
                                        plan,
                                        output_shape: (rows, columns),
                                        row_stride: columns as u32,
                                        column_stride: 1,
                                    },
                                ),
                                DenseOrder::ColumnMajor => if rows > u32::MAX {
                                    Err(SparseError::DimensionTooLarge("SpMM rows"))
                                } else {
                                    Ok(
                                        SpmmLaunch {
                                            columns,
                                            elements: (rows * columns) as usize,
                                            plan,
                                            output_shape: (columns, rows),
                                            row_stride: 1,
                                            column_stride: rows as u32,
                                        },
                                    )
                                },
                            },
                        }
                    },
                },
            }
        }
    }
}

/// Plans `alpha * A * op(B) + beta * C` for a `rows` by `matrix_columns`
/// sparse `A`: checks the dense operands and sizes, and lays out the output
/// in `order`.
pub fn spmm_launch(
    rows: usize,
    matrix_columns: usize,
    operation_b: Operation,
    b_shape: &[usize],
    b_compatible: bool,
    c_shape: Option<&[usize]>,
    c_compatible: bool,
    order: DenseOrder,
    limits: DeviceLimits,
) -> (r: Result<SpmmLaunch, SparseError>)
    ensures
        r == spmm_outcome(
            rows,
            matrix_columns,
            operation_b,
            b_shape@,
            b_compatible,
            match c_shape {
                Some(c) => Some(c@),
                None => None,
            },
            c_compatible,
            order,
            limits,
        ),
{
    if b_shape.len() != 2 {
        return Err(SparseError::DimensionMismatch("SpMM B must have two axes"));
    }
    let b = operated(b_shape, operation_b);
    let columns = b[1];
    dimension(columns, "SpMM columns")?;
    let expected_b = [matrix_columns, columns];
    proof {
        assert(expected_b@ =~= seq![matrix_columns, columns]);
    }
    validate_dense(&b, &expected_b, b_compatible)?;
    match c_shape {
        Some(c) => {
            let expected_c = [rows, columns];
            proof {
                assert(expected_c@ =~= seq![rows, columns]);
            }
            validate_dense(c, &expected_c, c_compatible)?;
        },
        None => {},
    }
    let elements = match rows.checked_mul(columns) {
        Some(elements) => elements,
        None => return Err(SparseError::SizeOverflow("SpMM output")),
    };
    let plan = launch_grid(elements, limits)?;
    match order {
        DenseOrder::RowMajor => {
            let row_stride = dimension(columns, "SpMM columns")?;
            Ok(SpmmLaunch { columns, elements, plan, output_shape: (rows, columns), row_stride, column_stride: 1 })
        },
        DenseOrder::ColumnMajor => {
            let column_stride = dimension(rows, "SpMM rows")?;
            Ok(SpmmLaunch { columns, elements, plan, output_shape: (columns, rows), row_stride: 1, column_stride })
        },
    }
}

/// The checks and plan of sampling `alpha * op(A) * op(B) + beta * C` at the
/// `nnz` entries of a `rows` by `columns` sparse `C`: the inner dimension and
/// the launch plan.
pub open spec fn sddmm_outcome(
    rows: usize,
    columns: usize,
    nnz: usize,
    operation_a: Operation,
    a_shape: Seq<usize>,
    a_compatible: bool,
    operation_b: Operation,
    b_shape: Seq<usize>,
    b_compatible: bool,
    limits: DeviceLimits,
) -> Result<(usize, SparsePlan), SparseError> {
    if a_shape.len() != 2 || b_shape.len() != 2 {
        Err(SparseError::DimensionMismatch("SDDMM dense operands must have two axes"))
    } else {
        let a = operated_shape(a_shape, operation_a);
        let b = operated_shape(b_shape, operation_b);
        let inner = a[1];
        if inner > u32::MAX {
            Err(SparseError::DimensionTooLarge("SDDMM inner dimension"))
        } else {
            match dense_check(a, seq![rows, inner], a_compatible) {
                Err(e) => Err(e),
                Ok(_) => match dense_check(b, seq![inner, columns], b_compatible) {
                    Err(e) => Err(e),
                    Ok(_) => match grid_outcome(nnz, limits) {
                        Err(e) => Err(e),
                        Ok(plan) => Ok((inner, plan)),
                    },
                },
            }
        }
    }
}

/// Plans sampling `alpha * op(A) * op(B) + beta * C` at the `nnz` entries of
/// a `rows` by `columns` sparse `C`.
pub fn sddmm_launch(
    rows: usize,
    columns: usize,
    nnz: usize,
    operation_a: Operation,
    a_shape: &[usize],
    a_compatible: bool,
    operation_b: Operation,
    b_shape: &[usize],
    b_compatible: bool,
    limits: DeviceLimits,
) -> (r: Result<(usize, SparsePlan), SparseError>)
    ensures
        r == sddmm_outcome(
            rows,
            columns,
            nnz,
            operation_a,
            a_shape@,
            a_compatible,
            operation_b,
            b_shape@,
            b_compatible,
            limits,
        ),
{
    if a_shape.len() != 2 || b_shape.len() != 2 {
        return Err(SparseError::DimensionMismatch("SDDMM dense operands must have two axes"));
    }
    let a = operated(a_shape, operation_a);
    let b = operated(b_shape, operation_b);
    let inner = a[1];
    dimension(inner, "SDDMM inner dimension")?;
    let expected_a = [rows, inner];
    let expected_b = [inner, columns];
    proof {
        assert(expected_a@ =~= seq![rows, inner]);
        assert(expected_b@ =~= seq![inner, columns]);
    }
    validate_dense(&a, &expected_a, a_compatible)?;
    validate_dense(&b, &expected_b, b_compatible)?;
    let plan = launch_grid(nnz, limits)?;
    Ok((inner, plan))
}


/// The dense operand `B` of `A * op(B)` for a sparse `A` with
/// `matrix_columns` columns: with `NoTranspose` a planned `B` is
/// `matrix_columns` by the output's columns; with `Transpose` and
/// `ConjugateTranspose` alike it is the output's columns by
/// `matrix_columns`. Either transposing operation plans exactly as
/// `NoTranspose` on `B` with its two axes swapped.
pub proof fn law_spmm_operand_orientation(
    rows: usize,
    matrix_columns: usize,
    operation_b: Operation,
    b_shape: Seq<usize>,
    b_compatible: bool,
    c_shape: Option<Seq<usize>>,
    c_compatible: bool,
    order: DenseOrder,
    limits: DeviceLimits,
)
    requires
        b_shape.len() == 2,
    ensures
        spmm_outcome(rows, matrix_columns, operation_b, b_shape, b_compatible, c_shape, c_compatible, order, limits) matches Ok(
            l,
        ) ==> if operation_b == Operation::NoTranspose {
            b_shape[0] == matrix_columns && b_shape[1] == l.columns
        } else {
            b_shape[1] == matrix_columns && b_shape[0] == l.columns
        },
        operation_b != Operation::NoTranspose ==> spmm_outcome(
            rows,
            matrix_columns,
            operation_b,
            b_shape,
            b_compatible,
            c_shape,
            c_compatible,
            order,
            limits,
        ) == spmm_outcome(
            rows,
            matrix_columns,
            Operation::NoTranspose,
            seq![b_shape[1], b_shape[0]],
            b_compatible,
            c_shape,
            c_compatible,
            order,
            limits,
        ),
{
    let swapped = seq![b_shape[1], b_shape[0]];
    assert(operated_shape(swapped, Operation::NoTranspose) == swapped);
    if operation_b != Operation::NoTranspose {
        assert(operated_shape(b_shape, operation_b) =~= swapped);
    }
    let b = operated_shape(b_shape, operation_b);
    if spmm_outcome(rows, matrix_columns, operation_b, b_shape, b_compatible, c_shape, c_compatible, order, limits) is Ok {
        assert(b == seq![matrix_columns, b[1]]);
        assert(b[0] == matrix_columns);
    }
}

/// The dense operands of sampling `op(A) * op(B)` at a `rows` by `columns`
/// pattern: with `NoTranspose` a planned `A` is `rows` by the inner
/// dimension and `B` the inner dimension by `columns`; with `Transpose` and
/// `ConjugateTranspose` alike each has its two axes the other way round.
/// Either transposing operation plans exactly as `NoTranspose` on that
/// operand with its axes swapped.
pub proof fn law_sddmm_operand_orientation(
    rows: usize,
    columns: usize,
    nnz: usize,
    operation_a: Operation,
    a_shape: Seq<usize>,
    a_compatible: bool,
    operation_b: Operation,
    b_shape: Seq<usize>,
    b_compatible: bool,
    limits: DeviceLimits,
)
    requires
        a_shape.len() == 2,
        b_shape.len() == 2,
    ensures
        sddmm_outcome(rows, columns, nnz, operation_a, a_shape, a_compatible, operation_b, b_shape, b_compatible, limits) matches Ok(
            res,
        ) ==> (if operation_a == Operation::NoTranspose {
            a_shape[0] == rows && a_shape[1] == res.0
        } else {
            a_shape[1] == rows && a_shape[0] == res.0
        }) && (if operation_b == Operation::NoTranspose {
            b_shape[0] == res.0 && b_shape[1] == columns
        } else {
            b_shape[1] == res.0 && b_shape[0] == columns
        }),
        operation_a != Operation::NoTranspose ==> sddmm_outcome(
            rows,
            columns,
            nnz,
            operation_a,
            a_shape,
            a_compatible,
            operation_b,
            b_shape,
            b_compatible,
            limits,
        ) == sddmm_outcome(
            rows,
            columns,
            nnz,
            Operation::NoTranspose,
            seq![a_shape[1], a_shape[0]],
            a_compatible,
            operation_b,
            b_shape,
            b_compatible,
            limits,
        ),
        operation_b != Operation::NoTranspose ==> sddmm_outcome(
            rows,
            columns,
            nnz,
            operation_a,
            a_shape,
            a_compatible,
            operation_b,
            b_shape,
            b_compatible,
            limits,
        ) == sddmm_outcome(
            rows,
            columns,
            nnz,
            operation_a,
            a_shape,
            a_compatible,
            Operation::NoTranspose,
            seq![b_shape[1], b_shape[0]],
            b_compatible,
            limits,
        ),
{
    let sa = seq![a_shape[1], a_shape[0]];
    let sb = seq![b_shape[1], b_shape[0]];
    assert(operated_shape(sa, Operation::NoTranspose) == sa);
    assert(operated_shape(sb, Operation::NoTranspose) == sb);
    if operation_a != Operation::NoTranspose {
        assert(operated_shape(a_shape, operation_a) =~= sa);
    }
    if operation_b != Operation::NoTranspose {
        assert(operated_shape(b_shape, operation_b) =~= sb);
    }
    let a = operated_shape(a_shape, operation_a);
    let b = operated_shape(b_shape, operation_b);
    if sddmm_outcome(rows, columns, nnz, operation_a, a_shape, a_compatible, operation_b, b_shape, b_compatible, limits) is Ok {
        assert(a == seq![rows, a[1]]);
        assert(a[0] == rows);
        assert(b == seq![a[1], columns]);
        assert(b[0] == a[1] && b[1] == columns);
    }
}

/// The row offsets that present `vector` as a one-row CSR matrix: the base,
/// then the entry count encoded with the base. That matrix passes every CSR
/// check.
pub fn vector_row_offsets<V>(vector: SparseVector<'_, V>) -> (r: Result<[u32; 2], SparseError>)
    ensures
        vector@.values.len() > u32::MAX ==> r == Err::<[u32; 2], SparseError>(SparseError::DimensionTooLarge("SpVV nnz")),
        vector@.values.len() <= u32::MAX && vector@.values.len() + base_of(vector@.base) > u32::MAX ==> r == Err::<
            [u32; 2],
            SparseError,
        >(SparseError::SizeOverflow("SpVV index range")),
        vector@.values.len() + base_of(vector@.base) <= u32::MAX ==> (r matches Ok(offsets) && offsets@ == seq![
            base_of(vector@.base),
            (vector@.values.len() + base_of(vector@.base)) as u32,
        ] && csr_error(
            1,
            vector@.size,
            offsets@,
            vector@.indices,
            vector@.values.len(),
            vector@.base,
        ) is None),
{
    proof {
        use_type_invariant(&vector);
    }
    let base = vector.index_base().value();
    let count = dimension(vector.nnz(), "SpVV nnz")?;
    let end = match count.checked_add(base) {
        Some(end) => end,
        None => return Err(SparseError::SizeOverflow("SpVV index range")),
    };
    let offsets = [base, end];
    proof {
        assert(offsets@ =~= seq![base, end]);
        assert(nondecreasing(offsets@));
    }
    Ok(offsets)
}


/// Every entry of row `r` in `lo..hi` that densification writes is kept by
/// the backward scan.
proof fn lemma_written_desc_complete<V>(m: CsrView<V>, r: int, hi: int, lo: int, e: int)
    requires
        lo <= e < hi,
        last_in_row(m, r, e),
    ensures
        exists|i: int| 0 <= i < written_desc(m, r, hi, lo).len() && written_desc(m, r, hi, lo)[i] == (r, e),
    decreases hi - lo,
{
    let w = written_desc(m, r, hi, lo);
    let rest = written_desc(m, r, hi, lo + 1);
    if e == lo {
        assert(w[rest.len() as int] == (r, e));
    } else {
        lemma_written_desc_complete(m, r, hi, lo + 1, e);
        let i = choose|i: int| 0 <= i < rest.len() && rest[i] == (r, e);
        assert(w[i] == rest[i]);
    }
}

/// Every entry of the first `n` rows that densification writes is planned.
proof fn lemma_written_entries_complete<V>(m: CsrView<V>, n: int, r: int, e: int)
    requires
        m.valid(),
        0 <= r < n <= m.rows,
        m.entry_in_row(r, e),
        last_in_row(m, r, e),
    ensures
        exists|i: int| 0 <= i < written_entries(m, n).len() && written_entries(m, n)[i] == (r, e),
    decreases n,
{
    let b = base_of(m.base);
    let prev = written_entries(m, n - 1);
    let w = written_entries(m, n);
    assert(w == prev + written_desc(m, n - 1, m.row_offsets[n] - b, m.row_offsets[n - 1] - b));
    if r < n - 1 {
        lemma_written_entries_complete(m, n - 1, r, e);
        let i = choose|i: int| 0 <= i < prev.len() && prev[i] == (r, e);
        assert(w[i] == prev[i]);
    } else {
        lemma_written_desc_complete(m, n - 1, m.row_offsets[n] - b, m.row_offsets[n - 1] - b, e);
        let desc = written_desc(m, n - 1, m.row_offsets[n] - b, m.row_offsets[n - 1] - b);
        let i = choose|i: int| 0 <= i < desc.len() && desc[i] == (r, e);
        assert(w[prev.len() + i] == desc[i]);
    }
}

/// When the `e`-th write targets `p` and no later one does, its value stays.
proof fn lemma_last_write_last<V>(targets: spec_fn(int) -> int, values: Seq<V>, fill: V, n: int, p: int, e: int)
    requires
        0 <= e < n,
        targets(e) == p,
        forall|e2: int| e < e2 < n ==> #[trigger] targets(e2) != p,
    ensures
        last_write(targets, values, fill, n, p) == values[e],
    decreases n,
{
    if n - 1 > e {
        lemma_last_write_last(targets, values, fill, n - 1, p, e);
    }
}

/// Among the writes before `n` that target `p`, one of which is the `e`-th,
/// the last one.
proof fn lemma_last_target(targets: spec_fn(int) -> int, n: int, p: int, e: int) -> (last: int)
    requires
        0 <= e < n,
        targets(e) == p,
    ensures
        e <= last < n,
        targets(last) == p,
        forall|e2: int| last < e2 < n ==> #[trigger] targets(e2) != p,
    decreases n,
{
    if targets(n - 1) == p {
        n - 1
    } else {
        lemma_last_target(targets, n - 1, p, e)
    }
}

/// The dense position a planned entry `w` (row, entry) is written to.
pub open spec fn written_position<V>(m: CsrView<V>, order: DenseOrder, w: (int, int)) -> int {
    dense_offset(m.rows as int, m.columns as int, order, w.0, m.column_indices[w.1] - base_of(m.base))
}

/// The device scatter that `dense_scatter_plan` lists densifies exactly as
/// writing every entry in storage order does: a position written by some
/// planned entry gets that entry's value, which is the value of the last
/// entry densified there; a position no planned entry writes keeps the fill,
/// and no entry is densified there.
pub proof fn law_scatter_plan_densifies<V>(m: CsrView<V>, order: DenseOrder, fill: V, p: int)
    requires
        m.valid(),
    ensures
        forall|i: int|
            0 <= i < written_entries(m, m.rows as int).len() && written_position(
                m,
                order,
                #[trigger] written_entries(m, m.rows as int)[i],
            ) == p ==> last_write(
                |e: int| csr_target(m, order, e),
                m.values,
                fill,
                m.values.len() as int,
                p,
            ) == m.values[written_entries(m, m.rows as int)[i].1],
        (forall|i: int|
            0 <= i < written_entries(m, m.rows as int).len() ==> written_position(
                m,
                order,
                #[trigger] written_entries(m, m.rows as int)[i],
            ) != p) ==> last_write(|e: int| csr_target(m, order, e), m.values, fill, m.values.len() as int, p)
            == fill,
{
    let w = written_entries(m, m.rows as int);
    let targets = |e: int| csr_target(m, order, e);
    let n = m.values.len() as int;
    let b = base_of(m.base);
    lemma_written_entries(m, m.rows as int);
    assert forall|i: int| 0 <= i < w.len() && written_position(m, order, #[trigger] w[i]) == p implies last_write(
        targets,
        m.values,
        fill,
        n,
        p,
    ) == m.values[w[i].1] by {
        let (r, e) = w[i];
        assert(m.entry_in_row(r, e) && last_in_row(m, r, e));
        crate::host::lemma_row_of_entry(m, r, e);
        assert(targets(e) == p);
        crate::host::law_backward_follows_densify(m, order, r, e);
        assert forall|e2: int| e < e2 < n implies #[trigger] targets(e2) != p by {
            assert(csr_target(m, order, e2) != csr_target(m, order, e));
        }
        lemma_last_write_last(targets, m.values, fill, n, p, e);
    }
    if forall|i: int| 0 <= i < w.len() ==> written_position(m, order, #[trigger] w[i]) != p {
        assert forall|e: int| 0 <= e < n implies #[trigger] targets(e) != p by {
            if targets(e) == p {
                let last = lemma_last_target(targets, n, p, e);
                let r = crate::pattern::lemma_segment_of(m.row_offsets, b, m.column_indices.len(), last);
                assert(m.entry_in_row(r, last));
                crate::host::lemma_row_of_entry(m, r, last);
                crate::host::law_backward_follows_densify(m, order, r, last);
                assert forall|e2: int| last < e2 < m.column_indices.len() implies #[trigger] csr_target(m, order, e2)
                    != csr_target(m, order, last) by {
                    assert(targets(e2) != p);
                }
                lemma_written_entries_complete(m, m.rows as int, r, last);
                let i = choose|i: int| 0 <= i < w.len() && w[i] == (r, last);
                assert(written_position(m, order, w[i]) == p);
            }
        }
        crate::roundtrip::lemma_last_write_none(targets, m.values, fill, n, p);
    }
}

} // verus!
