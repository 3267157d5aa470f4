//! Symbolic phases of sparse addition and multiplication: the output pattern
//! (each row the sorted set of columns that can be nonzero) and where each
//! input entry lands in it.

use vstd::prelude::*;
use crate::assemble::{
    assemble, end_row, lemma_closed_rows_stopped, lemma_visit_stopped, start, visit, visit_rows,
    Assembly, Encoding,
};
use crate::csr::CsrView;
use crate::pattern::{in_segment, indices_in_range, nondecreasing};
use crate::{base_of, dimension, CsrMatrix, IndexBase, SparseError};

verus! {

/// `s` is strictly increasing.
pub open spec fn sorted_strict(s: Seq<u32>) -> bool {
    forall|i: int, j: int| 0 <= i < j < s.len() ==> #[trigger] s[i] < #[trigger] s[j]
}

/// Number of elements of `s` below `x`.
pub open spec fn count_less(s: Seq<u32>, x: u32) -> nat
    decreases s.len(),
{
    if s.len() == 0 {
        0
    } else {
        count_less(s.drop_last(), x) + if s.last() < x {
            1nat
        } else {
            0nat
        }
    }
}

/// `x` added to the sorted set `s`, keeping it sorted.
pub open spec fn insert_sorted(s: Seq<u32>, x: u32) -> Seq<u32> {
    if s.contains(x) {
        s
    } else {
        s.insert(count_less(s, x) as int, x)
    }
}

/// The sorted set of `xs`, added to `s` one after another.
pub open spec fn insert_all(s: Seq<u32>, xs: Seq<u32>) -> Seq<u32>
    decreases xs.len(),
{
    if xs.len() == 0 {
        s
    } else {
        insert_sorted(insert_all(s, xs.drop_last()), xs.last())
    }
}

proof fn lemma_count_less_sorted(s: Seq<u32>, x: u32, p: int)
    requires
        sorted_strict(s),
        0 <= p <= s.len(),
        forall|i: int| 0 <= i < p ==> #[trigger] s[i] < x,
        forall|i: int| p <= i < s.len() ==> #[trigger] s[i] >= x,
    ensures
        count_less(s, x) == p,
    decreases s.len(),
{
    if s.len() > 0 {
        if p == s.len() {
            lemma_count_less_sorted(s.drop_last(), x, p - 1);
        } else {
            lemma_count_less_sorted(s.drop_last(), x, p);
        }
    }
}

/// Inserting keeps the sequence a strictly sorted set, and adds exactly `x`.
pub proof fn lemma_insert_sorted(s: Seq<u32>, x: u32)
    requires
        sorted_strict(s),
    ensures
        sorted_strict(insert_sorted(s, x)),
        insert_sorted(s, x).to_set() == s.to_set().insert(x),
{
    if !s.contains(x) {
        let p = choose_position(s, x);
        lemma_count_less_sorted(s, x, p);
        let t = s.insert(p, x);
        assert forall|i: int, j: int| 0 <= i < j < t.len() implies #[trigger] t[i] < #[trigger] t[j] by {
            if j < p {
            } else if j == p {
                assert(t[i] == s[i]);
            } else if i < p {
                assert(t[j] == s[j - 1]);
            } else if i == p {
                assert(t[j] == s[j - 1]);
            } else {
                assert(t[i] == s[i - 1] && t[j] == s[j - 1]);
            }
        }
        assert forall|y: u32| t.to_set().contains(y) <==> s.to_set().insert(x).contains(y) by {
            if t.contains(y) {
                let k = choose|k: int| 0 <= k < t.len() && t[k] == y;
                if k < p {
                    assert(s[k] == y);
                } else if k > p {
                    assert(s[k - 1] == y);
                }
            }
            if s.contains(y) {
                let k = choose|k: int| 0 <= k < s.len() && s[k] == y;
                if k < p {
                    assert(t[k] == y);
                } else {
                    assert(t[k + 1] == y);
                }
            }
            if y == x {
                assert(t[p] == x);
            }
        }
        assert(t.to_set() =~= s.to_set().insert(x));
    } else {
        assert(s.to_set().insert(x) =~= s.to_set());
    }
}

/// The position at which `x` belongs in the sorted sequence `s`.
proof fn choose_position(s: Seq<u32>, x: u32) -> (p: int)
    requires
        sorted_strict(s),
    ensures
        0 <= p <= s.len(),
        forall|i: int| 0 <= i < p ==> #[trigger] s[i] < x,
        forall|i: int| p <= i < s.len() ==> #[trigger] s[i] >= x,
    decreases s.len(),
{
    if s.len() == 0 {
        0
    } else if s.last() < x {
        s.len() as int
    } else {
        let p = choose_position(s.drop_last(), x);
        assert forall|i: int| p <= i < s.len() implies #[trigger] s[i] >= x by {
            if i < s.len() - 1 {
                assert(s.drop_last()[i] == s[i]);
            }
        }
        assert forall|i: int| 0 <= i < p implies #[trigger] s[i] < x by {
            assert(s.drop_last()[i] == s[i]);
        }
        p
    }
}

/// `insert_all` builds the strictly sorted set of what it is given.
pub proof fn lemma_insert_all(s: Seq<u32>, xs: Seq<u32>)
    requires
        sorted_strict(s),
    ensures
        sorted_strict(insert_all(s, xs)),
        insert_all(s, xs).to_set() == s.to_set() + xs.to_set(),
    decreases xs.len(),
{
    if xs.len() == 0 {
        assert(xs.to_set() =~= Set::empty());
        assert(s.to_set() + xs.to_set() =~= s.to_set());
    } else {
        lemma_insert_all(s, xs.drop_last());
        lemma_insert_sorted(insert_all(s, xs.drop_last()), xs.last());
        assert(xs.to_set() =~= xs.drop_last().to_set().insert(xs.last())) by {
            assert forall|y: u32| xs.to_set().contains(y) <==> xs.drop_last().to_set().insert(
                xs.last(),
            ).contains(y) by {
                if xs.contains(y) {
                    let k = choose|k: int| 0 <= k < xs.len() && xs[k] == y;
                    if k < xs.len() - 1 {
                        assert(xs.drop_last()[k] == y);
                    }
                }
                if xs.drop_last().contains(y) {
                    let k = choose|k: int| 0 <= k < xs.drop_last().len() && xs.drop_last()[k] == y;
                    assert(xs[k] == y);
                }
            }
        }
        assert(insert_all(s, xs).to_set() =~= s.to_set() + xs.to_set());
    }
}

/// Adds `x` to the strictly sorted vector `v` unless it is already there;
/// tells whether it was added.
pub(crate) fn sorted_insert(v: &mut Vec<u32>, x: u32) -> (added: bool)
    requires
        sorted_strict(old(v)@),
    ensures
        final(v)@ == insert_sorted(old(v)@, x),
        added == !old(v)@.contains(x),
{
    let mut low: usize = 0;
    let mut high: usize = v.len();
    while low < high
        invariant
            0 <= low <= high <= v.len(),
            sorted_strict(v@),
            forall|i: int| 0 <= i < low ==> #[trigger] v@[i] < x,
            forall|i: int| high <= i < v.len() ==> #[trigger] v@[i] >= x,
        decreases high - low,
    {
        let middle = low + (high - low) / 2;
        if v[middle] < x {
            low = middle + 1;
        } else {
            high = middle;
        }
    }
    proof {
        lemma_count_less_sorted(v@, x, low as int);
    }
    if low < v.len() && v[low] == x {
        assert(v@.contains(x));
        return false;
    }
    assert(!v@.contains(x)) by {
        if v@.contains(x) {
            let k = choose|k: int| 0 <= k < v@.len() && v@[k] == x;
            if k < low {
            } else if k > low {
                assert(v@[low as int] < v@[k]);
            }
        }
    }
    v.insert(low, x);
    true
}

/// Column of an entry, moved from index base `from` to index base `to`.
pub open spec fn rebase(column: u32, from: u32, to: u32) -> u32 {
    (column - from + to) as u32
}

/// The rebased columns of the entries of segment `r`.
pub open spec fn segment_columns(m: CsrView<()>, r: int, to: u32) -> Seq<u32> {
    let b = base_of(m.base);
    m.column_indices.subrange(m.row_offsets[r] - b, m.row_offsets[r + 1] - b).map_values(
        |c: u32| rebase(c, b, to),
    )
}

/// Row `r` of `a + b`: the sorted set of the columns of row `r` of either.
pub open spec fn sum_row(a: CsrView<()>, b: CsrView<()>, r: int) -> Seq<u32> {
    let out = base_of(a.base);
    insert_all(insert_all(Seq::empty(), segment_columns(a, r, out)), segment_columns(b, r, out))
}

/// Columns reachable from the first `k - first` entries of row `r` of `a`
/// (entries `first..k`), through the rows of `b` they select.
pub open spec fn product_candidates(a: CsrView<()>, b: CsrView<()>, first: int, k: int) -> Seq<u32>
    decreases k - first,
{
    if k <= first {
        Seq::empty()
    } else {
        product_candidates(a, b, first, k - 1) + segment_columns(
            b,
            a.column_indices[k - 1] - base_of(a.base),
            base_of(a.base),
        )
    }
}

/// Row `r` of `a * b`: the sorted set of columns of the rows of `b` selected
/// by the columns of row `r` of `a`.
pub open spec fn product_row(a: CsrView<()>, b: CsrView<()>, r: int) -> Seq<u32> {
    let ab = base_of(a.base);
    insert_all(
        Seq::empty(),
        product_candidates(a, b, a.row_offsets[r] - ab, a.row_offsets[r + 1] - ab),
    )
}

/// Per-row column lists as the entries of an assembly.
pub open spec fn as_entries(rows: Seq<Seq<u32>>) -> Seq<Seq<(int, int)>> {
    rows.map_values(|row: Seq<u32>| row.map_values(|c: u32| (c as int, 0int)))
}

pub open spec fn sum_rows(a: CsrView<()>, b: CsrView<()>) -> Seq<Seq<u32>> {
    Seq::new(a.rows as nat, |r: int| sum_row(a, b, r))
}

pub open spec fn product_rows(a: CsrView<()>, b: CsrView<()>) -> Seq<Seq<u32>> {
    Seq::new(a.rows as nat, |r: int| product_row(a, b, r))
}

/// A CSR sparsity pattern: the shape and index arrays of a valid matrix,
/// without its values.
#[derive(Debug)]
pub struct CsrPattern<'a> {
    rows: usize,
    columns: usize,
    row_offsets: &'a [u32],
    column_indices: &'a [u32],
    index_base: IndexBase,
}

impl<'a> Clone for CsrPattern<'a> {
    fn clone(&self) -> (r: Self)
        ensures
            r@ == self@,
    {
        *self
    }
}

impl<'a> Copy for CsrPattern<'a> {

}

/// The pattern of a CSR matrix: the same matrix with every value replaced by `()`.
pub open spec fn pattern_of<V>(m: CsrView<V>) -> CsrView<()> {
    CsrView {
        rows: m.rows,
        columns: m.columns,
        base: m.base,
        row_offsets: m.row_offsets,
        column_indices: m.column_indices,
        values: Seq::new(m.values.len(), |i: int| ()),
    }
}

impl<'a> View for CsrPattern<'a> {
    type V = CsrView<()>;

    closed spec fn view(&self) -> CsrView<()> {
        CsrView {
            rows: self.rows,
            columns: self.columns,
            base: self.index_base,
            row_offsets: self.row_offsets@,
            column_indices: self.column_indices@,
            values: Seq::new(self.column_indices@.len(), |i: int| ()),
        }
    }
}

impl<'a> CsrPattern<'a> {
    #[verifier::type_invariant]
    pub open spec fn well_formed(&self) -> bool {
        self@.valid()
    }

    /// The pattern of a matrix.
    pub fn from_matrix<V>(matrix: CsrMatrix<'a, V>) -> (r: Self)
        ensures
            r@ == pattern_of(matrix@),
    {
        proof {
            use_type_invariant(&matrix);
        }
        CsrPattern {
            rows: matrix.rows(),
            columns: matrix.columns(),
            row_offsets: matrix.row_offsets(),
            column_indices: matrix.column_indices(),
            index_base: matrix.index_base(),
        }
    }

    pub fn rows(&self) -> (r: usize)
        ensures
            r == self@.rows,
    {
        self.rows
    }

    pub fn index_base(&self) -> (r: IndexBase)
        ensures
            r == self@.base,
    {
        self.index_base
    }

    pub fn row_offsets(&self) -> (r: &'a [u32])
        ensures
            r@ == self@.row_offsets,
    {
        self.row_offsets
    }

    pub fn column_indices(&self) -> (r: &'a [u32])
        ensures
            r@ == self@.column_indices,
    {
        self.column_indices
    }
}

/// The pattern of a sparse sum or product.
pub struct SymbolicOutput {
    pub row_offsets: Vec<u32>,
    pub column_indices: Vec<u32>,
    pub entry_rows: Vec<u32>,
}

/// `out` is what assembling `rows` with base `base` gives, with each entry's
/// row recorded; or `r` is the error the assembly stops with.
pub open spec fn symbolic_outcome(
    r: Result<SymbolicOutput, SparseError>,
    rows: Seq<Seq<u32>>,
    base: u32,
    count_name: &'static str,
    offset_name: &'static str,
) -> bool {
    match assemble(as_entries(rows), base, Encoding::Encoded, count_name, offset_name) {
        Assembly::Building { offsets, indices, .. } => r matches Ok(out) && out.row_offsets@
            == offsets && out.column_indices@ == indices && out.entry_rows@.len() == indices.len()
            && forall|row: int, t: int|
            #![trigger in_segment(offsets, base, row, t)]
            0 <= row < rows.len() && in_segment(offsets, base, row, t) ==> out.entry_rows@[t] == row,
        Assembly::Failed(e) => r == Err::<SymbolicOutput, SparseError>(e),
        Assembly::Overflowed => false,
    }
}


/// Bounds of row `r`'s segment in a valid matrix.
pub(crate) proof fn lemma_segment_bounds<V>(m: CsrView<V>, r: int)
    requires
        m.valid(),
        0 <= r < m.rows,
    ensures
        base_of(m.base) <= m.row_offsets[r] <= m.row_offsets[r + 1] <= base_of(m.base) + m.column_indices.len(),
{
    let o = m.row_offsets;
    assert(o[0] <= o[r]);
    assert(o[r] <= o[r + 1]);
    assert(o[r + 1] <= o[m.rows as int]);
}

/// `insert_all` over a concatenation is `insert_all` over each part in turn.
proof fn lemma_insert_all_concat(s: Seq<u32>, xs: Seq<u32>, ys: Seq<u32>)
    ensures
        insert_all(s, xs + ys) == insert_all(insert_all(s, xs), ys),
    decreases ys.len(),
{
    if ys.len() == 0 {
        assert(xs + ys =~= xs);
    } else {
        assert((xs + ys).drop_last() =~= xs + ys.drop_last());
        assert((xs + ys).last() == ys.last());
        lemma_insert_all_concat(s, xs, ys.drop_last());
    }
}

/// Adding the next element of `xs` to `insert_all(s, xs.take(k))`.
proof fn lemma_insert_all_step(s: Seq<u32>, xs: Seq<u32>, k: int)
    requires
        0 <= k < xs.len(),
    ensures
        insert_all(s, xs.take(k + 1)) == insert_sorted(insert_all(s, xs.take(k)), xs[k]),
{
    assert(xs.take(k + 1).drop_last() =~= xs.take(k));
}

/// Visiting already encoded columns appends them, each from position 0.
pub(crate) proof fn lemma_visit_encoded(offsets: Seq<u32>, indices: Seq<u32>, sources: Seq<int>, row: Seq<u32>, base: u32)
    ensures
        visit(
            Assembly::Building { offsets, indices, sources },
            row.map_values(|c: u32| (c as int, 0int)),
            base,
            Encoding::Encoded,
        ) == (Assembly::Building {
            offsets,
            indices: indices + row,
            sources: sources + Seq::new(row.len(), |i: int| 0int),
        }),
    decreases row.len(),
{
    let entries = row.map_values(|c: u32| (c as int, 0int));
    if row.len() == 0 {
        assert(indices + row =~= indices);
        assert(sources + Seq::new(row.len(), |i: int| 0int) =~= sources);
    } else {
        assert(entries.drop_last() =~= row.drop_last().map_values(|c: u32| (c as int, 0int)));
        lemma_visit_encoded(offsets, indices, sources, row.drop_last(), base);
        assert((indices + row.drop_last()).push(row.last()) =~= indices + row);
        assert((sources + Seq::new((row.len() - 1) as nat, |i: int| 0int)).push(0int) =~= sources
            + Seq::new(row.len(), |i: int| 0int));
    }
}

/// Appends the columns of one output row, each recorded as coming from `row`.
fn append_row(columns: &Vec<u32>, row: u32, column_indices: &mut Vec<u32>, entry_rows: &mut Vec<u32>)
    ensures
        final(column_indices)@ == old(column_indices)@ + columns@,
        final(entry_rows)@ == old(entry_rows)@ + Seq::new(columns@.len(), |i: int| row),
{
    let ghost indices0 = column_indices@;
    let ghost rows0 = entry_rows@;
    let mut k: usize = 0;
    while k < columns.len()
        invariant
            k <= columns@.len(),
            column_indices@ == indices0 + columns@.take(k as int),
            entry_rows@ == rows0 + Seq::new(k as nat, |i: int| row),
        decreases columns@.len() - k,
    {
        column_indices.push(columns[k]);
        entry_rows.push(row);
        proof {
            assert(columns@.take(k + 1) =~= columns@.take(k as int).push(columns@[k as int]));
            assert(Seq::new((k + 1) as nat, |i: int| row) =~= Seq::new(k as nat, |i: int| row).push(row));
        }
        k = k + 1;
    }
    proof {
        assert(columns@.take(k as int) =~= columns@);
    }
}

/// Closes an output row: appends the running entry count, encoded with the
/// base, as the row's end offset.
fn close_row(
    row_offsets: &mut Vec<u32>,
    count: usize,
    base: u32,
    count_name: &'static str,
    offset_name: &'static str,
) -> (r: Result<(), SparseError>)
    ensures
        count > u32::MAX ==> r == Err::<(), SparseError>(SparseError::DimensionTooLarge(count_name))
            && final(row_offsets)@ == old(row_offsets)@,
        count <= u32::MAX && count + base > u32::MAX ==> r == Err::<(), SparseError>(
            SparseError::SizeOverflow(offset_name),
        ) && final(row_offsets)@ == old(row_offsets)@,
        count + base <= u32::MAX ==> r is Ok && final(row_offsets)@ == old(row_offsets)@.push(
            (count + base) as u32,
        ),
{
    let count = dimension(count, count_name)?;
    match count.checked_add(base) {
        Some(offset) => {
            row_offsets.push(offset);
            Ok(())
        },
        None => Err(SparseError::SizeOverflow(offset_name)),
    }
}

/// Invariant of the row loops of the symbolic phases: the arrays built so
/// far are the assembly of the first `row` rows, and each entry records its row.
pub open spec fn built_rows(
    rows: Seq<Seq<u32>>,
    row: int,
    base: u32,
    count_name: &'static str,
    offset_name: &'static str,
    row_offsets: Seq<u32>,
    column_indices: Seq<u32>,
    entry_rows: Seq<u32>,
    sources: Seq<int>,
) -> bool {
    &&& visit_rows(start(base), as_entries(rows).take(row), base, Encoding::Encoded, count_name, offset_name)
        == (Assembly::Building { offsets: row_offsets, indices: column_indices, sources })
    &&& row_offsets.len() == row + 1
    &&& row_offsets[0] == base
    &&& nondecreasing(row_offsets)
    &&& row_offsets.last() == base + column_indices.len()
    &&& entry_rows.len() == column_indices.len()
    &&& forall|r: int, t: int|
        #![trigger in_segment(row_offsets, base, r, t)]
        0 <= r < row && in_segment(row_offsets, base, r, t) ==> entry_rows[t] == r
}

/// One more row, appended and closed, keeps `built_rows`; or closing it fails
/// and the assembly stops with that error.
proof fn lemma_built_row_step(
    rows: Seq<Seq<u32>>,
    row: int,
    base: u32,
    count_name: &'static str,
    offset_name: &'static str,
    row_offsets: Seq<u32>,
    column_indices: Seq<u32>,
    entry_rows: Seq<u32>,
    sources: Seq<int>,
)
    requires
        0 <= row < rows.len(),
        row <= u32::MAX,
        built_rows(rows, row, base, count_name, offset_name, row_offsets, column_indices, entry_rows, sources),
    ensures
        ({
            let indices = column_indices + rows[row];
            let erows = entry_rows + Seq::new(rows[row].len(), |i: int| row as u32);
            let srcs = sources + Seq::new(rows[row].len(), |i: int| 0int);
            let closed = end_row(
                Assembly::Building { offsets: row_offsets, indices, sources: srcs },
                base,
                count_name,
                offset_name,
            );
            &&& closed == end_row(
                visit(
                    visit_rows(start(base), as_entries(rows).take(row), base, Encoding::Encoded, count_name, offset_name),
                    as_entries(rows)[row],
                    base,
                    Encoding::Encoded,
                ),
                base,
                count_name,
                offset_name,
            )
            &&& indices.len() + base <= u32::MAX ==> built_rows(
                rows,
                row + 1,
                base,
                count_name,
                offset_name,
                row_offsets.push((indices.len() + base) as u32),
                indices,
                erows,
                srcs,
            )
        }),
{
    let indices = column_indices + rows[row];
    let erows = entry_rows + Seq::new(rows[row].len(), |i: int| row as u32);
    let srcs = sources + Seq::new(rows[row].len(), |i: int| 0int);
    let all = as_entries(rows);
    assert(all[row] == rows[row].map_values(|c: u32| (c as int, 0int)));
    lemma_visit_encoded(row_offsets, column_indices, sources, rows[row], base);
    if indices.len() + base <= u32::MAX {
        let offsets = row_offsets.push((indices.len() + base) as u32);
        assert(all.take(row + 1).drop_last() =~= all.take(row));
        assert(all.take(row + 1).last() == all[row]);
        assert forall|i: int, j: int| 0 <= i <= j < offsets.len() implies #[trigger] offsets[i]
            <= #[trigger] offsets[j] by {
            if j < offsets.len() - 1 {
                assert(row_offsets[i] <= row_offsets[j]);
            } else if i < j {
                assert(row_offsets[i] <= row_offsets[row]);
                assert(offsets[j] == indices.len() + base);
            }
        }
        assert forall|r: int, t: int|
            #![trigger in_segment(offsets, base, r, t)]
            0 <= r < row + 1 && in_segment(offsets, base, r, t) implies erows[t] == r by {
            if r < row {
                assert(offsets[r] == row_offsets[r]);
                assert(offsets[r + 1] == row_offsets[r + 1]);
                assert(row_offsets[r + 1] <= row_offsets[row]);
                assert(in_segment(row_offsets, base, r, t));
                assert(t < column_indices.len());
                assert(erows[t] == entry_rows[t]);
            } else {
                assert(offsets[r] == row_offsets[row]);
                assert(t >= column_indices.len());
                assert(erows[t] == Seq::new(rows[row].len(), |i: int| row as u32)[t - entry_rows.len()]);
            }
        }
    }
}

/// Sorted sets of the rebased columns of segment `r` of `m`, taken one at a
/// time, added to `columns`.
fn insert_segment(columns: &mut Vec<u32>, m: CsrPattern<'_>, r: usize, out: u32)
    requires
        0 <= r < m@.rows,
        out <= 1,
        sorted_strict(old(columns)@),
    ensures
        final(columns)@ == insert_all(old(columns)@, segment_columns(m@, r as int, out)),
        sorted_strict(final(columns)@),
{
    proof {
        use_type_invariant(&m);
        lemma_segment_bounds(m@, r as int);
    }
    let base = m.index_base.value();
    let first = (m.row_offsets[r] - base) as usize;
    let last = (m.row_offsets[r + 1] - base) as usize;
    let ghost start_columns = columns@;
    let ghost seg = segment_columns(m@, r as int, out);
    let mut entry = first;
    while entry < last
        invariant
            m@.valid(),
            base == base_of(m@.base),
            first <= entry <= last <= m@.column_indices.len(),
            first == m@.row_offsets[r as int] - base,
            last == m@.row_offsets[r + 1] - base,
            seg == segment_columns(m@, r as int, out),
            seg.len() == last - first,
            columns@ == insert_all(start_columns, seg.take(entry - first)),
            sorted_strict(start_columns),
            sorted_strict(columns@),
            out <= 1,
        decreases last - entry,
    {
        let column = m.column_indices[entry];
        proof {
            assert(indices_in_range(m@.column_indices, base, m@.columns as nat));
            assert(base <= column < base + m@.columns);
            assert(seg[entry - first] == rebase(column, base, out));
            lemma_insert_all_step(start_columns, seg, entry - first);
        }
        let moved = column - base + out;
        sorted_insert(columns, moved);
        proof {
            lemma_insert_all(start_columns, seg.take(entry - first + 1));
        }
        entry = entry + 1;
    }
    proof {
        assert(seg.take(last - first) =~= seg);
    }
}


/// The sparsity pattern of `a + b`: row `r` is the sorted set of the columns
/// of row `r` of either operand, moved to `a`'s index base.
#[verifier::rlimit(50)]
pub fn symbolic_sum(a: CsrPattern<'_>, b: CsrPattern<'_>) -> (r: Result<SymbolicOutput, SparseError>)
    requires
        a@.rows <= b@.rows,
    ensures
        symbolic_outcome(r, sum_rows(a@, b@), base_of(a@.base), "SpGEAM output nnz", "SpGEAM row offsets"),
{
    proof {
        use_type_invariant(&a);
        use_type_invariant(&b);
    }
    let output_base = a.index_base.value();
    let rows = a.rows;
    let ghost all = sum_rows(a@, b@);
    let ghost count_name = "SpGEAM output nnz";
    let ghost offset_name = "SpGEAM row offsets";
    let mut row_offsets: Vec<u32> = Vec::new();
    let mut column_indices: Vec<u32> = Vec::new();
    let mut entry_rows: Vec<u32> = Vec::new();
    let ghost mut sources: Seq<int> = Seq::empty();
    row_offsets.push(output_base);
    proof {
        assert(as_entries(all).take(0) =~= Seq::<Seq<(int, int)>>::empty());
    }
    let mut row: usize = 0;
    while row < rows
        invariant
            a@.valid(),
            b@.valid(),
            rows == a@.rows,
            a@.rows <= b@.rows,
            output_base == base_of(a@.base),
            all == sum_rows(a@, b@),
            count_name == "SpGEAM output nnz",
            offset_name == "SpGEAM row offsets",
            row <= rows,
            built_rows(
                all,
                row as int,
                output_base,
                count_name,
                offset_name,
                row_offsets@,
                column_indices@,
                entry_rows@,
                sources,
            ),
        decreases rows - row,
    {
        let mut columns: Vec<u32> = Vec::new();
        insert_segment(&mut columns, a, row, output_base);
        insert_segment(&mut columns, b, row, output_base);
        proof {
            assert(columns@ == all[row as int]);
            lemma_built_row_step(
                all,
                row as int,
                output_base,
                count_name,
                offset_name,
                row_offsets@,
                column_indices@,
                entry_rows@,
                sources,
            );
        }
        append_row(&columns, row as u32, &mut column_indices, &mut entry_rows);
        proof {
            sources = sources + Seq::new(columns@.len(), |i: int| 0int);
        }
        match close_row(&mut row_offsets, column_indices.len(), output_base, "SpGEAM output nnz", "SpGEAM row offsets") {
            Ok(()) => {},
            Err(e) => {
                proof {
                    lemma_closed_rows_stopped(as_entries(all), row as int, output_base, Encoding::Encoded, count_name, offset_name);
                }
                return Err(e);
            },
        }
        row = row + 1;
    }
    proof {
        assert(as_entries(all).take(rows as int) =~= as_entries(all));
    }
    Ok(SymbolicOutput { row_offsets, column_indices, entry_rows })
}


/// Every stored column of `a` selects one of the first `rows` rows.
pub open spec fn selects_rows(a: CsrView<()>, rows: nat) -> bool {
    forall|e: int| 0 <= e < a.column_indices.len() ==> #[trigger] a.column_indices[e] - base_of(a.base) < rows
}

/// The columns of row `row` of `a * b`, as a strictly sorted vector.
fn product_row_columns(a: CsrPattern<'_>, b: CsrPattern<'_>, row: usize, out: u32) -> (columns: Vec<u32>)
    requires
        row < a@.rows,
        selects_rows(a@, b@.rows as nat),
        out == base_of(a@.base),
    ensures
        columns@ == product_row(a@, b@, row as int),
{
    proof {
        use_type_invariant(&a);
        lemma_segment_bounds(a@, row as int);
    }
    let a_base = a.index_base.value();
    let first = (a.row_offsets[row] - a_base) as usize;
    let last = (a.row_offsets[row + 1] - a_base) as usize;
    let mut columns: Vec<u32> = Vec::new();
    let mut entry = first;
    while entry < last
        invariant
            a@.valid(),
            selects_rows(a@, b@.rows as nat),
            a_base == base_of(a@.base),
            out == a_base,
            first <= entry <= last <= a@.column_indices.len(),
            first == a@.row_offsets[row as int] - a_base,
            last == a@.row_offsets[row + 1] - a_base,
            columns@ == insert_all(Seq::empty(), product_candidates(a@, b@, first as int, entry as int)),
            sorted_strict(columns@),
        decreases last - entry,
    {
        let column = a.column_indices[entry];
        proof {
            assert(indices_in_range(a@.column_indices, a_base, a@.columns as nat));
            assert(a_base <= column);
            assert(column - a_base < b@.rows);
        }
        let inner = (column - a_base) as usize;
        insert_segment(&mut columns, b, inner, out);
        proof {
            lemma_insert_all_concat(
                Seq::empty(),
                product_candidates(a@, b@, first as int, entry as int),
                segment_columns(b@, inner as int, out),
            );
        }
        entry = entry + 1;
    }
    columns
}

/// The sparsity pattern of `a * b`: row `r` is the sorted set of the columns
/// of the rows of `b` that the columns of row `r` of `a` select, moved to
/// `a`'s index base.
#[verifier::rlimit(50)]
pub fn symbolic_product(a: CsrPattern<'_>, b: CsrPattern<'_>) -> (r: Result<SymbolicOutput, SparseError>)
    requires
        selects_rows(a@, b@.rows as nat),
    ensures
        symbolic_outcome(r, product_rows(a@, b@), base_of(a@.base), "SpGEMM output nnz", "SpGEMM row offsets"),
{
    proof {
        use_type_invariant(&a);
        use_type_invariant(&b);
    }
    let output_base = a.index_base.value();
    let rows = a.rows;
    let ghost all = product_rows(a@, b@);
    let ghost count_name = "SpGEMM output nnz";
    let ghost offset_name = "SpGEMM row offsets";
    let mut row_offsets: Vec<u32> = Vec::new();
    let mut column_indices: Vec<u32> = Vec::new();
    let mut entry_rows: Vec<u32> = Vec::new();
    let ghost mut sources: Seq<int> = Seq::empty();
    row_offsets.push(output_base);
    proof {
        assert(as_entries(all).take(0) =~= Seq::<Seq<(int, int)>>::empty());
    }
    let mut row: usize = 0;
    while row < rows
        invariant
            a@.valid(),
            b@.valid(),
            rows == a@.rows,
            selects_rows(a@, b@.rows as nat),
            output_base == base_of(a@.base),
            all == product_rows(a@, b@),
            count_name == "SpGEMM output nnz",
            offset_name == "SpGEMM row offsets",
            row <= rows,
            built_rows(
                all,
                row as int,
                output_base,
                count_name,
                offset_name,
                row_offsets@,
                column_indices@,
                entry_rows@,
                sources,
            ),
        decreases rows - row,
    {
        let columns = product_row_columns(a, b, row, output_base);
        proof {
            assert(columns@ == all[row as int]);
            lemma_built_row_step(
                all,
                row as int,
                output_base,
                count_name,
                offset_name,
                row_offsets@,
                column_indices@,
                entry_rows@,
                sources,
            );
        }
        append_row(&columns, row as u32, &mut column_indices, &mut entry_rows);
        proof {
            sources = sources + Seq::new(columns@.len(), |i: int| 0int);
        }
        match close_row(&mut row_offsets, column_indices.len(), output_base, "SpGEMM output nnz", "SpGEMM row offsets") {
            Ok(()) => {},
            Err(e) => {
                proof {
                    lemma_closed_rows_stopped(as_entries(all), row as int, output_base, Encoding::Encoded, count_name, offset_name);
                }
                return Err(e);
            },
        }
        row = row + 1;
    }
    proof {
        assert(as_entries(all).take(rows as int) =~= as_entries(all));
    }
    Ok(SymbolicOutput { row_offsets, column_indices, entry_rows })
}


/// Row `r` of a pattern given by `offsets` and `indices` with index base
/// `base` is a strictly sorted segment of `indices`.
pub open spec fn row_sorted(offsets: Seq<u32>, indices: Seq<u32>, base: u32, r: int) -> bool {
    &&& base <= offsets[r] <= offsets[r + 1] <= base + indices.len()
    &&& sorted_strict(indices.subrange(offsets[r] - base, offsets[r + 1] - base))
}

/// The first `rows` rows of a pattern are strictly sorted segments.
pub open spec fn sorted_rows(offsets: Seq<u32>, indices: Seq<u32>, base: u32, rows: nat) -> bool {
    &&& offsets.len() > rows
    &&& forall|r: int| 0 <= r < rows ==> #[trigger] row_sorted(offsets, indices, base, r)
}

/// Entry `e` of `source`, stored in row `r`, finds its column (moved to index
/// base `base`) at position `p` of row `r` of the pattern.
pub open spec fn lands_at(source: CsrView<()>, offsets: Seq<u32>, indices: Seq<u32>, base: u32, r: int, e: int, p: int) -> bool {
    &&& in_segment(offsets, base, r, p)
    &&& indices[p] == rebase(source.column_indices[e], base_of(source.base), base)
}

/// Every entry of `source` finds its column in the same row of the pattern.
pub open spec fn all_found(source: CsrView<()>, offsets: Seq<u32>, indices: Seq<u32>, base: u32) -> bool {
    forall|r: int, e: int|
        #![trigger source.entry_in_row(r, e)]
        source.entry_in_row(r, e) ==> exists|p: int| lands_at(source, offsets, indices, base, r, e, p)
}

/// Position of `x` in the strictly sorted range `[first, last)` of `indices`.
pub(crate) fn find_in_range(indices: &Vec<u32>, first: usize, last: usize, x: u32) -> (r: Option<usize>)
    requires
        first <= last <= indices@.len(),
        sorted_strict(indices@.subrange(first as int, last as int)),
    ensures
        r matches Some(p) ==> first <= p < last && indices@[p as int] == x,
        r is None ==> forall|p: int| first <= p < last ==> indices@[p] != x,
{
    let ghost seg = indices@.subrange(first as int, last as int);
    let mut low = first;
    let mut high = last;
    while low < high
        invariant
            first <= low <= high <= last <= indices@.len(),
            seg == indices@.subrange(first as int, last as int),
            sorted_strict(seg),
            forall|p: int| first <= p < low ==> #[trigger] indices@[p] < x,
            forall|p: int| high <= p < last ==> #[trigger] indices@[p] > x,
        decreases high - low,
    {
        let middle = low + (high - low) / 2;
        let value = indices[middle];
        if value == x {
            return Some(middle);
        } else if value < x {
            proof {
                assert forall|p: int| first <= p < middle + 1 implies #[trigger] indices@[p] < x by {
                    if p < middle {
                        assert(seg[p - first] < seg[middle - first]);
                    }
                }
            }
            low = middle + 1;
        } else {
            proof {
                assert forall|p: int| middle <= p < last implies #[trigger] indices@[p] > x by {
                    if p > middle {
                        assert(seg[middle - first] < seg[p - first]);
                    }
                }
            }
            high = middle;
        }
    }
    None
}

/// Where each entry of `source` lands in an output pattern whose rows hold
/// its columns: for entry `e` of row `r`, the position in the output's column
/// indices of `e`'s column, moved to `output_base`. Fails with
/// `InvalidColumnIndex` when some entry's column is missing from its row.
/// Each row is searched by bisection, so the output's rows must be strictly
/// sorted, as `symbolic_sum` builds them.
pub fn sum_entry_mapping(source: CsrPattern<'_>, output: &SymbolicOutput, output_base: IndexBase) -> (r:
    Result<Vec<u32>, SparseError>)
    requires
        sorted_rows(output.row_offsets@, output.column_indices@, base_of(output_base), source@.rows as nat),
    ensures
        r is Ok <==> all_found(source@, output.row_offsets@, output.column_indices@, base_of(output_base)),
        r is Err ==> r == Err::<Vec<u32>, SparseError>(SparseError::InvalidColumnIndex),
        r matches Ok(mapping) ==> mapping@.len() == source@.column_indices.len() && forall|row: int, e: int|
            #![trigger source@.entry_in_row(row, e)]
            source@.entry_in_row(row, e) ==> lands_at(
                source@,
                output.row_offsets@,
                output.column_indices@,
                base_of(output_base),
                row,
                e,
                mapping@[e] as int,
            ),
{
    proof {
        use_type_invariant(&source);
    }
    let ghost src = source@;
    let ghost offsets = output.row_offsets@;
    let ghost indices = output.column_indices@;
    let base = source.index_base.value();
    let out = output_base.value();
    let nnz = source.column_indices.len();
    let mut mapping: Vec<u32> = Vec::new();
    while mapping.len() < nnz
        invariant
            mapping@.len() <= nnz,
        decreases nnz - mapping@.len(),
    {
        mapping.push(0);
    }
    let rows = source.rows;
    let mut row: usize = 0;
    while row < rows
        invariant
            src == source@,
            src.valid(),
            rows == src.rows,
            nnz == src.column_indices.len(),
            base == base_of(src.base),
            out == base_of(output_base),
            offsets == output.row_offsets@,
            indices == output.column_indices@,
            sorted_rows(offsets, indices, out, rows as nat),
            row <= rows,
            mapping@.len() == nnz,
            forall|r: int, e: int|
                #![trigger src.entry_in_row(r, e)]
                src.entry_in_row(r, e) && r < row ==> lands_at(src, offsets, indices, out, r, e, mapping@[e] as int),
        decreases rows - row,
    {
        proof {
            lemma_segment_bounds(src, row as int);
            assert(row_sorted(offsets, indices, out, row as int));
        }
        let first = (output.row_offsets[row] - out) as usize;
        let last = (output.row_offsets[row + 1] - out) as usize;
        let entry_first = (source.row_offsets[row] - base) as usize;
        let entry_last = (source.row_offsets[row + 1] - base) as usize;
        let mut entry = entry_first;
        while entry < entry_last
            invariant
                src == source@,
                src.valid(),
                rows == src.rows,
                nnz == src.column_indices.len(),
                base == base_of(src.base),
                out == base_of(output_base),
                out <= 1,
                offsets == output.row_offsets@,
                indices == output.column_indices@,
                sorted_rows(offsets, indices, out, rows as nat),
                row < rows,
                first == offsets[row as int] - out,
                last == offsets[row + 1] - out,
                first <= last <= indices.len(),
                entry_first == src.row_offsets[row as int] - base,
                entry_last == src.row_offsets[row + 1] - base,
                entry_first <= entry <= entry_last <= nnz,
                mapping@.len() == nnz,
                forall|r: int, e: int|
                    #![trigger src.entry_in_row(r, e)]
                    src.entry_in_row(r, e) && (r < row || (r == row && e < entry)) ==> lands_at(
                        src,
                        offsets,
                        indices,
                        out,
                        r,
                        e,
                        mapping@[e] as int,
                    ),
            decreases entry_last - entry,
        {
            let column = source.column_indices[entry];
            proof {
                assert(indices_in_range(src.column_indices, base, src.columns as nat));
                assert(base <= column < base + src.columns);
            }
            let moved = column - base + out;
            proof {
                assert(row_sorted(offsets, indices, out, row as int));
            }
            match find_in_range(&output.column_indices, first, last, moved) {
                Some(position) => {
                    proof {
                        assert(offsets[row + 1] <= u32::MAX);
                    }
                    let ghost before = mapping@;
                    mapping.set(entry, position as u32);
                    proof {
                        assert(lands_at(src, offsets, indices, out, row as int, entry as int, position as int));
                        assert forall|r: int, e: int|
                            #![trigger src.entry_in_row(r, e)]
                            src.entry_in_row(r, e) && (r < row || (r == row && e < entry + 1)) implies lands_at(
                                src,
                                offsets,
                                indices,
                                out,
                                r,
                                e,
                                mapping@[e] as int,
                            ) by {
                            if e != entry {
                                assert(mapping@[e] == before[e]);
                            }
                        }
                    }
                },
                None => {
                    proof {
                        assert(src.entry_in_row(row as int, entry as int));
                        assert(!exists|p: int| lands_at(src, offsets, indices, out, row as int, entry as int, p));
                    }
                    return Err(SparseError::InvalidColumnIndex);
                },
            }
            entry = entry + 1;
        }
        proof {
            assert forall|r: int, e: int|
                #![trigger src.entry_in_row(r, e)]
                src.entry_in_row(r, e) && r < row + 1 implies lands_at(src, offsets, indices, out, r, e, mapping@[e] as int) by {
                if r == row {
                    assert(e < entry);
                }
            }
        }
        row = row + 1;
    }
    Ok(mapping)
}


/// Row `r` of `rows` is laid out in `indices` between the offsets of row `r`.
pub open spec fn row_laid_out(offsets: Seq<u32>, indices: Seq<u32>, base: u32, rows: Seq<Seq<u32>>, r: int) -> bool {
    &&& base <= offsets[r] <= offsets[r + 1] <= base + indices.len()
    &&& indices.subrange(offsets[r] - base, offsets[r + 1] - base) == rows[r]
}

/// An assembly of already encoded rows that does not stop lays the rows out
/// one after another.
pub proof fn lemma_encoded_layout(rows: Seq<Seq<u32>>, base: u32, count_name: &'static str, offset_name: &'static str)
    ensures
        visit_rows(start(base), as_entries(rows), base, Encoding::Encoded, count_name, offset_name) matches Assembly::Building {
            offsets,
            indices,
            ..
        } ==> {
            &&& offsets.len() == rows.len() + 1
            &&& offsets.last() == base + indices.len()
            &&& forall|r: int| 0 <= r < rows.len() ==> #[trigger] row_laid_out(offsets, indices, base, rows, r)
        },
    decreases rows.len(),
{
    let enc = Encoding::Encoded;
    let s = visit_rows(start(base), as_entries(rows), base, enc, count_name, offset_name);
    if rows.len() == 0 {
    } else if s is Building {
        let pre = rows.drop_last();
        assert(as_entries(rows).drop_last() =~= as_entries(pre));
        let before = visit_rows(start(base), as_entries(pre), base, enc, count_name, offset_name);
        if !(before is Building) {
            lemma_visit_stopped(before, as_entries(rows).last(), base, enc);
            assert(false);
        }
        lemma_encoded_layout(pre, base, count_name, offset_name);
        let (offsets0, indices0, sources0) = match before {
            Assembly::Building { offsets, indices, sources } => (offsets, indices, sources),
            _ => (Seq::empty(), Seq::empty(), Seq::empty()),
        };
        assert(as_entries(rows).last() == rows.last().map_values(|c: u32| (c as int, 0int)));
        lemma_visit_encoded(offsets0, indices0, sources0, rows.last(), base);
        let indices = indices0 + rows.last();
        let offsets = offsets0.push((indices.len() + base) as u32);
        assert(s == (Assembly::Building {
            offsets,
            indices,
            sources: sources0 + Seq::new(rows.last().len(), |i: int| 0int),
        }));
        assert forall|r: int| 0 <= r < rows.len() implies #[trigger] row_laid_out(offsets, indices, base, rows, r) by {
            if r < rows.len() - 1 {
                assert(row_laid_out(offsets0, indices0, base, pre, r));
                assert(indices.subrange(offsets[r] - base, offsets[r + 1] - base) =~= indices0.subrange(
                    offsets0[r] - base,
                    offsets0[r + 1] - base,
                ));
            } else {
                assert(indices.subrange(offsets[r] - base, offsets[r + 1] - base) =~= rows.last());
            }
        }
    }
}


/// An entry of row `r` of `m` has its moved column among the row's columns.
proof fn lemma_entry_in_segment_columns(m: CsrView<()>, r: int, e: int, to: u32)
    requires
        m.valid(),
        m.entry_in_row(r, e),
    ensures
        segment_columns(m, r, to).to_set().contains(rebase(m.column_indices[e], base_of(m.base), to)),
{
    lemma_segment_bounds(m, r);
    let b = base_of(m.base);
    let seg = segment_columns(m, r, to);
    let k = e - (m.row_offsets[r] - b);
    assert(seg[k] == rebase(m.column_indices[e], b, to));
    assert(seg.contains(seg[k]));
}

/// A row laid out between its offsets and holding `c` puts `c` at some
/// position of that row.
pub(crate) proof fn lemma_found_in_row(offsets: Seq<u32>, indices: Seq<u32>, base: u32, rows: Seq<Seq<u32>>, r: int, c: u32) -> (p: int)
    requires
        row_laid_out(offsets, indices, base, rows, r),
        rows[r].to_set().contains(c),
    ensures
        in_segment(offsets, base, r, p),
        indices[p] == c,
{
    let k = choose|k: int| 0 <= k < rows[r].len() && rows[r][k] == c;
    let p = offsets[r] - base + k;
    assert(indices.subrange(offsets[r] - base, offsets[r + 1] - base)[k] == indices[p]);
    p
}

/// Each row of the pattern of `a + b` is strictly sorted and holds the
/// column of every entry of that row of `a` and of `b`: mapping either
/// operand into the pattern that `symbolic_sum` builds succeeds.
pub proof fn law_sum_pattern_covers_operands(a: CsrView<()>, b: CsrView<()>, out: SymbolicOutput)
    requires
        a.valid(),
        b.valid(),
        a.rows == b.rows,
        symbolic_outcome(Ok(out), sum_rows(a, b), base_of(a.base), "SpGEAM output nnz", "SpGEAM row offsets"),
    ensures
        sorted_rows(out.row_offsets@, out.column_indices@, base_of(a.base), a.rows as nat),
        all_found(a, out.row_offsets@, out.column_indices@, base_of(a.base)),
        all_found(b, out.row_offsets@, out.column_indices@, base_of(a.base)),
{
    let base = base_of(a.base);
    let rows = sum_rows(a, b);
    let offsets = out.row_offsets@;
    let indices = out.column_indices@;
    lemma_encoded_layout(rows, base, "SpGEAM output nnz", "SpGEAM row offsets");
    assert forall|r: int| 0 <= r < a.rows implies row_laid_out(offsets, indices, base, rows, r)
        && rows[r].to_set() == segment_columns(a, r, base).to_set() + segment_columns(b, r, base).to_set()
        && #[trigger] row_sorted(offsets, indices, base, r) by {
        assert(row_laid_out(offsets, indices, base, rows, r));
        lemma_insert_all(Seq::empty(), segment_columns(a, r, base));
        lemma_insert_all(insert_all(Seq::empty(), segment_columns(a, r, base)), segment_columns(b, r, base));
        assert(Seq::<u32>::empty().to_set() + segment_columns(a, r, base).to_set() =~= segment_columns(a, r, base).to_set());
    }
    assert forall|r: int, e: int| #![trigger a.entry_in_row(r, e)] a.entry_in_row(r, e) implies exists|p: int|
        lands_at(a, offsets, indices, base, r, e, p) by {
        assert(row_sorted(offsets, indices, base, r));
        lemma_entry_in_segment_columns(a, r, e, base);
        let p = lemma_found_in_row(offsets, indices, base, rows, r, rebase(a.column_indices[e], base, base));
        assert(lands_at(a, offsets, indices, base, r, e, p));
    }
    assert forall|r: int, e: int| #![trigger b.entry_in_row(r, e)] b.entry_in_row(r, e) implies exists|p: int|
        lands_at(b, offsets, indices, base, r, e, p) by {
        assert(row_sorted(offsets, indices, base, r));
        lemma_entry_in_segment_columns(b, r, e, base);
        let p = lemma_found_in_row(
            offsets,
            indices,
            base,
            rows,
            r,
            rebase(b.column_indices[e], base_of(b.base), base),
        );
        assert(lands_at(b, offsets, indices, base, r, e, p));
    }
}


/// The moved columns of row `i` of `m` are those of its entries.
proof fn lemma_segment_columns_contains(m: CsrView<()>, i: int, to: u32, c: u32)
    requires
        m.valid(),
        0 <= i < m.rows,
    ensures
        segment_columns(m, i, to).contains(c) <==> exists|e: int|
            m.entry_in_row(i, e) && c == rebase(m.column_indices[e], base_of(m.base), to),
{
    lemma_segment_bounds(m, i);
    let b = base_of(m.base);
    let seg = segment_columns(m, i, to);
    let first = m.row_offsets[i] - b;
    if seg.contains(c) {
        let k = choose|k: int| 0 <= k < seg.len() && seg[k] == c;
        assert(m.entry_in_row(i, first + k));
    }
    if exists|e: int| m.entry_in_row(i, e) && c == rebase(m.column_indices[e], b, to) {
        let e = choose|e: int| m.entry_in_row(i, e) && c == rebase(m.column_indices[e], b, to);
        assert(seg[e - first] == c);
    }
}

/// The candidates of entries `first..k` hold exactly the moved columns of the
/// rows of `b` those entries select.
proof fn lemma_candidates_contain(a: CsrView<()>, b: CsrView<()>, first: int, k: int, c: u32)
    ensures
        product_candidates(a, b, first, k).contains(c) <==> exists|j: int|
            first <= j < k && #[trigger] segment_columns(
                b,
                a.column_indices[j] - base_of(a.base),
                base_of(a.base),
            ).contains(c),
    decreases k - first,
{
    let ab = base_of(a.base);
    if k > first {
        lemma_candidates_contain(a, b, first, k - 1, c);
        let prev = product_candidates(a, b, first, k - 1);
        let seg = segment_columns(b, a.column_indices[k - 1] - ab, ab);
        assert(product_candidates(a, b, first, k) == prev + seg);
        if (prev + seg).contains(c) {
            let t = choose|t: int| 0 <= t < (prev + seg).len() && (prev + seg)[t] == c;
            if t < prev.len() {
                assert(prev[t] == c);
            } else {
                assert(seg[t - prev.len()] == c);
            }
        }
        if prev.contains(c) {
            let t = choose|t: int| 0 <= t < prev.len() && prev[t] == c;
            assert((prev + seg)[t] == c);
        }
        if seg.contains(c) {
            let t = choose|t: int| 0 <= t < seg.len() && seg[t] == c;
            assert((prev + seg)[prev.len() + t] == c);
        }
    }
}

/// Row `r` of the pattern of `a * b` is strictly sorted and holds exactly the
/// columns (moved to `a`'s index base) of the entries of the rows of `b` that
/// the entries of row `r` of `a` select.
pub proof fn law_product_row_columns(a: CsrView<()>, b: CsrView<()>, r: int)
    requires
        a.valid(),
        b.valid(),
        selects_rows(a, b.rows as nat),
        0 <= r < a.rows,
    ensures
        sorted_strict(product_row(a, b, r)),
        forall|c: u32| #[trigger] product_row(a, b, r).contains(c) <==> exists|k: int, e: int|
            a.entry_in_row(r, k) && b.entry_in_row(a.column_indices[k] - base_of(a.base), e) && c == rebase(
                b.column_indices[e],
                base_of(b.base),
                base_of(a.base),
            ),
{
    let ab = base_of(a.base);
    lemma_segment_bounds(a, r);
    let first = a.row_offsets[r] - ab;
    let last = a.row_offsets[r + 1] - ab;
    let cand = product_candidates(a, b, first, last);
    lemma_insert_all(Seq::empty(), cand);
    assert(Seq::<u32>::empty().to_set() + cand.to_set() =~= cand.to_set());
    assert forall|c: u32| #[trigger] product_row(a, b, r).contains(c) <==> exists|k: int, e: int|
        a.entry_in_row(r, k) && b.entry_in_row(a.column_indices[k] - ab, e) && c == rebase(
            b.column_indices[e],
            base_of(b.base),
            ab,
        ) by {
        assert(product_row(a, b, r).to_set().contains(c) <==> product_row(a, b, r).contains(c));
        assert(cand.to_set().contains(c) <==> cand.contains(c));
        lemma_candidates_contain(a, b, first, last, c);
        if cand.contains(c) {
            let j = choose|j: int| first <= j < last && #[trigger] segment_columns(b, a.column_indices[j] - ab, ab).contains(c);
            assert(indices_in_range(a.column_indices, ab, a.columns as nat));
            assert(a.column_indices[j] - ab < b.rows);
            lemma_segment_columns_contains(b, a.column_indices[j] - ab, ab, c);
            assert(a.entry_in_row(r, j));
        }
        if exists|k: int, e: int| a.entry_in_row(r, k) && b.entry_in_row(a.column_indices[k] - ab, e) && c == rebase(
            b.column_indices[e],
            base_of(b.base),
            ab,
        ) {
            let (k, e) = choose|k: int, e: int| a.entry_in_row(r, k) && b.entry_in_row(a.column_indices[k] - ab, e) && c
                == rebase(b.column_indices[e], base_of(b.base), ab);
            lemma_segment_columns_contains(b, a.column_indices[k] - ab, ab, c);
            assert(segment_columns(b, a.column_indices[k] - ab, ab).contains(c));
        }
    }
}

} // verus!
