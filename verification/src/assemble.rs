//! Row-by-row assembly of CSR arrays, as the format conversions build them.
//!
//! A conversion visits the output rows in order. Each row contributes a list
//! of entries, each a column (or an already encoded column index) and the
//! storage position its value comes from. Columns are encoded with the index
//! base as they are visited, and after each row the running entry count is
//! encoded as the next row offset. The first encoding that does not fit a
//! `u32` decides the error.

use vstd::prelude::*;
use crate::SparseError;

verus! {

/// How the column of a visited entry becomes a stored index.
pub enum Encoding {
    /// The column is stored as given; it is already encoded.
    Encoded,
    /// The column must fit a `u32`, and so must the column plus the base;
    /// either failure is an error named by the string.
    Checked(&'static str),
    /// The column must fit a `u32` (else an error named by the string); the
    /// column plus the base is not checked and must not overflow.
    Unchecked(&'static str),
}

/// State of an assembly: still building, stopped by an error, or stopped by an
/// arithmetic overflow that the conversion does not guard against.
pub enum Assembly {
    Building { offsets: Seq<u32>, indices: Seq<u32>, sources: Seq<int> },
    Failed(SparseError),
    Overflowed,
}

/// The state before the first row: one offset equal to the base.
pub open spec fn start(base: u32) -> Assembly {
    Assembly::Building { offsets: seq![base], indices: Seq::empty(), sources: Seq::empty() }
}

/// Visits one entry.
pub open spec fn step_entry(s: Assembly, entry: (int, int), base: u32, encoding: Encoding) -> Assembly {
    match s {
        Assembly::Building { offsets, indices, sources } => {
            let column = entry.0;
            match encoding {
                Encoding::Encoded => Assembly::Building {
                    offsets,
                    indices: indices.push(column as u32),
                    sources: sources.push(entry.1),
                },
                Encoding::Checked(name) => if column > u32::MAX {
                    Assembly::Failed(SparseError::DimensionTooLarge(name))
                } else if column + base > u32::MAX {
                    Assembly::Failed(SparseError::SizeOverflow(name))
                } else {
                    Assembly::Building {
                        offsets,
                        indices: indices.push((column + base) as u32),
                        sources: sources.push(entry.1),
                    }
                },
                Encoding::Unchecked(name) => if column > u32::MAX {
                    Assembly::Failed(SparseError::DimensionTooLarge(name))
                } else if column + base > u32::MAX {
                    Assembly::Overflowed
                } else {
                    Assembly::Building {
                        offsets,
                        indices: indices.push((column + base) as u32),
                        sources: sources.push(entry.1),
                    }
                },
            }
        },
        _ => s,
    }
}

/// Closes a row: the running entry count, plus the base, becomes its end offset.
pub open spec fn end_row(s: Assembly, base: u32, count_name: &'static str, offset_name: &'static str) -> Assembly {
    match s {
        Assembly::Building { offsets, indices, sources } => if indices.len() > u32::MAX {
            Assembly::Failed(SparseError::DimensionTooLarge(count_name))
        } else if indices.len() + base > u32::MAX {
            Assembly::Failed(SparseError::SizeOverflow(offset_name))
        } else {
            Assembly::Building {
                offsets: offsets.push((indices.len() + base) as u32),
                indices,
                sources,
            }
        },
        _ => s,
    }
}

/// Visits the entries in order.
pub open spec fn visit(s: Assembly, entries: Seq<(int, int)>, base: u32, encoding: Encoding) -> Assembly
    decreases entries.len(),
{
    if entries.len() == 0 {
        s
    } else {
        step_entry(visit(s, entries.drop_last(), base, encoding), entries.last(), base, encoding)
    }
}

/// Visits the rows in order, closing each.
pub open spec fn visit_rows(
    s: Assembly,
    rows: Seq<Seq<(int, int)>>,
    base: u32,
    encoding: Encoding,
    count_name: &'static str,
    offset_name: &'static str,
) -> Assembly
    decreases rows.len(),
{
    if rows.len() == 0 {
        s
    } else {
        end_row(
            visit(
                visit_rows(s, rows.drop_last(), base, encoding, count_name, offset_name),
                rows.last(),
                base,
                encoding,
            ),
            base,
            count_name,
            offset_name,
        )
    }
}

/// The whole assembly of `rows`.
pub open spec fn assemble(
    rows: Seq<Seq<(int, int)>>,
    base: u32,
    encoding: Encoding,
    count_name: &'static str,
    offset_name: &'static str,
) -> Assembly {
    visit_rows(start(base), rows, base, encoding, count_name, offset_name)
}

/// The shape every building state reached from `start` has.
pub open spec fn well_built(s: Assembly, base: u32, rows: nat) -> bool {
    match s {
        Assembly::Building { offsets, indices, sources } => {
            &&& offsets.len() == rows + 1
            &&& offsets[0] == base
            &&& forall|i: int, j: int|
                0 <= i <= j < offsets.len() ==> #[trigger] offsets[i] <= #[trigger] offsets[j]
            &&& offsets.last() <= base + indices.len()
            &&& indices.len() == sources.len()
        },
        _ => true,
    }
}

pub proof fn lemma_visit_stopped(s: Assembly, entries: Seq<(int, int)>, base: u32, encoding: Encoding)
    requires
        !(s is Building),
    ensures
        visit(s, entries, base, encoding) == s,
    decreases entries.len(),
{
    if entries.len() > 0 {
        lemma_visit_stopped(s, entries.drop_last(), base, encoding);
    }
}

pub proof fn lemma_visit_rows_stopped(
    s: Assembly,
    rows: Seq<Seq<(int, int)>>,
    base: u32,
    encoding: Encoding,
    count_name: &'static str,
    offset_name: &'static str,
)
    requires
        !(s is Building),
    ensures
        visit_rows(s, rows, base, encoding, count_name, offset_name) == s,
    decreases rows.len(),
{
    if rows.len() > 0 {
        lemma_visit_rows_stopped(s, rows.drop_last(), base, encoding, count_name, offset_name);
        lemma_visit_stopped(
            visit_rows(s, rows.drop_last(), base, encoding, count_name, offset_name),
            rows.last(),
            base,
            encoding,
        );
    }
}

pub proof fn lemma_visit_concat(
    s: Assembly,
    a: Seq<(int, int)>,
    c: Seq<(int, int)>,
    base: u32,
    encoding: Encoding,
)
    ensures
        visit(s, a + c, base, encoding) == visit(visit(s, a, base, encoding), c, base, encoding),
    decreases c.len(),
{
    if c.len() == 0 {
        assert(a + c =~= a);
    } else {
        assert((a + c).drop_last() =~= a + c.drop_last());
        assert((a + c).last() == c.last());
        lemma_visit_concat(s, a, c.drop_last(), base, encoding);
    }
}

pub proof fn lemma_visit_rows_concat(
    s: Assembly,
    a: Seq<Seq<(int, int)>>,
    c: Seq<Seq<(int, int)>>,
    base: u32,
    encoding: Encoding,
    count_name: &'static str,
    offset_name: &'static str,
)
    ensures
        visit_rows(s, a + c, base, encoding, count_name, offset_name) == visit_rows(
            visit_rows(s, a, base, encoding, count_name, offset_name),
            c,
            base,
            encoding,
            count_name,
            offset_name,
        ),
    decreases c.len(),
{
    if c.len() == 0 {
        assert(a + c =~= a);
    } else {
        assert((a + c).drop_last() =~= a + c.drop_last());
        assert((a + c).last() == c.last());
        lemma_visit_rows_concat(s, a, c.drop_last(), base, encoding, count_name, offset_name);
    }
}

/// Once a prefix of the rows, possibly followed by a prefix of the next
/// row's entries, has stopped the assembly, the whole assembly stops there.
pub proof fn lemma_stopped_early(
    rows: Seq<Seq<(int, int)>>,
    r: int,
    k: int,
    base: u32,
    encoding: Encoding,
    count_name: &'static str,
    offset_name: &'static str,
)
    requires
        0 <= r < rows.len(),
        0 <= k <= rows[r].len(),
        !(visit(
            visit_rows(start(base), rows.take(r), base, encoding, count_name, offset_name),
            rows[r].take(k),
            base,
            encoding,
        ) is Building),
    ensures
        assemble(rows, base, encoding, count_name, offset_name) == visit(
            visit_rows(start(base), rows.take(r), base, encoding, count_name, offset_name),
            rows[r].take(k),
            base,
            encoding,
        ),
{
    let before = visit_rows(start(base), rows.take(r), base, encoding, count_name, offset_name);
    let stopped = visit(before, rows[r].take(k), base, encoding);
    lemma_visit_concat(before, rows[r].take(k), rows[r].skip(k), base, encoding);
    assert(rows[r].take(k) + rows[r].skip(k) =~= rows[r]);
    lemma_visit_stopped(stopped, rows[r].skip(k), base, encoding);
    lemma_closed_rows_stopped(rows, r, base, encoding, count_name, offset_name);
}

/// A row whose visit stopped the assembly stops it for good.
pub proof fn lemma_closed_rows_stopped(
    rows: Seq<Seq<(int, int)>>,
    r: int,
    base: u32,
    encoding: Encoding,
    count_name: &'static str,
    offset_name: &'static str,
)
    requires
        0 <= r < rows.len(),
        !(end_row(
            visit(
                visit_rows(start(base), rows.take(r), base, encoding, count_name, offset_name),
                rows[r],
                base,
                encoding,
            ),
            base,
            count_name,
            offset_name,
        ) is Building),
    ensures
        assemble(rows, base, encoding, count_name, offset_name) == end_row(
            visit(
                visit_rows(start(base), rows.take(r), base, encoding, count_name, offset_name),
                rows[r],
                base,
                encoding,
            ),
            base,
            count_name,
            offset_name,
        ),
{
    let through = visit_rows(start(base), rows.take(r + 1), base, encoding, count_name, offset_name);
    assert(rows.take(r + 1).drop_last() =~= rows.take(r));
    assert(rows.take(r + 1).last() == rows[r]);
    lemma_visit_rows_concat(
        start(base),
        rows.take(r + 1),
        rows.skip(r + 1),
        base,
        encoding,
        count_name,
        offset_name,
    );
    assert(rows.take(r + 1) + rows.skip(r + 1) =~= rows);
    lemma_visit_rows_stopped(through, rows.skip(r + 1), base, encoding, count_name, offset_name);
}

pub proof fn lemma_visit_well_built(
    s: Assembly,
    entries: Seq<(int, int)>,
    base: u32,
    encoding: Encoding,
    rows: nat,
)
    requires
        well_built(s, base, rows),
    ensures
        well_built(visit(s, entries, base, encoding), base, rows),
    decreases entries.len(),
{
    if entries.len() > 0 {
        lemma_visit_well_built(s, entries.drop_last(), base, encoding, rows);
    }
}

pub proof fn lemma_end_row_well_built(
    s: Assembly,
    base: u32,
    count_name: &'static str,
    offset_name: &'static str,
    rows: nat,
)
    requires
        well_built(s, base, rows),
    ensures
        well_built(end_row(s, base, count_name, offset_name), base, rows + 1),
        end_row(s, base, count_name, offset_name) matches Assembly::Building { offsets, indices, .. }
            ==> offsets.last() == base + indices.len(),
{
}

pub proof fn lemma_assemble_well_built(
    rows: Seq<Seq<(int, int)>>,
    base: u32,
    encoding: Encoding,
    count_name: &'static str,
    offset_name: &'static str,
)
    ensures
        well_built(
            visit_rows(start(base), rows, base, encoding, count_name, offset_name),
            base,
            rows.len(),
        ),
        visit_rows(start(base), rows, base, encoding, count_name, offset_name) matches Assembly::Building {
            offsets,
            indices,
            ..
        } ==> offsets.last() == base + indices.len(),
    decreases rows.len(),
{
    if rows.len() > 0 {
        lemma_assemble_well_built(rows.drop_last(), base, encoding, count_name, offset_name);
        let s = visit_rows(start(base), rows.drop_last(), base, encoding, count_name, offset_name);
        lemma_visit_well_built(s, rows.last(), base, encoding, (rows.len() - 1) as nat);
        lemma_end_row_well_built(
            visit(s, rows.last(), base, encoding),
            base,
            count_name,
            offset_name,
            (rows.len() - 1) as nat,
        );
    }
}

/// Only an unchecked encoding can overflow.
pub proof fn lemma_checked_never_overflows(
    rows: Seq<Seq<(int, int)>>,
    base: u32,
    encoding: Encoding,
    count_name: &'static str,
    offset_name: &'static str,
)
    requires
        !(encoding is Unchecked),
    ensures
        !(assemble(rows, base, encoding, count_name, offset_name) is Overflowed),
{
    lemma_rows_never_overflow(start(base), rows, base, encoding, count_name, offset_name);
}

proof fn lemma_rows_never_overflow(
    s: Assembly,
    rows: Seq<Seq<(int, int)>>,
    base: u32,
    encoding: Encoding,
    count_name: &'static str,
    offset_name: &'static str,
)
    requires
        !(encoding is Unchecked),
        !(s is Overflowed),
    ensures
        !(visit_rows(s, rows, base, encoding, count_name, offset_name) is Overflowed),
    decreases rows.len(),
{
    if rows.len() > 0 {
        lemma_rows_never_overflow(s, rows.drop_last(), base, encoding, count_name, offset_name);
        lemma_entries_never_overflow(
            visit_rows(s, rows.drop_last(), base, encoding, count_name, offset_name),
            rows.last(),
            base,
            encoding,
        );
    }
}

proof fn lemma_entries_never_overflow(s: Assembly, entries: Seq<(int, int)>, base: u32, encoding: Encoding)
    requires
        !(encoding is Unchecked),
        !(s is Overflowed),
    ensures
        !(visit(s, entries, base, encoding) is Overflowed),
    decreases entries.len(),
{
    if entries.len() > 0 {
        lemma_entries_never_overflow(s, entries.drop_last(), base, encoding);
    }
}

} // verus!
