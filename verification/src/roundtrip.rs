//! Densifying what the dense-to-CSR, dense-to-COO and dense-to-CSC
//! conversions built gives the dense matrix back: every stored element where
//! it was, the default value everywhere else.

use vstd::prelude::*;
use crate::assemble::{assemble, end_row, lemma_visit_stopped, start, step_entry, visit, visit_rows, Assembly, Encoding};
use crate::conversion::{
    coo_dense_result, coo_entry_error, coo_target, csc_dense_result, csc_target, csr_dense_result, csr_row_of,
    csr_target, dense_column_entries, dense_coo_entries, dense_coo_row, dense_csc_columns, dense_csr_rows,
    dense_row_entries, first_coo_error, is_default, last_write, lemma_dense_column_step, lemma_dense_row_step,
};
use crate::csr::CsrView;
use crate::dense::{dense_offset, lemma_dense_offset, DenseView};
use crate::formats::{pick_values, CooView, CscView};
use crate::{base_of, DenseOrder, IndexBase};

verus! {

/// Entries of row `r` of the assembled arrays: `offsets` delimits a segment
/// of `indices` and `sources` that holds the columns of `row`, encoded with
/// `base`, and their storage positions, in order.
pub open spec fn entries_laid_out(
    offsets: Seq<u32>,
    indices: Seq<u32>,
    sources: Seq<int>,
    base: u32,
    row: Seq<(int, int)>,
    r: int,
) -> bool {
    &&& base <= offsets[r] <= offsets[r + 1] <= base + indices.len()
    &&& offsets[r + 1] - offsets[r] == row.len()
    &&& forall|k: int| 0 <= k < row.len() ==> #[trigger] indices[offsets[r] - base + k] == row[k].0 + base
    &&& forall|k: int| 0 <= k < row.len() ==> #[trigger] sources[offsets[r] - base + k] == row[k].1
}

/// Visiting entries with checked encoding without stopping appends each
/// column plus the base, and each storage position.
proof fn lemma_visit_checked(
    offsets: Seq<u32>,
    indices: Seq<u32>,
    sources: Seq<int>,
    entries: Seq<(int, int)>,
    base: u32,
    name: &'static str,
)
    requires
        indices.len() == sources.len(),
        forall|k: int| 0 <= k < entries.len() ==> (#[trigger] entries[k]).0 >= 0,
    ensures
        visit(Assembly::Building { offsets, indices, sources }, entries, base, Encoding::Checked(name)) matches Assembly::Building {
            offsets: o2,
            indices: i2,
            sources: s2,
        } ==> {
            &&& o2 == offsets
            &&& i2.len() == indices.len() + entries.len()
            &&& s2.len() == i2.len()
            &&& forall|j: int| 0 <= j < indices.len() ==> #[trigger] i2[j] == indices[j] && s2[j] == sources[j]
            &&& forall|k: int| 0 <= k < entries.len() ==> #[trigger] i2[indices.len() + k] == entries[k].0 + base
            &&& forall|k: int| 0 <= k < entries.len() ==> #[trigger] s2[indices.len() + k] == entries[k].1
        },
    decreases entries.len(),
{
    let s = Assembly::Building { offsets, indices, sources };
    let enc = Encoding::Checked(name);
    if entries.len() > 0 {
        let before = visit(s, entries.drop_last(), base, enc);
        assert forall|k: int| 0 <= k < entries.drop_last().len() implies (#[trigger] entries.drop_last()[k]).0 >= 0 by {
            assert(entries.drop_last()[k] == entries[k]);
        }
        lemma_visit_checked(offsets, indices, sources, entries.drop_last(), base, name);
        if visit(s, entries, base, enc) is Building {
            if !(before is Building) {
                assert(step_entry(before, entries.last(), base, enc) == before);
                assert(false);
            }
            let (ob, ib, sb) = match before {
                Assembly::Building { offsets, indices, sources } => (offsets, indices, sources),
                _ => (Seq::empty(), Seq::empty(), Seq::empty()),
            };
            let x = entries.last();
            assert(entries[entries.len() - 1].0 >= 0);
            assert(0 <= x.0 <= u32::MAX && x.0 + base <= u32::MAX);
            let i2 = ib.push((x.0 + base) as u32);
            let s2 = sb.push(x.1);
            assert(visit(s, entries, base, enc) == (Assembly::Building { offsets: ob, indices: i2, sources: s2 }));
            assert forall|j: int| 0 <= j < indices.len() implies #[trigger] i2[j] == indices[j] && s2[j] == sources[j] by {
                assert(ib[j] == indices[j]);
            }
            assert forall|k: int| 0 <= k < entries.len() implies #[trigger] i2[indices.len() + k] == entries[k].0 + base
                && s2[indices.len() + k] == entries[k].1 by {
                if k < entries.len() - 1 {
                    assert(entries.drop_last()[k] == entries[k]);
                    assert(sb[indices.len() + k] == entries.drop_last()[k].1);
                    assert(ib[indices.len() + k] == entries.drop_last()[k].0 + base);
                    assert(i2[indices.len() + k] == ib[indices.len() + k]);
                } else {
                    assert(k == entries.len() - 1);
                    assert(entries[k] == x);
                    assert(i2[indices.len() + k] == (x.0 + base) as u32);
                }
            }
        }
    }
}

/// An assembly with checked encoding that does not stop lays the rows out
/// one after another.
pub(crate) proof fn lemma_checked_layout(
    rows: Seq<Seq<(int, int)>>,
    base: u32,
    name: &'static str,
    count_name: &'static str,
    offset_name: &'static str,
)
    requires
        forall|r: int, k: int| 0 <= r < rows.len() && 0 <= k < rows[r].len() ==> (#[trigger] rows[r][k]).0 >= 0,
    ensures
        visit_rows(start(base), rows, base, Encoding::Checked(name), count_name, offset_name) matches Assembly::Building {
            offsets,
            indices,
            sources,
        } ==> {
            &&& offsets.len() == rows.len() + 1
            &&& offsets[0] == base
            &&& offsets.last() == base + indices.len()
            &&& sources.len() == indices.len()
            &&& forall|r: int| 0 <= r < rows.len() ==> #[trigger] entries_laid_out(offsets, indices, sources, base, rows[r], r)
        },
    decreases rows.len(),
{
    let enc = Encoding::Checked(name);
    let s = visit_rows(start(base), rows, base, enc, count_name, offset_name);
    if rows.len() > 0 && s is Building {
        let pre = rows.drop_last();
        let before = visit_rows(start(base), pre, base, enc, count_name, offset_name);
        if !(before is Building) {
            lemma_visit_stopped(before, rows.last(), base, enc);
            assert(false);
        }
        assert forall|r: int, k: int| 0 <= r < pre.len() && 0 <= k < pre[r].len() implies (#[trigger] pre[r][k]).0 >= 0 by {
            assert(pre[r] == rows[r]);
        }
        lemma_checked_layout(pre, base, name, count_name, offset_name);
        let (o0, i0, s0) = match before {
            Assembly::Building { offsets, indices, sources } => (offsets, indices, sources),
            _ => (Seq::empty(), Seq::empty(), Seq::empty()),
        };
        assert forall|k: int| 0 <= k < rows.last().len() implies (#[trigger] rows.last()[k]).0 >= 0 by {
            assert(rows.last() == rows[rows.len() - 1]);
        }
        lemma_visit_checked(o0, i0, s0, rows.last(), base, name);
        let mid = visit(before, rows.last(), base, enc);
        if !(mid is Building) {
            assert(end_row(mid, base, count_name, offset_name) == mid);
            assert(false);
        }
        let (o1, i1, s1) = match mid {
            Assembly::Building { offsets, indices, sources } => (offsets, indices, sources),
            _ => (Seq::empty(), Seq::empty(), Seq::empty()),
        };
        let o2 = o1.push((i1.len() + base) as u32);
        assert(s == (Assembly::Building { offsets: o2, indices: i1, sources: s1 }));
        assert forall|r: int| 0 <= r < rows.len() implies #[trigger] entries_laid_out(o2, i1, s1, base, rows[r], r) by {
            if r < rows.len() - 1 {
                assert(entries_laid_out(o0, i0, s0, base, pre[r], r));
                assert(pre[r] == rows[r]);
                assert(o2[r] == o0[r] && o2[r + 1] == o0[r + 1]);
                assert(i1.len() >= i0.len());
                assert forall|k: int| 0 <= k < rows[r].len() implies #[trigger] i1[o2[r] - base + k] == rows[r][k].0
                    + base by {
                    assert(i1[o0[r] - base + k] == i0[o0[r] - base + k]);
                    assert(i0[o0[r] - base + k] == pre[r][k].0 + base);
                }
                assert forall|k: int| 0 <= k < rows[r].len() implies #[trigger] s1[o2[r] - base + k] == rows[r][k].1 by {
                    assert(i1[o0[r] - base + k] == i0[o0[r] - base + k]);
                    assert(s0[o0[r] - base + k] == pre[r][k].1);
                }
            } else {
                assert(o2[r] == o0[r] && o0[r] == o0.last());
                assert(o2[r + 1] == i1.len() + base);
                assert(rows[r] == rows.last());
                assert forall|k: int| 0 <= k < rows[r].len() implies #[trigger] i1[o2[r] - base + k] == rows[r][k].0
                    + base by {
                    assert(i1[i0.len() + k] == rows.last()[k].0 + base);
                }
                assert forall|k: int| 0 <= k < rows[r].len() implies #[trigger] s1[o2[r] - base + k] == rows[r][k].1 by {
                    assert(s1[i0.len() + k] == rows.last()[k].1);
                }
            }
        }
    }
}


/// The stored elements of the first `n` columns of row `r`: in range, at their
/// storage positions, stored, in increasing column order, and all of them.
pub(crate) proof fn lemma_dense_row_facts<V>(d: DenseView<V>, stored: Seq<bool>, r: int, n: int)
    requires
        0 <= n,
    ensures
        forall|k: int|
            0 <= k < dense_row_entries(d, stored, r, n).len() ==> 0 <= (#[trigger] dense_row_entries(d, stored, r, n)[k]).0
                < n && dense_row_entries(d, stored, r, n)[k].1 == dense_offset(
                d.rows as int,
                d.columns as int,
                d.order,
                r,
                dense_row_entries(d, stored, r, n)[k].0,
            ) && stored[dense_row_entries(d, stored, r, n)[k].1],
        forall|k1: int, k2: int|
            0 <= k1 < k2 < dense_row_entries(d, stored, r, n).len() ==> (#[trigger] dense_row_entries(d, stored, r, n)[k1]).0
                < (#[trigger] dense_row_entries(d, stored, r, n)[k2]).0,
        forall|c: int|
            0 <= c < n && #[trigger] stored[dense_offset(d.rows as int, d.columns as int, d.order, r, c)] ==> exists|k: int|
                0 <= k < dense_row_entries(d, stored, r, n).len() && dense_row_entries(d, stored, r, n)[k].0 == c,
    decreases n,
{
    if n > 0 {
        lemma_dense_row_facts(d, stored, r, n - 1);
        lemma_dense_row_step(d, stored, r, n - 1);
        let prev = dense_row_entries(d, stored, r, n - 1);
        let cur = dense_row_entries(d, stored, r, n);
        let x = (n - 1, dense_offset(d.rows as int, d.columns as int, d.order, r, n - 1));
        if stored[x.1] {
            assert(cur == prev.push(x));
            assert forall|k: int| 0 <= k < prev.len() implies cur[k] == prev[k] by {}
            assert forall|c: int|
                0 <= c < n && #[trigger] stored[dense_offset(d.rows as int, d.columns as int, d.order, r, c)] implies exists|k: int|
                    0 <= k < cur.len() && cur[k].0 == c by {
                if c == n - 1 {
                    assert(cur[prev.len() as int].0 == c);
                } else {
                    let k = choose|k: int| 0 <= k < prev.len() && prev[k].0 == c;
                    assert(cur[k].0 == c);
                }
            }
        } else {
            assert(cur == prev);
        }
    }
}

/// Every position of a `rows` by `columns` dense array in `order` stores
/// some element.
proof fn lemma_dense_position(rows: int, columns: int, order: DenseOrder, p: int) -> (rc: (int, int))
    requires
        0 <= rows,
        0 <= columns,
        0 <= p < rows * columns,
    ensures
        0 <= rc.0 < rows,
        0 <= rc.1 < columns,
        dense_offset(rows, columns, order, rc.0, rc.1) == p,
{
    assert(rows > 0 && columns > 0) by (nonlinear_arith)
        requires
            0 <= rows,
            0 <= columns,
            0 <= p < rows * columns,
    ;
    match order {
        DenseOrder::RowMajor => {
            let r = p / columns;
            let c = p % columns;
            assert(0 <= r < rows && 0 <= c < columns && r * columns + c == p) by (nonlinear_arith)
                requires
                    0 <= p < rows * columns,
                    columns > 0,
                    r == p / columns,
                    c == p % columns,
            ;
            (r, c)
        },
        DenseOrder::ColumnMajor => {
            let c = p / rows;
            let r = p % rows;
            assert(0 <= c < columns && 0 <= r < rows && c * rows + r == p) by (nonlinear_arith)
                requires
                    0 <= p < rows * columns,
                    rows > 0,
                    c == p / rows,
                    r == p % rows,
            ;
            (r, c)
        },
    }
}

/// No write targets `p`: the fill stays.
pub(crate) proof fn lemma_last_write_none<V>(targets: spec_fn(int) -> int, values: Seq<V>, fill: V, n: int, p: int)
    requires
        forall|e: int| 0 <= e < n ==> #[trigger] targets(e) != p,
    ensures
        last_write(targets, values, fill, n, p) == fill,
    decreases n,
{
    if n > 0 {
        lemma_last_write_none(targets, values, fill, n - 1, p);
    }
}

/// Exactly one write, the `e`-th, targets `p`: its value stays.
proof fn lemma_last_write_single<V>(targets: spec_fn(int) -> int, values: Seq<V>, fill: V, n: int, p: int, e: int)
    requires
        0 <= e < n,
        targets(e) == p,
        forall|e2: int| 0 <= e2 < n && e2 != e ==> #[trigger] targets(e2) != p,
    ensures
        last_write(targets, values, fill, n, p) == values[e],
    decreases n,
{
    if n - 1 == e {
        lemma_last_write_none(targets, values, fill, e, p);
    } else {
        lemma_last_write_single(targets, values, fill, n - 1, p, e);
    }
}


/// `m` is the CSR matrix that `dense_to_csr` builds from the elements of `d`
/// that `stored` marks, with index base `base`.
pub open spec fn csr_of_dense<V>(m: CsrView<V>, d: DenseView<V>, stored: Seq<bool>, base: IndexBase) -> bool {
    assemble(
        dense_csr_rows(d, stored),
        base_of(base),
        Encoding::Checked("dense to CSR column"),
        "dense to CSR row offsets",
        "dense to CSR row offsets",
    ) matches Assembly::Building { offsets, indices, sources } && m == (CsrView {
        rows: d.rows,
        columns: d.columns,
        base,
        row_offsets: offsets,
        column_indices: indices,
        values: pick_values(d.values, sources),
    })
}

/// The assembled sources of the CSR form of a dense matrix: each entry
/// targets, when densified in the dense matrix's order, the storage position
/// it came from, which is stored; distinct entries came from distinct
/// positions; and every stored position is the source of some entry.
pub(crate) proof fn lemma_dense_csr_sources<V>(d: DenseView<V>, stored: Seq<bool>, base: IndexBase, m: CsrView<V>) -> (sources: Seq<int>)
    requires
        d.valid(),
        stored.len() == d.values.len(),
        csr_of_dense(m, d, stored, base),
        m.valid(),
    ensures
        sources.len() == m.column_indices.len(),
        m.values == pick_values(d.values, sources),
        forall|e: int|
            0 <= e < sources.len() ==> #[trigger] csr_target(m, d.order, e) == sources[e] && 0 <= sources[e]
                < d.values.len() && stored[sources[e]],
        forall|e1: int, e2: int|
            0 <= e1 < sources.len() && 0 <= e2 < sources.len() && e1 != e2 ==> #[trigger] sources[e1]
                != #[trigger] sources[e2],
        forall|p: int| 0 <= p < d.values.len() && #[trigger] stored[p] ==> exists|e: int| 0 <= e < sources.len() && sources[e] == p,
        forall|r: int, e1: int, e2: int|
            #![trigger m.entry_in_row(r, e1), m.entry_in_row(r, e2)]
            m.entry_in_row(r, e1) && m.entry_in_row(r, e2) && e1 < e2 ==> m.column_indices[e1] < m.column_indices[e2],
{
    let b = base_of(base);
    let rows = dense_csr_rows(d, stored);
    let name = "dense to CSR row offsets";
    let (offsets, indices, sources) = match assemble(rows, b, Encoding::Checked("dense to CSR column"), name, name) {
        Assembly::Building { offsets, indices, sources } => (offsets, indices, sources),
        _ => (Seq::empty(), Seq::empty(), Seq::empty()),
    };
    let R = d.rows as int;
    let C = d.columns as int;
    assert forall|r: int| 0 <= r < R implies #[trigger] rows[r] == dense_row_entries(d, stored, r, C) by {}
    assert forall|r: int, k: int| 0 <= r < rows.len() && 0 <= k < rows[r].len() implies (#[trigger] rows[r][k]).0 >= 0 by {
        lemma_dense_row_facts(d, stored, r, C);
        assert(rows[r][k] == dense_row_entries(d, stored, r, C)[k]);
    }
    lemma_checked_layout(rows, b, "dense to CSR column", name, name);
    assert(crate::pattern::offsets_valid(offsets, b, indices.len()));
    // Where each entry sits: its row, and its place in that row.
    assert forall|e: int| 0 <= e < sources.len() implies #[trigger] csr_target(m, d.order, e) == sources[e] && 0 <= sources[e]
        < d.values.len() && stored[sources[e]] by {
        let r = crate::pattern::lemma_segment_of(offsets, b, indices.len(), e);
        let k = e - (offsets[r] - b);
        assert(entries_laid_out(offsets, indices, sources, b, rows[r], r));
        lemma_dense_row_facts(d, stored, r, C);
        assert(rows[r][k] == dense_row_entries(d, stored, r, C)[k]);
        let c = rows[r][k].0;
        assert(indices[offsets[r] - b + k] == c + b);
        assert(sources[offsets[r] - b + k] == rows[r][k].1);
        assert(m.entry_in_row(r, e));
        assert(csr_row_of(m, e) == r) by {
            let r2 = csr_row_of(m, e);
            assert(m.entry_in_row(r2, e));
        }
        lemma_dense_offset(R, C, d.order, r, c);
    }
    assert forall|e1: int, e2: int| 0 <= e1 < sources.len() && 0 <= e2 < sources.len() && e1 != e2 implies #[trigger] sources[e1]
        != #[trigger] sources[e2] by {
        let r1 = crate::pattern::lemma_segment_of(offsets, b, indices.len(), e1);
        let r2 = crate::pattern::lemma_segment_of(offsets, b, indices.len(), e2);
        let k1 = e1 - (offsets[r1] - b);
        let k2 = e2 - (offsets[r2] - b);
        assert(entries_laid_out(offsets, indices, sources, b, rows[r1], r1));
        assert(entries_laid_out(offsets, indices, sources, b, rows[r2], r2));
        lemma_dense_row_facts(d, stored, r1, C);
        lemma_dense_row_facts(d, stored, r2, C);
        assert(rows[r1][k1] == dense_row_entries(d, stored, r1, C)[k1]);
        assert(rows[r2][k2] == dense_row_entries(d, stored, r2, C)[k2]);
        let c1 = rows[r1][k1].0;
        let c2 = rows[r2][k2].0;
        lemma_dense_offset(R, C, d.order, r1, c1);
        if sources[e1] == sources[e2] {
            assert(sources[offsets[r1] - b + k1] == rows[r1][k1].1);
            assert(sources[offsets[r2] - b + k2] == rows[r2][k2].1);
            assert(dense_offset(R, C, d.order, r2, c2) == dense_offset(R, C, d.order, r1, c1));
            assert(r1 == r2 && c1 == c2);
            if k1 < k2 {
                assert(dense_row_entries(d, stored, r1, C)[k1].0 < dense_row_entries(d, stored, r1, C)[k2].0);
            } else if k2 < k1 {
                assert(dense_row_entries(d, stored, r1, C)[k2].0 < dense_row_entries(d, stored, r1, C)[k1].0);
            }
        }
    }
    assert forall|r: int, e1: int, e2: int|
        m.entry_in_row(r, e1) && m.entry_in_row(r, e2) && e1 < e2 implies m.column_indices[e1] < m.column_indices[e2] by {
        let k1 = e1 - (offsets[r] - b);
        let k2 = e2 - (offsets[r] - b);
        assert(entries_laid_out(offsets, indices, sources, b, rows[r], r));
        lemma_dense_row_facts(d, stored, r, C);
        assert(rows[r][k1] == dense_row_entries(d, stored, r, C)[k1]);
        assert(rows[r][k2] == dense_row_entries(d, stored, r, C)[k2]);
        assert(indices[offsets[r] - b + k1] == rows[r][k1].0 + b);
        assert(indices[offsets[r] - b + k2] == rows[r][k2].0 + b);
    }
    assert forall|p: int| 0 <= p < d.values.len() && #[trigger] stored[p] implies exists|e: int| 0 <= e < sources.len()
        && sources[e] == p by {
        let (r, c) = lemma_dense_position(R, C, d.order, p);
        lemma_dense_row_facts(d, stored, r, C);
        let k = choose|k: int| 0 <= k < dense_row_entries(d, stored, r, C).len() && dense_row_entries(d, stored, r, C)[k].0 == c;
        assert(entries_laid_out(offsets, indices, sources, b, rows[r], r));
        assert(rows[r][k] == dense_row_entries(d, stored, r, C)[k]);
        let e = offsets[r] - b + k;
        assert(sources[e] == rows[r][k].1);
    }
    sources
}

/// Densifying the CSR form of a dense matrix, in the dense matrix's order,
/// gives the dense matrix back: every element that was stored is where it
/// was, and every other element is the default value; so a dense matrix
/// whose unstored elements are all that default comes back unchanged.
pub proof fn law_dense_csr_round_trip<V: Default>(
    d: DenseView<V>,
    stored: Seq<bool>,
    base: IndexBase,
    m: CsrView<V>,
    out: DenseView<V>,
    fill: V,
)
    requires
        is_default(fill),
        d.valid(),
        stored.len() == d.values.len(),
        csr_of_dense(m, d, stored, base),
        m.valid(),
        csr_dense_result(out, m, d.order, fill),
    ensures
        out.rows == d.rows,
        out.columns == d.columns,
        out.order == d.order,
        out.values.len() == d.values.len(),
        forall|p: int| 0 <= p < d.values.len() ==> #[trigger] out.values[p] == if stored[p] {
            d.values[p]
        } else {
            fill
        },
        (forall|p: int| 0 <= p < d.values.len() && !stored[p] ==> #[trigger] d.values[p] == fill) ==> out == d,
{
    let sources = lemma_dense_csr_sources(d, stored, base, m);
    let targets = |e: int| csr_target(m, d.order, e);
    let n = m.values.len();
    assert forall|p: int| 0 <= p < d.values.len() implies #[trigger] out.values[p] == if stored[p] {
        d.values[p]
    } else {
        fill
    } by {
        assert(out.values[p] == last_write(targets, m.values, fill, n as int, p));
        if stored[p] {
            let e = choose|e: int| 0 <= e < sources.len() && sources[e] == p;
            assert(targets(e) == p);
            assert forall|e2: int| 0 <= e2 < n && e2 != e implies #[trigger] targets(e2) != p by {
                assert(targets(e2) == sources[e2]);
                assert(sources[e2] != sources[e]);
            }
            lemma_last_write_single(targets, m.values, fill, n as int, p, e);
        } else {
            assert forall|e2: int| 0 <= e2 < n implies #[trigger] targets(e2) != p by {
                assert(targets(e2) == sources[e2]);
            }
            lemma_last_write_none(targets, m.values, fill, n as int, p);
        }
    }
    if forall|p: int| 0 <= p < d.values.len() && !stored[p] ==> #[trigger] d.values[p] == fill {
        assert(out.values =~= d.values);
    }
}


/// The stored elements of the first `n` rows, in row-major order: each in
/// range, at its storage position, stored, in strictly increasing (row,
/// column) order, and all of them.
proof fn lemma_dense_coo_facts<V>(d: DenseView<V>, stored: Seq<bool>, n: int)
    requires
        0 <= n,
    ensures
        forall|i: int|
            0 <= i < dense_coo_entries(d, stored, n).len() ==> 0 <= (#[trigger] dense_coo_entries(d, stored, n)[i]).0 < n
                && 0 <= dense_coo_entries(d, stored, n)[i].1 < d.columns && dense_coo_entries(d, stored, n)[i].2
                == dense_offset(
                d.rows as int,
                d.columns as int,
                d.order,
                dense_coo_entries(d, stored, n)[i].0,
                dense_coo_entries(d, stored, n)[i].1,
            ) && stored[dense_coo_entries(d, stored, n)[i].2],
        forall|i: int, j: int|
            0 <= i < j < dense_coo_entries(d, stored, n).len() ==> (#[trigger] dense_coo_entries(d, stored, n)[i]).0
                < (#[trigger] dense_coo_entries(d, stored, n)[j]).0 || (dense_coo_entries(d, stored, n)[i].0
                == dense_coo_entries(d, stored, n)[j].0 && dense_coo_entries(d, stored, n)[i].1 < dense_coo_entries(
                d,
                stored,
                n,
            )[j].1),
        forall|r: int, c: int|
            0 <= r < n && 0 <= c < d.columns && #[trigger] stored[dense_offset(d.rows as int, d.columns as int, d.order, r, c)]
                ==> exists|i: int|
                0 <= i < dense_coo_entries(d, stored, n).len() && dense_coo_entries(d, stored, n)[i].0 == r
                    && dense_coo_entries(d, stored, n)[i].1 == c,
    decreases n,
{
    if n > 0 {
        let C = d.columns as int;
        lemma_dense_coo_facts(d, stored, n - 1);
        lemma_dense_row_facts(d, stored, n - 1, C);
        let prev = dense_coo_entries(d, stored, n - 1);
        let row = dense_coo_row(d, stored, n - 1, C);
        let raw = dense_row_entries(d, stored, n - 1, C);
        let all = dense_coo_entries(d, stored, n);
        assert(all == prev + row);
        assert forall|k: int| 0 <= k < row.len() implies #[trigger] row[k] == (n - 1, raw[k].0, raw[k].1) by {}
        assert forall|i: int| 0 <= i < all.len() implies 0 <= (#[trigger] all[i]).0 < n && 0 <= all[i].1 < d.columns
            && all[i].2 == dense_offset(d.rows as int, d.columns as int, d.order, all[i].0, all[i].1)
            && stored[all[i].2] by {
            if i < prev.len() {
                assert(all[i] == prev[i]);
            } else {
                assert(all[i] == row[i - prev.len()]);
                assert(raw[i - prev.len()].0 < C);
            }
        }
        assert forall|i: int, j: int| 0 <= i < j < all.len() implies (#[trigger] all[i]).0 < (#[trigger] all[j]).0 || (
        all[i].0 == all[j].0 && all[i].1 < all[j].1) by {
            if j < prev.len() {
                assert(all[i] == prev[i] && all[j] == prev[j]);
            } else if i < prev.len() {
                assert(all[i] == prev[i] && all[j] == row[j - prev.len()]);
            } else {
                assert(all[i] == row[i - prev.len()] && all[j] == row[j - prev.len()]);
                assert(raw[i - prev.len()].0 < raw[j - prev.len()].0);
            }
        }
        assert forall|r: int, c: int|
            0 <= r < n && 0 <= c < d.columns && #[trigger] stored[dense_offset(d.rows as int, d.columns as int, d.order, r, c)]
                implies exists|i: int| 0 <= i < all.len() && all[i].0 == r && all[i].1 == c by {
            if r < n - 1 {
                let i = choose|i: int| 0 <= i < prev.len() && prev[i].0 == r && prev[i].1 == c;
                assert(all[i] == prev[i]);
            } else {
                let k = choose|k: int| 0 <= k < raw.len() && raw[k].0 == c;
                assert(all[prev.len() + k] == row[k]);
            }
        }
    }
}

/// `m` is the COO matrix that `dense_to_coo` builds from the elements of `d`
/// that `stored` marks, with index base `base`.
pub open spec fn coo_of_dense<V>(m: CooView<V>, d: DenseView<V>, stored: Seq<bool>, base: IndexBase) -> bool {
    let entries = dense_coo_entries(d, stored, d.rows as int);
    let b = base_of(base);
    &&& first_coo_error(entries, b) is None
    &&& m == (CooView {
        rows: d.rows,
        columns: d.columns,
        base,
        row_indices: entries.map_values(|x: (int, int, int)| (x.0 + b) as u32),
        column_indices: entries.map_values(|x: (int, int, int)| (x.1 + b) as u32),
        values: entries.map_values(|x: (int, int, int)| d.values[x.2]),
    })
}

/// The encoding of a COO entry that passed the checks gives back its row and
/// column.
proof fn lemma_coo_entry_encoding(entries: Seq<(int, int, int)>, b: u32, i: int)
    requires
        first_coo_error(entries, b) is None,
        0 <= i < entries.len(),
        entries[i].0 >= 0,
        entries[i].1 >= 0,
    ensures
        ((entries[i].0 + b) as u32) - b == entries[i].0,
        ((entries[i].1 + b) as u32) - b == entries[i].1,
    decreases entries.len(),
{
    if i < entries.len() - 1 {
        assert(entries.drop_last()[i] == entries[i]);
        lemma_coo_entry_encoding(entries.drop_last(), b, i);
    } else {
        assert(coo_entry_error(entries.last(), b) is None);
    }
}

/// Densifying the COO form of a dense matrix, in the dense matrix's order,
/// gives the dense matrix back: every element that was stored is where it
/// was, and every other element is the default value; so a dense matrix
/// whose unstored elements are all that default comes back unchanged.
pub proof fn law_dense_coo_round_trip<V: Default>(
    d: DenseView<V>,
    stored: Seq<bool>,
    base: IndexBase,
    m: CooView<V>,
    out: DenseView<V>,
    fill: V,
)
    requires
        is_default(fill),
        d.valid(),
        stored.len() == d.values.len(),
        coo_of_dense(m, d, stored, base),
        coo_dense_result(out, m, d.order, fill),
    ensures
        out.rows == d.rows,
        out.columns == d.columns,
        out.order == d.order,
        out.values.len() == d.values.len(),
        forall|p: int| 0 <= p < d.values.len() ==> #[trigger] out.values[p] == if stored[p] {
            d.values[p]
        } else {
            fill
        },
        (forall|p: int| 0 <= p < d.values.len() && !stored[p] ==> #[trigger] d.values[p] == fill) ==> out == d,
{
    let R = d.rows as int;
    let C = d.columns as int;
    let b = base_of(base);
    let entries = dense_coo_entries(d, stored, R);
    lemma_dense_coo_facts(d, stored, R);
    let targets = |e: int| coo_target(m, d.order, e);
    let n = m.values.len() as int;
    assert forall|e: int| 0 <= e < n implies #[trigger] targets(e) == entries[e].2 by {
        lemma_coo_entry_encoding(entries, b, e);
        assert(m.row_indices[e] == (entries[e].0 + b) as u32);
        assert(m.column_indices[e] == (entries[e].1 + b) as u32);
    }
    assert forall|p: int| 0 <= p < d.values.len() implies #[trigger] out.values[p] == if stored[p] {
        d.values[p]
    } else {
        fill
    } by {
        assert(out.values[p] == last_write(targets, m.values, fill, n, p));
        if stored[p] {
            let (r, c) = lemma_dense_position(R, C, d.order, p);
            let e = choose|i: int| 0 <= i < entries.len() && entries[i].0 == r && entries[i].1 == c;
            assert(targets(e) == p);
            assert forall|e2: int| 0 <= e2 < n && e2 != e implies #[trigger] targets(e2) != p by {
                assert(targets(e2) == entries[e2].2);
                lemma_dense_offset(R, C, d.order, r, c);
                if e2 < e {
                    assert(entries[e2].0 < entries[e].0 || (entries[e2].0 == entries[e].0 && entries[e2].1 < entries[e].1));
                } else {
                    assert(entries[e].0 < entries[e2].0 || (entries[e].0 == entries[e2].0 && entries[e].1 < entries[e2].1));
                }
            }
            lemma_last_write_single(targets, m.values, fill, n, p, e);
        } else {
            assert forall|e2: int| 0 <= e2 < n implies #[trigger] targets(e2) != p by {
                assert(targets(e2) == entries[e2].2);
            }
            lemma_last_write_none(targets, m.values, fill, n, p);
        }
    }
    if forall|p: int| 0 <= p < d.values.len() && !stored[p] ==> #[trigger] d.values[p] == fill {
        assert(out.values =~= d.values);
    }
}


/// The stored elements of the first `n` rows of column `c`: in range, at
/// their storage positions, stored, in increasing row order, and all of them.
proof fn lemma_dense_column_facts<V>(d: DenseView<V>, stored: Seq<bool>, c: int, n: int)
    requires
        0 <= n,
    ensures
        forall|k: int|
            0 <= k < dense_column_entries(d, stored, c, n).len() ==> 0 <= (#[trigger] dense_column_entries(d, stored, c, n)[k]).0
                < n && dense_column_entries(d, stored, c, n)[k].1 == dense_offset(
                d.rows as int,
                d.columns as int,
                d.order,
                dense_column_entries(d, stored, c, n)[k].0,
                c,
            ) && stored[dense_column_entries(d, stored, c, n)[k].1],
        forall|k1: int, k2: int|
            0 <= k1 < k2 < dense_column_entries(d, stored, c, n).len() ==> (#[trigger] dense_column_entries(d, stored, c, n)[k1]).0
                < (#[trigger] dense_column_entries(d, stored, c, n)[k2]).0,
        forall|r: int|
            0 <= r < n && #[trigger] stored[dense_offset(d.rows as int, d.columns as int, d.order, r, c)] ==> exists|k: int|
                0 <= k < dense_column_entries(d, stored, c, n).len() && dense_column_entries(d, stored, c, n)[k].0 == r,
    decreases n,
{
    if n > 0 {
        lemma_dense_column_facts(d, stored, c, n - 1);
        lemma_dense_column_step(d, stored, c, n - 1);
        let prev = dense_column_entries(d, stored, c, n - 1);
        let cur = dense_column_entries(d, stored, c, n);
        let x = (n - 1, dense_offset(d.rows as int, d.columns as int, d.order, n - 1, c));
        if stored[x.1] {
            assert(cur == prev.push(x));
            assert forall|k: int| 0 <= k < prev.len() implies cur[k] == prev[k] by {}
            assert forall|r: int|
                0 <= r < n && #[trigger] stored[dense_offset(d.rows as int, d.columns as int, d.order, r, c)] implies exists|k: int|
                    0 <= k < cur.len() && cur[k].0 == r by {
                if r == n - 1 {
                    assert(cur[prev.len() as int].0 == r);
                } else {
                    let k = choose|k: int| 0 <= k < prev.len() && prev[k].0 == r;
                    assert(cur[k].0 == r);
                }
            }
        } else {
            assert(cur == prev);
        }
    }
}

/// `m` is the CSC matrix that `dense_to_csc` builds from the elements of `d`
/// that `stored` marks, with index base `base`.
pub open spec fn csc_of_dense<V>(m: CscView<V>, d: DenseView<V>, stored: Seq<bool>, base: IndexBase) -> bool {
    assemble(
        dense_csc_columns(d, stored),
        base_of(base),
        Encoding::Checked("dense to CSC row"),
        "dense to CSC column offsets",
        "dense to CSC column offsets",
    ) matches Assembly::Building { offsets, indices, sources } && m == (CscView {
        rows: d.rows,
        columns: d.columns,
        base,
        column_offsets: offsets,
        row_indices: indices,
        values: pick_values(d.values, sources),
    })
}

/// The assembled sources of the CSC form of a dense matrix: each entry
/// targets, when densified in the dense matrix's order, the storage position
/// it came from, which is stored; distinct entries came from distinct
/// positions; and every stored position is the source of some entry.
pub(crate) proof fn lemma_dense_csc_sources<V>(d: DenseView<V>, stored: Seq<bool>, base: IndexBase, m: CscView<V>) -> (sources: Seq<int>)
    requires
        d.valid(),
        stored.len() == d.values.len(),
        csc_of_dense(m, d, stored, base),
        m.valid(),
    ensures
        sources.len() == m.row_indices.len(),
        m.values == pick_values(d.values, sources),
        forall|e: int|
            0 <= e < sources.len() ==> #[trigger] csc_target(m, d.order, e) == sources[e] && 0 <= sources[e]
                < d.values.len() && stored[sources[e]],
        forall|e1: int, e2: int|
            0 <= e1 < sources.len() && 0 <= e2 < sources.len() && e1 != e2 ==> #[trigger] sources[e1]
                != #[trigger] sources[e2],
        forall|p: int| 0 <= p < d.values.len() && #[trigger] stored[p] ==> exists|e: int| 0 <= e < sources.len() && sources[e] == p,
{
    let b = base_of(base);
    let columns = dense_csc_columns(d, stored);
    let name = "dense to CSC column offsets";
    let (offsets, indices, sources) = match assemble(columns, b, Encoding::Checked("dense to CSC row"), name, name) {
        Assembly::Building { offsets, indices, sources } => (offsets, indices, sources),
        _ => (Seq::empty(), Seq::empty(), Seq::empty()),
    };
    let R = d.rows as int;
    let C = d.columns as int;
    assert forall|c: int| 0 <= c < C implies #[trigger] columns[c] == dense_column_entries(d, stored, c, R) by {}
    assert forall|c: int, k: int| 0 <= c < columns.len() && 0 <= k < columns[c].len() implies (#[trigger] columns[c][k]).0
        >= 0 by {
        lemma_dense_column_facts(d, stored, c, R);
        assert(columns[c][k] == dense_column_entries(d, stored, c, R)[k]);
    }
    lemma_checked_layout(columns, b, "dense to CSC row", name, name);
    assert(crate::pattern::offsets_valid(offsets, b, indices.len()));
    assert forall|e: int| 0 <= e < sources.len() implies #[trigger] csc_target(m, d.order, e) == sources[e] && 0 <= sources[e]
        < d.values.len() && stored[sources[e]] by {
        let c = crate::pattern::lemma_segment_of(offsets, b, indices.len(), e);
        let k = e - (offsets[c] - b);
        assert(entries_laid_out(offsets, indices, sources, b, columns[c], c));
        lemma_dense_column_facts(d, stored, c, R);
        assert(columns[c][k] == dense_column_entries(d, stored, c, R)[k]);
        let r = columns[c][k].0;
        assert(indices[offsets[c] - b + k] == r + b);
        assert(sources[offsets[c] - b + k] == columns[c][k].1);
        assert(crate::conversion::csc_column_of(m, e) == c) by {
            let c2 = crate::conversion::csc_column_of(m, e);
            assert(0 <= c && c < m.columns && crate::pattern::in_segment(m.column_offsets, b, c, e));
            assert(0 <= c2 < m.columns && crate::pattern::in_segment(m.column_offsets, b, c2, e));
        }
        lemma_dense_offset(R, C, d.order, r, c);
    }
    assert forall|e1: int, e2: int| 0 <= e1 < sources.len() && 0 <= e2 < sources.len() && e1 != e2 implies #[trigger] sources[e1]
        != #[trigger] sources[e2] by {
        let c1 = crate::pattern::lemma_segment_of(offsets, b, indices.len(), e1);
        let c2 = crate::pattern::lemma_segment_of(offsets, b, indices.len(), e2);
        let k1 = e1 - (offsets[c1] - b);
        let k2 = e2 - (offsets[c2] - b);
        assert(entries_laid_out(offsets, indices, sources, b, columns[c1], c1));
        assert(entries_laid_out(offsets, indices, sources, b, columns[c2], c2));
        lemma_dense_column_facts(d, stored, c1, R);
        lemma_dense_column_facts(d, stored, c2, R);
        assert(columns[c1][k1] == dense_column_entries(d, stored, c1, R)[k1]);
        assert(columns[c2][k2] == dense_column_entries(d, stored, c2, R)[k2]);
        let r1 = columns[c1][k1].0;
        let r2 = columns[c2][k2].0;
        lemma_dense_offset(R, C, d.order, r1, c1);
        if sources[e1] == sources[e2] {
            assert(sources[offsets[c1] - b + k1] == columns[c1][k1].1);
            assert(sources[offsets[c2] - b + k2] == columns[c2][k2].1);
            assert(dense_offset(R, C, d.order, r2, c2) == dense_offset(R, C, d.order, r1, c1));
            assert(r1 == r2 && c1 == c2);
            if k1 < k2 {
                assert(dense_column_entries(d, stored, c1, R)[k1].0 < dense_column_entries(d, stored, c1, R)[k2].0);
            } else if k2 < k1 {
                assert(dense_column_entries(d, stored, c1, R)[k2].0 < dense_column_entries(d, stored, c1, R)[k1].0);
            }
        }
    }
    assert forall|p: int| 0 <= p < d.values.len() && #[trigger] stored[p] implies exists|e: int| 0 <= e < sources.len()
        && sources[e] == p by {
        let (r, c) = lemma_dense_position(R, C, d.order, p);
        lemma_dense_column_facts(d, stored, c, R);
        let k = choose|k: int| 0 <= k < dense_column_entries(d, stored, c, R).len() && dense_column_entries(d, stored, c, R)[k].0 == r;
        assert(entries_laid_out(offsets, indices, sources, b, columns[c], c));
        assert(columns[c][k] == dense_column_entries(d, stored, c, R)[k]);
        let e = offsets[c] - b + k;
        assert(sources[e] == columns[c][k].1);
    }
    sources
}

/// Densifying the CSC form of a dense matrix, in the dense matrix's order,
/// gives the dense matrix back: every element that was stored is where it
/// was, and every other element is the default value; so a dense matrix
/// whose unstored elements are all that default comes back unchanged.
pub proof fn law_dense_csc_round_trip<V: Default>(
    d: DenseView<V>,
    stored: Seq<bool>,
    base: IndexBase,
    m: CscView<V>,
    out: DenseView<V>,
    fill: V,
)
    requires
        is_default(fill),
        d.valid(),
        stored.len() == d.values.len(),
        csc_of_dense(m, d, stored, base),
        m.valid(),
        csc_dense_result(out, m, d.order, fill),
    ensures
        out.rows == d.rows,
        out.columns == d.columns,
        out.order == d.order,
        out.values.len() == d.values.len(),
        forall|p: int| 0 <= p < d.values.len() ==> #[trigger] out.values[p] == if stored[p] {
            d.values[p]
        } else {
            fill
        },
        (forall|p: int| 0 <= p < d.values.len() && !stored[p] ==> #[trigger] d.values[p] == fill) ==> out == d,
{
    let sources = lemma_dense_csc_sources(d, stored, base, m);
    let targets = |e: int| csc_target(m, d.order, e);
    let n = m.values.len();
    assert forall|p: int| 0 <= p < d.values.len() implies #[trigger] out.values[p] == if stored[p] {
        d.values[p]
    } else {
        fill
    } by {
        assert(out.values[p] == last_write(targets, m.values, fill, n as int, p));
        if stored[p] {
            let e = choose|e: int| 0 <= e < sources.len() && sources[e] == p;
            assert(targets(e) == p);
            assert forall|e2: int| 0 <= e2 < n && e2 != e implies #[trigger] targets(e2) != p by {
                assert(targets(e2) == sources[e2]);
                assert(sources[e2] != sources[e]);
            }
            lemma_last_write_single(targets, m.values, fill, n as int, p, e);
        } else {
            assert forall|e2: int| 0 <= e2 < n implies #[trigger] targets(e2) != p by {
                assert(targets(e2) == sources[e2]);
            }
            lemma_last_write_none(targets, m.values, fill, n as int, p);
        }
    }
    if forall|p: int| 0 <= p < d.values.len() && !stored[p] ==> #[trigger] d.values[p] == fill {
        assert(out.values =~= d.values);
    }
}

} // verus!
