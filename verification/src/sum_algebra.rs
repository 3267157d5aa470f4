//! The pattern of a sum does not depend on the order of the operands, and
//! the sum of a pattern with itself is that pattern when its rows are
//! strictly sorted.

use vstd::prelude::*;
use crate::assemble::{end_row, lemma_assemble_well_built, start, visit, visit_rows, Assembly, Encoding};
use crate::csr::CsrView;
use crate::pattern::{in_segment, lemma_segment_of, offsets_valid};
use crate::symbolic::{
    as_entries, insert_all, lemma_insert_all, lemma_visit_encoded, row_sorted, segment_columns, sorted_rows,
    sorted_strict, sum_row, sum_rows, symbolic_outcome, SymbolicOutput,
};
use crate::{base_of, SparseError};

verus! {

/// Two strictly sorted sequences with the same elements are the same.
proof fn lemma_sorted_unique(s: Seq<u32>, t: Seq<u32>)
    requires
        sorted_strict(s),
        sorted_strict(t),
        s.to_set() == t.to_set(),
    ensures
        s == t,
    decreases s.len(),
{
    if s.len() == 0 {
        if t.len() > 0 {
            assert(t.to_set().contains(t[0]));
        }
        assert(s =~= t);
    } else {
        let x = s.last();
        assert(s.to_set().contains(x));
        assert(t.contains(x));
        let y = t.last();
        assert(t.to_set().contains(y));
        assert(s.contains(y));
        let j = choose|j: int| 0 <= j < t.len() && t[j] == x;
        if j < t.len() - 1 {
            assert(t[j] < t[t.len() - 1]);
        }
        let i = choose|i: int| 0 <= i < s.len() && s[i] == y;
        if i < s.len() - 1 {
            assert(s[i] < s[s.len() - 1]);
        }
        assert(x == y);
        let s0 = s.drop_last();
        let t0 = t.drop_last();
        assert forall|v: u32| s0.to_set().contains(v) implies t0.to_set().contains(v) by {
            let a = choose|a: int| 0 <= a < s0.len() && s0[a] == v;
            assert(s[a] < s[s.len() - 1]);
            assert(s.contains(v));
            assert(t.to_set().contains(v));
            let c = choose|c: int| 0 <= c < t.len() && t[c] == v;
            assert(t0[c] == v);
        }
        assert forall|v: u32| t0.to_set().contains(v) implies s0.to_set().contains(v) by {
            let a = choose|a: int| 0 <= a < t0.len() && t0[a] == v;
            assert(t[a] < t[t.len() - 1]);
            assert(t.contains(v));
            assert(s.to_set().contains(v));
            let c = choose|c: int| 0 <= c < s.len() && s[c] == v;
            assert(s0[c] == v);
        }
        assert(s0.to_set() =~= t0.to_set());
        lemma_sorted_unique(s0, t0);
        assert(s =~= s0.push(x));
        assert(t =~= t0.push(y));
    }
}

/// The sorted set of the elements of `xs`, in either order of two parts.
proof fn lemma_union_commutes(xs: Seq<u32>, ys: Seq<u32>)
    ensures
        insert_all(insert_all(Seq::empty(), xs), ys) == insert_all(insert_all(Seq::empty(), ys), xs),
{
    let e = Seq::<u32>::empty();
    assert(sorted_strict(e));
    lemma_insert_all(e, xs);
    lemma_insert_all(insert_all(e, xs), ys);
    lemma_insert_all(e, ys);
    lemma_insert_all(insert_all(e, ys), xs);
    assert(insert_all(insert_all(e, xs), ys).to_set() =~= insert_all(insert_all(e, ys), xs).to_set());
    lemma_sorted_unique(insert_all(insert_all(e, xs), ys), insert_all(insert_all(e, ys), xs));
}

/// Rows of the pattern of `a + b` and of `b + a` are the same.
proof fn lemma_sum_rows_commute(a: CsrView<()>, b: CsrView<()>)
    requires
        a.rows == b.rows,
        a.base == b.base,
    ensures
        sum_rows(a, b) == sum_rows(b, a),
{
    assert forall|r: int| 0 <= r < a.rows implies #[trigger] sum_rows(a, b)[r] == sum_rows(b, a)[r] by {
        let out = base_of(a.base);
        lemma_union_commutes(segment_columns(a, r, out), segment_columns(b, r, out));
    }
    assert(sum_rows(a, b) =~= sum_rows(b, a));
}

/// The offsets of an assembly that succeeded split its indices into the rows.
proof fn lemma_outcome_offsets(rows: Seq<Seq<u32>>, base: u32, out: SymbolicOutput)
    requires
        symbolic_outcome(Ok(out), rows, base, "SpGEAM output nnz", "SpGEAM row offsets"),
    ensures
        out.row_offsets@.len() == rows.len() + 1,
        offsets_valid(out.row_offsets@, base, out.column_indices@.len() as nat),
{
    lemma_assemble_well_built(as_entries(rows), base, Encoding::Encoded, "SpGEAM output nnz", "SpGEAM row offsets");
}

/// `symbolic_sum(a, b)` and `symbolic_sum(b, a)` give the same result: the
/// same error, or the same row offsets, column indices and entry rows.
pub proof fn law_symbolic_sum_commutes(
    a: CsrView<()>,
    b: CsrView<()>,
    r1: Result<SymbolicOutput, SparseError>,
    r2: Result<SymbolicOutput, SparseError>,
)
    requires
        a.rows == b.rows,
        a.base == b.base,
        symbolic_outcome(r1, sum_rows(a, b), base_of(a.base), "SpGEAM output nnz", "SpGEAM row offsets"),
        symbolic_outcome(r2, sum_rows(b, a), base_of(b.base), "SpGEAM output nnz", "SpGEAM row offsets"),
    ensures
        r1 is Ok <==> r2 is Ok,
        r1 matches Err(e) ==> r2 == Err::<SymbolicOutput, SparseError>(e),
        r1 matches Ok(o1) ==> (r2 matches Ok(o2) && o1.row_offsets@ == o2.row_offsets@ && o1.column_indices@
            == o2.column_indices@ && o1.entry_rows@ == o2.entry_rows@),
{
    lemma_sum_rows_commute(a, b);
    let rows = sum_rows(a, b);
    let base = base_of(a.base);
    if r1 is Ok && r2 is Ok {
        let o1 = r1->Ok_0;
        let o2 = r2->Ok_0;
        lemma_outcome_offsets(rows, base, o1);
        let n = o1.column_indices@.len();
        assert forall|t: int| 0 <= t < n implies #[trigger] o1.entry_rows@[t] == o2.entry_rows@[t] by {
            let r = lemma_segment_of(o1.row_offsets@, base, n as nat, t);
            assert(in_segment(o1.row_offsets@, base, r, t));
            assert(in_segment(o2.row_offsets@, base, r, t));
        }
        assert(o1.entry_rows@ =~= o2.entry_rows@);
    }
}

/// Assembling the first `k` rows of a pattern, each given as its own
/// columns, rebuilds the first `k` rows of the pattern.
proof fn lemma_rebuild_rows(a: CsrView<()>, rows: Seq<Seq<u32>>, k: int)
    requires
        a.valid(),
        rows.len() == a.rows,
        forall|r: int| 0 <= r < a.rows ==> #[trigger] rows[r] == a.column_indices.subrange(
            a.row_offsets[r] - base_of(a.base),
            a.row_offsets[r + 1] - base_of(a.base),
        ),
        0 <= k <= a.rows,
    ensures
        visit_rows(
            start(base_of(a.base)),
            as_entries(rows).take(k),
            base_of(a.base),
            Encoding::Encoded,
            "SpGEAM output nnz",
            "SpGEAM row offsets",
        ) == (Assembly::Building {
            offsets: a.row_offsets.take(k + 1),
            indices: a.column_indices.take(a.row_offsets[k] - base_of(a.base)),
            sources: Seq::new((a.row_offsets[k] - base_of(a.base)) as nat, |i: int| 0int),
        }),
    decreases k,
{
    let b = base_of(a.base);
    if k == 0 {
        assert(as_entries(rows).take(0) =~= Seq::<Seq<(int, int)>>::empty());
        assert(a.row_offsets.take(1) =~= seq![b]);
        assert(a.column_indices.take(0) =~= Seq::<u32>::empty());
        assert(Seq::new(0nat, |i: int| 0int) =~= Seq::<int>::empty());
    } else {
        lemma_rebuild_rows(a, rows, k - 1);
        crate::symbolic::lemma_segment_bounds(a, k - 1);
        assert(as_entries(rows).take(k).drop_last() =~= as_entries(rows).take(k - 1));
        let lo = a.row_offsets[k - 1] - b;
        let hi = a.row_offsets[k] - b;
        lemma_visit_encoded(
            a.row_offsets.take(k),
            a.column_indices.take(lo),
            Seq::new(lo as nat, |i: int| 0int),
            rows[k - 1],
            b,
        );
        assert(a.column_indices.take(lo) + rows[k - 1] =~= a.column_indices.take(hi));
        assert(Seq::new(lo as nat, |i: int| 0int) + Seq::new(rows[k - 1].len(), |i: int| 0int) =~= Seq::new(
            hi as nat,
            |i: int| 0int,
        ));
        assert(a.row_offsets.take(k).push(a.row_offsets[k]) =~= a.row_offsets.take(k + 1));
    }
}

/// When each row of `a` lists strictly increasing columns, `symbolic_sum(a,
/// a)` succeeds and gives back the row offsets and column indices of `a`.
pub proof fn law_symbolic_sum_idempotent(a: CsrView<()>, r: Result<SymbolicOutput, SparseError>)
    requires
        a.valid(),
        sorted_rows(a.row_offsets, a.column_indices, base_of(a.base), a.rows as nat),
        symbolic_outcome(r, sum_rows(a, a), base_of(a.base), "SpGEAM output nnz", "SpGEAM row offsets"),
    ensures
        r matches Ok(out) && out.row_offsets@ == a.row_offsets && out.column_indices@ == a.column_indices,
{
    let b = base_of(a.base);
    let rows = sum_rows(a, a);
    assert forall|k: int| 0 <= k < a.rows implies #[trigger] rows[k] == a.column_indices.subrange(
        a.row_offsets[k] - b,
        a.row_offsets[k + 1] - b,
    ) by {
        let own = a.column_indices.subrange(a.row_offsets[k] - b, a.row_offsets[k + 1] - b);
        assert(row_sorted(a.row_offsets, a.column_indices, b, k));
        assert(segment_columns(a, k, b) =~= own);
        let e = Seq::<u32>::empty();
        assert(sorted_strict(e));
        lemma_insert_all(e, own);
        lemma_insert_all(insert_all(e, own), own);
        assert(insert_all(insert_all(e, own), own).to_set() =~= own.to_set());
        lemma_sorted_unique(insert_all(insert_all(e, own), own), own);
        assert(rows[k] == sum_row(a, a, k));
    }
    lemma_rebuild_rows(a, rows, a.rows as int);
    assert(as_entries(rows).take(a.rows as int) =~= as_entries(rows));
    assert(a.row_offsets.take(a.rows + 1) =~= a.row_offsets);
    assert(a.column_indices.take(a.row_offsets[a.rows as int] - b) =~= a.column_indices);
}

} // verus!
