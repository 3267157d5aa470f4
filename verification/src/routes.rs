//! Converting a dense matrix to CSC and that to CSR gives the same CSR
//! matrix as converting the dense matrix to CSR directly.

use vstd::prelude::*;
use crate::conversion::{csc_column_of, csc_target, csr_row_of, csr_target};
use crate::csr::CsrView;
use crate::dense::{dense_offset, lemma_dense_offset, DenseView};
use crate::formats::{is_csr_of_csc, CscView};
use crate::host::lemma_row_of_entry;
use crate::pattern::{in_segment, lemma_segment_of, offsets_valid, transposed_pattern};
use crate::roundtrip::{csc_of_dense, csr_of_dense, lemma_dense_csc_sources, lemma_dense_csr_sources};
use crate::transposition::lemma_regrouping_permutes;
use crate::{base_of, IndexBase};

verus! {

/// Row and column of entry `e` of `m`.
pub open spec fn csr_key<V>(m: CsrView<V>, e: int) -> (int, int) {
    (csr_row_of(m, e), m.column_indices[e] - base_of(m.base))
}

/// `p` comes before `q` in row-major order.
pub open spec fn lex_less(p: (int, int), q: (int, int)) -> bool {
    p.0 < q.0 || (p.0 == q.0 && p.1 < q.1)
}

/// Storage position of the element at `key` of `d`.
pub open spec fn position<V>(d: DenseView<V>, key: (int, int)) -> int {
    dense_offset(d.rows as int, d.columns as int, d.order, key.0, key.1)
}

/// `m` lists, in row-major order, exactly the stored elements of `d`, each
/// with its value.
pub open spec fn holds_stored<V>(m: CsrView<V>, d: DenseView<V>, stored: Seq<bool>) -> bool {
    let n = m.column_indices.len() as int;
    &&& forall|e1: int, e2: int|
        0 <= e1 < e2 < n ==> lex_less(#[trigger] csr_key(m, e1), #[trigger] csr_key(m, e2))
    &&& forall|e: int|
        0 <= e < n ==> 0 <= (#[trigger] csr_key(m, e)).0 < d.rows && 0 <= csr_key(m, e).1 < d.columns
            && stored[position(d, csr_key(m, e))] && m.values[e] == d.values[position(d, csr_key(m, e))]
    &&& forall|r: int, c: int|
        0 <= r < d.rows && 0 <= c < d.columns && #[trigger] stored[position(d, (r, c))] ==> exists|e: int|
            0 <= e < n && csr_key(m, e) == (r, c)
}

/// Two sequences in strictly increasing row-major order with the same
/// elements are the same.
proof fn lemma_lex_unique(s: Seq<(int, int)>, t: Seq<(int, int)>)
    requires
        forall|i: int, j: int| 0 <= i < j < s.len() ==> lex_less(#[trigger] s[i], #[trigger] s[j]),
        forall|i: int, j: int| 0 <= i < j < t.len() ==> lex_less(#[trigger] t[i], #[trigger] t[j]),
        forall|x: (int, int)| s.contains(x) <==> t.contains(x),
    ensures
        s == t,
    decreases s.len(),
{
    if s.len() == 0 {
        if t.len() > 0 {
            assert(t.contains(t[0]));
        }
        assert(s =~= t);
    } else {
        let x = s.last();
        assert(s.contains(x));
        let y = t.last();
        assert(t.contains(y));
        let j = choose|j: int| 0 <= j < t.len() && t[j] == x;
        if j < t.len() - 1 {
            assert(lex_less(t[j], t[t.len() - 1]));
        }
        let i = choose|i: int| 0 <= i < s.len() && s[i] == y;
        if i < s.len() - 1 {
            assert(lex_less(s[i], s[s.len() - 1]));
        }
        assert(x == y);
        let s0 = s.drop_last();
        let t0 = t.drop_last();
        assert forall|v: (int, int)| s0.contains(v) <==> t0.contains(v) by {
            if s0.contains(v) {
                let a = choose|a: int| 0 <= a < s0.len() && s0[a] == v;
                assert(lex_less(s[a], s[s.len() - 1]));
                assert(s.contains(v));
                let c = choose|c: int| 0 <= c < t.len() && t[c] == v;
                assert(t0[c] == v);
            }
            if t0.contains(v) {
                let a = choose|a: int| 0 <= a < t0.len() && t0[a] == v;
                assert(lex_less(t[a], t[t.len() - 1]));
                assert(t.contains(v));
                let c = choose|c: int| 0 <= c < s.len() && s[c] == v;
                assert(s0[c] == v);
            }
        }
        lemma_lex_unique(s0, t0);
        assert(s =~= s0.push(x));
        assert(t =~= t0.push(y));
    }
}

/// The row of each entry of a valid matrix is where its offsets put it.
proof fn lemma_key_row<V>(m: CsrView<V>, e: int) -> (r: int)
    requires
        m.valid(),
        0 <= e < m.column_indices.len(),
    ensures
        r == csr_row_of(m, e),
        0 <= r < m.rows,
        m.entry_in_row(r, e),
{
    let b = base_of(m.base);
    assert(offsets_valid(m.row_offsets, b, m.column_indices.len()));
    let r = lemma_segment_of(m.row_offsets, b, m.column_indices.len(), e);
    assert(m.entry_in_row(r, e));
    lemma_row_of_entry(m, r, e);
    r
}

/// Two valid matrices of one shape and base that each list exactly the
/// stored elements of `d`, in row-major order, are the same.
proof fn lemma_holds_stored_unique<V>(x: CsrView<V>, y: CsrView<V>, d: DenseView<V>, stored: Seq<bool>)
    requires
        x.valid(),
        y.valid(),
        x.rows == y.rows,
        x.columns == y.columns,
        x.base == y.base,
        holds_stored(x, d, stored),
        holds_stored(y, d, stored),
    ensures
        x == y,
{
    let b = base_of(x.base);
    let kx = Seq::new(x.column_indices.len(), |e: int| csr_key(x, e));
    let ky = Seq::new(y.column_indices.len(), |e: int| csr_key(y, e));
    assert forall|i: int, j: int| 0 <= i < j < kx.len() implies lex_less(#[trigger] kx[i], #[trigger] kx[j]) by {
        assert(lex_less(csr_key(x, i), csr_key(x, j)));
    }
    assert forall|i: int, j: int| 0 <= i < j < ky.len() implies lex_less(#[trigger] ky[i], #[trigger] ky[j]) by {
        assert(lex_less(csr_key(y, i), csr_key(y, j)));
    }
    assert forall|v: (int, int)| kx.contains(v) <==> ky.contains(v) by {
        if kx.contains(v) {
            let e = choose|e: int| 0 <= e < kx.len() && kx[e] == v;
            assert(csr_key(x, e) == v);
            assert(stored[position(d, (v.0, v.1))]);
            let f = choose|f: int| 0 <= f < y.column_indices.len() && csr_key(y, f) == (v.0, v.1);
            assert(ky[f] == v);
        }
        if ky.contains(v) {
            let e = choose|e: int| 0 <= e < ky.len() && ky[e] == v;
            assert(csr_key(y, e) == v);
            assert(stored[position(d, (v.0, v.1))]);
            let f = choose|f: int| 0 <= f < x.column_indices.len() && csr_key(x, f) == (v.0, v.1);
            assert(kx[f] == v);
        }
    }
    lemma_lex_unique(kx, ky);
    let n = x.column_indices.len() as int;
    assert(kx.len() == ky.len());
    assert forall|e: int| 0 <= e < n implies #[trigger] x.column_indices[e] == y.column_indices[e] && x.values[e]
        == y.values[e] && csr_row_of(x, e) == csr_row_of(y, e) by {
        assert(kx[e] == ky[e]);
        assert(csr_key(x, e) == csr_key(y, e));
    }
    assert(x.column_indices =~= y.column_indices);
    assert(x.values.len() == n && y.values.len() == n);
    assert forall|e: int| 0 <= e < n implies #[trigger] x.values[e] == y.values[e] by {
        assert(x.column_indices[e] == y.column_indices[e]);
    }
    assert(x.values =~= y.values);
    assert(offsets_valid(x.row_offsets, b, n as nat));
    assert(offsets_valid(y.row_offsets, b, n as nat));
    assert forall|k: int| 0 <= k <= x.rows implies #[trigger] x.row_offsets[k] == y.row_offsets[k] by {
        if x.row_offsets[k] < y.row_offsets[k] {
            let e = x.row_offsets[k] - b;
            assert(y.row_offsets[k] <= y.row_offsets[y.rows as int]);
            let rx = lemma_key_row(x, e);
            let ry = lemma_key_row(y, e);
            assert(x.column_indices[e] == y.column_indices[e]);
            if rx < k {
                assert(x.row_offsets[rx + 1] <= x.row_offsets[k]);
            }
            if ry >= k {
                assert(y.row_offsets[k] <= y.row_offsets[ry]);
            }
        } else if y.row_offsets[k] < x.row_offsets[k] {
            let e = y.row_offsets[k] - b;
            assert(x.row_offsets[k] <= x.row_offsets[x.rows as int]);
            let rx = lemma_key_row(x, e);
            let ry = lemma_key_row(y, e);
            assert(x.column_indices[e] == y.column_indices[e]);
            if ry < k {
                assert(y.row_offsets[ry + 1] <= y.row_offsets[k]);
            }
            if rx >= k {
                assert(x.row_offsets[k] <= x.row_offsets[rx]);
            }
        }
    }
    assert(x.row_offsets =~= y.row_offsets);
}

/// Entries of a valid matrix come in nondecreasing row order.
proof fn lemma_rows_in_order<V>(m: CsrView<V>, e1: int, e2: int)
    requires
        m.valid(),
        0 <= e1 < e2 < m.column_indices.len(),
    ensures
        csr_row_of(m, e1) <= csr_row_of(m, e2),
{
    let r1 = lemma_key_row(m, e1);
    let r2 = lemma_key_row(m, e2);
    if r1 > r2 {
        assert(m.row_offsets[r2 + 1] <= m.row_offsets[r1]);
    }
}

/// The direct CSR form of a dense matrix lists exactly its stored elements.
proof fn lemma_dense_csr_holds<V>(d: DenseView<V>, stored: Seq<bool>, base: IndexBase, c: CsrView<V>)
    requires
        d.valid(),
        stored.len() == d.values.len(),
        csr_of_dense(c, d, stored, base),
        c.valid(),
    ensures
        holds_stored(c, d, stored),
{
    let sources = lemma_dense_csr_sources(d, stored, base, c);
    let n = c.column_indices.len() as int;
    let b = base_of(base);
    assert forall|e: int| 0 <= e < n implies 0 <= (#[trigger] csr_key(c, e)).0 < d.rows && 0 <= csr_key(c, e).1
        < d.columns && stored[position(d, csr_key(c, e))] && c.values[e] == d.values[position(
        d,
        csr_key(c, e),
    )] by {
        lemma_key_row(c, e);
        assert(csr_target(c, d.order, e) == sources[e]);
    }
    assert forall|e1: int, e2: int| 0 <= e1 < e2 < n implies lex_less(#[trigger] csr_key(c, e1), #[trigger] csr_key(c, e2)) by {
        let r1 = lemma_key_row(c, e1);
        let r2 = lemma_key_row(c, e2);
        lemma_rows_in_order(c, e1, e2);
        if r1 == r2 {
            assert(c.column_indices[e1] < c.column_indices[e2]);
        }
    }
    assert forall|r: int, col: int| 0 <= r < d.rows && 0 <= col < d.columns && #[trigger] stored[position(d, (r, col))]
        implies exists|e: int| 0 <= e < n && csr_key(c, e) == (r, col) by {
        lemma_dense_offset(d.rows as int, d.columns as int, d.order, r, col);
        let p = position(d, (r, col));
        assert(stored[p]);
        let e = choose|e: int| 0 <= e < sources.len() && sources[e] == p;
        let k = csr_key(c, e);
        lemma_key_row(c, e);
        assert(csr_target(c, d.order, e) == sources[e]);
        assert(dense_offset(d.rows as int, d.columns as int, d.order, k.0, k.1) == p);
        assert(k == (r, col));
    }
}

/// The CSR form of the CSC form of a dense matrix lists exactly its stored
/// elements.
proof fn lemma_csc_csr_holds<V>(d: DenseView<V>, stored: Seq<bool>, base: IndexBase, s: CscView<V>, x: CsrView<V>)
    requires
        d.valid(),
        stored.len() == d.values.len(),
        csc_of_dense(s, d, stored, base),
        s.valid(),
        x.valid(),
        is_csr_of_csc(x, s),
    ensures
        holds_stored(x, d, stored),
{
    let src = lemma_dense_csc_sources(d, stored, base, s);
    let b = base_of(base);
    let n = x.column_indices.len() as int;
    let perm = choose|perm: Seq<u32>|
        transposed_pattern(
            s.columns as nat,
            s.rows as nat,
            base_of(s.base),
            s.column_offsets,
            s.row_indices,
            x.row_offsets,
            x.column_indices,
            perm,
        ) && x.values.len() == perm.len() && forall|d: int|
            0 <= d < perm.len() ==> #[trigger] x.values[d] == s.values[perm[d] as int];
    assert(offsets_valid(s.column_offsets, b, s.row_indices.len()));
    assert(offsets_valid(x.row_offsets, b, n as nat));
    // Each entry of `x` comes from the CSC entry `perm[e]`, in the row its
    // offsets give and the column that CSC entry sits in.
    assert forall|e: int| 0 <= e < n implies {
        &&& 0 <= #[trigger] perm[e] < s.row_indices.len()
        &&& csr_key(x, e) == (s.row_indices[perm[e] as int] - b, csc_column_of(s, perm[e] as int))
        &&& 0 <= csc_column_of(s, perm[e] as int) < s.columns
        &&& in_segment(s.column_offsets, b, csc_column_of(s, perm[e] as int), perm[e] as int)
    } by {
        let k = lemma_key_row(x, e);
        assert(in_segment(x.row_offsets, b, k, e));
        let j = perm[e] as int;
        let cc = lemma_segment_of(s.column_offsets, b, s.row_indices.len(), j);
        assert(in_segment(s.column_offsets, b, cc, j));
        assert(x.column_indices[e] == b + cc);
        let c2 = csc_column_of(s, j);
        assert(0 <= c2 < s.columns && in_segment(s.column_offsets, b, c2, j));
    }
    assert forall|e: int| 0 <= e < n implies 0 <= (#[trigger] csr_key(x, e)).0 < d.rows && 0 <= csr_key(x, e).1
        < d.columns && stored[position(d, csr_key(x, e))] && x.values[e] == d.values[position(
        d,
        csr_key(x, e),
    )] by {
        lemma_key_row(x, e);
        let j = perm[e] as int;
        assert(csc_target(s, d.order, j) == src[j]);
        assert(x.values[e] == s.values[j]);
    }
    assert forall|e1: int, e2: int| 0 <= e1 < e2 < n implies lex_less(#[trigger] csr_key(x, e1), #[trigger] csr_key(x, e2)) by {
        let r1 = lemma_key_row(x, e1);
        let r2 = lemma_key_row(x, e2);
        lemma_rows_in_order(x, e1, e2);
        if r1 == r2 {
            let j1 = perm[e1] as int;
            let j2 = perm[e2] as int;
            assert(in_segment(x.row_offsets, b, r1, e1) && in_segment(x.row_offsets, b, r1, e2));
            assert(j1 < j2);
            let c1 = csc_column_of(s, j1);
            let c2 = csc_column_of(s, j2);
            if c1 > c2 {
                assert(s.column_offsets[c2 + 1] <= s.column_offsets[c1]);
            }
            if c1 == c2 {
                assert(csc_target(s, d.order, j1) == src[j1]);
                assert(csc_target(s, d.order, j2) == src[j2]);
                assert(src[j1] != src[j2]);
            }
        }
    }
    lemma_regrouping_permutes(s.row_indices, b, s.rows as nat, x.row_offsets, perm);
    assert forall|r: int, col: int| 0 <= r < d.rows && 0 <= col < d.columns && #[trigger] stored[position(d, (r, col))]
        implies exists|e: int| 0 <= e < n && csr_key(x, e) == (r, col) by {
        lemma_dense_offset(d.rows as int, d.columns as int, d.order, r, col);
        let p = position(d, (r, col));
        assert(stored[p]);
        let j = choose|j: int| 0 <= j < src.len() && src[j] == p;
        assert(perm.contains(j as u32));
        let e = choose|e: int| 0 <= e < perm.len() && perm[e] == j as u32;
        let k = csr_key(x, e);
        lemma_key_row(x, e);
        assert(csc_target(s, d.order, j) == src[j]);
        assert(dense_offset(d.rows as int, d.columns as int, d.order, k.0, k.1) == p);
        assert(k == (r, col));
    }
}

/// Converting a dense matrix to CSC and that to CSR gives the same matrix as
/// converting it to CSR directly: the same shape, base, row offsets, column
/// indices and values.
pub proof fn law_csc_route_matches_csr<V>(
    d: DenseView<V>,
    stored: Seq<bool>,
    base: IndexBase,
    direct: CsrView<V>,
    csc: CscView<V>,
    routed: CsrView<V>,
)
    requires
        d.valid(),
        stored.len() == d.values.len(),
        csr_of_dense(direct, d, stored, base),
        direct.valid(),
        csc_of_dense(csc, d, stored, base),
        csc.valid(),
        routed.valid(),
        is_csr_of_csc(routed, csc),
    ensures
        routed == direct,
{
    lemma_dense_csr_holds(d, stored, base, direct);
    lemma_csc_csr_holds(d, stored, base, csc, routed);
    lemma_holds_stored_unique(routed, direct, d, stored);
}

} // verus!
