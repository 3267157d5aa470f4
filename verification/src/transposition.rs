//! A CSR matrix has one transpose, reached through one permutation of its
//! entries; transposing twice gives the matrix back when each row lists its
//! entries in column order.

use vstd::prelude::*;
use crate::csr::{is_transpose_of, transpose_of, CsrView};
use crate::pattern::{
    count_below, count_key, in_segment, indices_in_range, lemma_count_below_step, lemma_count_key_bound, lemma_segment_of,
    offsets_valid, sorted_by_key,
};
use crate::base_of;

verus! {

/// Each row of `m` lists its entries in nondecreasing column order.
pub open spec fn rows_sorted<V>(m: CsrView<V>) -> bool {
    forall|r: int, e1: int, e2: int|
        #![trigger m.entry_in_row(r, e1), m.entry_in_row(r, e2)]
        m.entry_in_row(r, e1) && m.entry_in_row(r, e2) && e1 < e2 ==> m.column_indices[e1] <= m.column_indices[e2]
}

/// The entry of `m` that entry `x` of the double transpose came from.
pub open spec fn origin(p: Seq<u32>, q: Seq<u32>, x: int) -> int {
    p[q[x] as int] as int
}

/// Where an entry `x` of row `r` of the double transpose comes from: an
/// entry of row `r` of `m` with the same column.
proof fn lemma_origin<V>(m: CsrView<V>, t: CsrView<V>, p: Seq<u32>, tt: CsrView<V>, q: Seq<u32>, r: int, x: int)
    requires
        m.valid(),
        t.valid(),
        is_transpose_of(t, m, p),
        is_transpose_of(tt, t, q),
        0 <= r < m.rows,
        in_segment(tt.row_offsets, base_of(m.base), r, x),
        0 <= x < q.len(),
    ensures
        m.entry_in_row(r, origin(p, q, x)),
        tt.column_indices[x] == m.column_indices[origin(p, q, x)],
{
    let b = base_of(m.base);
    let n = m.column_indices.len();
    let d = q[x] as int;
    assert(t.column_indices[d] == b + r);
    let k = lemma_segment_of(t.row_offsets, b, n, d);
    assert(in_segment(t.row_offsets, b, k, d));
    assert(m.column_indices[p[d] as int] == b + k);
    let e = p[d] as int;
    let r2 = lemma_segment_of(m.row_offsets, b, n, e);
    assert(in_segment(m.row_offsets, b, r2, p[d] as int));
    assert(t.column_indices[d] == b + r2);
    assert(tt.column_indices[x] == b + k);
}

/// Within a row of the double transpose, later entries come from later
/// entries of `m`.
proof fn lemma_origin_increasing<V>(
    m: CsrView<V>,
    t: CsrView<V>,
    p: Seq<u32>,
    tt: CsrView<V>,
    q: Seq<u32>,
    r: int,
    x1: int,
    x2: int,
)
    requires
        m.valid(),
        t.valid(),
        rows_sorted(m),
        is_transpose_of(t, m, p),
        is_transpose_of(tt, t, q),
        0 <= r < m.rows,
        in_segment(tt.row_offsets, base_of(m.base), r, x1),
        in_segment(tt.row_offsets, base_of(m.base), r, x2),
        0 <= x1 < x2 < q.len(),
    ensures
        origin(p, q, x1) < origin(p, q, x2),
{
    let b = base_of(m.base);
    let n = m.column_indices.len();
    let d1 = q[x1] as int;
    let d2 = q[x2] as int;
    assert(d1 < d2);
    let k1 = lemma_segment_of(t.row_offsets, b, n, d1);
    let k2 = lemma_segment_of(t.row_offsets, b, n, d2);
    lemma_origin(m, t, p, tt, q, r, x1);
    lemma_origin(m, t, p, tt, q, r, x2);
    let e1 = origin(p, q, x1);
    let e2 = origin(p, q, x2);
    assert(m.column_indices[e1] == b + k1);
    assert(m.column_indices[e2] == b + k2);
    if k1 > k2 {
        assert(t.row_offsets[k2 + 1] <= t.row_offsets[k1]);
    } else if k1 == k2 {
        assert(in_segment(t.row_offsets, b, k1, d1) && in_segment(t.row_offsets, b, k1, d2));
    } else {
        if e2 <= e1 {
            if e2 < e1 {
                assert(m.column_indices[e2] <= m.column_indices[e1]);
            }
        }
    }
}

/// Entries of row `r` of the double transpose come from distinct entries of
/// row `r` of `m`, in order: row `r` is no longer than in `m`, and its `i`-th
/// entry comes from entry `i` of the row in `m` or a later one.
proof fn lemma_row_fits<V>(m: CsrView<V>, t: CsrView<V>, p: Seq<u32>, tt: CsrView<V>, q: Seq<u32>, r: int, i: int)
    requires
        m.valid(),
        t.valid(),
        tt.valid(),
        rows_sorted(m),
        is_transpose_of(t, m, p),
        is_transpose_of(tt, t, q),
        0 <= r < m.rows,
        0 <= i < tt.row_offsets[r + 1] - tt.row_offsets[r],
    ensures
        origin(p, q, tt.row_offsets[r] - base_of(m.base) + i) >= m.row_offsets[r] - base_of(m.base) + i,
    decreases i,
{
    let b = base_of(m.base);
    let x = tt.row_offsets[r] - b + i;
    assert(tt.row_offsets[r] <= tt.row_offsets[r + 1] <= tt.row_offsets[m.rows as int]);
    assert(in_segment(tt.row_offsets, b, r, x));
    lemma_origin(m, t, p, tt, q, r, x);
    if i > 0 {
        lemma_row_fits(m, t, p, tt, q, r, i - 1);
        assert(in_segment(tt.row_offsets, b, r, x - 1));
        lemma_origin_increasing(m, t, p, tt, q, r, x - 1, x);
    }
}

/// Row `r` of the double transpose has at most as many entries as row `r`
/// of `m`.
proof fn lemma_row_not_longer<V>(m: CsrView<V>, t: CsrView<V>, p: Seq<u32>, tt: CsrView<V>, q: Seq<u32>, r: int)
    requires
        m.valid(),
        t.valid(),
        tt.valid(),
        rows_sorted(m),
        is_transpose_of(t, m, p),
        is_transpose_of(tt, t, q),
        0 <= r < m.rows,
    ensures
        tt.row_offsets[r + 1] - tt.row_offsets[r] <= m.row_offsets[r + 1] - m.row_offsets[r],
{
    let b = base_of(m.base);
    let s = tt.row_offsets[r + 1] - tt.row_offsets[r];
    assert(tt.row_offsets[r] <= tt.row_offsets[r + 1]);
    if s > 0 {
        lemma_row_fits(m, t, p, tt, q, r, s - 1);
        let x = tt.row_offsets[r] - b + s - 1;
        assert(tt.row_offsets[r + 1] <= tt.row_offsets[m.rows as int]);
        assert(in_segment(tt.row_offsets, b, r, x));
        lemma_origin(m, t, p, tt, q, r, x);
    }
}

/// The double transpose has the row offsets of `m`.
proof fn lemma_same_offsets<V>(m: CsrView<V>, t: CsrView<V>, p: Seq<u32>, tt: CsrView<V>, q: Seq<u32>)
    requires
        m.valid(),
        t.valid(),
        tt.valid(),
        rows_sorted(m),
        is_transpose_of(t, m, p),
        is_transpose_of(tt, t, q),
    ensures
        tt.row_offsets == m.row_offsets,
{
    let rows = m.rows as int;
    assert forall|r: int| 0 <= r < rows implies #[trigger] (tt.row_offsets[r + 1] - tt.row_offsets[r]) <= m.row_offsets[r
        + 1] - m.row_offsets[r] by {
        lemma_row_not_longer(m, t, p, tt, q, r);
    }
    lemma_offsets_below(m.row_offsets, tt.row_offsets, rows, rows);
    lemma_offsets_above(m.row_offsets, tt.row_offsets, rows, 0);
    assert(tt.row_offsets =~= m.row_offsets);
}

/// Offsets that start equal and grow no faster stay at or below.
proof fn lemma_offsets_below(a: Seq<u32>, s: Seq<u32>, rows: int, k: int)
    requires
        a.len() == rows + 1,
        s.len() == rows + 1,
        s[0] == a[0],
        0 <= k <= rows,
        forall|r: int| 0 <= r < rows ==> #[trigger] (s[r + 1] - s[r]) <= a[r + 1] - a[r],
    ensures
        forall|j: int| 0 <= j <= k ==> s[j] <= a[j],
    decreases k,
{
    if k > 0 {
        lemma_offsets_below(a, s, rows, k - 1);
        assert(s[k - 1 + 1] - s[k - 1] <= a[k - 1 + 1] - a[k - 1]);
    }
}

/// Offsets that end equal and grow no faster stay at or above.
proof fn lemma_offsets_above(a: Seq<u32>, s: Seq<u32>, rows: int, k: int)
    requires
        a.len() == rows + 1,
        s.len() == rows + 1,
        s[rows] == a[rows],
        0 <= k <= rows,
        forall|r: int| 0 <= r < rows ==> #[trigger] (s[r + 1] - s[r]) <= a[r + 1] - a[r],
    ensures
        forall|j: int| k <= j <= rows ==> s[j] >= a[j],
    decreases rows - k,
{
    if k < rows {
        lemma_offsets_above(a, s, rows, k + 1);
        assert(s[k + 1] - s[k] <= a[k + 1] - a[k]);
    }
}


/// With the row offsets of `m`, the `j`-th entry from the end of row `r` of
/// the double transpose comes from that entry of row `r` of `m` or an
/// earlier one.
proof fn lemma_row_fits_back<V>(m: CsrView<V>, t: CsrView<V>, p: Seq<u32>, tt: CsrView<V>, q: Seq<u32>, r: int, j: int)
    requires
        m.valid(),
        t.valid(),
        tt.valid(),
        rows_sorted(m),
        is_transpose_of(t, m, p),
        is_transpose_of(tt, t, q),
        tt.row_offsets == m.row_offsets,
        0 <= r < m.rows,
        0 <= j < m.row_offsets[r + 1] - m.row_offsets[r],
    ensures
        origin(p, q, m.row_offsets[r + 1] - base_of(m.base) - 1 - j) <= m.row_offsets[r + 1] - base_of(m.base) - 1 - j,
    decreases j,
{
    let b = base_of(m.base);
    let y = m.row_offsets[r + 1] - b - 1 - j;
    assert(m.row_offsets[r] <= m.row_offsets[r + 1] <= m.row_offsets[m.rows as int]);
    assert(in_segment(tt.row_offsets, b, r, y));
    lemma_origin(m, t, p, tt, q, r, y);
    if j > 0 {
        lemma_row_fits_back(m, t, p, tt, q, r, j - 1);
        assert(in_segment(tt.row_offsets, b, r, y + 1));
        lemma_origin_increasing(m, t, p, tt, q, r, y, y + 1);
    }
}

/// Transposing twice gives the matrix back when each row lists its entries
/// in column order: same shape, base, row offsets, column indices and
/// values. (Transposition orders each row by column, stably, so this is
/// exactly the case in which the second transpose undoes the first.)
pub proof fn law_transpose_twice<V>(m: CsrView<V>, t: CsrView<V>, tt: CsrView<V>)
    requires
        m.valid(),
        t.valid(),
        tt.valid(),
        rows_sorted(m),
        transpose_of(t, m),
        transpose_of(tt, t),
    ensures
        tt == m,
{
    let p = choose|p: Seq<u32>| is_transpose_of(t, m, p);
    let q = choose|q: Seq<u32>| is_transpose_of(tt, t, q);
    let b = base_of(m.base);
    let n = m.column_indices.len();
    lemma_same_offsets(m, t, p, tt, q);
    assert forall|x: int| 0 <= x < n implies origin(p, q, x) == x by {
        let r = lemma_segment_of(m.row_offsets, b, n, x);
        let i = x - (m.row_offsets[r] - b);
        let j = m.row_offsets[r + 1] - b - 1 - x;
        lemma_row_fits(m, t, p, tt, q, r, i);
        lemma_row_fits_back(m, t, p, tt, q, r, j);
    }
    assert forall|x: int| 0 <= x < n implies #[trigger] tt.column_indices[x] == m.column_indices[x] by {
        let r = lemma_segment_of(m.row_offsets, b, n, x);
        assert(origin(p, q, x) == x);
        lemma_origin(m, t, p, tt, q, r, x);
    }
    assert forall|x: int| 0 <= x < n implies #[trigger] tt.values[x] == m.values[x] by {
        assert(origin(p, q, x) == x);
        assert(tt.values[x] == t.values[q[x] as int]);
    }
    assert(q.len() == t.column_indices.len() && t.column_indices.len() == p.len() && p.len() == n);
    assert(m.values.len() == n);
    assert(tt.column_indices =~= m.column_indices);
    assert(tt.values =~= m.values);
}


/// `p` lists each of `0..n` exactly once.
pub open spec fn is_permutation(p: Seq<u32>, n: nat) -> bool {
    &&& p.len() == n
    &&& forall|d: int| 0 <= d < n ==> #[trigger] p[d] < n
    &&& forall|d1: int, d2: int| 0 <= d1 < n && 0 <= d2 < n && d1 != d2 ==> #[trigger] p[d1] != #[trigger] p[d2]
    &&& forall|e: u32| e < n ==> #[trigger] p.contains(e)
}

/// A strictly increasing run of positions in `[lo, hi)` whose keys all encode
/// `k` takes at least as many of the keys in that range that encode `k`.
proof fn lemma_run_count(keys: Seq<u32>, base: u32, k: int, perm: Seq<u32>, lo_d: int, hi_d: int, lo: int, hi: int)
    requires
        0 <= lo_d <= hi_d <= perm.len(),
        0 <= lo <= hi <= keys.len(),
        forall|d: int| lo_d <= d < hi_d ==> lo <= #[trigger] perm[d] < hi && keys[perm[d] as int] == base + k,
        forall|d1: int, d2: int| lo_d <= d1 < d2 < hi_d ==> #[trigger] perm[d1] < #[trigger] perm[d2],
    ensures
        count_key(keys, base, k, hi) >= count_key(keys, base, k, lo) + (hi_d - lo_d),
    decreases hi_d - lo_d,
{
    if lo_d < hi_d {
        let x = perm[hi_d - 1] as int;
        assert forall|d: int| lo_d <= d < hi_d - 1 implies lo <= #[trigger] perm[d] < x && keys[perm[d] as int]
            == base + k by {
            assert(perm[d] < perm[hi_d - 1]);
        }
        lemma_run_count(keys, base, k, perm, lo_d, hi_d - 1, lo, x);
        assert(count_key(keys, base, k, x + 1) == count_key(keys, base, k, x) + 1);
        lemma_count_key_bound(keys, base, k, x + 1, hi);
    } else {
        lemma_count_key_bound(keys, base, k, lo, hi);
    }
}

/// Two distinct positions whose keys encode `k` have different numbers of
/// earlier keys that encode `k`.
proof fn lemma_rank_distinct(keys: Seq<u32>, base: u32, k: int, a: int, b: int)
    requires
        0 <= a < b < keys.len(),
        keys[a] == base + k,
    ensures
        count_key(keys, base, k, b) >= count_key(keys, base, k, a) + 1,
{
    assert(count_key(keys, base, k, a + 1) == count_key(keys, base, k, a) + 1);
    lemma_count_key_bound(keys, base, k, a + 1, b);
}

/// Entry `d` of a regrouping by key lies in group `k`: it is a position
/// whose key encodes `k`, with exactly as many positions of that key before
/// it as `d` has before it in its group.
proof fn lemma_rank(keys: Seq<u32>, base: u32, key_count: nat, offsets: Seq<u32>, perm: Seq<u32>, k: int, d: int)
    requires
        sorted_by_key(keys, base, key_count, offsets, perm),
        offsets_valid(offsets, base, keys.len()),
        0 <= k < key_count,
        in_segment(offsets, base, k, d),
    ensures
        0 <= perm[d] < keys.len(),
        keys[perm[d] as int] == base + k,
        count_key(keys, base, k, perm[d] as int) == d - (offsets[k] - base),
        offsets[k + 1] - offsets[k] == count_key(keys, base, k, keys.len() as int),
{
    let n = keys.len() as int;
    let start = offsets[k] - base;
    let end = offsets[k + 1] - base;
    lemma_count_below_step(keys, base, k, n);
    assert(offsets[k] == base + count_below(keys, base, k, n));
    assert(offsets[k + 1] == base + count_below(keys, base, k + 1, n));
    assert(offsets[k + 1] <= offsets[key_count as int]);
    let x = perm[d] as int;
    assert forall|d2: int| start <= d2 < d implies 0 <= #[trigger] perm[d2] < x && keys[perm[d2] as int] == base + k by {
        assert(in_segment(offsets, base, k, d2));
    }
    assert forall|d1: int, d2: int| start <= d1 < d2 < d implies #[trigger] perm[d1] < #[trigger] perm[d2] by {
        assert(in_segment(offsets, base, k, d1) && in_segment(offsets, base, k, d2));
    }
    lemma_run_count(keys, base, k, perm, start, d, 0, x);
    assert forall|d2: int| d + 1 <= d2 < end implies x + 1 <= #[trigger] perm[d2] < n && keys[perm[d2] as int] == base
        + k by {
        assert(in_segment(offsets, base, k, d2));
    }
    assert forall|d1: int, d2: int| d + 1 <= d1 < d2 < end implies #[trigger] perm[d1] < #[trigger] perm[d2] by {
        assert(in_segment(offsets, base, k, d1) && in_segment(offsets, base, k, d2));
    }
    lemma_run_count(keys, base, k, perm, d + 1, end, x + 1, n);
    assert(count_key(keys, base, k, x + 1) == count_key(keys, base, k, x) + 1);
}

/// A regrouping by key of keys that are all in range lists each position
/// exactly once.
pub(crate) proof fn lemma_regrouping_permutes(keys: Seq<u32>, base: u32, key_count: nat, offsets: Seq<u32>, perm: Seq<u32>)
    requires
        sorted_by_key(keys, base, key_count, offsets, perm),
        offsets_valid(offsets, base, keys.len()),
        indices_in_range(keys, base, key_count),
    ensures
        is_permutation(perm, keys.len()),
{
    let n = keys.len() as int;
    assert forall|d1: int, d2: int| 0 <= d1 < n && 0 <= d2 < n && d1 != d2 implies #[trigger] perm[d1]
        != #[trigger] perm[d2] by {
        let k1 = lemma_segment_of(offsets, base, n as nat, d1);
        let k2 = lemma_segment_of(offsets, base, n as nat, d2);
        lemma_rank(keys, base, key_count, offsets, perm, k1, d1);
        lemma_rank(keys, base, key_count, offsets, perm, k2, d2);
        if k1 == k2 {
            assert(in_segment(offsets, base, k1, d1) && in_segment(offsets, base, k1, d2));
        }
    }
    assert forall|e32: u32| e32 < n implies #[trigger] perm.contains(e32) by {
        let e = e32 as int;
        assert(base <= keys[e] < base + key_count);
        let k = keys[e] - base;
        let i = count_key(keys, base, k, e) as int;
        assert(count_key(keys, base, k, e + 1) == i + 1);
        lemma_count_key_bound(keys, base, k, e + 1, n);
        lemma_count_below_step(keys, base, k, n);
        assert(offsets[k] == base + count_below(keys, base, k, n));
        assert(offsets[k + 1] == base + count_below(keys, base, k + 1, n));
        let d = offsets[k] - base + i;
        assert(offsets[k + 1] <= offsets[key_count as int]);
        assert(in_segment(offsets, base, k, d));
        lemma_rank(keys, base, key_count, offsets, perm, k, d);
        if (perm[d] as int) < e {
            lemma_rank_distinct(keys, base, k, perm[d] as int, e);
        } else if e < perm[d] {
            lemma_rank_distinct(keys, base, k, e, perm[d] as int);
        }
        assert(perm[d] == e32);
    }
}

/// Any two transposes of `m` are the same matrix through the same
/// permutation, and that permutation lists each entry of `m` exactly once.
proof fn lemma_transpose_unique<V>(m: CsrView<V>, t1: CsrView<V>, p1: Seq<u32>, t2: CsrView<V>, p2: Seq<u32>)
    requires
        m.valid(),
        t1.valid(),
        t2.valid(),
        is_transpose_of(t1, m, p1),
        is_transpose_of(t2, m, p2),
    ensures
        t1 == t2,
        p1 == p2,
        is_permutation(p1, m.nnz()),
{
    let b = base_of(m.base);
    let keys = m.column_indices;
    let n = keys.len() as int;
    let cols = m.columns as int;
    assert forall|k: int| 0 <= k <= cols implies #[trigger] t1.row_offsets[k] == t2.row_offsets[k] by {
        assert(t1.row_offsets[k] == b + count_below(keys, b, k, n));
        assert(t2.row_offsets[k] == b + count_below(keys, b, k, n));
    }
    assert(t1.row_offsets =~= t2.row_offsets);
    assert(offsets_valid(t1.row_offsets, b, n as nat));
    assert forall|d: int| 0 <= d < n implies #[trigger] p1[d] == p2[d] by {
        let k = lemma_segment_of(t1.row_offsets, b, n as nat, d);
        lemma_rank(keys, b, m.columns as nat, t1.row_offsets, p1, k, d);
        lemma_rank(keys, b, m.columns as nat, t2.row_offsets, p2, k, d);
        if p1[d] < p2[d] {
            lemma_rank_distinct(keys, b, k, p1[d] as int, p2[d] as int);
        } else if p2[d] < p1[d] {
            lemma_rank_distinct(keys, b, k, p2[d] as int, p1[d] as int);
        }
    }
    assert(p1 =~= p2);
    assert forall|d: int| 0 <= d < n implies #[trigger] t1.column_indices[d] == t2.column_indices[d] by {
        let r = lemma_segment_of(m.row_offsets, b, n as nat, p1[d] as int);
        assert(in_segment(m.row_offsets, b, r, p1[d] as int));
        assert(in_segment(m.row_offsets, b, r, p2[d] as int));
    }
    assert(t1.column_indices =~= t2.column_indices);
    assert forall|d: int| 0 <= d < n implies #[trigger] t1.values[d] == t2.values[d] by {
        assert(t1.values[d] == m.values[p1[d] as int]);
    }
    assert(t1.values =~= t2.values);
    lemma_regrouping_permutes(keys, b, m.columns as nat, t1.row_offsets, p1);
}

/// Transposing gives one matrix: a transpose of `m` and a transpose taken
/// together with its permutation are the same matrix, and the permutation
/// lists each entry of `m` exactly once.
pub proof fn law_transpose_permutation<V>(m: CsrView<V>, t: CsrView<V>, tp: CsrView<V>, perm: Seq<u32>)
    requires
        m.valid(),
        t.valid(),
        tp.valid(),
        transpose_of(t, m),
        is_transpose_of(tp, m, perm),
    ensures
        t == tp,
        is_permutation(perm, m.nnz()),
{
    let p = choose|p: Seq<u32>| is_transpose_of(t, m, p);
    lemma_transpose_unique(m, t, p, tp, perm);
}

} // verus!
