//! What the terms of a sampled product are: exactly the pairs of an entry of
//! `a` and an entry of `b` that meet in a row of the sampling pattern and
//! whose column, decoded with `b`'s index base, is the column of the pattern
//! entry, decoded with the pattern's base.

use vstd::prelude::*;
use crate::csr::CsrView;
use crate::pattern::indices_in_range;
use crate::symbolic::{lemma_segment_bounds, selects_rows};
use crate::terms::{matching, reached_pairs, row_first, row_last, same_triples, sampled_row_terms, sampled_terms, selected_row};
use crate::base_of;

verus! {

/// Entry `k` of `a` and entry `e` of `b` contribute to entry `p` of the
/// sampling pattern `s`: all three sit in row `r` (of `s` and `a`) and in the
/// row of `b` that `k`'s column selects, and `e`'s column is `p`'s column,
/// each column decoded with its own matrix's index base.
pub open spec fn contributes(s: CsrView<()>, a: CsrView<()>, b: CsrView<()>, r: int, p: int, k: int, e: int) -> bool {
    &&& s.entry_in_row(r, p)
    &&& a.entry_in_row(r, k)
    &&& b.entry_in_row(a.column_indices[k] - base_of(a.base), e)
    &&& b.column_indices[e] - base_of(b.base) == s.column_indices[p] - base_of(s.base)
}

/// Term `t` lists a pattern entry, an entry of `a` and an entry of `b`, the
/// last two contributing to the first.
pub open spec fn term_contributes(s: CsrView<()>, a: CsrView<()>, b: CsrView<()>, t: (u32, u32, u32)) -> bool {
    exists|r: int| contributes(s, a, b, r, t.0 as int, t.1 as int, t.2 as int)
}

/// Every term of `terms` lists entries that contribute.
pub open spec fn terms_contribute(s: CsrView<()>, a: CsrView<()>, b: CsrView<()>, terms: Seq<(u32, u32, u32)>) -> bool {
    forall|i: int| 0 <= i < terms.len() ==> #[trigger] term_contributes(s, a, b, terms[i])
}

/// Every contributing triple is listed in `terms`.
pub open spec fn contributions_listed(s: CsrView<()>, a: CsrView<()>, b: CsrView<()>, terms: Seq<(u32, u32, u32)>) -> bool {
    forall|r: int, p: int, k: int, e: int|
        #[trigger] contributes(s, a, b, r, p, k, e) ==> exists|i: int|
            0 <= i < terms.len() && terms[i].0 == p && terms[i].1 == k && terms[i].2 == e
}

proof fn lemma_push_contains<T>(s: Seq<T>, v: T, x: T)
    ensures
        s.push(v).contains(x) <==> s.contains(x) || v == x,
{
    if s.push(v).contains(x) {
        let i = choose|i: int| 0 <= i < s.push(v).len() && s.push(v)[i] == x;
        if i < s.len() {
            assert(s[i] == x);
        }
    }
    if s.contains(x) {
        let i = choose|i: int| 0 <= i < s.len() && s[i] == x;
        assert(s.push(v)[i] == x);
    }
    if v == x {
        assert(s.push(v)[s.len() as int] == x);
    }
}

proof fn lemma_concat_contains<T>(s1: Seq<T>, s2: Seq<T>, x: T)
    ensures
        (s1 + s2).contains(x) <==> s1.contains(x) || s2.contains(x),
{
    if (s1 + s2).contains(x) {
        let i = choose|i: int| 0 <= i < (s1 + s2).len() && (s1 + s2)[i] == x;
        if i < s1.len() {
            assert(s1[i] == x);
        } else {
            assert(s2[i - s1.len()] == x);
        }
    }
    if s1.contains(x) {
        let i = choose|i: int| 0 <= i < s1.len() && s1[i] == x;
        assert((s1 + s2)[i] == x);
    }
    if s2.contains(x) {
        let i = choose|i: int| 0 <= i < s2.len() && s2[i] == x;
        assert((s1 + s2)[s1.len() + i] == x);
    }
}

/// `matching` keeps exactly the pairs whose entry of `b` lies in `column`.
proof fn lemma_matching_contains(pairs: Seq<(int, int)>, b: CsrView<()>, column: int, x: (int, int))
    ensures
        matching(pairs, b, column).contains(x) <==> pairs.contains(x) && b.column_indices[x.1] - base_of(b.base)
            == column,
    decreases pairs.len(),
{
    if pairs.len() == 0 {
    } else {
        let pre = pairs.drop_last();
        lemma_matching_contains(pre, b, column, x);
        assert(pairs =~= pre.push(pairs.last()));
        lemma_push_contains(pre, pairs.last(), x);
        lemma_push_contains(matching(pre, b, column), pairs.last(), x);
    }
}

/// The pairs reached through entries `first..k` of `a` are exactly the
/// entries `k'` among them with each entry of the row of `b` that `k'`
/// selects.
proof fn lemma_reached_contains(a: CsrView<()>, b: CsrView<()>, first: int, k: int, x: (int, int))
    requires
        a.valid(),
        b.valid(),
        selects_rows(a, b.rows as nat),
        0 <= first <= k <= a.column_indices.len(),
    ensures
        reached_pairs(a, b, first, k).contains(x) <==> first <= x.0 < k && b.entry_in_row(selected_row(a, x.0), x.1),
    decreases k - first,
{
    if k > first {
        lemma_reached_contains(a, b, first, k - 1, x);
        let i = selected_row(a, k - 1);
        assert(indices_in_range(a.column_indices, base_of(a.base), a.columns as nat));
        assert(0 <= i < b.rows);
        lemma_segment_bounds(b, i);
        let fresh = Seq::new((row_last(b, i) - row_first(b, i)) as nat, |j: int| (k - 1, row_first(b, i) + j));
        lemma_concat_contains(reached_pairs(a, b, first, k - 1), fresh, x);
        if fresh.contains(x) {
            let j = choose|j: int| 0 <= j < fresh.len() && fresh[j] == x;
            assert(x == (k - 1, row_first(b, i) + j));
        }
        if x.0 == k - 1 && b.entry_in_row(i, x.1) {
            assert(fresh[x.1 - row_first(b, i)] == x);
        }
    }
}

/// The terms of entries `first..q` of row `r` of the pattern are exactly the
/// pattern entries among them tagged onto each matching pair of the row.
proof fn lemma_row_terms_contains(
    s: CsrView<()>,
    a: CsrView<()>,
    b: CsrView<()>,
    r: int,
    first: int,
    q: int,
    t: (int, int, int),
)
    ensures
        sampled_row_terms(s, a, b, r, first, q).contains(t) <==> first <= t.0 < q && matching(
            reached_pairs(a, b, row_first(a, r), row_last(a, r)),
            b,
            s.column_indices[t.0] - base_of(s.base),
        ).contains((t.1, t.2)),
    decreases q - first,
{
    if q > first {
        let p = q - 1;
        lemma_row_terms_contains(s, a, b, r, first, q - 1, t);
        let m = matching(reached_pairs(a, b, row_first(a, r), row_last(a, r)), b, s.column_indices[p] - base_of(s.base));
        let tagged = m.map_values(|w: (int, int)| (p, w.0, w.1));
        lemma_concat_contains(sampled_row_terms(s, a, b, r, first, q - 1), tagged, t);
        if tagged.contains(t) {
            let i = choose|i: int| 0 <= i < tagged.len() && tagged[i] == t;
            assert(m[i] == (t.1, t.2));
        }
        if t.0 == p && m.contains((t.1, t.2)) {
            let i = choose|i: int| 0 <= i < m.len() && m[i] == (t.1, t.2);
            assert(tagged[i] == t);
        }
    }
}

/// A term of the first `n` rows comes from one of them.
proof fn lemma_terms_row(s: CsrView<()>, a: CsrView<()>, b: CsrView<()>, n: int, t: (int, int, int)) -> (r: int)
    requires
        sampled_terms(s, a, b, n).contains(t),
    ensures
        0 <= r < n,
        sampled_row_terms(s, a, b, r, row_first(s, r), row_last(s, r)).contains(t),
    decreases n,
{
    if n <= 0 {
        assert(false);
        0
    } else {
        let row = sampled_row_terms(s, a, b, n - 1, row_first(s, n - 1), row_last(s, n - 1));
        lemma_concat_contains(sampled_terms(s, a, b, n - 1), row, t);
        if row.contains(t) {
            n - 1
        } else {
            lemma_terms_row(s, a, b, n - 1, t)
        }
    }
}

/// A term of one of the first `n` rows is a term of those rows.
proof fn lemma_row_in_terms(s: CsrView<()>, a: CsrView<()>, b: CsrView<()>, n: int, r: int, t: (int, int, int))
    requires
        0 <= r < n,
        sampled_row_terms(s, a, b, r, row_first(s, r), row_last(s, r)).contains(t),
    ensures
        sampled_terms(s, a, b, n).contains(t),
    decreases n,
{
    let row = sampled_row_terms(s, a, b, n - 1, row_first(s, n - 1), row_last(s, n - 1));
    lemma_concat_contains(sampled_terms(s, a, b, n - 1), row, t);
    if r < n - 1 {
        lemma_row_in_terms(s, a, b, n - 1, r, t);
    }
}

/// The terms of sampling `a * b` at the entries of `s` are exactly the
/// triples `(p, k, e)` where entry `k` of `a` and entry `e` of `b` contribute
/// to entry `p` of `s`: every listed term contributes, and every
/// contributing triple is listed, whatever the index bases of the three
/// matrices.
pub proof fn law_sampled_terms_contribute(s: CsrView<()>, a: CsrView<()>, b: CsrView<()>, terms: Seq<(u32, u32, u32)>)
    requires
        s.valid(),
        a.valid(),
        b.valid(),
        s.rows <= a.rows,
        selects_rows(a, b.rows as nat),
        same_triples(terms, sampled_terms(s, a, b, s.rows as int)),
    ensures
        terms_contribute(s, a, b, terms),
        contributions_listed(s, a, b, terms),
{
    let want = sampled_terms(s, a, b, s.rows as int);
    assert forall|i: int| 0 <= i < terms.len() implies #[trigger] term_contributes(s, a, b, terms[i]) by {
        assert(terms[i].0 == want[i].0);
        let t = want[i];
        assert(terms[i].0 == t.0 && terms[i].1 == t.1 && terms[i].2 == t.2);
        assert(want.contains(t));
        let r = lemma_terms_row(s, a, b, s.rows as int, t);
        lemma_row_terms_contains(s, a, b, r, row_first(s, r), row_last(s, r), t);
        let col = s.column_indices[t.0] - base_of(s.base);
        let reached = reached_pairs(a, b, row_first(a, r), row_last(a, r));
        lemma_matching_contains(reached, b, col, (t.1, t.2));
        lemma_segment_bounds(a, r);
        lemma_reached_contains(a, b, row_first(a, r), row_last(a, r), (t.1, t.2));
        assert(contributes(s, a, b, r, t.0, t.1, t.2));
        assert(contributes(s, a, b, r, terms[i].0 as int, terms[i].1 as int, terms[i].2 as int));
    }
    assert forall|r: int, p: int, k: int, e: int| #[trigger] contributes(s, a, b, r, p, k, e) implies exists|i: int|
        0 <= i < terms.len() && terms[i].0 == p && terms[i].1 == k && terms[i].2 == e by {
        let t = (p, k, e);
        lemma_segment_bounds(a, r);
        lemma_reached_contains(a, b, row_first(a, r), row_last(a, r), (k, e));
        let col = s.column_indices[p] - base_of(s.base);
        let reached = reached_pairs(a, b, row_first(a, r), row_last(a, r));
        lemma_matching_contains(reached, b, col, (k, e));
        lemma_row_terms_contains(s, a, b, r, row_first(s, r), row_last(s, r), t);
        lemma_row_in_terms(s, a, b, s.rows as int, r, t);
        let i = choose|i: int| 0 <= i < want.len() && want[i] == t;
        assert(terms[i].0 == want[i].0);
        assert(terms[i].0 == p && terms[i].1 == k && terms[i].2 == e);
    }
}

} // verus!
