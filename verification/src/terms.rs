//! The terms of sparse products: which entry of the left operand meets which
//! entry of the right one, and where in the output their product is
//! accumulated, listed in the order the accumulation runs.

use vstd::prelude::*;
use crate::csr::CsrView;
use crate::pattern::{in_segment, indices_in_range};
use crate::symbolic::{
    find_in_range, law_product_row_columns, lemma_encoded_layout, lemma_found_in_row, lemma_segment_bounds,
    product_row, product_rows, rebase, row_laid_out, row_sorted, selects_rows, sorted_rows, symbolic_outcome,
    CsrPattern, SymbolicOutput,
};
use crate::{base_of, SparseError};

verus! {

/// First and one-past-last entry of row `r` of `m`.
pub open spec fn row_first<V>(m: CsrView<V>, r: int) -> int {
    m.row_offsets[r] - base_of(m.base)
}

pub open spec fn row_last<V>(m: CsrView<V>, r: int) -> int {
    m.row_offsets[r + 1] - base_of(m.base)
}

/// The row of `b` that entry `k` of `a` selects.
pub open spec fn selected_row(a: CsrView<()>, k: int) -> int {
    a.column_indices[k] - base_of(a.base)
}

/// The pairs (entry of `a`, entry of `b`) met through entries `first..k` of
/// `a`: for each of those entries in order, every entry of the row of `b` it
/// selects, in order.
pub open spec fn reached_pairs(a: CsrView<()>, b: CsrView<()>, first: int, k: int) -> Seq<(int, int)>
    decreases k - first,
{
    if k <= first {
        Seq::empty()
    } else {
        let i = selected_row(a, k - 1);
        reached_pairs(a, b, first, k - 1) + Seq::new(
            (row_last(b, i) - row_first(b, i)) as nat,
            |j: int| (k - 1, row_first(b, i) + j),
        )
    }
}

/// The triples (row, entry of `a`, entry of `b`) of the first `n` rows of
/// `a * b`, in the order a row-by-row product visits them.
pub open spec fn product_pairs(a: CsrView<()>, b: CsrView<()>, n: int) -> Seq<(int, int, int)>
    decreases n,
{
    if n <= 0 {
        Seq::empty()
    } else {
        let r = n - 1;
        product_pairs(a, b, n - 1) + reached_pairs(a, b, row_first(a, r), row_last(a, r)).map_values(
            |q: (int, int)| (r, q.0, q.1),
        )
    }
}

/// Term `t` accumulates the product of the entries named by `w` at a position
/// of row `w.0` of the output that holds the column of `w`'s entry of `b`.
pub open spec fn term_lands(
    t: (u32, u32, u32),
    w: (int, int, int),
    b: CsrView<()>,
    offsets: Seq<u32>,
    indices: Seq<u32>,
    base: u32,
) -> bool {
    &&& t.0 == w.1
    &&& t.1 == w.2
    &&& in_segment(offsets, base, w.0, t.2 as int)
    &&& indices[t.2 as int] == rebase(b.column_indices[w.2], base_of(b.base), base)
}

/// The column of `w`'s entry of `b` occurs in row `w.0` of the output.
pub open spec fn term_found(w: (int, int, int), b: CsrView<()>, offsets: Seq<u32>, indices: Seq<u32>, base: u32) -> bool {
    exists|p: int| in_segment(offsets, base, w.0, p) && indices[p] == rebase(b.column_indices[w.2], base_of(b.base), base)
}

/// `terms` lists, for each triple of `wanted` in order, where its product lands.
pub open spec fn terms_land(
    terms: Seq<(u32, u32, u32)>,
    wanted: Seq<(int, int, int)>,
    b: CsrView<()>,
    offsets: Seq<u32>,
    indices: Seq<u32>,
    base: u32,
) -> bool {
    &&& terms.len() == wanted.len()
    &&& forall|i: int| 0 <= i < terms.len() ==> #[trigger] term_lands(terms[i], wanted[i], b, offsets, indices, base)
}

proof fn lemma_reached_step(a: CsrView<()>, b: CsrView<()>, first: int, k: int)
    requires
        first <= k,
    ensures
        reached_pairs(a, b, first, k + 1) == reached_pairs(a, b, first, k) + Seq::new(
            (row_last(b, selected_row(a, k)) - row_first(b, selected_row(a, k))) as nat,
            |j: int| (k, row_first(b, selected_row(a, k)) + j),
        ),
{
}

/// Every pair of entries that meet in row `r` of `a * b` finds the column of
/// its entry of `b` in row `r` of the output pattern.
pub open spec fn all_reached_found(a: CsrView<()>, b: CsrView<()>, offsets: Seq<u32>, indices: Seq<u32>, base: u32) -> bool {
    forall|r: int, k: int, e: int|
        #![trigger a.entry_in_row(r, k), b.entry_in_row(selected_row(a, k), e)]
        a.entry_in_row(r, k) && b.entry_in_row(selected_row(a, k), e) ==> term_found((r, k, e), b, offsets, indices, base)
}

/// The terms of `a * b` on its output pattern `out`: for every pair of
/// entries that meet, in row-by-row order, the position of the output that
/// accumulates their product.
pub(crate) fn product_terms(a: CsrPattern<'_>, b: CsrPattern<'_>, out: &SymbolicOutput) -> (r: Result<
    Vec<(u32, u32, u32)>,
    SparseError,
>)
    requires
        selects_rows(a@, b@.rows as nat),
        sorted_rows(out.row_offsets@, out.column_indices@, base_of(a@.base), a@.rows as nat),
        out.column_indices@.len() <= u32::MAX,
        all_reached_found(a@, b@, out.row_offsets@, out.column_indices@, base_of(a@.base)),
    ensures
        r matches Ok(terms) && terms_land(
            terms@,
            product_pairs(a@, b@, a@.rows as int),
            b@,
            out.row_offsets@,
            out.column_indices@,
            base_of(a@.base),
        ),
{
    proof {
        use_type_invariant(&a);
        use_type_invariant(&b);
    }
    let ghost av = a@;
    let ghost bv = b@;
    let ghost offsets = out.row_offsets@;
    let ghost indices = out.column_indices@;
    let a_base = a.index_base().value();
    let b_base = b.index_base().value();
    let out_base = a_base;
    let a_offsets = a.row_offsets();
    let a_indices = a.column_indices();
    let b_offsets = b.row_offsets();
    let b_indices = b.column_indices();
    let rows = a.rows();
    let mut terms: Vec<(u32, u32, u32)> = Vec::new();
    let mut row: usize = 0;
    while row < rows
        invariant
            av == a@,
            bv == b@,
            av.valid(),
            bv.valid(),
            selects_rows(av, bv.rows as nat),
            offsets == out.row_offsets@,
            indices == out.column_indices@,
            sorted_rows(offsets, indices, out_base, av.rows as nat),
            indices.len() <= u32::MAX,
            a_base == base_of(av.base),
            b_base == base_of(bv.base),
            out_base == a_base,
            a_offsets@ == av.row_offsets,
            a_indices@ == av.column_indices,
            b_offsets@ == bv.row_offsets,
            b_indices@ == bv.column_indices,
            rows == av.rows,
            row <= rows,
            terms_land(terms@, product_pairs(av, bv, row as int), bv, offsets, indices, out_base),
            all_reached_found(av, bv, offsets, indices, out_base),
        decreases rows - row,
    {
        proof {
            lemma_segment_bounds(av, row as int);
            assert(row_sorted(offsets, indices, out_base, row as int));
        }
        let first = (out.row_offsets[row] - out_base) as usize;
        let last = (out.row_offsets[row + 1] - out_base) as usize;
        let a_first = (a_offsets[row] - a_base) as usize;
        let a_last = (a_offsets[row + 1] - a_base) as usize;
        let ghost before = product_pairs(av, bv, row as int);
        let ghost tag = |q: (int, int)| (row as int, q.0, q.1);
        let mut k = a_first;
        while k < a_last
            invariant
                av == a@,
                bv == b@,
                av.valid(),
                bv.valid(),
                selects_rows(av, bv.rows as nat),
                offsets == out.row_offsets@,
                indices == out.column_indices@,
                row_sorted(offsets, indices, out_base, row as int),
                indices.len() <= u32::MAX,
                a_base == base_of(av.base),
                b_base == base_of(bv.base),
                out_base == a_base,
                a_offsets@ == av.row_offsets,
                a_indices@ == av.column_indices,
                b_offsets@ == bv.row_offsets,
                b_indices@ == bv.column_indices,
                row < rows,
                rows == av.rows,
                first == offsets[row as int] - out_base,
                last == offsets[row + 1] - out_base,
                a_first == row_first(av, row as int),
                a_last == row_last(av, row as int),
                a_first <= k <= a_last <= av.column_indices.len(),
                before == product_pairs(av, bv, row as int),
                tag == (|q: (int, int)| (row as int, q.0, q.1)),
                terms_land(
                    terms@,
                    before + reached_pairs(av, bv, a_first as int, k as int).map_values(tag),
                    bv,
                    offsets,
                    indices,
                    out_base,
                ),
                all_reached_found(av, bv, offsets, indices, out_base),
            decreases a_last - k,
        {
            proof {
                assert(indices_in_range(av.column_indices, a_base, av.columns as nat));
                assert(a_base <= av.column_indices[k as int]);
                assert(selected_row(av, k as int) < bv.rows);
                lemma_segment_bounds(bv, selected_row(av, k as int));
            }
            let inner = (a_indices[k] - a_base) as usize;
            let b_first = (b_offsets[inner] - b_base) as usize;
            let b_last = (b_offsets[inner + 1] - b_base) as usize;
            proof {
                assert(av.entry_in_row(row as int, k as int));
            }
            let ghost done = before + reached_pairs(av, bv, a_first as int, k as int).map_values(tag);
            let ghost fresh = |j: int| (row as int, k as int, b_first + j);
            let mut e = b_first;
            while e < b_last
                invariant
                    bv == b@,
                    bv.valid(),
                    offsets == out.row_offsets@,
                    indices == out.column_indices@,
                    row_sorted(offsets, indices, out_base, row as int),
                    indices.len() <= u32::MAX,
                    b_base == base_of(bv.base),
                    out_base <= 1,
                    b_indices@ == bv.column_indices,
                    first == offsets[row as int] - out_base,
                    last == offsets[row + 1] - out_base,
                    k < av.column_indices.len(),
                    b_first <= e <= b_last <= bv.column_indices.len(),
                    fresh == (|j: int| (row as int, k as int, b_first + j)),
                    terms_land(terms@, done + Seq::new((e - b_first) as nat, fresh), bv, offsets, indices, out_base),
                    all_reached_found(av, bv, offsets, indices, out_base),
                    av == a@,
                    av.valid(),
                    row < av.rows,
                    av.entry_in_row(row as int, k as int),
                    inner == selected_row(av, k as int),
                    inner < bv.rows,
                    b_first == row_first(bv, inner as int),
                    b_last == row_last(bv, inner as int),
                decreases b_last - e,
            {
                proof {
                    assert(indices_in_range(bv.column_indices, b_base, bv.columns as nat));
                    assert(b_base <= bv.column_indices[e as int] < b_base + bv.columns);
                }
                let moved = b_indices[e] - b_base + out_base;
                let ghost w = (row as int, k as int, e as int);
                let ghost grown = done + Seq::new((e - b_first + 1) as nat, fresh);
                proof {
                    assert(grown =~= (done + Seq::new((e - b_first) as nat, fresh)).push(w));
                }
                match find_in_range(&out.column_indices, first, last, moved) {
                    Some(position) => {
                        proof {
                            assert(offsets[row + 1] <= u32::MAX);
                        }
                        terms.push((k as u32, e as u32, position as u32));
                        proof {
                            assert(term_lands(terms@[terms@.len() - 1], w, bv, offsets, indices, out_base));
                            assert forall|i: int| 0 <= i < terms@.len() implies #[trigger] term_lands(
                                terms@[i],
                                grown[i],
                                bv,
                                offsets,
                                indices,
                                out_base,
                            ) by {
                                if i < terms@.len() - 1 {
                                    assert(grown[i] == (done + Seq::new((e - b_first) as nat, fresh))[i]);
                                }
                            }
                        }
                    },
                    None => {
                        proof {
                            assert(bv.entry_in_row(inner as int, e as int));
                            assert(term_found(w, bv, offsets, indices, out_base));
                            let p = choose|p: int| in_segment(offsets, out_base, row as int, p) && indices[p] == rebase(
                                bv.column_indices[e as int],
                                b_base,
                                out_base,
                            );
                            assert(indices[p] != moved);
                        }
                        return Err(SparseError::InvalidColumnIndex);
                    },
                }
                e = e + 1;
            }
            proof {
                lemma_reached_step(av, bv, a_first as int, k as int);
                let fresh_pairs = Seq::new((b_last - b_first) as nat, |j: int| (k as int, b_first + j));
                assert(reached_pairs(av, bv, a_first as int, k + 1).map_values(tag) =~= reached_pairs(
                    av,
                    bv,
                    a_first as int,
                    k as int,
                ).map_values(tag) + fresh_pairs.map_values(tag));
                assert(fresh_pairs.map_values(tag) =~= Seq::new((e - b_first) as nat, fresh));
                assert(before + reached_pairs(av, bv, a_first as int, k + 1).map_values(tag) =~= done + Seq::new(
                    (e - b_first) as nat,
                    fresh,
                ));
            }
            k = k + 1;
        }
        proof {
            assert(product_pairs(av, bv, row + 1) == before + reached_pairs(
                av,
                bv,
                a_first as int,
                a_last as int,
            ).map_values(tag));
        }
        row = row + 1;
    }
    Ok(terms)
}


/// The pattern that `symbolic_product` builds for `a * b` has strictly sorted
/// rows, and every pair of entries that meet in a row finds the column of its
/// entry of `b` in that row of the pattern: computing the terms of the
/// product on that pattern succeeds.
pub proof fn law_product_pattern_holds_terms(a: CsrView<()>, b: CsrView<()>, out: SymbolicOutput)
    requires
        a.valid(),
        b.valid(),
        selects_rows(a, b.rows as nat),
        symbolic_outcome(Ok(out), product_rows(a, b), base_of(a.base), "SpGEMM output nnz", "SpGEMM row offsets"),
    ensures
        sorted_rows(out.row_offsets@, out.column_indices@, base_of(a.base), a.rows as nat),
        all_reached_found(a, b, out.row_offsets@, out.column_indices@, base_of(a.base)),
        out.column_indices@.len() <= u32::MAX,
{
    let base = base_of(a.base);
    let rows = product_rows(a, b);
    let offsets = out.row_offsets@;
    let indices = out.column_indices@;
    lemma_encoded_layout(rows, base, "SpGEMM output nnz", "SpGEMM row offsets");
    assert forall|r: int| 0 <= r < a.rows implies #[trigger] row_sorted(offsets, indices, base, r) by {
        assert(row_laid_out(offsets, indices, base, rows, r));
        law_product_row_columns(a, b, r);
    }
    assert forall|r: int, k: int, e: int|
        #![trigger a.entry_in_row(r, k), b.entry_in_row(selected_row(a, k), e)]
        a.entry_in_row(r, k) && b.entry_in_row(selected_row(a, k), e) implies term_found(
            (r, k, e),
            b,
            offsets,
            indices,
            base,
        ) by {
        let c = rebase(b.column_indices[e], base_of(b.base), base);
        assert(row_laid_out(offsets, indices, base, rows, r));
        law_product_row_columns(a, b, r);
        assert(product_row(a, b, r).contains(c));
        assert(rows[r].to_set().contains(c));
        let p = lemma_found_in_row(offsets, indices, base, rows, r, c);
        assert(in_segment(offsets, base, r, p) && indices[p] == c);
    }
}


/// The pairs of `pairs` whose entry of `b` lies in column `column`.
pub open spec fn matching(pairs: Seq<(int, int)>, b: CsrView<()>, column: int) -> Seq<(int, int)>
    decreases pairs.len(),
{
    if pairs.len() == 0 {
        Seq::empty()
    } else {
        let rest = matching(pairs.drop_last(), b, column);
        if b.column_indices[pairs.last().1] - base_of(b.base) == column {
            rest.push(pairs.last())
        } else {
            rest
        }
    }
}

/// The terms of entries `first..q` of row `r` of the sampling pattern `s`:
/// for each of those entries in order, the pairs of row `r` of `a * b` whose
/// entry of `b` lies in the entry's column, tagged with the entry.
pub open spec fn sampled_row_terms(s: CsrView<()>, a: CsrView<()>, b: CsrView<()>, r: int, first: int, q: int) -> Seq<(int, int, int)>
    decreases q - first,
{
    if q <= first {
        Seq::empty()
    } else {
        let p = q - 1;
        sampled_row_terms(s, a, b, r, first, q - 1) + matching(
            reached_pairs(a, b, row_first(a, r), row_last(a, r)),
            b,
            s.column_indices[p] - base_of(s.base),
        ).map_values(|w: (int, int)| (p, w.0, w.1))
    }
}

/// The terms of the first `n` rows of the sampling pattern `s`.
pub open spec fn sampled_terms(s: CsrView<()>, a: CsrView<()>, b: CsrView<()>, n: int) -> Seq<(int, int, int)>
    decreases n,
{
    if n <= 0 {
        Seq::empty()
    } else {
        sampled_terms(s, a, b, n - 1) + sampled_row_terms(s, a, b, n - 1, row_first(s, n - 1), row_last(s, n - 1))
    }
}

/// `terms` holds the triples of `want`, in order.
pub open spec fn same_triples(terms: Seq<(u32, u32, u32)>, want: Seq<(int, int, int)>) -> bool {
    &&& terms.len() == want.len()
    &&& forall|i: int|
        0 <= i < terms.len() ==> #[trigger] terms[i].0 == want[i].0 && terms[i].1 == want[i].1 && terms[i].2 == want[i].2
}

proof fn lemma_same_triples_push(terms: Seq<(u32, u32, u32)>, want: Seq<(int, int, int)>, t: (u32, u32, u32), w: (int, int, int))
    requires
        same_triples(terms, want),
        t.0 == w.0 && t.1 == w.1 && t.2 == w.2,
    ensures
        same_triples(terms.push(t), want.push(w)),
{
    assert forall|i: int| 0 <= i < terms.len() + 1 implies #[trigger] terms.push(t)[i].0 == want.push(w)[i].0
        && terms.push(t)[i].1 == want.push(w)[i].1 && terms.push(t)[i].2 == want.push(w)[i].2 by {
        if i < terms.len() {
            assert(terms.push(t)[i] == terms[i]);
            assert(want.push(w)[i] == want[i]);
        }
    }
}

/// The terms of sampling `a * b` at the entries of `pattern`: for each entry
/// of the pattern, in order, every pair of entries of `a` and `b` whose
/// product contributes to it, as (pattern entry, entry of `a`, entry of `b`).
pub(crate) fn sampled_product_terms(pattern: CsrPattern<'_>, a: CsrPattern<'_>, b: CsrPattern<'_>) -> (terms: Vec<
    (u32, u32, u32),
>)
    requires
        selects_rows(a@, b@.rows as nat),
        pattern@.rows <= a@.rows,
    ensures
        same_triples(terms@, sampled_terms(pattern@, a@, b@, pattern@.rows as int)),
{
    proof {
        use_type_invariant(&pattern);
        use_type_invariant(&a);
        use_type_invariant(&b);
    }
    let ghost sv = pattern@;
    let ghost av = a@;
    let ghost bv = b@;
    let base = pattern.index_base().value();
    let a_base = a.index_base().value();
    let b_base = b.index_base().value();
    let offsets = pattern.row_offsets();
    let indices = pattern.column_indices();
    let a_offsets = a.row_offsets();
    let a_indices = a.column_indices();
    let b_offsets = b.row_offsets();
    let b_indices = b.column_indices();
    let rows = pattern.rows();
    let mut terms: Vec<(u32, u32, u32)> = Vec::new();
    let mut row: usize = 0;
    while row < rows
        invariant
            sv == pattern@,
            av == a@,
            bv == b@,
            sv.valid(),
            av.valid(),
            bv.valid(),
            selects_rows(av, bv.rows as nat),
            sv.rows <= av.rows,
            base == base_of(sv.base),
            a_base == base_of(av.base),
            b_base == base_of(bv.base),
            offsets@ == sv.row_offsets,
            indices@ == sv.column_indices,
            a_offsets@ == av.row_offsets,
            a_indices@ == av.column_indices,
            b_offsets@ == bv.row_offsets,
            b_indices@ == bv.column_indices,
            rows == sv.rows,
            row <= rows,
            same_triples(terms@, sampled_terms(sv, av, bv, row as int)),
        decreases rows - row,
    {
        proof {
            lemma_segment_bounds(sv, row as int);
            lemma_segment_bounds(av, row as int);
        }
        let p_first = (offsets[row] - base) as usize;
        let p_last = (offsets[row + 1] - base) as usize;
        let a_first = (a_offsets[row] - a_base) as usize;
        let a_last = (a_offsets[row + 1] - a_base) as usize;
        let ghost before = sampled_terms(sv, av, bv, row as int);
        let mut p = p_first;
        while p < p_last
            invariant
                sv == pattern@,
                av == a@,
                bv == b@,
                sv.valid(),
                av.valid(),
                bv.valid(),
                selects_rows(av, bv.rows as nat),
                base == base_of(sv.base),
                a_base == base_of(av.base),
                b_base == base_of(bv.base),
                indices@ == sv.column_indices,
                a_indices@ == av.column_indices,
                b_offsets@ == bv.row_offsets,
                b_indices@ == bv.column_indices,
                row < av.rows,
                p_first == row_first(sv, row as int),
                p_last == row_last(sv, row as int),
                p_first <= p <= p_last <= sv.column_indices.len(),
                sv.column_indices.len() <= u32::MAX,
                a_first == row_first(av, row as int),
                a_last == row_last(av, row as int),
                a_first <= a_last <= av.column_indices.len(),
                av.column_indices.len() <= u32::MAX,
                before == sampled_terms(sv, av, bv, row as int),
                same_triples(terms@, before + sampled_row_terms(sv, av, bv, row as int, p_first as int, p as int)),
            decreases p_last - p,
        {
            proof {
                assert(indices_in_range(sv.column_indices, base, sv.columns as nat));
            }
            let column = indices[p] - base;
            let ghost done = before + sampled_row_terms(sv, av, bv, row as int, p_first as int, p as int);
            let ghost tag = |w: (int, int)| (p as int, w.0, w.1);
            let mut k = a_first;
            while k < a_last
                invariant
                    av == a@,
                    bv == b@,
                    av.valid(),
                    bv.valid(),
                    selects_rows(av, bv.rows as nat),
                    a_base == base_of(av.base),
                    b_base == base_of(bv.base),
                    a_indices@ == av.column_indices,
                    b_offsets@ == bv.row_offsets,
                    b_indices@ == bv.column_indices,
                    a_first <= k <= a_last <= av.column_indices.len(),
                    av.column_indices.len() <= u32::MAX,
                    p < sv.column_indices.len() <= u32::MAX,
                    column == sv.column_indices[p as int] - base_of(sv.base),
                    tag == (|w: (int, int)| (p as int, w.0, w.1)),
                    same_triples(terms@, done + matching(reached_pairs(av, bv, a_first as int, k as int), bv, column as int).map_values(tag)),
                decreases a_last - k,
            {
                proof {
                    assert(indices_in_range(av.column_indices, a_base, av.columns as nat));
                    assert(a_base <= av.column_indices[k as int]);
                    assert(selected_row(av, k as int) < bv.rows);
                    lemma_segment_bounds(bv, selected_row(av, k as int));
                }
                let inner = (a_indices[k] - a_base) as usize;
                let b_first = (b_offsets[inner] - b_base) as usize;
                let b_last = (b_offsets[inner + 1] - b_base) as usize;
                let ghost reached = reached_pairs(av, bv, a_first as int, k as int);
                let ghost fresh = |j: int| (k as int, b_first + j);
                let mut e = b_first;
                while e < b_last
                    invariant
                        bv == b@,
                        bv.valid(),
                        b_base == base_of(bv.base),
                        b_indices@ == bv.column_indices,
                        b_first <= e <= b_last <= bv.column_indices.len(),
                        bv.column_indices.len() <= u32::MAX,
                        k < av.column_indices.len() <= u32::MAX,
                        p < sv.column_indices.len() <= u32::MAX,
                        fresh == (|j: int| (k as int, b_first + j)),
                        tag == (|w: (int, int)| (p as int, w.0, w.1)),
                        same_triples(terms@, done + matching(reached + Seq::new((e - b_first) as nat, fresh), bv, column as int).map_values(tag)),
                    decreases b_last - e,
                {
                    let ghost prev = reached + Seq::new((e - b_first) as nat, fresh);
                    let ghost next = reached + Seq::new((e - b_first + 1) as nat, fresh);
                    proof {
                        assert(next.drop_last() =~= prev);
                        assert(next.last() == (k as int, e as int));
                        assert(indices_in_range(bv.column_indices, b_base, bv.columns as nat));
                        assert(b_base <= bv.column_indices[e as int]);
                    }
                    if b_indices[e] - b_base == column {
                        proof {
                            lemma_same_triples_push(
                                terms@,
                                done + matching(prev, bv, column as int).map_values(tag),
                                (p as u32, k as u32, e as u32),
                                (p as int, k as int, e as int),
                            );
                            assert(done + matching(next, bv, column as int).map_values(tag) =~= (done + matching(
                                prev,
                                bv,
                                column as int,
                            ).map_values(tag)).push((p as int, k as int, e as int)));
                        }
                        terms.push((p as u32, k as u32, e as u32));
                    } else {
                        proof {
                            assert(matching(next, bv, column as int) == matching(prev, bv, column as int));
                        }
                    }
                    e = e + 1;
                }
                proof {
                    lemma_reached_step(av, bv, a_first as int, k as int);
                    assert(reached_pairs(av, bv, a_first as int, k + 1) =~= reached + Seq::new((e - b_first) as nat, fresh));
                }
                k = k + 1;
            }
            proof {
                assert(before + sampled_row_terms(sv, av, bv, row as int, p_first as int, p + 1) =~= done + matching(
                    reached_pairs(av, bv, a_first as int, a_last as int),
                    bv,
                    column as int,
                ).map_values(tag));
            }
            p = p + 1;
        }
        proof {
            assert(sampled_terms(sv, av, bv, row + 1) == before + sampled_row_terms(
                sv,
                av,
                bv,
                row as int,
                p_first as int,
                p_last as int,
            ));
        }
        row = row + 1;
    }
    terms
}

} // verus!
