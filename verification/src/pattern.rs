//! Compressed index patterns: offsets that split a run of entries into
//! segments (rows of CSR, columns of CSC), and the stable counting sort that
//! regroups entries by another key.

use vstd::prelude::*;
use crate::SparseError;

verus! {

/// `s` never decreases.
pub open spec fn nondecreasing(s: Seq<u32>) -> bool {
    forall|i: int, j: int| 0 <= i <= j < s.len() ==> #[trigger] s[i] <= #[trigger] s[j]
}

/// `offsets` splits `entries` entries into `offsets.len() - 1` segments,
/// encoded with index base `base`.
pub open spec fn offsets_valid(offsets: Seq<u32>, base: u32, entries: nat) -> bool {
    &&& offsets.len() >= 1
    &&& offsets[0] == base
    &&& nondecreasing(offsets)
    &&& offsets.last() - base == entries
}

/// Every index encodes a position in `[0, bound)` with index base `base`.
pub open spec fn indices_in_range(indices: Seq<u32>, base: u32, bound: nat) -> bool {
    forall|e: int| 0 <= e < indices.len() ==> base <= #[trigger] indices[e] < base + bound
}

/// Entry `e` lies in segment `r`.
pub open spec fn in_segment(offsets: Seq<u32>, base: u32, r: int, e: int) -> bool {
    offsets[r] - base <= e < offsets[r + 1] - base
}

/// Number of the first `n` keys that encode `k`.
pub open spec fn count_key(keys: Seq<u32>, base: u32, k: int, n: int) -> nat
    decreases n,
{
    if n <= 0 {
        0
    } else {
        count_key(keys, base, k, n - 1) + if keys[n - 1] == base + k {
            1nat
        } else {
            0nat
        }
    }
}

/// Number of the first `n` keys that encode a position below `k`.
pub open spec fn count_below(keys: Seq<u32>, base: u32, k: int, n: int) -> nat
    decreases n,
{
    if n <= 0 {
        0
    } else {
        count_below(keys, base, k, n - 1) + if keys[n - 1] < base + k {
            1nat
        } else {
            0nat
        }
    }
}

/// Sum of the first `n` elements of `s`.
pub open spec fn seq_sum(s: Seq<u32>, n: int) -> nat
    decreases n,
{
    if n <= 0 {
        0
    } else {
        seq_sum(s, n - 1) + s[n - 1] as nat
    }
}

/// Some key occurs more often than a `u32` count can hold.
pub open spec fn key_count_overflows(keys: Seq<u32>, base: u32, key_count: nat) -> bool {
    exists|k: int| 0 <= k < key_count && count_key(keys, base, k, keys.len() as int) > u32::MAX
}

/// `perm` lists the entries grouped by key, each group in storage order, and
/// `offsets` delimits the groups.
pub open spec fn sorted_by_key(
    keys: Seq<u32>,
    base: u32,
    key_count: nat,
    offsets: Seq<u32>,
    perm: Seq<u32>,
) -> bool {
    &&& perm.len() == keys.len()
    &&& offsets.len() == key_count + 1
    &&& forall|k: int|
        0 <= k <= key_count ==> #[trigger] offsets[k] == base + count_below(
            keys,
            base,
            k,
            keys.len() as int,
        )
    &&& forall|d: int| 0 <= d < perm.len() ==> #[trigger] perm[d] < keys.len()
    &&& forall|k: int, d: int|
        #![trigger in_segment(offsets, base, k, d)]
        0 <= k < key_count && in_segment(offsets, base, k, d) ==> keys[perm[d] as int] == base + k
    &&& forall|k: int, d1: int, d2: int|
        #![trigger in_segment(offsets, base, k, d1), in_segment(offsets, base, k, d2)]
        0 <= k < key_count && in_segment(offsets, base, k, d1) && in_segment(offsets, base, k, d2)
            && d1 < d2 ==> perm[d1] < perm[d2]
}

/// The transpose of a compressed pattern: `t_offsets` and `perm` regroup the
/// entries by minor index, and `t_indices` records each entry's segment.
pub open spec fn transposed_pattern(
    segments: nat,
    minor: nat,
    base: u32,
    offsets: Seq<u32>,
    indices: Seq<u32>,
    t_offsets: Seq<u32>,
    t_indices: Seq<u32>,
    perm: Seq<u32>,
) -> bool {
    &&& sorted_by_key(indices, base, minor, t_offsets, perm)
    &&& t_indices.len() == perm.len()
    &&& forall|r: int, d: int|
        #![trigger in_segment(offsets, base, r, perm[d] as int)]
        0 <= r < segments && 0 <= d < perm.len() && in_segment(offsets, base, r, perm[d] as int)
            ==> t_indices[d] == base + r
}

pub proof fn lemma_count_key_bound(keys: Seq<u32>, base: u32, k: int, n1: int, n2: int)
    requires
        0 <= n1 <= n2 <= keys.len(),
    ensures
        count_key(keys, base, k, n1) <= count_key(keys, base, k, n2),
        count_key(keys, base, k, n2) <= count_key(keys, base, k, n1) + (n2 - n1),
    decreases n2 - n1,
{
    if n1 < n2 {
        lemma_count_key_bound(keys, base, k, n1, n2 - 1);
    }
}

pub proof fn lemma_count_below_step(keys: Seq<u32>, base: u32, k: int, n: int)
    requires
        0 <= n <= keys.len(),
    ensures
        count_below(keys, base, k + 1, n) == count_below(keys, base, k, n) + count_key(
            keys,
            base,
            k,
            n,
        ),
    decreases n,
{
    if n > 0 {
        lemma_count_below_step(keys, base, k, n - 1);
    }
}

pub proof fn lemma_count_below_mono(keys: Seq<u32>, base: u32, k1: int, k2: int, n: int)
    requires
        0 <= n <= keys.len(),
        k1 <= k2,
    ensures
        count_below(keys, base, k1, n) <= count_below(keys, base, k2, n),
    decreases n,
{
    if n > 0 {
        lemma_count_below_mono(keys, base, k1, k2, n - 1);
    }
}

/// With every key in range, no key is below the first position and every key
/// is below the last.
pub proof fn lemma_count_below_ends(keys: Seq<u32>, base: u32, bound: nat, n: int)
    requires
        0 <= n <= keys.len(),
        indices_in_range(keys, base, bound),
    ensures
        count_below(keys, base, 0, n) == 0,
        count_below(keys, base, bound as int, n) == n,
    decreases n,
{
    if n > 0 {
        lemma_count_below_ends(keys, base, bound, n - 1);
        assert(base <= keys[n - 1] < base + bound);
    }
}

pub proof fn lemma_seq_sum_mono(s: Seq<u32>, n1: int, n2: int)
    requires
        0 <= n1 <= n2 <= s.len(),
    ensures
        seq_sum(s, n1) <= seq_sum(s, n2),
    decreases n2 - n1,
{
    if n1 < n2 {
        lemma_seq_sum_mono(s, n1, n2 - 1);
    }
}

pub proof fn lemma_seq_sum_ext(s: Seq<u32>, t: Seq<u32>, n: int)
    requires
        0 <= n <= s.len(),
        n <= t.len(),
        forall|i: int| 0 <= i < n ==> s[i] == t[i],
    ensures
        seq_sum(s, n) == seq_sum(t, n),
    decreases n,
{
    if n > 0 {
        lemma_seq_sum_ext(s, t, n - 1);
    }
}

proof fn segment_search(offsets: Seq<u32>, base: u32, e: int, lo: int) -> (r: int)
    requires
        nondecreasing(offsets),
        0 <= lo < offsets.len() - 1,
        offsets[lo] - base <= e < offsets.last() - base,
    ensures
        lo <= r < offsets.len() - 1,
        in_segment(offsets, base, r, e),
    decreases offsets.len() - lo,
{
    if offsets[lo + 1] - base > e {
        lo
    } else {
        segment_search(offsets, base, e, lo + 1)
    }
}

/// Every entry of a valid pattern lies in exactly one segment.
pub proof fn lemma_segment_of(offsets: Seq<u32>, base: u32, entries: nat, e: int) -> (r: int)
    requires
        offsets_valid(offsets, base, entries),
        0 <= e < entries,
    ensures
        0 <= r < offsets.len() - 1,
        in_segment(offsets, base, r, e),
        forall|r2: int| 0 <= r2 < offsets.len() - 1 && in_segment(offsets, base, r2, e) ==> r2 == r,
{
    let r = segment_search(offsets, base, e, 0);
    assert forall|r2: int| 0 <= r2 < offsets.len() - 1 && in_segment(offsets, base, r2, e) implies r2
        == r by {
        if r2 < r {
            assert(offsets[r2 + 1] <= offsets[r]);
        } else if r2 > r {
            assert(offsets[r + 1] <= offsets[r2]);
        }
    }
    r
}

/// A vector holding `n` copies of `value`.
pub fn repeat<V: Copy>(value: V, n: usize) -> (v: Vec<V>)
    ensures
        v.len() == n,
        forall|i: int| 0 <= i < n ==> v[i] == value,
{
    let mut v: Vec<V> = Vec::with_capacity(n);
    let mut i: usize = 0;
    while i < n
        invariant
            i <= n,
            v.len() == i,
            forall|j: int| 0 <= j < i ==> v[j] == value,
        decreases n - i,
    {
        v.push(value);
        i = i + 1;
    }
    v
}

/// For each key position, how many keys encode it; slot `k + 1` holds the
/// count of position `k` and slot `0` holds zero.
fn key_histogram(keys: &[u32], key_count: usize, base: u32) -> (r: Option<Vec<u32>>)
    requires
        key_count < usize::MAX,
        indices_in_range(keys@, base, key_count as nat),
    ensures
        r is None <==> key_count_overflows(keys@, base, key_count as nat),
        r matches Some(h) ==> {
            &&& h.len() == key_count + 1
            &&& h[0] == 0
            &&& forall|k: int|
                0 <= k < key_count ==> #[trigger] h[k + 1] == count_key(
                    keys@,
                    base,
                    k,
                    keys.len() as int,
                )
        },
{
    let mut histogram = repeat(0u32, key_count + 1);
    let mut e: usize = 0;
    while e < keys.len()
        invariant
            e <= keys.len(),
            key_count < usize::MAX,
            indices_in_range(keys@, base, key_count as nat),
            histogram.len() == key_count + 1,
            histogram[0] == 0,
            forall|k: int|
                0 <= k < key_count ==> #[trigger] histogram[k + 1] == count_key(
                    keys@,
                    base,
                    k,
                    e as int,
                ),
        decreases keys.len() - e,
    {
        let key = (keys[e] - base) as usize;
        assert(keys@[e as int] == base + key);
        match histogram[key + 1].checked_add(1) {
            Some(count) => {
                histogram.set(key + 1, count);
            },
            None => {
                proof {
                    lemma_count_key_bound(keys@, base, key as int, e as int + 1, keys.len() as int);
                    assert(count_key(keys@, base, key as int, keys.len() as int) > u32::MAX);
                }
                return None;
            },
        }
        assert forall|k: int| 0 <= k < key_count implies #[trigger] histogram[k + 1] == count_key(
            keys@,
            base,
            k,
            e + 1,
        ) by {
            assert(count_key(keys@, base, k, e + 1) == count_key(keys@, base, k, e as int) + if keys@[e as int]
                == base + k {
                1nat
            } else {
                0nat
            });
        }
        e = e + 1;
    }
    assert(!key_count_overflows(keys@, base, key_count as nat)) by {
        assert forall|k: int| 0 <= k < key_count implies count_key(
            keys@,
            base,
            k,
            keys.len() as int,
        ) <= u32::MAX by {
            assert(histogram[k + 1] == count_key(keys@, base, k, keys.len() as int));
        }
    }
    Some(histogram)
}

/// Turns counts into offsets: each element becomes `base` plus the sum of the
/// counts up to and including it. Fails when the last offset would not fit.
pub fn prefix_offsets(offsets: &mut Vec<u32>, base: u32, name: &'static str) -> (r: Result<
    (),
    SparseError,
>)
    ensures
        final(offsets).len() == old(offsets).len(),
        r is Err <==> old(offsets).len() > 0 && seq_sum(old(offsets)@, old(offsets).len() as int)
            + base > u32::MAX,
        r matches Err(e) ==> e == SparseError::SizeOverflow(name),
        r is Ok ==> forall|i: int|
            0 <= i < old(offsets).len() ==> #[trigger] final(offsets)@[i] == base + seq_sum(
                old(offsets)@,
                i + 1,
            ),
{
    let ghost counts = offsets@;
    let n = offsets.len();
    if n == 0 {
        return Ok(());
    }
    proof {
        reveal_with_fuel(seq_sum, 2);
    }
    let mut index: usize = 0;
    while index + 1 < n
        invariant
            counts == old(offsets)@,
            n == counts.len(),
            n > 0,
            offsets.len() == n,
            index < n,
            forall|j: int| 0 <= j <= index ==> #[trigger] offsets@[j] == seq_sum(counts, j + 1),
            forall|j: int| index < j < n ==> #[trigger] offsets@[j] == counts[j],
        decreases n - index,
    {
        match offsets[index + 1].checked_add(offsets[index]) {
            Some(sum) => {
                offsets.set(index + 1, sum);
            },
            None => {
                proof {
                    lemma_seq_sum_mono(counts, index + 2, n as int);
                }
                return Err(SparseError::SizeOverflow(name));
            },
        }
        index = index + 1;
    }
    let mut position: usize = 0;
    while position < n
        invariant
            counts == old(offsets)@,
            n == counts.len(),
            n > 0,
            offsets.len() == n,
            position <= n,
            forall|j: int| 0 <= j < position ==> #[trigger] offsets@[j] == base + seq_sum(counts, j + 1),
            forall|j: int| position <= j < n ==> #[trigger] offsets@[j] == seq_sum(counts, j + 1),
        decreases n - position,
    {
        match offsets[position].checked_add(base) {
            Some(value) => {
                offsets.set(position, value);
            },
            None => {
                proof {
                    lemma_seq_sum_mono(counts, position + 1, n as int);
                }
                return Err(SparseError::SizeOverflow(name));
            },
        }
        position = position + 1;
    }
    assert(offsets@[n - 1] == base + seq_sum(counts, n as int));
    Ok(())
}

proof fn lemma_histogram_sum(keys: Seq<u32>, base: u32, key_count: nat, h: Seq<u32>, j: int)
    requires
        indices_in_range(keys, base, key_count),
        h.len() == key_count + 1,
        h[0] == 0,
        forall|k: int|
            0 <= k < key_count ==> #[trigger] h[k + 1] == count_key(keys, base, k, keys.len() as int),
        0 <= j <= key_count,
    ensures
        seq_sum(h, j + 1) == count_below(keys, base, j, keys.len() as int),
    decreases j,
{
    if j == 0 {
        assert(seq_sum(h, 1) == seq_sum(h, 0) + h[0]);
        lemma_count_below_ends(keys, base, key_count, keys.len() as int);
    } else {
        lemma_histogram_sum(keys, base, key_count, h, j - 1);
        assert(h[(j - 1) + 1] == count_key(keys, base, j - 1, keys.len() as int));
        lemma_count_below_step(keys, base, j - 1, keys.len() as int);
    }
}

/// Places each entry at the next free slot of its key's group, visiting the
/// entries in storage order.
fn stable_scatter(keys: &[u32], key_count: usize, base: u32, offsets: &Vec<u32>) -> (perm: Vec<u32>)
    requires
        keys.len() <= u32::MAX,
        key_count < usize::MAX,
        indices_in_range(keys@, base, key_count as nat),
        offsets.len() == key_count + 1,
        forall|k: int|
            0 <= k <= key_count ==> #[trigger] offsets[k] == base + count_below(
                keys@,
                base,
                k,
                keys.len() as int,
            ),
    ensures
        sorted_by_key(keys@, base, key_count as nat, offsets@, perm@),
{
    let n = keys.len();
    let ghost len = n as int;
    proof {
        lemma_count_below_ends(keys@, base, key_count as nat, len);
        assert forall|k1: int, k2: int| k1 <= k2 implies #[trigger] count_below(keys@, base, k1, len)
            <= #[trigger] count_below(keys@, base, k2, len) by {
            lemma_count_below_mono(keys@, base, k1, k2, len);
        }
        assert forall|k: int| 0 <= k < key_count implies #[trigger] count_below(keys@, base, k + 1, len)
            == count_below(keys@, base, k, len) + count_key(keys@, base, k, len) by {
            lemma_count_below_step(keys@, base, k, len);
        }
    }
    let mut positions: Vec<u32> = Vec::with_capacity(key_count);
    let mut k: usize = 0;
    while k < key_count
        invariant
            k <= key_count,
            key_count < usize::MAX,
            offsets.len() == key_count + 1,
            positions.len() == k,
            forall|j: int| 0 <= j <= key_count ==> #[trigger] offsets[j] == base + count_below(keys@, base, j, len),
            forall|j: int| 0 <= j < k ==> #[trigger] positions[j] == count_below(keys@, base, j, len),
        decreases key_count - k,
    {
        positions.push(offsets[k] - base);
        k = k + 1;
    }
    let mut perm = repeat(0u32, n);
    let mut e: usize = 0;
    while e < n
        invariant
            n == keys.len(),
            len == n,
            n <= u32::MAX,
            e <= n,
            key_count < usize::MAX,
            indices_in_range(keys@, base, key_count as nat),
            perm.len() == n,
            positions.len() == key_count,
            count_below(keys@, base, 0, len) == 0,
            count_below(keys@, base, key_count as int, len) == len,
            forall|k1: int, k2: int| k1 <= k2 ==> #[trigger] count_below(keys@, base, k1, len)
                <= #[trigger] count_below(keys@, base, k2, len),
            forall|j: int| 0 <= j < key_count ==> #[trigger] count_below(keys@, base, j + 1, len)
                == count_below(keys@, base, j, len) + count_key(keys@, base, j, len),
            forall|j: int|
                0 <= j < key_count ==> #[trigger] positions[j] == count_below(keys@, base, j, len) + count_key(
                    keys@,
                    base,
                    j,
                    e as int,
                ),
            forall|j: int, d: int|
                #![trigger positions@[j], perm@[d]]
                0 <= j < key_count && count_below(keys@, base, j, len) <= d < positions[j] ==> keys@[perm@[d] as int]
                    == base + j && perm@[d] < e,
            forall|j: int, d1: int, d2: int|
                #![trigger positions@[j], perm@[d1], perm@[d2]]
                0 <= j < key_count && count_below(keys@, base, j, len) <= d1 < d2 < positions[j] ==> perm@[d1] < perm@[d2],
        decreases n - e,
    {
        let key = (keys[e] - base) as usize;
        let ghost kk = key as int;
        proof {
            lemma_count_key_bound(keys@, base, kk, e as int + 1, len);
            assert(count_key(keys@, base, kk, e as int + 1) == count_key(keys@, base, kk, e as int) + 1);
        }
        let destination = positions[key];
        assert(destination < count_below(keys@, base, kk + 1, len));
        let ghost old_perm = perm@;
        let ghost old_positions = positions@;
        perm.set(destination as usize, e as u32);
        positions.set(key, destination + 1);
        assert forall|j: int, d: int|
            #![trigger positions@[j], perm@[d]]
            0 <= j < key_count && count_below(keys@, base, j, len) <= d < positions[j] implies keys@[perm@[d] as int]
            == base + j && perm@[d] < e + 1 by {
            if j != kk {
                lemma_count_key_bound(keys@, base, j, e as int, len);
                assert(old_positions[j] == positions[j]);
                if j < kk {
                    assert(count_below(keys@, base, j + 1, len) <= count_below(keys@, base, kk, len));
                } else {
                    assert(count_below(keys@, base, kk + 1, len) <= count_below(keys@, base, j, len));
                }
                assert(positions@[j] <= count_below(keys@, base, j + 1, len));
                assert(count_below(keys@, base, kk, len) <= destination);
                assert(d != destination);
                assert(d < perm.len());
                assert(perm@[d] == old_perm[d]);
            } else if d != destination {
                assert(perm@[d] == old_perm[d]);
            }
        }
        assert forall|j: int, d1: int, d2: int|
            #![trigger positions@[j], perm@[d1], perm@[d2]]
            0 <= j < key_count && count_below(keys@, base, j, len) <= d1 < d2 < positions[j] implies perm@[d1] < perm@[d2] by {
            if j != kk {
                lemma_count_key_bound(keys@, base, j, e as int, len);
                assert(old_positions[j] == positions[j]);
                if j < kk {
                    assert(count_below(keys@, base, j + 1, len) <= count_below(keys@, base, kk, len));
                } else {
                    assert(count_below(keys@, base, kk + 1, len) <= count_below(keys@, base, j, len));
                }
                assert(positions@[j] <= count_below(keys@, base, j + 1, len));
                assert(count_below(keys@, base, kk, len) <= destination);
                assert(d1 != destination && d2 != destination);
                assert(perm@[d1] == old_perm[d1]);
                assert(perm@[d2] == old_perm[d2]);
            } else {
                assert(positions@[kk] == destination + 1);
                assert(d1 < destination);
                assert(perm@[d1] == old_perm[d1]);
                if d2 != destination {
                    assert(perm@[d2] == old_perm[d2]);
                } else {
                    assert(old_positions[j] == positions[j] - 1);
                    assert(old_perm[d1] < e);
                }
            }
        }
        assert forall|j: int| 0 <= j < key_count implies #[trigger] positions[j] == count_below(keys@, base, j, len) + count_key(
            keys@,
            base,
            j,
            e + 1,
        ) by {
            assert(count_key(keys@, base, j, e + 1) == count_key(keys@, base, j, e as int) + if keys@[e as int]
                == base + j {
                1nat
            } else {
                0nat
            });
        }
        e = e + 1;
    }
    assert forall|d: int| 0 <= d < perm.len() implies #[trigger] perm@[d] < keys.len() by {
        let j = lemma_key_group_of(keys@, base, key_count as nat, d);
        assert(positions[j] == count_below(keys@, base, j, len) + count_key(keys@, base, j, len));
    }
    assert forall|j: int, d: int|
        #![trigger in_segment(offsets@, base, j, d)]
        0 <= j < key_count && in_segment(offsets@, base, j, d) implies keys@[perm@[d] as int]
        == base + j by {
        assert(positions[j] == count_below(keys@, base, j, len) + count_key(keys@, base, j, len));
        assert(keys@[perm@[d] as int] == base + j);
    }
    assert forall|j: int, d1: int, d2: int|
        #![trigger in_segment(offsets@, base, j, d1), in_segment(offsets@, base, j, d2)]
        0 <= j < key_count && in_segment(offsets@, base, j, d1) && in_segment(offsets@, base, j, d2)
            && d1 < d2 implies perm@[d1] < perm@[d2] by {
        assert(positions[j] == count_below(keys@, base, j, len) + count_key(keys@, base, j, len));
    }
    perm
}

proof fn group_search(keys: Seq<u32>, base: u32, key_count: nat, d: int, lo: int) -> (j: int)
    requires
        0 <= lo < key_count,
        count_below(keys, base, lo, keys.len() as int) <= d,
        d < count_below(keys, base, key_count as int, keys.len() as int),
    ensures
        lo <= j < key_count,
        count_below(keys, base, j, keys.len() as int) <= d < count_below(
            keys,
            base,
            j + 1,
            keys.len() as int,
        ),
    decreases key_count - lo,
{
    if count_below(keys, base, lo + 1, keys.len() as int) > d {
        lo
    } else {
        group_search(keys, base, key_count, d, lo + 1)
    }
}

/// Every slot `d` below the entry count lies in some key's group.
proof fn lemma_key_group_of(keys: Seq<u32>, base: u32, key_count: nat, d: int) -> (j: int)
    requires
        0 <= d < keys.len(),
        count_below(keys, base, 0, keys.len() as int) == 0,
        count_below(keys, base, key_count as int, keys.len() as int) == keys.len(),
    ensures
        0 <= j < key_count,
        count_below(keys, base, j, keys.len() as int) <= d < count_below(
            keys,
            base,
            j + 1,
            keys.len() as int,
        ),
{
    if key_count == 0 {
        assert(false);
    }
    group_search(keys, base, key_count, d, 0)
}

/// Groups entries by key, keeping storage order within each group.
///
/// Fails with `SizeOverflow(count_name)` when some key occurs more often than a
/// `u32` can count, and otherwise with `SizeOverflow(offset_name)` when the
/// entry count plus the index base does not fit a `u32`.
pub fn stable_key_sort(
    keys: &[u32],
    key_count: usize,
    base: u32,
    count_name: &'static str,
    offset_name: &'static str,
) -> (r: Result<(Vec<u32>, Vec<u32>), SparseError>)
    requires
        key_count < usize::MAX,
        indices_in_range(keys@, base, key_count as nat),
    ensures
        key_count_overflows(keys@, base, key_count as nat) ==> r == Err::<(Vec<u32>, Vec<u32>), SparseError>(
            SparseError::SizeOverflow(count_name),
        ),
        !key_count_overflows(keys@, base, key_count as nat) && keys.len() + base > u32::MAX ==> r
            == Err::<(Vec<u32>, Vec<u32>), SparseError>(SparseError::SizeOverflow(offset_name)),
        !key_count_overflows(keys@, base, key_count as nat) && keys.len() + base <= u32::MAX ==> (r
            matches Ok((offsets, perm)) && sorted_by_key(
            keys@,
            base,
            key_count as nat,
            offsets@,
            perm@,
        )),
{
    let mut offsets = match key_histogram(keys, key_count, base) {
        Some(histogram) => histogram,
        None => return Err(SparseError::SizeOverflow(count_name)),
    };
    let ghost histogram = offsets@;
    proof {
        lemma_histogram_sum(keys@, base, key_count as nat, histogram, key_count as int);
        lemma_count_below_ends(keys@, base, key_count as nat, keys.len() as int);
    }
    prefix_offsets(&mut offsets, base, offset_name)?;
    assert forall|k: int| 0 <= k <= key_count implies #[trigger] offsets[k] == base + count_below(
        keys@,
        base,
        k,
        keys.len() as int,
    ) by {
        lemma_histogram_sum(keys@, base, key_count as nat, histogram, k);
    }
    let perm = stable_scatter(keys, key_count, base, &offsets);
    Ok((offsets, perm))
}

/// For each entry of a valid pattern, the encoded index of its segment.
pub fn segment_ids(offsets: &[u32], segments: usize, base: u32, entries: usize) -> (ids: Vec<u32>)
    requires
        offsets.len() == segments + 1,
        offsets_valid(offsets@, base, entries as nat),
        segments + base <= u32::MAX + 1,
    ensures
        ids.len() == entries,
        forall|r: int, e: int|
            #![trigger in_segment(offsets@, base, r, e)]
            0 <= r < segments && in_segment(offsets@, base, r, e) ==> ids[e] == base + r,
{
    let mut ids: Vec<u32> = Vec::with_capacity(entries);
    let mut r: usize = 0;
    while r < segments
        invariant
            offsets.len() == segments + 1,
            offsets_valid(offsets@, base, entries as nat),
            segments + base <= u32::MAX + 1,
            r <= segments,
            ids.len() == offsets[r as int] - base,
            forall|r2: int, e: int|
                #![trigger in_segment(offsets@, base, r2, e)]
                0 <= r2 < r && in_segment(offsets@, base, r2, e) ==> ids[e] == base + r2,
        decreases segments - r,
    {
        let start = (offsets[r] - base) as usize;
        let end = (offsets[r + 1] - base) as usize;
        assert(offsets[r as int] <= offsets[r + 1]);
        let id = r as u32 + base;
        let mut e = start;
        while e < end
            invariant
                start <= e <= end,
                ids.len() == e,
                offsets_valid(offsets@, base, entries as nat),
                end == offsets[r + 1] - base,
                start == offsets[r as int] - base,
                offsets.len() == segments + 1,
                r < segments,
                id == base + r,
                forall|r2: int, e2: int|
                    #![trigger in_segment(offsets@, base, r2, e2)]
                    0 <= r2 < r && in_segment(offsets@, base, r2, e2) ==> ids[e2] == base + r2,
                forall|e2: int| start <= e2 < e ==> #[trigger] ids[e2] == id,
            decreases end - e,
        {
            ids.push(id);
            e = e + 1;
        }
        assert forall|r2: int, e2: int|
            #![trigger in_segment(offsets@, base, r2, e2)]
            0 <= r2 < r + 1 && in_segment(offsets@, base, r2, e2) implies ids[e2] == base + r2 by {
            if r2 < r {
                assert(offsets[r2 + 1] <= offsets[r as int]);
            }
        }
        r = r + 1;
    }
    ids
}

/// `values` read through `perm`.
pub fn gather<V: Copy>(values: &[V], perm: &[u32]) -> (out: Vec<V>)
    requires
        forall|d: int| 0 <= d < perm.len() ==> #[trigger] perm[d] < values.len(),
    ensures
        out.len() == perm.len(),
        forall|d: int| 0 <= d < perm.len() ==> #[trigger] out[d] == values[perm[d] as int],
{
    let mut out: Vec<V> = Vec::with_capacity(perm.len());
    let mut d: usize = 0;
    while d < perm.len()
        invariant
            d <= perm.len(),
            out.len() == d,
            forall|j: int| 0 <= j < perm.len() ==> #[trigger] perm[j] < values.len(),
            forall|j: int| 0 <= j < d ==> #[trigger] out[j] == values[perm[j] as int],
        decreases perm.len() - d,
    {
        out.push(values[perm[d] as usize]);
        d = d + 1;
    }
    out
}

/// Transposes a valid compressed pattern: the result's segments are the input's
/// minor indices, and `perm` says which input entry each output entry came from.
pub fn transpose_pattern(
    segments: usize,
    minor: usize,
    base: u32,
    offsets: &[u32],
    indices: &[u32],
) -> (r: (Vec<u32>, Vec<u32>, Vec<u32>))
    requires
        offsets.len() == segments + 1,
        offsets_valid(offsets@, base, indices.len() as nat),
        indices_in_range(indices@, base, minor as nat),
        segments + base <= u32::MAX + 1,
        minor < usize::MAX,
        indices.len() + base <= u32::MAX,
    ensures
        transposed_pattern(segments as nat, minor as nat, base, offsets@, indices@, r.0@, r.1@, r.2@),
{
    proof {
        assert forall|k: int| 0 <= k < minor implies count_key(indices@, base, k, indices.len() as int)
            <= u32::MAX by {
            lemma_count_key_bound(indices@, base, k, 0, indices.len() as int);
        }
    }
    let sorted = stable_key_sort(indices, minor, base, "transposed CSR row counts", "transposed CSR row offsets");
    let (t_offsets, perm) = match sorted {
        Ok(pair) => pair,
        Err(_) => {
            proof {
                assert(false);
            }
            (Vec::new(), Vec::new())
        },
    };
    let rows = segment_ids(offsets, segments, base, indices.len());
    let t_indices = gather(rows.as_slice(), perm.as_slice());
    assert forall|r: int, d: int|
        #![trigger in_segment(offsets@, base, r, perm@[d] as int)]
        0 <= r < segments && 0 <= d < perm.len() && in_segment(offsets@, base, r, perm@[d] as int)
        implies t_indices@[d] == base + r by {
        assert(rows@[perm@[d] as int] == base + r);
    }
    (t_offsets, t_indices, perm)
}

/// An element-by-element copy of an index array.
pub fn copy_indices(indices: &Vec<u32>) -> (r: Vec<u32>)
    ensures
        r@ == indices@,
{
    let mut r: Vec<u32> = Vec::with_capacity(indices.len());
    let mut i: usize = 0;
    while i < indices.len()
        invariant
            i <= indices.len(),
            r@ == indices@.subrange(0, i as int),
        decreases indices.len() - i,
    {
        r.push(indices[i]);
        i = i + 1;
    }
    assert(r@ == indices@.subrange(0, indices.len() as int));
    r
}

} // verus!
