use vstd::prelude::*;

verus! {

/// Whether the `f32` with bit pattern `b` is a NaN: all exponent bits set and a
/// non-zero mantissa.
pub open spec fn is_nan_bits(b: u32) -> bool {
    (b / 0x80_0000) % 0x100 == 0xFF && b % 0x80_0000 != 0
}

/// A rank for the `f32` with bit pattern `b` that orders scores by numeric value:
/// `-0.0` and `+0.0` share one rank, and every NaN ranks below every number.
pub open spec fn score_rank(b: u32) -> int {
    if is_nan_bits(b) {
        0
    } else if b >= 0x8000_0000 {
        0xFFFF_FFFF - b
    } else {
        b + 0x7FFF_FFFF
    }
}

/// Whether the item at index `i` comes before the item at index `j` in a ranking:
/// higher score first, and on equal scores the lower index first.
pub open spec fn ranks_before(scores: Seq<u32>, i: int, j: int) -> bool {
    score_rank(scores[i]) > score_rank(scores[j]) || (score_rank(scores[i]) == score_rank(
        scores[j],
    ) && i < j)
}

/// `r` lists every index of `scores` once, best score first.
pub open spec fn is_ranking(scores: Seq<u32>, r: Seq<usize>) -> bool {
    &&& r.len() == scores.len()
    &&& forall|k: int| 0 <= k < r.len() ==> #[trigger] r[k] < scores.len()
    &&& forall|k: int, l: int| 0 <= k < l < r.len() ==> ranks_before(scores, #[trigger] r[k] as int, #[trigger] r[l] as int)
}

/// The rank of a score, as `score_rank` defines it.
pub fn rank_of(b: u32) -> (r: u32)
    ensures
        r as int == score_rank(b),
{
    if (b / 0x80_0000) % 0x100 == 0xFF && b % 0x80_0000 != 0 {
        0
    } else if b >= 0x8000_0000 {
        0xFFFF_FFFF - b
    } else {
        b + 0x7FFF_FFFF
    }
}

/// The sort key of item `i`: ascending keys give the ranking order.
spec fn sort_key(scores: Seq<u32>, i: int) -> int {
    (0xFFFF_FFFF - score_rank(scores[i])) * 0x1_0000_0000_0000_0000 + i
}

proof fn lemma_sort_key_order(ri: int, rj: int, i: int, j: int)
    requires
        0 <= ri <= 0xFFFF_FFFF,
        0 <= rj <= 0xFFFF_FFFF,
        0 <= i < 0x1_0000_0000_0000_0000,
        0 <= j < 0x1_0000_0000_0000_0000,
        (0xFFFF_FFFF - ri) * 0x1_0000_0000_0000_0000 + i < (0xFFFF_FFFF - rj)
            * 0x1_0000_0000_0000_0000 + j,
    ensures
        ri > rj || (ri == rj && i < j),
{
    if ri < rj {
        assert((0xFFFF_FFFF - ri) * 0x1_0000_0000_0000_0000 >= (0xFFFF_FFFF - rj)
            * 0x1_0000_0000_0000_0000 + 0x1_0000_0000_0000_0000) by (nonlinear_arith)
            requires
                ri < rj,
        ;
    } else if ri == rj {
    }
}

proof fn lemma_sort_key_index(k: int, i: int)
    requires
        0 <= k,
        0 <= i < 0x1_0000_0000_0000_0000,
    ensures
        (k * 0x1_0000_0000_0000_0000 + i) % 0x1_0000_0000_0000_0000 == i,
{
    assert((k * 0x1_0000_0000_0000_0000 + i) % 0x1_0000_0000_0000_0000 == i) by (nonlinear_arith)
        requires
            0 <= k,
            0 <= i < 0x1_0000_0000_0000_0000,
    ;
}

/// Relies on std's `slice::sort_unstable`: afterwards the elements are in ascending
/// order, and they are the same elements as before.
#[verifier::external_body]
fn sort_keys(v: &mut Vec<u128>)
    ensures
        final(v)@.to_multiset() == old(v)@.to_multiset(),
        forall|i: int, j: int| 0 <= i < j < final(v)@.len() ==> final(v)@[i] <= final(v)@[j],
{
    v.sort_unstable();
}

/// Orders the indices of `scores` (each an `f32` bit pattern) by descending score.
/// Equal scores keep their index order; NaN scores come last.
pub fn rank_scores(scores: &Vec<u32>) -> (r: Vec<usize>)
    ensures
        is_ranking(scores@, r@),
        forall|k: int, l: int| 0 <= k < l < r@.len() ==> #[trigger] r@[k] != #[trigger] r@[l],
{
    let mut keys: Vec<u128> = Vec::new();
    let mut i: usize = 0;
    while i < scores.len()
        invariant
            i <= scores@.len(),
            keys@.len() == i,
            forall|k: int| 0 <= k < i ==> #[trigger] keys@[k] as int == sort_key(scores@, k),
        decreases scores.len() - i,
    {
        let rank = rank_of(scores[i]);
        assert(((0xFFFF_FFFFu32 - rank) as u128) * 0x1_0000_0000_0000_0000u128 <= 0xFFFF_FFFF_0000_0000_0000_0000_0000_0000u128) by (nonlinear_arith)
            requires rank <= 0xFFFF_FFFFu32;
        let key: u128 = ((0xFFFF_FFFFu32 - rank) as u128) * 0x1_0000_0000_0000_0000u128 + i as u128;
        keys.push(key);
        i = i + 1;
    }
    let ghost unsorted = keys@;
    proof {
        assert(unsorted.no_duplicates()) by {
            assert forall|a: int, b: int| 0 <= a < unsorted.len() && 0 <= b < unsorted.len() && a != b implies unsorted[a] != unsorted[b] by {
                lemma_sort_key_index(0xFFFF_FFFF - score_rank(scores@[a]), a);
                lemma_sort_key_index(0xFFFF_FFFF - score_rank(scores@[b]), b);
            }
        }
        unsorted.lemma_multiset_has_no_duplicates();
    }
    sort_keys(&mut keys);
    proof {
        keys@.lemma_multiset_has_no_duplicates_conv();
        unsorted.to_multiset_ensures();
        keys@.to_multiset_ensures();
    }
    let mut out: Vec<usize> = Vec::new();
    let mut k: usize = 0;
    while k < keys.len()
        invariant
            k <= keys@.len(),
            keys@.len() == scores@.len(),
            unsorted.len() == scores@.len(),
            keys@.to_multiset() == unsorted.to_multiset(),
            forall|m: int| 0 <= m < unsorted.len() ==> #[trigger] unsorted[m] as int == sort_key(scores@, m),
            out@.len() == k,
            forall|m: int| 0 <= m < k ==> #[trigger] out@[m] < scores@.len() && keys@[m] as int == sort_key(scores@, out@[m] as int),
        decreases keys.len() - k,
    {
        let key = keys[k];
        let ghost j: int;
        proof {
            keys@.to_multiset_ensures();
            unsorted.to_multiset_ensures();
            assert(keys@.contains(key));
            assert(keys@.to_multiset().count(key) > 0);
            assert(unsorted.to_multiset().count(key) > 0);
            assert(unsorted.contains(key));
            j = choose|j: int| 0 <= j < unsorted.len() && unsorted[j] == key;
            lemma_sort_key_index(0xFFFF_FFFF - score_rank(scores@[j]), j);
        }
        let idx: usize = (key % 0x1_0000_0000_0000_0000u128) as usize;
        assert(idx as int == j);
        out.push(idx);
        k = k + 1;
    }
    proof {
        assert forall|a: int, b: int| 0 <= a < b < out@.len() implies ranks_before(scores@, #[trigger] out@[a] as int, #[trigger] out@[b] as int) && out@[a] != out@[b] by {
            assert(keys@[a] != keys@[b]);
            assert(keys@[a] < keys@[b]);
            lemma_sort_key_order(score_rank(scores@[out@[a] as int]), score_rank(scores@[out@[b] as int]), out@[a] as int, out@[b] as int);
        }
    }
    out
}

} // verus!
