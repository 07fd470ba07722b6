//! Row and column scanning primitives for margin detection: brightness
//! transitions, sorting of transition positions, and their mean.

use vstd::prelude::*;
use vstd::relations::{sorted_by, total_ordering};
use vstd::seq_lib::group_to_multiset_ensures;
use vstd::seq_lib::lemma_sorted_unique;

verus! {

/// Pixels at or below this brightness count as black, pixels above it as
/// white, in the transition scans.
pub const BINARY_BRIGHTNESS_THRESHOLD: u8 = 127;

/// Index `i` is a black-after-white transition: the pixel there is black
/// and some earlier pixel was white.
pub open spec fn is_black_after_white(s: Seq<u8>, i: int) -> bool {
    &&& 0 <= i < s.len()
    &&& s[i] <= BINARY_BRIGHTNESS_THRESHOLD
    &&& exists|j: int| 0 <= j < i && #[trigger] s[j] > BINARY_BRIGHTNESS_THRESHOLD
}

/// Index `i` is a white-after-black transition: the pixel there is white
/// and some earlier pixel was black.
pub open spec fn is_white_after_black(s: Seq<u8>, i: int) -> bool {
    &&& 0 <= i < s.len()
    &&& s[i] >= BINARY_BRIGHTNESS_THRESHOLD
    &&& exists|j: int| 0 <= j < i && #[trigger] s[j] < BINARY_BRIGHTNESS_THRESHOLD
}

/// The first black-after-white transition at or after index `i`, given
/// whether a white pixel has been seen before `i`.
pub open spec fn first_baw_from(s: Seq<u8>, i: int, reached_white: bool) -> Option<usize>
    decreases s.len() - i,
{
    if i < 0 || i >= s.len() {
        None
    } else if reached_white && s[i] <= BINARY_BRIGHTNESS_THRESHOLD {
        Some(i as usize)
    } else {
        first_baw_from(s, i + 1, reached_white || s[i] > BINARY_BRIGHTNESS_THRESHOLD)
    }
}

/// The position of the first black-after-white transition of the sequence.
pub open spec fn first_black_after_white(s: Seq<u8>) -> Option<usize> {
    first_baw_from(s, 0, false)
}

/// The first white-after-black transition at or after index `i`, given
/// whether a black pixel has been seen before `i`.
pub open spec fn first_wab_from(s: Seq<u8>, i: int, reached_black: bool) -> Option<usize>
    decreases s.len() - i,
{
    if i < 0 || i >= s.len() {
        None
    } else if reached_black && s[i] >= BINARY_BRIGHTNESS_THRESHOLD {
        Some(i as usize)
    } else {
        first_wab_from(s, i + 1, reached_black || s[i] < BINARY_BRIGHTNESS_THRESHOLD)
    }
}

/// The position of the first white-after-black transition of the sequence.
pub open spec fn first_white_after_black(s: Seq<u8>) -> Option<usize> {
    first_wab_from(s, 0, false)
}

/// Scans left to right for the first pixel that is black (at most the
/// brightness threshold) after some earlier pixel was white (above it).
pub fn get_position_black_after_white(pixels: &Vec<u8>) -> (res: Option<usize>)
    ensures
        res == first_black_after_white(pixels@),
        (match res {
            Some(i) => {
                &&& is_black_after_white(pixels@, i as int)
                &&& forall|k: int| 0 <= k < i ==> !is_black_after_white(pixels@, k)
            },
            None => forall|k: int| !is_black_after_white(pixels@, k),
        }),
{
    let n = pixels.len();
    let mut reached_white = false;
    let mut i: usize = 0;
    while i < n
        invariant
            n == pixels@.len(),
            i <= n,
            reached_white <==> (exists|j: int| 0 <= j < i
                && #[trigger] pixels@[j] > BINARY_BRIGHTNESS_THRESHOLD),
            first_baw_from(pixels@, 0, false) == first_baw_from(pixels@, i as int, reached_white),
            forall|k: int| 0 <= k < i ==> !is_black_after_white(pixels@, k),
        decreases n - i,
    {
        let v = pixels[i];
        if reached_white && v <= BINARY_BRIGHTNESS_THRESHOLD {
            return Some(i);
        }
        if v > BINARY_BRIGHTNESS_THRESHOLD {
            reached_white = true;
        }
        i += 1;
    }
    None
}

/// Scans left to right for the first pixel that is white (at least the
/// brightness threshold) after some earlier pixel was black (below it).
pub fn get_position_white_after_black(pixels: &Vec<u8>) -> (res: Option<usize>)
    ensures
        res == first_white_after_black(pixels@),
        (match res {
            Some(i) => {
                &&& is_white_after_black(pixels@, i as int)
                &&& forall|k: int| 0 <= k < i ==> !is_white_after_black(pixels@, k)
            },
            None => forall|k: int| !is_white_after_black(pixels@, k),
        }),
{
    let n = pixels.len();
    let mut reached_black = false;
    let mut i: usize = 0;
    while i < n
        invariant
            n == pixels@.len(),
            i <= n,
            reached_black <==> (exists|j: int| 0 <= j < i
                && #[trigger] pixels@[j] < BINARY_BRIGHTNESS_THRESHOLD),
            first_wab_from(pixels@, 0, false) == first_wab_from(pixels@, i as int, reached_black),
            forall|k: int| 0 <= k < i ==> !is_white_after_black(pixels@, k),
        decreases n - i,
    {
        let v = pixels[i];
        if reached_black && v >= BINARY_BRIGHTNESS_THRESHOLD {
            return Some(i);
        }
        if v < BINARY_BRIGHTNESS_THRESHOLD {
            reached_black = true;
        }
        i += 1;
    }
    None
}

/// Nondecreasing order on transition positions.
pub open spec fn usize_leq() -> spec_fn(usize, usize) -> bool {
    |a: usize, b: usize| a <= b
}

/// `usize_leq` is a total ordering.
pub proof fn lemma_usize_leq_total()
    ensures
        total_ordering(usize_leq()),
{
    let leq = usize_leq();
    assert forall|x: usize| #[trigger] leq(x, x) by {}
}

/// Sorts a list of transition positions into nondecreasing order; the
/// result is exactly the sorted permutation of the input.
pub fn sorted_ascending(v: &Vec<usize>) -> (out: Vec<usize>)
    ensures
        out@ == v@.sort_by(usize_leq()),
        out@.len() == v@.len(),
        sorted_by(out@, usize_leq()),
        out@.to_multiset() == v@.to_multiset(),
{
    broadcast use group_to_multiset_ensures;

    let ghost leq = usize_leq();
    let n = v.len();
    let mut out: Vec<usize> = Vec::new();
    let mut i: usize = 0;
    while i < n
        invariant
            n == v@.len(),
            i <= n,
            leq == usize_leq(),
            sorted_by(out@, leq),
            out@.to_multiset() == v@.subrange(0, i as int).to_multiset(),
            out@.len() == i,
        decreases n - i,
    {
        broadcast use group_to_multiset_ensures;

        let x = v[i];
        let mut idx: usize = 0;
        while idx < out.len() && out[idx] <= x
            invariant
                idx <= out@.len(),
                forall|j: int| 0 <= j < idx ==> #[trigger] out@[j] <= x,
            decreases out@.len() - idx,
        {
            idx += 1;
        }
        let ghost before = out@;
        out.insert(idx, x);
        proof {
            assert(out@ == before.insert(idx as int, x));
            assert forall|p: int, q: int| 0 <= p < q < out@.len()
                implies #[trigger] leq(out@[p], out@[q]) by {
                let a = out@[p];
                let b = out@[q];
                if p < idx && q < idx {
                    assert(leq(before[p], before[q]));
                } else if p < idx && q == idx {
                    assert(a == before[p]);
                } else if p < idx && q > idx {
                    assert(a == before[p] && b == before[q - 1]);
                    if q - 1 > p {
                        assert(leq(before[p], before[q - 1]));
                    }
                } else if p == idx {
                    assert(a == x);
                    assert(b == before[q - 1]);
                    assert(q - 1 >= idx);
                    if idx < before.len() {
                        assert(!(before[idx as int] <= x));
                        if q - 1 > idx {
                            assert(leq(before[idx as int], before[q - 1]));
                        }
                    }
                } else {
                    assert(a == before[p - 1] && b == before[q - 1]);
                    assert(leq(before[p - 1], before[q - 1]));
                }
            }
            vstd::seq_lib::to_multiset_insert(before, idx as int, x);
            assert(v@.subrange(0, i + 1) =~= v@.subrange(0, i as int).push(x));
        }
        i += 1;
    }
    proof {
        assert(v@.subrange(0, n as int) =~= v@);
        lemma_usize_leq_total();
        v@.lemma_sort_by_ensures(leq);
        lemma_sorted_unique(out@, v@.sort_by(leq), leq);
        assert(out@ =~= v@.sort_by(leq));
    }
    out
}

/// Sum of a sequence of transition positions.
pub open spec fn seq_sum(s: Seq<usize>) -> int
    decreases s.len(),
{
    if s.len() == 0 {
        0
    } else {
        seq_sum(s.drop_last()) + s.last()
    }
}

/// The integer mean of the elements `[lo, hi)` of `v` (sum divided by
/// count, rounded down).
pub fn mean_of_range(v: &Vec<usize>, lo: usize, hi: usize) -> (m: usize)
    requires
        lo < hi <= v@.len(),
        hi - lo <= 100000000,
        forall|j: int| 0 <= j < v@.len() ==> #[trigger] v@[j] <= 100000000,
    ensures
        m as int == seq_sum(v@.subrange(lo as int, hi as int)) / (hi - lo),
        m <= 100000000,
{
    let mut sum: u64 = 0;
    let mut j: usize = lo;
    while j < hi
        invariant
            lo <= j <= hi <= v@.len(),
            hi - lo <= 100000000,
            forall|k: int| 0 <= k < v@.len() ==> #[trigger] v@[k] <= 100000000,
            sum as int == seq_sum(v@.subrange(lo as int, j as int)),
            sum <= (j - lo) * 100000000,
        decreases hi - j,
    {
        proof {
            assert(v@.subrange(lo as int, j + 1).drop_last() =~= v@.subrange(lo as int, j as int));
            assert(v@.subrange(lo as int, j + 1).last() == v@[j as int]);
            assert((j - lo) * 100000000 + 100000000 == (j + 1 - lo) * 100000000int)
                by (nonlinear_arith);
            assert((j + 1 - lo) * 100000000int <= 100000000 * 100000000int) by (nonlinear_arith)
                requires j + 1 - lo <= 100000000;
        }
        sum = sum + v[j] as u64;
        j += 1;
    }
    let count = (hi - lo) as u64;
    proof {
        assert(sum <= (hi - lo) * 100000000);
        assert(sum as int / (count as int) <= 100000000) by (nonlinear_arith)
            requires 0 < count && sum <= (count as int) * 100000000 && count == hi - lo;
    }
    (sum / count) as usize
}

} // verus!
