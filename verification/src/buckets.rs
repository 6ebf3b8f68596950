//! Bucket resolver: ordered-threshold lookup of the bucket key that governs
//! a luminance value.

use vstd::prelude::*;
use crate::thresholds::sorted;

verus! {

/// Largest index whose element is strictly below `v`; meaningful when such
/// an element exists.
pub open spec fn last_below(s: Seq<u8>, v: u8) -> int
    decreases s.len(),
{
    if s.len() == 0 {
        0
    } else if s[s.len() - 1] < v {
        s.len() - 1
    } else {
        last_below(s.drop_last(), v)
    }
}

/// The bucket key that governs luminance `v` in the sorted boundary
/// sequence `s`: the first boundary when `v` lies at or below it, otherwise
/// the greatest boundary strictly below `v` (so the topmost bucket absorbs
/// everything above the last boundary).
pub open spec fn threshold_key(s: Seq<u8>, v: u8) -> u8
    recommends
        s.len() >= 1,
{
    if v <= s[0] {
        s[0]
    } else {
        s[last_below(s, v)]
    }
}

/// When some element of `s` sits strictly below `v` at position `j` and all
/// later elements reach `v`, `j` is the last index below `v`.
proof fn lemma_last_below_pinpoint(s: Seq<u8>, v: u8, j: int)
    requires
        0 <= j < s.len(),
        s[j] < v,
        forall|k: int| j < k < s.len() ==> s[k] >= v,
    ensures
        last_below(s, v) == j,
    decreases s.len(),
{
    if j == s.len() - 1 {
    } else {
        assert(s.drop_last()[j] == s[j]);
        lemma_last_below_pinpoint(s.drop_last(), v, j);
    }
}

/// Retrieve the corresponding luma bucket key value: scan the boundaries in
/// order and return the boundary just before the first one that reaches
/// `in_color`; past the end, the last boundary. The result is always one of
/// the boundaries, so every luminance value resolves to a bucket.
pub fn get_threshold_key(in_color: u8, luma_vec: &Vec<u8>) -> (key: u8)
    requires
        luma_vec@.len() >= 1,
        sorted(luma_vec@),
    ensures
        key == threshold_key(luma_vec@, in_color),
        luma_vec@.contains(key),
        in_color <= luma_vec@[0] ==> key == luma_vec@[0],
        in_color > luma_vec@[0] ==> key < in_color,
        in_color > luma_vec@[0] ==> forall|k: int|
            0 <= k < luma_vec@.len() && luma_vec@[k] < in_color ==> luma_vec@[k] <= key,
{
    let ghost s = luma_vec@;
    let n = luma_vec.len();
    let mut key = luma_vec[0];
    let mut i: usize = 0;
    while i < n
        invariant
            s == luma_vec@,
            n == s.len(),
            1 <= n,
            sorted(s),
            i <= n,
            forall|k: int| 0 <= k < i ==> s[k] < in_color,
            key == if i == 0 { s[0] } else { s[i - 1] },
        decreases n - i,
    {
        if in_color <= luma_vec[i] {
            proof {
                if i > 0 {
                    lemma_last_below_pinpoint(s, in_color, i - 1);
                    assert(s.contains(key)) by {
                        assert(s[i - 1] == key);
                    }
                } else {
                    assert(s.contains(key)) by {
                        assert(s[0] == key);
                    }
                }
            }
            return key;
        }
        key = luma_vec[i];
        i = i + 1;
    }
    proof {
        lemma_last_below_pinpoint(s, in_color, n as int - 1);
        assert(s.contains(key)) by {
            assert(s[n - 1] == key);
        }
    }
    key
}

} // verus!
