//! Pixel remapper: rewrites luminance values to their bucket's output
//! color. Pixels are independent, so the whole pass is a map over the
//! luminance sequence.

use vstd::prelude::*;
use std::collections::HashMap;
use crate::buckets::get_threshold_key;
use crate::buckets::threshold_key;
use crate::colors::Rgb;
use crate::thresholds::sorted;

verus! {

broadcast use vstd::std_specs::hash::group_hash_axioms;

/// Whether the color mapping resolves every boundary value of `s`, so
/// that every luminance value finds its bucket color.
pub open spec fn covers(m: Map<u8, Rgb>, s: Seq<u8>) -> bool {
    forall|k: u8| s.contains(k) ==> m.contains_key(k)
}

/// Checks that the color mapping holds a color for every boundary value.
pub fn mapping_covers(colors: &HashMap<u8, Rgb>, luma_vec: &Vec<u8>) -> (b: bool)
    ensures
        b == covers(colors@, luma_vec@),
{
    let n = luma_vec.len();
    let mut i: usize = 0;
    while i < n
        invariant
            n == luma_vec@.len(),
            i <= n,
            forall|j: int| 0 <= j < i ==> colors@.contains_key(luma_vec@[j]),
        decreases n - i,
    {
        if !colors.contains_key(&luma_vec[i]) {
            proof {
                assert(luma_vec@.contains(luma_vec@[i as int]));
            }
            return false;
        }
        i = i + 1;
    }
    proof {
        assert forall|k: u8| luma_vec@.contains(k) implies colors@.contains_key(k) by {
            let j = choose|j: int| 0 <= j < n && luma_vec@[j] == k;
        }
    }
    true
}

/// The output color of one luminance value: the color of the bucket that
/// governs it.
pub fn remap_luma(luma: u8, luma_vec: &Vec<u8>, colors: &HashMap<u8, Rgb>) -> (c: Rgb)
    requires
        luma_vec@.len() >= 1,
        sorted(luma_vec@),
        covers(colors@, luma_vec@),
    ensures
        c == colors@[threshold_key(luma_vec@, luma)],
{
    let key = get_threshold_key(luma, luma_vec);
    match colors.get(&key) {
        Some(c) => *c,
        None => {
            // The mapping covers every boundary value and the resolved key
            // is one of them, so the lookup always hits.
            proof {
                assert(colors@.contains_key(key));
            }
            Rgb { red: 0, green: 0, blue: 0 }
        },
    }
}

/// Remaps a whole image, given as the luminance of each pixel in row-major
/// order: every pixel is independently rewritten to the color of its
/// bucket.
pub fn remap_lumas(lumas: &Vec<u8>, luma_vec: &Vec<u8>, colors: &HashMap<u8, Rgb>) -> (out: Vec<
    Rgb,
>)
    requires
        luma_vec@.len() >= 1,
        sorted(luma_vec@),
        covers(colors@, luma_vec@),
    ensures
        out@.len() == lumas@.len(),
        forall|i: int|
            0 <= i < lumas@.len() ==> out@[i] == colors@[threshold_key(luma_vec@, lumas@[i])],
{
    let n = lumas.len();
    let mut out: Vec<Rgb> = Vec::new();
    let mut i: usize = 0;
    while i < n
        invariant
            n == lumas@.len(),
            i <= n,
            luma_vec@.len() >= 1,
            sorted(luma_vec@),
            covers(colors@, luma_vec@),
            out@.len() == i as int,
            forall|j: int|
                0 <= j < i ==> out@[j] == colors@[threshold_key(luma_vec@, lumas@[j])],
        decreases n - i,
    {
        let c = remap_luma(lumas[i], luma_vec, colors);
        out.push(c);
        i = i + 1;
    }
    out
}

} // verus!
