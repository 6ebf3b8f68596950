//! Luminance posterization engine.
//!
//! Reduces the luminance range `[0, 255]` to a small set of ordered buckets,
//! then maps every bucket to an output color (a greyscale shade or a
//! user-supplied hex color). The bucket derivation, the ordered-threshold
//! lookup and the color mapping are verified; image decoding, the sRGB
//! luminance conversion and the command line live outside this crate.

use vstd::prelude::*;

pub mod buckets;
pub mod colormap;
pub mod colors;
pub mod naming;
pub mod remap;
pub mod thresholds;

pub use buckets::get_threshold_key;
pub use colormap::get_custom_greyscale_hashmap;
pub use colormap::get_greyscale_hashmap;
pub use colors::encode_color;
pub use colors::parse_color;
pub use colors::Rgb;
pub use naming::generate_filename;
pub use remap::mapping_covers;
pub use remap::remap_luma;
pub use remap::remap_lumas;
pub use thresholds::distinct_level_count;
pub use thresholds::luma_threshold;
pub use thresholds::luma_threshold_custom;
pub use thresholds::luma_threshold_keep;

use std::collections::HashMap;

use colormap::first_bad;
use colormap::get_color_hashmap;
use colormap::get_color_hashmap_custom;
use colormap::greyscale_map_spec;
use colormap::custom_greyscale_map_spec;
use colormap::zip_len;
use colors::parse_color_spec;
use colors::strip_hash;
use remap::covers;
use thresholds::custom_seq;
use thresholds::even_split_seq;
use thresholds::keep_seq;
use thresholds::lemma_keep_runs;
use thresholds::lemma_levels_props;
use thresholds::levels_of;
use thresholds::runs_before;
use thresholds::sorted;

verus! {

/// What can go wrong during a run: an I/O failure while files are touched,
/// a malformed digit in a hex color, a clock failure while the output name
/// is generated, a hex color too short, or level and color counts that do
/// not match.
#[derive(Clone, Copy, Debug, PartialEq, Eq, Structural)]
pub enum CliError {
    File,
    Parse,
    Time,
    InvalidHex,
    Mismatch,
}

/// The resolved run configuration: input paths, the even step count, the
/// explicit levels, the hex colors, the output extension, keep mode, the
/// debug flag and the optional output name.
#[derive(Clone, Debug)]
pub struct Opt {
    pub input: Vec<String>,
    pub num_steps: u8,
    pub values: Vec<u8>,
    pub colors: Vec<String>,
    pub extension: String,
    pub keep: bool,
    pub debug: bool,
    pub output: Option<String>,
}

/// The boundary sequence a custom-level configuration yields: the stepped
/// expansion, respaced evenly when keep mode is on.
pub open spec fn chosen_boundaries(values: Seq<u8>, keep: bool) -> Seq<u8> {
    if !keep {
        custom_seq(values)
    } else {
        keep_seq(custom_seq(values), values.len() as u8)
    }
}

/// Derives the boundary sequence and the color mapping from the resolved
/// configuration: with no explicit levels the range is split evenly, into
/// `num_steps` greyscale buckets or one bucket per supplied color; with
/// explicit levels the stepped expansion (respaced in keep mode) is
/// shaded grey or colored with the supplied colors, which must match the
/// levels in number.
pub fn derive_mapping(opt: &Opt) -> (r: Result<(Vec<u8>, HashMap<u8, colors::Rgb>), CliError>)
    requires
        opt.values@.len() == 0 && opt.colors@.len() == 0 ==> opt.num_steps >= 1,
        opt.values@.len() == 0 ==> opt.colors@.len() <= 255,
        opt.values@.len() != 0 ==> 2 <= opt.values@.len() <= 11 && levels_of(opt.values@).len()
            >= 2,
    ensures
        r matches Ok(p) ==> p.0@.len() >= 1 && sorted(p.0@) && covers(p.1@, p.0@),
        opt.values@.len() == 0 && opt.colors@.len() == 0 ==> (r matches Ok(p) && p.0@
            == even_split_seq(opt.num_steps) && p.1@ == greyscale_map_spec(
            even_split_seq(opt.num_steps),
        )),
        opt.values@.len() == 0 && opt.colors@.len() > 0 ==> ({
            let lumas = even_split_seq(opt.colors@.len() as u8);
            let n = opt.colors@.len() as int;
            let fb = first_bad(opt.colors@, n);
            &&& (r matches Ok(p) <==> fb == n)
            &&& (r matches Ok(p) ==> p.0@ == lumas && (forall|k: u8|
                #[trigger] p.1@.contains_key(k) <==> lumas.contains(k)) && (forall|i: int|
                0 <= i < n ==> ((#[trigger] parse_color_spec(strip_hash(opt.colors@[i]@)))
                    matches Ok(c) && p.1@[lumas[i]] == c)))
            &&& (r matches Err(e) ==> fb < n && parse_color_spec(strip_hash(opt.colors@[fb]@))
                == Err::<colors::Rgb, CliError>(e))
        }),
        opt.values@.len() >= 2 && opt.colors@.len() == 0 ==> (r matches Ok(p) && p.0@
            == chosen_boundaries(opt.values@, opt.keep) && p.1@ == custom_greyscale_map_spec(
            chosen_boundaries(opt.values@, opt.keep),
        )),
        opt.values@.len() >= 2 && opt.colors@.len() > 0 && opt.colors@.len() != opt.values@.len()
            ==> r == Err::<(Vec<u8>, HashMap<u8, colors::Rgb>), CliError>(CliError::Mismatch),
        opt.values@.len() >= 2 && opt.colors@.len() == opt.values@.len() ==> ({
            let lumas = chosen_boundaries(opt.values@, opt.keep);
            let used = runs_before(lumas, lumas.len() - 1) + 1;
            let fb = first_bad(opt.colors@, used);
            &&& (r matches Ok(p) <==> fb == used)
            &&& (r matches Ok(p) ==> p.0@ == lumas && (forall|k: u8|
                #[trigger] p.1@.contains_key(k) <==> lumas.contains(k)) && (forall|i: int|
                0 <= i < lumas.len() ==> ((#[trigger] parse_color_spec(
                    strip_hash(opt.colors@[runs_before(lumas, i)]@),
                )) matches Ok(c) && p.1@[lumas[i]] == c)))
            &&& (r matches Err(e) ==> fb < used && parse_color_spec(
                strip_hash(opt.colors@[fb]@),
            ) == Err::<colors::Rgb, CliError>(e))
        }),
{
    let values_len = opt.values.len();
    let colors_len = opt.colors.len();
    if values_len == 0 {
        if colors_len == 0 {
            let luma_vec = luma_threshold(opt.num_steps);
            let map = get_greyscale_hashmap(&luma_vec);
            Ok((luma_vec, map))
        } else {
            let luma_vec = luma_threshold(colors_len as u8);
            match get_color_hashmap(&opt.colors, &luma_vec) {
                Ok(map) => {
                    proof {
                        assert(zip_len(opt.colors@, luma_vec@) == colors_len as int);
                    }
                    Ok((luma_vec, map))
                },
                Err(e) => Err(e),
            }
        }
    } else {
        let luma_vec = if !opt.keep {
            luma_threshold_custom(&opt.values)
        } else {
            let temp_luma_vec = luma_threshold_custom(&opt.values);
            proof {
                lemma_levels_props(opt.values@);
            }
            luma_threshold_keep(&temp_luma_vec, values_len as u8)
        };
        proof {
            lemma_levels_props(opt.values@);
            if opt.keep {
                lemma_keep_runs(custom_seq(opt.values@), opt.values@.len() as u8, 10);
            }
        }
        if colors_len == 0 {
            let map = get_custom_greyscale_hashmap(&luma_vec);
            Ok((luma_vec, map))
        } else {
            if values_len != colors_len {
                return Err(CliError::Mismatch);
            }
            match get_color_hashmap_custom(&opt.colors, &luma_vec) {
                Ok(map) => Ok((luma_vec, map)),
                Err(e) => Err(e),
            }
        }
    }
}

} // verus!
