//! Color map builder: derives the mapping from bucket boundary value to
//! output color, in greyscale or with user-supplied hex colors.

use vstd::prelude::*;
use std::collections::HashMap;
use crate::colors::grey;
use crate::colors::parse_color;
use crate::colors::parse_color_spec;
use crate::colors::strip_hash;
use crate::colors::strip_hash_prefix;
use crate::colors::white;
use crate::colors::Rgb;
use crate::thresholds::lemma_runs_mono;
use crate::thresholds::runs_before;
use crate::thresholds::sorted;
use crate::CliError;

verus! {

broadcast use vstd::std_specs::hash::group_hash_axioms;

/// The greyscale mapping over the boundary sequence `s`: every distinct
/// boundary value maps to its own grey shade, except the value of the
/// last boundary, which maps to pure white.
pub open spec fn greyscale_map_spec(s: Seq<u8>) -> Map<u8, Rgb> {
    Map::new(
        |k: u8| s.contains(k),
        |k: u8|
            if k == s[s.len() - 1] {
                white()
            } else {
                grey(k)
            },
    )
}

/// The plain greyscale mapping over `s`: every distinct boundary value
/// maps to its own grey shade, with no white override.
pub open spec fn custom_greyscale_map_spec(s: Seq<u8>) -> Map<u8, Rgb> {
    Map::new(|k: u8| s.contains(k), |k: u8| grey(k))
}

/// Generate the greyscale colors to fill in the image: each boundary
/// value shades to itself, and the last boundary is overridden to pure
/// white so the brightest bucket renders as true white.
pub fn get_greyscale_hashmap(luma_zones: &Vec<u8>) -> (m: HashMap<u8, Rgb>)
    requires
        luma_zones@.len() >= 1,
    ensures
        m@ == greyscale_map_spec(luma_zones@),
{
    let s = luma_zones;
    let n = s.len();
    let mut m: HashMap<u8, Rgb> = HashMap::new();
    let mut i: usize = 0;
    while i < n - 1
        invariant
            n == s@.len(),
            1 <= n,
            i <= n - 1,
            forall|k: u8|
                #[trigger] m@.contains_key(k) <==> (exists|j: int| 0 <= j < i && s@[j] == k),
            forall|k: u8| m@.contains_key(k) ==> m@[k] == grey(k),
        decreases n - i,
    {
        let x = s[i];
        m.insert(x, Rgb { red: x, green: x, blue: x });
        proof {
            assert forall|k: u8| #[trigger] m@.contains_key(k) <==> (exists|j: int|
                0 <= j < i + 1 && s@[j] == k) by {
                if m@.contains_key(k) {
                    if k == x {
                        assert(s@[i as int] == k);
                    }
                }
                if exists|j: int| 0 <= j < i + 1 && s@[j] == k {
                    let j = choose|j: int| 0 <= j < i + 1 && s@[j] == k;
                    if j == i as int {
                        assert(k == x);
                    }
                }
            }
        }
        i = i + 1;
    }
    let last = s[n - 1];
    m.insert(last, Rgb { red: 255, green: 255, blue: 255 });
    proof {
        assert forall|k: u8| #[trigger] m@.contains_key(k) <==> luma_zones@.contains(k) by {
            if m@.contains_key(k) {
                if k == last {
                    assert(luma_zones@[n - 1] == k);
                } else {
                    let j = choose|j: int| 0 <= j < n - 1 && s@[j] == k;
                    assert(luma_zones@[j] == k);
                }
            }
            if luma_zones@.contains(k) {
                let j = choose|j: int| 0 <= j < n && luma_zones@[j] == k;
                if j < n - 1 {
                    assert(exists|j2: int| 0 <= j2 < n - 1 && s@[j2] == k);
                } else {
                    assert(k == last);
                }
            }
        }
        assert(m@ =~= greyscale_map_spec(luma_zones@));
    }
    m
}

/// Generate the greyscale colors for a custom boundary sequence: each
/// boundary value shades to itself; no white override.
pub fn get_custom_greyscale_hashmap(luma_zones: &Vec<u8>) -> (m: HashMap<u8, Rgb>)
    ensures
        m@ == custom_greyscale_map_spec(luma_zones@),
{
    let s = luma_zones;
    let n = s.len();
    let mut m: HashMap<u8, Rgb> = HashMap::new();
    let mut i: usize = 0;
    while i < n
        invariant
            n == s@.len(),
            i <= n,
            forall|k: u8|
                #[trigger] m@.contains_key(k) <==> (exists|j: int| 0 <= j < i && s@[j] == k),
            forall|k: u8| m@.contains_key(k) ==> m@[k] == grey(k),
        decreases n - i,
    {
        let x = s[i];
        m.insert(x, Rgb { red: x, green: x, blue: x });
        proof {
            assert forall|k: u8| #[trigger] m@.contains_key(k) <==> (exists|j: int|
                0 <= j < i + 1 && s@[j] == k) by {
                if m@.contains_key(k) {
                    if k == x {
                        assert(s@[i as int] == k);
                    }
                }
                if exists|j: int| 0 <= j < i + 1 && s@[j] == k {
                    let j = choose|j: int| 0 <= j < i + 1 && s@[j] == k;
                    if j == i as int {
                        assert(k == x);
                    }
                }
            }
        }
        i = i + 1;
    }
    proof {
        assert(m@ =~= custom_greyscale_map_spec(luma_zones@));
    }
    m
}

/// Number of pairs a zip of the two lists yields: the shorter length.
pub open spec fn zip_len(colors: Seq<String>, lumas: Seq<u8>) -> int {
    if colors.len() <= lumas.len() {
        colors.len() as int
    } else {
        lumas.len() as int
    }
}

/// Whether the color at index `k` parses.
pub open spec fn color_ok(colors: Seq<String>, k: int) -> bool {
    parse_color_spec(strip_hash(colors[k]@)) matches Ok(_)
}

/// Least index in `[k, n)` whose color fails to parse, or `n`.
pub open spec fn first_bad_from(colors: Seq<String>, k: int, n: int) -> int
    recommends
        0 <= k <= n,
    decreases n - k,
{
    if k >= n {
        n
    } else if !color_ok(colors, k) {
        k
    } else {
        first_bad_from(colors, k + 1, n)
    }
}

/// Least index below `n` whose color fails to parse, or `n`.
pub open spec fn first_bad(colors: Seq<String>, n: int) -> int {
    first_bad_from(colors, 0, n)
}

/// Skipping over indices that parse does not move the least failing one.
proof fn lemma_first_bad_skip(colors: Seq<String>, k: int, i: int, n: int)
    requires
        0 <= k <= i <= n,
        forall|j: int| k <= j < i ==> color_ok(colors, j),
    ensures
        first_bad_from(colors, k, n) == first_bad_from(colors, i, n),
    decreases i - k,
{
    if k < i {
        lemma_first_bad_skip(colors, k + 1, i, n);
    }
}

/// Generate the user colors to fill in the image: the `i`-th boundary
/// takes the `i`-th supplied color, pairing the two lists up to the
/// shorter length. The first color that fails to parse aborts the build
/// with its parse error.
pub fn get_color_hashmap(colors: &Vec<String>, luma_zones: &Vec<u8>) -> (r: Result<
    HashMap<u8, Rgb>,
    CliError,
>)
    requires
        forall|i: int, j: int|
            0 <= i < j < zip_len(colors@, luma_zones@) ==> luma_zones@[i] != luma_zones@[j],
    ensures
        ({
            let n = zip_len(colors@, luma_zones@);
            let fb = first_bad(colors@, n);
            &&& (r matches Ok(m) <==> fb == n)
            &&& (r matches Ok(m) ==> (forall|k: u8|
                #[trigger] m@.contains_key(k) <==> (exists|i: int|
                    0 <= i < n && luma_zones@[i] == k)) && (forall|i: int|
                0 <= i < n ==> ((#[trigger] parse_color_spec(strip_hash(colors@[i]@))) matches Ok(c)
                    && m@[luma_zones@[i]] == c)))
            &&& (r matches Err(e) ==> fb < n && parse_color_spec(strip_hash(colors@[fb]@))
                == Err::<Rgb, CliError>(e))
        }),
{
    let n = if colors.len() <= luma_zones.len() {
        colors.len()
    } else {
        luma_zones.len()
    };
    let mut m: HashMap<u8, Rgb> = HashMap::new();
    let mut i: usize = 0;
    while i < n
        invariant
            n as int == zip_len(colors@, luma_zones@),
            n <= colors@.len(),
            n <= luma_zones@.len(),
            i <= n,
            forall|a: int, b: int| 0 <= a < b < n ==> luma_zones@[a] != luma_zones@[b],
            forall|j: int| 0 <= j < i ==> color_ok(colors@, j),
            forall|k: u8|
                #[trigger] m@.contains_key(k) <==> (exists|j: int|
                    0 <= j < i && luma_zones@[j] == k),
            forall|j: int|
                0 <= j < i ==> ((#[trigger] parse_color_spec(strip_hash(colors@[j]@))) matches Ok(c)
                    && m@[luma_zones@[j]] == c),
        decreases n - i,
    {
        let stripped = strip_hash_prefix(colors[i].as_str());
        match parse_color(stripped) {
            Ok(c) => {
                m.insert(luma_zones[i], c);
                proof {
                    assert forall|k: u8| #[trigger] m@.contains_key(k) <==> (exists|j: int|
                        0 <= j < i + 1 && luma_zones@[j] == k) by {
                        if m@.contains_key(k) {
                            if k == luma_zones@[i as int] {
                                assert(luma_zones@[i as int] == k);
                            }
                        }
                        if exists|j: int| 0 <= j < i + 1 && luma_zones@[j] == k {
                            let j = choose|j: int| 0 <= j < i + 1 && luma_zones@[j] == k;
                            if j == i as int {
                                assert(k == luma_zones@[i as int]);
                            }
                        }
                    }
                }
                i = i + 1;
            },
            Err(e) => {
                proof {
                    lemma_first_bad_skip(colors@, 0, i as int, n as int);
                }
                return Err(e);
            },
        }
    }
    proof {
        lemma_first_bad_skip(colors@, 0, n as int, n as int);
    }
    Ok(m)
}

/// Two equal values of a sorted sequence share their run index.
proof fn lemma_runs_equal_range(s: Seq<u8>, j: int, i: int)
    requires
        sorted(s),
        0 <= j <= i < s.len(),
        s[j] == s[i],
    ensures
        runs_before(s, j) == runs_before(s, i),
    decreases i - j,
{
    if j < i {
        assert(s[j] <= s[i - 1]);
        lemma_runs_equal_range(s, j, i - 1);
    }
}

/// Generate the user colors for a custom boundary sequence: boundaries
/// sharing a stepped value share a color, and each change of boundary
/// value advances to the next supplied color. The first color that fails
/// to parse aborts the build with its parse error.
pub fn get_color_hashmap_custom(colors: &Vec<String>, luma_zones: &Vec<u8>) -> (r: Result<
    HashMap<u8, Rgb>,
    CliError,
>)
    requires
        luma_zones@.len() >= 1,
        sorted(luma_zones@),
        runs_before(luma_zones@, luma_zones@.len() - 1) < colors@.len(),
    ensures
        ({
            let lz = luma_zones@;
            let used = runs_before(lz, lz.len() - 1) + 1;
            let fb = first_bad(colors@, used);
            &&& (r matches Ok(m) <==> fb == used)
            &&& (r matches Ok(m) ==> (forall|k: u8|
                #[trigger] m@.contains_key(k) <==> lz.contains(k)) && (forall|i: int|
                0 <= i < lz.len() ==> ((#[trigger] parse_color_spec(
                    strip_hash(colors@[runs_before(lz, i)]@),
                )) matches Ok(c) && m@[lz[i]] == c)))
            &&& (r matches Err(e) ==> fb < used && parse_color_spec(strip_hash(colors@[fb]@))
                == Err::<Rgb, CliError>(e))
        }),
{
    let ghost lz = luma_zones@;
    let len = luma_zones.len();
    let ncolors = colors.len();
    let mut m: HashMap<u8, Rgb> = HashMap::new();
    let mut counter: usize = 0;
    let mut curr: u8 = luma_zones[0];
    let mut i: usize = 0;
    while i < len
        invariant
            lz == luma_zones@,
            len == lz.len(),
            1 <= len,
            sorted(lz),
            ncolors == colors@.len(),
            runs_before(lz, len - 1) < colors@.len(),
            i <= len,
            counter as int == runs_before(lz, i as int - 1),
            curr == lz[if i == 0 {
                0int
            } else {
                i - 1
            }],
            forall|j: int|
                0 <= j < (if i == 0 {
                    0int
                } else {
                    runs_before(lz, i as int - 1) + 1
                }) ==> color_ok(colors@, j),
            forall|k: u8|
                #[trigger] m@.contains_key(k) <==> (exists|j: int| 0 <= j < i && lz[j] == k),
            forall|j: int|
                0 <= j < i ==> ((#[trigger] parse_color_spec(
                    strip_hash(colors@[runs_before(lz, j)]@),
                )) matches Ok(c) && m@[lz[j]] == c),
        decreases len - i,
    {
        proof {
            lemma_runs_mono(lz, i as int, len - 1);
        }
        if luma_zones[i] != curr {
            proof {
                assert(i > 0);
                assert(runs_before(lz, i as int) == counter as int + 1);
            }
            curr = luma_zones[i];
            counter = counter + 1;
        }
        let stripped = strip_hash_prefix(colors[counter].as_str());
        match parse_color(stripped) {
            Ok(c) => {
                m.insert(luma_zones[i], c);
                proof {
                    assert forall|k: u8| #[trigger] m@.contains_key(k) <==> (exists|j: int|
                        0 <= j < i + 1 && lz[j] == k) by {
                        if m@.contains_key(k) {
                            if k == lz[i as int] {
                                assert(lz[i as int] == k);
                            }
                        }
                        if exists|j: int| 0 <= j < i + 1 && lz[j] == k {
                            let j = choose|j: int| 0 <= j < i + 1 && lz[j] == k;
                            if j == i as int {
                                assert(k == lz[i as int]);
                            }
                        }
                    }
                    assert forall|j: int|
                        0 <= j < i + 1 implies (#[trigger] parse_color_spec(
                        strip_hash(colors@[runs_before(lz, j)]@),
                    )) matches Ok(c2) && m@[lz[j]] == c2 by {
                        if j < i && lz[j] == lz[i as int] {
                            lemma_runs_equal_range(lz, j, i as int);
                        }
                    }
                }
                i = i + 1;
            },
            Err(e) => {
                proof {
                    lemma_first_bad_skip(colors@, 0, counter as int, runs_before(lz, len - 1) + 1);
                }
                return Err(e);
            },
        }
    }
    proof {
        lemma_first_bad_skip(
            colors@,
            0,
            runs_before(lz, len - 1) + 1,
            runs_before(lz, len - 1) + 1,
        );
    }
    Ok(m)
}

/// Greyscale white invariant: in the greyscale mapping over a sorted
/// boundary sequence, the maximal boundary value — which every other
/// boundary lies below — is assigned pure white, whatever its numeric
/// value.
pub proof fn lemma_greyscale_white(s: Seq<u8>)
    requires
        s.len() >= 1,
        sorted(s),
    ensures
        forall|k: u8| s.contains(k) ==> k <= s[s.len() - 1],
        greyscale_map_spec(s)[s[s.len() - 1]] == white(),
{
    assert forall|k: u8| s.contains(k) implies k <= s[s.len() - 1] by {
        let j = choose|j: int| 0 <= j < s.len() && s[j] == k;
        assert(s[j] <= s[s.len() - 1]);
    }
    assert(s.contains(s[s.len() - 1]));
}

} // verus!
