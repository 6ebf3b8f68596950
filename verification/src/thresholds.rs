//! Threshold builder: derives the ordered sequence of bucket boundary
//! values from the run configuration.

use vstd::prelude::*;
use vstd::seq_lib::*;
use vstd::set_lib::*;

verus! {

/// A sequence is strictly ascending.
pub open spec fn strict_sorted(s: Seq<u8>) -> bool {
    forall|i: int, j: int| 0 <= i < j < s.len() ==> s[i] < s[j]
}

/// A supplied level at or above 11 is clamped to the maximal level 10.
pub open spec fn clamp_level(v: u8) -> u8 {
    if v < 11 {
        v
    } else {
        10
    }
}

/// The supplied level list with every entry clamped into `[0, 10]`.
pub open spec fn clamped_seq(values: Seq<u8>) -> Seq<u8> {
    values.map_values(|v: u8| clamp_level(v))
}

/// Whether some supplied entry clamps to level `l`.
pub open spec fn has_level(values: Seq<u8>, l: u8) -> bool {
    clamped_seq(values).contains(l)
}

/// The ascending sequence of distinct clamped levels below `n`.
pub open spec fn levels_up_to(values: Seq<u8>, n: int) -> Seq<u8>
    decreases n,
{
    if n <= 0 {
        Seq::empty()
    } else if has_level(values, (n - 1) as u8) {
        levels_up_to(values, n - 1).push((n - 1) as u8)
    } else {
        levels_up_to(values, n - 1)
    }
}

/// The ascending sequence of distinct clamped levels: what remains of the
/// supplied level list after clamping, sorting and deduplication.
pub open spec fn levels_of(values: Seq<u8>) -> Seq<u8> {
    levels_up_to(values, 11)
}

proof fn lemma_levels_up_to_props(values: Seq<u8>, n: int)
    requires
        0 <= n <= 11,
    ensures
        forall|i: int| 0 <= i < levels_up_to(values, n).len() ==> (levels_up_to(values, n)[i] as int) < n,
        strict_sorted(levels_up_to(values, n)),
        forall|x: u8| levels_up_to(values, n).contains(x) <==> ((x as int) < n && has_level(values, x)),
    decreases n,
{
    if n > 0 {
        lemma_levels_up_to_props(values, n - 1);
        let prev = levels_up_to(values, n - 1);
        let cur = levels_up_to(values, n);
        if has_level(values, (n - 1) as u8) {
            assert(cur == prev.push((n - 1) as u8));
            assert forall|i: int| 0 <= i < cur.len() implies (cur[i] as int) < n by {
                if i < prev.len() {
                    assert(cur[i] == prev[i]);
                } else {
                    assert(cur[i] == (n - 1) as u8);
                }
            }
            assert forall|i: int, j: int| 0 <= i < j < cur.len() implies cur[i] < cur[j] by {
                if j < prev.len() {
                    assert(cur[i] == prev[i]);
                    assert(cur[j] == prev[j]);
                } else {
                    assert(cur[j] == (n - 1) as u8);
                    assert(cur[i] == prev[i]);
                    assert((prev[i] as int) < n - 1);
                }
            }
            assert forall|x: u8| cur.contains(x) implies ((x as int) < n && has_level(values, x)) by {
                let i = choose|i: int| 0 <= i < cur.len() && cur[i] == x;
                if i < prev.len() {
                    assert(prev[i] == x);
                    assert(prev.contains(x));
                } else {
                    assert(x == (n - 1) as u8);
                }
            }
            assert forall|x: u8| ((x as int) < n && has_level(values, x)) implies cur.contains(x) by {
                if (x as int) < n - 1 {
                    assert(prev.contains(x));
                    let i = choose|i: int| 0 <= i < prev.len() && prev[i] == x;
                    assert(cur[i] == x);
                } else {
                    assert(x == (n - 1) as u8);
                    assert(cur[prev.len() as int] == x);
                }
            }
        } else {
            assert(cur == prev);
            assert forall|x: u8| ((x as int) < n && has_level(values, x)) implies cur.contains(x) by {
                if (x as int) < n - 1 {
                } else {
                    assert(x == (n - 1) as u8);
                    assert(!has_level(values, (n - 1) as u8));
                }
            }
        }
    }
}

/// In a strictly ascending sequence of naturals every element reaches its
/// own index.
proof fn lemma_strict_sorted_ge_index(s: Seq<u8>, i: int)
    requires
        strict_sorted(s),
        0 <= i < s.len(),
    ensures
        s[i] as int >= i,
    decreases i,
{
    if i > 0 {
        lemma_strict_sorted_ge_index(s, i - 1);
    }
}

/// The distinct clamped levels: strictly ascending, all in `[0, 10]`, at
/// most 11 of them and no more than the supplied entries; an entry exists
/// exactly for each level some supplied value clamps to.
pub proof fn lemma_levels_props(values: Seq<u8>)
    ensures
        strict_sorted(levels_of(values)),
        forall|i: int| 0 <= i < levels_of(values).len() ==> levels_of(values)[i] < 11,
        forall|x: u8| levels_of(values).contains(x) <==> (x < 11 && has_level(values, x)),
        levels_of(values).len() <= 11,
        levels_of(values).len() <= values.len(),
        values.len() > 0 ==> levels_of(values).len() >= 1,
{
    broadcast use vstd::set::group_set_axioms;

    lemma_levels_up_to_props(values, 11);
    let l = levels_of(values);
    if l.len() > 0 {
        lemma_strict_sorted_ge_index(l, l.len() - 1);
    }
    // Cardinality: the levels are distinct and each occurs among the
    // clamped entries, so there are no more levels than entries.
    assert(l.no_duplicates());
    l.unique_seq_to_set();
    let c = clamped_seq(values);
    assert(c.len() == values.len());
    assert forall|x: u8| l.to_set().contains(x) implies c.to_set().contains(x) by {
        assert(levels_up_to(values, 11).contains(x));
        assert(has_level(values, x));
        assert(c.contains(x));
    }
    lemma_len_subset(l.to_set(), c.to_set());
    c.lemma_cardinality_of_set();
    if values.len() > 0 {
        assert(c[0] == clamp_level(values[0]));
        assert(has_level(values, clamp_level(values[0])));
        assert(l.contains(clamp_level(values[0])));
    }
}

/// Per-level granularity of the stepped expansion: 11 levels span about
/// 253 of the 255-value luminance range.
pub open spec fn level_granularity() -> int {
    23
}

/// How many of the levels beyond the first lie at or below slot `n`,
/// counting only indices below `j`.
pub open spec fn steps_count(levels: Seq<u8>, j: int, n: int) -> int
    decreases j,
{
    if j <= 1 {
        0
    } else {
        steps_count(levels, j - 1, n) + if levels[j - 1] as int <= n {
            1int
        } else {
            0int
        }
    }
}

/// The level index governing slot `n`: the number of levels beyond the
/// first that have started at or before `n`.
pub open spec fn steps_at(levels: Seq<u8>, n: int) -> int {
    steps_count(levels, levels.len() as int, n)
}

/// The stepped 11-slot boundary sequence for the given user levels: slot
/// `n` carries the granularity-scaled value of the level governing it.
pub open spec fn custom_seq(values: Seq<u8>) -> Seq<u8> {
    Seq::new(
        11,
        |n: int| (level_granularity() * levels_of(values)[steps_at(levels_of(values), n)]) as u8,
    )
}

/// For strictly ascending levels, the indices counted by `steps_count`
/// form a prefix: index `k` is counted exactly when `levels[k] <= n`.
proof fn lemma_steps_count_char(levels: Seq<u8>, j: int, n: int)
    requires
        strict_sorted(levels),
        1 <= j <= levels.len(),
    ensures
        0 <= steps_count(levels, j, n) <= j - 1,
        forall|k: int|
            1 <= k < j ==> ((#[trigger] (levels[k]) as int <= n) <==> k <= steps_count(
                levels,
                j,
                n,
            )),
    decreases j,
{
    if j > 1 {
        lemma_steps_count_char(levels, j - 1, n);
        let c = steps_count(levels, j - 1, n);
        if levels[j - 1] as int <= n {
            assert forall|k: int| 1 <= k < j - 1 implies (#[trigger] (levels[k]) as int <= n) by {
                assert(levels[k] < levels[j - 1]);
            }
            if j - 2 >= 1 {
                assert(levels[j - 2] as int <= n);
                assert(j - 2 <= c);
            }
        }
    }
}

/// Counting with a larger slot bound never counts fewer levels.
proof fn lemma_steps_count_mono(levels: Seq<u8>, j: int, m: int, n: int)
    requires
        1 <= j <= levels.len(),
        m <= n,
    ensures
        steps_count(levels, j, m) <= steps_count(levels, j, n),
    decreases j,
{
    if j > 1 {
        lemma_steps_count_mono(levels, j - 1, m, n);
    }
}

/// Moving the slot bound from `n - 1` to `n` counts one more level exactly
/// when some level beyond the first equals `n`.
proof fn lemma_steps_count_diff(levels: Seq<u8>, j: int, n: int)
    requires
        strict_sorted(levels),
        1 <= j <= levels.len(),
    ensures
        steps_count(levels, j, n) == steps_count(levels, j, n - 1) + if (exists|k: int|
            1 <= k < j && #[trigger] (levels[k]) as int == n) {
            1int
        } else {
            0int
        },
    decreases j,
{
    if j > 1 {
        lemma_steps_count_diff(levels, j - 1, n);
        if levels[j - 1] as int == n {
            assert forall|k: int| 1 <= k < j - 1 implies !(#[trigger] (levels[k]) as int == n) by {
                assert(levels[k] < levels[j - 1]);
            }
            assert(levels[j - 1] as int == n);
        } else {
            if exists|k: int| 1 <= k < j && #[trigger] (levels[k]) as int == n {
                let k = choose|k: int| 1 <= k < j && #[trigger] (levels[k]) as int == n;
                assert(k < j - 1);
            }
        }
    }
}

/// No level beyond the first starts at slot 0.
proof fn lemma_steps_at_zero(levels: Seq<u8>)
    requires
        strict_sorted(levels),
        1 <= levels.len(),
    ensures
        steps_at(levels, 0) == 0,
{
    lemma_steps_count_char(levels, levels.len() as int, 0);
    if steps_at(levels, 0) >= 1 {
        assert(levels[1] as int <= 0);
        assert(levels[0] < levels[1]);
    }
}

/// By the last slot every level has started.
proof fn lemma_steps_at_full(levels: Seq<u8>)
    requires
        strict_sorted(levels),
        1 <= levels.len(),
        forall|i: int| 0 <= i < levels.len() ==> levels[i] < 11,
    ensures
        steps_at(levels, 10) == levels.len() - 1,
{
    lemma_steps_count_char(levels, levels.len() as int, 10);
    if levels.len() >= 2 {
        assert(levels[levels.len() - 1] as int <= 10);
    }
}

/// Whether `x` occurs in `v`.
fn contains_val(v: &Vec<u8>, x: u8) -> (b: bool)
    ensures
        b == v@.contains(x),
{
    let n = v.len();
    let mut i: usize = 0;
    while i < n
        invariant
            n == v@.len(),
            i <= n,
            forall|k: int| 0 <= k < i ==> v@[k] != x,
        decreases n - i,
    {
        if v[i] == x {
            return true;
        }
        i = i + 1;
    }
    false
}

/// Clamps the supplied levels into `[0, 10]`, sorts them and drops
/// duplicates.
fn build_levels(values: &Vec<u8>) -> (levels: Vec<u8>)
    ensures
        levels@ == levels_of(values@),
{
    let mut clamped: Vec<u8> = Vec::new();
    let n = values.len();
    let mut i: usize = 0;
    while i < n
        invariant
            n == values@.len(),
            i <= n,
            clamped@.len() == i as int,
            forall|k: int| 0 <= k < i ==> clamped@[k] == clamp_level(values@[k]),
        decreases n - i,
    {
        let v = values[i];
        if v < 11 {
            clamped.push(v);
        } else {
            clamped.push(10);
        }
        i = i + 1;
    }
    proof {
        assert(clamped@ =~= clamped_seq(values@));
    }
    let mut levels: Vec<u8> = Vec::new();
    let mut l: u8 = 0;
    while l < 11
        invariant
            clamped@ == clamped_seq(values@),
            l <= 11,
            levels@ == levels_up_to(values@, l as int),
        decreases 11 - l,
    {
        if contains_val(&clamped, l) {
            levels.push(l);
        }
        l = l + 1;
    }
    levels
}

/// A boundary sequence is sorted in non-decreasing order.
pub open spec fn sorted(s: Seq<u8>) -> bool {
    forall|i: int, j: int| 0 <= i <= j < s.len() ==> s[i] <= s[j]
}

/// Width of one evenly spaced bucket when the range is split `num` ways.
pub open spec fn even_step(num: u8) -> int {
    255int / num as int
}

/// The evenly split boundary sequence: `num` boundaries, `i * (255 / num)`.
pub open spec fn even_split_seq(num: u8) -> Seq<u8> {
    Seq::new(num as nat, |i: int| (i * even_step(num)) as u8)
}

/// Generates the threshold buckets for `levels` to be divided into: `num`
/// strictly ascending boundaries starting at 0, each a multiple of
/// `255 / num`.
pub fn luma_threshold(num: u8) -> (r: Vec<u8>)
    requires
        1 <= num,
    ensures
        r@ == even_split_seq(num),
        r@.len() == num as int,
        r@[0] == 0,
        forall|i: int| 0 <= i < num ==> r@[i] as int == i * even_step(num),
        forall|i: int, j: int| 0 <= i < j < num ==> r@[i] < r@[j],
        sorted(r@),
{
    let step: u8 = 255 / num;
    let mut v: Vec<u8> = Vec::new();
    let mut i: u8 = 0;
    while i < num
        invariant
            1 <= num,
            i <= num,
            step == even_step(num),
            v@.len() == i as int,
            forall|k: int| 0 <= k < i ==> v@[k] as int == k * even_step(num),
        decreases num - i,
    {
        proof {
            lemma_even_mul_bound(num, i as int);
        }
        v.push(i * step);
        i = i + 1;
    }
    proof {
        assert(even_step(num) >= 1) by (nonlinear_arith)
            requires
                1 <= num as int <= 255,
        ;
        assert forall|a: int, b: int| 0 <= a < b < num implies v@[a] < v@[b] by {
            assert(a * even_step(num) < b * even_step(num)) by (nonlinear_arith)
                requires
                    0 <= a < b,
                    even_step(num) >= 1,
            ;
        }
        assert(v@ =~= even_split_seq(num));
    }
    v
}

/// Number of positions in `[1, i]` where the sequence changes value: the
/// index of the run that position `i` belongs to.
pub open spec fn runs_before(s: Seq<u8>, i: int) -> int
    decreases i,
{
    if i <= 0 {
        0
    } else {
        runs_before(s, i - 1) + if s[i] != s[i - 1] {
            1int
        } else {
            0int
        }
    }
}

/// Run indices never decrease along the sequence.
pub(crate) proof fn lemma_runs_mono(s: Seq<u8>, i: int, j: int)
    requires
        i <= j,
    ensures
        runs_before(s, i) <= runs_before(s, j),
    decreases j - i,
{
    if i < j {
        lemma_runs_mono(s, i, j - 1);
    }
}

/// In the stepped expansion the run index of each slot is exactly the
/// index of the level governing it.
proof fn lemma_custom_runs(values: Seq<u8>, m: int)
    requires
        1 <= levels_of(values).len(),
        0 <= m <= 10,
    ensures
        runs_before(custom_seq(values), m) == steps_at(levels_of(values), m),
    decreases m,
{
    let levels = levels_of(values);
    let cs = custom_seq(values);
    lemma_levels_props(values);
    lemma_steps_count_char(levels, levels.len() as int, m);
    if m == 0 {
        lemma_steps_at_zero(levels);
    } else {
        lemma_custom_runs(values, m - 1);
        lemma_steps_count_char(levels, levels.len() as int, m - 1);
        lemma_steps_count_diff(levels, levels.len() as int, m);
        let a = steps_at(levels, m - 1);
        let b = steps_at(levels, m);
        assert(cs[m - 1] == (level_granularity() * levels[a]) as u8);
        assert(cs[m] == (level_granularity() * levels[b]) as u8);
        if exists|k: int| 1 <= k < levels.len() && #[trigger] (levels[k]) as int == m {
            assert(b == a + 1);
            assert(levels[a] < levels[b]);
            assert(cs[m] != cs[m - 1]);
        } else {
            assert(b == a);
            assert(cs[m] == cs[m - 1]);
        }
    }
}

/// Generates user specified threshold buckets for `levels` to be divided
/// into: 11 slots, each carrying the granularity-scaled value of the
/// governing level, stepped at the positions of the chosen levels.
pub fn luma_threshold_custom(values: &Vec<u8>) -> (r: Vec<u8>)
    requires
        levels_of(values@).len() >= 2,
    ensures
        r@ == custom_seq(values@),
        r@.len() == 11,
        sorted(r@),
        forall|i: int| 0 <= i < 11 ==> r@[i] <= 230,
        runs_before(r@, 10) == levels_of(values@).len() - 1,
{
    let levels = build_levels(values);
    let ghost lv = levels_of(values@);
    proof {
        lemma_levels_props(values@);
    }
    let len = levels.len();
    let mut arr: Vec<u8> = Vec::new();
    let mut counter: usize = 0;
    let mut next: u8 = levels[1];
    proof {
        lemma_steps_at_zero(lv);
    }
    let mut n: usize = 0;
    while n < 11
        invariant
            levels@ == lv,
            lv == levels_of(values@),
            len == lv.len(),
            2 <= len <= 11,
            strict_sorted(lv),
            forall|i: int| 0 <= i < len ==> lv[i] < 11,
            n <= 11,
            counter == steps_at(lv, n as int),
            0 <= counter < len,
            next == lv[if counter + 1 < len {
                counter + 1
            } else {
                len - 1
            }],
            arr@.len() == n as int,
            forall|m: int|
                0 <= m < n ==> arr@[m] == (level_granularity() * lv[steps_at(lv, m)]) as u8,
        decreases 11 - n,
    {
        proof {
            lemma_steps_count_char(lv, len as int, n as int);
        }
        arr.push(levels[counter] * 23);
        proof {
            lemma_steps_count_diff(lv, len as int, n as int + 1);
            lemma_steps_count_char(lv, len as int, n as int + 1);
            if counter + 1 < len {
                if n + 1 == next as usize {
                    assert(lv[counter as int + 1] as int == n + 1);
                    assert(steps_at(lv, n as int + 1) == counter as int + 1);
                } else {
                    if exists|k: int|
                        1 <= k < len && #[trigger] (lv[k]) as int == n as int + 1 {
                        let k = choose|k: int|
                            1 <= k < len && #[trigger] (lv[k]) as int == n as int + 1;
                        assert(k > counter as int);
                        assert(lv[counter as int + 1] <= lv[k]);
                        assert(lv[counter as int + 1] as int > n as int);
                    }
                    assert(steps_at(lv, n as int + 1) == counter as int);
                }
            } else {
                assert(counter == len - 1);
                assert(lv[len - 1] as int <= n as int);
                assert(next as usize <= n);
                if exists|k: int| 1 <= k < len && #[trigger] (lv[k]) as int == n as int + 1 {
                    let k = choose|k: int|
                        1 <= k < len && #[trigger] (lv[k]) as int == n as int + 1;
                    assert(lv[k] <= lv[len - 1]);
                }
                assert(steps_at(lv, n as int + 1) == counter as int);
            }
        }
        if n + 1 == next as usize {
            counter = counter + 1;
            if counter < len - 1 {
                next = levels[counter + 1];
            }
        }
        n = n + 1;
    }
    proof {
        assert(arr@ =~= custom_seq(values@));
        lemma_custom_sorted(values@);
        lemma_custom_runs(values@, 10);
        lemma_steps_at_full(lv);
    }
    arr
}

/// The stepped expansion is sorted and its values stay at or below
/// `10 * 23 == 230`.
proof fn lemma_custom_sorted(values: Seq<u8>)
    requires
        1 <= levels_of(values).len(),
    ensures
        sorted(custom_seq(values)),
        forall|i: int| 0 <= i < 11 ==> custom_seq(values)[i] <= 230,
{
    lemma_levels_props(values);
    let lv = levels_of(values);
    let cs = custom_seq(values);
    let len = lv.len() as int;
    assert forall|i: int| 0 <= i < 11 implies cs[i] <= 230 by {
        lemma_steps_count_char(lv, len, i);
        assert(lv[steps_at(lv, i)] < 11);
    }
    assert forall|i: int, j: int| 0 <= i <= j < cs.len() implies cs[i] <= cs[j] by {
        lemma_steps_count_mono(lv, len, i, j);
        lemma_steps_count_char(lv, len, i);
        lemma_steps_count_char(lv, len, j);
        assert(lv[steps_at(lv, i)] <= lv[steps_at(lv, j)]);
    }
}

/// The evenly respaced boundary sequence that keeps the run structure of
/// `s`: position `i` carries its run index scaled by the even step width.
pub open spec fn keep_seq(s: Seq<u8>, num: u8) -> Seq<u8> {
    Seq::new(s.len(), |i: int| (runs_before(s, i) * even_step(num)) as u8)
}

/// Replace user specified value colors in `vec` with evenly spaced colors
/// as in `luma_threshold`: each run of equal boundary values is reassigned
/// its run index scaled by the even step width.
pub fn luma_threshold_keep(vec: &Vec<u8>, num: u8) -> (r: Vec<u8>)
    requires
        vec@.len() >= 1,
        1 <= num,
        runs_before(vec@, vec@.len() - 1) < num as int,
    ensures
        r@ == keep_seq(vec@, num),
        r@.len() == vec@.len(),
        sorted(r@),
{
    let step: u8 = 255 / num;
    let len = vec.len();
    let mut ret: Vec<u8> = Vec::new();
    let mut counter: u8 = 0;
    let mut curr: u8 = vec[0];
    let mut i: usize = 0;
    while i < len
        invariant
            len == vec@.len(),
            1 <= len,
            1 <= num,
            step == even_step(num),
            runs_before(vec@, len - 1) < num as int,
            i <= len,
            counter as int == runs_before(vec@, i as int - 1),
            curr == vec@[if i == 0 {
                0int
            } else {
                i - 1
            }],
            ret@.len() == i as int,
            forall|m: int| 0 <= m < i ==> ret@[m] == (runs_before(vec@, m) * even_step(num)) as u8,
        decreases len - i,
    {
        proof {
            lemma_runs_mono(vec@, i as int, len - 1);
        }
        if vec[i] != curr {
            curr = vec[i];
            counter = counter + 1;
        }
        proof {
            lemma_even_mul_bound(num, counter as int);
        }
        ret.push(counter * step);
        i = i + 1;
    }
    proof {
        assert(ret@ =~= keep_seq(vec@, num));
        lemma_keep_sorted(vec@, num);
    }
    ret
}

/// How many distinct clamped levels the supplied list holds.
pub fn distinct_level_count(values: &Vec<u8>) -> (n: usize)
    ensures
        n as int == levels_of(values@).len(),
{
    let levels = build_levels(values);
    levels.len()
}

/// The respaced sequence is sorted.
proof fn lemma_keep_sorted(s: Seq<u8>, num: u8)
    requires
        s.len() >= 1,
        1 <= num,
        runs_before(s, s.len() - 1) < num as int,
    ensures
        sorted(keep_seq(s, num)),
{
    let ks = keep_seq(s, num);
    assert forall|i: int, j: int| 0 <= i <= j < ks.len() implies ks[i] <= ks[j] by {
        lemma_runs_mono(s, i, j);
        lemma_runs_mono(s, j, s.len() - 1);
        lemma_runs_mono(s, 0, i);
        lemma_even_mul_bound(num, runs_before(s, i));
        lemma_even_mul_bound(num, runs_before(s, j));
        assert(runs_before(s, i) * even_step(num) <= runs_before(s, j) * even_step(num))
            by (nonlinear_arith)
            requires
                runs_before(s, i) <= runs_before(s, j),
                even_step(num) >= 0,
        ;
    }
}

/// Two sequences that agree up to position `i` have the same run index
/// there.
proof fn lemma_runs_agree(s1: Seq<u8>, s2: Seq<u8>, i: int)
    requires
        forall|k: int| 0 <= k <= i ==> s1[k] == s2[k],
    ensures
        runs_before(s1, i) == runs_before(s2, i),
    decreases i,
{
    if i > 0 {
        lemma_runs_agree(s1, s2, i - 1);
    }
}

/// A sorted sequence has one distinct value per run.
proof fn lemma_sorted_distinct_card(s: Seq<u8>)
    requires
        s.len() >= 1,
        sorted(s),
    ensures
        s.to_set().len() == runs_before(s, s.len() - 1) + 1,
    decreases s.len(),
{
    broadcast use vstd::set::group_set_axioms;
    broadcast use vstd::seq_lib::seq_to_set_is_finite;

    if s.len() == 1 {
        assert(s.to_set() =~= Set::empty().insert(s[0]));
    } else {
        let pre = s.drop_last();
        let last = s[s.len() - 1];
        assert(forall|k: int| 0 <= k < pre.len() ==> pre[k] == s[k]);
        lemma_sorted_distinct_card(pre);
        lemma_runs_agree(pre, s, s.len() - 2);
        if last == s[s.len() - 2] {
            assert(pre.contains(last)) by {
                assert(pre[s.len() - 2] == last);
            }
            assert forall|x: u8| s.contains(x) implies pre.contains(x) by {
                let k = choose|k: int| 0 <= k < s.len() && s[k] == x;
                if k == s.len() - 1 {
                    assert(pre[s.len() - 2] == x);
                } else {
                    assert(pre[k] == x);
                }
            }
            assert(s.to_set() =~= pre.to_set());
        } else {
            assert(!pre.contains(last)) by {
                if pre.contains(last) {
                    let k = choose|k: int| 0 <= k < pre.len() && pre[k] == last;
                    assert(s[k] <= s[s.len() - 2]);
                }
            }
            assert forall|x: u8| s.contains(x) && x != last implies pre.contains(x) by {
                let k = choose|k: int| 0 <= k < s.len() && s[k] == x;
                assert(pre[k] == x);
            }
            assert(s.contains(last)) by {
                assert(s[s.len() - 1] == last);
            }
            assert(s.to_set() =~= pre.to_set().insert(last));
        }
    }
}

/// Keep-mode bucket count invariant: respacing a stepped custom boundary
/// sequence changes neither its run structure nor its number of distinct
/// values, which both equal the number of distinct user levels.
pub proof fn lemma_keep_bucket_count(values: Seq<u8>, num: u8)
    requires
        levels_of(values).len() >= 2,
        levels_of(values).len() <= num as int,
    ensures
        custom_seq(values).to_set().len() == levels_of(values).len(),
        keep_seq(custom_seq(values), num).to_set().len() == levels_of(values).len(),
{
    let lv = levels_of(values);
    let cs = custom_seq(values);
    let ks = keep_seq(cs, num);
    lemma_levels_props(values);
    lemma_custom_sorted(values);
    lemma_custom_runs(values, 10);
    lemma_steps_at_full(lv);
    lemma_sorted_distinct_card(cs);
    lemma_keep_sorted(cs, num);
    lemma_keep_runs(cs, num, 10);
    lemma_sorted_distinct_card(ks);
}

/// Respacing keeps the run index of every position.
pub(crate) proof fn lemma_keep_runs(s: Seq<u8>, num: u8, m: int)
    requires
        1 <= num,
        0 <= m < s.len(),
        runs_before(s, s.len() - 1) < num as int,
    ensures
        runs_before(keep_seq(s, num), m) == runs_before(s, m),
    decreases m,
{
    let ks = keep_seq(s, num);
    if m > 0 {
        lemma_keep_runs(s, num, m - 1);
        lemma_runs_mono(s, m, s.len() - 1);
        lemma_runs_mono(s, 0, m - 1);
        lemma_even_mul_bound(num, runs_before(s, m));
        lemma_even_mul_bound(num, runs_before(s, m - 1));
        assert(even_step(num) >= 1) by (nonlinear_arith)
            requires
                1 <= num as int <= 255,
        ;
        if s[m] != s[m - 1] {
            assert(runs_before(s, m) == runs_before(s, m - 1) + 1);
            assert(runs_before(s, m - 1) * even_step(num) + even_step(num) == runs_before(s, m)
                * even_step(num)) by (nonlinear_arith)
                requires
                    runs_before(s, m) == runs_before(s, m - 1) + 1,
            ;
            assert(ks[m] != ks[m - 1]);
        } else {
            assert(ks[m] == ks[m - 1]);
        }
    }
}

/// For `0 <= i < num`, the boundary `i * (255 / num)` stays within `u8`.
proof fn lemma_even_mul_bound(num: u8, i: int)
    requires
        1 <= num,
        0 <= i < num,
    ensures
        0 <= i * even_step(num) <= 255,
{
    let step = even_step(num);
    assert(num * step <= 255) by (nonlinear_arith)
        requires
            1 <= num,
            step == 255int / num as int,
    ;
    assert(i * step <= num * step) by (nonlinear_arith)
        requires
            0 <= i < num as int,
            step >= 0,
    ;
    assert(0 <= i * step) by (nonlinear_arith)
        requires
            0 <= i,
            step >= 0,
    ;
}

} // verus!
