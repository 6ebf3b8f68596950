use posterust::distinct_level_count;
use posterust::luma_threshold;
use posterust::luma_threshold_custom;
use posterust::luma_threshold_keep;

#[test]
fn even_split_five_steps() {
    assert_eq!(luma_threshold(5), vec![0, 51, 102, 153, 204]);
}

#[test]
fn even_split_two_steps() {
    assert_eq!(luma_threshold(2), vec![0, 127]);
}

#[test]
fn even_split_single_step() {
    assert_eq!(luma_threshold(1), vec![0]);
}

#[test]
fn even_split_ascending_multiples() {
    for n in 1u8..=11 {
        let v = luma_threshold(n);
        let step = 255 / n;
        assert_eq!(v.len(), n as usize);
        assert_eq!(v[0], 0);
        for i in 0..v.len() {
            assert_eq!(v[i], i as u8 * step);
            if i > 0 {
                assert!(v[i - 1] < v[i]);
            }
        }
    }
}

#[test]
fn custom_two_levels() {
    let v = luma_threshold_custom(&vec![0, 5]);
    assert_eq!(v, vec![0, 0, 0, 0, 0, 115, 115, 115, 115, 115, 115]);
}

#[test]
fn custom_three_levels() {
    let v = luma_threshold_custom(&vec![1, 5, 9]);
    assert_eq!(v.len(), 11);
    // Slots up to level 5 carry level 1, up to level 9 carry level 5, and
    // the rest carry level 9, each scaled by the granularity constant 23.
    assert_eq!(v, vec![23, 23, 23, 23, 23, 115, 115, 115, 115, 207, 207]);
}

#[test]
fn custom_unsorted_input_is_sorted() {
    assert_eq!(luma_threshold_custom(&vec![5, 0]), luma_threshold_custom(&vec![0, 5]));
}

#[test]
fn custom_duplicates_are_dropped() {
    assert_eq!(luma_threshold_custom(&vec![0, 5, 5, 0]), luma_threshold_custom(&vec![0, 5]));
}

#[test]
fn clamping_matches_max_level() {
    // A level above 10 clamps to 10, so the boundary structure matches.
    assert_eq!(luma_threshold_custom(&vec![0, 15]), luma_threshold_custom(&vec![0, 10]));
}

#[test]
fn clamped_distinct_levels_are_counted_once() {
    assert_eq!(distinct_level_count(&vec![0, 15, 10]), 2);
    assert_eq!(distinct_level_count(&vec![12, 15]), 1);
    assert_eq!(distinct_level_count(&vec![]), 0);
}

#[test]
fn keep_respaces_custom_boundaries() {
    let custom = luma_threshold_custom(&vec![0, 5]);
    let kept = luma_threshold_keep(&custom, 2);
    assert_eq!(kept, vec![0, 0, 0, 0, 0, 127, 127, 127, 127, 127, 127]);
}

#[test]
fn keep_mode_distinct_value_count() {
    // The number of distinct values in the keep-mode output equals the
    // number of distinct levels in the custom input.
    for values in [vec![0, 5], vec![0, 3, 9], vec![1, 2, 3, 10], vec![0, 15]] {
        let distinct = distinct_level_count(&values);
        let custom = luma_threshold_custom(&values);
        let kept = luma_threshold_keep(&custom, values.len() as u8);
        let mut seen: Vec<u8> = Vec::new();
        for v in kept {
            if !seen.contains(&v) {
                seen.push(v);
            }
        }
        assert_eq!(seen.len(), distinct);
    }
}
