use posterust::colormap::get_color_hashmap;
use posterust::colormap::get_color_hashmap_custom;
use posterust::colors::strip_hash_prefix;
use posterust::derive_mapping;
use posterust::generate_filename;
use posterust::get_custom_greyscale_hashmap;
use posterust::get_greyscale_hashmap;
use posterust::get_threshold_key;
use posterust::luma_threshold;
use posterust::mapping_covers;
use posterust::remap_luma;
use posterust::remap_lumas;
use posterust::CliError;
use posterust::Opt;
use posterust::Rgb;

fn base_opt() -> Opt {
    Opt {
        input: vec![String::from("in.png")],
        num_steps: 5,
        values: vec![],
        colors: vec![],
        extension: String::from("png"),
        keep: false,
        debug: false,
        output: None,
    }
}

#[test]
fn resolver_returns_a_boundary_for_every_luminance() {
    let boundaries = vec![0, 51, 102, 153, 204];
    for v in 0u8..=255 {
        let key = get_threshold_key(v, &boundaries);
        assert!(boundaries.contains(&key));
    }
}

#[test]
fn resolver_lagging_lookup() {
    let boundaries = vec![0, 127];
    assert_eq!(get_threshold_key(0, &boundaries), 0);
    assert_eq!(get_threshold_key(50, &boundaries), 0);
    assert_eq!(get_threshold_key(127, &boundaries), 0);
    assert_eq!(get_threshold_key(128, &boundaries), 127);
    assert_eq!(get_threshold_key(255, &boundaries), 127);
}

#[test]
fn resolver_with_repeated_boundaries() {
    let boundaries = vec![0, 0, 0, 115, 115];
    assert_eq!(get_threshold_key(5, &boundaries), 0);
    assert_eq!(get_threshold_key(115, &boundaries), 0);
    assert_eq!(get_threshold_key(116, &boundaries), 115);
}

#[test]
fn greyscale_map_overrides_top_with_white() {
    let m = get_greyscale_hashmap(&vec![0, 51, 102]);
    assert_eq!(m.len(), 3);
    assert_eq!(m.get(&0), Some(&Rgb { red: 0, green: 0, blue: 0 }));
    assert_eq!(m.get(&51), Some(&Rgb { red: 51, green: 51, blue: 51 }));
    // The maximal boundary maps to pure white whatever its value.
    assert_eq!(m.get(&102), Some(&Rgb { red: 255, green: 255, blue: 255 }));
}

#[test]
fn custom_greyscale_map_has_no_white_override() {
    let m = get_custom_greyscale_hashmap(&vec![0, 115]);
    assert_eq!(m.get(&115), Some(&Rgb { red: 115, green: 115, blue: 115 }));
}

#[test]
fn color_map_zips_colors_with_boundaries() {
    let colors = vec![String::from("#ff0000"), String::from("0000ff")];
    let m = get_color_hashmap(&colors, &vec![0, 127]).unwrap();
    assert_eq!(m.get(&0), Some(&Rgb { red: 255, green: 0, blue: 0 }));
    assert_eq!(m.get(&127), Some(&Rgb { red: 0, green: 0, blue: 255 }));
}

#[test]
fn color_map_reports_first_bad_color() {
    let colors = vec![String::from("zz0000"), String::from("abc")];
    assert_eq!(get_color_hashmap(&colors, &vec![0, 127]), Err(CliError::Parse));
    let colors = vec![String::from("abc"), String::from("zz0000")];
    assert_eq!(get_color_hashmap(&colors, &vec![0, 127]), Err(CliError::InvalidHex));
}

#[test]
fn custom_color_map_shares_color_within_run() {
    let colors = vec![String::from("ff0000"), String::from("0000ff")];
    let boundaries = vec![0, 0, 0, 115, 115];
    let m = get_color_hashmap_custom(&colors, &boundaries).unwrap();
    assert_eq!(m.len(), 2);
    assert_eq!(m.get(&0), Some(&Rgb { red: 255, green: 0, blue: 0 }));
    assert_eq!(m.get(&115), Some(&Rgb { red: 0, green: 0, blue: 255 }));
}

#[test]
fn strip_hash_removes_leading_hashes() {
    assert_eq!(strip_hash_prefix("#ff0000"), "ff0000");
    assert_eq!(strip_hash_prefix("##ff0000"), "ff0000");
    assert_eq!(strip_hash_prefix("ff0000"), "ff0000");
    assert_eq!(strip_hash_prefix(""), "");
}

#[test]
fn end_to_end_even_split_greyscale() {
    // num_steps = 2, no colors: boundaries [0, 127]; luminance 50 falls in
    // bucket 0 and shades black, luminance 200 falls past every boundary,
    // resolves to 127 and renders white through the topmost override.
    let mut opt = base_opt();
    opt.num_steps = 2;
    let (boundaries, map) = derive_mapping(&opt).unwrap();
    assert_eq!(boundaries, vec![0, 127]);
    assert!(mapping_covers(&map, &boundaries));
    assert_eq!(remap_luma(50, &boundaries, &map), Rgb { red: 0, green: 0, blue: 0 });
    assert_eq!(remap_luma(200, &boundaries, &map), Rgb { red: 255, green: 255, blue: 255 });
}

#[test]
fn end_to_end_custom_colors() {
    let mut opt = base_opt();
    opt.values = vec![0, 5];
    opt.colors = vec![String::from("#FF0000"), String::from("#0000FF")];
    let (boundaries, map) = derive_mapping(&opt).unwrap();
    assert_eq!(boundaries, vec![0, 0, 0, 0, 0, 115, 115, 115, 115, 115, 115]);
    assert!(mapping_covers(&map, &boundaries));
    // Low luminance tints red, high luminance tints blue.
    assert_eq!(remap_luma(3, &boundaries, &map), Rgb { red: 255, green: 0, blue: 0 });
    assert_eq!(remap_luma(200, &boundaries, &map), Rgb { red: 0, green: 0, blue: 255 });
}

#[test]
fn end_to_end_mismatched_counts_abort() {
    let mut opt = base_opt();
    opt.values = vec![0, 5, 9];
    opt.colors = vec![String::from("#FF0000"), String::from("#0000FF")];
    assert_eq!(derive_mapping(&opt), Err(CliError::Mismatch));
}

#[test]
fn end_to_end_keep_mode() {
    let mut opt = base_opt();
    opt.values = vec![0, 5];
    opt.keep = true;
    let (boundaries, map) = derive_mapping(&opt).unwrap();
    assert_eq!(boundaries, vec![0, 0, 0, 0, 0, 127, 127, 127, 127, 127, 127]);
    assert_eq!(map.get(&127), Some(&Rgb { red: 127, green: 127, blue: 127 }));
}

#[test]
fn end_to_end_colors_without_values() {
    let mut opt = base_opt();
    opt.colors = vec![String::from("112233"), String::from("445566")];
    let (boundaries, map) = derive_mapping(&opt).unwrap();
    assert_eq!(boundaries, luma_threshold(2));
    assert_eq!(map.get(&0), Some(&Rgb { red: 0x11, green: 0x22, blue: 0x33 }));
    assert_eq!(map.get(&127), Some(&Rgb { red: 0x44, green: 0x55, blue: 0x66 }));
}

#[test]
fn end_to_end_bad_color_aborts() {
    let mut opt = base_opt();
    opt.values = vec![0, 5];
    opt.colors = vec![String::from("#FF0000"), String::from("bad")];
    assert_eq!(derive_mapping(&opt), Err(CliError::InvalidHex));
}

#[test]
fn remap_processes_pixels_independently() {
    let mut opt = base_opt();
    opt.num_steps = 2;
    let (boundaries, map) = derive_mapping(&opt).unwrap();
    let lumas = vec![0, 50, 127, 128, 255];
    let out = remap_lumas(&lumas, &boundaries, &map);
    let black = Rgb { red: 0, green: 0, blue: 0 };
    let white = Rgb { red: 255, green: 255, blue: 255 };
    assert_eq!(out, vec![black, black, black, white, white]);
}

#[test]
fn generated_filename_appends_timestamp() {
    let name = generate_filename("photo").unwrap();
    let rest = name.strip_prefix("photo-").unwrap();
    assert!(rest.len() >= 4);
    assert!(rest.chars().all(|c| c.is_ascii_digit()));
}
