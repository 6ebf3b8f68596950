use posterust::encode_color;
use posterust::parse_color;
use posterust::CliError;
use posterust::Rgb;

#[test]
fn parse_pure_red() {
    assert_eq!(parse_color("ff0000"), Ok(Rgb { red: 255, green: 0, blue: 0 }));
}

#[test]
fn parse_mixed_case() {
    assert_eq!(parse_color("FF00Fa"), Ok(Rgb { red: 255, green: 0, blue: 250 }));
}

#[test]
fn parse_ignores_trailing_characters() {
    assert_eq!(parse_color("01020304"), Ok(Rgb { red: 1, green: 2, blue: 3 }));
}

#[test]
fn parse_short_string_is_invalid_hex() {
    assert_eq!(parse_color(""), Err(CliError::InvalidHex));
    assert_eq!(parse_color("a"), Err(CliError::InvalidHex));
    assert_eq!(parse_color("abc"), Err(CliError::InvalidHex));
    assert_eq!(parse_color("abcde"), Err(CliError::InvalidHex));
}

#[test]
fn parse_bad_digit_is_parse_error() {
    assert_eq!(parse_color("gg0000"), Err(CliError::Parse));
    assert_eq!(parse_color("ffzz00"), Err(CliError::Parse));
}

#[test]
fn bad_digit_takes_precedence_over_short_tail() {
    // The first pair fails to parse before the short third pair is
    // reached.
    assert_eq!(parse_color("xy012"), Err(CliError::Parse));
}

#[test]
fn encode_lowercase_digits() {
    assert_eq!(encode_color(&Rgb { red: 255, green: 0, blue: 16 }), "ff0010");
}

#[test]
fn hex_round_trip() {
    for c in [
        Rgb { red: 0, green: 0, blue: 0 },
        Rgb { red: 255, green: 255, blue: 255 },
        Rgb { red: 1, green: 35, blue: 69 },
        Rgb { red: 171, green: 205, blue: 239 },
    ] {
        assert_eq!(parse_color(&encode_color(&c)), Ok(c));
    }
}
