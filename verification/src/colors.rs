//! Colors: the RGB triple written into the output image, and the 6-digit
//! hex color format (`RRGGBB`, case-insensitive, optional leading `#`).

use vstd::prelude::*;
use crate::CliError;

verus! {

/// An RGB triple, 8 bits per channel.
#[derive(Clone, Copy, Debug, PartialEq, Eq, Structural)]
pub struct Rgb {
    pub red: u8,
    pub green: u8,
    pub blue: u8,
}

/// The grey shade of brightness `v`.
pub open spec fn grey(v: u8) -> Rgb {
    Rgb { red: v, green: v, blue: v }
}

/// Pure white.
pub open spec fn white() -> Rgb {
    Rgb { red: 255, green: 255, blue: 255 }
}

/// Whether `c` is a hexadecimal digit.
pub open spec fn is_hex_digit(c: char) -> bool {
    (48 <= c as u32 && c as u32 <= 57) || (97 <= c as u32 && c as u32 <= 102) || (65 <= c as u32
        && c as u32 <= 70)
}

/// The value of the hexadecimal digit `c`.
pub open spec fn hex_digit_value(c: char) -> int
    recommends
        is_hex_digit(c),
{
    if 48 <= c as u32 && c as u32 <= 57 {
        c as u32 - 48
    } else if 97 <= c as u32 && c as u32 <= 102 {
        c as u32 - 87
    } else {
        c as u32 - 55
    }
}

/// Whether the `k`-th 2-digit slice of `s` holds two hexadecimal digits.
pub open spec fn pair_ok(s: Seq<char>, k: int) -> bool
    recommends
        0 <= k,
        2 * k + 2 <= s.len(),
{
    is_hex_digit(s[2 * k]) && is_hex_digit(s[2 * k + 1])
}

/// The byte value of the `k`-th 2-digit slice of `s`.
pub open spec fn pair_val(s: Seq<char>, k: int) -> int
    recommends
        0 <= k,
        2 * k + 2 <= s.len(),
        pair_ok(s, k),
{
    16 * hex_digit_value(s[2 * k]) + hex_digit_value(s[2 * k + 1])
}

/// What parsing a hex color string yields: the three byte pairs read in
/// red, green, blue order; a string too short for the next 2-digit slice
/// is an invalid-hex error, a non-digit in a slice a parse error.
pub open spec fn parse_color_spec(s: Seq<char>) -> Result<Rgb, CliError> {
    if s.len() < 2 {
        Err(CliError::InvalidHex)
    } else if !pair_ok(s, 0) {
        Err(CliError::Parse)
    } else if s.len() < 4 {
        Err(CliError::InvalidHex)
    } else if !pair_ok(s, 1) {
        Err(CliError::Parse)
    } else if s.len() < 6 {
        Err(CliError::InvalidHex)
    } else if !pair_ok(s, 2) {
        Err(CliError::Parse)
    } else {
        Ok(
            Rgb {
                red: pair_val(s, 0) as u8,
                green: pair_val(s, 1) as u8,
                blue: pair_val(s, 2) as u8,
            },
        )
    }
}

/// The value of `c` as a hexadecimal digit, if it is one.
fn hex_digit(c: char) -> (r: Option<u8>)
    ensures
        r == if is_hex_digit(c) {
            Some(hex_digit_value(c) as u8)
        } else {
            None::<u8>
        },
        r matches Some(v) ==> v < 16,
{
    let x = c as u32;
    if 48 <= x && x <= 57 {
        Some((x - 48) as u8)
    } else if 97 <= x && x <= 102 {
        Some((x - 87) as u8)
    } else if 65 <= x && x <= 70 {
        Some((x - 55) as u8)
    } else {
        None
    }
}

/// Parses a 6-digit hex color (without the leading `#`) into its RGB
/// triple.
pub fn parse_color(c: &str) -> (r: Result<Rgb, CliError>)
    ensures
        r == parse_color_spec(c@),
{
    let n = c.unicode_len();
    if n < 2 {
        return Err(CliError::InvalidHex);
    }
    let red = match (hex_digit(c.get_char(0)), hex_digit(c.get_char(1))) {
        (Some(hi), Some(lo)) => 16 * hi + lo,
        _ => {
            return Err(CliError::Parse);
        },
    };
    if n < 4 {
        return Err(CliError::InvalidHex);
    }
    let green = match (hex_digit(c.get_char(2)), hex_digit(c.get_char(3))) {
        (Some(hi), Some(lo)) => 16 * hi + lo,
        _ => {
            return Err(CliError::Parse);
        },
    };
    if n < 6 {
        return Err(CliError::InvalidHex);
    }
    let blue = match (hex_digit(c.get_char(4)), hex_digit(c.get_char(5))) {
        (Some(hi), Some(lo)) => 16 * hi + lo,
        _ => {
            return Err(CliError::Parse);
        },
    };
    Ok(Rgb { red, green, blue })
}

/// The lowercase hexadecimal digit for `v`.
pub open spec fn hex_char(v: int) -> char
    recommends
        0 <= v < 16,
{
    if v == 0 {
        '0'
    } else if v == 1 {
        '1'
    } else if v == 2 {
        '2'
    } else if v == 3 {
        '3'
    } else if v == 4 {
        '4'
    } else if v == 5 {
        '5'
    } else if v == 6 {
        '6'
    } else if v == 7 {
        '7'
    } else if v == 8 {
        '8'
    } else if v == 9 {
        '9'
    } else if v == 10 {
        'a'
    } else if v == 11 {
        'b'
    } else if v == 12 {
        'c'
    } else if v == 13 {
        'd'
    } else if v == 14 {
        'e'
    } else {
        'f'
    }
}

/// The 6 lowercase hex digits encoding `c`, red, green, blue order.
pub open spec fn encode_color_spec(c: Rgb) -> Seq<char> {
    seq![
        hex_char(c.red as int / 16),
        hex_char(c.red as int % 16),
        hex_char(c.green as int / 16),
        hex_char(c.green as int % 16),
        hex_char(c.blue as int / 16),
        hex_char(c.blue as int % 16),
    ]
}

/// Appends the hexadecimal digit for `v` to `s`.
fn push_hex_digit(s: &mut String, v: u8)
    requires
        v < 16,
    ensures
        final(s)@ == old(s)@ + seq![hex_char(v as int)],
{
    if v == 0 {
        proof {
            reveal_strlit("0");
        }
        s.append("0");
    } else if v == 1 {
        proof {
            reveal_strlit("1");
        }
        s.append("1");
    } else if v == 2 {
        proof {
            reveal_strlit("2");
        }
        s.append("2");
    } else if v == 3 {
        proof {
            reveal_strlit("3");
        }
        s.append("3");
    } else if v == 4 {
        proof {
            reveal_strlit("4");
        }
        s.append("4");
    } else if v == 5 {
        proof {
            reveal_strlit("5");
        }
        s.append("5");
    } else if v == 6 {
        proof {
            reveal_strlit("6");
        }
        s.append("6");
    } else if v == 7 {
        proof {
            reveal_strlit("7");
        }
        s.append("7");
    } else if v == 8 {
        proof {
            reveal_strlit("8");
        }
        s.append("8");
    } else if v == 9 {
        proof {
            reveal_strlit("9");
        }
        s.append("9");
    } else if v == 10 {
        proof {
            reveal_strlit("a");
        }
        s.append("a");
    } else if v == 11 {
        proof {
            reveal_strlit("b");
        }
        s.append("b");
    } else if v == 12 {
        proof {
            reveal_strlit("c");
        }
        s.append("c");
    } else if v == 13 {
        proof {
            reveal_strlit("d");
        }
        s.append("d");
    } else if v == 14 {
        proof {
            reveal_strlit("e");
        }
        s.append("e");
    } else {
        proof {
            reveal_strlit("f");
        }
        s.append("f");
    }
    proof {
        assert(final(s)@ =~= old(s)@ + seq![hex_char(v as int)]);
    }
}

/// Encodes an RGB triple as its 6 lowercase hex digits, without a leading
/// `#`.
pub fn encode_color(color: &Rgb) -> (s: String)
    ensures
        s@ == encode_color_spec(*color),
{
    let mut s = String::new();
    push_hex_digit(&mut s, color.red / 16);
    push_hex_digit(&mut s, color.red % 16);
    push_hex_digit(&mut s, color.green / 16);
    push_hex_digit(&mut s, color.green % 16);
    push_hex_digit(&mut s, color.blue / 16);
    push_hex_digit(&mut s, color.blue % 16);
    proof {
        assert(s@ =~= encode_color_spec(*color));
    }
    s
}

/// Hex round-trip: parsing the encoding of any RGB triple yields that
/// triple back.
pub proof fn lemma_hex_round_trip(color: Rgb)
    ensures
        parse_color_spec(encode_color_spec(color)) == Ok::<Rgb, CliError>(color),
{
    let s = encode_color_spec(color);
    assert forall|v: int| 0 <= v < 16 implies is_hex_digit(hex_char(v)) && hex_digit_value(
        hex_char(v),
    ) == v by {}
    assert(s.len() == 6);
    assert(pair_val(s, 0) == color.red as int);
    assert(pair_val(s, 1) == color.green as int);
    assert(pair_val(s, 2) == color.blue as int);
}

/// The string with every leading `#` removed.
pub open spec fn strip_hash(s: Seq<char>) -> Seq<char>
    decreases s.len(),
{
    if s.len() > 0 && s[0] == '#' {
        strip_hash(s.drop_first())
    } else {
        s
    }
}

/// Removes every leading `#` from `s`.
pub fn strip_hash_prefix(s: &str) -> (r: &str)
    ensures
        r@ == strip_hash(s@),
{
    let n = s.unicode_len();
    let mut i: usize = 0;
    proof {
        assert(s@.skip(0) =~= s@);
    }
    while i < n && s.get_char(i) == '#'
        invariant
            n == s@.len(),
            i <= n,
            strip_hash(s@) == strip_hash(s@.skip(i as int)),
        decreases n - i,
    {
        proof {
            assert(s@.skip(i as int)[0] == s@[i as int]);
            assert(s@.skip(i as int).drop_first() =~= s@.skip(i as int + 1));
        }
        i = i + 1;
    }
    proof {
        if i < n {
            assert(s@.skip(i as int)[0] == s@[i as int]);
            assert(strip_hash(s@.skip(i as int)) == s@.skip(i as int));
        } else {
            assert(s@.skip(i as int) =~= Seq::<char>::empty());
        }
        assert(s@.subrange(i as int, n as int) =~= s@.skip(i as int));
    }
    s.substring_char(i, n)
}

} // verus!
