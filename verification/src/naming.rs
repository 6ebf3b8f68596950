//! Output file naming: when no output name is supplied, the input file
//! stem is suffixed with the current Unix time in milliseconds.

use vstd::prelude::*;
use crate::CliError;

verus! {

/// The error the system clock reports when it sits before the Unix epoch.
#[verifier::external_type_specification]
#[verifier::external_body]
pub struct ExSystemTimeError(std::time::SystemTimeError);

/// Relies on `std::time::SystemTime::now` and
/// `SystemTime::duration_since(UNIX_EPOCH)`: yields the whole seconds and
/// the millisecond remainder of the time since the Unix epoch, or the
/// clock's error when it sits before the epoch. `Duration::subsec_millis`
/// is documented to stay below 1000. Nothing else can be promised of a
/// clock reading.
#[verifier::external_body]
fn now_unix_time() -> (r: Result<(u64, u32), std::time::SystemTimeError>)
    ensures
        r matches Ok(t) ==> t.1 < 1000,
{
    match std::time::SystemTime::now().duration_since(std::time::UNIX_EPOCH) {
        Ok(d) => Ok((d.as_secs(), d.subsec_millis())),
        Err(e) => Err(e),
    }
}

/// The decimal digit character for `d`.
pub open spec fn dec_char(d: int) -> char
    recommends
        0 <= d < 10,
{
    if d == 0 {
        '0'
    } else if d == 1 {
        '1'
    } else if d == 2 {
        '2'
    } else if d == 3 {
        '3'
    } else if d == 4 {
        '4'
    } else if d == 5 {
        '5'
    } else if d == 6 {
        '6'
    } else if d == 7 {
        '7'
    } else if d == 8 {
        '8'
    } else {
        '9'
    }
}

/// The decimal digits of `n`, most significant first, no leading zeros
/// (a single zero for 0).
pub open spec fn dec_digits(n: int) -> Seq<char>
    recommends
        0 <= n,
    decreases n,
{
    if n < 10 {
        seq![dec_char(n)]
    } else {
        dec_digits(n / 10) + seq![dec_char(n % 10)]
    }
}

/// The milliseconds zero-padded to at least three digits.
pub open spec fn pad3_digits(m: int) -> Seq<char>
    recommends
        0 <= m,
{
    if m < 10 {
        seq!['0', '0'] + dec_digits(m)
    } else if m < 100 {
        seq!['0'] + dec_digits(m)
    } else {
        dec_digits(m)
    }
}

/// The generated output name: the stem, a dash, the seconds and the
/// zero-padded milliseconds.
pub open spec fn timestamp_name(stem: Seq<char>, secs: u64, millis: u32) -> Seq<char> {
    stem + seq!['-'] + dec_digits(secs as int) + pad3_digits(millis as int)
}

/// Appends the decimal digit character for `d` to `s`.
fn push_dec_digit(s: &mut String, d: u64)
    requires
        d < 10,
    ensures
        final(s)@ == old(s)@ + seq![dec_char(d as int)],
{
    if d == 0 {
        proof {
            reveal_strlit("0");
        }
        s.append("0");
    } else if d == 1 {
        proof {
            reveal_strlit("1");
        }
        s.append("1");
    } else if d == 2 {
        proof {
            reveal_strlit("2");
        }
        s.append("2");
    } else if d == 3 {
        proof {
            reveal_strlit("3");
        }
        s.append("3");
    } else if d == 4 {
        proof {
            reveal_strlit("4");
        }
        s.append("4");
    } else if d == 5 {
        proof {
            reveal_strlit("5");
        }
        s.append("5");
    } else if d == 6 {
        proof {
            reveal_strlit("6");
        }
        s.append("6");
    } else if d == 7 {
        proof {
            reveal_strlit("7");
        }
        s.append("7");
    } else if d == 8 {
        proof {
            reveal_strlit("8");
        }
        s.append("8");
    } else {
        proof {
            reveal_strlit("9");
        }
        s.append("9");
    }
    proof {
        assert(final(s)@ =~= old(s)@ + seq![dec_char(d as int)]);
    }
}

/// Appends the decimal digits of `n` to `s`.
fn push_decimal(s: &mut String, n: u64)
    ensures
        final(s)@ == old(s)@ + dec_digits(n as int),
    decreases n,
{
    if n < 10 {
        push_dec_digit(s, n);
    } else {
        push_decimal(s, n / 10);
        push_dec_digit(s, n % 10);
        proof {
            assert(final(s)@ =~= old(s)@ + dec_digits(n as int));
        }
    }
}

/// Called when no output name is supplied: appends a timestamp to the
/// input file's stem. Fails only when the system clock reads before the
/// Unix epoch.
pub fn generate_filename(stem: &str) -> (r: Result<String, CliError>)
    ensures
        r matches Ok(name) ==> exists|secs: u64, millis: u32|
            millis < 1000 && name@ == timestamp_name(stem@, secs, millis),
        r matches Err(e) ==> e == CliError::Time,
{
    let (secs, millis) = match now_unix_time() {
        Ok(t) => t,
        Err(_) => {
            return Err(CliError::Time);
        },
    };
    let mut name = String::from_str(stem);
    proof {
        reveal_strlit("-");
    }
    name.append("-");
    push_decimal(&mut name, secs);
    if millis < 10 {
        proof {
            reveal_strlit("00");
        }
        name.append("00");
    } else if millis < 100 {
        proof {
            reveal_strlit("0");
        }
        name.append("0");
    }
    push_decimal(&mut name, millis as u64);
    proof {
        assert(name@ =~= timestamp_name(stem@, secs, millis));
    }
    Ok(name)
}

} // verus!
