//! Command-line number arguments of the chaos runner: decimal, or
//! hexadecimal after `0x`, each with an optional leading `+`, as Rust's
//! own unsigned integer parsing reads them.

use vstd::prelude::*;
use vstd::utf8::encode_utf8;

verus! {

/// Why a number did not parse.
#[derive(Debug, Clone, Copy, PartialEq, Eq, Structural)]
pub enum ParseProblem {
    Empty,
    InvalidDigit,
    TooLarge,
}

/// The value of one digit in `radix` (10 or 16; hexadecimal digits in
/// either case).
pub open spec fn digit_value(c: u8, radix: nat) -> Option<nat> {
    if 48 <= c <= 57 {
        Some((c - 48) as nat)
    } else if radix == 16 && 97 <= c <= 102 {
        Some((c - 87) as nat)
    } else if radix == 16 && 65 <= c <= 70 {
        Some((c - 55) as nat)
    } else {
        None
    }
}

/// Reading digits left to right onto `acc`: the first non-digit, or the
/// first digit that takes the value past `u64::MAX`, stops the reading.
pub open spec fn scan_digits(s: Seq<u8>, radix: nat, acc: nat) -> Result<u64, ParseProblem>
    decreases s.len(),
{
    if s.len() == 0 {
        Ok(acc as u64)
    } else {
        match digit_value(s[0], radix) {
            None => Err(ParseProblem::InvalidDigit),
            Some(d) => {
                let v = acc * radix + d;
                if v > u64::MAX {
                    Err(ParseProblem::TooLarge)
                } else {
                    scan_digits(s.skip(1), radix, v)
                }
            },
        }
    }
}

/// An unsigned number in `radix`: an optional `+`, then at least one
/// digit.
pub open spec fn spec_parse_radix(s: Seq<u8>, radix: nat) -> Result<u64, ParseProblem> {
    if s.len() == 0 {
        Err(ParseProblem::Empty)
    } else if s[0] == 43 {
        if s.len() == 1 {
            Err(ParseProblem::InvalidDigit)
        } else {
            scan_digits(s.skip(1), radix, 0)
        }
    } else {
        scan_digits(s, radix, 0)
    }
}

/// A command-line number: hexadecimal after a `0x` prefix, else decimal.
pub open spec fn spec_parse_number(s: Seq<u8>) -> Result<u64, ParseProblem> {
    if s.len() >= 2 && s[0] == 48 && s[1] == 120 {
        spec_parse_radix(s.skip(2), 16)
    } else {
        spec_parse_radix(s, 10)
    }
}

fn digit(c: u8, radix: u64) -> (r: Option<u64>)
    requires
        radix == 10 || radix == 16,
    ensures
        match digit_value(c, radix as nat) {
            Some(d) => r == Some(d as u64),
            None => r is None,
        },
{
    if 48 <= c && c <= 57 {
        Some((c - 48) as u64)
    } else if radix == 16 && 97 <= c && c <= 102 {
        Some((c - 87) as u64)
    } else if radix == 16 && 65 <= c && c <= 70 {
        Some((c - 55) as u64)
    } else {
        None
    }
}

fn parse_radix(s: &[u8], radix: u64) -> (r: Result<u64, ParseProblem>)
    requires
        radix == 10 || radix == 16,
    ensures
        r == spec_parse_radix(s@, radix as nat),
{
    if s.len() == 0 {
        return Err(ParseProblem::Empty);
    }
    let mut i: usize = 0;
    if s[0] == 43 {
        if s.len() == 1 {
            return Err(ParseProblem::InvalidDigit);
        }
        i = 1;
    }
    let ghost body = s@.skip(i as int);
    let mut acc: u64 = 0;
    assert(s@.skip(i as int) =~= body);
    assert(s@.skip(0) =~= s@);
    assert(spec_parse_radix(s@, radix as nat) == scan_digits(body, radix as nat, 0));
    while i < s.len()
        invariant
            i <= s@.len(),
            radix == 10 || radix == 16,
            scan_digits(body, radix as nat, 0) == scan_digits(s@.skip(i as int), radix as nat, acc as nat),
            spec_parse_radix(s@, radix as nat) == scan_digits(body, radix as nat, 0),
        decreases s@.len() - i,
    {
        let ghost rest = s@.skip(i as int);
        assert(rest[0] == s@[i as int]);
        assert(rest.skip(1) =~= s@.skip(i + 1));
        let d = match digit(s[i], radix) {
            None => {
                return Err(ParseProblem::InvalidDigit);
            },
            Some(d) => d,
        };
        let room = u64::MAX - d;
        let lim = room / radix;
        proof {
            vstd::arithmetic::div_mod::lemma_fundamental_div_mod(room as int, radix as int);
        }
        if acc > lim {
            proof {
                assert(acc * radix + d > u64::MAX) by (nonlinear_arith)
                    requires
                        room == radix * lim + room % radix,
                        0 <= room % radix < radix,
                        acc >= lim + 1,
                        room == u64::MAX - d,
                ;
            }
            return Err(ParseProblem::TooLarge);
        }
        proof {
            assert(acc * radix + d <= u64::MAX) by (nonlinear_arith)
                requires
                    room == radix * lim + room % radix,
                    0 <= room % radix,
                    acc <= lim,
                    radix > 0,
                    room == u64::MAX - d,
            ;
        }
        acc = acc * radix + d;
        i = i + 1;
    }
    assert(s@.skip(i as int) =~= Seq::<u8>::empty());
    Ok(acc)
}

/// The text of a parse problem, as Rust's own integer parsing words it.
pub fn problem_text(p: ParseProblem) -> (t: &'static str)
    ensures
        t@ == problem_words(p),
{
    match p {
        ParseProblem::Empty => "cannot parse integer from empty string",
        ParseProblem::InvalidDigit => "invalid digit found in string",
        ParseProblem::TooLarge => "number too large to fit in target type",
    }
}

pub open spec fn problem_words(p: ParseProblem) -> Seq<char> {
    match p {
        ParseProblem::Empty => "cannot parse integer from empty string"@,
        ParseProblem::InvalidDigit => "invalid digit found in string"@,
        ParseProblem::TooLarge => "number too large to fit in target type"@,
    }
}

/// `"{flag} needs a value"`.
#[verifier::external_body]
fn needs_value(flag: &str) -> (s: String)
    ensures
        s@ == flag@ + " needs a value"@,
{
    format!("{flag} needs a value")
}

/// `"{flag} {value}: {problem}"`.
#[verifier::external_body]
fn bad_value(flag: &str, value: &str, problem: &str) -> (s: String)
    ensures
        s@ == flag@ + " "@ + value@ + ": "@ + problem@,
{
    format!("{flag} {value}: {problem}")
}

/// Parses the value given for `flag`: a missing value, or one that is not
/// a number, gives the message to report.
pub fn parse_u64(flag: &str, value: Option<String>) -> (r: Result<u64, String>)
    ensures
        match value {
            None => r matches Err(m) && m@ == flag@ + " needs a value"@,
            Some(v) => match spec_parse_number(encode_utf8(v@)) {
                Ok(n) => r == Ok::<u64, String>(n),
                Err(p) => r matches Err(m) && m@ == flag@ + " "@ + v@ + ": "@ + problem_words(p),
            },
        },
{
    let value = match value {
        None => {
            return Err(needs_value(flag));
        },
        Some(v) => v,
    };
    let b = value.as_str().as_bytes();
    let parsed = if b.len() >= 2 && b[0] == 48 && b[1] == 120 {
        let hex = vstd::slice::slice_subrange(b, 2, b.len());
        assert(hex@ =~= b@.skip(2));
        parse_radix(hex, 16)
    } else {
        parse_radix(b, 10)
    };
    match parsed {
        Ok(n) => Ok(n),
        Err(p) => Err(bad_value(flag, value.as_str(), problem_text(p))),
    }
}

} // verus!
