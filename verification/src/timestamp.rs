//! WebVTT timestamps: `HH:MM:SS.mmm` / `MM:SS.mmm` text and whole milliseconds.
use crate::text::{
    after_char, all_digits, before_char, find_char, find_char_in, is_ascii_digit,
    lemma_find_char_after_digits, lemma_find_char_none, lemma_padded_decimal_props,
    lemma_parse_digits, padded_decimal, parse_unsigned, parse_unsigned_in, push_padded_decimal,
    str_chars, string_from_chars,
};
use vstd::arithmetic::div_mod::{lemma_fundamental_div_mod, lemma_mod_mod};
use vstd::prelude::*;

verus! {

/// Represents a timestamp in WebVTT timestamp syntax.
#[derive(Debug, Clone, Copy, PartialEq, Eq, PartialOrd, Ord, Hash, Structural)]
pub struct VttTimestamp {
    pub total_millis: u64,
}

/// Parse failures for a WebVTT timestamp.
#[derive(Debug, Clone, Copy, PartialEq, Eq, Structural)]
pub enum VttTimestampParseError {
    InvalidFormat,
    InvalidHours,
    InvalidMinutes,
    InvalidSeconds,
    InvalidMilliseconds,
}

/// `str::parse::<u64>`.
pub open spec fn parse_u64(s: Seq<char>) -> Option<nat> {
    parse_unsigned(s, u64::MAX as nat)
}

/// The millisecond digits that are read: one or two digits are padded with
/// trailing zeros, longer text is cut to its first three characters.
pub open spec fn millis_digits(m: Seq<char>) -> Seq<char> {
    if m.len() == 1 {
        m + seq!['0', '0']
    } else if m.len() == 2 {
        m.push('0')
    } else {
        m.subrange(0, 3)
    }
}

/// Seconds and milliseconds of `SS` or `SS.mmm`.
pub open spec fn spec_parse_seconds_ms(s: Seq<char>) -> Result<(nat, nat), VttTimestampParseError> {
    match find_char(s, '.') {
        Some(d) => match parse_u64(s.subrange(0, d)) {
            None => Err(VttTimestampParseError::InvalidSeconds),
            Some(seconds) => {
                let m = s.subrange(d + 1, s.len() as int);
                if m.len() == 0 {
                    Err(VttTimestampParseError::InvalidMilliseconds)
                } else {
                    match parse_u64(millis_digits(m)) {
                        None => Err(VttTimestampParseError::InvalidMilliseconds),
                        Some(millis) => Ok((seconds, millis)),
                    }
                }
            },
        },
        None => match parse_u64(s) {
            None => Err(VttTimestampParseError::InvalidSeconds),
            Some(seconds) => Ok((seconds, 0)),
        },
    }
}

/// Reduction modulo 2^64, as unchecked `u64` arithmetic computes.
pub open spec fn wrap_u64(n: nat) -> u64 {
    (n % 0x1_0000_0000_0000_0000) as u64
}

/// The total milliseconds of a timestamp text: the text is split at `:`;
/// with three or more parts they are hours, minutes and seconds (later parts
/// are ignored), with two parts minutes and seconds.
#[verifier::opaque]
pub open spec fn spec_parse_timestamp(s: Seq<char>) -> Result<u64, VttTimestampParseError> {
    let first = before_char(s, ':');
    match after_char(s, ':') {
        None => Err(VttTimestampParseError::InvalidFormat),
        Some(rest) => {
            let second = before_char(rest, ':');
            match after_char(rest, ':') {
                Some(rest2) => {
                    let third = before_char(rest2, ':');
                    match parse_u64(first) {
                        None => Err(VttTimestampParseError::InvalidHours),
                        Some(hours) => match parse_u64(second) {
                            None => Err(VttTimestampParseError::InvalidMinutes),
                            Some(minutes) => match spec_parse_seconds_ms(third) {
                                Err(e) => Err(e),
                                Ok((seconds, millis)) => Ok(
                                    wrap_u64(
                                        hours * 3_600_000 + minutes * 60_000 + seconds * 1_000
                                            + millis,
                                    ),
                                ),
                            },
                        },
                    }
                },
                None => match parse_u64(first) {
                    None => Err(VttTimestampParseError::InvalidMinutes),
                    Some(minutes) => match spec_parse_seconds_ms(second) {
                        Err(e) => Err(e),
                        Ok((seconds, millis)) => Ok(
                            wrap_u64(minutes * 60_000 + seconds * 1_000 + millis),
                        ),
                    },
                },
            }
        },
    }
}

/// `HH:MM:SS.mmm`, each field zero-padded; hours may take more digits.
pub open spec fn timestamp_text(total_millis: u64) -> Seq<char> {
    let t = total_millis as nat;
    padded_decimal(t / 3_600_000, 2) + seq![':'] + padded_decimal((t % 3_600_000) / 60_000, 2)
        + seq![':'] + padded_decimal((t % 60_000) / 1_000, 2) + seq!['.'] + padded_decimal(
        t % 1_000,
        3,
    )
}

pub open spec fn parse_error_text(e: VttTimestampParseError) -> Seq<char> {
    match e {
        VttTimestampParseError::InvalidFormat => "invalid timestamp format"@,
        VttTimestampParseError::InvalidHours => "invalid hours"@,
        VttTimestampParseError::InvalidMinutes => "invalid minutes"@,
        VttTimestampParseError::InvalidSeconds => "invalid seconds"@,
        VttTimestampParseError::InvalidMilliseconds => "invalid milliseconds"@,
    }
}

impl VttTimestampParseError {
    /// The human-readable message of this error.
    pub fn to_string(&self) -> (res: String)
        ensures
            res@ == parse_error_text(*self),
    {
        match self {
            VttTimestampParseError::InvalidFormat => String::from_str("invalid timestamp format"),
            VttTimestampParseError::InvalidHours => String::from_str("invalid hours"),
            VttTimestampParseError::InvalidMinutes => String::from_str("invalid minutes"),
            VttTimestampParseError::InvalidSeconds => String::from_str("invalid seconds"),
            VttTimestampParseError::InvalidMilliseconds => String::from_str(
                "invalid milliseconds",
            ),
        }
    }
}

/// Seconds and milliseconds of `s[from..to]`.
pub fn parse_seconds_ms_in(s: &[char], from: usize, to: usize) -> (res: Result<
    (u64, u64),
    VttTimestampParseError,
>)
    requires
        from <= to <= s@.len(),
    ensures
        match res {
            Ok((seconds, millis)) => spec_parse_seconds_ms(s@.subrange(from as int, to as int))
                == Ok::<(nat, nat), VttTimestampParseError>((seconds as nat, millis as nat)),
            Err(e) => spec_parse_seconds_ms(s@.subrange(from as int, to as int)) == Err::<
                (nat, nat),
                VttTimestampParseError,
            >(e),
        },
{
    let ghost sub = s@.subrange(from as int, to as int);
    match find_char_in(s, from, to, '.') {
        Some(dot) => {
            assert(sub.subrange(0, dot - from) =~= s@.subrange(from as int, dot as int));
            let seconds = match parse_unsigned_in(s, from, dot, u64::MAX) {
                Some(v) => v,
                None => return Err(VttTimestampParseError::InvalidSeconds),
            };
            let ghost m = sub.subrange(dot - from + 1, sub.len() as int);
            assert(m =~= s@.subrange(dot + 1, to as int));
            let len = to - dot - 1;
            if len == 0 {
                return Err(VttTimestampParseError::InvalidMilliseconds);
            }
            let mut digits: Vec<char> = Vec::new();
            if len == 1 {
                digits.push(s[dot + 1]);
                digits.push('0');
                digits.push('0');
            } else if len == 2 {
                digits.push(s[dot + 1]);
                digits.push(s[dot + 2]);
                digits.push('0');
            } else {
                digits.push(s[dot + 1]);
                digits.push(s[dot + 2]);
                digits.push(s[dot + 3]);
            }
            assert(digits@ =~= millis_digits(m));
            assert(digits@.subrange(0, 3) =~= digits@);
            match parse_unsigned_in(digits.as_slice(), 0, 3, u64::MAX) {
                Some(millis) => Ok((seconds, millis)),
                None => Err(VttTimestampParseError::InvalidMilliseconds),
            }
        },
        None => {
            match parse_unsigned_in(s, from, to, u64::MAX) {
                Some(seconds) => Ok((seconds, 0)),
                None => Err(VttTimestampParseError::InvalidSeconds),
            }
        },
    }
}

/// The total milliseconds of `h * 3_600_000 + m * 60_000 + s * 1_000 + ms`, reduced modulo 2^64.
fn combine_millis(hours: u64, minutes: u64, seconds: u64, millis: u64) -> (res: u64)
    ensures
        res == wrap_u64(
            hours as nat * 3_600_000 + minutes as nat * 60_000 + seconds as nat * 1_000
                + millis as nat,
        ),
{
    let total: u128 = hours as u128 * 3_600_000 + minutes as u128 * 60_000 + seconds as u128
        * 1_000 + millis as u128;
    (total % 0x1_0000_0000_0000_0000u128) as u64
}

/// The total milliseconds of the timestamp text `s[from..to]`.
pub fn parse_timestamp_in(s: &[char], from: usize, to: usize) -> (res: Result<
    u64,
    VttTimestampParseError,
>)
    requires
        from <= to <= s@.len(),
    ensures
        res == spec_parse_timestamp(s@.subrange(from as int, to as int)),
{
    reveal(spec_parse_timestamp);
    let ghost sub = s@.subrange(from as int, to as int);
    let c1 = match find_char_in(s, from, to, ':') {
        Some(c) => c,
        None => return Err(VttTimestampParseError::InvalidFormat),
    };
    let ghost first = s@.subrange(from as int, c1 as int);
    let ghost rest = s@.subrange(c1 + 1, to as int);
    assert(sub.subrange(0, c1 - from) =~= first);
    assert(sub.subrange(c1 - from + 1, sub.len() as int) =~= rest);
    match find_char_in(s, c1 + 1, to, ':') {
        Some(c2) => {
            assert(rest.subrange(0, c2 - (c1 + 1)) =~= s@.subrange(c1 + 1, c2 as int));
            assert(rest.subrange(c2 - (c1 + 1) + 1, rest.len() as int) =~= s@.subrange(
                c2 + 1,
                to as int,
            ));
            let third_end = match find_char_in(s, c2 + 1, to, ':') {
                Some(c3) => {
                    assert(s@.subrange(c2 + 1, to as int).subrange(0, c3 - (c2 + 1))
                        =~= s@.subrange(c2 + 1, c3 as int));
                    c3
                },
                None => {
                    assert(s@.subrange(c2 + 1, to as int) =~= s@.subrange(c2 + 1, to as int));
                    to
                },
            };
            let hours = match parse_unsigned_in(s, from, c1, u64::MAX) {
                Some(v) => v,
                None => return Err(VttTimestampParseError::InvalidHours),
            };
            let minutes = match parse_unsigned_in(s, c1 + 1, c2, u64::MAX) {
                Some(v) => v,
                None => return Err(VttTimestampParseError::InvalidMinutes),
            };
            match parse_seconds_ms_in(s, c2 + 1, third_end) {
                Ok((seconds, millis)) => Ok(combine_millis(hours, minutes, seconds, millis)),
                Err(e) => Err(e),
            }
        },
        None => {
            let minutes = match parse_unsigned_in(s, from, c1, u64::MAX) {
                Some(v) => v,
                None => return Err(VttTimestampParseError::InvalidMinutes),
            };
            match parse_seconds_ms_in(s, c1 + 1, to) {
                Ok((seconds, millis)) => Ok(combine_millis(0, minutes, seconds, millis)),
                Err(e) => Err(e),
            }
        },
    }
}

impl VttTimestamp {
    /// Create a timestamp from total milliseconds.
    pub fn from_total_millis(total_millis: u64) -> (res: Self)
        ensures
            res.total_millis == total_millis,
    {
        Self { total_millis }
    }

    /// Return the timestamp as total milliseconds.
    pub fn total_millis(self) -> (res: u64)
        ensures
            res == self.total_millis,
    {
        self.total_millis
    }

    /// Parse WebVTT timestamp text such as `01:23:45.678` or `23:45.67`.
    pub fn parse(value: &str) -> (res: Result<Self, VttTimestampParseError>)
        ensures
            match res {
                Ok(t) => spec_parse_timestamp(value@) == Ok::<u64, VttTimestampParseError>(
                    t.total_millis,
                ),
                Err(e) => spec_parse_timestamp(value@) == Err::<u64, VttTimestampParseError>(e),
            },
    {
        let chars = str_chars(value);
        assert(chars@.subrange(0, chars@.len() as int) =~= chars@);
        match parse_timestamp_in(chars.as_slice(), 0, chars.len()) {
            Ok(ms) => Ok(Self::from_total_millis(ms)),
            Err(e) => Err(e),
        }
    }

    /// The characters of this timestamp as `HH:MM:SS.mmm`.
    pub fn to_chars(&self) -> (res: Vec<char>)
        ensures
            res@ == timestamp_text(self.total_millis),
    {
        let mut out: Vec<char> = Vec::new();
        self.push_chars(&mut out);
        assert(out@ =~= timestamp_text(self.total_millis));
        out
    }

    /// Appends the characters of this timestamp as `HH:MM:SS.mmm`.
    pub fn push_chars(&self, out: &mut Vec<char>)
        ensures
            final(out)@ == old(out)@ + timestamp_text(self.total_millis),
    {
        let t = self.total_millis;
        push_padded_decimal(t / 3_600_000, 2, out);
        out.push(':');
        push_padded_decimal((t % 3_600_000) / 60_000, 2, out);
        out.push(':');
        push_padded_decimal((t % 60_000) / 1_000, 2, out);
        out.push('.');
        push_padded_decimal(t % 1_000, 3, out);
        assert(out@ =~= old(out)@ + timestamp_text(self.total_millis));
    }

    /// This timestamp as `HH:MM:SS.mmm`.
    pub fn to_string(&self) -> (res: String)
        ensures
            res@ == timestamp_text(self.total_millis),
    {
        let chars = self.to_chars();
        string_from_chars(chars.as_slice())
    }
}

impl core::str::FromStr for VttTimestamp {
    type Err = VttTimestampParseError;

    fn from_str(value: &str) -> (res: Result<Self, Self::Err>)
        ensures
            match res {
                Ok(t) => spec_parse_timestamp(value@) == Ok::<u64, VttTimestampParseError>(
                    t.total_millis,
                ),
                Err(e) => spec_parse_timestamp(value@) == Err::<u64, VttTimestampParseError>(e),
            },
    {
        VttTimestamp::parse(value)
    }
}


/// Formatting a timestamp and parsing the text back gives the same
/// number of milliseconds, for every timestamp.
pub proof fn lemma_timestamp_text_roundtrip(total_millis: u64)
    ensures
        spec_parse_timestamp(timestamp_text(total_millis)) == Ok::<u64, VttTimestampParseError>(
            total_millis,
        ),
{
    reveal(spec_parse_timestamp);
    let t = total_millis as nat;
    let h = t / 3_600_000;
    let m = (t % 3_600_000) / 60_000;
    let sec = (t % 60_000) / 1_000;
    let ms = t % 1_000;
    let hs = padded_decimal(h, 2);
    let msx = padded_decimal(m, 2);
    let ss = padded_decimal(sec, 2);
    let mss = padded_decimal(ms, 3);
    lemma_padded_decimal_props(h, 2);
    lemma_padded_decimal_props(m, 2);
    lemma_padded_decimal_props(sec, 2);
    lemma_padded_decimal_props(ms, 3);
    let third = ss + seq!['.'] + mss;
    let rest = msx + seq![':'] + third;
    let text = hs + seq![':'] + rest;
    assert(text =~= timestamp_text(total_millis));
    lemma_find_char_after_digits(hs, ':', rest);
    lemma_find_char_after_digits(msx, ':', third);
    assert(all_digits(third.subrange(0, 0))) by {}
    assert forall|j: int| 0 <= j < third.len() implies third[j] != ':' by {
        if j < ss.len() {
            assert(is_ascii_digit(ss[j]));
        } else if j > ss.len() {
            assert(third[j] == mss[j - ss.len() - 1]);
            assert(is_ascii_digit(mss[j - ss.len() - 1]));
        }
    }
    lemma_find_char_none(third, ':');
    assert(before_char(third, ':') == third);
    lemma_find_char_after_digits(ss, '.', mss);
    assert(millis_digits(mss) =~= mss);
    assert(h * 3_600_000 <= t);
    lemma_parse_digits(hs, u64::MAX as nat);
    lemma_parse_digits(msx, u64::MAX as nat);
    lemma_parse_digits(ss, u64::MAX as nat);
    lemma_parse_digits(mss, u64::MAX as nat);
    assert(t == h * 3_600_000 + m * 60_000 + sec * 1_000 + ms) by {
        lemma_fundamental_div_mod(t as int, 3_600_000);
        lemma_fundamental_div_mod((t % 3_600_000) as int, 60_000);
        lemma_fundamental_div_mod((t % 60_000) as int, 1_000);
        lemma_mod_mod(t as int, 60_000, 60);
        lemma_mod_mod(t as int, 1_000, 60);
    }
}

} // verus!
