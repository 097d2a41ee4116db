//! TOML's byte classes, the digits of its numbers, and its date and time
//! forms: `YYYY-MM-DD`, `HH:MM:SS` with an optional fraction, and an offset
//! `Z` or `+HH:MM`.

use vstd::prelude::*;
use vstd::string::StringSliceAdditionalSpecFns;
use crate::message::push_char;

verus! {

pub open spec fn is_digit(byte: u8) -> bool {
    0x30 <= byte <= 0x39
}

pub open spec fn is_alnum(byte: u8) -> bool {
    is_digit(byte) || (0x41 <= byte <= 0x5A) || (0x61 <= byte <= 0x7A)
}

fn is_ascii_digit(byte: u8) -> (digit: bool)
    ensures
        digit == is_digit(byte),
{
    0x30 <= byte && byte <= 0x39
}

fn is_ascii_alphanumeric(byte: u8) -> (found: bool)
    ensures
        found == is_alnum(byte),
{
    is_ascii_digit(byte) || (0x41 <= byte && byte <= 0x5A) || (0x61 <= byte && byte <= 0x7A)
}

/// Bytes of a bare key: letters, digits, `_` and `-`.
pub fn is_bare_key_byte(byte: u8) -> (bare: bool)
    ensures
        bare == (is_alnum(byte) || byte == 0x5F || byte == 0x2D),
{
    is_ascii_alphanumeric(byte) || byte == 0x5F || byte == 0x2D
}

/// Bytes of a number or date token: letters, digits, `+ - _ . :`.
pub fn is_token_byte(byte: u8) -> (token: bool)
    ensures
        token == (is_alnum(byte) || byte == 0x2B || byte == 0x2D || byte == 0x5F || byte == 0x2E || byte
            == 0x3A),
{
    is_ascii_alphanumeric(byte) || byte == 0x2B || byte == 0x2D || byte == 0x5F || byte == 0x2E || byte == 0x3A
}

/// Control bytes other than tab, which no TOML string may hold raw.
pub fn is_control(byte: u8) -> (control: bool)
    ensures
        control == ((byte < 0x20 && byte != 0x09) || byte == 0x7F),
{
    (byte < 0x20 && byte != 0x09) || byte == 0x7F
}

/// Whether `bytes[start..end]` are all digits.
pub open spec fn all_digits(bytes: Seq<u8>, start: int, end: int) -> bool {
    forall|i: int| start <= i < end ==> is_digit(#[trigger] bytes[i])
}

fn digits_between(bytes: &[u8], start: usize, end: usize) -> (digits: bool)
    requires
        start <= end <= bytes@.len(),
    ensures
        digits == all_digits(bytes@, start as int, end as int),
{
    let mut index = start;
    while index < end
        invariant
            start <= index <= end <= bytes@.len(),
            all_digits(bytes@, start as int, index as int),
        decreases end - index,
    {
        if !is_ascii_digit(bytes[index]) {
            return false;
        }
        index += 1;
    }
    true
}

/// A date's shape: four digits, `-`, and room for the rest.
pub open spec fn spec_looks_like_date(bytes: Seq<u8>) -> bool {
    bytes.len() >= 10 && bytes[4] == 0x2D && bytes[7] == 0x2D && all_digits(bytes, 0, 4)
}

pub fn looks_like_date(bytes: &[u8]) -> (date: bool)
    ensures
        date == spec_looks_like_date(bytes@),
{
    bytes.len() >= 10 && bytes[4] == 0x2D && bytes[7] == 0x2D && digits_between(bytes, 0, 4)
}

/// A time's shape: two digits, `:`, and room for the rest.
pub open spec fn spec_looks_like_time(bytes: Seq<u8>) -> bool {
    bytes.len() >= 8 && bytes[2] == 0x3A && all_digits(bytes, 0, 2)
}

pub fn looks_like_time(bytes: &[u8]) -> (time: bool)
    ensures
        time == spec_looks_like_time(bytes@),
{
    bytes.len() >= 8 && bytes[2] == 0x3A && digits_between(bytes, 0, 2)
}

/// The two-digit number at `at`, if both bytes are there and are digits.
pub open spec fn spec_two_digits(bytes: Seq<u8>, at: int) -> Option<u32> {
    if 0 <= at && at + 1 < bytes.len() && is_digit(bytes[at]) && is_digit(bytes[at + 1]) {
        Some(((bytes[at] - 0x30) * 10 + (bytes[at + 1] - 0x30)) as u32)
    } else {
        None
    }
}

pub fn two_digits(bytes: &[u8], at: usize) -> (number: Option<u32>)
    ensures
        number == spec_two_digits(bytes@, at as int),
{
    if at >= bytes.len() || bytes.len() - at < 2 {
        return None;
    }
    let tens = bytes[at];
    let ones = bytes[at + 1];
    if is_ascii_digit(tens) && is_ascii_digit(ones) {
        Some((tens - 0x30) as u32 * 10 + (ones - 0x30) as u32)
    } else {
        None
    }
}

/// `YYYY-MM-DD` with a month from 1 to 12 and a day from 1 to 31.
pub open spec fn spec_date_is_valid(bytes: Seq<u8>) -> bool {
    &&& bytes.len() >= 10
    &&& all_digits(bytes, 0, 4)
    &&& bytes[4] == 0x2D
    &&& bytes[7] == 0x2D
    &&& spec_two_digits(bytes, 5) matches Some(month) && 1 <= month <= 12
    &&& spec_two_digits(bytes, 8) matches Some(day) && 1 <= day <= 31
}

/// `YYYY-MM-DD`, consuming 10 bytes.
pub fn date_is_valid(bytes: &[u8]) -> (valid: bool)
    ensures
        valid == spec_date_is_valid(bytes@),
{
    if bytes.len() < 10 || !digits_between(bytes, 0, 4) {
        return false;
    }
    let month = two_digits(bytes, 5);
    let day = two_digits(bytes, 8);
    match (month, day) {
        (Some(month), Some(day)) => bytes[4] == 0x2D && bytes[7] == 0x2D && 1 <= month && month <= 12 && 1
            <= day && day <= 31,
        _ => false,
    }
}

/// The end of the run of digits from `i`.
pub open spec fn digits_end(bytes: Seq<u8>, i: int) -> int
    decreases bytes.len() - i,
{
    if 0 <= i < bytes.len() && is_digit(bytes[i]) {
        digits_end(bytes, i + 1)
    } else {
        i
    }
}

proof fn lemma_digits_end_bounds(bytes: Seq<u8>, i: int)
    requires
        0 <= i <= bytes.len(),
    ensures
        i <= digits_end(bytes, i) <= bytes.len(),
    decreases bytes.len() - i,
{
    if i < bytes.len() && is_digit(bytes[i]) {
        lemma_digits_end_bounds(bytes, i + 1);
    }
}

/// The length of `HH:MM:SS` with an optional `.` and fraction digits at
/// the start of `bytes`, the hour at most 23, the minute 59, the second
/// 60 (a leap second).
pub open spec fn spec_time_length(bytes: Seq<u8>) -> Option<usize> {
    match (spec_two_digits(bytes, 0), spec_two_digits(bytes, 3), spec_two_digits(bytes, 6)) {
        (Some(hour), Some(minute), Some(second)) => if !(bytes[2] == 0x3A && bytes[5] == 0x3A) || hour > 23
            || minute > 59 || second > 60 {
            None
        } else if bytes.len() > 8 && bytes[8] == 0x2E {
            let digits = digits_end(bytes, 9) - 9;
            if digits == 0 {
                None
            } else {
                Some((9 + digits) as usize)
            }
        } else {
            Some(8usize)
        },
        _ => None,
    }
}

/// `HH:MM:SS` with an optional fraction; returns the bytes consumed.
pub fn time_length(bytes: &[u8]) -> (length: Option<usize>)
    ensures
        length == spec_time_length(bytes@),
{
    let hour = match two_digits(bytes, 0) {
        Some(hour) => hour,
        None => return None,
    };
    let minute = match two_digits(bytes, 3) {
        Some(minute) => minute,
        None => return None,
    };
    let second = match two_digits(bytes, 6) {
        Some(second) => second,
        None => return None,
    };
    let separators_ok = bytes[2] == 0x3A && bytes[5] == 0x3A;
    if !separators_ok || hour > 23 || minute > 59 || second > 60 {
        return None;
    }
    let mut length: usize = 8;
    if bytes.len() > 8 && bytes[8] == 0x2E {
        let mut end: usize = 9;
        while end < bytes.len() && is_ascii_digit(bytes[end])
            invariant
                9 <= end <= bytes@.len(),
                digits_end(bytes@, 9) == digits_end(bytes@, end as int),
            decreases bytes@.len() - end,
        {
            end += 1;
        }
        if end == 9 {
            return None;
        }
        length = end;
    }
    Some(length)
}

/// The length of an offset at the start of `bytes`: `Z`, `z`, or a sign
/// and `HH:MM`.
pub open spec fn spec_offset_length(bytes: Seq<u8>) -> Option<usize> {
    if bytes.len() == 0 {
        None
    } else if bytes[0] == 0x5A || bytes[0] == 0x7A {
        Some(1usize)
    } else if bytes[0] == 0x2B || bytes[0] == 0x2D {
        match (spec_two_digits(bytes, 1), spec_two_digits(bytes, 4)) {
            (Some(hour), Some(minute)) => if bytes[3] == 0x3A && hour <= 23 && minute <= 59 {
                Some(6usize)
            } else {
                None
            },
            _ => None,
        }
    } else {
        None
    }
}

/// `Z`, `z`, or `+HH:MM`; returns the bytes consumed.
pub fn offset_length(bytes: &[u8]) -> (length: Option<usize>)
    ensures
        length == spec_offset_length(bytes@),
{
    if bytes.len() == 0 {
        return None;
    }
    let first = bytes[0];
    if first == 0x5A || first == 0x7A {
        Some(1)
    } else if first == 0x2B || first == 0x2D {
        let hour = match two_digits(bytes, 1) {
            Some(hour) => hour,
            None => return None,
        };
        let minute = match two_digits(bytes, 4) {
            Some(minute) => minute,
            None => return None,
        };
        if bytes[3] == 0x3A && hour <= 23 && minute <= 59 {
            Some(6)
        } else {
            None
        }
    } else {
        None
    }
}

/// A whole token as a time, a date, or a date and time with an optional
/// offset, the date and time joined by `T`, `t` or a space.
pub open spec fn spec_datetime_is_valid(bytes: Seq<u8>) -> bool {
    if spec_looks_like_time(bytes) {
        spec_time_length(bytes) == Some(bytes.len() as usize)
    } else if !spec_date_is_valid(bytes) {
        false
    } else if bytes.len() == 10 {
        true
    } else if !(bytes[10] == 0x54 || bytes[10] == 0x74 || bytes[10] == 0x20) {
        false
    } else {
        let rest = bytes.subrange(11, bytes.len() as int);
        match spec_time_length(rest) {
            None => false,
            Some(time) => {
                let after = rest.subrange(time as int, rest.len() as int);
                after.len() == 0 || spec_offset_length(after) == Some(after.len() as usize)
            },
        }
    }
}

proof fn lemma_time_length_fits(bytes: Seq<u8>)
    ensures
        spec_time_length(bytes) matches Some(length) ==> length <= bytes.len(),
{
    if bytes.len() > 9 {
        lemma_digits_end_bounds(bytes, 9);
    }
}

fn slice_from(bytes: &[u8], start: usize) -> (tail: &[u8])
    requires
        start <= bytes@.len(),
    ensures
        tail@ == bytes@.subrange(start as int, bytes@.len() as int),
{
    &bytes[start..bytes.len()]
}

pub fn datetime_is_valid(bytes: &[u8]) -> (valid: bool)
    ensures
        valid == spec_datetime_is_valid(bytes@),
{
    if looks_like_time(bytes) {
        return time_length(bytes) == Some(bytes.len());
    }
    if !date_is_valid(bytes) {
        return false;
    }
    if bytes.len() == 10 {
        return true;
    }
    if !(bytes[10] == 0x54 || bytes[10] == 0x74 || bytes[10] == 0x20) {
        return false;
    }
    let rest = slice_from(bytes, 11);
    let time = match time_length(rest) {
        Some(time) => time,
        None => return false,
    };
    proof {
        lemma_time_length_fits(rest@);
    }
    let after_time = slice_from(rest, time);
    if after_time.len() == 0 {
        return true;
    }
    offset_length(after_time) == Some(after_time.len())
}

// ----- digits -----

/// Whether `byte` is a digit of base `radix`, as `char::is_digit` has it:
/// `0` to `9`, then letters from `a` (or `A`) for ten on, below the radix.
pub open spec fn is_radix_digit(byte: u8, radix: u32) -> bool {
    if 0x30 <= byte <= 0x39 {
        byte - 0x30 < radix
    } else if 0x61 <= byte <= 0x7A {
        byte - 0x61 + 10 < radix
    } else if 0x41 <= byte <= 0x5A {
        byte - 0x41 + 10 < radix
    } else {
        false
    }
}

fn radix_digit(byte: u8, radix: u32) -> (digit: bool)
    ensures
        digit == is_radix_digit(byte, radix),
{
    if 0x30 <= byte && byte <= 0x39 {
        ((byte - 0x30) as u32) < radix
    } else if 0x61 <= byte && byte <= 0x7A {
        ((byte - 0x61) as u32) + 10 < radix
    } else if 0x41 <= byte && byte <= 0x5A {
        ((byte - 0x41) as u32) + 10 < radix
    } else {
        false
    }
}

/// The digits from `i` on with their underscores taken out, or why they are
/// refused: an underscore must follow a digit and precede one, and nothing
/// but digits and underscores may appear. `after_digit` tells whether the
/// byte before `i` was a digit.
pub open spec fn digits_from(bytes: Seq<u8>, radix: u32, i: int, after_digit: bool) -> Result<Seq<char>, Seq<char>>
    decreases bytes.len() - i,
{
    if i >= bytes.len() {
        Ok(Seq::empty())
    } else if bytes[i] == 0x5F {
        if !after_digit || !(i + 1 < bytes.len() && is_radix_digit(bytes[i + 1], radix)) {
            Err("underscores must sit between digits"@)
        } else {
            digits_from(bytes, radix, i + 1, false)
        }
    } else if !is_radix_digit(bytes[i], radix) {
        Err("invalid character in a number"@)
    } else {
        match digits_from(bytes, radix, i + 1, true) {
            Ok(rest) => Ok(seq![bytes[i] as char] + rest),
            Err(message) => Err(message),
        }
    }
}

/// The digits of a number with its underscores taken out, or why not.
pub open spec fn spec_strip_underscores(bytes: Seq<u8>, radix: u32) -> Result<Seq<char>, Seq<char>> {
    if bytes.len() == 0 {
        Err("expected digits"@)
    } else {
        digits_from(bytes, radix, 0, false)
    }
}

/// `written` put in front of what `rest` gives.
pub open spec fn after_written(written: Seq<char>, rest: Result<Seq<char>, Seq<char>>) -> Result<Seq<char>, Seq<char>> {
    match rest {
        Ok(digits) => Ok(written + digits),
        Err(message) => Err(message),
    }
}

/// Digits with underscores only between digits, or an error.
pub fn strip_underscores(text: &str, radix: u32) -> (digits: Result<String, &'static str>)
    requires
        radix <= 36,
    ensures
        match (digits, spec_strip_underscores(text.spec_bytes(), radix)) {
            (Ok(found), Ok(expected)) => found@ == expected,
            (Err(message), Err(expected)) => message@ == expected,
            _ => false,
        },
{
    let bytes = text.as_bytes();
    if bytes.len() == 0 {
        return Err("expected digits");
    }
    let mut out = String::new();
    let mut previous_was_digit = false;
    let mut index: usize = 0;
    proof {
        assert(after_written(out@, digits_from(bytes@, radix, 0, false)) == digits_from(bytes@, radix, 0, false)) by {
            assert(out@ == Seq::<char>::empty());
            match digits_from(bytes@, radix, 0, false) {
                Ok(rest) => assert(out@ + rest =~= rest),
                Err(_) => {},
            }
        }
    }
    while index < bytes.len()
        invariant
            bytes@ == text.spec_bytes(),
            bytes@.len() > 0,
            index <= bytes@.len(),
            spec_strip_underscores(bytes@, radix) == after_written(
                out@,
                digits_from(bytes@, radix, index as int, previous_was_digit),
            ),
        decreases bytes@.len() - index,
    {
        let byte = bytes[index];
        if byte == 0x5F {
            let next_is_digit = index + 1 < bytes.len() && radix_digit(bytes[index + 1], radix);
            if !previous_was_digit || !next_is_digit {
                return Err("underscores must sit between digits");
            }
            previous_was_digit = false;
            index += 1;
        } else if !radix_digit(byte, radix) {
            return Err("invalid character in a number");
        } else {
            let ghost before = out@;
            push_char(&mut out, byte as char);
            proof {
                match digits_from(bytes@, radix, index + 1, true) {
                    Ok(rest) => assert(before + (seq![byte as char] + rest) =~= out@ + rest),
                    Err(_) => {},
                }
            }
            previous_was_digit = true;
            index += 1;
        }
    }
    proof {
        assert(out@ + Seq::<char>::empty() =~= out@);
    }
    Ok(out)
}

} // verus!
