//! Building error messages: text and decimal numbers appended to a
//! `String`.

use vstd::prelude::*;
use vstd::string::StringExecFns;

verus! {

/// Appends one character (`String::push`).
#[verifier::external_body]
pub(crate) fn push_char(text: &mut String, ch: char)
    ensures
        final(text)@ == old(text)@.push(ch),
{
    text.push(ch)
}

/// The characters of a string slice (`str::chars`, collected).
#[verifier::external_body]
pub(crate) fn chars_of(text: &str) -> (chars: Vec<char>)
    ensures
        chars@ == text@,
{
    text.chars().collect()
}

/// A string of the given characters (`Iterator::collect` into a
/// `String`).
#[verifier::external_body]
pub(crate) fn string_of(chars: &[char]) -> (text: String)
    ensures
        text@ == chars@,
{
    chars.iter().collect()
}

/// The decimal digits of `n`, most significant first, without leading
/// zeros (`"0"` for zero).
pub open spec fn decimal(n: nat) -> Seq<char>
    decreases n,
{
    if n < 10 {
        seq![digit_char(n)]
    } else {
        decimal(n / 10).push(digit_char(n % 10))
    }
}

/// The character of a digit below ten.
pub open spec fn digit_char(d: nat) -> char {
    ((48 + d) as u8) as char
}

/// Appends the decimal form of `n`.
pub(crate) fn push_decimal(text: &mut String, n: u64)
    ensures
        final(text)@ == old(text)@ + decimal(n as nat),
    decreases n,
{
    if n >= 10 {
        push_decimal(text, n / 10);
    }
    let digit = (n % 10) as u8;
    push_char(text, (48 + digit) as char);
    proof {
        assert((48 + digit) as u8 as char == digit_char((n % 10) as nat));
    }
}

/// `prefix` followed by the decimal form of `n`.
pub(crate) fn with_number(prefix: &str, n: u64) -> (text: String)
    ensures
        text@ == prefix@ + decimal(n as nat),
{
    let mut text = String::new();
    text.append(prefix);
    push_decimal(&mut text, n);
    proof {
        assert(Seq::<char>::empty() + prefix@ =~= prefix@);
    }
    text
}

} // verus!
