//! Character classes of Unicode, as the standard library reports them:
//! whitespace and controls stated, the alphanumeric class and the
//! lowercase mapping named.

use vstd::prelude::*;

verus! {

/// The Unicode White_Space property: tab, line feed, vertical tab, form
/// feed and carriage return, space, next line (U+0085), no-break space,
/// Ogham space mark, the spaces U+2000 to U+200A, the line and paragraph
/// separators, narrow no-break space, medium mathematical space and
/// ideographic space: twenty-five characters.
#[verifier::opaque]
pub open spec fn white_space(ch: char) -> bool {
    let c = ch as u32;
    (0x09 <= c <= 0x0D) || c == 0x20 || c == 0x85 || c == 0xA0 || c == 0x1680 || (0x2000 <= c <= 0x200A)
        || c == 0x2028 || c == 0x2029 || c == 0x202F || c == 0x205F || c == 0x3000
}

/// General category Cc (control): U+0000 to U+001F and U+007F to U+009F.
#[verifier::opaque]
pub open spec fn control(ch: char) -> bool {
    let c = ch as u32;
    c <= 0x1F || (0x7F <= c <= 0x9F)
}

// Whether a character is alphabetic or numeric in Unicode's sense.
pub uninterp spec fn alphanumeric(ch: char) -> bool;

// The lowercase mapping of a character: one or more characters.
pub uninterp spec fn lowercase(ch: char) -> Seq<char>;

/// `char::is_whitespace`: the Unicode White_Space property.
pub(crate) fn is_whitespace(ch: char) -> (white: bool)
    ensures
        white == white_space(ch),
{
    reveal(white_space);
    let c = ch as u32;
    (0x09 <= c && c <= 0x0D) || c == 0x20 || c == 0x85 || c == 0xA0 || c == 0x1680 || (0x2000 <= c && c
        <= 0x200A) || c == 0x2028 || c == 0x2029 || c == 0x202F || c == 0x205F || c == 0x3000
}

/// `char::is_control`: general category Cc.
pub(crate) fn is_control(ch: char) -> (found: bool)
    ensures
        found == control(ch),
{
    reveal(control);
    let c = ch as u32;
    c <= 0x1F || (0x7F <= c && c <= 0x9F)
}

/// `char::is_alphanumeric`: alphabetic or numeric. The contract names the
/// answer and says nothing of which characters qualify.
#[verifier::external_body]
pub(crate) fn is_alphanumeric(ch: char) -> (found: bool)
    ensures
        found == alphanumeric(ch),
{
    ch.is_alphanumeric()
}

/// `char::to_lowercase`, collected: the characters of the lowercase
/// mapping. The contract names them and says nothing of the mapping.
#[verifier::external_body]
pub(crate) fn to_lowercase(ch: char) -> (lowered: Vec<char>)
    ensures
        lowered@ == lowercase(ch),
{
    ch.to_lowercase().collect()
}

} // verus!
