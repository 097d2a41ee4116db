//! Scanners shared by the block and inline parsers: labels, destinations,
//! titles, HTML tags, autolinks, character references and link reference
//! definitions. Each works on the bytes from a given start and says how far
//! its construct reaches. Named character references are looked up in a
//! table of `(name, replacement)` pairs that the caller passes.

use vstd::prelude::*;
use vstd::string::StringSliceAdditionalSpecFns;
use vstd::utf8::decode_utf8;
use crate::chars::{alphanumeric, control, is_alphanumeric, is_control, is_whitespace, lowercase, to_lowercase, white_space};
use crate::message::{chars_of, push_char};
use vstd::string::StringExecFns;
use crate::markdown::block::{lemma_boundary_after_ascii, lemma_boundary_at_ascii, on_boundary, slice_str};

verus! {

// ----- bytes -----

pub const TAB: u8 = 0x09;
pub const NEWLINE: u8 = 0x0A;
pub const SPACE: u8 = 0x20;
pub const BANG: u8 = 0x21;
pub const QUOTE: u8 = 0x22;
pub const APOSTROPHE: u8 = 0x27;
pub const OPEN_PAREN: u8 = 0x28;
pub const CLOSE_PAREN: u8 = 0x29;
pub const HYPHEN: u8 = 0x2D;
pub const DOT: u8 = 0x2E;
pub const SLASH: u8 = 0x2F;
pub const COLON: u8 = 0x3A;
pub const LESS: u8 = 0x3C;
pub const EQUALS: u8 = 0x3D;
pub const GREATER: u8 = 0x3E;
pub const QUESTION: u8 = 0x3F;
pub const AT: u8 = 0x40;
pub const OPEN_BRACKET: u8 = 0x5B;
pub const BACKSLASH: u8 = 0x5C;
pub const CLOSE_BRACKET: u8 = 0x5D;
pub const UNDERSCORE: u8 = 0x5F;
pub const BACKTICK: u8 = 0x60;

/// ASCII punctuation: `!` to `/`, `:` to `@`, `[` to `` ` ``, `{` to `~`.
pub open spec fn is_punct(byte: u8) -> bool {
    (0x21 <= byte <= 0x2F) || (0x3A <= byte <= 0x40) || (0x5B <= byte <= 0x60) || (0x7B <= byte <= 0x7E)
}

pub open spec fn is_alpha(byte: u8) -> bool {
    (0x41 <= byte <= 0x5A) || (0x61 <= byte <= 0x7A)
}

pub open spec fn is_alnum(byte: u8) -> bool {
    is_alpha(byte) || (0x30 <= byte <= 0x39)
}

/// A byte with ASCII capitals lowered.
pub open spec fn lower(byte: u8) -> u8 {
    if 0x41 <= byte <= 0x5A {
        (byte + 32) as u8
    } else {
        byte
    }
}

pub fn is_ascii_punctuation(byte: u8) -> (result: bool)
    ensures
        result == is_punct(byte),
{
    (0x21 <= byte && byte <= 0x2F) || (0x3A <= byte && byte <= 0x40) || (0x5B <= byte && byte <= 0x60) || (
    0x7B <= byte && byte <= 0x7E)
}

fn is_ascii_alphabetic(byte: u8) -> (result: bool)
    ensures
        result == is_alpha(byte),
{
    (0x41 <= byte && byte <= 0x5A) || (0x61 <= byte && byte <= 0x7A)
}

pub(crate) fn is_ascii_alphanumeric(byte: u8) -> (result: bool)
    ensures
        result == is_alnum(byte),
{
    is_ascii_alphabetic(byte) || (0x30 <= byte && byte <= 0x39)
}

fn to_ascii_lowercase(byte: u8) -> (result: u8)
    ensures
        result == lower(byte),
{
    if 0x41 <= byte && byte <= 0x5A {
        byte + 32
    } else {
        byte
    }
}

/// `bytes[start..end]`.
pub(crate) fn slice_range<'a>(bytes: &'a [u8], start: usize, end: usize) -> (out: &'a [u8])
    requires
        start <= end <= bytes@.len(),
    ensures
        out@ == bytes@.subrange(start as int, end as int),
{
    &bytes[start..end]
}

/// The byte at `i`, if there is one.
pub open spec fn byte_at(text: Seq<u8>, i: int) -> Option<u8> {
    if 0 <= i < text.len() {
        Some(text[i])
    } else {
        None
    }
}

fn get(text: &[u8], i: usize) -> (byte: Option<u8>)
    ensures
        byte == byte_at(text@, i as int),
{
    if i < text.len() {
        Some(text[i])
    } else {
        None
    }
}

/// Whether `text` starts with `prefix`.
pub open spec fn starts(text: Seq<u8>, prefix: Seq<u8>) -> bool {
    text.len() >= prefix.len() && text.subrange(0, prefix.len() as int) == prefix
}

fn starts_with(text: &[u8], prefix: &[u8]) -> (result: bool)
    ensures
        result == starts(text@, prefix@),
{
    if text.len() < prefix.len() {
        return false;
    }
    let mut index = 0usize;
    while index < prefix.len()
        invariant
            text@.len() >= prefix@.len(),
            index <= prefix@.len(),
            forall|j: int| 0 <= j < index ==> text@[j] == prefix@[j],
        decreases prefix@.len() - index,
    {
        if text[index] != prefix[index] {
            assert(text@.subrange(0, prefix@.len() as int)[index as int] != prefix@[index as int]);
            return false;
        }
        index += 1;
    }
    assert(text@.subrange(0, prefix@.len() as int) =~= prefix@);
    true
}

/// Whether `text` starts with `prefix`, ASCII case ignored.
pub open spec fn starts_ignoring_case(text: Seq<u8>, prefix: Seq<u8>) -> bool {
    text.len() >= prefix.len() && forall|j: int| 0 <= j < prefix.len() ==> lower(#[trigger] text[j]) == lower(
        prefix[j],
    )
}

pub(crate) fn starts_with_ignore_case(text: &[u8], prefix: &str) -> (result: bool)
    ensures
        result == starts_ignoring_case(text@, prefix.spec_bytes()),
{
    let expected = prefix.as_bytes();
    if text.len() < expected.len() {
        return false;
    }
    let mut index = 0usize;
    while index < expected.len()
        invariant
            expected@ == prefix.spec_bytes(),
            text@.len() >= expected@.len(),
            index <= expected@.len(),
            forall|j: int| 0 <= j < index ==> lower(#[trigger] text@[j]) == lower(expected@[j]),
        decreases expected@.len() - index,
    {
        if to_ascii_lowercase(text[index]) != to_ascii_lowercase(expected[index]) {
            return false;
        }
        index += 1;
    }
    true
}

// ----- links -----

/// Where the label whose content starts at `i` closes: the index after
/// its `]`. A backslash escapes the next byte; an unescaped `[` ends the
/// scan, as does content longer than 999 bytes.
pub open spec fn label_close(text: Seq<u8>, i: int) -> Option<int>
    decreases text.len() - i,
{
    if i < 1 || i >= text.len() {
        None
    } else if text[i] == BACKSLASH {
        if i + 2 <= text.len() {
            label_close(text, i + 2)
        } else {
            None
        }
    } else if text[i] == OPEN_BRACKET {
        None
    } else if text[i] == CLOSE_BRACKET {
        if i - 1 > 999 {
            None
        } else {
            Some(i + 1)
        }
    } else {
        label_close(text, i + 1)
    }
}

pub open spec fn spec_link_label(text: Seq<u8>) -> Option<usize> {
    if text.len() == 0 || text[0] != OPEN_BRACKET {
        None
    } else {
        match label_close(text, 1) {
            Some(end) => Some(end as usize),
            None => None,
        }
    }
}

/// A link label at `text[0] == '['`: up to 999 bytes of content with no
/// unescaped brackets. Returns the length including both brackets.
pub fn scan_link_label(text: &[u8]) -> (length: Option<usize>)
    ensures
        length == spec_link_label(text@),
{
    if text.len() == 0 || text[0] != OPEN_BRACKET {
        return None;
    }
    let mut index = 1usize;
    while index < text.len()
        invariant
            1 <= index,
            text@.len() >= 1,
            text@[0] == OPEN_BRACKET,
            label_close(text@, 1) == label_close(text@, index as int),
        decreases text@.len() - index,
    {
        let byte = text[index];
        if byte == BACKSLASH {
            if text.len() - index < 2 {
                return None;
            }
            index += 2;
        } else if byte == OPEN_BRACKET {
            return None;
        } else if byte == CLOSE_BRACKET {
            if index - 1 > 999 {
                return None;
            }
            return Some(index + 1);
        } else {
            index += 1;
        }
    }
    None
}

/// Where a `<...>` destination whose content starts at `i` closes: the
/// index of its `>`. A newline or `<` ends the scan.
pub open spec fn pointy_close(text: Seq<u8>, i: int) -> Option<int>
    decreases text.len() - i,
{
    if i < 0 || i >= text.len() {
        None
    } else if text[i] == BACKSLASH {
        if i + 2 <= text.len() {
            pointy_close(text, i + 2)
        } else {
            None
        }
    } else if text[i] == NEWLINE || text[i] == LESS {
        None
    } else if text[i] == GREATER {
        Some(i)
    } else {
        pointy_close(text, i + 1)
    }
}

/// Whether a backslash at `i` escapes a punctuation byte.
pub open spec fn escapes_punct(text: Seq<u8>, i: int) -> bool {
    text[i] == BACKSLASH && i + 1 < text.len() && is_punct(text[i + 1])
}

/// Where a bare destination scanned from `i` with `depth` open
/// parentheses ends: at a space or control byte, at an unbalanced `)`, or
/// at the end; `None` when parentheses nest past 32 or stay open.
pub open spec fn plain_end(text: Seq<u8>, i: int, depth: int) -> Option<int>
    decreases text.len() - i,
{
    if i < 0 || i >= text.len() {
        if depth != 0 {
            None
        } else {
            Some(i)
        }
    } else if escapes_punct(text, i) {
        plain_end(text, i + 2, depth)
    } else if text[i] == OPEN_PAREN {
        if depth + 1 > 32 {
            None
        } else {
            plain_end(text, i + 1, depth + 1)
        }
    } else if text[i] == CLOSE_PAREN {
        if depth == 0 {
            Some(i)
        } else {
            plain_end(text, i + 1, depth - 1)
        }
    } else if text[i] <= SPACE {
        if depth != 0 {
            None
        } else {
            Some(i)
        }
    } else {
        plain_end(text, i + 1, depth)
    }
}

pub open spec fn spec_link_destination(text: Seq<u8>) -> Option<(usize, usize, usize)> {
    if text.len() > 0 && text[0] == LESS {
        match pointy_close(text, 1) {
            Some(close) => Some((1usize, close as usize, (close + 1) as usize)),
            None => None,
        }
    } else {
        match plain_end(text, 0, 0) {
            Some(end) => Some((0usize, end as usize, end as usize)),
            None => None,
        }
    }
}

/// A link destination at `text[0]`. Returns `(content start, content end,
/// consumed)`; the pointy-bracket form excludes its brackets from content.
pub fn scan_link_destination(text: &[u8]) -> (found: Option<(usize, usize, usize)>)
    ensures
        found == spec_link_destination(text@),
{
    if text.len() > 0 && text[0] == LESS {
        let mut index = 1usize;
        while index < text.len()
            invariant
                1 <= index,
                text@.len() > 0 && text@[0] == LESS,
                pointy_close(text@, 1) == pointy_close(text@, index as int),
            decreases text@.len() - index,
        {
            let byte = text[index];
            if byte == BACKSLASH {
                if text.len() - index < 2 {
                    return None;
                }
                index += 2;
            } else if byte == NEWLINE || byte == LESS {
                return None;
            } else if byte == GREATER {
                return Some((1, index, index + 1));
            } else {
                index += 1;
            }
        }
        return None;
    }
    let mut index = 0usize;
    let mut depth = 0usize;
    while index < text.len()
        invariant
            depth <= 32,
            !(text@.len() > 0 && text@[0] == LESS),
            plain_end(text@, 0, 0) == plain_end(text@, index as int, depth as int),
        decreases text@.len() - index,
    {
        let byte = text[index];
        if byte == BACKSLASH && text.len() - index > 1 && is_ascii_punctuation(text[index + 1]) {
            index += 2;
        } else if byte == OPEN_PAREN {
            depth += 1;
            if depth > 32 {
                return None;
            }
            index += 1;
        } else if byte == CLOSE_PAREN {
            if depth == 0 {
                return Some((0, index, index));
            }
            depth -= 1;
            index += 1;
        } else if byte <= SPACE {
            if depth != 0 {
                return None;
            }
            return Some((0, index, index));
        } else {
            index += 1;
        }
    }
    if depth != 0 {
        return None;
    }
    Some((0, index, index))
}

/// Where a title whose content starts at `i` closes: the index of
/// `close`. With `paren`, an unescaped `(` ends the scan.
pub open spec fn title_close(text: Seq<u8>, i: int, close: u8, paren: bool) -> Option<int>
    decreases text.len() - i,
{
    if i < 0 || i >= text.len() {
        None
    } else if escapes_punct(text, i) {
        title_close(text, i + 2, close, paren)
    } else if text[i] == close {
        Some(i)
    } else if paren && text[i] == OPEN_PAREN {
        None
    } else {
        title_close(text, i + 1, close, paren)
    }
}

pub open spec fn spec_link_title(text: Seq<u8>) -> Option<(usize, usize, usize)> {
    if text.len() == 0 || !(text[0] == QUOTE || text[0] == APOSTROPHE || text[0] == OPEN_PAREN) {
        None
    } else {
        let close = if text[0] == OPEN_PAREN {
            CLOSE_PAREN
        } else {
            text[0]
        };
        match title_close(text, 1, close, text[0] == OPEN_PAREN) {
            Some(end) => Some((1usize, end as usize, (end + 1) as usize)),
            None => None,
        }
    }
}

/// A link title at `text[0]`, delimited by `"`, `'`, or parentheses.
/// Returns `(content start, content end, consumed)`.
pub fn scan_link_title(text: &[u8]) -> (found: Option<(usize, usize, usize)>)
    ensures
        found == spec_link_title(text@),
{
    if text.len() == 0 {
        return None;
    }
    let open = text[0];
    let close = if open == QUOTE {
        QUOTE
    } else if open == APOSTROPHE {
        APOSTROPHE
    } else if open == OPEN_PAREN {
        CLOSE_PAREN
    } else {
        return None;
    };
    let paren = open == OPEN_PAREN;
    let mut index = 1usize;
    while index < text.len()
        invariant
            1 <= index,
            text@.len() > 0,
            text@[0] == QUOTE || text@[0] == APOSTROPHE || text@[0] == OPEN_PAREN,
            close == if text@[0] == OPEN_PAREN {
                CLOSE_PAREN
            } else {
                text@[0]
            },
            paren == (text@[0] == OPEN_PAREN),
            title_close(text@, 1, close, paren) == title_close(text@, index as int, close, paren),
        decreases text@.len() - index,
    {
        let byte = text[index];
        if byte == BACKSLASH && text.len() - index > 1 && is_ascii_punctuation(text[index + 1]) {
            index += 2;
        } else if byte == close {
            return Some((1, index, index + 1));
        } else if paren && byte == OPEN_PAREN {
            return None;
        } else {
            index += 1;
        }
    }
    None
}

/// Past spaces and tabs from `i`, and past one newline among them.
pub open spec fn skip_blank(text: Seq<u8>, i: int, seen_newline: bool) -> int
    decreases text.len() - i,
{
    if i < 0 || i >= text.len() {
        i
    } else if text[i] == SPACE || text[i] == TAB {
        skip_blank(text, i + 1, seen_newline)
    } else if text[i] == NEWLINE && !seen_newline {
        skip_blank(text, i + 1, true)
    } else {
        i
    }
}

pub fn skip_spaces_and_one_newline(text: &[u8], index: usize) -> (end: usize)
    ensures
        end == skip_blank(text@, index as int, false),
{
    let mut at = index;
    let mut seen_newline = false;
    while at < text.len()
        invariant
            skip_blank(text@, index as int, false) == skip_blank(text@, at as int, seen_newline),
        decreases text@.len() - at,
    {
        let byte = text[at];
        if byte == SPACE || byte == TAB {
            at += 1;
        } else if byte == NEWLINE && !seen_newline {
            seen_newline = true;
            at += 1;
        } else {
            return at;
        }
    }
    at
}

/// Only spaces and tabs from `i` to the end of its line.
pub open spec fn blank_to_line_end(text: Seq<u8>, i: int) -> bool
    decreases text.len() - i,
{
    if i < 0 || i >= text.len() {
        true
    } else if text[i] == SPACE || text[i] == TAB {
        blank_to_line_end(text, i + 1)
    } else {
        text[i] == NEWLINE
    }
}

pub fn rest_of_line_is_blank(text: &[u8], index: usize) -> (blank: bool)
    ensures
        blank == blank_to_line_end(text@, index as int),
{
    let mut at = index;
    while at < text.len()
        invariant
            blank_to_line_end(text@, index as int) == blank_to_line_end(text@, at as int),
        decreases text@.len() - at,
    {
        let byte = text[at];
        if byte == SPACE || byte == TAB {
            at += 1;
        } else {
            return byte == NEWLINE;
        }
    }
    true
}

/// Past the end of the line holding `i`, its newline included.
pub open spec fn line_end(text: Seq<u8>, i: int) -> int
    decreases text.len() - i,
{
    if i < 0 || i >= text.len() {
        i
    } else if text[i] == NEWLINE {
        i + 1
    } else {
        line_end(text, i + 1)
    }
}

pub fn end_of_line(text: &[u8], index: usize) -> (end: usize)
    ensures
        end == line_end(text@, index as int),
{
    let mut at = index;
    while at < text.len()
        invariant
            line_end(text@, index as int) == line_end(text@, at as int),
        decreases text@.len() - at,
    {
        let byte = text[at];
        at += 1;
        if byte == NEWLINE {
            return at;
        }
    }
    at
}


// ----- runs of bytes -----

/// The end of the run of bytes from `i` that `keep` accepts.
pub open spec fn run_end(text: Seq<u8>, i: int, keep: spec_fn(u8) -> bool) -> int
    decreases text.len() - i,
{
    if 0 <= i < text.len() && keep(text[i]) {
        run_end(text, i + 1, keep)
    } else {
        i
    }
}

pub proof fn lemma_run_end_bounds(text: Seq<u8>, i: int, keep: spec_fn(u8) -> bool)
    requires
        0 <= i,
    ensures
        i <= run_end(text, i, keep),
        i <= text.len() ==> run_end(text, i, keep) <= text.len(),
        run_end(text, i, keep) < text.len() ==> !keep(text[run_end(text, i, keep)]),
        forall|j: int| i <= j < run_end(text, i, keep) ==> keep(#[trigger] text[j]),
    decreases text.len() - i,
{
    if 0 <= i < text.len() && keep(text[i]) {
        lemma_run_end_bounds(text, i + 1, keep);
    }
}

/// A run read from a suffix of the text ends where the same run ends in
/// the whole text.
proof fn lemma_run_end_shift(text: Seq<u8>, start: int, i: int, keep: spec_fn(u8) -> bool)
    requires
        0 <= start <= text.len(),
        0 <= i,
    ensures
        run_end(text.subrange(start, text.len() as int), i, keep) + start == run_end(text, start + i, keep),
    decreases text.len() - start - i,
{
    let tail = text.subrange(start, text.len() as int);
    if 0 <= i < tail.len() && keep(tail[i]) {
        lemma_run_end_shift(text, start, i + 1, keep);
    }
}

/// The end of the run from `start` of the bytes `keep` accepts.
fn skip_while<F: Fn(u8) -> bool>(text: &[u8], start: usize, keep: F, Ghost(accepts): Ghost<spec_fn(u8) -> bool>) -> (end: usize)
    requires
        forall|byte: u8| #[trigger] keep.requires((byte,)),
        forall|byte: u8, kept: bool| #[trigger] keep.ensures((byte,), kept) ==> kept == accepts(byte),
    ensures
        end == run_end(text@, start as int, accepts),
{
    let mut at = start;
    while at < text.len()
        invariant
            forall|byte: u8| #[trigger] keep.requires((byte,)),
            forall|byte: u8, kept: bool| #[trigger] keep.ensures((byte,), kept) ==> kept == accepts(byte),
            run_end(text@, start as int, accepts) == run_end(text@, at as int, accepts),
        decreases text@.len() - at,
    {
        if !keep(text[at]) {
            return at;
        }
        at += 1;
    }
    at
}

/// Spaces, tabs and newlines, as HTML tags allow between their parts.
pub open spec fn tag_space(byte: u8) -> bool {
    byte == SPACE || byte == TAB || byte == NEWLINE
}

pub open spec fn tag_spaces() -> spec_fn(u8) -> bool {
    |byte: u8| tag_space(byte)
}

/// Bytes of a tag name: letters, digits and hyphens.
pub open spec fn name_byte(byte: u8) -> bool {
    is_alnum(byte) || byte == HYPHEN
}

pub open spec fn name_bytes() -> spec_fn(u8) -> bool {
    |byte: u8| name_byte(byte)
}

/// Bytes of an attribute name after its first.
pub open spec fn attribute_byte(byte: u8) -> bool {
    is_alnum(byte) || byte == UNDERSCORE || byte == DOT || byte == COLON || byte == HYPHEN
}

pub open spec fn attribute_bytes() -> spec_fn(u8) -> bool {
    |byte: u8| attribute_byte(byte)
}

/// Bytes that end an unquoted attribute value.
pub open spec fn value_stop(byte: u8) -> bool {
    byte == SPACE || byte == TAB || byte == NEWLINE || byte == QUOTE || byte == APOSTROPHE || byte == EQUALS
        || byte == LESS || byte == GREATER || byte == BACKTICK
}

pub open spec fn value_bytes() -> spec_fn(u8) -> bool {
    |byte: u8| !value_stop(byte)
}

/// Every byte other than `wanted`.
pub open spec fn other_than(wanted: u8) -> spec_fn(u8) -> bool {
    |byte: u8| byte != wanted
}

fn skip_tag_spaces(text: &[u8], start: usize) -> (end: usize)
    ensures
        end == run_end(text@, start as int, tag_spaces()),
{
    skip_while(
        text,
        start,
        (|byte: u8| -> (kept: bool)
            ensures
                kept == tag_space(byte),
            { byte == SPACE || byte == TAB || byte == NEWLINE }),
        Ghost(tag_spaces()),
    )
}

pub open spec fn name_length(text: Seq<u8>) -> usize {
    run_end(text, 0, name_bytes()) as usize
}

/// Length of the tag name at the start of `text`.
pub fn tag_name_length(text: &[u8]) -> (length: usize)
    ensures
        length == name_length(text@),
        length <= text@.len(),
{
    proof {
        lemma_run_end_bounds(text@, 0, name_bytes());
    }
    skip_while(
        text,
        0,
        (|byte: u8| -> (kept: bool)
            ensures
                kept == name_byte(byte),
            { is_ascii_alphanumeric(byte) || byte == HYPHEN }),
        Ghost(name_bytes()),
    )
}

/// The end of the tag name starting at `start`.
fn name_end(text: &[u8], start: usize) -> (end: usize)
    requires
        start <= text@.len(),
    ensures
        end == run_end(text@, start as int, name_bytes()),
{
    let tail = slice_range(text, start, text.len());
    let length = tag_name_length(tail);
    proof {
        lemma_run_end_bounds(tail@, 0, name_bytes());
        lemma_run_end_shift(text@, start as int, 0, name_bytes());
    }
    start + length
}

/// Only spaces and tabs.
pub open spec fn all_blank(text: Seq<u8>) -> bool {
    forall|j: int| 0 <= j < text.len() ==> #[trigger] text[j] == SPACE || text[j] == TAB
}

pub fn rest_is_whitespace(text: &[u8]) -> (blank: bool)
    ensures
        blank == all_blank(text@),
{
    let mut index = 0usize;
    while index < text.len()
        invariant
            forall|j: int| 0 <= j < index ==> #[trigger] text@[j] == SPACE || text@[j] == TAB,
        decreases text@.len() - index,
    {
        if text[index] != SPACE && text[index] != TAB {
            return false;
        }
        index += 1;
    }
    true
}

// ----- HTML tags -----

/// A closing tag `</name>` at the start of `text`, with whitespace
/// before the `>`. Its length.
pub open spec fn spec_closing_tag(text: Seq<u8>) -> Option<usize> {
    if !(text.len() > 2 && text[0] == LESS && text[1] == SLASH && is_alpha(text[2])) {
        None
    } else {
        let after = run_end(text, run_end(text, 2, name_bytes()), tag_spaces());
        if byte_at(text, after) == Some(GREATER) {
            Some((after + 1) as usize)
        } else {
            None
        }
    }
}

pub fn scan_closing_tag(text: &[u8]) -> (length: Option<usize>)
    ensures
        length == spec_closing_tag(text@),
{
    if text.len() < 2 || text[0] != LESS || text[1] != SLASH {
        return None;
    }
    if text.len() <= 2 || !is_ascii_alphabetic(text[2]) {
        return None;
    }
    let index = name_end(text, 2);
    proof {
        lemma_run_end_bounds(text@, 2, name_bytes());
    }
    let after = skip_tag_spaces(text, index);
    proof {
        lemma_run_end_bounds(text@, index as int, tag_spaces());
    }
    if get(text, after) == Some(GREATER) {
        Some(after + 1)
    } else {
        None
    }
}

/// The first `wanted` at or after `i`.
pub open spec fn find_from(text: Seq<u8>, i: int, wanted: u8) -> Option<int> {
    let end = run_end(text, i, other_than(wanted));
    if end < text.len() {
        Some(end)
    } else {
        None
    }
}

/// The attributes of an open tag from `index`, after its name: each one
/// preceded by whitespace, a name, and optionally `=` and a quoted or
/// unquoted value; then `>` or `/>`. The length of the whole tag.
pub open spec fn open_tag_rest(text: Seq<u8>, index: int) -> Option<usize>
    decreases text.len() - index,
{
    if index < 0 || index > text.len() {
        None
    } else {
        let after = run_end(text, index, tag_spaces());
        match byte_at(text, after) {
            Some(byte) => if byte == GREATER {
                Some((after + 1) as usize)
            } else if byte == SLASH {
                if byte_at(text, after + 1) == Some(GREATER) {
                    Some((after + 2) as usize)
                } else {
                    None
                }
            } else if after > index && (is_alpha(byte) || byte == UNDERSCORE || byte == COLON) {
                proof {
                    lemma_run_end_bounds(text, index, tag_spaces());
                    lemma_run_end_bounds(text, after + 1, attribute_bytes());
                }
                let name_stop = run_end(text, after + 1, attribute_bytes());
                let equals_at = run_end(text, name_stop, tag_spaces());
                if byte_at(text, equals_at) == Some(EQUALS) {
                    proof {
                        lemma_run_end_bounds(text, name_stop, tag_spaces());
                        lemma_run_end_bounds(text, equals_at + 1, tag_spaces());
                    }
                    let value_at = run_end(text, equals_at + 1, tag_spaces());
                    match byte_at(text, value_at) {
                        Some(first) => if first == QUOTE || first == APOSTROPHE {
                            proof {
                                lemma_run_end_bounds(text, value_at + 1, other_than(first));
                            }
                            match find_from(text, value_at + 1, first) {
                                Some(close) => open_tag_rest(text, close + 1),
                                None => None,
                            }
                        } else if !value_stop(first) {
                            proof {
                                lemma_run_end_bounds(text, value_at, value_bytes());
                            }
                            open_tag_rest(text, run_end(text, value_at, value_bytes()))
                        } else {
                            None
                        },
                        None => None,
                    }
                } else {
                    open_tag_rest(text, name_stop)
                }
            } else {
                None
            },
            None => None,
        }
    }
}

pub open spec fn spec_open_tag(text: Seq<u8>) -> Option<usize> {
    if !(text.len() > 1 && text[0] == LESS && is_alpha(text[1])) {
        None
    } else {
        open_tag_rest(text, run_end(text, 1, name_bytes()))
    }
}

/// A tag found in `text` lies within it.
proof fn lemma_open_rest_fits(text: Seq<u8>, index: int)
    ensures
        open_tag_rest(text, index) matches Some(length) ==> length <= text.len(),
    decreases text.len() - index,
{
    if 0 <= index <= text.len() {
        let after = run_end(text, index, tag_spaces());
        lemma_run_end_bounds(text, index, tag_spaces());
        match byte_at(text, after) {
            Some(byte) => if byte != GREATER && byte != SLASH && after > index && (is_alpha(byte) || byte
                == UNDERSCORE || byte == COLON) {
                lemma_run_end_bounds(text, after + 1, attribute_bytes());
                let name_stop = run_end(text, after + 1, attribute_bytes());
                let equals_at = run_end(text, name_stop, tag_spaces());
                lemma_run_end_bounds(text, name_stop, tag_spaces());
                if byte_at(text, equals_at) == Some(EQUALS) {
                    lemma_run_end_bounds(text, equals_at + 1, tag_spaces());
                    let value_at = run_end(text, equals_at + 1, tag_spaces());
                    match byte_at(text, value_at) {
                        Some(first) => if first == QUOTE || first == APOSTROPHE {
                            lemma_run_end_bounds(text, value_at + 1, other_than(first));
                            match find_from(text, value_at + 1, first) {
                                Some(close) => lemma_open_rest_fits(text, close + 1),
                                None => {},
                            }
                        } else if !value_stop(first) {
                            lemma_run_end_bounds(text, value_at, value_bytes());
                            lemma_open_rest_fits(text, run_end(text, value_at, value_bytes()));
                        },
                        None => {},
                    }
                } else {
                    lemma_open_rest_fits(text, name_stop);
                }
            },
            None => {},
        }
    }
}

proof fn lemma_tag_fits(text: Seq<u8>)
    ensures
        spec_open_tag(text) matches Some(length) ==> length <= text.len(),
        spec_closing_tag(text) matches Some(length) ==> length <= text.len(),
{
    lemma_open_rest_fits(text, run_end(text, 1, name_bytes()));
    if text.len() > 2 {
        lemma_run_end_bounds(text, 2, name_bytes());
        lemma_run_end_bounds(text, run_end(text, 2, name_bytes()), tag_spaces());
    }
}

/// An open tag at the start of `text`: `<`, a name, attributes, and `>`
/// or `/>`. Its length.
pub fn scan_open_tag(text: &[u8]) -> (length: Option<usize>)
    ensures
        length == spec_open_tag(text@),
{
    if text.len() == 0 || text[0] != LESS {
        return None;
    }
    if text.len() <= 1 || !is_ascii_alphabetic(text[1]) {
        return None;
    }
    let mut index = name_end(text, 1);
    proof {
        lemma_run_end_bounds(text@, 1, name_bytes());
    }
    loop
        invariant
            text@.len() > 1 && text@[0] == LESS && is_alpha(text@[1]),
            index <= text@.len(),
            spec_open_tag(text@) == open_tag_rest(text@, index as int),
        decreases text@.len() - index,
    {
        let after = skip_tag_spaces(text, index);
        proof {
            lemma_run_end_bounds(text@, index as int, tag_spaces());
        }
        if after >= text.len() {
            return None;
        }
        let byte = text[after];
        if byte == GREATER {
            return Some(after + 1);
        }
        if byte == SLASH {
            return if get(text, after + 1) == Some(GREATER) {
                Some(after + 2)
            } else {
                None
            };
        }
        if !(after > index && (is_ascii_alphabetic(byte) || byte == UNDERSCORE || byte == COLON)) {
            return None;
        }
        let name_stop = skip_while(
            text,
            after + 1,
            (|byte: u8| -> (kept: bool)
                ensures
                    kept == attribute_byte(byte),
                {
                    is_ascii_alphanumeric(byte) || byte == UNDERSCORE || byte == DOT || byte == COLON || byte
                        == HYPHEN
                }),
            Ghost(attribute_bytes()),
        );
        proof {
            lemma_run_end_bounds(text@, after + 1, attribute_bytes());
        }
        let equals_at = skip_tag_spaces(text, name_stop);
        proof {
            lemma_run_end_bounds(text@, name_stop as int, tag_spaces());
        }
        if get(text, equals_at) == Some(EQUALS) {
            let value_at = skip_tag_spaces(text, equals_at + 1);
            proof {
                lemma_run_end_bounds(text@, equals_at + 1, tag_spaces());
            }
            if value_at >= text.len() {
                return None;
            }
            let first = text[value_at];
            if first == QUOTE || first == APOSTROPHE {
                let close = skip_while(
                    text,
                    value_at + 1,
                    (|byte: u8| -> (kept: bool)
                        ensures
                            kept == (byte != first),
                        { byte != first }),
                    Ghost(other_than(first)),
                );
                proof {
                    lemma_run_end_bounds(text@, value_at + 1, other_than(first));
                }
                if close >= text.len() {
                    return None;
                }
                index = close + 1;
            } else if !(first == SPACE || first == TAB || first == NEWLINE || first == QUOTE || first
                == APOSTROPHE || first == EQUALS || first == LESS || first == GREATER || first == BACKTICK) {
                index = skip_while(
                    text,
                    value_at,
                    (|byte: u8| -> (kept: bool)
                        ensures
                            kept == !value_stop(byte),
                        {
                            !(byte == SPACE || byte == TAB || byte == NEWLINE || byte == QUOTE || byte
                                == APOSTROPHE || byte == EQUALS || byte == LESS || byte == GREATER || byte
                                == BACKTICK)
                        }),
                    Ghost(value_bytes()),
                );
                proof {
                    lemma_run_end_bounds(text@, value_at as int, value_bytes());
                }
            } else {
                return None;
            }
        } else {
            index = name_stop;
        }
    }
}


// ----- inline HTML -----

/// The first `a b c` at or after `i`.
pub open spec fn find_triple(text: Seq<u8>, i: int, a: u8, b: u8, c: u8) -> Option<int>
    decreases text.len() - i,
{
    if i < 0 || i + 3 > text.len() {
        None
    } else if text[i] == a && text[i + 1] == b && text[i + 2] == c {
        Some(i)
    } else {
        find_triple(text, i + 1, a, b, c)
    }
}

/// The first `a b` at or after `i`.
pub open spec fn find_pair(text: Seq<u8>, i: int, a: u8, b: u8) -> Option<int>
    decreases text.len() - i,
{
    if i < 0 || i + 2 > text.len() {
        None
    } else if text[i] == a && text[i + 1] == b {
        Some(i)
    } else {
        find_pair(text, i + 1, a, b)
    }
}

fn search_triple(text: &[u8], start: usize, a: u8, b: u8, c: u8) -> (found: Option<usize>)
    ensures
        found is Some <==> find_triple(text@, start as int, a, b, c) is Some,
        found matches Some(at) ==> find_triple(text@, start as int, a, b, c) == Some(at as int) && at + 3
            <= text.len(),
{
    let mut index = start;
    while index <= text.len() && text.len() - index >= 3
        invariant
            start <= index,
            find_triple(text@, start as int, a, b, c) == find_triple(text@, index as int, a, b, c),
        decreases text@.len() - index,
    {
        if text[index] == a && text[index + 1] == b && text[index + 2] == c {
            return Some(index);
        }
        index += 1;
    }
    None
}

fn search_pair(text: &[u8], start: usize, a: u8, b: u8) -> (found: Option<usize>)
    ensures
        found is Some <==> find_pair(text@, start as int, a, b) is Some,
        found matches Some(at) ==> find_pair(text@, start as int, a, b) == Some(at as int) && at + 2
            <= text.len(),
{
    let mut index = start;
    while index <= text.len() && text.len() - index >= 2
        invariant
            start <= index,
            find_pair(text@, start as int, a, b) == find_pair(text@, index as int, a, b),
        decreases text@.len() - index,
    {
        if text[index] == a && text[index + 1] == b {
            return Some(index);
        }
        index += 1;
    }
    None
}

/// What `scan_inline_html` finds at the start of `text`.
pub open spec fn spec_inline_html(text: Seq<u8>) -> Option<usize> {
    if !(text.len() > 0 && text[0] == LESS) {
        None
    } else if spec_open_tag(text) is Some {
        spec_open_tag(text)
    } else if spec_closing_tag(text) is Some {
        spec_closing_tag(text)
    } else if starts(text, "<!-->".spec_bytes()) {
        Some(5)
    } else if starts(text, "<!--->".spec_bytes()) {
        Some(6)
    } else if starts(text, "<!--".spec_bytes()) {
        match find_triple(text, 4, HYPHEN, HYPHEN, GREATER) {
            Some(at) => Some((at + 3) as usize),
            None => None,
        }
    } else if starts(text, "<?".spec_bytes()) {
        match find_pair(text, 2, QUESTION, GREATER) {
            Some(at) => Some((at + 2) as usize),
            None => None,
        }
    } else if starts(text, "<![CDATA[".spec_bytes()) {
        match find_triple(text, 9, CLOSE_BRACKET, CLOSE_BRACKET, GREATER) {
            Some(at) => Some((at + 3) as usize),
            None => None,
        }
    } else if starts(text, "<!".spec_bytes()) && text.len() > 2 && is_alpha(text[2]) {
        match find_from(text, 3, GREATER) {
            Some(at) => Some((at + 1) as usize),
            None => None,
        }
    } else {
        None
    }
}

/// Raw inline HTML at `text[0] == '<'`: open or closing tag, comment,
/// processing instruction, declaration, or CDATA. Returns the length.
pub fn scan_inline_html(text: &[u8]) -> (length: Option<usize>)
    ensures
        length == spec_inline_html(text@),
{
    if text.len() == 0 || text[0] != LESS {
        return None;
    }
    let open = scan_open_tag(text);
    if open.is_some() {
        return open;
    }
    let closing = scan_closing_tag(text);
    if closing.is_some() {
        return closing;
    }
    if starts_with(text, "<!-->".as_bytes()) {
        return Some(5);
    }
    if starts_with(text, "<!--->".as_bytes()) {
        return Some(6);
    }
    if starts_with(text, "<!--".as_bytes()) {
        return match search_triple(text, 4, HYPHEN, HYPHEN, GREATER) {
            Some(at) => Some(at + 3),
            None => None,
        };
    }
    if starts_with(text, "<?".as_bytes()) {
        return match search_pair(text, 2, QUESTION, GREATER) {
            Some(at) => Some(at + 2),
            None => None,
        };
    }
    if starts_with(text, "<![CDATA[".as_bytes()) {
        return match search_triple(text, 9, CLOSE_BRACKET, CLOSE_BRACKET, GREATER) {
            Some(at) => Some(at + 3),
            None => None,
        };
    }
    if starts_with(text, "<!".as_bytes()) && text.len() > 2 && is_ascii_alphabetic(text[2]) {
        let close = skip_while(
            text,
            3,
            (|byte: u8| -> (kept: bool)
                ensures
                    kept == (byte != GREATER),
                { byte != GREATER }),
            Ghost(other_than(GREATER)),
        );
        proof {
            lemma_run_end_bounds(text@, 3, other_than(GREATER));
        }
        return if close < text.len() {
            Some(close + 1)
        } else {
            None
        };
    }
    None
}

// ----- autolinks -----

/// Bytes of a URI scheme after its first letter.
pub open spec fn scheme_bytes() -> spec_fn(u8) -> bool {
    |byte: u8| is_alnum(byte) || byte == 0x2B || byte == DOT || byte == HYPHEN
}

/// Bytes of an email address's local part.
pub open spec fn local_byte(byte: u8) -> bool {
    is_alnum(byte) || byte == DOT || byte == BANG || byte == 0x23 || byte == 0x24 || byte == 0x25 || byte == 0x26
        || byte == APOSTROPHE || byte == 0x2A || byte == 0x2B || byte == SLASH || byte == EQUALS || byte
        == QUESTION || byte == 0x5E || byte == UNDERSCORE || byte == BACKTICK || byte == 0x7B || byte == 0x7C
        || byte == 0x7D || byte == 0x7E || byte == HYPHEN
}

pub open spec fn local_bytes() -> spec_fn(u8) -> bool {
    |byte: u8| local_byte(byte)
}

/// Where a URI's body from `i` closes at `>`: `None` at a space, `<`,
/// control byte, or the end.
pub open spec fn uri_close(text: Seq<u8>, i: int) -> Option<int>
    decreases text.len() - i,
{
    if i < 0 || i >= text.len() {
        None
    } else if text[i] == GREATER {
        Some(i)
    } else if text[i] == LESS || text[i] == SPACE || text[i] < 0x20 || text[i] == 0x7F {
        None
    } else {
        uri_close(text, i + 1)
    }
}

/// The domain of an email autolink from `index`: labels of 1 to 63
/// letters, digits and inner hyphens, joined by dots, closed by `>`.
pub open spec fn domain_close(text: Seq<u8>, index: int) -> Option<(usize, bool)>
    decreases text.len() - index,
{
    if index < 0 || index > text.len() {
        None
    } else {
        let end = run_end(text, index, name_bytes());
        let length = end - index;
        if length <= 0 || length > 63 {
            None
        } else if text[index] == HYPHEN || text[end - 1] == HYPHEN {
            None
        } else if byte_at(text, end) == Some(DOT) {
            proof {
                lemma_run_end_bounds(text, index, name_bytes());
            }
            domain_close(text, end + 1)
        } else if byte_at(text, end) == Some(GREATER) {
            Some(((end + 1) as usize, true))
        } else {
            None
        }
    }
}

/// The URI form of an autolink: where its `>` is.
pub open spec fn uri_autolink(text: Seq<u8>) -> Option<int> {
    if text.len() > 1 && is_alpha(text[1]) {
        let scheme_end = run_end(text, 1, scheme_bytes());
        if 2 <= scheme_end - 1 <= 32 && byte_at(text, scheme_end) == Some(COLON) {
            uri_close(text, scheme_end + 1)
        } else {
            None
        }
    } else {
        None
    }
}

pub open spec fn spec_autolink(text: Seq<u8>) -> Option<(usize, bool)> {
    if !(text.len() > 0 && text[0] == LESS) {
        None
    } else {
        match uri_autolink(text) {
            Some(close) => Some(((close + 1) as usize, false)),
            None => {
                let local_end = run_end(text, 1, local_bytes());
                if local_end == 1 || byte_at(text, local_end) != Some(AT) {
                    None
                } else {
                    domain_close(text, local_end + 1)
                }
            },
        }
    }
}

/// Autolink at `text[0] == '<'`. Returns `(length, is_email)`.
pub fn scan_autolink(text: &[u8]) -> (found: Option<(usize, bool)>)
    ensures
        found == spec_autolink(text@),
{
    if text.len() == 0 || text[0] != LESS {
        return None;
    }
    // URI autolink: scheme of 2..=32 chars, then ':' then no spaces or brackets.
    if text.len() > 1 && is_ascii_alphabetic(text[1]) {
        let scheme_end = skip_while(
            text,
            1,
            (|byte: u8| -> (kept: bool)
                ensures
                    kept == (is_alnum(byte) || byte == 0x2B || byte == DOT || byte == HYPHEN),
                { is_ascii_alphanumeric(byte) || byte == 0x2B || byte == DOT || byte == HYPHEN }),
            Ghost(scheme_bytes()),
        );
        proof {
            lemma_run_end_bounds(text@, 1, scheme_bytes());
        }
        let scheme_length = scheme_end - 1;
        if 2 <= scheme_length && scheme_length <= 32 && get(text, scheme_end) == Some(COLON) {
            let mut index = scheme_end + 1;
            while index < text.len()
                invariant
                    text@.len() > 1 && text@[0] == LESS && is_alpha(text@[1]),
                    uri_autolink(text@) == uri_close(text@, index as int),
                ensures
                    uri_autolink(text@) is None,
                decreases text@.len() - index,
            {
                let byte = text[index];
                if byte == GREATER {
                    return Some((index + 1, false));
                }
                if byte == LESS || byte == SPACE || byte < 0x20 || byte == 0x7F {
                    break;
                }
                index += 1;
            }
        }
    }
    // Email autolink.
    let local_end = skip_while(
        text,
        1,
        (|byte: u8| -> (kept: bool)
            ensures
                kept == local_byte(byte),
            {
                is_ascii_alphanumeric(byte) || byte == DOT || byte == BANG || byte == 0x23 || byte == 0x24 || byte
                    == 0x25 || byte == 0x26 || byte == APOSTROPHE || byte == 0x2A || byte == 0x2B || byte == SLASH
                    || byte == EQUALS || byte == QUESTION || byte == 0x5E || byte == UNDERSCORE || byte
                    == BACKTICK || byte == 0x7B || byte == 0x7C || byte == 0x7D || byte == 0x7E || byte == HYPHEN
            }),
        Ghost(local_bytes()),
    );
    proof {
        lemma_run_end_bounds(text@, 1, local_bytes());
    }
    if local_end == 1 || get(text, local_end) != Some(AT) {
        return None;
    }
    let mut index = local_end + 1;
    loop
        invariant
            spec_autolink(text@) == domain_close(text@, index as int),
            index <= text@.len(),
        decreases text@.len() - index,
    {
        let label_start = index;
        let end = name_end(text, index);
        proof {
            lemma_run_end_bounds(text@, index as int, name_bytes());
        }
        let label_length = end - label_start;
        if label_length == 0 || label_length > 63 {
            return None;
        }
        if text[label_start] == HYPHEN || text[end - 1] == HYPHEN {
            return None;
        }
        match get(text, end) {
            Some(byte) => {
                if byte == DOT {
                    index = end + 1;
                } else if byte == GREATER {
                    return Some((end + 1, true));
                } else {
                    return None;
                }
            },
            None => {
                return None;
            },
        }
    }
}

// ----- HTML blocks -----

/// The names whose tags open an HTML block of the sixth kind.
pub open spec fn is_block_tag(name: Seq<u8>) -> bool {
    name == "address".spec_bytes()
        || name == "article".spec_bytes()
        || name == "aside".spec_bytes()
        || name == "base".spec_bytes()
        || name == "basefont".spec_bytes()
        || name == "blockquote".spec_bytes()
        || name == "body".spec_bytes()
        || name == "caption".spec_bytes()
        || name == "center".spec_bytes()
        || name == "col".spec_bytes()
        || name == "colgroup".spec_bytes()
        || name == "dd".spec_bytes()
        || name == "details".spec_bytes()
        || name == "dialog".spec_bytes()
        || name == "dir".spec_bytes()
        || name == "div".spec_bytes()
        || name == "dl".spec_bytes()
        || name == "dt".spec_bytes()
        || name == "fieldset".spec_bytes()
        || name == "figcaption".spec_bytes()
        || name == "figure".spec_bytes()
        || name == "footer".spec_bytes()
        || name == "form".spec_bytes()
        || name == "frame".spec_bytes()
        || name == "frameset".spec_bytes()
        || name == "h1".spec_bytes()
        || name == "h2".spec_bytes()
        || name == "h3".spec_bytes()
        || name == "h4".spec_bytes()
        || name == "h5".spec_bytes()
        || name == "h6".spec_bytes()
        || name == "head".spec_bytes()
        || name == "header".spec_bytes()
        || name == "hr".spec_bytes()
        || name == "html".spec_bytes()
        || name == "iframe".spec_bytes()
        || name == "legend".spec_bytes()
        || name == "li".spec_bytes()
        || name == "link".spec_bytes()
        || name == "main".spec_bytes()
        || name == "menu".spec_bytes()
        || name == "menuitem".spec_bytes()
        || name == "nav".spec_bytes()
        || name == "noframes".spec_bytes()
        || name == "ol".spec_bytes()
        || name == "optgroup".spec_bytes()
        || name == "option".spec_bytes()
        || name == "p".spec_bytes()
        || name == "param".spec_bytes()
        || name == "search".spec_bytes()
        || name == "section".spec_bytes()
        || name == "summary".spec_bytes()
        || name == "table".spec_bytes()
        || name == "tbody".spec_bytes()
        || name == "td".spec_bytes()
        || name == "tfoot".spec_bytes()
        || name == "th".spec_bytes()
        || name == "thead".spec_bytes()
        || name == "title".spec_bytes()
        || name == "tr".spec_bytes()
        || name == "track".spec_bytes()
        || name == "ul".spec_bytes()
}

fn bytes_equal(left: &[u8], right: &[u8]) -> (equal: bool)
    ensures
        equal == (left@ == right@),
{
    if left.len() != right.len() {
        return false;
    }
    let mut index = 0usize;
    while index < left.len()
        invariant
            left@.len() == right@.len(),
            index <= left@.len(),
            forall|j: int| 0 <= j < index ==> left@[j] == right@[j],
        decreases left@.len() - index,
    {
        if left[index] != right[index] {
            return false;
        }
        index += 1;
    }
    assert(left@ =~= right@);
    true
}

fn block_tag(name: &[u8]) -> (found: bool)
    ensures
        found == is_block_tag(name@),
{
    bytes_equal(name, "address".as_bytes())
        || bytes_equal(name, "article".as_bytes())
        || bytes_equal(name, "aside".as_bytes())
        || bytes_equal(name, "base".as_bytes())
        || bytes_equal(name, "basefont".as_bytes())
        || bytes_equal(name, "blockquote".as_bytes())
        || bytes_equal(name, "body".as_bytes())
        || bytes_equal(name, "caption".as_bytes())
        || bytes_equal(name, "center".as_bytes())
        || bytes_equal(name, "col".as_bytes())
        || bytes_equal(name, "colgroup".as_bytes())
        || bytes_equal(name, "dd".as_bytes())
        || bytes_equal(name, "details".as_bytes())
        || bytes_equal(name, "dialog".as_bytes())
        || bytes_equal(name, "dir".as_bytes())
        || bytes_equal(name, "div".as_bytes())
        || bytes_equal(name, "dl".as_bytes())
        || bytes_equal(name, "dt".as_bytes())
        || bytes_equal(name, "fieldset".as_bytes())
        || bytes_equal(name, "figcaption".as_bytes())
        || bytes_equal(name, "figure".as_bytes())
        || bytes_equal(name, "footer".as_bytes())
        || bytes_equal(name, "form".as_bytes())
        || bytes_equal(name, "frame".as_bytes())
        || bytes_equal(name, "frameset".as_bytes())
        || bytes_equal(name, "h1".as_bytes())
        || bytes_equal(name, "h2".as_bytes())
        || bytes_equal(name, "h3".as_bytes())
        || bytes_equal(name, "h4".as_bytes())
        || bytes_equal(name, "h5".as_bytes())
        || bytes_equal(name, "h6".as_bytes())
        || bytes_equal(name, "head".as_bytes())
        || bytes_equal(name, "header".as_bytes())
        || bytes_equal(name, "hr".as_bytes())
        || bytes_equal(name, "html".as_bytes())
        || bytes_equal(name, "iframe".as_bytes())
        || bytes_equal(name, "legend".as_bytes())
        || bytes_equal(name, "li".as_bytes())
        || bytes_equal(name, "link".as_bytes())
        || bytes_equal(name, "main".as_bytes())
        || bytes_equal(name, "menu".as_bytes())
        || bytes_equal(name, "menuitem".as_bytes())
        || bytes_equal(name, "nav".as_bytes())
        || bytes_equal(name, "noframes".as_bytes())
        || bytes_equal(name, "ol".as_bytes())
        || bytes_equal(name, "optgroup".as_bytes())
        || bytes_equal(name, "option".as_bytes())
        || bytes_equal(name, "p".as_bytes())
        || bytes_equal(name, "param".as_bytes())
        || bytes_equal(name, "search".as_bytes())
        || bytes_equal(name, "section".as_bytes())
        || bytes_equal(name, "summary".as_bytes())
        || bytes_equal(name, "table".as_bytes())
        || bytes_equal(name, "tbody".as_bytes())
        || bytes_equal(name, "td".as_bytes())
        || bytes_equal(name, "tfoot".as_bytes())
        || bytes_equal(name, "th".as_bytes())
        || bytes_equal(name, "thead".as_bytes())
        || bytes_equal(name, "title".as_bytes())
        || bytes_equal(name, "tr".as_bytes())
        || bytes_equal(name, "track".as_bytes())
        || bytes_equal(name, "ul".as_bytes())
}

/// Bytes with ASCII capitals lowered.
pub open spec fn lowered(bytes: Seq<u8>) -> Seq<u8> {
    Seq::new(bytes.len(), |j: int| lower(bytes[j]))
}

fn to_lowercase_bytes(bytes: &[u8]) -> (out: Vec<u8>)
    ensures
        out@ == lowered(bytes@),
{
    let mut out: Vec<u8> = Vec::new();
    let mut index = 0usize;
    while index < bytes.len()
        invariant
            index <= bytes@.len(),
            out@ == lowered(bytes@.subrange(0, index as int)),
        decreases bytes@.len() - index,
    {
        out.push(to_ascii_lowercase(bytes[index]));
        index += 1;
        proof {
            assert(out@ =~= lowered(bytes@.subrange(0, index as int)));
        }
    }
    assert(bytes@.subrange(0, index as int) =~= bytes@);
    out
}

/// A raw-text tag name (`script`, `pre`, `style`, `textarea`) after the
/// `<`, followed by a space, tab, `>` or the end.
pub open spec fn raw_text_open(text: Seq<u8>, name: Seq<u8>) -> bool {
    &&& text.len() >= 1
    &&& starts_ignoring_case(text.subrange(1, text.len() as int), name)
    &&& match byte_at(text, 1 + name.len() as int) {
        None => true,
        Some(byte) => byte == SPACE || byte == TAB || byte == GREATER,
    }
}

/// What may follow a block tag's name: nothing, a space, tab, `>`, or `/>`.
pub open spec fn block_tag_ends(text: Seq<u8>, end: int) -> bool {
    match byte_at(text, end) {
        None => true,
        Some(byte) => byte == SPACE || byte == TAB || byte == GREATER || (byte == SLASH && byte_at(text, end + 1)
            == Some(GREATER)),
    }
}

/// Which of the seven HTML block start conditions a line's `<...`
/// meets, if any; the seventh cannot interrupt a paragraph.
pub open spec fn spec_html_block_start(text: Seq<u8>, in_paragraph: bool) -> Option<u8> {
    if !(text.len() > 0 && text[0] == LESS) {
        None
    } else if raw_text_open(text, "script".spec_bytes()) || raw_text_open(text, "pre".spec_bytes())
        || raw_text_open(text, "style".spec_bytes()) || raw_text_open(text, "textarea".spec_bytes()) {
        Some(1)
    } else if starts(text, "<!--".spec_bytes()) {
        Some(2)
    } else if starts(text, "<?".spec_bytes()) {
        Some(3)
    } else if starts(text, "<!".spec_bytes()) && text.len() > 2 && is_alpha(text[2]) {
        Some(4)
    } else if starts(text, "<![CDATA[".spec_bytes()) {
        Some(5)
    } else {
        let index: int = if byte_at(text, 1) == Some(SLASH) {
            2
        } else {
            1
        };
        let end = run_end(text, index, name_bytes());
        if end > index && is_block_tag(lowered(text.subrange(index, end))) && block_tag_ends(text, end) {
            Some(6)
        } else if in_paragraph {
            None
        } else {
            let tag = if byte_at(text, 1) == Some(SLASH) {
                spec_closing_tag(text)
            } else {
                spec_open_tag(text)
            };
            match tag {
                Some(length) => if all_blank(text.subrange(length as int, text.len() as int)) {
                    Some(7)
                } else {
                    None
                },
                None => None,
            }
        }
    }
}

fn raw_text_opens(rest: &[u8], name: &str) -> (opens: bool)
    requires
        rest@.len() >= 1,
    ensures
        opens == raw_text_open(rest@, name.spec_bytes()),
{
    if starts_with_ignore_case(slice_range(rest, 1, rest.len()), name) {
        let after = get(rest, 1 + name.as_bytes().len());
        match after {
            None => true,
            Some(byte) => byte == SPACE || byte == TAB || byte == GREATER,
        }
    } else {
        false
    }
}

/// The seven HTML block start conditions. `rest` starts at `<`.
pub fn scan_html_block_start(rest: &[u8], in_paragraph: bool) -> (kind: Option<u8>)
    ensures
        kind == spec_html_block_start(rest@, in_paragraph),
{
    if rest.len() == 0 || rest[0] != LESS {
        return None;
    }
    if raw_text_opens(rest, "script") || raw_text_opens(rest, "pre") || raw_text_opens(rest, "style")
        || raw_text_opens(rest, "textarea") {
        return Some(1);
    }
    if starts_with(rest, "<!--".as_bytes()) {
        return Some(2);
    }
    if starts_with(rest, "<?".as_bytes()) {
        return Some(3);
    }
    if starts_with(rest, "<!".as_bytes()) && rest.len() > 2 && is_ascii_alphabetic(rest[2]) {
        return Some(4);
    }
    if starts_with(rest, "<![CDATA[".as_bytes()) {
        return Some(5);
    }
    let closing = get(rest, 1) == Some(SLASH);
    let index: usize = if closing {
        2
    } else {
        1
    };
    let end = name_end(rest, index);
    proof {
        lemma_run_end_bounds(rest@, index as int, name_bytes());
    }
    if end > index {
        let lowered_name = to_lowercase_bytes(slice_range(rest, index, end));
        if block_tag(lowered_name.as_slice()) {
            let ends = match get(rest, end) {
                None => true,
                Some(byte) => byte == SPACE || byte == TAB || byte == GREATER || (byte == SLASH && get(
                    rest,
                    end + 1,
                ) == Some(GREATER)),
            };
            if ends {
                return Some(6);
            }
        }
    }
    if in_paragraph {
        return None;
    }
    let tag_length = if closing {
        scan_closing_tag(rest)
    } else {
        scan_open_tag(rest)
    };
    match tag_length {
        Some(length) => {
            proof {
                lemma_tag_fits(rest@);
            }
            if rest_is_whitespace(slice_range(rest, length, rest.len())) {
                Some(7)
            } else {
                None
            }
        },
        None => None,
    }
}


/// Whether `needle` occurs in `haystack`.
pub open spec fn contains(haystack: Seq<u8>, needle: Seq<u8>) -> bool {
    exists|at: int|
        0 <= at && at + needle.len() <= haystack.len() && #[trigger] haystack.subrange(at, at + needle.len())
            == needle
}

fn contains_bytes(haystack: &[u8], needle: &[u8]) -> (found: bool)
    ensures
        found == contains(haystack@, needle@),
{
    if needle.len() == 0 {
        assert(haystack@.subrange(0int, 0int + needle@.len()) =~= needle@);
        assert(contains(haystack@, needle@));
        return true;
    }
    let mut at = 0usize;
    while at <= haystack.len() && haystack.len() - at >= needle.len()
        invariant
            needle@.len() > 0,
            forall|k: int|
                0 <= k < at && k + needle@.len() <= haystack@.len() ==> #[trigger] haystack@.subrange(
                    k,
                    k + needle@.len(),
                ) != needle@,
        decreases haystack@.len() - at,
    {
        let rest = slice_range(haystack, at, haystack.len());
        if starts_with(rest, needle) {
            assert(haystack@.subrange(at as int, at + needle@.len()) =~= rest@.subrange(0, needle@.len() as int));
            return true;
        }
        assert(haystack@.subrange(at as int, at + needle@.len()) =~= rest@.subrange(0, needle@.len() as int));
        at += 1;
    }
    assert forall|k: int| 0 <= k && k + needle@.len() <= haystack@.len() implies #[trigger] haystack@.subrange(
        k,
        k + needle@.len(),
    ) != needle@ by {
        if k >= at {
            assert(false);
        }
    }
    false
}

/// Whether `line` ends an HTML block of `kind`, its text compared without
/// regard to ASCII case (kinds 6 and 7 end on blank lines, which the
/// block parser handles).
pub open spec fn spec_html_block_end(kind: u8, line: Seq<u8>) -> bool {
    let text = lowered(line);
    if kind == 1 {
        contains(text, "</script>".spec_bytes()) || contains(text, "</pre>".spec_bytes()) || contains(
            text,
            "</style>".spec_bytes(),
        ) || contains(text, "</textarea>".spec_bytes())
    } else if kind == 2 {
        contains(text, "-->".spec_bytes())
    } else if kind == 3 {
        contains(text, "?>".spec_bytes())
    } else if kind == 4 {
        contains(text, ">".spec_bytes())
    } else if kind == 5 {
        contains(text, "]]>".spec_bytes())
    } else {
        false
    }
}

/// Whether `line` ends an HTML block of `kind`.
pub fn scan_html_block_end(kind: u8, line: &[u8]) -> (ends: bool)
    ensures
        ends == spec_html_block_end(kind, line@),
{
    let lowered_line = to_lowercase_bytes(line);
    let text = lowered_line.as_slice();
    match kind {
        1 => contains_bytes(text, "</script>".as_bytes()) || contains_bytes(text, "</pre>".as_bytes())
            || contains_bytes(text, "</style>".as_bytes()) || contains_bytes(text, "</textarea>".as_bytes()),
        2 => contains_bytes(text, "-->".as_bytes()),
        3 => contains_bytes(text, "?>".as_bytes()),
        4 => contains_bytes(text, ">".as_bytes()),
        5 => contains_bytes(text, "]]>".as_bytes()),
        _ => false,
    }
}


// ----- characters -----

/// General category Zs (space separator): space, no-break space, Ogham
/// space mark, U+2000 to U+200A, narrow no-break space, medium
/// mathematical space and ideographic space.
pub open spec fn space_separator(ch: char) -> bool {
    let c = ch as u32;
    c == 0x20 || c == 0xA0 || c == 0x1680 || (0x2000 <= c <= 0x200A) || c == 0x202F || c == 0x205F || c == 0x3000
}

/// Unicode whitespace per the spec: `Zs` plus tab, LF, FF, CR.
pub open spec fn spec_unicode_whitespace(ch: char) -> bool {
    ch == '\t' || ch == '\n' || ch == '\u{0C}' || ch == '\r' || space_separator(ch)
}

pub fn is_unicode_whitespace(ch: char) -> (white: bool)
    ensures
        white == spec_unicode_whitespace(ch),
{
    let c = ch as u32;
    ch == '\t' || ch == '\n' || ch == '\u{0C}' || ch == '\r' || c == 0x20 || c == 0xA0 || c == 0x1680 || (0x2000
        <= c && c <= 0x200A) || c == 0x202F || c == 0x205F || c == 0x3000
}

/// ASCII punctuation as characters.
pub open spec fn is_punct_char(ch: char) -> bool {
    ('!' <= ch <= '/') || (':' <= ch <= '@') || ('[' <= ch <= '`') || ('{' <= ch <= '~')
}

/// Unicode punctuation per the spec: general categories P and S. With no
/// category table at hand, every non-alphanumeric, non-whitespace,
/// non-control character above ASCII counts.
pub open spec fn spec_unicode_punctuation(ch: char) -> bool {
    if (ch as u32) < 128 {
        is_punct_char(ch)
    } else {
        !alphanumeric(ch) && !white_space(ch) && !control(ch)
    }
}

pub fn is_unicode_punctuation(ch: char) -> (punctuation: bool)
    ensures
        punctuation == spec_unicode_punctuation(ch),
{
    if (ch as u32) < 128 {
        return ('!' <= ch && ch <= '/') || (':' <= ch && ch <= '@') || ('[' <= ch && ch <= '`') || ('{' <= ch
            && ch <= '~');
    }
    !is_alphanumeric(ch) && !is_whitespace(ch) && !is_control(ch)
}

/// Where the leading whitespace from `i` ends.
pub open spec fn solid_start(text: Seq<char>, i: int) -> int
    decreases text.len() - i,
{
    if 0 <= i < text.len() && white_space(text[i]) {
        solid_start(text, i + 1)
    } else {
        i
    }
}

/// Where the text before `end` stops once trailing whitespace is cut.
pub open spec fn solid_end(text: Seq<char>, end: int) -> int
    decreases end,
{
    if 0 < end <= text.len() && white_space(text[end - 1]) {
        solid_end(text, end - 1)
    } else {
        end
    }
}

/// Full case folding where it differs from lowercasing: `ß` is `ss`, the
/// long `ſ` is `s`, and the final `ς` is `σ`.
pub open spec fn fold_chars(lowered: Seq<char>) -> Seq<char>
    decreases lowered.len(),
{
    if lowered.len() == 0 {
        Seq::empty()
    } else {
        let first = lowered[0];
        let folded = if first == '\u{DF}' {
            seq!['s', 's']
        } else if first == '\u{17F}' {
            seq!['s']
        } else if first == '\u{3C2}' {
            seq!['\u{3C3}']
        } else {
            seq![first]
        };
        folded + fold_chars(lowered.drop_first())
    }
}

/// The normalized text of `text[start..end]` and whether a space is
/// pending: whitespace runs become one space, dropped at the ends, and
/// every other character is case-folded.
pub open spec fn normalized(text: Seq<char>, start: int, end: int) -> (Seq<char>, bool)
    decreases end - start,
{
    if end <= start {
        (Seq::empty(), false)
    } else {
        let (out, pending) = normalized(text, start, end - 1);
        let ch = text[end - 1];
        if white_space(ch) {
            (out, true)
        } else {
            (out + (if pending {
                seq![' ']
            } else {
                Seq::empty()
            }) + fold_chars(lowercase(ch)), false)
        }
    }
}

/// The normalized form of a link label.
pub open spec fn spec_normalize_label(label: Seq<char>) -> Seq<char> {
    let start = solid_start(label, 0);
    let end = solid_end(label, label.len() as int);
    if start < end {
        normalized(label, start, end).0
    } else {
        Seq::empty()
    }
}

proof fn lemma_solid_bounds(text: Seq<char>, i: int, end: int)
    requires
        0 <= i <= text.len(),
        0 <= end <= text.len(),
    ensures
        i <= solid_start(text, i) <= text.len(),
        0 <= solid_end(text, end) <= end,
    decreases text.len() - i + end,
{
    if i < text.len() && white_space(text[i]) {
        lemma_solid_bounds(text, i + 1, end);
    } else if 0 < end && white_space(text[end - 1]) {
        lemma_solid_bounds(text, i, end - 1);
    }
}

fn push_folded(out: &mut String, lowered: &Vec<char>)
    ensures
        final(out)@ == old(out)@ + fold_chars(lowered@),
{
    let mut index: usize = 0;
    proof {
        assert(lowered@.subrange(0, lowered@.len() as int) =~= lowered@);
    }
    while index < lowered.len()
        invariant
            index <= lowered@.len(),
            out@ + fold_chars(lowered@.subrange(index as int, lowered@.len() as int)) == old(out)@ + fold_chars(
                lowered@,
            ),
        decreases lowered@.len() - index,
    {
        let ghost rest = lowered@.subrange(index as int, lowered@.len() as int);
        let ghost before = out@;
        let ch = lowered[index];
        if ch == '\u{DF}' {
            push_char(out, 's');
            push_char(out, 's');
        } else if ch == '\u{17F}' {
            push_char(out, 's');
        } else if ch == '\u{3C2}' {
            push_char(out, '\u{3C3}');
        } else {
            push_char(out, ch);
        }
        index += 1;
        proof {
            assert(rest.drop_first() =~= lowered@.subrange(index as int, lowered@.len() as int));
            assert(rest[0] == ch);
            assert(out@ + fold_chars(rest.drop_first()) =~= before + fold_chars(rest));
        }
    }
    proof {
        assert(lowered@.subrange(index as int, lowered@.len() as int) =~= Seq::<char>::empty());
        assert(out@ + Seq::<char>::empty() =~= out@);
    }
}

/// Case-folds and collapses interior whitespace, per the link label rules.
pub fn normalize_label(label: &str) -> (normal: String)
    ensures
        normal@ == spec_normalize_label(label@),
{
    let chars = chars_of(label);
    let length = chars.len();
    let mut start: usize = 0;
    while start < length && is_whitespace(chars[start])
        invariant
            chars@ == label@,
            length == chars@.len(),
            start <= length,
            solid_start(label@, 0) == solid_start(label@, start as int),
        decreases length - start,
    {
        start += 1;
    }
    let mut end = length;
    while end > 0 && is_whitespace(chars[end - 1])
        invariant
            chars@ == label@,
            length == chars@.len(),
            end <= length,
            solid_end(label@, length as int) == solid_end(label@, end as int),
        decreases end,
    {
        end -= 1;
    }
    let mut normal = String::new();
    if start >= end {
        return normal;
    }
    let mut pending = false;
    let mut index = start;
    while index < end
        invariant
            chars@ == label@,
            length == chars@.len(),
            start <= index <= end <= length,
            (normal@, pending) == normalized(label@, start as int, index as int),
        decreases end - index,
    {
        let ch = chars[index];
        if is_whitespace(ch) {
            pending = true;
        } else {
            if pending {
                push_char(&mut normal, ' ');
                pending = false;
            }
            let lowered = to_lowercase(ch);
            push_folded(&mut normal, &lowered);
        }
        index += 1;
        proof {
            let (out, was_pending) = normalized(label@, start as int, index - 1);
            if !white_space(ch) {
                if was_pending {
                    assert(normal@ =~= out + seq![' '] + fold_chars(lowercase(ch)));
                } else {
                    assert(normal@ =~= out + Seq::<char>::empty() + fold_chars(lowercase(ch)));
                }
            }
        }
    }
    normal
}

// ----- character references -----

/// What a reference to zero or to no character stands for.
pub const REPLACEMENT: char = '\u{FFFD}';

/// The value of a digit of base 10, or of base 16 with `hex`.
pub open spec fn digit_of(byte: u8, hex: bool) -> Option<u32> {
    if 0x30 <= byte <= 0x39 {
        Some((byte - 0x30) as u32)
    } else if hex && 0x61 <= byte <= 0x66 {
        Some((byte - 0x61 + 10) as u32)
    } else if hex && 0x41 <= byte <= 0x46 {
        Some((byte - 0x41 + 10) as u32)
    } else {
        None
    }
}

fn digit_value(byte: u8, hex: bool) -> (digit: Option<u32>)
    ensures
        digit == digit_of(byte, hex),
{
    if 0x30 <= byte && byte <= 0x39 {
        Some((byte - 0x30) as u32)
    } else if hex && 0x61 <= byte && byte <= 0x66 {
        Some((byte - 0x61 + 10) as u32)
    } else if hex && 0x41 <= byte && byte <= 0x46 {
        Some((byte - 0x41 + 10) as u32)
    } else {
        None
    }
}

/// The base of a numeric reference's digits.
pub open spec fn radix_of(hex: bool) -> nat {
    if hex {
        16
    } else {
        10
    }
}

/// The digits of a numeric reference from `i` on, `digits` of them already
/// read into `value`: the value and where the digits end, or `None` once
/// there are more than six hexadecimal or seven decimal digits.
pub open spec fn reference_digits(text: Seq<u8>, hex: bool, i: int, value: nat, digits: int) -> Option<(nat, int)>
    decreases text.len() - i,
{
    if 0 <= i < text.len() && digit_of(text[i], hex) is Some {
        if digits + 1 > (if hex { 6int } else { 7int }) {
            None
        } else {
            reference_digits(
                text,
                hex,
                i + 1,
                (value * radix_of(hex) + digit_of(text[i], hex)->Some_0) as nat,
                digits + 1,
            )
        }
    } else {
        Some((value, i))
    }
}

/// The end of a run of ASCII letters and digits from `i`, or `None` when it
/// reaches past index 32.
pub open spec fn name_run(text: Seq<u8>, i: int) -> Option<int>
    decreases text.len() - i,
{
    if 0 <= i < text.len() && is_alnum(text[i]) {
        if i + 1 > 32 {
            None
        } else {
            name_run(text, i + 1)
        }
    } else {
        Some(i)
    }
}

/// ASCII bytes as characters.
pub open spec fn ascii_chars(bytes: Seq<u8>) -> Seq<char> {
    Seq::new(bytes.len(), |i: int| bytes[i] as char)
}

/// The replacement a table of named entities gives for `name`: that of its
/// first entry with the name.
pub open spec fn lookup_entity(entities: Seq<(&str, &str)>, name: Seq<char>) -> Option<Seq<char>>
    decreases entities.len(),
{
    if entities.len() == 0 {
        None
    } else if entities[0].0@ == name {
        Some(entities[0].1@)
    } else {
        lookup_entity(entities.drop_first(), name)
    }
}

/// A character reference at the start of `text` (`&` first): numeric,
/// `&#` then up to seven decimal digits or `&#x` then up to six hexadecimal
/// ones, or named, up to 31 letters and digits found in `entities`; `;`
/// ends it. A number that is zero or names no character gives U+FFFD.
/// Gives the replacement and the bytes the reference takes.
pub open spec fn spec_decode_entity(text: Seq<u8>, entities: Seq<(&str, &str)>) -> Option<(Seq<char>, int)> {
    if text.len() == 0 || text[0] != 0x26 {
        None
    } else if text.len() > 1 && text[1] == 0x23 {
        let hex = text.len() > 2 && (text[2] == 0x78 || text[2] == 0x58);
        let start: int = if hex {
            3
        } else {
            2
        };
        match reference_digits(text, hex, start, 0, 0) {
            None => None,
            Some((value, end)) => if end == start || end >= text.len() || text[end] != 0x3B {
                None
            } else {
                let ch = if value != 0 && vstd::utf8::is_scalar(value as u32) {
                    (value as u32) as char
                } else {
                    REPLACEMENT
                };
                Some((seq![ch], end + 1))
            },
        }
    } else {
        match name_run(text, 1) {
            None => None,
            Some(end) => if end == 1 || end >= text.len() || text[end] != 0x3B {
                None
            } else {
                match lookup_entity(entities, ascii_chars(text.subrange(1, end))) {
                    None => None,
                    Some(replacement) => Some((replacement, end + 1)),
                }
            },
        }
    }
}

/// `char::from_u32`: the character of a Unicode scalar value, and `None`
/// for any other number.
#[verifier::external_body]
fn char_from_u32(value: u32) -> (ch: Option<char>)
    ensures
        ch is Some <==> vstd::utf8::is_scalar(value),
        ch matches Some(c) ==> c as u32 == value,
{
    char::from_u32(value)
}

/// Whether two strings hold the same characters.
fn same_text(a: &str, b: &str) -> (same: bool)
    ensures
        same == (a@ == b@),
{
    a.to_owned() == b.to_owned()
}

fn find_entity(entities: &[(&str, &str)], name: &str) -> (found: Option<String>)
    ensures
        match found {
            Some(text) => lookup_entity(entities@, name@) == Some(text@),
            None => lookup_entity(entities@, name@) is None,
        },
{
    let mut index: usize = 0;
    assert(entities@.subrange(0, entities@.len() as int) =~= entities@);
    while index < entities.len()
        invariant
            index <= entities@.len(),
            lookup_entity(entities@, name@) == lookup_entity(entities@.subrange(index as int, entities@.len() as int), name@),
        decreases entities@.len() - index,
    {
        let ghost rest = entities@.subrange(index as int, entities@.len() as int);
        assert(rest.drop_first() =~= entities@.subrange(index + 1, entities@.len() as int));
        if same_text(entities[index].0, name) {
            return Some(entities[index].1.to_owned());
        }
        index += 1;
    }
    None
}

/// Powers of the base, to bound the digits read so far.
pub open spec fn power(base: nat, n: nat) -> nat
    decreases n,
{
    if n == 0 {
        1
    } else {
        base * power(base, (n - 1) as nat)
    }
}

proof fn lemma_power_bound(hex: bool, n: nat)
    requires
        n <= (if hex { 6nat } else { 7nat }),
    ensures
        power(radix_of(hex), n) <= 16777216,
{
    reveal_with_fuel(power, 8);
    if hex {
        assert(n == 0 || n == 1 || n == 2 || n == 3 || n == 4 || n == 5 || n == 6);
    } else {
        assert(n == 0 || n == 1 || n == 2 || n == 3 || n == 4 || n == 5 || n == 6 || n == 7);
    }
}

/// Decodes the character reference starting at `text[0] == '&'`, looking
/// names up in `entities`. Returns the replacement and the number of bytes
/// consumed.
pub fn decode_entity(text: &[u8], entities: &[(&str, &str)]) -> (decoded: Option<(String, usize)>)
    ensures
        match (decoded, spec_decode_entity(text@, entities@)) {
            (None, None) => true,
            (Some((found, length)), Some((expected, consumed))) => found@ == expected && length == consumed,
            _ => false,
        },
{
    if text.len() == 0 || text[0] != 0x26 {
        return None;
    }
    if text.len() > 1 && text[1] == 0x23 {
        let hex = text.len() > 2 && (text[2] == 0x78 || text[2] == 0x58);
        let start: usize = if hex {
            3
        } else {
            2
        };
        let max: usize = if hex {
            6
        } else {
            7
        };
        let radix: u32 = if hex {
            16
        } else {
            10
        };
        let mut index = start;
        let mut value: u32 = 0;
        let mut digits: usize = 0;
        proof {
            reveal_with_fuel(power, 1);
        }
        loop
            invariant
                text@.len() > 1 && text@[0] == 0x26 && text@[1] == 0x23,
                hex == (text@.len() > 2 && (text@[2] == 0x78 || text@[2] == 0x58)),
                start == (if hex { 3int } else { 2int }),
                start <= index <= text@.len(),
                digits == index - start,
                digits <= max,
                max == (if hex { 6int } else { 7int }),
                radix == radix_of(hex),
                value < power(radix_of(hex), digits as nat),
                reference_digits(text@, hex, start as int, 0, 0) == reference_digits(
                    text@,
                    hex,
                    index as int,
                    value as nat,
                    digits as int,
                ),
            ensures
                start <= index <= text@.len(),
                digits == index - start,
                reference_digits(text@, hex, start as int, 0, 0) == Some((value as nat, index as int)),
            decreases text@.len() - index,
        {
            if index >= text.len() {
                break;
            }
            let digit = match digit_value(text[index], hex) {
                Some(digit) => digit,
                None => break,
            };
            if digits + 1 > max {
                assert(reference_digits(text@, hex, index as int, value as nat, digits as int) is None);
                return None;
            }
            proof {
                lemma_power_bound(hex, (digits + 1) as nat);
                let p = power(radix_of(hex), digits as nat);
                assert(power(radix_of(hex), (digits + 1) as nat) == radix_of(hex) * p);
                assert(value * radix_of(hex) + digit < radix_of(hex) * p) by (nonlinear_arith)
                    requires
                        value < p,
                        digit < radix_of(hex),
                ;
            }
            value = value * radix + digit;
            digits += 1;
            index += 1;
        }
        if digits == 0 || index >= text.len() || text[index] != 0x3B {
            return None;
        }
        let ch = if value != 0 {
            match char_from_u32(value) {
                Some(ch) => {
                    proof {
                        vstd::utf8::char_u32_cast(ch, value);
                    }
                    ch
                },
                None => REPLACEMENT,
            }
        } else {
            REPLACEMENT
        };
        let mut out = String::new();
        push_char(&mut out, ch);
        return Some((out, index + 1));
    }
    let mut index: usize = 1;
    while index < text.len() && is_ascii_alphanumeric_byte(text[index])
        invariant
            1 <= index <= 32,
            index <= text@.len(),
            name_run(text@, 1) == name_run(text@, index as int),
        decreases text@.len() - index,
    {
        index += 1;
        if index > 32 {
            return None;
        }
    }
    if index == 1 || index >= text.len() || text[index] != 0x3B {
        return None;
    }
    let mut name = String::new();
    let mut at: usize = 1;
    while at < index
        invariant
            1 <= at <= index < text@.len(),
            name@ == ascii_chars(text@.subrange(1, at as int)),
        decreases index - at,
    {
        let ghost before = name@;
        push_char(&mut name, text[at] as char);
        assert(name@ =~= ascii_chars(text@.subrange(1, at + 1)));
        at += 1;
    }
    match find_entity(entities, name.as_str()) {
        Some(replacement) => Some((replacement, index + 1)),
        None => None,
    }
}

fn is_ascii_alphanumeric_byte(byte: u8) -> (found: bool)
    ensures
        found == is_alnum(byte),
{
    (0x30 <= byte && byte <= 0x39) || (0x41 <= byte && byte <= 0x5A) || (0x61 <= byte && byte <= 0x7A)
}

/// Where the digits of a numeric reference end: not before they start, and
/// within the text.
proof fn lemma_reference_digits_end(text: Seq<u8>, hex: bool, i: int, value: nat, digits: int)
    requires
        0 <= i <= text.len(),
    ensures
        reference_digits(text, hex, i, value, digits) matches Some((_, end)) ==> i <= end <= text.len(),
    decreases text.len() - i,
{
    if 0 <= i < text.len() && digit_of(text[i], hex) is Some && digits + 1 <= (if hex { 6int } else { 7int }) {
        lemma_reference_digits_end(
            text,
            hex,
            i + 1,
            (value * radix_of(hex) + digit_of(text[i], hex)->Some_0) as nat,
            digits + 1,
        );
    }
}

proof fn lemma_name_run_end(text: Seq<u8>, i: int)
    requires
        0 <= i <= text.len(),
    ensures
        name_run(text, i) matches Some(end) ==> i <= end <= text.len(),
    decreases text.len() - i,
{
    if 0 <= i < text.len() && is_alnum(text[i]) && i + 1 <= 32 {
        lemma_name_run_end(text, i + 1);
    }
}

/// A reference takes at least two bytes, within the text, and ends with `;`.
pub proof fn lemma_entity_length(text: Seq<u8>, entities: Seq<(&str, &str)>)
    ensures
        spec_decode_entity(text, entities) matches Some((_, length)) ==> 2 <= length <= text.len() && text[length
            - 1] == 0x3B,
{
    if text.len() > 1 && text[0] == 0x26 && text[1] == 0x23 {
        let hex = text.len() > 2 && (text[2] == 0x78 || text[2] == 0x58);
        lemma_reference_digits_end(text, hex, if hex { 3 } else { 2 }, 0, 0);
    } else if text.len() > 0 {
        lemma_name_run_end(text, 1);
    }
}

/// The text whose UTF-8 bytes are `bytes`, from byte `i` on, the bytes from
/// `segment` to `i` not yet written, with backslash escapes of ASCII
/// punctuation resolved and character references decoded; anything else is
/// kept as it is.
pub open spec fn unescaped(bytes: Seq<u8>, entities: Seq<(&str, &str)>, i: int, segment: int) -> Seq<char>
    decreases bytes.len() - i,
{
    if i < 0 || i >= bytes.len() {
        decode_utf8(bytes.subrange(segment, bytes.len() as int))
    } else if bytes[i] == 0x5C && i + 1 < bytes.len() && is_punct(bytes[i + 1]) {
        decode_utf8(bytes.subrange(segment, i)) + seq![bytes[i + 1] as char] + unescaped(bytes, entities, i + 2, i + 2)
    } else if bytes[i] == 0x26 {
        proof {
            lemma_entity_length(bytes.subrange(i, bytes.len() as int), entities);
        }
        match spec_decode_entity(bytes.subrange(i, bytes.len() as int), entities) {
            Some((replacement, length)) => decode_utf8(bytes.subrange(segment, i)) + replacement + unescaped(
                bytes,
                entities,
                i + length,
                i + length,
            ),
            None => unescaped(bytes, entities, i + 1, segment),
        }
    } else {
        unescaped(bytes, entities, i + 1, segment)
    }
}

fn tail_bytes<'a>(bytes: &'a [u8], start: usize) -> (tail: &'a [u8])
    requires
        start <= bytes@.len(),
    ensures
        tail@ == bytes@.subrange(start as int, bytes@.len() as int),
{
    &bytes[start..bytes.len()]
}

/// Resolves backslash escapes and character references, looking names up
/// in `entities`.
pub fn unescape_and_decode(text: &str, entities: &[(&str, &str)]) -> (decoded: String)
    ensures
        decoded@ == unescaped(text.spec_bytes(), entities@, 0, 0),
{
    let bytes = text.as_bytes();
    let mut out = String::new();
    let mut index: usize = 0;
    let mut segment_start: usize = 0;
    proof {
        vstd::utf8::encode_utf8_valid_utf8(text@);
        vstd::utf8::is_char_boundary_start_end_of_seq(bytes@);
        assert(out@ + unescaped(text.spec_bytes(), entities@, 0, 0) =~= unescaped(text.spec_bytes(), entities@, 0, 0));
    }
    while index < bytes.len()
        invariant
            bytes@ == text.spec_bytes(),
            vstd::utf8::valid_utf8(bytes@),
            segment_start <= index <= bytes@.len(),
            on_boundary(text, segment_start as int),
            out@ + unescaped(text.spec_bytes(), entities@, index as int, segment_start as int) == unescaped(text.spec_bytes(), entities@, 0, 0),
        decreases bytes@.len() - index,
    {
        let byte = bytes[index];
        let ghost at = index as int;
        let ghost segment = segment_start as int;
        let ghost before = out@;
        if byte == 0x5C && index + 1 < bytes.len() && is_ascii_punctuation(bytes[index + 1]) {
            proof {
                lemma_boundary_at_ascii(bytes@, index as int);
                lemma_boundary_after_ascii(bytes@, index + 2);
            }
            let piece = slice_str(text, segment_start, index);
            out.append(piece);
            push_char(&mut out, bytes[index + 1] as char);
            index += 2;
            segment_start = index;
            proof {
                let rest = unescaped(text.spec_bytes(), entities@, index as int, index as int);
                assert(unescaped(text.spec_bytes(), entities@, at, segment) == decode_utf8(bytes@.subrange(segment, at)) + seq![
                    bytes@[at + 1] as char,
                ] + rest);
                assert(out@ + rest =~= before + (decode_utf8(bytes@.subrange(segment, at)) + seq![bytes@[at + 1] as char]
                    + rest));
            }
        } else if byte == 0x26 {
            let tail = tail_bytes(bytes, index);
            proof {
                lemma_entity_length(tail@, entities@);
            }
            match decode_entity(tail, entities) {
                Some((replacement, consumed)) => {
                    proof {
                        lemma_boundary_at_ascii(bytes@, index as int);
                        assert(bytes@[index + consumed - 1] == tail@[consumed - 1]);
                        lemma_boundary_after_ascii(bytes@, index + consumed);
                    }
                    let piece = slice_str(text, segment_start, index);
                    out.append(piece);
                    out.append(replacement.as_str());
                    index += consumed;
                    segment_start = index;
                    proof {
                        let rest = unescaped(text.spec_bytes(), entities@, index as int, index as int);
                        assert(unescaped(text.spec_bytes(), entities@, at, segment) == decode_utf8(bytes@.subrange(segment, at))
                            + replacement@ + rest);
                        assert(out@ + rest =~= before + (decode_utf8(bytes@.subrange(segment, at)) + replacement@ + rest));
                    }
                },
                None => {
                    index += 1;
                },
            }
        } else {
            index += 1;
        }
    }
    out.append(slice_str(text, segment_start, bytes.len()));
    out
}

// ----- link reference definitions -----

proof fn lemma_label_close(text: Seq<u8>, i: int)
    ensures
        label_close(text, i) matches Some(end) ==> i < end <= text.len() && text[end - 1] == CLOSE_BRACKET,
    decreases text.len() - i,
{
    if 1 <= i < text.len() {
        if text[i] == BACKSLASH {
            if i + 2 <= text.len() {
                lemma_label_close(text, i + 2);
            }
        } else if text[i] != OPEN_BRACKET && text[i] != CLOSE_BRACKET {
            lemma_label_close(text, i + 1);
        }
    }
}

proof fn lemma_pointy_close(text: Seq<u8>, i: int)
    ensures
        pointy_close(text, i) matches Some(close) ==> i <= close < text.len() && text[close] == GREATER,
    decreases text.len() - i,
{
    if 0 <= i < text.len() {
        if text[i] == BACKSLASH {
            if i + 2 <= text.len() {
                lemma_pointy_close(text, i + 2);
            }
        } else if text[i] != NEWLINE && text[i] != LESS && text[i] != GREATER {
            lemma_pointy_close(text, i + 1);
        }
    }
}

proof fn lemma_plain_end(text: Seq<u8>, i: int, depth: int)
    requires
        0 <= i <= text.len(),
    ensures
        plain_end(text, i, depth) matches Some(end) ==> i <= end <= text.len() && (end < text.len() ==> text[end]
            < 0x80),
    decreases text.len() - i,
{
    if i < text.len() {
        if escapes_punct(text, i) {
            lemma_plain_end(text, i + 2, depth);
        } else if text[i] == OPEN_PAREN {
            if depth + 1 <= 32 {
                lemma_plain_end(text, i + 1, depth + 1);
            }
        } else if text[i] == CLOSE_PAREN {
            if depth != 0 {
                lemma_plain_end(text, i + 1, depth - 1);
            }
        } else if text[i] > SPACE {
            lemma_plain_end(text, i + 1, depth);
        }
    }
}

proof fn lemma_title_close(text: Seq<u8>, i: int, close: u8, paren: bool)
    ensures
        title_close(text, i, close, paren) matches Some(end) ==> i <= end < text.len() && text[end] == close,
    decreases text.len() - i,
{
    if 0 <= i < text.len() {
        if escapes_punct(text, i) {
            lemma_title_close(text, i + 2, close, paren);
        } else if text[i] != close && !(paren && text[i] == OPEN_PAREN) {
            lemma_title_close(text, i + 1, close, paren);
        }
    }
}

proof fn lemma_skip_blank_bounds(text: Seq<u8>, i: int, seen_newline: bool)
    requires
        0 <= i <= text.len(),
    ensures
        i <= skip_blank(text, i, seen_newline) <= text.len(),
    decreases text.len() - i,
{
    if i < text.len() {
        if text[i] == SPACE || text[i] == TAB {
            lemma_skip_blank_bounds(text, i + 1, seen_newline);
        } else if text[i] == NEWLINE && !seen_newline {
            lemma_skip_blank_bounds(text, i + 1, true);
        }
    }
}

proof fn lemma_skip_blank(text: Seq<u8>, i: int, seen_newline: bool)
    requires
        1 <= i <= text.len(),
        text[i - 1] < 0x80,
    ensures
        i <= skip_blank(text, i, seen_newline) <= text.len(),
        text[skip_blank(text, i, seen_newline) - 1] < 0x80,
    decreases text.len() - i,
{
    if i < text.len() {
        if text[i] == SPACE || text[i] == TAB {
            lemma_skip_blank(text, i + 1, seen_newline);
        } else if text[i] == NEWLINE && !seen_newline {
            lemma_skip_blank(text, i + 1, true);
        }
    }
}

/// A link reference definition at the start of the text whose UTF-8 bytes
/// are `bytes`: a label that is not blank, `:`, a destination, and an
/// optional title set off by whitespace, with nothing but spaces after on
/// its line. Gives the label, the destination and the title with their
/// escapes and references resolved, and where the definition's last line
/// ends.
pub open spec fn spec_reference_definition(bytes: Seq<u8>, entities: Seq<(&str, &str)>) -> Option<
    (Seq<char>, Seq<char>, Seq<char>, int),
> {
    match spec_link_label(bytes) {
        None => None,
        Some(label_length) => {
            let close = label_length as int;
            let label = decode_utf8(bytes.subrange(1, close - 1));
            if forall|k: int| 0 <= k < label.len() ==> white_space(#[trigger] label[k]) {
                None
            } else if close >= bytes.len() || bytes[close] != COLON {
                None
            } else {
                let index = skip_blank(bytes, close + 1, false);
                match spec_link_destination(bytes.subrange(index, bytes.len() as int)) {
                    None => None,
                    Some((start, end, consumed)) => if consumed == 0 && !(index < bytes.len() && bytes[index] == LESS) {
                        None
                    } else {
                        let destination = unescaped(bytes.subrange(index + start, index + end), entities, 0, 0);
                        let after_destination = index + consumed;
                        let before_title = skip_blank(bytes, after_destination, false);
                        let titled = if before_title > after_destination {
                            match spec_link_title(bytes.subrange(before_title, bytes.len() as int)) {
                                Some((title_start, title_end, title_consumed)) => if blank_to_line_end(
                                    bytes,
                                    before_title + title_consumed,
                                ) {
                                    Some(
                                        (
                                            unescaped(
                                                bytes.subrange(before_title + title_start, before_title + title_end),
                                                entities,
                                                0,
                                                0,
                                            ),
                                            before_title + title_consumed,
                                        ),
                                    )
                                } else {
                                    None
                                },
                                None => None,
                            }
                        } else {
                            None
                        };
                        let (title, last) = match titled {
                            Some(found) => found,
                            None => (Seq::<char>::empty(), after_destination),
                        };
                        if last == after_destination && !blank_to_line_end(bytes, after_destination) {
                            None
                        } else {
                            Some((label, destination, title, line_end(bytes, last)))
                        }
                    },
                }
            }
        },
    }
}

/// Whether every character of `text` is whitespace.
fn all_whitespace(text: &str) -> (blank: bool)
    ensures
        blank == forall|k: int| 0 <= k < text@.len() ==> white_space(#[trigger] text@[k]),
{
    let chars = chars_of(text);
    let mut index: usize = 0;
    while index < chars.len()
        invariant
            chars@ == text@,
            index <= chars@.len(),
            forall|k: int| 0 <= k < index ==> white_space(#[trigger] text@[k]),
        decreases chars@.len() - index,
    {
        if !is_whitespace(chars[index]) {
            return false;
        }
        index += 1;
    }
    true
}

/// A link reference definition at the start of `text`, looking entity
/// names up in `entities`. Returns the label, decoded destination, decoded
/// title, and bytes consumed through the end of its last line.
pub fn parse_reference_definition(text: &str, entities: &[(&str, &str)]) -> (found: Option<
    (String, String, String, usize),
>)
    ensures
        match (found, spec_reference_definition(text.spec_bytes(), entities@)) {
            (None, None) => true,
            (Some((label, destination, title, consumed)), Some((l, d, t, c))) => label@ == l && destination@ == d
                && title@ == t && consumed == c,
            _ => false,
        },
{
    let bytes = text.as_bytes();
    proof {
        vstd::utf8::encode_utf8_valid_utf8(text@);
    }
    let label_length = match scan_link_label(bytes) {
        Some(length) => length,
        None => return None,
    };
    proof {
        lemma_label_close(bytes@, 1);
        assert(spec_link_label(bytes@) == Some(label_length));
        match label_close(bytes@, 1) {
            Some(close) => {
                assert(1 < close <= bytes@.len());
                assert(bytes@.len() == bytes.len());
                assert(spec_link_label(bytes@) == Some(close as usize));
                assert(label_length == close);
            },
            None => {},
        }
        lemma_boundary_after_ascii(bytes@, 1);
        lemma_boundary_at_ascii(bytes@, label_length - 1);
    }
    let label = slice_str(text, 1, label_length - 1);
    if all_whitespace(label) {
        return None;
    }
    if label_length >= bytes.len() || bytes[label_length] != COLON {
        return None;
    }
    let mut index = label_length + 1;
    index = skip_spaces_and_one_newline(bytes, index);
    proof {
        lemma_skip_blank(bytes@, label_length + 1, false);
    }
    let tail = tail_bytes(bytes, index);
    let (dest_start, dest_end, dest_consumed) = match scan_link_destination(tail) {
        Some(found) => found,
        None => return None,
    };
    if dest_consumed == 0 && !(index < bytes.len() && bytes[index] == LESS) {
        return None;
    }
    proof {
        if tail@.len() > 0 && tail@[0] == LESS {
            lemma_pointy_close(tail@, 1);
            assert(bytes@[index as int] == tail@[0]);
            lemma_boundary_after_ascii(bytes@, index + 1);
            assert(bytes@[index + dest_end] == tail@[dest_end as int]);
            lemma_boundary_at_ascii(bytes@, index + dest_end);
        } else {
            lemma_plain_end(tail@, 0, 0);
            lemma_boundary_after_ascii(bytes@, index as int);
            if index + dest_end < bytes@.len() {
                assert(bytes@[index + dest_end] == tail@[dest_end as int]);
            }
            lemma_boundary_at_ascii(bytes@, index + dest_end);
        }
    }
    let destination_text = slice_str(text, index + dest_start, index + dest_end);
    let destination = unescape_and_decode(destination_text, entities);
    index += dest_consumed;
    let after_destination = index;
    let before_title = skip_spaces_and_one_newline(bytes, index);
    proof {
        lemma_skip_blank_bounds(bytes@, index as int, false);
    }
    let mut title = String::new();
    let mut end = after_destination;
    let had_whitespace = before_title > after_destination;
    let ghost titled: Option<(Seq<char>, int)> = None;
    if had_whitespace {
        let title_tail = tail_bytes(bytes, before_title);
        if let Some((title_start, title_end, title_consumed)) = scan_link_title(title_tail) {
            proof {
                let close = if title_tail@[0] == OPEN_PAREN { CLOSE_PAREN } else { title_tail@[0] };
                lemma_title_close(title_tail@, 1, close, title_tail@[0] == OPEN_PAREN);
            }
            let after_title = before_title + title_consumed;
            if rest_of_line_is_blank(bytes, after_title) {
                proof {
                    let close = if title_tail@[0] == OPEN_PAREN { CLOSE_PAREN } else { title_tail@[0] };
                    lemma_title_close(title_tail@, 1, close, title_tail@[0] == OPEN_PAREN);
                    assert(bytes@[before_title as int] == title_tail@[0]);
                    lemma_boundary_after_ascii(bytes@, before_title + 1);
                    assert(bytes@[before_title + title_end] == title_tail@[title_end as int]);
                    lemma_boundary_at_ascii(bytes@, before_title + title_end);
                }
                let title_text = slice_str(text, before_title + title_start, before_title + title_end);
                title = unescape_and_decode(title_text, entities);
                end = after_title;
            }
        }
    }
    if end == after_destination && !rest_of_line_is_blank(bytes, after_destination) {
        return None;
    }
    let consumed = end_of_line(bytes, end);
    Some((label.to_owned(), destination, title, consumed))
}

} // verus!
