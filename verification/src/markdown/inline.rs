//! Inline content: the GFM tag filter over raw HTML.

use vstd::prelude::*;
use vstd::string::StringSliceAdditionalSpecFns;
use vstd::utf8::is_char_boundary;
use crate::markdown::scan::{is_alnum, is_ascii_alphanumeric, lower, starts_ignoring_case};
use crate::message::{chars_of, push_char};
use crate::scan::{any_of3, find_any_of3};
use crate::markdown::scan::slice_range;

verus! {

pub open spec fn is_ascii_letter(ch: char) -> bool {
    ('a' <= ch <= 'z') || ('A' <= ch <= 'Z')
}

/// The end of the run of ASCII letters from `i`.
pub open spec fn letters_end(text: Seq<char>, i: int) -> int
    decreases text.len() - i,
{
    if 0 <= i < text.len() && is_ascii_letter(text[i]) {
        letters_end(text, i + 1)
    } else {
        i
    }
}

proof fn lemma_letters_end(text: Seq<char>, i: int)
    requires
        0 <= i,
    ensures
        i <= letters_end(text, i),
        i <= text.len() ==> letters_end(text, i) <= text.len(),
    decreases text.len() - i,
{
    if 0 <= i < text.len() && is_ascii_letter(text[i]) {
        lemma_letters_end(text, i + 1);
    }
}

/// `name` equals the lowercase `tag` with ASCII case ignored.
pub open spec fn same_ignoring_case(name: Seq<char>, tag: Seq<char>) -> bool {
    name.len() == tag.len() && forall|i: int|
        0 <= i < name.len() ==> #[trigger] name[i] == tag[i] || (('A' <= name[i] <= 'Z') && name[i] as u32 + 32
            == tag[i] as u32)
}

/// Tags the GFM tag filter neutralizes.
pub open spec fn is_filtered_tag(name: Seq<char>) -> bool {
    same_ignoring_case(name, "title"@) || same_ignoring_case(name, "textarea"@) || same_ignoring_case(name, "style"@)
        || same_ignoring_case(name, "xmp"@) || same_ignoring_case(name, "iframe"@) || same_ignoring_case(
        name,
        "noembed"@,
    ) || same_ignoring_case(name, "noframes"@) || same_ignoring_case(name, "script"@) || same_ignoring_case(
        name,
        "plaintext"@,
    )
}

/// Whether the `<` at `i` opens or closes a filtered tag: its name, ended
/// by whitespace, `>`, `/` or the end of the text.
pub open spec fn filtered_at(text: Seq<char>, i: int) -> bool {
    &&& 0 <= i < text.len()
    &&& text[i] == '<'
    &&& {
        let name_start = if i + 1 < text.len() && text[i + 1] == '/' {
            i + 2
        } else {
            i + 1
        };
        let name_end = letters_end(text, name_start);
        let terminated = name_end >= text.len() || text[name_end] == ' ' || text[name_end] == '\t'
            || text[name_end] == '\n' || text[name_end] == '>' || text[name_end] == '/';
        terminated && is_filtered_tag(text.subrange(name_start, name_end))
    }
}

/// The text from `i` on with each filtered tag's `<` written `&lt;`.
pub open spec fn tag_filtered(text: Seq<char>, i: int) -> Seq<char>
    decreases text.len() - i,
{
    if i < 0 || i >= text.len() {
        Seq::empty()
    } else {
        (if filtered_at(text, i) {
            seq!['&', 'l', 't', ';']
        } else {
            seq![text[i]]
        }) + tag_filtered(text, i + 1)
    }
}

fn same_name(chars: &Vec<char>, start: usize, end: usize, tag: &str) -> (same: bool)
    requires
        start <= end <= chars@.len(),
    ensures
        same == same_ignoring_case(chars@.subrange(start as int, end as int), tag@),
{
    let expected = chars_of(tag);
    if end - start != expected.len() {
        return false;
    }
    let mut index: usize = 0;
    while index < expected.len()
        invariant
            expected@ == tag@,
            start <= end <= chars@.len(),
            end - start == expected@.len(),
            index <= expected@.len(),
            forall|i: int|
                0 <= i < index ==> #[trigger] chars@[start + i] == expected@[i] || (('A' <= chars@[start + i] <= 'Z')
                    && chars@[start + i] as u32 + 32 == expected@[i] as u32),
        decreases expected@.len() - index,
    {
        let ch = chars[start + index];
        let wanted = expected[index];
        if !(ch == wanted || ('A' <= ch && ch <= 'Z' && ch as u32 + 32 == wanted as u32)) {
            proof {
                let name = chars@.subrange(start as int, end as int);
                assert(name[index as int] == ch);
            }
            return false;
        }
        index += 1;
    }
    proof {
        let name = chars@.subrange(start as int, end as int);
        assert forall|i: int| 0 <= i < name.len() implies #[trigger] name[i] == tag@[i] || (('A' <= name[i] <= 'Z')
            && name[i] as u32 + 32 == tag@[i] as u32) by {
            assert(name[i] == chars@[start + i]);
        }
    }
    true
}

/// GFM tag filter: `<` becomes `&lt;` in front of disallowed tag names.
pub fn apply_tagfilter(html: &str) -> (filtered: String)
    ensures
        filtered@ == tag_filtered(html@, 0),
{
    let chars = chars_of(html);
    let length = chars.len();
    let mut out = String::new();
    let mut index: usize = 0;
    proof {
        assert(Seq::<char>::empty() + tag_filtered(html@, 0) =~= tag_filtered(html@, 0));
    }
    while index < length
        invariant
            chars@ == html@,
            length == chars@.len(),
            index <= length,
            out@ + tag_filtered(html@, index as int) == tag_filtered(html@, 0),
        decreases length - index,
    {
        let ghost before = out@;
        let mut filter = false;
        if chars[index] == '<' {
            let name_start = if index + 1 < length && chars[index + 1] == '/' {
                index + 2
            } else {
                index + 1
            };
            let mut name_end = name_start;
            while name_end < length && (('a' <= chars[name_end] && chars[name_end] <= 'z') || ('A'
                <= chars[name_end] && chars[name_end] <= 'Z'))
                invariant
                    chars@ == html@,
                    length == chars@.len(),
                    name_start <= name_end <= length,
                    letters_end(html@, name_start as int) == letters_end(html@, name_end as int),
                decreases length - name_end,
            {
                name_end += 1;
            }
            let terminated = name_end >= length || chars[name_end] == ' ' || chars[name_end] == '\t'
                || chars[name_end] == '\n' || chars[name_end] == '>' || chars[name_end] == '/';
            filter = terminated && (same_name(&chars, name_start, name_end, "title") || same_name(
                &chars,
                name_start,
                name_end,
                "textarea",
            ) || same_name(&chars, name_start, name_end, "style") || same_name(&chars, name_start, name_end, "xmp")
                || same_name(&chars, name_start, name_end, "iframe") || same_name(
                &chars,
                name_start,
                name_end,
                "noembed",
            ) || same_name(&chars, name_start, name_end, "noframes") || same_name(
                &chars,
                name_start,
                name_end,
                "script",
            ) || same_name(&chars, name_start, name_end, "plaintext"));
        }
        proof {
            assert(filter == filtered_at(html@, index as int));
        }
        if filter {
            push_char(&mut out, '&');
            push_char(&mut out, 'l');
            push_char(&mut out, 't');
            push_char(&mut out, ';');
        } else {
            push_char(&mut out, chars[index]);
        }
        proof {
            if filter {
                assert(out@ =~= before + seq!['&', 'l', 't', ';']);
            } else {
                assert(out@ =~= before + seq![html@[index as int]]);
            }
        }
        index += 1;
    }
    proof {
        assert(out@ + Seq::<char>::empty() =~= out@);
    }
    out
}


// ----- autolink literals -----

/// Alphanumerics, `_`, `-`, and any non-ASCII byte.
pub open spec fn domain_byte(byte: u8) -> bool {
    is_alnum(byte) || byte == 0x5F || byte == 0x2D || byte >= 0x80
}

/// Alphanumerics, `_`, `-`, and any non-ASCII byte.
pub fn is_domain_byte(byte: u8) -> (found: bool)
    ensures
        found == domain_byte(byte),
{
    is_ascii_alphanumeric(byte) || byte == 0x5F || byte == 0x2D || byte >= 0x80
}

/// The end of the run of domain bytes from `i`.
pub open spec fn domain_run(bytes: Seq<u8>, i: int) -> int
    decreases bytes.len() - i,
{
    if 0 <= i < bytes.len() && domain_byte(bytes[i]) {
        domain_run(bytes, i + 1)
    } else {
        i
    }
}

/// A dot followed by a domain byte at `end`: the domain goes on.
pub open spec fn domain_continues(bytes: Seq<u8>, end: int) -> bool {
    0 <= end && end + 1 < bytes.len() && bytes[end] == 0x2E && domain_byte(bytes[end + 1])
}

/// The dot-separated segments of a domain starting at `i`.
pub open spec fn domain_segments(bytes: Seq<u8>, i: int) -> Seq<(int, int)>
    decreases bytes.len() - i,
{
    let end = domain_run(bytes, i);
    if i < 0 || end <= i {
        Seq::empty()
    } else if domain_continues(bytes, end) {
        seq![(i, end)] + domain_segments(bytes, end + 1)
    } else {
        seq![(i, end)]
    }
}

/// Where the domain starting at `i` ends.
pub open spec fn domain_stop(bytes: Seq<u8>, i: int) -> int
    decreases bytes.len() - i,
{
    let end = domain_run(bytes, i);
    if i < 0 || end <= i {
        i
    } else if domain_continues(bytes, end) {
        domain_stop(bytes, end + 1)
    } else {
        end
    }
}

/// Whether `_` occurs between `start` and `end`.
pub open spec fn holds_underscore(bytes: Seq<u8>, start: int, end: int) -> bool {
    exists|j: int| start <= j < end && #[trigger] bytes[j] == 0x5F
}

/// A domain at `start`: segments of domain bytes separated by single
/// dots, at least two when a dot is required, and no `_` in the last two
/// segments. The end of the domain.
pub open spec fn spec_scan_domain(bytes: Seq<u8>, start: int, requires_dot: bool) -> Option<int> {
    let segments = domain_segments(bytes, start);
    let count = segments.len() as int;
    if count == 0 || (requires_dot && count < 2) {
        None
    } else if holds_underscore(bytes, segments[count - 1].0, segments[count - 1].1) || (count >= 2
        && holds_underscore(bytes, segments[count - 2].0, segments[count - 2].1)) {
        None
    } else {
        Some(domain_stop(bytes, start))
    }
}

proof fn lemma_domain_run(bytes: Seq<u8>, i: int)
    requires
        0 <= i <= bytes.len(),
    ensures
        i <= domain_run(bytes, i) <= bytes.len(),
    decreases bytes.len() - i,
{
    if i < bytes.len() && domain_byte(bytes[i]) {
        lemma_domain_run(bytes, i + 1);
    }
}

proof fn lemma_domain_segments(bytes: Seq<u8>, i: int)
    requires
        0 <= i <= bytes.len(),
    ensures
        i <= domain_stop(bytes, i) <= bytes.len(),
        forall|k: int|
            0 <= k < domain_segments(bytes, i).len() ==> i <= (#[trigger] domain_segments(bytes, i)[k]).0
                < domain_segments(bytes, i)[k].1 <= bytes.len(),
    decreases bytes.len() - i,
{
    lemma_domain_run(bytes, i);
    let end = domain_run(bytes, i);
    if end > i && domain_continues(bytes, end) {
        lemma_domain_segments(bytes, end + 1);
        let tail = domain_segments(bytes, end + 1);
        let all = domain_segments(bytes, i);
        assert(all =~= seq![(i, end)] + tail);
        assert forall|k: int| 0 <= k < all.len() implies i <= (#[trigger] all[k]).0 < all[k].1 <= bytes.len() by {
            if k > 0 {
                assert(all[k] == tail[k - 1]);
            }
        }
    }
}

/// Whether `_` occurs between `start` and `end`.
fn underscore_between(bytes: &[u8], start: usize, end: usize) -> (found: bool)
    requires
        start <= end <= bytes@.len(),
    ensures
        found == holds_underscore(bytes@, start as int, end as int),
{
    let mut index = start;
    while index < end
        invariant
            start <= index <= end <= bytes@.len(),
            forall|j: int| start <= j < index ==> bytes@[j] != 0x5F,
        decreases end - index,
    {
        if bytes[index] == 0x5F {
            return true;
        }
        index += 1;
    }
    false
}

/// Segments of alphanumerics, `_`, `-` separated by `.`, at least one `.`
/// when required, no `_` in the last two segments. Returns the end of the
/// domain.
pub fn scan_domain(bytes: &[u8], start: usize, requires_dot: bool) -> (end: Option<usize>)
    requires
        start <= bytes@.len(),
    ensures
        match end {
            Some(end) => spec_scan_domain(bytes@, start as int, requires_dot) == Some(end as int),
            None => spec_scan_domain(bytes@, start as int, requires_dot) is None,
        },
{
    let ghost all = domain_segments(bytes@, start as int);
    let mut index = start;
    let mut segments: Vec<(usize, usize)> = Vec::new();
    loop
        invariant_except_break
            start <= index <= bytes@.len(),
            segments@.map_values(|segment: (usize, usize)| (segment.0 as int, segment.1 as int)) + domain_segments(
                bytes@,
                index as int,
            ) == all,
            domain_stop(bytes@, index as int) == domain_stop(bytes@, start as int),
            segments@.len() == 0 ==> index == start,
            segments@.len() > 0 ==> domain_run(bytes@, index as int) > index,
        invariant
            all == domain_segments(bytes@, start as int),
        ensures
            segments@.map_values(|segment: (usize, usize)| (segment.0 as int, segment.1 as int)) == all,
            index == domain_stop(bytes@, start as int),
        decreases bytes@.len() - index,
    {
        let ghost before = segments@.map_values(|segment: (usize, usize)| (segment.0 as int, segment.1 as int));
        let segment_start = index;
        while index < bytes.len() && is_domain_byte(bytes[index])
            invariant
                segment_start <= index <= bytes@.len(),
                domain_run(bytes@, segment_start as int) == domain_run(bytes@, index as int),
            decreases bytes@.len() - index,
        {
            index += 1;
        }
        assert(domain_run(bytes@, segment_start as int) == index);
        if index == segment_start {
            proof {
                assert(domain_segments(bytes@, segment_start as int) =~= Seq::<(int, int)>::empty());
                assert(before + Seq::<(int, int)>::empty() =~= before);
            }
            break;
        }
        segments.push((segment_start, index));
        proof {
            assert(segments@.map_values(|segment: (usize, usize)| (segment.0 as int, segment.1 as int)) =~= before.push(
                (segment_start as int, index as int),
            ));
        }
        if index < bytes.len() - 1 && bytes[index] == 0x2E && is_domain_byte(bytes[index + 1]) {
            proof {
                assert(domain_continues(bytes@, index as int));
                assert(domain_segments(bytes@, segment_start as int) =~= seq![(segment_start as int, index as int)]
                    + domain_segments(bytes@, index + 1));
                assert(before.push((segment_start as int, index as int)) + domain_segments(bytes@, index + 1) =~= before
                    + domain_segments(bytes@, segment_start as int));
                lemma_domain_run(bytes@, index + 2);
            }
            index += 1;
            continue;
        }
        proof {
            assert(!domain_continues(bytes@, index as int));
            assert(domain_segments(bytes@, segment_start as int) =~= seq![(segment_start as int, index as int)]);
            assert(before.push((segment_start as int, index as int)) =~= before + domain_segments(
                bytes@,
                segment_start as int,
            ));
        }
        break;
    }
    let ghost views = segments@.map_values(|segment: (usize, usize)| (segment.0 as int, segment.1 as int));
    proof {
        lemma_domain_segments(bytes@, start as int);
    }
    assert(views == all);
    let count = segments.len();
    if count == 0 || (requires_dot && count < 2) {
        return None;
    }
    let last = segments[count - 1];
    assert(all[count - 1] == (last.0 as int, last.1 as int));
    if underscore_between(bytes, last.0, last.1) {
        return None;
    }
    if count >= 2 {
        let second = segments[count - 2];
        assert(all[count - 2] == (second.0 as int, second.1 as int));
        if underscore_between(bytes, second.0, second.1) {
            return None;
        }
    }
    Some(index)
}

/// How many times `byte` occurs between `start` and `end`.
pub open spec fn count_byte(bytes: Seq<u8>, start: int, end: int, byte: u8) -> nat
    decreases end - start,
{
    if end <= start {
        0
    } else {
        count_byte(bytes, start, end - 1, byte) + if bytes[end - 1] == byte {
            1nat
        } else {
            0nat
        }
    }
}

/// Where the run of ASCII alphanumerics ending at `i` starts, not below
/// `start`.
pub open spec fn alnum_back(bytes: Seq<u8>, start: int, i: int) -> int
    decreases i - start,
{
    if i > start && 0 < i <= bytes.len() && is_alnum(bytes[i - 1]) {
        alnum_back(bytes, start, i - 1)
    } else {
        i
    }
}

/// Punctuation that does not end a link.
pub open spec fn trailing_punctuation(byte: u8) -> bool {
    byte == 0x3F || byte == 0x21 || byte == 0x2E || byte == 0x2C || byte == 0x3A || byte == 0x2A || byte == 0x5F
        || byte == 0x7E || byte == 0x27 || byte == 0x22
}

/// The end of a link literal between `start` and `end` once trailing
/// punctuation, unbalanced `)` and a trailing entity are dropped.
pub open spec fn trimmed_link_end(bytes: Seq<u8>, start: int, end: int) -> int
    decreases end,
{
    if end <= start || end <= 0 || end > bytes.len() {
        end
    } else {
        let last = bytes[end - 1];
        if trailing_punctuation(last) {
            trimmed_link_end(bytes, start, end - 1)
        } else if last == 0x29 && count_byte(bytes, start, end, 0x29) > count_byte(bytes, start, end, 0x28) {
            trimmed_link_end(bytes, start, end - 1)
        } else if last == 0x3B && {
            let entity = alnum_back(bytes, start, end - 1);
            entity > start && bytes[entity - 1] == 0x26 && entity < end - 1
        } {
            let entity = alnum_back(bytes, start, end - 1);
            if 0 < entity <= end - 1 {
                trimmed_link_end(bytes, start, entity - 1)
            } else {
                end
            }
        } else {
            end
        }
    }
}

proof fn lemma_alnum_back(bytes: Seq<u8>, start: int, i: int)
    requires
        start <= i <= bytes.len(),
    ensures
        start <= alnum_back(bytes, start, i) <= i,
    decreases i - start,
{
    if i > start && i > 0 && is_alnum(bytes[i - 1]) {
        lemma_alnum_back(bytes, start, i - 1);
    }
}

/// How many times `byte` occurs between `start` and `end`.
fn count_between(bytes: &[u8], start: usize, end: usize, byte: u8) -> (count: usize)
    requires
        start <= end <= bytes@.len(),
    ensures
        count == count_byte(bytes@, start as int, end as int, byte),
{
    let mut count: usize = 0;
    let mut index = start;
    while index < end
        invariant
            start <= index <= end <= bytes@.len(),
            count == count_byte(bytes@, start as int, index as int, byte),
            count <= index - start,
        decreases end - index,
    {
        if bytes[index] == byte {
            count += 1;
        }
        index += 1;
    }
    count
}

/// Trailing punctuation, unbalanced `)`, and a trailing entity are not
/// part of the link.
pub fn trim_autolink_end(bytes: &[u8], start: usize, end: usize) -> (trimmed: usize)
    requires
        end <= bytes@.len(),
    ensures
        trimmed == trimmed_link_end(bytes@, start as int, end as int),
{
    let mut stop = end;
    loop
        invariant
            stop <= bytes@.len(),
            end <= bytes@.len(),
            trimmed_link_end(bytes@, start as int, stop as int) == trimmed_link_end(bytes@, start as int, end as int),
        decreases stop,
    {
        if stop <= start {
            return stop;
        }
        let last = bytes[stop - 1];
        if last == 0x3F || last == 0x21 || last == 0x2E || last == 0x2C || last == 0x3A || last == 0x2A || last == 0x5F
            || last == 0x7E || last == 0x27 || last == 0x22 {
            stop -= 1;
            continue;
        }
        if last == 0x29 {
            let opens = count_between(bytes, start, stop, 0x28);
            let closes = count_between(bytes, start, stop, 0x29);
            if closes > opens {
                stop -= 1;
                continue;
            }
        }
        if last == 0x3B {
            let mut index = stop - 1;
            while index > start && is_ascii_alphanumeric(bytes[index - 1])
                invariant
                    start <= index <= stop - 1,
                    stop <= bytes@.len(),
                    alnum_back(bytes@, start as int, stop - 1) == alnum_back(bytes@, start as int, index as int),
                decreases index,
            {
                index -= 1;
            }
            if index > start && bytes[index - 1] == 0x26 && index < stop - 1 {
                stop = index - 1;
                continue;
            }
        }
        return stop;
    }
}


/// Whether the bytes from `at` start with `prefix`, ASCII case ignored.
fn starts_at_ignoring_case(bytes: &[u8], at: usize, prefix: &[u8]) -> (found: bool)
    requires
        at <= bytes@.len(),
    ensures
        found == starts_ignoring_case(bytes@.subrange(at as int, bytes@.len() as int), prefix@),
{
    let ghost rest = bytes@.subrange(at as int, bytes@.len() as int);
    if bytes.len() - at < prefix.len() {
        return false;
    }
    let mut index: usize = 0;
    while index < prefix.len()
        invariant
            at <= bytes@.len(),
            rest == bytes@.subrange(at as int, bytes@.len() as int),
            bytes@.len() <= usize::MAX,
            bytes@.len() - at >= prefix@.len(),
            index <= prefix@.len(),
            forall|j: int| 0 <= j < index ==> lower(#[trigger] rest[j]) == lower(prefix@[j]),
        decreases prefix@.len() - index,
    {
        let byte = bytes[at + index];
        let expected = prefix[index];
        let lowered = if 0x41 <= byte && byte <= 0x5A {
            byte + 32
        } else {
            byte
        };
        let lowered_expected = if 0x41 <= expected && expected <= 0x5A {
            expected + 32
        } else {
            expected
        };
        assert(rest[index as int] == byte);
        if lowered != lowered_expected {
            return false;
        }
        index += 1;
    }
    true
}

/// The end of the run of bytes from `i` that are not a space, tab,
/// newline or `<`.
pub open spec fn link_run(bytes: Seq<u8>, i: int) -> int
    decreases bytes.len() - i,
{
    if 0 <= i < bytes.len() && !(bytes[i] == 0x20 || bytes[i] == 0x09 || bytes[i] == 0x0A || bytes[i] == 0x3C) {
        link_run(bytes, i + 1)
    } else {
        i
    }
}

pub open spec fn www_bytes() -> Seq<u8> {
    seq![0x77u8, 0x77, 0x77, 0x2E]
}

pub open spec fn http_bytes() -> Seq<u8> {
    seq![0x68u8, 0x74, 0x74, 0x70, 0x3A, 0x2F, 0x2F]
}

pub open spec fn https_bytes() -> Seq<u8> {
    seq![0x68u8, 0x74, 0x74, 0x70, 0x73, 0x3A, 0x2F, 0x2F]
}

pub open spec fn ftp_bytes() -> Seq<u8> {
    seq![0x66u8, 0x74, 0x70, 0x3A, 0x2F, 0x2F]
}

/// A `www.` or `http://`, `https://`, `ftp://` link literal at `start`:
/// its end and whether it starts with `www.` (and so needs a scheme).
pub open spec fn spec_www_or_scheme(bytes: Seq<u8>, start: int) -> Option<(int, bool)> {
    let rest = bytes.subrange(start, bytes.len() as int);
    let www = starts_ignoring_case(rest, www_bytes());
    let http = starts_ignoring_case(rest, http_bytes());
    let https = starts_ignoring_case(rest, https_bytes());
    let ftp = starts_ignoring_case(rest, ftp_bytes());
    if !(www || http || https || ftp) {
        None
    } else {
        let prefix_length: int = if www {
            0
        } else if http {
            7
        } else if https {
            8
        } else {
            6
        };
        let domain_start = start + prefix_length;
        match spec_scan_domain(bytes, domain_start, www) {
            None => None,
            Some(domain_end) => {
                let end = trimmed_link_end(bytes, start, link_run(bytes, domain_end));
                if end <= domain_start {
                    None
                } else {
                    Some((end, www))
                }
            },
        }
    }
}

proof fn lemma_link_run(bytes: Seq<u8>, i: int)
    requires
        0 <= i <= bytes.len(),
    ensures
        i <= link_run(bytes, i) <= bytes.len(),
    decreases bytes.len() - i,
{
    if i < bytes.len() && !(bytes[i] == 0x20 || bytes[i] == 0x09 || bytes[i] == 0x0A || bytes[i] == 0x3C) {
        lemma_link_run(bytes, i + 1);
    }
}

proof fn lemma_trimmed_link_end(bytes: Seq<u8>, start: int, end: int)
    requires
        end <= bytes.len(),
    ensures
        trimmed_link_end(bytes, start, end) <= end,
    decreases end,
{
    if !(end <= start || end <= 0 || end > bytes.len()) {
        let last = bytes[end - 1];
        if trailing_punctuation(last) {
            lemma_trimmed_link_end(bytes, start, end - 1);
        } else if last == 0x29 && count_byte(bytes, start, end, 0x29) > count_byte(bytes, start, end, 0x28) {
            lemma_trimmed_link_end(bytes, start, end - 1);
        } else if last == 0x3B {
            let entity = alnum_back(bytes, start, end - 1);
            if 0 < entity <= end - 1 {
                lemma_trimmed_link_end(bytes, start, entity - 1);
            }
        }
    }
}

/// A `www.` or scheme link literal at `start`: `(end, prefix, is_www)`,
/// `www.` literals needing `http://` in front.
pub fn scan_www_or_scheme(text: &str, start: usize) -> (found: Option<(usize, &'static str, bool)>)
    requires
        start <= text.spec_bytes().len(),
    ensures
        match found {
            Some((end, prefix, is_www)) => spec_www_or_scheme(text.spec_bytes(), start as int) == Some(
                (end as int, is_www),
            ) && prefix@ == (if is_www {
                "http://"@
            } else {
                ""@
            }),
            None => spec_www_or_scheme(text.spec_bytes(), start as int) is None,
        },
{
    let bytes = text.as_bytes();
    let length = bytes.len();
    let www = [0x77u8, 0x77, 0x77, 0x2E];
    let http = [0x68u8, 0x74, 0x74, 0x70, 0x3A, 0x2F, 0x2F];
    let https = [0x68u8, 0x74, 0x74, 0x70, 0x73, 0x3A, 0x2F, 0x2F];
    let ftp = [0x66u8, 0x74, 0x70, 0x3A, 0x2F, 0x2F];
    assert(www@ =~= www_bytes());
    assert(http@ =~= http_bytes());
    assert(https@ =~= https_bytes());
    assert(ftp@ =~= ftp_bytes());
    let (prefix_length, add_scheme) = if starts_at_ignoring_case(bytes, start, &www) {
        (0usize, true)
    } else if starts_at_ignoring_case(bytes, start, &http) {
        (7usize, false)
    } else if starts_at_ignoring_case(bytes, start, &https) {
        (8usize, false)
    } else if starts_at_ignoring_case(bytes, start, &ftp) {
        (6usize, false)
    } else {
        return None;
    };
    let domain_start = start + prefix_length;
    let domain_end = match scan_domain(bytes, domain_start, add_scheme) {
        Some(end) => end,
        None => return None,
    };
    proof {
        lemma_domain_segments(bytes@, domain_start as int);
    }
    let mut end = domain_end;
    while end < bytes.len() && !(bytes[end] == 0x20 || bytes[end] == 0x09 || bytes[end] == 0x0A || bytes[end] == 0x3C)
        invariant
            domain_end <= end <= bytes@.len(),
            link_run(bytes@, domain_end as int) == link_run(bytes@, end as int),
        decreases bytes@.len() - end,
    {
        end += 1;
    }
    end = trim_autolink_end(bytes, start, end);
    if end <= domain_start {
        return None;
    }
    let prefix = if add_scheme {
        "http://"
    } else {
        ""
    };
    Some((end, prefix, add_scheme))
}

// ----- email literals -----

pub open spec fn local_byte(byte: u8) -> bool {
    is_alnum(byte) || byte == 0x2E || byte == 0x2D || byte == 0x5F || byte == 0x2B
}

pub open spec fn email_byte(byte: u8) -> bool {
    is_alnum(byte) || byte == 0x2D || byte == 0x5F || byte == 0x2E
}

/// Where the local part of an address ending at `i` starts.
pub open spec fn local_start(bytes: Seq<u8>, i: int) -> int
    decreases i,
{
    if 0 < i <= bytes.len() && local_byte(bytes[i - 1]) {
        local_start(bytes, i - 1)
    } else {
        i
    }
}

/// The end of the run of address bytes from `i`.
pub open spec fn email_run(bytes: Seq<u8>, i: int) -> int
    decreases bytes.len() - i,
{
    if 0 <= i < bytes.len() && email_byte(bytes[i]) {
        email_run(bytes, i + 1)
    } else {
        i
    }
}

/// `end` moved back past dots, not below `low`.
pub open spec fn dots_back(bytes: Seq<u8>, low: int, end: int) -> int
    decreases end - low,
{
    if end > low && 0 < end <= bytes.len() && bytes[end - 1] == 0x2E {
        dots_back(bytes, low, end - 1)
    } else {
        end
    }
}

pub open spec fn holds_dot(bytes: Seq<u8>, start: int, end: int) -> bool {
    exists|j: int| start <= j < end && #[trigger] bytes[j] == 0x2E
}

/// Whether nothing alphanumeric comes right before `at`.
pub open spec fn at_word_start(bytes: Seq<u8>, at: int) -> bool {
    at == 0 || !is_alnum(bytes[at - 1])
}

/// The local part and domain of an address around the `@` at `at`:
/// their bounds, before any scheme in front is looked at.
pub open spec fn email_bounds(bytes: Seq<u8>, at: int) -> Option<(int, int)> {
    let start = local_start(bytes, at);
    let domain_start = at + 1;
    let run = email_run(bytes, domain_start);
    let end = dots_back(bytes, domain_start, run);
    if start == at {
        None
    } else if end <= domain_start || !holds_dot(bytes, domain_start, run) {
        None
    } else if bytes[end - 1] == 0x2D || bytes[end - 1] == 0x5F {
        None
    } else {
        Some((start, end))
    }
}

pub open spec fn mailto_bytes() -> Seq<u8> {
    seq![0x6Du8, 0x61, 0x69, 0x6C, 0x74, 0x6F, 0x3A]
}

pub open spec fn xmpp_bytes() -> Seq<u8> {
    seq![0x78u8, 0x6D, 0x70, 0x70, 0x3A]
}

/// `mailto:` right before `start`, at a word start.
pub open spec fn mailto_before(bytes: Seq<u8>, start: int) -> bool {
    start >= 7 && starts_ignoring_case(bytes.subrange(start - 7, bytes.len() as int), mailto_bytes())
        && at_word_start(bytes, start - 7)
}

/// `xmpp:` right before `start`, at a word start.
pub open spec fn xmpp_before(bytes: Seq<u8>, start: int) -> bool {
    start >= 5 && starts_ignoring_case(bytes.subrange(start - 5, bytes.len() as int), xmpp_bytes())
        && at_word_start(bytes, start - 5)
}

/// An email autolink literal around the `@` at `at`: its start and end,
/// and whether it needs `mailto:` in front. A `mailto:` or `xmpp:` before
/// the address belongs to the link; an XMPP address may carry a resource
/// after a slash.
pub open spec fn spec_email_literal(bytes: Seq<u8>, at: int) -> Option<(int, int, bool)> {
    match email_bounds(bytes, at) {
        None => None,
        Some((start, end)) => {
            let mailto = mailto_before(bytes, start);
            let xmpp = xmpp_before(bytes, start);
            let resource = dots_back(bytes, end + 1, email_run(bytes, end + 1));
            let link_end = if xmpp && end < bytes.len() && bytes[end] == 0x2F && resource > end + 1 {
                resource
            } else {
                end
            };
            if mailto {
                Some((start - 7, link_end, false))
            } else if xmpp {
                Some((start - 5, link_end, false))
            } else {
                Some((start, link_end, true))
            }
        },
    }
}

/// Where the look-back for `mailto:` (seven bytes before an address) or
/// `xmpp:` (five bytes before) would cut the text inside a character: the
/// text is sliced there, so such input is left out.
pub open spec fn email_slices_badly(text: &str, at: int) -> bool {
    let bytes = text.spec_bytes();
    match email_bounds(bytes, at) {
        None => false,
        Some((start, _)) => (start >= 7 && !is_char_boundary(bytes, start - 7)) || (start >= 5
            && !is_char_boundary(bytes, start - 5)),
    }
}

proof fn lemma_local_start(bytes: Seq<u8>, i: int)
    requires
        0 <= i <= bytes.len(),
    ensures
        0 <= local_start(bytes, i) <= i,
        forall|j: int| local_start(bytes, i) <= j < i ==> local_byte(#[trigger] bytes[j]),
    decreases i,
{
    if 0 < i && local_byte(bytes[i - 1]) {
        lemma_local_start(bytes, i - 1);
    }
}

proof fn lemma_email_run(bytes: Seq<u8>, i: int)
    requires
        0 <= i <= bytes.len(),
    ensures
        i <= email_run(bytes, i) <= bytes.len(),
        forall|j: int| i <= j < email_run(bytes, i) ==> email_byte(#[trigger] bytes[j]),
    decreases bytes.len() - i,
{
    if i < bytes.len() && email_byte(bytes[i]) {
        lemma_email_run(bytes, i + 1);
    }
}

proof fn lemma_dots_back(bytes: Seq<u8>, low: int, end: int)
    requires
        low <= end <= bytes.len(),
    ensures
        low <= dots_back(bytes, low, end) <= end,
    decreases end - low,
{
    if end > low && end > 0 && bytes[end - 1] == 0x2E {
        lemma_dots_back(bytes, low, end - 1);
    }
}

/// The end of the run of address bytes from `from`, dots at its end
/// dropped, and whether the run held a dot.
fn address_run(bytes: &[u8], from: usize) -> (run: (usize, usize, bool))
    requires
        from <= bytes@.len(),
    ensures
        run.0 == email_run(bytes@, from as int),
        run.1 == dots_back(bytes@, from as int, run.0 as int),
        run.2 == holds_dot(bytes@, from as int, run.0 as int),
        from <= run.1 <= run.0 <= bytes@.len(),
{
    let mut index = from;
    let mut saw_dot = false;
    while index < bytes.len() && (is_ascii_alphanumeric(bytes[index]) || bytes[index] == 0x2D || bytes[index] == 0x5F
        || bytes[index] == 0x2E)
        invariant
            from <= index <= bytes@.len(),
            email_run(bytes@, from as int) == email_run(bytes@, index as int),
            saw_dot == holds_dot(bytes@, from as int, index as int),
        decreases bytes@.len() - index,
    {
        if bytes[index] == 0x2E {
            saw_dot = true;
        }
        index += 1;
        proof {
            if !saw_dot {
                assert forall|j: int| from <= j < index implies #[trigger] bytes@[j] != 0x2E by {
                    if j < index - 1 {
                        assert(!holds_dot(bytes@, from as int, index - 1));
                    }
                }
            }
        }
    }
    let mut end = index;
    while end > from && bytes[end - 1] == 0x2E
        invariant
            from <= end <= index <= bytes@.len(),
            dots_back(bytes@, from as int, index as int) == dots_back(bytes@, from as int, end as int),
        decreases end - from,
    {
        end -= 1;
    }
    (index, end, saw_dot)
}

/// An email autolink literal around the `@` at `at_position`:
/// `(start, end, prefix)`; a bare address needs `mailto:` in front.
pub fn scan_email_literal(text: &str, at_position: usize) -> (found: Option<(usize, usize, &'static str)>)
    requires
        at_position < text.spec_bytes().len(),
        !email_slices_badly(text, at_position as int),
    ensures
        match found {
            Some((start, end, prefix)) => {
                &&& spec_email_literal(text.spec_bytes(), at_position as int) matches Some((s, e, needs))
                &&& s == start && e == end
                &&& prefix@ == (if needs {
                    "mailto:"@
                } else {
                    ""@
                })
            },
            None => spec_email_literal(text.spec_bytes(), at_position as int) is None,
        },
{
    let bytes = text.as_bytes();
    let length = bytes.len();
    let mut start = at_position;
    while start > 0 && (is_ascii_alphanumeric(bytes[start - 1]) || bytes[start - 1] == 0x2E || bytes[start - 1] == 0x2D
        || bytes[start - 1] == 0x5F || bytes[start - 1] == 0x2B)
        invariant
            start <= at_position < bytes@.len(),
            local_start(bytes@, at_position as int) == local_start(bytes@, start as int),
        decreases start,
    {
        start -= 1;
    }
    if start == at_position {
        return None;
    }
    let domain_start = at_position + 1;
    let (run, end, saw_dot) = address_run(bytes, domain_start);
    if end <= domain_start || !saw_dot {
        return None;
    }
    if bytes[end - 1] == 0x2D || bytes[end - 1] == 0x5F {
        return None;
    }
    let mailto_prefix = [0x6Du8, 0x61, 0x69, 0x6C, 0x74, 0x6F, 0x3A];
    let xmpp_prefix = [0x78u8, 0x6D, 0x70, 0x70, 0x3A];
    assert(mailto_prefix@ =~= mailto_bytes());
    assert(xmpp_prefix@ =~= xmpp_bytes());
    let mailto = start >= 7 && starts_at_ignoring_case(bytes, start - 7, &mailto_prefix) && (start - 7 == 0
        || !is_ascii_alphanumeric(bytes[start - 8]));
    let xmpp = start >= 5 && starts_at_ignoring_case(bytes, start - 5, &xmpp_prefix) && (start - 5 == 0
        || !is_ascii_alphanumeric(bytes[start - 6]));
    let mut link_end = end;
    if xmpp && end < bytes.len() && bytes[end] == 0x2F {
        let (_, resource_end, _) = address_run(bytes, end + 1);
        if resource_end > end + 1 {
            link_end = resource_end;
        }
    }
    if mailto {
        Some((start - 7, link_end, ""))
    } else if xmpp {
        Some((start - 5, link_end, ""))
    } else {
        Some((start, link_end, "mailto:"))
    }
}


// ----- finding literals -----

/// Whether a byte can start `www.` or a scheme.
pub open spec fn scheme_start(byte: u8) -> bool {
    byte == 0x77 || byte == 0x57 || byte == 0x68 || byte == 0x48 || byte == 0x66 || byte == 0x46
}

/// Whether `www.` may start at `index`: at the start or after
/// whitespace or one of `*_~(`.
pub open spec fn strict_boundary(bytes: Seq<u8>, index: int) -> bool {
    index == 0 || {
        let before = bytes[index - 1];
        before == 0x20 || before == 0x09 || before == 0x0A || before == 0x2A || before == 0x5F || before == 0x7E
            || before == 0x28
    }
}

/// The literal a scheme or `www.` at `index` starts, if any.
pub open spec fn scheme_literal_at(bytes: Seq<u8>, index: int) -> Option<(int, bool)> {
    if at_word_start(bytes, index) {
        match spec_www_or_scheme(bytes, index) {
            Some((end, is_www)) => if !is_www || strict_boundary(bytes, index) {
                Some((end, is_www))
            } else {
                None
            },
            None => None,
        }
    } else {
        None
    }
}

/// The first autolink literal from `index` on: `(start, end, prefix)`,
/// the prefix being what the destination needs in front (`http://` for
/// `www.`, `mailto:` for a bare address).
pub open spec fn spec_find_literal(bytes: Seq<u8>, index: int) -> Option<(int, int, Seq<char>)>
    decreases bytes.len() - index,
{
    if index < 0 || index >= bytes.len() {
        None
    } else {
        let byte = bytes[index];
        if !scheme_start(byte) && byte != 0x40 {
            spec_find_literal(bytes, index + 1)
        } else {
            match scheme_literal_at(bytes, index) {
                Some((end, is_www)) => Some(
                    (
                        index,
                        end,
                        if is_www {
                            "http://"@
                        } else {
                            ""@
                        },
                    ),
                ),
                None => if byte == 0x40 {
                    match spec_email_literal(bytes, index) {
                        Some((start, end, needs)) => Some(
                            (
                                start,
                                end,
                                if needs {
                                    "mailto:"@
                                } else {
                                    ""@
                                },
                            ),
                        ),
                        None => spec_find_literal(bytes, index + 1),
                    }
                } else {
                    spec_find_literal(bytes, index + 1)
                },
            }
        }
    }
}

/// Whether the search from `index` reaches an address whose look-back
/// for a scheme would cut the text inside a character.
pub open spec fn find_slices_badly(text: &str, index: int) -> bool
    decreases text.spec_bytes().len() - index,
{
    let bytes = text.spec_bytes();
    if index < 0 || index >= bytes.len() {
        false
    } else {
        let byte = bytes[index];
        if !scheme_start(byte) && byte != 0x40 {
            find_slices_badly(text, index + 1)
        } else if scheme_literal_at(bytes, index) is Some {
            false
        } else if byte == 0x40 {
            email_slices_badly(text, index) || (spec_email_literal(bytes, index) is None && find_slices_badly(
                text,
                index + 1,
            ))
        } else {
            find_slices_badly(text, index + 1)
        }
    }
}

/// Finds the next `www.`, `http://`, `https://`, `ftp://` or email
/// autolink literal in `text` at or after `from`: `(start, end, prefix)`.
pub fn find_autolink_literal(text: &str, from: usize) -> (found: Option<(usize, usize, &'static str)>)
    requires
        !find_slices_badly(text, from as int),
    ensures
        match found {
            Some((start, end, prefix)) => spec_find_literal(text.spec_bytes(), from as int) == Some(
                (start as int, end as int, prefix@),
            ),
            None => spec_find_literal(text.spec_bytes(), from as int) is None,
        },
{
    let bytes = text.as_bytes();
    let length = bytes.len();
    let mut index = from;
    while index < length
        invariant
            length == bytes@.len(),
            bytes@ == text.spec_bytes(),
            from <= index,
            index <= length || index == from,
            spec_find_literal(bytes@, from as int) == spec_find_literal(bytes@, index as int),
            find_slices_badly(text, from as int) == find_slices_badly(text, index as int),
            !find_slices_badly(text, from as int),
        decreases length - index,
    {
        let byte = bytes[index];
        let could_start_scheme = byte == 0x77 || byte == 0x57 || byte == 0x68 || byte == 0x48 || byte == 0x66
            || byte == 0x46;
        if !could_start_scheme && byte != 0x40 {
            index += 1;
            continue;
        }
        let strict = index == 0 || {
            let before = bytes[index - 1];
            before == 0x20 || before == 0x09 || before == 0x0A || before == 0x2A || before == 0x5F || before == 0x7E
                || before == 0x28
        };
        let loose = index == 0 || !is_ascii_alphanumeric(bytes[index - 1]);
        if loose {
            if let Some((end, prefix, is_www)) = scan_www_or_scheme(text, index) {
                if !is_www || strict {
                    return Some((index, end, prefix));
                }
            }
        }
        assert(scheme_literal_at(bytes@, index as int) is None);
        if byte == 0x40 {
            if let Some((start, end, prefix)) = scan_email_literal(text, index) {
                return Some((start, end, prefix));
            }
        }
        index += 1;
    }
    None
}

// ----- cheap tests -----

/// Whether `head` ends with one of the schemes an autolink recognizes,
/// ASCII case ignored.
pub open spec fn ends_with_scheme(bytes: Seq<u8>, index: int) -> bool {
    ends_with_at(bytes, index, seq![0x68u8, 0x74, 0x74, 0x70]) || ends_with_at(
        bytes,
        index,
        seq![0x68u8, 0x74, 0x74, 0x70, 0x73],
    ) || ends_with_at(bytes, index, seq![0x66u8, 0x74, 0x70]) || ends_with_at(
        bytes,
        index,
        seq![0x6Du8, 0x61, 0x69, 0x6C, 0x74, 0x6F],
    ) || ends_with_at(bytes, index, seq![0x78u8, 0x6D, 0x70, 0x70])
}

/// Whether the bytes before `index` end with `word`, ASCII case ignored.
pub open spec fn ends_with_at(bytes: Seq<u8>, index: int, word: Seq<u8>) -> bool {
    index >= word.len() && starts_ignoring_case(bytes.subrange(index - word.len(), bytes.len() as int), word)
}

/// Whether byte `index` could be where an autolink literal shows: an
/// `@`, a `:` after a scheme name, or a `.` after `www`.
pub open spec fn candidate_at(bytes: Seq<u8>, index: int) -> bool {
    let byte = bytes[index];
    byte == 0x40 || (byte == 0x3A && ends_with_scheme(bytes, index)) || (byte == 0x2E && ends_with_at(
        bytes,
        index,
        seq![0x77u8, 0x77, 0x77],
    ))
}

/// Whether the bytes from `index` end with `scheme`, ASCII case ignored.
fn scheme_ends_at(bytes: &[u8], index: usize, scheme: &[u8]) -> (found: bool)
    requires
        index <= bytes@.len(),
    ensures
        found == ends_with_at(bytes@, index as int, scheme@),
{
    if index < scheme.len() {
        return false;
    }
    starts_at_ignoring_case(bytes, index - scheme.len(), scheme)
}

/// A cheap single pass: could this text hold an autolink literal at all?
pub fn autolink_candidate(bytes: &[u8]) -> (candidate: bool)
    ensures
        candidate == exists|i: int| 0 <= i < bytes@.len() && #[trigger] candidate_at(bytes@, i),
{
    let http = [0x68u8, 0x74, 0x74, 0x70];
    let https = [0x68u8, 0x74, 0x74, 0x70, 0x73];
    let ftp = [0x66u8, 0x74, 0x70];
    let mailto = [0x6Du8, 0x61, 0x69, 0x6C, 0x74, 0x6F];
    let xmpp = [0x78u8, 0x6D, 0x70, 0x70];
    let www = [0x77u8, 0x77, 0x77];
    assert(http@ =~= seq![0x68u8, 0x74, 0x74, 0x70]);
    assert(https@ =~= seq![0x68u8, 0x74, 0x74, 0x70, 0x73]);
    assert(ftp@ =~= seq![0x66u8, 0x74, 0x70]);
    assert(mailto@ =~= seq![0x6Du8, 0x61, 0x69, 0x6C, 0x74, 0x6F]);
    assert(xmpp@ =~= seq![0x78u8, 0x6D, 0x70, 0x70]);
    assert(www@ =~= seq![0x77u8, 0x77, 0x77]);
    let mut from: usize = 0;
    while from < bytes.len()
        invariant
            from <= bytes@.len(),
            forall|j: int| 0 <= j < from ==> !#[trigger] candidate_at(bytes@, j),
            http@ == seq![0x68u8, 0x74, 0x74, 0x70],
            https@ == seq![0x68u8, 0x74, 0x74, 0x70, 0x73],
            ftp@ == seq![0x66u8, 0x74, 0x70],
            mailto@ == seq![0x6Du8, 0x61, 0x69, 0x6C, 0x74, 0x6F],
            xmpp@ == seq![0x78u8, 0x6D, 0x70, 0x70],
            www@ == seq![0x77u8, 0x77, 0x77],
        decreases bytes@.len() - from,
    {
        let found = find_any_of3(slice_range(bytes, from, bytes.len()), 0x40, 0x3A, 0x2E);
        let relative = match found {
            Some(relative) => relative,
            None => {
                proof {
                    assert forall|j: int| 0 <= j < bytes@.len() implies !#[trigger] candidate_at(bytes@, j) by {
                        if j >= from {
                            let rest = bytes@.subrange(from as int, bytes@.len() as int);
                            assert(rest[j - from] == bytes@[j]);
                            assert(!any_of3(0x40, 0x3A, 0x2E)(rest[j - from] as u64));
                        }
                    }
                }
                return false;
            },
        };
        let index = from + relative;
        proof {
            let rest = bytes@.subrange(from as int, bytes@.len() as int);
            assert forall|j: int| 0 <= j < index implies !#[trigger] candidate_at(bytes@, j) by {
                if j >= from {
                    assert(rest[j - from] == bytes@[j]);
                    assert(!any_of3(0x40, 0x3A, 0x2E)(rest[j - from] as u64));
                }
            }
            assert(rest[relative as int] == bytes@[index as int]);
        }
        let byte = bytes[index];
        if byte == 0x40 {
            assert(candidate_at(bytes@, index as int));
            return true;
        } else if byte == 0x3A {
            if scheme_ends_at(bytes, index, &http) || scheme_ends_at(bytes, index, &https) || scheme_ends_at(
                bytes,
                index,
                &ftp,
            ) || scheme_ends_at(bytes, index, &mailto) || scheme_ends_at(bytes, index, &xmpp) {
                assert(candidate_at(bytes@, index as int));
                return true;
            }
        } else {
            if scheme_ends_at(bytes, index, &www) {
                assert(candidate_at(bytes@, index as int));
                return true;
            }
        }
        assert(!candidate_at(bytes@, index as int));
        from = index + 1;
    }
    false
}

/// A byte the inline parser treats specially.
pub open spec fn inline_special(byte: u8) -> bool {
    byte == 0x5C || byte == 0x60 || byte == 0x2A || byte == 0x5F || byte == 0x7E || byte == 0x5B || byte == 0x5D
        || byte == 0x21 || byte == 0x3C || byte == 0x26 || byte == 0x0A
}

/// Text the inline parser would hand back as one text event: no inline
/// syntax bytes, and nothing that could start an autolink literal (an
/// email's `@`, a scheme's `:`, or `www`).
pub fn is_plain_inline(text: &str) -> (plain: bool)
    ensures
        plain == forall|i: int|
            0 <= i < text.spec_bytes().len() ==> !inline_special(#[trigger] text.spec_bytes()[i])
                && !(text.spec_bytes()[i] == 0x40 || text.spec_bytes()[i] == 0x3A || text.spec_bytes()[i] == 0x77
                || text.spec_bytes()[i] == 0x57),
{
    let bytes = text.as_bytes();
    let mut index: usize = 0;
    while index < bytes.len()
        invariant
            bytes@ == text.spec_bytes(),
            index <= bytes@.len(),
            forall|i: int|
                0 <= i < index ==> !inline_special(#[trigger] bytes@[i]) && !(bytes@[i] == 0x40 || bytes@[i] == 0x3A
                    || bytes@[i] == 0x77 || bytes@[i] == 0x57),
        decreases bytes@.len() - index,
    {
        let byte = bytes[index];
        let special = byte == 0x5C || byte == 0x60 || byte == 0x2A || byte == 0x5F || byte == 0x7E || byte == 0x5B
            || byte == 0x5D || byte == 0x21 || byte == 0x3C || byte == 0x26 || byte == 0x0A;
        if special || byte == 0x40 || byte == 0x3A || byte == 0x77 || byte == 0x57 {
            return false;
        }
        index += 1;
    }
    true
}


// ----- code spans and task markers -----

/// A code span's content in normal form: line endings as spaces, and one
/// space stripped from each end when both ends are spaces or line endings
/// and the content is not all spaces. `None` when it is already normal.
pub open spec fn spec_normalize_code_span(raw: Seq<char>) -> Option<Seq<char>> {
    let has_newline = exists|i: int| 0 <= i < raw.len() && #[trigger] raw[i] == '\n';
    let all_spaces = forall|i: int| 0 <= i < raw.len() ==> #[trigger] raw[i] == ' ' || raw[i] == '\n';
    let strippable = !all_spaces && raw.len() >= 2 && (raw[0] == ' ' || raw[0] == '\n') && (raw.last() == ' '
        || raw.last() == '\n');
    let replaced = raw.map_values(|ch: char| if ch == '\n' {
        ' '
    } else {
        ch
    });
    if !has_newline && !strippable {
        None
    } else if strippable {
        Some(replaced.subrange(1, replaced.len() - 1))
    } else {
        Some(replaced)
    }
}

/// Line endings become spaces; one leading and trailing space are
/// stripped when both exist and the content is not all spaces. `None`
/// when the content is already in normal form.
pub fn normalize_code_span(raw: &str) -> (normal: Option<String>)
    ensures
        match normal {
            Some(text) => spec_normalize_code_span(raw@) == Some(text@),
            None => spec_normalize_code_span(raw@) is None,
        },
{
    let chars = chars_of(raw);
    let length = chars.len();
    let mut has_newline = false;
    let mut all_spaces = true;
    let mut index: usize = 0;
    while index < length
        invariant
            chars@ == raw@,
            length == chars@.len(),
            index <= length,
            has_newline == exists|i: int| 0 <= i < index && #[trigger] raw@[i] == '\n',
            all_spaces == forall|i: int| 0 <= i < index ==> #[trigger] raw@[i] == ' ' || raw@[i] == '\n',
        decreases length - index,
    {
        if chars[index] == '\n' {
            has_newline = true;
        }
        if chars[index] != ' ' && chars[index] != '\n' {
            all_spaces = false;
        }
        index += 1;
    }
    let strippable = !all_spaces && length >= 2 && (chars[0] == ' ' || chars[0] == '\n') && (chars[length - 1] == ' '
        || chars[length - 1] == '\n');
    if !has_newline && !strippable {
        return None;
    }
    let (first, last) = if strippable {
        (1, length - 1)
    } else {
        (0, length)
    };
    let mut normal = String::new();
    let mut at = first;
    while at < last
        invariant
            chars@ == raw@,
            first <= at <= last <= chars@.len(),
            normal@ == raw@.map_values(|ch: char| if ch == '\n' {
                ' '
            } else {
                ch
            }).subrange(first as int, at as int),
        decreases last - at,
    {
        push_char(&mut normal, if chars[at] == '\n' {
            ' '
        } else {
            chars[at]
        });
        at += 1;
        proof {
            let replaced = raw@.map_values(|ch: char| if ch == '\n' {
                ' '
            } else {
                ch
            });
            assert(normal@ =~= replaced.subrange(first as int, at as int));
        }
    }
    proof {
        let replaced = raw@.map_values(|ch: char| if ch == '\n' {
            ' '
        } else {
            ch
        });
        if !strippable {
            assert(replaced.subrange(0, length as int) =~= replaced);
        }
    }
    Some(normal)
}

/// Whether a byte is a space or tab, or also a line ending.
pub open spec fn task_blank(byte: u8, newline: bool) -> bool {
    byte == 0x20 || byte == 0x09 || (newline && byte == 0x0A)
}

/// The first index from `i` on that is not a space or tab.
pub open spec fn task_skip(bytes: Seq<u8>, i: int) -> int
    decreases bytes.len() - i,
{
    if 0 <= i < bytes.len() && task_blank(bytes[i], false) {
        task_skip(bytes, i + 1)
    } else {
        i
    }
}

/// A task list marker `[ ]` or `[x]` opening an item's text: whether it
/// is checked, and where the text after it starts.
pub open spec fn spec_task_marker(bytes: Seq<u8>) -> Option<(bool, int)> {
    if bytes.len() < 3 || bytes[0] != 0x5B || bytes[2] != 0x5D || !(bytes[1] == 0x20 || bytes[1] == 0x78 || bytes[1]
        == 0x58) {
        None
    } else {
        let checked = bytes[1] != 0x20;
        if bytes.len() == 3 {
            Some((checked, 3))
        } else if !task_blank(bytes[3], true) {
            None
        } else {
            let rest = task_skip(bytes, 3);
            if forall|j: int| rest <= j < bytes.len() ==> task_blank(#[trigger] bytes[j], true) {
                None
            } else {
                Some((checked, rest))
            }
        }
    }
}

/// Splits a task list marker off an item's text: whether it is checked,
/// and the text after it.
pub fn split_task_marker(content: &str) -> (split: Option<(bool, &str)>)
    ensures
        match split {
            Some((checked, rest)) => spec_task_marker(content.spec_bytes()) matches Some((c, start)) && c == checked
                && rest.spec_bytes() == content.spec_bytes().subrange(start, content.spec_bytes().len() as int),
            None => spec_task_marker(content.spec_bytes()) is None,
        },
{
    let bytes = content.as_bytes();
    let length = bytes.len();
    if length < 3 || bytes[0] != 0x5B || bytes[2] != 0x5D {
        return None;
    }
    let checked = if bytes[1] == 0x20 {
        false
    } else if bytes[1] == 0x78 || bytes[1] == 0x58 {
        true
    } else {
        return None;
    };
    if length == 3 {
        proof {
            vstd::utf8::encode_utf8_valid_utf8(content@);
            vstd::utf8::is_char_boundary_start_end_of_seq(bytes@);
        }
        let (_, rest) = content.split_at(3);
        return Some((checked, rest));
    }
    if !(bytes[3] == 0x20 || bytes[3] == 0x09 || bytes[3] == 0x0A) {
        return None;
    }
    let mut start: usize = 3;
    while start < length && (bytes[start] == 0x20 || bytes[start] == 0x09)
        invariant
            3 <= start <= length == bytes@.len(),
            task_skip(bytes@, 3) == task_skip(bytes@, start as int),
            forall|j: int| 3 <= j < start ==> task_blank(#[trigger] bytes@[j], false),
        decreases length - start,
    {
        start += 1;
    }
    let mut index = start;
    while index < length && (bytes[index] == 0x20 || bytes[index] == 0x09 || bytes[index] == 0x0A)
        invariant
            start <= index <= length == bytes@.len(),
            forall|j: int| start <= j < index ==> task_blank(#[trigger] bytes@[j], true),
        decreases length - index,
    {
        index += 1;
    }
    if index >= length {
        return None;
    }
    proof {
        vstd::utf8::encode_utf8_valid_utf8(content@);
        crate::markdown::block::lemma_boundary_after_ascii(bytes@, start as int);
    }
    let (_, rest) = content.split_at(start);
    Some((checked, rest))
}

} // verus!
