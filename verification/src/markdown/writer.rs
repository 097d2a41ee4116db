//! Pieces of writing Markdown back out: the fences around code blocks and
//! the digits-then-delimiter test for text that would read as a list.

use vstd::prelude::*;
use vstd::string::StringSliceAdditionalSpecFns;
use crate::chars::{alphanumeric, is_alphanumeric, is_whitespace, white_space};
use crate::markdown::{CodeBlockKind, CodeBlockKindView, Event, EventSink, EventView, Tag, TagEnd, TagView, event_views};
use crate::text::reader::{line_break, lemma_line_break};
use crate::markdown::Alignment;
use crate::markdown::inline::same_ignoring_case;
use crate::message::{chars_of, decimal, push_char, string_of};

verus! {

/// `.` or `)` followed by a space, a tab, or nothing.
pub open spec fn spec_marker_delimiter(bytes: Seq<u8>) -> bool {
    bytes.len() > 0 && (bytes[0] == 0x2E || bytes[0] == 0x29) && (bytes.len() == 1 || bytes[1] == 0x20
        || bytes[1] == 0x09)
}

/// `.` or `)` followed by a space, a tab, or nothing: what turns a run of
/// digits into an ordered list marker.
pub fn is_marker_delimiter(bytes: &[u8]) -> (found: bool)
    ensures
        found == spec_marker_delimiter(bytes@),
{
    bytes.len() > 0 && (bytes[0] == 0x2E || bytes[0] == 0x29) && (bytes.len() == 1 || bytes[1] == 0x20
        || bytes[1] == 0x09)
}

/// The length of the run of `needle` that ends just before `end`.
pub open spec fn run_before(text: Seq<u8>, end: int, needle: u8) -> nat
    decreases end,
{
    if end <= 0 || end > text.len() || text[end - 1] != needle {
        0
    } else {
        run_before(text, end - 1, needle) + 1
    }
}

/// The longest run of `needle` among the first `end` bytes.
pub open spec fn longest_before(text: Seq<u8>, end: int, needle: u8) -> nat
    decreases end,
{
    if end <= 0 || end > text.len() {
        0
    } else {
        let before = longest_before(text, end - 1, needle);
        let here = run_before(text, end, needle);
        if here > before {
            here
        } else {
            before
        }
    }
}

proof fn lemma_run_before_bound(text: Seq<u8>, end: int, needle: u8)
    ensures
        run_before(text, end, needle) <= if end > 0 {
            end
        } else {
            0
        },
    decreases end,
{
    if end > 0 && end <= text.len() && text[end - 1] == needle {
        lemma_run_before_bound(text, end - 1, needle);
    }
}

/// The longest run of `needle` in `text`.
pub fn longest_run(text: &str, needle: u8) -> (longest: usize)
    ensures
        longest == longest_before(text.spec_bytes(), text.spec_bytes().len() as int, needle),
{
    let bytes = text.as_bytes();
    let mut longest: usize = 0;
    let mut current: usize = 0;
    let mut index: usize = 0;
    while index < bytes.len()
        invariant
            bytes@ == text.spec_bytes(),
            index <= bytes@.len(),
            current == run_before(bytes@, index as int, needle),
            longest == longest_before(bytes@, index as int, needle),
            current <= index,
        decreases bytes@.len() - index,
    {
        proof {
            lemma_run_before_bound(bytes@, index + 1, needle);
        }
        if bytes[index] == needle {
            current += 1;
            if current > longest {
                longest = current;
            }
        } else {
            current = 0;
        }
        index += 1;
    }
    longest
}

/// Whether `text` holds `ch`.
pub open spec fn holds_char(text: Seq<char>, ch: char) -> bool {
    exists|i: int| 0 <= i < text.len() && #[trigger] text[i] == ch
}

/// A fence for a code block: tildes when the info string holds a
/// backtick (which a backtick fence forbids), else backticks; one longer
/// than the longest run of that character in the content, and at least
/// three.
pub open spec fn spec_fence(content: &str, info: &str) -> Seq<char> {
    let fence_char: u8 = if holds_char(info@, '`') {
        0x7E
    } else {
        0x60
    };
    let run = longest_before(content.spec_bytes(), content.spec_bytes().len() as int, fence_char) + 1;
    let length = if run > 3 {
        run
    } else {
        3
    };
    Seq::new(length as nat, |i: int| fence_char as char)
}

/// A backtick fence longer than any backtick run in `content`, or a tilde
/// fence when the info string holds a backtick.
pub fn choose_fence(content: &str, info: &str) -> (fence: String)
    requires
        content.spec_bytes().len() < usize::MAX,
    ensures
        fence@ == spec_fence(content, info),
{
    let info_chars = chars_of(info);
    let mut has_backtick = false;
    let mut index: usize = 0;
    while index < info_chars.len()
        invariant
            info_chars@ == info@,
            index <= info_chars@.len(),
            has_backtick == exists|i: int| 0 <= i < index && #[trigger] info@[i] == '`',
        decreases info_chars@.len() - index,
    {
        if info_chars[index] == '`' {
            has_backtick = true;
        }
        index += 1;
    }
    let fence_char: u8 = if has_backtick {
        0x7E
    } else {
        0x60
    };
    let run = longest_run(content, fence_char);
    proof {
        lemma_longest_bound(content.spec_bytes(), content.spec_bytes().len() as int, fence_char);
    }
    let length = if run + 1 > 3 {
        run + 1
    } else {
        3
    };
    let mut fence = String::new();
    let mut count: usize = 0;
    while count < length
        invariant
            count <= length,
            fence@ == Seq::new(count as nat, |i: int| fence_char as char),
        decreases length - count,
    {
        push_char(&mut fence, fence_char as char);
        count += 1;
        proof {
            assert(fence@ =~= Seq::new(count as nat, |i: int| fence_char as char));
        }
    }
    fence
}

proof fn lemma_longest_bound(text: Seq<u8>, end: int, needle: u8)
    requires
        0 <= end <= text.len(),
    ensures
        longest_before(text, end, needle) <= end,
    decreases end,
{
    if end > 0 {
        lemma_longest_bound(text, end - 1, needle);
        lemma_run_before_bound(text, end, needle);
    }
}


// ----- the renderer's model -----

/// Whether a character is an ASCII digit.
pub open spec fn is_digit_char(ch: char) -> bool {
    '0' <= ch <= '9'
}

/// Whether a character is an ASCII letter or digit.
pub open spec fn is_alnum_char(ch: char) -> bool {
    ('0' <= ch <= '9') || ('a' <= ch <= 'z') || ('A' <= ch <= 'Z')
}

/// The length of the run of `needle` that ends just before `end`.
pub open spec fn char_run_before(text: Seq<char>, end: int, needle: char) -> nat
    decreases end,
{
    if end <= 0 || end > text.len() || text[end - 1] != needle {
        0
    } else {
        char_run_before(text, end - 1, needle) + 1
    }
}

/// The longest run of `needle` among the first `end` characters.
pub open spec fn char_longest(text: Seq<char>, end: int, needle: char) -> nat
    decreases end,
{
    if end <= 0 || end > text.len() {
        0
    } else {
        let before = char_longest(text, end - 1, needle);
        let here = char_run_before(text, end, needle);
        if here > before {
            here
        } else {
            before
        }
    }
}

/// The fence of a code block with `content` and `info`: tildes when the
/// info string holds a backtick, else backticks; one longer than the
/// longest run of that character in the content, and at least three.
pub open spec fn fence_of(content: Seq<char>, info: Seq<char>) -> Seq<char> {
    let fence_char = if holds_char(info, '`') {
        '~'
    } else {
        '`'
    };
    let run = char_longest(content, content.len() as int, fence_char) + 1;
    Seq::new(
        if run > 3 {
            run
        } else {
            3
        },
        |i: int| fence_char,
    )
}

/// A list's next number (none for bullets) and its marker character.
pub struct ListView {
    pub next_number: Option<u64>,
    pub marker: char,
}

/// What an open container contributes to the lines inside it.
pub struct BlockView {
    pub indent: Seq<char>,
    /// A list item marker or footnote label written instead of the indent
    /// on the first line inside, then spent.
    pub marker: Option<Seq<char>>,
    pub has_block: bool,
    pub loose: bool,
    pub list: Option<ListView>,
    pub footnote: bool,
    /// The marker of a list that just closed directly inside.
    pub last_list_marker: Option<char>,
}

/// A code block being collected.
pub struct CodeView {
    pub fenced: bool,
    pub info: Seq<char>,
    pub content: Seq<char>,
}

/// The whole state of a Markdown writer.
pub struct MarkdownState {
    pub out: Seq<char>,
    pub containers: Seq<BlockView>,
    pub at_line_start: bool,
    pub code: Option<CodeView>,
    pub table_alignments: Seq<Alignment>,
    pub in_table_cell: bool,
    /// While inside a heading: its level and the output before it.
    pub heading: Option<(u8, Seq<char>)>,
    pub in_heading: bool,
    /// Destination and title of each open link or image.
    pub links: Seq<(Seq<char>, Seq<char>)>,
    /// Delimiter of each open emphasis run and whether it sits in a word.
    pub emphasis: Seq<(char, bool)>,
    /// Length of the output right after the last run opener.
    pub run_opened_at: nat,
    /// Digits the current line holds so far, when it holds nothing else.
    pub line_digits: nat,
}

pub open spec fn block_prefix(block: BlockView) -> Seq<char> {
    match block.marker {
        Some(marker) => marker,
        None => block.indent,
    }
}

/// The prefixes of the containers, outermost first.
pub open spec fn block_prefixes(blocks: Seq<BlockView>) -> Seq<char>
    decreases blocks.len(),
{
    if blocks.len() == 0 {
        Seq::empty()
    } else {
        block_prefixes(blocks.drop_last()) + block_prefix(blocks.last())
    }
}

/// The indents of the containers, outermost first.
pub open spec fn block_indents(blocks: Seq<BlockView>) -> Seq<char>
    decreases blocks.len(),
{
    if blocks.len() == 0 {
        Seq::empty()
    } else {
        block_indents(blocks.drop_last()) + blocks.last().indent
    }
}

/// `text` without the given character at its end.
pub open spec fn trim_end_char(text: Seq<char>, ch: char) -> Seq<char>
    decreases text.len(),
{
    if text.len() > 0 && text.last() == ch {
        trim_end_char(text.drop_last(), ch)
    } else {
        text
    }
}

/// `text` without Unicode whitespace at its end.
pub open spec fn trim_end_white(text: Seq<char>) -> Seq<char>
    decreases text.len(),
{
    if text.len() > 0 && white_space(text.last()) {
        trim_end_white(text.drop_last())
    } else {
        text
    }
}

/// `count` copies of `ch`.
pub open spec fn repeated(ch: char, count: nat) -> Seq<char> {
    Seq::new(count, |i: int| ch)
}

impl MarkdownState {
    pub open spec fn begin_content(self) -> MarkdownState {
        if !self.at_line_start {
            self
        } else {
            MarkdownState {
                at_line_start: false,
                out: self.out + block_prefixes(self.containers),
                containers: self.containers.map_values(|block: BlockView| BlockView { marker: None, ..block }),
                ..self
            }
        }
    }

    pub open spec fn end_line(self) -> MarkdownState {
        MarkdownState { out: self.out.push('\n'), at_line_start: true, ..self }
    }

    pub open spec fn close_open_line(self) -> MarkdownState {
        if !self.at_line_start {
            self.end_line()
        } else {
            self
        }
    }

    /// A line with nothing but the indents, trailing whitespace trimmed.
    pub open spec fn blank_line(self) -> MarkdownState {
        MarkdownState { out: self.out + trim_end_white(block_indents(self.containers)), ..self }.end_line()
    }

    pub open spec fn push_text(self, text: Seq<char>) -> MarkdownState {
        MarkdownState { out: self.out + text, ..self }
    }

    /// Appends after the line's prefixes.
    pub open spec fn write(self, text: Seq<char>) -> MarkdownState {
        self.begin_content().push_text(text)
    }

    /// Separates a new block from the previous one in the same container.
    pub open spec fn begin_block(self, is_list: bool) -> MarkdownState {
        if self.containers.len() == 0 {
            self
        } else {
            let parent = self.containers.last();
            let marked = MarkdownState {
                containers: self.containers.update(
                    self.containers.len() - 1,
                    BlockView {
                        has_block: true,
                        last_list_marker: if is_list {
                            parent.last_list_marker
                        } else {
                            None
                        },
                        ..parent
                    },
                ),
                ..self
            };
            if parent.has_block {
                if parent.loose {
                    marked.close_open_line().blank_line()
                } else {
                    marked.close_open_line()
                }
            } else {
                marked
            }
        }
    }

    pub open spec fn push_block(self, indent: Seq<char>, marker: Option<Seq<char>>, loose: bool, list: Option<
        ListView,
    >) -> MarkdownState {
        MarkdownState {
            containers: self.containers.push(
                BlockView { indent, marker, has_block: false, loose, list, footnote: false, last_list_marker: None },
            ),
            ..self
        }
    }

    /// Closes a container; an empty one still gets its marker line.
    pub open spec fn pop_block(self) -> (MarkdownState, Option<BlockView>) {
        let is_empty = self.containers.len() > 0 && !self.containers.last().has_block;
        let marked = if is_empty {
            let begun = self.begin_content();
            MarkdownState { out: trim_end_char(begun.out, ' '), ..begun }
        } else {
            self
        };
        let closed = marked.close_open_line();
        if closed.containers.len() > 0 {
            (MarkdownState { containers: closed.containers.drop_last(), ..closed }, Some(closed.containers.last()))
        } else {
            (closed, None)
        }
    }

    /// The marker of the next item: its number and the list's delimiter,
    /// or the bullet, then a space.
    pub open spec fn next_item_marker(self) -> (MarkdownState, Seq<char>) {
        if self.containers.len() > 0 && self.containers.last().list is Some {
            let block = self.containers.last();
            let list = block.list->0;
            match list.next_number {
                Some(number) => (
                    MarkdownState {
                        containers: self.containers.update(
                            self.containers.len() - 1,
                            BlockView {
                                list: Some(ListView { next_number: Some(number.wrapping_add(1)), ..list }),
                                ..block
                            },
                        ),
                        ..self
                    },
                    decimal(number as nat) + seq![list.marker, ' '],
                ),
                None => (self, seq![list.marker, ' ']),
            }
        } else {
            (self, seq!['-', ' '])
        }
    }
}


// ----- escaping -----

/// `.` or `)` followed by a space, a tab, or nothing, over characters.
pub open spec fn marker_delimiter_chars(text: Seq<char>) -> bool {
    text.len() > 0 && (text[0] == '.' || text[0] == ')') && (text.len() == 1 || text[1] == ' ' || text[1] == '\t')
}

/// How many ASCII digits `text` starts with, from `from`.
pub open spec fn digits_from(text: Seq<char>, from: int) -> int
    decreases text.len() - from,
{
    if 0 <= from < text.len() && is_digit_char(text[from]) {
        digits_from(text, from + 1)
    } else {
        from
    }
}

/// Whether character `index` of a text event needs a backslash.
pub open spec fn needs_escape(text: Seq<char>, index: int, in_heading: bool, in_table_cell: bool) -> bool {
    let ch = text[index];
    if ch == '\\' || ch == '*' || ch == '_' || ch == '`' || ch == '[' || ch == ']' || ch == '<' || ch == '~' || ch
        == '&' || ch == '@' {
        true
    } else if ch == '!' {
        index + 1 == text.len()
    } else if ch == '#' {
        in_heading
    } else if ch == '|' {
        in_table_cell
    } else if ch == ':' {
        index + 2 < text.len() && text[index + 1] == '/' && text[index + 2] == '/'
    } else if ch == '.' {
        index >= 3 && (text[index - 3] == 'w' || text[index - 3] == 'W') && (text[index - 2] == 'w' || text[index
            - 2] == 'W') && (text[index - 1] == 'w' || text[index - 1] == 'W')
    } else {
        false
    }
}

/// The characters of a text event from `from` on, escaped: a newline as
/// a character reference, markup characters after a backslash.
pub open spec fn escaped_from(text: Seq<char>, from: int, in_heading: bool, in_table_cell: bool) -> Seq<char>
    decreases text.len() - from,
{
    if from < 0 || from >= text.len() {
        Seq::empty()
    } else {
        let ch = text[from];
        let here = if ch as u32 >= 0x80 {
            seq![ch]
        } else if ch == '\n' {
            seq!['&', '#', '1', '0', ';']
        } else if needs_escape(text, from, in_heading, in_table_cell) {
            seq!['\\', ch]
        } else {
            seq![ch]
        };
        here + escaped_from(text, from + 1, in_heading, in_table_cell)
    }
}

/// What the start of a line needs so that a text event's first
/// characters do not open a block: the escaped start and how many
/// characters it covers.
pub open spec fn line_start_escape(text: Seq<char>) -> (Seq<char>, int) {
    let first = text[0];
    let digits = digits_from(text, 0);
    if first == ' ' {
        (seq!['&', '#', '3', '2', ';'], 1)
    } else if first == '\t' {
        (seq!['&', '#', '9', ';'], 1)
    } else if first == '#' || first == '>' || first == '-' || first == '+' || first == '*' || first == '='
        || first == '~' || first == '`' || first == '_' {
        (seq!['\\', first], 1)
    } else if 0 < digits < 10 && marker_delimiter_chars(text.subrange(digits, text.len() as int)) {
        (text.subrange(0, digits) + seq!['\\', text[digits]], digits + 1)
    } else {
        (Seq::empty(), 0)
    }
}

/// Whether every character is an ASCII digit.
pub open spec fn all_digits(text: Seq<char>) -> bool {
    forall|i: int| 0 <= i < text.len() ==> is_digit_char(#[trigger] text[i])
}

/// Whether every character is Unicode whitespace.
pub open spec fn all_white(text: Seq<char>) -> bool {
    forall|i: int| 0 <= i < text.len() ==> white_space(#[trigger] text[i])
}

/// `text` with `|` written `\|`.
pub open spec fn pipes_escaped(text: Seq<char>) -> Seq<char>
    decreases text.len(),
{
    if text.len() == 0 {
        Seq::empty()
    } else {
        pipes_escaped(text.drop_last()) + if text.last() == '|' {
            seq!['\\', '|']
        } else {
            seq![text.last()]
        }
    }
}

/// `text` with each character of `special` after a backslash.
pub open spec fn backslashed(text: Seq<char>, special: Seq<char>) -> Seq<char>
    decreases text.len(),
{
    if text.len() == 0 {
        Seq::empty()
    } else {
        backslashed(text.drop_last(), special) + if holds_char(special, text.last()) {
            seq!['\\', text.last()]
        } else {
            seq![text.last()]
        }
    }
}

/// The tail of a link or image: `](destination "title")`, the
/// destination in angle brackets when it is empty or holds whitespace,
/// angle brackets or parentheses.
pub open spec fn link_tail(destination: Seq<char>, title: Seq<char>) -> Seq<char> {
    let bracketed = destination.len() == 0 || holds_char(destination, ' ') || holds_char(destination, '\t')
        || holds_char(destination, '\n') || holds_char(destination, '<') || holds_char(destination, '>')
        || holds_char(destination, '(') || holds_char(destination, ')');
    let dest = backslashed(destination, seq!['\\', '<', '>', '&', '(', ')']);
    let dest_text = if bracketed {
        seq!['<'] + dest + seq!['>']
    } else {
        dest
    };
    let title_text = if title.len() > 0 {
        seq![' ', '"'] + backslashed(title, seq!['\\', '"', '&']) + seq!['"']
    } else {
        Seq::empty()
    };
    seq![']', '('] + dest_text + title_text + seq![')']
}

/// A code span: backticks one longer than its longest run, padded with a
/// space when it starts or ends with a backtick or is spaced on both
/// sides.
pub open spec fn code_span_text(code: Seq<char>, in_table_cell: bool) -> Seq<char> {
    let ticks = repeated('`', char_longest(code, code.len() as int, '`') + 1);
    let padded = code.len() > 0 && (code[0] == '`' || code.last() == '`' || (code[0] == ' ' && code.last() == ' '
        && !all_white(code)));
    let pad = if padded {
        seq![' ']
    } else {
        Seq::empty()
    };
    ticks + pad + (if in_table_cell {
        pipes_escaped(code)
    } else {
        code
    }) + pad + ticks
}

// ----- raw HTML -----

/// Whether `&lt;` starts at `i`.
pub open spec fn lt_at(text: Seq<char>, i: int) -> bool {
    0 <= i && i + 4 <= text.len() && text[i] == '&' && text[i + 1] == 'l' && text[i + 2] == 't' && text[i + 3]
        == ';'
}

/// The first index from `i` on that is not `/`.
pub open spec fn slashes_end(text: Seq<char>, i: int) -> int
    decreases text.len() - i,
{
    if 0 <= i < text.len() && text[i] == '/' {
        slashes_end(text, i + 1)
    } else {
        i
    }
}

/// Whether the filtered tag `tag` starts at `i`, not followed by a
/// letter or digit.
pub open spec fn tag_name_at(text: Seq<char>, i: int, tag: Seq<char>) -> bool {
    0 <= i && i + tag.len() <= text.len() && same_ignoring_case(text.subrange(i, i + tag.len()), tag) && !(i
        + tag.len() < text.len() && is_alnum_char(text[i + tag.len()]))
}

/// Whether a tag the GFM tag filter neutralizes starts at `i`.
pub open spec fn filtered_name_at(text: Seq<char>, i: int) -> bool {
    tag_name_at(text, i, "title"@) || tag_name_at(text, i, "textarea"@) || tag_name_at(text, i, "style"@)
        || tag_name_at(text, i, "xmp"@) || tag_name_at(text, i, "iframe"@) || tag_name_at(text, i, "noembed"@)
        || tag_name_at(text, i, "noframes"@) || tag_name_at(text, i, "script"@) || tag_name_at(
        text,
        i,
        "plaintext"@,
    )
}

/// Raw HTML from `i` on with the tag filter undone: a `&lt;` in front of
/// a filtered tag name becomes `<` again.
pub open spec fn unfiltered(text: Seq<char>, i: int) -> Seq<char>
    decreases text.len() - i,
{
    if i < 0 || i >= text.len() {
        Seq::empty()
    } else if lt_at(text, i) {
        (if filtered_name_at(text, slashes_end(text, i + 4)) {
            seq!['<']
        } else {
            seq!['&', 'l', 't', ';']
        }) + unfiltered(text, i + 4)
    } else {
        seq![text[i]] + unfiltered(text, i + 1)
    }
}


// ----- the renderer's steps -----

/// The delimiter cell of a column's alignment.
pub open spec fn alignment_cell(alignment: Alignment) -> Seq<char> {
    match alignment {
        Alignment::Unaligned => seq![' ', '-', '-', '-', ' ', '|'],
        Alignment::Left => seq![' ', ':', '-', '-', ' ', '|'],
        Alignment::Center => seq![' ', ':', '-', ':', ' ', '|'],
        Alignment::Right => seq![' ', '-', '-', ':', ' ', '|'],
    }
}

/// The delimiter cells of the first `count` columns.
pub open spec fn alignment_cells(alignments: Seq<Alignment>, count: int) -> Seq<char>
    decreases count,
{
    if count <= 0 {
        Seq::empty()
    } else {
        alignment_cells(alignments, count - 1) + alignment_cell(alignments[count - 1])
    }
}

/// `text` without one newline at its end.
pub open spec fn without_final_newline(text: Seq<char>) -> Seq<char> {
    if text.len() > 0 && text.last() == '\n' {
        text.drop_last()
    } else {
        text
    }
}

/// `text` with every newline a space.
pub open spec fn newlines_as_spaces(text: Seq<char>) -> Seq<char> {
    text.map_values(|ch: char| if ch == '\n' {
        ' '
    } else {
        ch
    })
}

/// Whether `text` holds a newline.
pub open spec fn holds_newline(text: Seq<char>) -> bool {
    holds_char(text, '\n')
}

impl MarkdownState {
    /// One line of a code block: a blank line for an empty one, else the
    /// prefixes, `indent` and the line.
    pub open spec fn code_line(self, line: Seq<char>, indent: Seq<char>) -> MarkdownState {
        if line.len() == 0 {
            self.blank_line()
        } else {
            self.write(indent + line).end_line()
        }
    }

    /// The lines of `text` from `from` on as code lines.
    pub open spec fn code_lines(self, text: Seq<char>, from: int, indent: Seq<char>) -> MarkdownState
        decreases text.len() + 1 - from,
    {
        if from < 0 || from > text.len() {
            self
        } else {
            let end = line_break(text, from);
            proof {
                lemma_line_break(text, from);
            }
            let wrote = self.code_line(text.subrange(from, end), indent);
            if end < text.len() {
                wrote.code_lines(text, end + 1, indent)
            } else {
                wrote
            }
        }
    }

    /// Writes the collected code block: fenced, with its info string, or
    /// indented by four spaces.
    pub open spec fn end_code_block(self) -> MarkdownState {
        match self.code {
            None => self,
            Some(code) => {
                let taken = MarkdownState { code: None, ..self };
                let lines = without_final_newline(code.content);
                if code.fenced {
                    let fence = fence_of(code.content, code.info);
                    let opened = taken.write(fence + code.info).end_line();
                    let body = if code.content.len() > 0 {
                        opened.code_lines(lines, 0, Seq::empty())
                    } else {
                        opened
                    };
                    body.write(fence).end_line()
                } else if code.content.len() > 0 {
                    taken.code_lines(lines, 0, seq![' ', ' ', ' ', ' '])
                } else {
                    taken
                }
            },
        }
    }

    /// The lines of a setext heading's content from `from` on, each after
    /// the indents but the first.
    pub open spec fn heading_lines(self, text: Seq<char>, from: int, prefix: Seq<char>) -> MarkdownState
        decreases text.len() + 1 - from,
    {
        if from < 0 || from > text.len() {
            self
        } else {
            let end = line_break(text, from);
            proof {
                lemma_line_break(text, from);
            }
            let lead = if from > 0 {
                prefix
            } else {
                Seq::empty()
            };
            let wrote = self.push_text(lead + text.subrange(from, end) + seq!['\n']);
            if end < text.len() {
                wrote.heading_lines(text, end + 1, prefix)
            } else {
                wrote
            }
        }
    }

    /// Writes a heading: ATX, or setext when its content spans lines and
    /// its level allows it; past level two the line breaks become spaces.
    pub open spec fn end_heading(self) -> MarkdownState {
        let closing = MarkdownState { in_heading: false, ..self };
        match self.heading {
            None => closing,
            Some((level, outer)) => {
                let restored = MarkdownState { out: outer, heading: None, ..closing };
                let content = trim_end_char(self.out, '\n');
                if holds_newline(content) && level <= 2 {
                    let prefix = block_indents(self.containers);
                    restored.heading_lines(content, 0, prefix).push_text(
                        prefix + if level == 1 {
                            seq!['=', '=', '=']
                        } else {
                            seq!['-', '-', '-']
                        },
                    ).end_line()
                } else {
                    let hashes = restored.push_text(repeated('#', level as nat));
                    let titled = if content.len() > 0 {
                        hashes.push_text(seq![' '] + trim_end_char(newlines_as_spaces(content), ' '))
                    } else {
                        hashes
                    };
                    titled.end_line()
                }
            },
        }
    }

    /// The row under a table's header: a cell per alignment.
    pub open spec fn delimiter_row(self) -> MarkdownState {
        self.write(seq!['|'] + alignment_cells(self.table_alignments, self.table_alignments.len() as int)).end_line()
    }

    /// Opens an emphasis (`count` one) or strong (`count` two) run: `*`,
    /// or `_` right after another opener outside a word, so that nested
    /// runs do not merge.
    pub open spec fn open_run(self, count: nat) -> MarkdownState {
        let begun = self.begin_content();
        let adjacent = begun.run_opened_at > 0 && begun.out.len() == begun.run_opened_at;
        let intraword = if adjacent && begun.emphasis.len() > 0 {
            begun.emphasis.last().1
        } else {
            begun.out.len() > 0 && alphanumeric(begun.out.last())
        };
        let delimiter = if adjacent && !intraword && begun.emphasis.len() > 0 && begun.emphasis.last().0 == '*' {
            '_'
        } else {
            '*'
        };
        let opened = begun.push_text(repeated(delimiter, count));
        MarkdownState {
            emphasis: opened.emphasis.push((delimiter, intraword)),
            run_opened_at: opened.out.len(),
            ..opened
        }
    }

    /// Closes the innermost run with its opener's delimiter.
    pub open spec fn close_run(self, count: nat) -> MarkdownState {
        let delimiter = if self.emphasis.len() > 0 {
            self.emphasis.last().0
        } else {
            '*'
        };
        MarkdownState {
            emphasis: if self.emphasis.len() > 0 {
                self.emphasis.drop_last()
            } else {
                self.emphasis
            },
            ..self.push_text(repeated(delimiter, count))
        }
    }

    /// Closes the innermost link or image.
    pub open spec fn end_link(self) -> MarkdownState {
        if self.links.len() == 0 {
            self
        } else {
            let (destination, title) = self.links.last();
            MarkdownState { links: self.links.drop_last(), ..self.push_text(link_tail(destination, title)) }
        }
    }

    /// A text event, escaped wherever it could read as markup.
    pub open spec fn text(self, text: Seq<char>) -> MarkdownState {
        if text.len() == 0 {
            self
        } else {
            let fresh = self.at_line_start;
            let begun = self.begin_content();
            let (lead, index) = if fresh {
                line_start_escape(text)
            } else if self.line_digits > 0 && marker_delimiter_chars(text) {
                (seq!['\\'], 0)
            } else {
                (Seq::empty(), 0)
            };
            let so_far = if fresh {
                0
            } else {
                self.line_digits
            };
            let digits: nat = if all_digits(text) && (fresh || so_far > 0) {
                if so_far + text.len() < 10 {
                    (so_far + text.len()) as nat
                } else {
                    10
                }
            } else {
                0
            };
            MarkdownState {
                line_digits: digits,
                ..begun.push_text(lead + escaped_from(text, index, self.in_heading, self.in_table_cell))
            }
        }
    }

    pub open spec fn start(self, tag: TagView) -> MarkdownState {
        match tag {
            TagView::Paragraph | TagView::HtmlBlock => self.begin_block(false),
            TagView::Heading(level) => {
                let begun = self.begin_block(false).begin_content();
                MarkdownState { out: Seq::empty(), heading: Some((level, begun.out)), in_heading: true, ..begun }
            },
            TagView::BlockQuote => self.begin_block(false).push_block(seq!['>', ' '], None, true, None),
            TagView::CodeBlock(kind) => {
                let after_list = self.containers.len() > 0 && self.containers.last().last_list_marker is Some;
                let begun = self.begin_block(false);
                let (fenced, info) = match kind {
                    CodeBlockKindView::Indented => (after_list, Seq::empty()),
                    CodeBlockKindView::Fenced(info) => (true, info),
                };
                let marker_pending = begun.containers.len() > 0 && begun.containers.last().footnote
                    && begun.containers.last().marker is Some;
                let separated = if !fenced && marker_pending {
                    let marked = begun.begin_content();
                    MarkdownState { out: trim_end_char(marked.out, ' '), ..marked }.end_line()
                } else {
                    begun
                };
                MarkdownState { code: Some(CodeView { fenced, info, content: Seq::empty() }), ..separated }
            },
            TagView::List { start, tight } => {
                let begun = self.begin_block(true);
                let previous = if begun.containers.len() > 0 {
                    begun.containers.last().last_list_marker
                } else {
                    None
                };
                let marker = if start is None {
                    if previous == Some('-') {
                        '*'
                    } else {
                        '-'
                    }
                } else {
                    if previous == Some('.') {
                        ')'
                    } else {
                        '.'
                    }
                };
                begun.push_block(Seq::empty(), None, !tight, Some(ListView { next_number: start, marker }))
            },
            TagView::Item => {
                let (numbered, marker) = self.begin_block(false).next_item_marker();
                let loose = numbered.containers.len() > 0 && numbered.containers.last().loose;
                numbered.push_block(repeated(' ', marker.len()), Some(marker), loose, None)
            },
            TagView::FootnoteDefinition(label) => {
                let pushed = self.begin_block(false).push_block(
                    seq![' ', ' ', ' ', ' '],
                    Some(seq!['[', '^'] + label + seq![']', ':', ' ']),
                    true,
                    None,
                );
                MarkdownState {
                    containers: pushed.containers.update(
                        pushed.containers.len() - 1,
                        BlockView { footnote: true, ..pushed.containers.last() },
                    ),
                    ..pushed
                }
            },
            TagView::Table(alignments) => MarkdownState {
                table_alignments: alignments,
                ..self.begin_block(false)
            },
            TagView::TableHead | TagView::TableRow => self.write(seq!['|']),
            TagView::TableCell => MarkdownState { in_table_cell: true, ..self.push_text(seq![' ']) },
            TagView::Emphasis => self.open_run(1),
            TagView::Strong => self.open_run(2),
            TagView::Strikethrough => self.write(seq!['~', '~']),
            TagView::Link { destination, title } => {
                let wrote = self.write(seq!['[']);
                MarkdownState { links: wrote.links.push((destination, title)), ..wrote }
            },
            TagView::Image { destination, title } => {
                let wrote = self.write(seq!['!', '[']);
                MarkdownState { links: wrote.links.push((destination, title)), ..wrote }
            },
        }
    }

    pub open spec fn end(self, tag: TagEnd) -> MarkdownState {
        match tag {
            TagEnd::Paragraph | TagEnd::HtmlBlock => self.close_open_line(),
            TagEnd::Heading(_) => self.end_heading(),
            TagEnd::BlockQuote | TagEnd::FootnoteDefinition | TagEnd::Item => self.pop_block().0,
            TagEnd::CodeBlock | TagEnd::Table => self,
            TagEnd::List(_) => {
                let (popped, list) = self.pop_block();
                let marker = match list {
                    Some(block) => match block.list {
                        Some(list) => Some(list.marker),
                        None => None,
                    },
                    None => None,
                };
                if popped.containers.len() > 0 {
                    MarkdownState {
                        containers: popped.containers.update(
                            popped.containers.len() - 1,
                            BlockView { last_list_marker: marker, ..popped.containers.last() },
                        ),
                        ..popped
                    }
                } else {
                    popped
                }
            },
            TagEnd::TableHead => self.end_line().delimiter_row(),
            TagEnd::TableRow => self.end_line(),
            TagEnd::TableCell => MarkdownState { in_table_cell: false, ..self.push_text(seq![' ', '|']) },
            TagEnd::Emphasis => self.close_run(1),
            TagEnd::Strong => self.close_run(2),
            TagEnd::Strikethrough => self.push_text(seq!['~', '~']),
            TagEnd::Link | TagEnd::Image => self.end_link(),
        }
    }

    /// What one event does to the writer. Inside a code block only its
    /// text and its end count.
    pub open spec fn step(self, event: EventView) -> MarkdownState {
        match self.code {
            Some(code) => match event {
                EventView::Text(text) => MarkdownState {
                    code: Some(CodeView { content: code.content + text, ..code }),
                    ..self
                },
                EventView::End(TagEnd::CodeBlock) => self.end_code_block(),
                _ => self,
            },
            None => {
                let state = match event {
                    EventView::Text(_) => self,
                    _ => MarkdownState { line_digits: 0, ..self },
                };
                match event {
                    EventView::Start(tag) => state.start(tag),
                    EventView::End(tag) => state.end(tag),
                    EventView::Text(text) => state.text(text),
                    EventView::Code(code) => {
                        let begun = state.begin_content();
                        begun.push_text(code_span_text(code, begun.in_table_cell))
                    },
                    EventView::Html(html) => {
                        let raw = unfiltered(html, 0);
                        let wrote = state.write(raw);
                        if raw.len() > 0 && raw.last() == '\n' {
                            MarkdownState { at_line_start: true, ..wrote }
                        } else {
                            wrote
                        }
                    },
                    EventView::InlineHtml(html) => state.write(unfiltered(html, 0)),
                    EventView::SoftBreak => state.end_line(),
                    EventView::HardBreak => state.write(seq!['\\']).end_line(),
                    EventView::Rule => state.begin_block(false).write(seq!['*', '*', '*']).end_line(),
                    EventView::FootnoteReference(label) => state.write(seq!['[', '^'] + label + seq![']']),
                    EventView::TaskListMarker(checked) => state.write(
                        if checked {
                            seq!['[', 'x', ']', ' ']
                        } else {
                            seq!['[', ' ', ']', ' ']
                        },
                    ),
                }
            },
        }
    }

    /// What a run of events does to the writer.
    pub open spec fn steps(self, events: Seq<EventView>) -> MarkdownState
        decreases events.len(),
    {
        if events.len() == 0 {
            self
        } else {
            self.steps(events.drop_last()).step(events.last())
        }
    }

    /// A writer that has taken no event, its output starting with `out`.
    pub open spec fn initial(out: Seq<char>) -> MarkdownState {
        MarkdownState {
            out,
            containers: seq![
                BlockView {
                    indent: Seq::empty(),
                    marker: None,
                    has_block: false,
                    loose: true,
                    list: None,
                    footnote: false,
                    last_list_marker: None,
                },
            ],
            at_line_start: true,
            code: None,
            table_alignments: Seq::empty(),
            in_table_cell: false,
            heading: None,
            in_heading: false,
            links: Seq::empty(),
            emphasis: Seq::empty(),
            run_opened_at: 0,
            line_digits: 0,
        }
    }
}

/// The Markdown a run of events renders to, after `out`.
pub open spec fn rendered_markdown(out: Seq<char>, events: Seq<EventView>) -> Seq<char> {
    MarkdownState::initial(out).steps(events).close_open_line().out
}


// ----- laws -----

/// A code block's fence is at least three long and longer than any run
/// of its character in the content, so no line of the content can close
/// it early.
pub proof fn lemma_fence_outruns_content(content: Seq<char>, info: Seq<char>)
    ensures
        fence_of(content, info).len() >= 3,
        fence_of(content, info).len() > char_longest(content, content.len() as int, fence_of(content, info)[0]),
        forall|i: int| 0 <= i < fence_of(content, info).len() ==> #[trigger] fence_of(content, info)[i] == fence_of(
            content,
            info,
        )[0],
        fence_of(content, info)[0] == '`' || fence_of(content, info)[0] == '~',
        holds_char(info, '`') ==> fence_of(content, info)[0] == '~',
{
}

/// A code span's backtick fences are longer than any backtick run inside
/// it, so the span ends where it should.
pub proof fn lemma_code_span_outruns_backticks(code: Seq<char>, in_table_cell: bool)
    ensures
        ({
            let ticks = char_longest(code, code.len() as int, '`') + 1;
            &&& code_span_text(code, in_table_cell).subrange(0, ticks as int) == repeated('`', ticks)
            &&& ticks > char_longest(code, code.len() as int, '`')
        }),
{
    let ticks = char_longest(code, code.len() as int, '`') + 1;
    assert(code_span_text(code, in_table_cell).subrange(0, ticks as int) =~= repeated('`', ticks));
}

/// An emphasis or strong run closes with the delimiter it opened with,
/// and closing it leaves the open runs as they were before it opened.
pub proof fn lemma_runs_close_with_their_opener(state: MarkdownState, count: nat)
    ensures
        ({
            let opened = state.open_run(count);
            let closed = opened.close_run(count);
            &&& closed.emphasis == state.emphasis
            &&& closed.out == opened.out + repeated(opened.emphasis.last().0, count)
            &&& opened.out == state.begin_content().out + repeated(opened.emphasis.last().0, count)
        }),
{
    let opened = state.open_run(count);
    assert(opened.emphasis.drop_last() =~= state.emphasis);
}

// ----- the renderer -----

struct List {
    next_number: Option<u64>,
    marker: char,
}

struct Block {
    indent: Vec<char>,
    marker: Option<Vec<char>>,
    has_block: bool,
    loose: bool,
    list: Option<List>,
    footnote: bool,
    last_list_marker: Option<char>,
}

impl View for Block {
    type V = BlockView;

    closed spec fn view(&self) -> BlockView {
        BlockView {
            indent: self.indent@,
            marker: match self.marker {
                Some(marker) => Some(marker@),
                None => None,
            },
            has_block: self.has_block,
            loose: self.loose,
            list: match self.list {
                Some(list) => Some(ListView { next_number: list.next_number, marker: list.marker }),
                None => None,
            },
            footnote: self.footnote,
            last_list_marker: self.last_list_marker,
        }
    }
}

struct Code {
    fenced: bool,
    info: Vec<char>,
    content: Vec<char>,
}

/// Renders events back to Markdown. Every construct is written in one
/// canonical form (ATX headings, `-` bullets, `*` emphasis, backtick
/// fences, pipe tables) and text is escaped wherever it could otherwise be
/// read as markup.
pub struct MarkdownWriter {
    out: Vec<char>,
    containers: Vec<Block>,
    at_line_start: bool,
    code: Option<Code>,
    table_alignments: Vec<Alignment>,
    in_table_cell: bool,
    heading: Option<(u8, Vec<char>)>,
    in_heading: bool,
    links: Vec<(Vec<char>, Vec<char>)>,
    emphasis_delimiters: Vec<(char, bool)>,
    run_opened_at: usize,
    line_digits: usize,
    /// The events taken so far.
    history: Ghost<Seq<Event>>,
}

impl View for MarkdownWriter {
    type V = MarkdownState;

    closed spec fn view(&self) -> MarkdownState {
        MarkdownState {
            out: self.out@,
            containers: self.containers@.map_values(|block: Block| block@),
            at_line_start: self.at_line_start,
            code: match self.code {
                Some(code) => Some(CodeView { fenced: code.fenced, info: code.info@, content: code.content@ }),
                None => None,
            },
            table_alignments: self.table_alignments@,
            in_table_cell: self.in_table_cell,
            heading: match self.heading {
                Some((level, outer)) => Some((level, outer@)),
                None => None,
            },
            in_heading: self.in_heading,
            links: self.links@.map_values(|link: (Vec<char>, Vec<char>)| (link.0@, link.1@)),
            emphasis: self.emphasis_delimiters@,
            run_opened_at: self.run_opened_at as nat,
            line_digits: self.line_digits as nat,
        }
    }
}

/// Appends `tail` to `out`.
fn append(out: &mut Vec<char>, tail: &[char])
    ensures
        final(out)@ == old(out)@ + tail@,
{
    let mut index: usize = 0;
    while index < tail.len()
        invariant
            index <= tail@.len(),
            out@ == old(out)@ + tail@.subrange(0, index as int),
        decreases tail@.len() - index,
    {
        out.push(tail[index]);
        index += 1;
        proof {
            assert(tail@.subrange(0, index as int) =~= tail@.subrange(0, index - 1).push(tail@[index - 1]));
        }
    }
    assert(tail@.subrange(0, index as int) =~= tail@);
}

/// Appends `count` copies of `ch`.
fn append_repeated(out: &mut Vec<char>, ch: char, count: usize)
    ensures
        final(out)@ == old(out)@ + repeated(ch, count as nat),
{
    let mut index: usize = 0;
    while index < count
        invariant
            index <= count,
            out@ == old(out)@ + repeated(ch, index as nat),
        decreases count - index,
    {
        out.push(ch);
        index += 1;
        assert(repeated(ch, index as nat) =~= repeated(ch, (index - 1) as nat).push(ch));
    }
}

/// The decimal digits of `n`.
fn decimal_digits(n: u64) -> (digits: Vec<char>)
    ensures
        digits@ == decimal(n as nat),
    decreases n,
{
    let mut digits = if n >= 10 {
        decimal_digits(n / 10)
    } else {
        Vec::new()
    };
    let digit = (n % 10) as u8;
    digits.push((48 + digit) as char);
    proof {
        assert((48 + digit) as u8 as char == crate::message::digit_char((n % 10) as nat));
        if n < 10 {
            assert(digits@ =~= seq![crate::message::digit_char(n as nat)]);
        }
    }
    digits
}

/// Whether `text` holds `ch`.
fn contains_char(text: &[char], ch: char) -> (found: bool)
    ensures
        found == holds_char(text@, ch),
{
    let mut index: usize = 0;
    while index < text.len()
        invariant
            index <= text@.len(),
            forall|i: int| 0 <= i < index ==> text@[i] != ch,
        decreases text@.len() - index,
    {
        if text[index] == ch {
            assert(text@[index as int] == ch);
            return true;
        }
        index += 1;
    }
    false
}

proof fn lemma_char_run_bound(text: Seq<char>, end: int, needle: char)
    ensures
        char_run_before(text, end, needle) <= if end > 0 {
            end
        } else {
            0
        },
    decreases end,
{
    if end > 0 && end <= text.len() && text[end - 1] == needle {
        lemma_char_run_bound(text, end - 1, needle);
    }
}

/// The longest run of `needle` in `text`.
fn longest_char_run(text: &[char], needle: char) -> (longest: usize)
    ensures
        longest == char_longest(text@, text@.len() as int, needle),
{
    let mut longest: usize = 0;
    let mut current: usize = 0;
    let mut index: usize = 0;
    while index < text.len()
        invariant
            index <= text@.len(),
            current == char_run_before(text@, index as int, needle),
            longest == char_longest(text@, index as int, needle),
            current <= index,
        decreases text@.len() - index,
    {
        proof {
            lemma_char_run_bound(text@, index + 1, needle);
        }
        if text[index] == needle {
            current += 1;
            if current > longest {
                longest = current;
            }
        } else {
            current = 0;
        }
        index += 1;
    }
    longest
}

/// The fence of a code block.
fn fence_chars(content: &[char], info: &[char]) -> (fence: Vec<char>)
    ensures
        fence@ == fence_of(content@, info@),
{
    let fence_char = if contains_char(info, '`') {
        '~'
    } else {
        '`'
    };
    let run = longest_char_run(content, fence_char);
    let mut fence: Vec<char> = Vec::new();
    append_repeated(&mut fence, fence_char, run);
    fence.push(fence_char);
    while fence.len() < 3
        invariant
            fence@ == repeated(fence_char, fence@.len()),
            fence@.len() >= run + 1,
            fence@.len() <= 3 || fence@.len() == run + 1,
        decreases 3 - fence@.len(),
    {
        fence.push(fence_char);
        assert(fence@ =~= repeated(fence_char, fence@.len()));
    }
    proof {
        assert(repeated(fence_char, run as nat).push(fence_char) =~= repeated(fence_char, (run + 1) as nat));
        assert(fence@ =~= fence_of(content@, info@));
    }
    fence
}

/// `text` with each character of `special` after a backslash.
fn backslash_chars(text: &[char], special: &[char]) -> (escaped: Vec<char>)
    ensures
        escaped@ == backslashed(text@, special@),
{
    let mut escaped: Vec<char> = Vec::new();
    let mut index: usize = 0;
    while index < text.len()
        invariant
            index <= text@.len(),
            escaped@ == backslashed(text@.subrange(0, index as int), special@),
        decreases text@.len() - index,
    {
        proof {
            assert(text@.subrange(0, index + 1).drop_last() =~= text@.subrange(0, index as int));
        }
        let ch = text[index];
        if contains_char(special, ch) {
            escaped.push('\\');
        }
        escaped.push(ch);
        index += 1;
    }
    assert(text@.subrange(0, index as int) =~= text@);
    escaped
}

/// The tail of a link or image.
fn link_tail_chars(destination: &[char], title: &[char]) -> (tail: Vec<char>)
    ensures
        tail@ == link_tail(destination@, title@),
{
    let bracketed = destination.len() == 0 || contains_char(destination, ' ') || contains_char(destination, '\t')
        || contains_char(destination, '\n') || contains_char(destination, '<') || contains_char(destination, '>')
        || contains_char(destination, '(') || contains_char(destination, ')');
    let mut tail: Vec<char> = vec![']', '('];
    if bracketed {
        tail.push('<');
    }
    let dest_special = ['\\', '<', '>', '&', '(', ')'];
    let dest = backslash_chars(destination, &dest_special);
    append(&mut tail, dest.as_slice());
    if bracketed {
        tail.push('>');
    }
    let ghost before_title = tail@;
    if title.len() > 0 {
        tail.push(' ');
        tail.push('"');
        let title_special = ['\\', '"', '&'];
        let escaped = backslash_chars(title, &title_special);
        append(&mut tail, escaped.as_slice());
        tail.push('"');
        proof {
            assert(title_special@ =~= seq!['\\', '"', '&']);
        }
    }
    tail.push(')');
    proof {
        assert(dest_special@ =~= seq!['\\', '<', '>', '&', '(', ')']);
        assert(tail@ =~= link_tail(destination@, title@));
    }
    tail
}

/// Whether every character is Unicode whitespace.
fn every_white(text: &[char]) -> (white: bool)
    ensures
        white == all_white(text@),
{
    let mut index: usize = 0;
    while index < text.len()
        invariant
            index <= text@.len(),
            forall|i: int| 0 <= i < index ==> white_space(#[trigger] text@[i]),
        decreases text@.len() - index,
    {
        if !is_whitespace(text[index]) {
            return false;
        }
        index += 1;
    }
    true
}

/// A code span with its backtick fences.
fn code_span(code: &[char], in_table_cell: bool) -> (span: Vec<char>)
    ensures
        span@ == code_span_text(code@, in_table_cell),
{
    let run = longest_char_run(code, '`');
    let length = code.len();
    let padded = length > 0 && (code[0] == '`' || code[length - 1] == '`' || (code[0] == ' ' && code[length - 1]
        == ' ' && !every_white(code)));
    let mut span: Vec<char> = Vec::new();
    append_repeated(&mut span, '`', run);
    span.push('`');
    let ghost ticks = span@;
    proof {
        assert(ticks =~= repeated('`', (run + 1) as nat));
    }
    if padded {
        span.push(' ');
    }
    let ghost before_code = span@;
    if in_table_cell {
        let mut index: usize = 0;
        while index < length
            invariant
                length == code@.len(),
                index <= length,
                span@ == before_code + pipes_escaped(code@.subrange(0, index as int)),
            decreases length - index,
        {
            proof {
                assert(code@.subrange(0, index + 1).drop_last() =~= code@.subrange(0, index as int));
            }
            if code[index] == '|' {
                span.push('\\');
            }
            span.push(code[index]);
            index += 1;
        }
        assert(code@.subrange(0, index as int) =~= code@);
    } else {
        append(&mut span, code);
    }
    if padded {
        span.push(' ');
    }
    append_repeated(&mut span, '`', run);
    span.push('`');
    proof {
        assert(repeated('`', run as nat).push('`') =~= repeated('`', (run + 1) as nat));
        assert(span@ =~= code_span_text(code@, in_table_cell));
    }
    span
}

proof fn lemma_digits_from(text: Seq<char>, from: int)
    requires
        0 <= from <= text.len(),
    ensures
        from <= digits_from(text, from) <= text.len(),
        forall|i: int| from <= i < digits_from(text, from) ==> is_digit_char(#[trigger] text[i]),
        digits_from(text, from) < text.len() ==> !is_digit_char(text[digits_from(text, from)]),
    decreases text.len() - from,
{
    if from < text.len() && is_digit_char(text[from]) {
        lemma_digits_from(text, from + 1);
    }
}

/// The escaped start of a line and how many characters it covers.
fn escape_line_start(text: &[char]) -> (escape: (Vec<char>, usize))
    requires
        text@.len() > 0,
    ensures
        escape.0@ == line_start_escape(text@).0,
        escape.1 == line_start_escape(text@).1,
        escape.1 <= text@.len(),
{
    let first = text[0];
    if first == ' ' {
        let lead = vec!['&', '#', '3', '2', ';'];
        assert(lead@ =~= seq!['&', '#', '3', '2', ';']);
        return (lead, 1);
    }
    if first == '\t' {
        let lead = vec!['&', '#', '9', ';'];
        assert(lead@ =~= seq!['&', '#', '9', ';']);
        return (lead, 1);
    }
    if first == '#' || first == '>' || first == '-' || first == '+' || first == '*' || first == '=' || first == '~'
        || first == '`' || first == '_' {
        let lead = vec!['\\', first];
        assert(lead@ =~= seq!['\\', first]);
        return (lead, 1);
    }
    let mut digits: usize = 0;
    while digits < text.len() && '0' <= text[digits] && text[digits] <= '9'
        invariant
            digits <= text@.len(),
            digits_from(text@, 0) == digits_from(text@, digits as int),
        decreases text@.len() - digits,
    {
        digits += 1;
    }
    proof {
        lemma_digits_from(text@, 0);
    }
    if digits > 0 && digits < 10 && text.len() > digits && (text[digits] == '.' || text[digits] == ')') && (
    text.len() == digits + 1 || text[digits + 1] == ' ' || text[digits + 1] == '\t') {
        let mut lead: Vec<char> = Vec::new();
        let mut index: usize = 0;
        while index < digits
            invariant
                digits < text@.len(),
                index <= digits,
                lead@ == text@.subrange(0, index as int),
            decreases digits - index,
        {
            lead.push(text[index]);
            index += 1;
            assert(lead@ =~= text@.subrange(0, index as int));
        }
        lead.push('\\');
        lead.push(text[digits]);
        proof {
            let rest = text@.subrange(digits as int, text@.len() as int);
            assert(rest[0] == text@[digits as int]);
            assert(marker_delimiter_chars(rest));
            assert(lead@ =~= text@.subrange(0, digits as int) + seq!['\\', text@[digits as int]]);
        }
        return (lead, digits + 1);
    }
    proof {
        let rest = text@.subrange(digits as int, text@.len() as int);
        if digits < text@.len() {
            assert(rest[0] == text@[digits as int]);
            if rest.len() > 1 {
                assert(rest[1] == text@[digits + 1]);
            }
        }
    }
    (Vec::new(), 0)
}

/// The characters of a text event from `from` on, escaped.
fn escaped_chars(text: &[char], from: usize, in_heading: bool, in_table_cell: bool) -> (escaped: Vec<char>)
    requires
        from <= text@.len(),
    ensures
        escaped@ == escaped_from(text@, from as int, in_heading, in_table_cell),
{
    let mut pieces: Vec<char> = Vec::new();
    let ghost target = escaped_from(text@, from as int, in_heading, in_table_cell);
    let mut index = from;
    while index < text.len()
        invariant
            index <= text@.len(),
            target == escaped_from(text@, from as int, in_heading, in_table_cell),
            target == pieces@ + escaped_from(text@, index as int, in_heading, in_table_cell),
        decreases text@.len() - index,
    {
        let ch = text[index];
        let ghost before = pieces@;
        if ch as u32 >= 0x80 {
            pieces.push(ch);
        } else if ch == '\n' {
            pieces.push('&');
            pieces.push('#');
            pieces.push('1');
            pieces.push('0');
            pieces.push(';');
        } else {
            let length = text.len();
            let escape = if ch == '\\' || ch == '*' || ch == '_' || ch == '`' || ch == '[' || ch == ']' || ch == '<'
                || ch == '~' || ch == '&' || ch == '@' {
                true
            } else if ch == '!' {
                index + 1 == length
            } else if ch == '#' {
                in_heading
            } else if ch == '|' {
                in_table_cell
            } else if ch == ':' {
                length - index > 2 && text[index + 1] == '/' && text[index + 2] == '/'
            } else if ch == '.' {
                index >= 3 && (text[index - 3] == 'w' || text[index - 3] == 'W') && (text[index - 2] == 'w'
                    || text[index - 2] == 'W') && (text[index - 1] == 'w' || text[index - 1] == 'W')
            } else {
                false
            };
            assert(escape == needs_escape(text@, index as int, in_heading, in_table_cell));
            if escape {
                pieces.push('\\');
            }
            pieces.push(ch);
        }
        proof {
            let here = if ch as u32 >= 0x80 {
                seq![ch]
            } else if ch == '\n' {
                seq!['&', '#', '1', '0', ';']
            } else if needs_escape(text@, index as int, in_heading, in_table_cell) {
                seq!['\\', ch]
            } else {
                seq![ch]
            };
            assert(pieces@ =~= before + here);
            assert(escaped_from(text@, index as int, in_heading, in_table_cell) =~= here + escaped_from(
                text@,
                index + 1,
                in_heading,
                in_table_cell,
            ));
        }
        index += 1;
    }
    pieces
}

proof fn lemma_slashes_end(text: Seq<char>, i: int)
    requires
        0 <= i <= text.len(),
    ensures
        i <= slashes_end(text, i) <= text.len(),
    decreases text.len() - i,
{
    if i < text.len() && text[i] == '/' {
        lemma_slashes_end(text, i + 1);
    }
}

/// Whether the filtered tag `tag` starts at `at`.
fn tag_name_here(text: &[char], at: usize, tag: &str) -> (found: bool)
    requires
        at <= text@.len(),
    ensures
        found == tag_name_at(text@, at as int, tag@),
{
    let name = chars_of(tag);
    let length = name.len();
    if text.len() - at < length {
        return false;
    }
    let mut index: usize = 0;
    while index < length
        invariant
            name@ == tag@,
            length == name@.len(),
            at + length <= text@.len(),
            text@.len() <= usize::MAX,
            index <= length,
            forall|i: int|
                0 <= i < index ==> #[trigger] text@[at + i] == name@[i] || (('A' <= text@[at + i] <= 'Z')
                    && text@[at + i] as u32 + 32 == name@[i] as u32),
        decreases length - index,
    {
        let ch = text[at + index];
        let expected = name[index];
        let same = ch == expected || ('A' <= ch && ch <= 'Z' && (ch as u32) + 32 == expected as u32);
        if !same {
            proof {
                let window = text@.subrange(at as int, at + length);
                assert(window[index as int] == ch);
                assert(!same_ignoring_case(window, tag@));
            }
            return false;
        }
        index += 1;
    }
    proof {
        let window = text@.subrange(at as int, at + length);
        assert forall|i: int| 0 <= i < window.len() implies #[trigger] window[i] == tag@[i] || (('A' <= window[i]
            <= 'Z') && window[i] as u32 + 32 == tag@[i] as u32) by {
            assert(window[i] == text@[at + i]);
        }
        assert(same_ignoring_case(window, tag@));
    }
    if at + length < text.len() {
        let next = text[at + length];
        !(('0' <= next && next <= '9') || ('a' <= next && next <= 'z') || ('A' <= next && next <= 'Z'))
    } else {
        true
    }
}

/// Whether a tag the tag filter neutralizes starts at `at`.
fn filtered_name_here(text: &[char], at: usize) -> (found: bool)
    requires
        at <= text@.len(),
    ensures
        found == filtered_name_at(text@, at as int),
{
    tag_name_here(text, at, "title") || tag_name_here(text, at, "textarea") || tag_name_here(text, at, "style")
        || tag_name_here(text, at, "xmp") || tag_name_here(text, at, "iframe") || tag_name_here(text, at, "noembed")
        || tag_name_here(text, at, "noframes") || tag_name_here(text, at, "script") || tag_name_here(
        text,
        at,
        "plaintext",
    )
}

/// Raw HTML with the tag filter undone.
fn unfilter_tags(html: &[char]) -> (raw: Vec<char>)
    ensures
        raw@ == unfiltered(html@, 0),
{
    let mut raw: Vec<char> = Vec::new();
    let ghost target = unfiltered(html@, 0);
    let mut index: usize = 0;
    while index < html.len()
        invariant
            index <= html@.len(),
            target == unfiltered(html@, 0),
            target == raw@ + unfiltered(html@, index as int),
        decreases html@.len() - index,
    {
        let ghost before = raw@;
        if html.len() - index >= 4 && html[index] == '&' && html[index + 1] == 'l' && html[index + 2] == 't'
            && html[index + 3] == ';' {
            let mut name = index + 4;
            while name < html.len() && html[name] == '/'
                invariant
                    index + 4 <= name <= html@.len(),
                    slashes_end(html@, index + 4) == slashes_end(html@, name as int),
                decreases html@.len() - name,
            {
                name += 1;
            }
            if filtered_name_here(html, name) {
                raw.push('<');
            } else {
                raw.push('&');
                raw.push('l');
                raw.push('t');
                raw.push(';');
            }
            proof {
                assert(lt_at(html@, index as int));
                assert(slashes_end(html@, name as int) == name);
                assert(unfiltered(html@, index as int) =~= (if filtered_name_at(html@, name as int) {
                    seq!['<']
                } else {
                    seq!['&', 'l', 't', ';']
                }) + unfiltered(html@, index + 4));
                assert(raw@ =~= before + (if filtered_name_at(html@, name as int) {
                    seq!['<']
                } else {
                    seq!['&', 'l', 't', ';']
                }));
            }
            index += 4;
        } else {
            raw.push(html[index]);
            proof {
                assert(!lt_at(html@, index as int));
                assert(unfiltered(html@, index as int) =~= seq![html@[index as int]] + unfiltered(html@, index + 1));
            }
            index += 1;
        }
    }
    raw
}

impl MarkdownWriter {
    fn push_text(&mut self, text: &[char])
        ensures
            final(self).history == old(self).history,
            final(self)@ == old(self)@.push_text(text@),
    {
        append(&mut self.out, text);
    }

    fn begin_content(&mut self)
        ensures
            final(self).history == old(self).history,
            final(self)@ == old(self)@.begin_content(),
    {
        if !self.at_line_start {
            return;
        }
        self.at_line_start = false;
        let ghost start = self.out@;
        let mut index: usize = 0;
        while index < self.containers.len()
            invariant
                index <= self.containers@.len(),
                self.containers@.len() == old(self).containers@.len(),
                !self.at_line_start,
                self.history == old(self).history,
                self.code == old(self).code,
                self.table_alignments == old(self).table_alignments,
                self.in_table_cell == old(self).in_table_cell,
                self.heading == old(self).heading,
                self.in_heading == old(self).in_heading,
                self.links == old(self).links,
                self.emphasis_delimiters == old(self).emphasis_delimiters,
                self.run_opened_at == old(self).run_opened_at,
                self.line_digits == old(self).line_digits,
                self.out@ == start + block_prefixes(old(self)@.containers.subrange(0, index as int)),
                forall|i: int|
                    0 <= i < self.containers@.len() ==> #[trigger] self.containers@[i]@ == if i < index {
                        BlockView { marker: None, ..old(self).containers@[i]@ }
                    } else {
                        old(self).containers@[i]@
                    },
            decreases self.containers@.len() - index,
        {
            let ghost current = self.containers@[index as int]@;
            let ghost containers_before = self.containers@;
            let mut block = self.containers.remove(index);
            assert(block@ == current);
            match block.marker.take() {
                Some(marker) => append(&mut self.out, marker.as_slice()),
                None => append(&mut self.out, block.indent.as_slice()),
            }
            assert(block@ == BlockView { marker: None, ..current });
            self.containers.insert(index, block);
            proof {
                let before = old(self)@.containers;
                assert(before.subrange(0, index + 1).drop_last() =~= before.subrange(0, index as int));
                assert(before.subrange(0, index + 1).last() == current);
                assert(self.containers@ =~= containers_before.update(index as int, block));
                assert forall|i: int| 0 <= i < self.containers@.len() implies #[trigger] self.containers@[i]@
                    == if i < index + 1 {
                    BlockView { marker: None, ..old(self).containers@[i]@ }
                } else {
                    old(self).containers@[i]@
                } by {
                    if i != index {
                        assert(self.containers@[i] == containers_before[i]);
                    }
                }
            }
            index += 1;
        }
        proof {
            assert(old(self)@.containers.subrange(0, index as int) =~= old(self)@.containers);
            assert(self@.containers =~= old(self)@.containers.map_values(
                |block: BlockView| BlockView { marker: None, ..block },
            ));
        }
    }

    fn end_line(&mut self)
        ensures
            final(self).history == old(self).history,
            final(self)@ == old(self)@.end_line(),
    {
        self.out.push('\n');
        self.at_line_start = true;
    }

    fn close_open_line(&mut self)
        ensures
            final(self).history == old(self).history,
            final(self)@ == old(self)@.close_open_line(),
    {
        if !self.at_line_start {
            self.end_line();
        }
    }

    fn write(&mut self, text: &[char])
        ensures
            final(self).history == old(self).history,
            final(self)@ == old(self)@.write(text@),
    {
        self.begin_content();
        self.push_text(text);
    }

    /// A line with nothing but the indents, trailing whitespace trimmed.
    fn blank_line(&mut self)
        ensures
            final(self).history == old(self).history,
            final(self)@ == old(self)@.blank_line(),
    {
        let mut line: Vec<char> = Vec::new();
        let mut index: usize = 0;
        while index < self.containers.len()
            invariant
                index <= self.containers@.len(),
                line@ == block_indents(self@.containers.subrange(0, index as int)),
            decreases self.containers@.len() - index,
        {
            proof {
                assert(self@.containers.subrange(0, index + 1).drop_last() =~= self@.containers.subrange(0, index as int));
            }
            append(&mut line, self.containers[index].indent.as_slice());
            index += 1;
        }
        assert(self@.containers.subrange(0, index as int) =~= self@.containers);
        let ghost full = line@;
        while line.len() > 0 && is_whitespace(line[line.len() - 1])
            invariant
                trim_end_white(line@) == trim_end_white(full),
            decreases line@.len(),
        {
            line.pop();
        }
        self.push_text(line.as_slice());
        self.end_line();
    }

    fn begin_block(&mut self, is_list: bool)
        ensures
            final(self).history == old(self).history,
            final(self)@ == old(self)@.begin_block(is_list),
    {
        if self.containers.len() == 0 {
            return;
        }
        let mut parent = self.containers.pop().unwrap();
        let needs_separator = parent.has_block;
        let loose = parent.loose;
        parent.has_block = true;
        if !is_list {
            parent.last_list_marker = None;
        }
        self.containers.push(parent);
        proof {
            let last = old(self)@.containers.last();
            assert(self@.containers =~= old(self)@.containers.update(
                old(self)@.containers.len() - 1,
                BlockView {
                    has_block: true,
                    last_list_marker: if is_list {
                        last.last_list_marker
                    } else {
                        None
                    },
                    ..last
                },
            ));
        }
        if needs_separator {
            self.close_open_line();
            if loose {
                self.blank_line();
            }
        }
    }

    fn push_block(&mut self, indent: Vec<char>, marker: Option<Vec<char>>, loose: bool, list: Option<List>)
        ensures
            final(self).history == old(self).history,
            final(self)@ == old(self)@.push_block(
                indent@,
                match marker {
                    Some(marker) => Some(marker@),
                    None => None,
                },
                loose,
                match list {
                    Some(list) => Some(ListView { next_number: list.next_number, marker: list.marker }),
                    None => None,
                },
            ),
    {
        let block = Block { indent, marker, has_block: false, loose, list, footnote: false, last_list_marker: None };
        let ghost view = block@;
        self.containers.push(block);
        assert(self@.containers =~= old(self)@.containers.push(view));
    }

    /// Drops the given character from the end of the output.
    fn trim_output(&mut self, ch: char)
        ensures
            final(self).history == old(self).history,
            final(self)@ == (MarkdownState { out: trim_end_char(old(self)@.out, ch), ..old(self)@ }),
    {
        while self.out.len() > 0 && self.out[self.out.len() - 1] == ch
            invariant
                trim_end_char(self.out@, ch) == trim_end_char(old(self).out@, ch),
                self.history == old(self).history,
                self.containers == old(self).containers,
                self.at_line_start == old(self).at_line_start,
                self.code == old(self).code,
                self.table_alignments == old(self).table_alignments,
                self.in_table_cell == old(self).in_table_cell,
                self.heading == old(self).heading,
                self.in_heading == old(self).in_heading,
                self.links == old(self).links,
                self.emphasis_delimiters == old(self).emphasis_delimiters,
                self.run_opened_at == old(self).run_opened_at,
                self.line_digits == old(self).line_digits,
            decreases self.out@.len(),
        {
            self.out.pop();
        }
    }

    /// Closes a container; an empty one still gets its marker line.
    fn pop_block(&mut self) -> (block: Option<Block>)
        ensures
            final(self).history == old(self).history,
            final(self)@ == old(self)@.pop_block().0,
            match block {
                Some(block) => old(self)@.pop_block().1 == Some(block@),
                None => old(self)@.pop_block().1 is None,
            },
    {
        let count = self.containers.len();
        if count > 0 && !self.containers[count - 1].has_block {
            self.begin_content();
            self.trim_output(' ');
        }
        self.close_open_line();
        let ghost before = self@;
        let block = self.containers.pop();
        proof {
            if before.containers.len() > 0 {
                assert(self@.containers =~= before.containers.drop_last());
            }
        }
        block
    }

    fn next_item_marker(&mut self) -> (marker: Vec<char>)
        ensures
            final(self).history == old(self).history,
            (final(self)@, marker@) == old(self)@.next_item_marker(),
    {
        let count = self.containers.len();
        if count > 0 && self.containers[count - 1].list.is_some() {
            let mut block = self.containers.pop().unwrap();
            let mut list = block.list.take().unwrap();
            let mut marker = match list.next_number {
                Some(number) => {
                    list.next_number = Some(number.wrapping_add(1));
                    decimal_digits(number)
                },
                None => Vec::new(),
            };
            marker.push(list.marker);
            marker.push(' ');
            block.list = Some(list);
            self.containers.push(block);
            proof {
                let last = old(self)@.containers.last();
                let view = last.list->0;
                match view.next_number {
                    Some(number) => {
                        assert(self@.containers =~= old(self)@.containers.update(
                            count - 1,
                            BlockView {
                                list: Some(ListView { next_number: Some(number.wrapping_add(1)), ..view }),
                                ..last
                            },
                        ));
                    },
                    None => {
                        assert(self@.containers =~= old(self)@.containers);
                        assert(marker@ =~= seq![view.marker, ' ']);
                    },
                }
            }
            return marker;
        }
        let marker = vec!['-', ' '];
        assert(marker@ =~= seq!['-', ' ']);
        marker
    }

    fn code_line(&mut self, line: &[char], indent: &[char])
        ensures
            final(self).history == old(self).history,
            final(self)@ == old(self)@.code_line(line@, indent@),
    {
        if line.len() == 0 {
            self.blank_line();
            return;
        }
        self.begin_content();
        self.push_text(indent);
        self.push_text(line);
        self.end_line();
        proof {
            assert(old(self)@.begin_content().push_text(indent@).push_text(line@) == old(self)@.begin_content().push_text(
                indent@ + line@,
            )) by {
                assert(old(self)@.begin_content().out + indent@ + line@ =~= old(self)@.begin_content().out + (indent@
                    + line@));
            }
        }
    }

    /// The lines of `text` as code lines.
    fn code_lines(&mut self, text: &[char], indent: &[char])
        ensures
            final(self).history == old(self).history,
            final(self)@ == old(self)@.code_lines(text@, 0, indent@),
    {
        let ghost target = old(self)@.code_lines(text@, 0, indent@);
        let end = text.len();
        let mut start: usize = 0;
        loop
            invariant
                end == text@.len(),
                start <= end,
                target == self@.code_lines(text@, start as int, indent@),
                target == old(self)@.code_lines(text@, 0, indent@),
                self.history == old(self).history,
            decreases end - start,
        {
            let ghost state = self@;
            let mut stop = start;
            while stop < end && text[stop] != '\n'
                invariant
                    end == text@.len(),
                    start <= stop <= end,
                    line_break(text@, start as int) == line_break(text@, stop as int),
                decreases end - stop,
            {
                stop += 1;
            }
            proof {
                lemma_line_break(text@, start as int);
                assert(line_break(text@, start as int) == stop);
            }
            let mut line: Vec<char> = Vec::new();
            let mut index = start;
            while index < stop
                invariant
                    end == text@.len(),
                    start <= index <= stop <= end,
                    line@ == text@.subrange(start as int, index as int),
                decreases stop - index,
            {
                line.push(text[index]);
                index += 1;
                assert(line@ =~= text@.subrange(start as int, index as int));
            }
            self.code_line(line.as_slice(), indent);
            proof {
                if stop < end {
                    assert(state.code_lines(text@, start as int, indent@) == self@.code_lines(text@, stop + 1, indent@));
                } else {
                    assert(state.code_lines(text@, start as int, indent@) == self@);
                }
            }
            if stop >= end {
                return;
            }
            start = stop + 1;
        }
    }

    /// Writes the collected code block.
    fn end_code_block(&mut self)
        ensures
            final(self).history == old(self).history,
            final(self)@ == old(self)@.end_code_block(),
    {
        let code = match self.code.take() {
            Some(code) => code,
            None => return,
        };
        let Code { fenced, info, content } = code;
        let length = content.len();
        let mut lines: Vec<char> = Vec::new();
        append(&mut lines, content.as_slice());
        if length > 0 && content[length - 1] == '\n' {
            lines.pop();
        }
        assert(lines@ =~= without_final_newline(content@));
        if fenced {
            let fence = fence_chars(content.as_slice(), info.as_slice());
            let mut opener: Vec<char> = Vec::new();
            append(&mut opener, fence.as_slice());
            append(&mut opener, info.as_slice());
            self.write(opener.as_slice());
            self.end_line();
            if length > 0 {
                let indent: [char; 0] = [];
                assert(indent@ =~= Seq::<char>::empty());
                self.code_lines(lines.as_slice(), &indent);
            }
            self.write(fence.as_slice());
            self.end_line();
        } else if length > 0 {
            let indent = [' ', ' ', ' ', ' '];
            assert(indent@ =~= seq![' ', ' ', ' ', ' ']);
            self.code_lines(lines.as_slice(), &indent);
        }
    }

    /// The lines of a setext heading's content, each after `prefix` but
    /// the first.
    fn heading_lines(&mut self, text: &[char], prefix: &[char])
        ensures
            final(self).history == old(self).history,
            final(self)@ == old(self)@.heading_lines(text@, 0, prefix@),
    {
        let ghost target = old(self)@.heading_lines(text@, 0, prefix@);
        let end = text.len();
        let mut start: usize = 0;
        loop
            invariant
                end == text@.len(),
                start <= end,
                target == self@.heading_lines(text@, start as int, prefix@),
                target == old(self)@.heading_lines(text@, 0, prefix@),
                self.history == old(self).history,
            decreases end - start,
        {
            let ghost state = self@;
            let mut stop = start;
            while stop < end && text[stop] != '\n'
                invariant
                    end == text@.len(),
                    start <= stop <= end,
                    line_break(text@, start as int) == line_break(text@, stop as int),
                decreases end - stop,
            {
                stop += 1;
            }
            proof {
                lemma_line_break(text@, start as int);
                assert(line_break(text@, start as int) == stop);
            }
            let mut line: Vec<char> = Vec::new();
            if start > 0 {
                append(&mut line, prefix);
            }
            let ghost lead = line@;
            let mut index = start;
            while index < stop
                invariant
                    end == text@.len(),
                    start <= index <= stop <= end,
                    line@ == lead + text@.subrange(start as int, index as int),
                decreases stop - index,
            {
                line.push(text[index]);
                index += 1;
                assert(line@ =~= lead + text@.subrange(start as int, index as int));
            }
            line.push('\n');
            self.push_text(line.as_slice());
            proof {
                let lead_view = if start > 0 {
                    prefix@
                } else {
                    Seq::<char>::empty()
                };
                assert(lead == lead_view);
                assert(line@ =~= lead_view + text@.subrange(start as int, stop as int) + seq!['\n']);
                if stop < end {
                    assert(state.heading_lines(text@, start as int, prefix@) == self@.heading_lines(
                        text@,
                        stop + 1,
                        prefix@,
                    ));
                } else {
                    assert(state.heading_lines(text@, start as int, prefix@) == self@);
                }
            }
            if stop >= end {
                return;
            }
            start = stop + 1;
        }
    }

    /// Writes a heading, ATX or setext.
    fn end_heading(&mut self)
        ensures
            final(self).history == old(self).history,
            final(self)@ == old(self)@.end_heading(),
    {
        self.in_heading = false;
        let (level, outer) = match self.heading.take() {
            Some(heading) => heading,
            None => return,
        };
        let mut content = outer;
        std::mem::swap(&mut content, &mut self.out);
        let ghost full = content@;
        while content.len() > 0 && content[content.len() - 1] == '\n'
            invariant
                trim_end_char(content@, '\n') == trim_end_char(full, '\n'),
            decreases content@.len(),
        {
            content.pop();
        }
        let multiline = contains_char(content.as_slice(), '\n');
        if multiline && level <= 2 {
            let mut prefix: Vec<char> = Vec::new();
            let mut index: usize = 0;
            while index < self.containers.len()
                invariant
                    index <= self.containers@.len(),
                    prefix@ == block_indents(self@.containers.subrange(0, index as int)),
                decreases self.containers@.len() - index,
            {
                proof {
                    assert(self@.containers.subrange(0, index + 1).drop_last() =~= self@.containers.subrange(
                        0,
                        index as int,
                    ));
                }
                append(&mut prefix, self.containers[index].indent.as_slice());
                index += 1;
            }
            assert(self@.containers.subrange(0, index as int) =~= self@.containers);
            self.heading_lines(content.as_slice(), prefix.as_slice());
            let underline = if level == 1 {
                '='
            } else {
                '-'
            };
            let mut closing: Vec<char> = Vec::new();
            append(&mut closing, prefix.as_slice());
            append_repeated(&mut closing, underline, 3);
            proof {
                assert(repeated(underline, 3) =~= if level == 1 {
                    seq!['=', '=', '=']
                } else {
                    seq!['-', '-', '-']
                });
            }
            self.push_text(closing.as_slice());
            self.end_line();
            return;
        }
        append_repeated(&mut self.out, '#', level as usize);
        if content.len() > 0 {
            let mut joined: Vec<char> = vec![' '];
            let mut index: usize = 0;
            while index < content.len()
                invariant
                    index <= content@.len(),
                    joined@ == seq![' '] + newlines_as_spaces(content@.subrange(0, index as int)),
                decreases content@.len() - index,
            {
                joined.push(if content[index] == '\n' {
                    ' '
                } else {
                    content[index]
                });
                index += 1;
                assert(joined@ =~= seq![' '] + newlines_as_spaces(content@.subrange(0, index as int)));
            }
            assert(content@.subrange(0, index as int) =~= content@);
            let ghost spaced = joined@;
            while joined.len() > 1 && joined[joined.len() - 1] == ' '
                invariant
                    joined@.len() >= 1,
                    joined@[0] == ' ',
                    seq![' '] + trim_end_char(joined@.drop_first(), ' ') == seq![' '] + trim_end_char(
                        spaced.drop_first(),
                        ' ',
                    ),
                decreases joined@.len(),
            {
                let ghost before = joined@;
                joined.pop();
                assert(before.drop_first().drop_last() =~= joined@.drop_first());
            }
            proof {
                assert(spaced.drop_first() =~= newlines_as_spaces(content@));
                assert(joined@ =~= seq![' '] + trim_end_char(joined@.drop_first(), ' '));
            }
            self.push_text(joined.as_slice());
        }
        self.end_line();
    }

    /// The row under a table's header.
    fn delimiter_row(&mut self)
        ensures
            final(self).history == old(self).history,
            final(self)@ == old(self)@.delimiter_row(),
    {
        let mut row: Vec<char> = vec!['|'];
        let mut index: usize = 0;
        while index < self.table_alignments.len()
            invariant
                index <= self.table_alignments@.len(),
                row@ == seq!['|'] + alignment_cells(self.table_alignments@, index as int),
            decreases self.table_alignments@.len() - index,
        {
            let cell = match self.table_alignments[index] {
                Alignment::Unaligned => [' ', '-', '-', '-', ' ', '|'],
                Alignment::Left => [' ', ':', '-', '-', ' ', '|'],
                Alignment::Center => [' ', ':', '-', ':', ' ', '|'],
                Alignment::Right => [' ', '-', '-', ':', ' ', '|'],
            };
            assert(cell@ =~= alignment_cell(self.table_alignments@[index as int]));
            append(&mut row, &cell);
            index += 1;
            assert(row@ =~= seq!['|'] + alignment_cells(self.table_alignments@, index as int));
        }
        self.write(row.as_slice());
        self.end_line();
    }

    fn open_run(&mut self, count: usize)
        ensures
            final(self).history == old(self).history,
            final(self)@ == old(self)@.open_run(count as nat),
    {
        self.begin_content();
        let adjacent = self.run_opened_at > 0 && self.out.len() == self.run_opened_at;
        let open = self.emphasis_delimiters.len();
        let intraword = if adjacent && open > 0 {
            self.emphasis_delimiters[open - 1].1
        } else {
            let length = self.out.len();
            length > 0 && is_alphanumeric(self.out[length - 1])
        };
        let delimiter = if adjacent && !intraword && open > 0 && self.emphasis_delimiters[open - 1].0 == '*' {
            '_'
        } else {
            '*'
        };
        append_repeated(&mut self.out, delimiter, count);
        self.emphasis_delimiters.push((delimiter, intraword));
        self.run_opened_at = self.out.len();
    }

    fn close_run(&mut self, count: usize)
        ensures
            final(self).history == old(self).history,
            final(self)@ == old(self)@.close_run(count as nat),
    {
        let ghost before = self.emphasis_delimiters@;
        let (delimiter, _) = match self.emphasis_delimiters.pop() {
            Some(run) => run,
            None => ('*', false),
        };
        append_repeated(&mut self.out, delimiter, count);
        proof {
            if before.len() > 0 {
                assert(self.emphasis_delimiters@ =~= before.drop_last());
            }
        }
    }

    fn end_link(&mut self)
        ensures
            final(self).history == old(self).history,
            final(self)@ == old(self)@.end_link(),
    {
        let ghost before = self@.links;
        match self.links.pop() {
            None => {},
            Some((destination, title)) => {
                proof {
                    assert(self@.links =~= before.drop_last());
                }
                let tail = link_tail_chars(destination.as_slice(), title.as_slice());
                self.push_text(tail.as_slice());
            },
        }
    }

    /// A text event, escaped.
    fn text(&mut self, text: &[char])
        ensures
            final(self).history == old(self).history,
            final(self)@ == old(self)@.text(text@),
    {
        let length = text.len();
        if length == 0 {
            return;
        }
        let fresh = self.at_line_start;
        let so_far = if fresh {
            0
        } else {
            self.line_digits
        };
        let in_heading = self.in_heading;
        let in_table_cell = self.in_table_cell;
        self.begin_content();
        let ghost begun = self@;
        let mut index: usize = 0;
        if fresh {
            let (lead, consumed) = escape_line_start(text);
            self.push_text(lead.as_slice());
            index = consumed;
        } else if self.line_digits > 0 && (text[0] == '.' || text[0] == ')') && (length == 1 || text[1] == ' '
            || text[1] == '\t') {
            let lead = ['\\'];
            assert(lead@ =~= seq!['\\']);
            self.push_text(&lead);
        } else {
            proof {
                assert(self@.push_text(Seq::empty()) == self@) by {
                    assert(self@.out + Seq::<char>::empty() =~= self@.out);
                }
            }
        }
        let mut digits_only = true;
        let mut at: usize = 0;
        while at < length
            invariant
                length == text@.len(),
                at <= length,
                digits_only == forall|i: int| 0 <= i < at ==> is_digit_char(#[trigger] text@[i]),
            decreases length - at,
        {
            if !('0' <= text[at] && text[at] <= '9') {
                digits_only = false;
            }
            at += 1;
        }
        self.line_digits = if digits_only && (fresh || so_far > 0) {
            if so_far >= 10 || length >= 10 - so_far {
                10
            } else {
                so_far + length
            }
        } else {
            0
        };
        let ghost led = self@.out;
        let escaped = escaped_chars(text, index, in_heading, in_table_cell);
        self.push_text(escaped.as_slice());
        proof {
            let (lead, consumed) = if fresh {
                line_start_escape(text@)
            } else if old(self)@.line_digits > 0 && marker_delimiter_chars(text@) {
                (seq!['\\'], 0)
            } else {
                (Seq::empty(), 0)
            };
            assert(led =~= begun.out + lead);
            assert(consumed == index);
            assert(self@.out =~= begun.out + (lead + escaped_from(text@, index as int, in_heading, in_table_cell)));
        }
    }
}


impl MarkdownWriter {
    fn start(&mut self, tag: Tag)
        ensures
            final(self).history == old(self).history,
            final(self)@ == old(self)@.start(tag@),
    {
        let ghost view = tag@;
        match tag {
            Tag::Paragraph | Tag::HtmlBlock => self.begin_block(false),
            Tag::Heading(level) => {
                self.begin_block(false);
                self.begin_content();
                let mut outer: Vec<char> = Vec::new();
                std::mem::swap(&mut outer, &mut self.out);
                self.heading = Some((level, outer));
                self.in_heading = true;
                assert(self@ == old(self)@.start(view));
            },
            Tag::BlockQuote => {
                self.begin_block(false);
                let indent = vec!['>', ' '];
                assert(indent@ =~= seq!['>', ' ']);
                self.push_block(indent, None, true, None);
                assert(self@ == old(self)@.start(view));
            },
            Tag::CodeBlock(kind) => {
                let count = self.containers.len();
                let after_list = count > 0 && self.containers[count - 1].last_list_marker.is_some();
                self.begin_block(false);
                let (fenced, info) = match kind {
                    CodeBlockKind::Indented => (after_list, Vec::new()),
                    CodeBlockKind::Fenced(info) => (true, chars_of(&info)),
                };
                assert(match tag@ {
                    TagView::CodeBlock(CodeBlockKindView::Indented) => info@ == Seq::<char>::empty(),
                    TagView::CodeBlock(CodeBlockKindView::Fenced(text)) => info@ == text,
                    _ => true,
                });
                let count = self.containers.len();
                let marker_pending = count > 0 && self.containers[count - 1].footnote
                    && self.containers[count - 1].marker.is_some();
                if !fenced && marker_pending {
                    self.begin_content();
                    self.trim_output(' ');
                    self.end_line();
                }
                self.code = Some(Code { fenced, info, content: Vec::new() });
                assert(self@ == old(self)@.start(view));
            },
            Tag::List { start, tight } => {
                self.begin_block(true);
                let count = self.containers.len();
                let previous = if count > 0 {
                    self.containers[count - 1].last_list_marker
                } else {
                    None
                };
                let marker = match start {
                    None => if previous == Some('-') {
                        '*'
                    } else {
                        '-'
                    },
                    Some(_) => if previous == Some('.') {
                        ')'
                    } else {
                        '.'
                    },
                };
                self.push_block(Vec::new(), None, !tight, Some(List { next_number: start, marker }));
                assert(self@ == old(self)@.start(view));
            },
            Tag::Item => {
                self.begin_block(false);
                let marker = self.next_item_marker();
                let mut indent: Vec<char> = Vec::new();
                append_repeated(&mut indent, ' ', marker.len());
                let count = self.containers.len();
                let loose = count > 0 && self.containers[count - 1].loose;
                self.push_block(indent, Some(marker), loose, None);
                assert(self@ == old(self)@.start(view));
            },
            Tag::FootnoteDefinition(label) => {
                self.begin_block(false);
                let mut marker = vec!['[', '^'];
                append(&mut marker, chars_of(&label).as_slice());
                marker.push(']');
                marker.push(':');
                marker.push(' ');
                assert(marker@ =~= seq!['[', '^'] + label@ + seq![']', ':', ' ']);
                let indent = vec![' ', ' ', ' ', ' '];
                assert(indent@ =~= seq![' ', ' ', ' ', ' ']);
                self.push_block(indent, Some(marker), true, None);
                let ghost pushed = self@;
                let mut block = self.containers.pop().unwrap();
                block.footnote = true;
                self.containers.push(block);
                assert(self@.containers =~= pushed.containers.update(
                    pushed.containers.len() - 1,
                    BlockView { footnote: true, ..pushed.containers.last() },
                ));
                assert(self@ == old(self)@.start(view));
            },
            Tag::Table(alignments) => {
                self.begin_block(false);
                self.table_alignments = alignments;
                assert(self@ == old(self)@.start(view));
            },
            Tag::TableHead | Tag::TableRow => {
                let bar = ['|'];
                assert(bar@ =~= seq!['|']);
                self.write(&bar);
                assert(self@ == old(self)@.start(view));
            },
            Tag::TableCell => {
                let space = [' '];
                assert(space@ =~= seq![' ']);
                self.push_text(&space);
                self.in_table_cell = true;
                assert(self@ == old(self)@.start(view));
            },
            Tag::Emphasis => self.open_run(1),
            Tag::Strong => self.open_run(2),
            Tag::Strikethrough => {
                let tildes = ['~', '~'];
                assert(tildes@ =~= seq!['~', '~']);
                self.write(&tildes);
                assert(self@ == old(self)@.start(view));
            },
            Tag::Link { destination, title } => {
                let bracket = ['['];
                assert(bracket@ =~= seq!['[']);
                self.write(&bracket);
                let ghost before = self@.links;
                self.links.push((chars_of(&destination), chars_of(&title)));
                assert(self@.links =~= before.push((destination@, title@)));
                assert(self@ == old(self)@.start(view));
            },
            Tag::Image { destination, title } => {
                let bracket = ['!', '['];
                assert(bracket@ =~= seq!['!', '[']);
                self.write(&bracket);
                let ghost before = self@.links;
                self.links.push((chars_of(&destination), chars_of(&title)));
                assert(self@.links =~= before.push((destination@, title@)));
                assert(self@ == old(self)@.start(view));
            },
        }
    }

    fn end(&mut self, tag: TagEnd)
        ensures
            final(self).history == old(self).history,
            final(self)@ == old(self)@.end(tag),
    {
        match tag {
            TagEnd::Paragraph | TagEnd::HtmlBlock => self.close_open_line(),
            TagEnd::Heading(_) => self.end_heading(),
            TagEnd::BlockQuote | TagEnd::FootnoteDefinition | TagEnd::Item => {
                self.pop_block();
                assert(self@ == old(self)@.end(tag));
            },
            TagEnd::CodeBlock | TagEnd::Table => {},
            TagEnd::List(_) => {
                let block = self.pop_block();
                let marker = match block {
                    Some(block) => match block.list {
                        Some(list) => Some(list.marker),
                        None => None,
                    },
                    None => None,
                };
                let count = self.containers.len();
                if count > 0 {
                    let ghost popped = self@;
                    let mut parent = self.containers.pop().unwrap();
                    parent.last_list_marker = marker;
                    self.containers.push(parent);
                    assert(self@.containers =~= popped.containers.update(
                        popped.containers.len() - 1,
                        BlockView { last_list_marker: marker, ..popped.containers.last() },
                    ));
                }
                assert(self@ == old(self)@.end(tag));
            },
            TagEnd::TableHead => {
                self.end_line();
                self.delimiter_row();
                assert(self@ == old(self)@.end(tag));
            },
            TagEnd::TableRow => self.end_line(),
            TagEnd::TableCell => {
                let closing = [' ', '|'];
                assert(closing@ =~= seq![' ', '|']);
                self.push_text(&closing);
                self.in_table_cell = false;
                assert(self@ == old(self)@.end(tag));
            },
            TagEnd::Emphasis => self.close_run(1),
            TagEnd::Strong => self.close_run(2),
            TagEnd::Strikethrough => {
                let tildes = ['~', '~'];
                assert(tildes@ =~= seq!['~', '~']);
                self.push_text(&tildes);
                assert(self@ == old(self)@.end(tag));
            },
            TagEnd::Link | TagEnd::Image => self.end_link(),
        }
    }

    /// Takes one event.
    fn render_event(&mut self, event: Event)
        ensures
            final(self).history == old(self).history,
            final(self)@ == old(self)@.step(event@),
    {
        if self.code.is_some() {
            match event {
                Event::Text(text) => {
                    let mut code = self.code.take().unwrap();
                    append(&mut code.content, chars_of(&text).as_slice());
                    self.code = Some(code);
                },
                Event::End(TagEnd::CodeBlock) => self.end_code_block(),
                _ => {},
            }
            return;
        }
        if let Event::Text(_) = event {
        } else {
            self.line_digits = 0;
        }
        match event {
            Event::Start(tag) => self.start(tag),
            Event::End(tag) => self.end(tag),
            Event::Text(text) => {
                let chars = chars_of(&text);
                self.text(chars.as_slice());
            },
            Event::Code(code) => {
                self.begin_content();
                let span = code_span(chars_of(&code).as_slice(), self.in_table_cell);
                self.push_text(span.as_slice());
            },
            Event::Html(html) => {
                let raw = unfilter_tags(chars_of(&html).as_slice());
                self.write(raw.as_slice());
                let length = raw.len();
                if length > 0 && raw[length - 1] == '\n' {
                    self.at_line_start = true;
                }
            },
            Event::InlineHtml(html) => {
                let raw = unfilter_tags(chars_of(&html).as_slice());
                self.write(raw.as_slice());
            },
            Event::SoftBreak => self.end_line(),
            Event::HardBreak => {
                let slash = ['\\'];
                assert(slash@ =~= seq!['\\']);
                self.write(&slash);
                self.end_line();
            },
            Event::Rule => {
                self.begin_block(false);
                let rule = ['*', '*', '*'];
                assert(rule@ =~= seq!['*', '*', '*']);
                self.write(&rule);
                self.end_line();
            },
            Event::FootnoteReference(label) => {
                let mut reference = vec!['[', '^'];
                append(&mut reference, chars_of(&label).as_slice());
                reference.push(']');
                assert(reference@ =~= seq!['[', '^'] + label@ + seq![']']);
                self.write(reference.as_slice());
            },
            Event::TaskListMarker(checked) => {
                let marker = if checked {
                    ['[', 'x', ']', ' ']
                } else {
                    ['[', ' ', ']', ' ']
                };
                assert(marker@ =~= if checked {
                    seq!['[', 'x', ']', ' ']
                } else {
                    seq!['[', ' ', ']', ' ']
                });
                self.write(&marker);
            },
        }
    }

    fn starting_with(out: Vec<char>) -> (writer: MarkdownWriter)
        ensures
            writer@ == MarkdownState::initial(out@),
            writer.received() == Seq::<Event>::empty(),
    {
        let root = Block {
            indent: Vec::new(),
            marker: None,
            has_block: false,
            loose: true,
            list: None,
            footnote: false,
            last_list_marker: None,
        };
        let writer = MarkdownWriter {
            out,
            containers: vec![root],
            at_line_start: true,
            code: None,
            table_alignments: Vec::new(),
            in_table_cell: false,
            heading: None,
            in_heading: false,
            links: Vec::new(),
            emphasis_delimiters: Vec::new(),
            run_opened_at: 0,
            line_digits: 0,
            history: Ghost(Seq::empty()),
        };
        proof {
            assert(writer@.containers =~= MarkdownState::initial(out@).containers);
            assert(writer@.links =~= Seq::<(Seq<char>, Seq<char>)>::empty());
        }
        writer
    }

    /// A writer with nothing written yet.
    pub fn new() -> (writer: MarkdownWriter)
        ensures
            writer@ == MarkdownState::initial(Seq::empty()),
            writer.received() == Seq::<Event>::empty(),
    {
        MarkdownWriter::starting_with(Vec::new())
    }

    /// The length of the output not handed out yet.
    pub fn pending_len(&self) -> (length: usize)
        ensures
            length == self@.out.len(),
    {
        self.out.len()
    }

    /// Hands out the output so far at the start of a line outside a
    /// heading; otherwise hands out nothing.
    pub fn take_output(&mut self) -> (chunk: String)
        ensures
            final(self).received() == old(self).received(),
            if old(self)@.at_line_start && old(self)@.heading is None {
                &&& chunk@ == old(self)@.out
                &&& final(self)@ == (MarkdownState { out: Seq::empty(), ..old(self)@ })
            } else {
                &&& chunk@ == Seq::<char>::empty()
                &&& final(self)@ == old(self)@
            },
    {
        if self.at_line_start && self.heading.is_none() {
            let chunk = string_of(self.out.as_slice());
            self.out = Vec::new();
            chunk
        } else {
            String::new()
        }
    }

    /// Ends the open line and hands back what is left of the output.
    pub fn finish_markdown(self) -> (text: String)
        ensures
            text@ == self@.close_open_line().out,
    {
        let mut writer = self;
        writer.close_open_line();
        string_of(writer.out.as_slice())
    }
}

impl EventSink for MarkdownWriter {
    closed spec fn received(&self) -> Seq<Event> {
        self.history@
    }

    fn event(&mut self, event: Event)
        ensures
            final(self)@ == old(self)@.step(event@),
    {
        let ghost taken = event;
        self.render_event(event);
        proof {
            self.history = Ghost(self.history@.push(taken));
        }
    }
}

/// Renders `events` as Markdown after the text in `out`.
pub fn push_markdown(out: &mut String, events: Vec<Event>)
    ensures
        final(out)@ == rendered_markdown(old(out)@, event_views(events@)),
{
    let mut writer = MarkdownWriter::starting_with(chars_of(out.as_str()));
    let ghost all = events@;
    let ghost views = event_views(all);
    for event in iter: events
        invariant
            views == event_views(all),
            iter.seq() == all,
            writer@ == MarkdownState::initial(old(out)@).steps(views.take(iter.index() as int)),
    {
        proof {
            assert(views.take(iter.index() + 1).drop_last() =~= views.take(iter.index() as int));
            assert(event@ == views[iter.index() as int]);
        }
        writer.render_event(event);
    }
    assert(views.take(views.len() as int) =~= views);
    *out = writer.finish_markdown();
}

} // verus!
