//! The block structure of a Markdown document: the records a block keeps
//! (lines as byte ranges of the source, table cells and rows) and the
//! scanners that recognize the start of a block on a line.

use vstd::prelude::*;
use vstd::string::StringSliceAdditionalSpecFns;
use vstd::utf8::{
    decode_utf8, encode_utf8_decode_utf8, encode_utf8_valid_utf8, is_char_boundary, is_char_boundary_iff_not_is_continuation_byte,
    is_char_boundary_start_end_of_seq, is_continuation_byte, length_of_first_scalar, pop_first_scalar, valid_utf8,
    valid_utf8_split, decode_utf8_split,
};
use crate::markdown::Alignment;
use crate::chars::{is_whitespace, white_space};
use crate::message::{chars_of, push_char};
use vstd::string::StringExecFns;

verus! {

/// Which extensions are enabled. Everything is on by default.
#[derive(Debug, Clone, Copy, PartialEq, Eq, Structural)]
pub struct Options {
    pub tables: bool,
    pub strikethrough: bool,
    pub task_lists: bool,
    pub autolinks: bool,
    pub tagfilter: bool,
    pub footnotes: bool,
}

impl Default for Options {
    fn default() -> (options: Options)
        ensures
            options.tables && options.strikethrough && options.task_lists && options.autolinks
                && options.tagfilter && options.footnotes,
    {
        Options {
            tables: true,
            strikethrough: true,
            task_lists: true,
            autolinks: true,
            tagfilter: true,
            footnotes: true,
        }
    }
}

#[derive(Debug, Clone, PartialEq, Eq)]
pub struct ListData {
    pub ordered: bool,
    pub start: u64,
    /// Bullet character, or the delimiter (`.` or `)`) for ordered lists.
    pub marker: u8,
    pub tight: bool,
}

#[derive(Debug, Clone, PartialEq, Eq)]
pub struct ItemData {
    pub marker_offset: u32,
    pub padding: u32,
}

#[derive(Debug, Clone, PartialEq, Eq)]
pub struct TableData {
    pub alignments: Vec<Alignment>,
    /// Every row's cells in one vector, header row first, already split
    /// and trimmed; `row_ends[i]` is where row `i` stops.
    pub cells: Vec<Cell>,
    pub row_ends: Vec<u32>,
}

impl TableData {
    /// Row ends that climb and stay within the cells.
    pub open spec fn well_formed(&self) -> bool {
        &&& forall|i: int, j: int| 0 <= i <= j < self.row_ends@.len() ==> self.row_ends@[i] <= self.row_ends@[j]
        &&& forall|i: int| 0 <= i < self.row_ends@.len() ==> self.row_ends@[i] <= self.cells@.len()
    }

    /// Where row `i` starts: where the row before it ends.
    pub open spec fn row_start(&self, i: int) -> int {
        if i == 0 {
            0
        } else {
            self.row_ends@[i - 1] as int
        }
    }

    /// The rows, header first.
    pub fn rows(&self) -> (rows: Vec<&[Cell]>)
        requires
            self.well_formed(),
        ensures
            rows@.len() == self.row_ends@.len(),
            forall|i: int|
                0 <= i < rows@.len() ==> #[trigger] rows@[i]@ == self.cells@.subrange(
                    self.row_start(i),
                    self.row_ends@[i] as int,
                ),
    {
        let mut rows: Vec<&[Cell]> = Vec::new();
        let mut start: usize = 0;
        let mut index: usize = 0;
        while index < self.row_ends.len()
            invariant
                self.well_formed(),
                index <= self.row_ends@.len(),
                rows@.len() == index,
                start == self.row_start(index as int),
                forall|i: int|
                    0 <= i < index ==> #[trigger] rows@[i]@ == self.cells@.subrange(
                        self.row_start(i),
                        self.row_ends@[i] as int,
                    ),
            decreases self.row_ends@.len() - index,
        {
            let end = self.row_ends[index] as usize;
            proof {
                if index > 0 {
                    assert(self.row_ends@[index - 1] <= self.row_ends@[index as int]);
                }
            }
            rows.push(slice_cells(self.cells.as_slice(), start, end));
            start = end;
            index += 1;
        }
        rows
    }
}

fn slice_cells<'a>(cells: &'a [Cell], start: usize, end: usize) -> (out: &'a [Cell])
    requires
        start <= end <= cells@.len(),
    ensures
        out@ == cells@.subrange(start as int, end as int),
{
    &cells[start..end]
}

/// A table cell: a trimmed range of the source, or an owned string when a
/// `\|` escape had to be resolved.
#[derive(Debug, Clone, PartialEq, Eq)]
pub enum Cell {
    Range(usize, usize),
    Owned(String),
}

/// One line of a leaf block's text: a byte range of the source plus spaces
/// synthesized from a partially consumed tab. Nothing is copied.
#[derive(Debug, Clone, Copy, PartialEq, Eq, Structural)]
pub struct Line {
    pub start: usize,
    pub end: usize,
    pub leading_spaces: u8,
}

/// Whether `index` falls between characters of the source.
pub open spec fn on_boundary(source: &str, index: int) -> bool {
    vstd::utf8::is_char_boundary(source.spec_bytes(), index)
}

/// The characters of the source's bytes from `start` to `end`.
pub open spec fn chars_between(source: &str, start: int, end: int) -> Seq<char> {
    decode_utf8(source.spec_bytes().subrange(start, end))
}

/// `source[start..end]`, made with two `split_at`s.
pub(crate) fn slice_str<'a>(source: &'a str, start: usize, end: usize) -> (piece: &'a str)
    requires
        start <= end <= source.spec_bytes().len(),
        on_boundary(source, start as int),
        on_boundary(source, end as int),
    ensures
        piece.spec_bytes() == source.spec_bytes().subrange(start as int, end as int),
        piece@ == chars_between(source, start as int, end as int),
{
    let ghost bytes = source.spec_bytes();
    proof {
        encode_utf8_valid_utf8(source@);
    }
    let (front, _) = source.split_at(end);
    proof {
        valid_utf8_split(bytes, end as int);
        let prefix = bytes.subrange(0, end as int);
        is_char_boundary_start_end_of_seq(prefix);
        if start < end {
            is_char_boundary_iff_not_is_continuation_byte(bytes, start as int);
            is_char_boundary_iff_not_is_continuation_byte(prefix, start as int);
        }
    }
    let (_, piece) = front.split_at(start);
    proof {
        assert(piece.spec_bytes() =~= bytes.subrange(start as int, end as int));
        encode_utf8_decode_utf8(piece@);
    }
    piece
}

/// In UTF-8, the byte after an ASCII byte starts a character.
proof fn lemma_no_continuation_after_ascii(bytes: Seq<u8>, i: int)
    requires
        valid_utf8(bytes),
        0 < i < bytes.len(),
        bytes[i - 1] < 0x80,
    ensures
        !is_continuation_byte(bytes[i]),
    decreases bytes.len(),
{
    reveal_with_fuel(valid_utf8, 2);
    let k = length_of_first_scalar(bytes);
    let tail = pop_first_scalar(bytes);
    if i - 1 >= k {
        assert(tail[i - k - 1] == bytes[i - 1]);
        assert(tail[i - k] == bytes[i]);
        lemma_no_continuation_after_ascii(tail, i - k);
    } else if k == 1 {
        assert(tail[0] == bytes[i]);
    }
}

/// In UTF-8, the position after an ASCII byte is a character boundary.
pub(crate) proof fn lemma_boundary_after_ascii(bytes: Seq<u8>, i: int)
    requires
        valid_utf8(bytes),
        0 < i <= bytes.len(),
        bytes[i - 1] < 0x80,
    ensures
        is_char_boundary(bytes, i),
{
    if i < bytes.len() {
        lemma_no_continuation_after_ascii(bytes, i);
        is_char_boundary_iff_not_is_continuation_byte(bytes, i);
    } else {
        is_char_boundary_start_end_of_seq(bytes);
    }
}

/// In UTF-8, the position of an ASCII byte, or the end, is a character
/// boundary.
pub(crate) proof fn lemma_boundary_at_ascii(bytes: Seq<u8>, i: int)
    requires
        valid_utf8(bytes),
        0 <= i <= bytes.len(),
        i < bytes.len() ==> bytes[i] < 0x80,
    ensures
        is_char_boundary(bytes, i),
{
    if i < bytes.len() {
        is_char_boundary_iff_not_is_continuation_byte(bytes, i);
    } else {
        is_char_boundary_start_end_of_seq(bytes);
    }
}

/// Appends `count` spaces (`String::push`).
fn push_spaces_to(text: &mut String, count: u8)
    ensures
        final(text)@ == old(text)@ + Seq::new(count as nat, |i: int| ' '),
{
    let mut index: u8 = 0;
    while index < count
        invariant
            index <= count,
            text@ == old(text)@ + Seq::new(index as nat, |i: int| ' '),
        decreases count - index,
    {
        push_char(text, ' ');
        index += 1;
        assert(Seq::new(index as nat, |i: int| ' ') =~= Seq::new((index - 1) as nat, |i: int| ' ').push(' '));
    }
}

/// The text of a line: its synthesized spaces, then its characters.
pub open spec fn line_text(line: Line, source: &str) -> Seq<char> {
    Seq::new(line.leading_spaces as nat, |i: int| ' ') + chars_between(source, line.start as int, line.end as int)
}

/// A line that lies within the source, on character boundaries.
pub open spec fn line_in(line: Line, source: &str) -> bool {
    &&& line.start <= line.end <= source.spec_bytes().len()
    &&& on_boundary(source, line.start as int)
    &&& on_boundary(source, line.end as int)
}

impl Line {
    /// The line's text, the synthesized spaces first.
    pub fn text(&self, source: &str) -> (text: String)
        requires
            line_in(*self, source),
        ensures
            text@ == line_text(*self, source),
    {
        let piece = slice_str(source, self.start, self.end);
        let mut owned = String::new();
        push_spaces_to(&mut owned, self.leading_spaces);
        owned.append(piece);
        owned
    }

    /// Bytes of the line's text, the synthesized spaces included.
    pub fn len(&self) -> (length: usize)
        requires
            self.start <= self.end,
            self.end - self.start + self.leading_spaces <= usize::MAX,
        ensures
            length == self.end - self.start + self.leading_spaces,
    {
        self.end - self.start + self.leading_spaces as usize
    }

    /// Whether the line holds only spaces and tabs.
    pub fn is_blank(&self, source: &str) -> (blank: bool)
        requires
            self.start <= self.end <= source.spec_bytes().len(),
            on_boundary(source, self.start as int),
            on_boundary(source, self.end as int),
        ensures
            blank == forall|i: int|
                self.start <= i < self.end ==> #[trigger] source.spec_bytes()[i] == 0x20u8
                    || source.spec_bytes()[i] == 0x09u8,
    {
        let bytes = source.as_bytes();
        let mut index = self.start;
        while index < self.end
            invariant
                bytes@ == source.spec_bytes(),
                self.start <= index <= self.end <= bytes@.len(),
                forall|i: int| self.start <= i < index ==> #[trigger] bytes@[i] == 0x20u8 || bytes@[i] == 0x09u8,
            decreases self.end - index,
        {
            if bytes[index] != 0x20 && bytes[index] != 0x09 {
                return false;
            }
            index += 1;
        }
        true
    }
}

/// The text of a cell: its range of the source, or its own text.
pub open spec fn cell_text(cell: Cell, source: &str) -> Seq<char> {
    match cell {
        Cell::Range(start, end) => chars_between(source, start as int, end as int),
        Cell::Owned(text) => text@,
    }
}

/// A cell that is owned text or a range within the source on character
/// boundaries.
pub open spec fn cell_in(cell: Cell, source: &str) -> bool {
    match cell {
        Cell::Range(start, end) => start <= end <= source.spec_bytes().len() && on_boundary(source, start as int)
            && on_boundary(source, end as int),
        Cell::Owned(_) => true,
    }
}

impl Cell {
    pub fn text(&self, source: &str) -> (text: String)
        requires
            cell_in(*self, source),
        ensures
            text@ == cell_text(*self, source),
    {
        match self {
            Cell::Range(start, end) => slice_str(source, *start, *end).to_owned(),
            Cell::Owned(text) => text.clone(),
        }
    }
}

/// The texts of the first `count` lines joined with newlines.
pub open spec fn joined_lines(source: &str, lines: Seq<Line>, count: int) -> Seq<char>
    decreases count,
{
    if count <= 0 {
        Seq::empty()
    } else if count == 1 {
        line_text(lines[0], source)
    } else {
        joined_lines(source, lines, count - 1) + seq!['\n'] + line_text(lines[count - 1], source)
    }
}

/// Lines that sit back to back in the source, with no synthesized spaces
/// and a single `\n` between each and the next: their joined text is a
/// range of the source.
pub open spec fn contiguous_lines(source: &str, lines: Seq<Line>) -> bool {
    &&& (lines.len() > 0 ==> lines[0].leading_spaces == 0)
    &&& forall|i: int|
        #![trigger lines[i]]
        0 < i < lines.len() ==> {
            &&& lines[i].leading_spaces == 0
            &&& lines[i].start == lines[i - 1].end + 1
            &&& lines[i - 1].end < source.spec_bytes().len()
            &&& source.spec_bytes()[lines[i - 1].end as int] == 0x0Au8
        }
}

/// The bytes between two character boundaries are UTF-8 on their own.
proof fn lemma_valid_between(source: &str, start: int, end: int)
    requires
        0 <= start <= end <= source.spec_bytes().len(),
        on_boundary(source, start),
        on_boundary(source, end),
    ensures
        valid_utf8(source.spec_bytes().subrange(start, end)),
{
    let bytes = source.spec_bytes();
    encode_utf8_valid_utf8(source@);
    valid_utf8_split(bytes, end);
    let prefix = bytes.subrange(0, end);
    is_char_boundary_start_end_of_seq(prefix);
    if start < end {
        is_char_boundary_iff_not_is_continuation_byte(bytes, start);
        is_char_boundary_iff_not_is_continuation_byte(prefix, start);
    }
    valid_utf8_split(prefix, start);
    assert(prefix.subrange(start, end) =~= bytes.subrange(start, end));
}

/// A newline byte splits the characters around it.
proof fn lemma_chars_across_newline(source: &str, start: int, newline: int, end: int)
    requires
        0 <= start <= newline,
        newline + 1 <= end <= source.spec_bytes().len(),
        on_boundary(source, start),
        on_boundary(source, end),
        source.spec_bytes()[newline] == 0x0Au8,
    ensures
        chars_between(source, start, end) == chars_between(source, start, newline) + seq!['\n']
            + chars_between(source, newline + 1, end),
{
    let bytes = source.spec_bytes();
    lemma_valid_between(source, start, end);
    let whole = bytes.subrange(start, end);
    let at = newline - start;
    lemma_boundary_at_ascii(whole, at);
    decode_utf8_split(whole, at);
    valid_utf8_split(whole, at);
    let tail = whole.subrange(at, whole.len() as int);
    assert(whole.subrange(0, at) =~= bytes.subrange(start, newline));
    assert(tail =~= bytes.subrange(newline, end));
    lemma_boundary_after_ascii(tail, 1);
    decode_utf8_split(tail, 1);
    valid_utf8_split(tail, 1);
    let byte = tail.subrange(0, 1);
    assert(byte =~= seq![0x0Au8]);
    assert(tail.subrange(1, tail.len() as int) =~= bytes.subrange(newline + 1, end));
    assert((0x0Au8 & 0x7Fu8) as u32 == 10) by (bit_vector);
    reveal_with_fuel(decode_utf8, 2);
    assert(pop_first_scalar(byte) =~= Seq::<u8>::empty());
    assert(decode_utf8(byte) =~= seq!['\n']);
}

/// Contiguous lines join to the source between the first's start and the
/// last's end.
proof fn lemma_contiguous_join(source: &str, lines: Seq<Line>, count: int)
    requires
        1 <= count <= lines.len(),
        forall|i: int| 0 <= i < lines.len() ==> #[trigger] line_in(lines[i], source),
        contiguous_lines(source, lines),
    ensures
        lines[0].start <= lines[count - 1].end,
        chars_between(source, lines[0].start as int, lines[count - 1].end as int) == joined_lines(
            source,
            lines,
            count,
        ),
    decreases count,
{
    assert(line_in(lines[count - 1], source));
    assert(lines[count - 1].leading_spaces == 0) by {
        if count > 1 {
            assert(lines[count - 1].leading_spaces == 0);
        }
    }
    let spaces = Seq::new(lines[count - 1].leading_spaces as nat, |i: int| ' ');
    assert(spaces =~= Seq::<char>::empty());
    if count == 1 {
        assert(line_text(lines[0], source) =~= chars_between(source, lines[0].start as int, lines[0].end as int));
    } else {
        lemma_contiguous_join(source, lines, count - 1);
        assert(line_in(lines[0], source));
        assert(lines[count - 1].start == lines[count - 2].end + 1);
        assert(source.spec_bytes()[lines[count - 2].end as int] == 0x0Au8);
        lemma_chars_across_newline(
            source,
            lines[0].start as int,
            lines[count - 2].end as int,
            lines[count - 1].end as int,
        );
        assert(line_text(lines[count - 1], source) =~= chars_between(
            source,
            lines[count - 1].start as int,
            lines[count - 1].end as int,
        ));
    }
}

/// Whether the lines are contiguous in the source.
fn lines_are_contiguous(source: &str, lines: &[Line]) -> (contiguous: bool)
    ensures
        contiguous == contiguous_lines(source, lines@),
{
    if lines.len() == 0 {
        return true;
    }
    if lines[0].leading_spaces != 0 {
        return false;
    }
    let bytes = source.as_bytes();
    let mut index: usize = 1;
    while index < lines.len()
        invariant
            1 <= index <= lines@.len(),
            bytes@ == source.spec_bytes(),
            lines@[0].leading_spaces == 0,
            forall|i: int|
                #![trigger lines@[i]]
                0 < i < index ==> {
                    &&& lines@[i].leading_spaces == 0
                    &&& lines@[i].start == lines@[i - 1].end + 1
                    &&& lines@[i - 1].end < source.spec_bytes().len()
                    &&& source.spec_bytes()[lines@[i - 1].end as int] == 0x0Au8
                },
        decreases lines@.len() - index,
    {
        let previous_end = lines[index - 1].end;
        let line = &lines[index];
        if !(line.leading_spaces == 0 && previous_end < bytes.len() && line.start == previous_end + 1
            && bytes[previous_end] == 0x0A) {
            assert(!contiguous_lines(source, lines@)) by {
                assert(lines@[index as int] == *line);
            }
            return false;
        }
        index += 1;
    }
    true
}

/// The texts of `lines` joined with `\n`; a range of the source, borrowed,
/// when the lines are contiguous in it.
pub fn join_lines<'a>(source: &'a str, lines: &[Line]) -> (joined: std::borrow::Cow<'a, str>)
    requires
        forall|i: int| 0 <= i < lines@.len() ==> #[trigger] line_in(lines@[i], source),
    ensures
        joined@ == joined_lines(source, lines@, lines@.len() as int),
        joined is Borrowed <==> contiguous_lines(source, lines@),
{
    if lines_are_contiguous(source, lines) {
        if lines.len() == 0 {
            let empty = "";
            proof {
                reveal_strlit("");
            }
            return std::borrow::Cow::Borrowed(empty);
        }
        let last = lines.len() - 1;
        proof {
            lemma_contiguous_join(source, lines@, lines@.len() as int);
            assert(line_in(lines@[0], source));
            assert(line_in(lines@[last as int], source));
        }
        return std::borrow::Cow::Borrowed(slice_str(source, lines[0].start, lines[last].end));
    }
    let mut joined = String::new();
    let mut index: usize = 0;
    while index < lines.len()
        invariant
            index <= lines@.len(),
            forall|i: int| 0 <= i < lines@.len() ==> #[trigger] line_in(lines@[i], source),
            joined@ == joined_lines(source, lines@, index as int),
        decreases lines@.len() - index,
    {
        if index > 0 {
            push_char(&mut joined, '\n');
        }
        let text = lines[index].text(source);
        joined.append(text.as_str());
        proof {
            if index == 0 {
                assert(joined@ =~= line_text(lines@[0], source));
            }
        }
        index += 1;
    }
    std::borrow::Cow::Owned(joined)
}

// ----- headings and footnotes -----

/// Where the run of spaces and tabs ending at `end` starts, not below
/// `start`.
pub open spec fn blank_chars_back(text: Seq<char>, start: int, end: int) -> int
    decreases end - start,
{
    if start < end && 0 < end <= text.len() && (text[end - 1] == ' ' || text[end - 1] == '\t') {
        blank_chars_back(text, start, end - 1)
    } else {
        end
    }
}

/// Where the run of `#` ending at `end` starts.
pub open spec fn hashes_back(text: Seq<char>, end: int) -> int
    decreases end,
{
    if 0 < end <= text.len() && text[end - 1] == '#' {
        hashes_back(text, end - 1)
    } else {
        end
    }
}

/// The first index from `i` on, below `end`, that is not a space or tab.
pub open spec fn blank_chars_fwd(text: Seq<char>, i: int, end: int) -> int
    decreases end - i,
{
    if 0 <= i < end && i < text.len() && (text[i] == ' ' || text[i] == '\t') {
        blank_chars_fwd(text, i + 1, end)
    } else {
        i
    }
}

/// An ATX heading's content without its optional closing run of `#`s
/// and the spaces around the content.
pub open spec fn spec_strip_atx_closing(content: Seq<char>) -> Seq<char> {
    let trimmed_end = blank_chars_back(content, 0, content.len() as int);
    let hash_start = hashes_back(content, trimmed_end);
    let lead = blank_chars_fwd(content, 0, trimmed_end);
    if hash_start == trimmed_end {
        content.subrange(lead, trimmed_end)
    } else if hash_start == 0 {
        Seq::empty()
    } else if content[hash_start - 1] == ' ' || content[hash_start - 1] == '\t' {
        let start = blank_chars_fwd(content, 0, hash_start);
        content.subrange(start, blank_chars_back(content, start, hash_start))
    } else {
        content.subrange(lead, trimmed_end)
    }
}

proof fn lemma_hashes_back(text: Seq<char>, end: int)
    requires
        0 <= end <= text.len(),
    ensures
        0 <= hashes_back(text, end) <= end,
    decreases end,
{
    if 0 < end && text[end - 1] == '#' {
        lemma_hashes_back(text, end - 1);
    }
}

proof fn lemma_blank_back(text: Seq<char>, start: int, end: int)
    requires
        0 <= start <= end <= text.len(),
    ensures
        start <= blank_chars_back(text, start, end) <= end,
    decreases end - start,
{
    if start < end && (text[end - 1] == ' ' || text[end - 1] == '\t') {
        lemma_blank_back(text, start, end - 1);
    }
}

proof fn lemma_blank_fwd(text: Seq<char>, i: int, end: int)
    requires
        0 <= i <= end <= text.len(),
    ensures
        i <= blank_chars_fwd(text, i, end) <= end,
    decreases end - i,
{
    if i < end && (text[i] == ' ' || text[i] == '\t') {
        lemma_blank_fwd(text, i + 1, end);
    }
}

/// Removes an optional closing sequence of `#`s and surrounding
/// whitespace from an ATX heading's content.
pub fn strip_atx_closing(content: &str) -> (stripped: String)
    ensures
        stripped@ == spec_strip_atx_closing(content@),
{
    let chars = chars_of(content);
    let length = chars.len();
    let mut trimmed_end = length;
    while trimmed_end > 0 && (chars[trimmed_end - 1] == ' ' || chars[trimmed_end - 1] == '\t')
        invariant
            chars@ == content@,
            length == chars@.len(),
            trimmed_end <= length,
            blank_chars_back(content@, 0, length as int) == blank_chars_back(content@, 0, trimmed_end as int),
        decreases trimmed_end,
    {
        trimmed_end -= 1;
    }
    let mut hash_start = trimmed_end;
    while hash_start > 0 && chars[hash_start - 1] == '#'
        invariant
            chars@ == content@,
            hash_start <= trimmed_end <= length == chars@.len(),
            hashes_back(content@, trimmed_end as int) == hashes_back(content@, hash_start as int),
        decreases hash_start,
    {
        hash_start -= 1;
    }
    let (start, end) = if hash_start == trimmed_end {
        (blank_forward(&chars, 0, trimmed_end), trimmed_end)
    } else if hash_start == 0 {
        (0, 0)
    } else if chars[hash_start - 1] == ' ' || chars[hash_start - 1] == '\t' {
        let start = blank_forward(&chars, 0, hash_start);
        let mut end = hash_start;
        while end > start && (chars[end - 1] == ' ' || chars[end - 1] == '\t')
            invariant
                chars@ == content@,
                start <= end <= hash_start <= chars@.len(),
                blank_chars_back(content@, start as int, hash_start as int) == blank_chars_back(
                    content@,
                    start as int,
                    end as int,
                ),
            decreases end - start,
        {
            end -= 1;
        }
        (start, end)
    } else {
        (blank_forward(&chars, 0, trimmed_end), trimmed_end)
    };
    let mut stripped = String::new();
    let mut index = start;
    while index < end
        invariant
            chars@ == content@,
            start <= index <= end <= chars@.len(),
            stripped@ == content@.subrange(start as int, index as int),
        decreases end - index,
    {
        push_char(&mut stripped, chars[index]);
        index += 1;
        assert(stripped@ =~= content@.subrange(start as int, index as int));
    }
    proof {
        if hash_start == 0 && hash_start != trimmed_end {
            assert(stripped@ =~= Seq::<char>::empty());
        }
    }
    stripped
}

/// The first index from `start` on, below `end`, that is not a space or
/// tab.
fn blank_forward(chars: &Vec<char>, start: usize, end: usize) -> (index: usize)
    requires
        start <= end <= chars@.len(),
    ensures
        index == blank_chars_fwd(chars@, start as int, end as int),
        start <= index <= end,
{
    let mut index = start;
    while index < end && (chars[index] == ' ' || chars[index] == '\t')
        invariant
            start <= index <= end <= chars@.len(),
            blank_chars_fwd(chars@, start as int, end as int) == blank_chars_fwd(chars@, index as int, end as int),
        decreases end - index,
    {
        index += 1;
    }
    index
}

/// `std::str::from_utf8`: the bytes as text when they are valid UTF-8.
#[verifier::external_body]
pub(crate) fn text_of(bytes: &[u8]) -> (text: Option<&str>)
    ensures
        match text {
            Some(text) => valid_utf8(bytes@) && text.spec_bytes() == bytes@,
            None => !valid_utf8(bytes@),
        },
{
    std::str::from_utf8(bytes).ok()
}

/// Where the label of a footnote definition starting at `from` ends: the
/// first `]`, unless a `[`, space or tab comes first.
pub open spec fn footnote_label_end(line: Seq<u8>, i: int) -> Option<int>
    decreases line.len() - i,
{
    if i < 0 || i >= line.len() {
        Some(i)
    } else if line[i] == 0x5D {
        Some(i)
    } else if line[i] == 0x5B || line[i] == 0x20 || line[i] == 0x09 {
        None
    } else {
        footnote_label_end(line, i + 1)
    }
}

/// `[^label]:` at `at`: the label and the bytes it takes.
pub open spec fn spec_footnote_definition(line: Seq<u8>, at: int) -> Option<(Seq<char>, int)> {
    if !(at + 1 < line.len() && line[at] == 0x5B && line[at + 1] == 0x5E) {
        None
    } else {
        match footnote_label_end(line, at + 2) {
            None => None,
            Some(index) => if !(index + 1 < line.len() && line[index] == 0x5D && line[index + 1] == 0x3A) {
                None
            } else if index == at + 2 {
                None
            } else if !valid_utf8(line.subrange(at + 2, index)) {
                None
            } else {
                Some((decode_utf8(line.subrange(at + 2, index)), index + 2 - at))
            },
        }
    }
}

proof fn lemma_footnote_label_end(line: Seq<u8>, i: int)
    requires
        0 <= i,
    ensures
        footnote_label_end(line, i) matches Some(end) ==> i <= end && (end < line.len() ==> line[end] == 0x5D)
            && (end >= line.len() ==> end == i || end == line.len()),
    decreases line.len() - i,
{
    if 0 <= i < line.len() && line[i] != 0x5D && line[i] != 0x5B && line[i] != 0x20 && line[i] != 0x09 {
        lemma_footnote_label_end(line, i + 1);
    }
}

/// `[^label]:` at `at`. Returns the label and the bytes consumed.
pub fn scan_footnote_definition(line: &[u8], at: usize) -> (found: Option<(String, usize)>)
    requires
        at + 2 <= usize::MAX,
    ensures
        match found {
            Some((label, length)) => spec_footnote_definition(line@, at as int) == Some((label@, length as int)),
            None => spec_footnote_definition(line@, at as int) is None,
        },
{
    let length = line.len();
    if !(length > 1 && at < length - 1 && line[at] == 0x5B && line[at + 1] == 0x5E) {
        return None;
    }
    let mut index = at + 2;
    while index < length
        invariant
            length == line@.len(),
            at + 2 <= index,
            footnote_label_end(line@, at + 2) == footnote_label_end(line@, index as int),
        ensures
            at + 2 <= index,
            footnote_label_end(line@, at + 2) == footnote_label_end(line@, index as int),
            index >= length || line@[index as int] == 0x5D,
        decreases length - index,
    {
        let byte = line[index];
        if byte == 0x5D {
            break;
        }
        if byte == 0x5B || byte == 0x20 || byte == 0x09 {
            return None;
        }
        index += 1;
    }
    proof {
        lemma_footnote_label_end(line@, index as int);
    }
    if !(index < length - 1 && line[index] == 0x5D && line[index + 1] == 0x3A) {
        return None;
    }
    if index == at + 2 {
        return None;
    }
    let label = match text_of(slice_bytes(line, at + 2, index)) {
        Some(text) => text,
        None => return None,
    };
    proof {
        encode_utf8_decode_utf8(label@);
    }
    Some((label.to_owned(), index + 2 - at))
}

fn slice_bytes<'a>(bytes: &'a [u8], start: usize, end: usize) -> (out: &'a [u8])
    requires
        start <= end <= bytes@.len(),
    ensures
        out@ == bytes@.subrange(start as int, end as int),
{
    &bytes[start..end]
}

// ----- table rows -----

/// A cell as characters or as a range of the source.
pub enum CellView {
    Range(int, int),
    Text(Seq<char>),
}

pub open spec fn cell_view(cell: Cell) -> CellView {
    match cell {
        Cell::Range(start, end) => CellView::Range(start as int, end as int),
        Cell::Owned(text) => CellView::Text(text@),
    }
}

/// The views of a run of cells.
pub open spec fn cell_views(cells: Seq<Cell>) -> Seq<CellView> {
    cells.map_values(|cell: Cell| cell_view(cell))
}

pub open spec fn is_blank_byte(byte: u8) -> bool {
    byte == 0x20 || byte == 0x09
}

/// The first index from `i` on, up to `end`, that is not a space or tab.
pub open spec fn skip_blanks(bytes: Seq<u8>, i: int, end: int) -> int
    decreases end - i,
{
    if i < end && 0 <= i < bytes.len() && is_blank_byte(bytes[i]) {
        skip_blanks(bytes, i + 1, end)
    } else {
        i
    }
}

/// `end` moved back past the spaces and tabs before it, not below `start`.
pub open spec fn trim_blanks_back(bytes: Seq<u8>, start: int, end: int) -> int
    decreases end - start,
{
    if end > start && 0 < end <= bytes.len() && is_blank_byte(bytes[end - 1]) {
        trim_blanks_back(bytes, start, end - 1)
    } else {
        end
    }
}

/// Characters with each `\|` written `|`, from `i` on.
pub open spec fn unescape_pipes(text: Seq<char>, i: int) -> Seq<char>
    decreases text.len() - i,
{
    if i < 0 || i >= text.len() {
        Seq::empty()
    } else if text[i] == '\\' && i + 1 < text.len() && text[i + 1] == '|' {
        seq!['|'] + unescape_pipes(text, i + 2)
    } else {
        seq![text[i]] + unescape_pipes(text, i + 1)
    }
}

/// The cell between `start` and `stop`, its spaces and tabs trimmed: a
/// range of the source when it can be, else its own text.
pub open spec fn row_cell(line: &str, base: Option<usize>, start: int, stop: int, needs_unescape: bool) -> CellView {
    let bytes = line.spec_bytes();
    let trimmed_start = skip_blanks(bytes, start, stop);
    let trimmed_end = trim_blanks_back(bytes, trimmed_start, stop);
    let text = chars_between(line, trimmed_start, trimmed_end);
    if needs_unescape {
        CellView::Text(unescape_pipes(text, 0))
    } else {
        match base {
            Some(base) => CellView::Range(base + trimmed_start, base + trimmed_end),
            None => CellView::Text(text),
        }
    }
}

/// The cells from `cursor` on: a pipe ends a cell unless a backslash
/// escapes it; an escaped pipe makes the cell's text need unescaping. A
/// blank tail after a final pipe is no cell.
pub open spec fn row_cells(
    line: &str,
    base: Option<usize>,
    end: int,
    cursor: int,
    cell_start: int,
    escaped: bool,
    needs_unescape: bool,
    ended_with_pipe: bool,
) -> Seq<CellView>
    decreases end - cursor,
{
    let bytes = line.spec_bytes();
    if cursor >= end || cursor < 0 || cursor >= bytes.len() {
        let trailing_blank = forall|j: int| cell_start <= j < end ==> is_blank_byte(#[trigger] bytes[j]);
        if ended_with_pipe && trailing_blank {
            Seq::empty()
        } else {
            seq![row_cell(line, base, cell_start, end, needs_unescape)]
        }
    } else {
        let byte = bytes[cursor];
        if escaped {
            row_cells(line, base, end, cursor + 1, cell_start, false, needs_unescape || byte == 0x7C, false)
        } else if byte == 0x5C {
            row_cells(line, base, end, cursor + 1, cell_start, true, needs_unescape, false)
        } else if byte == 0x7C {
            seq![row_cell(line, base, cell_start, cursor, needs_unescape)] + row_cells(
                line,
                base,
                end,
                cursor + 1,
                cursor + 1,
                false,
                false,
                true,
            )
        } else {
            row_cells(line, base, end, cursor + 1, cell_start, false, needs_unescape, false)
        }
    }
}

/// Where a row's cells start: after leading spaces and tabs and one pipe.
pub open spec fn row_start(bytes: Seq<u8>) -> int {
    let lead = skip_blanks(bytes, 0, bytes.len() as int);
    if lead < bytes.len() && bytes[lead] == 0x7C {
        lead + 1
    } else {
        lead
    }
}

/// The trimmed cells of a table row.
pub open spec fn split_row(line: &str, base: Option<usize>) -> Seq<CellView> {
    let bytes = line.spec_bytes();
    let start = row_start(bytes);
    let end = trim_blanks_back(bytes, start, bytes.len() as int);
    row_cells(line, base, end, start, start, false, false, false)
}

proof fn lemma_skip_blanks(bytes: Seq<u8>, i: int, end: int)
    requires
        0 <= i <= end <= bytes.len(),
    ensures
        i <= skip_blanks(bytes, i, end) <= end,
        forall|j: int| i <= j < skip_blanks(bytes, i, end) ==> is_blank_byte(#[trigger] bytes[j]),
        skip_blanks(bytes, i, end) < end ==> !is_blank_byte(bytes[skip_blanks(bytes, i, end)]),
    decreases end - i,
{
    if i < end && is_blank_byte(bytes[i]) {
        lemma_skip_blanks(bytes, i + 1, end);
    }
}

proof fn lemma_trim_blanks_back(bytes: Seq<u8>, start: int, end: int)
    requires
        0 <= start <= end <= bytes.len(),
    ensures
        start <= trim_blanks_back(bytes, start, end) <= end,
        forall|j: int| trim_blanks_back(bytes, start, end) <= j < end ==> is_blank_byte(#[trigger] bytes[j]),
        trim_blanks_back(bytes, start, end) > start ==> !is_blank_byte(
            bytes[trim_blanks_back(bytes, start, end) - 1],
        ),
    decreases end - start,
{
    if end > start && is_blank_byte(bytes[end - 1]) {
        lemma_trim_blanks_back(bytes, start, end - 1);
    }
}

/// `text` with each `\|` written `|`.
fn unescape_pipes_of(text: &str) -> (unescaped: String)
    ensures
        unescaped@ == unescape_pipes(text@, 0),
{
    let chars = chars_of(text);
    let mut unescaped = String::new();
    let ghost target = unescape_pipes(text@, 0);
    let mut index: usize = 0;
    while index < chars.len()
        invariant
            chars@ == text@,
            index <= chars@.len(),
            target == unescape_pipes(text@, 0),
            target == unescaped@ + unescape_pipes(text@, index as int),
        decreases chars@.len() - index,
    {
        let ghost before = unescaped@;
        if chars[index] == '\\' && chars.len() - index > 1 && chars[index + 1] == '|' {
            push_char(&mut unescaped, '|');
            proof {
                assert(unescape_pipes(text@, index as int) =~= seq!['|'] + unescape_pipes(text@, index + 2));
                assert(unescaped@ =~= before + seq!['|']);
            }
            index += 2;
        } else {
            push_char(&mut unescaped, chars[index]);
            proof {
                assert(unescape_pipes(text@, index as int) =~= seq![text@[index as int]] + unescape_pipes(
                    text@,
                    index + 1,
                ));
                assert(unescaped@ =~= before + seq![text@[index as int]]);
            }
            index += 1;
        }
    }
    assert(unescaped@ =~= target);
    unescaped
}

/// A range cell lies within the line placed at `base`, on character
/// boundaries; an owned cell always qualifies.
pub open spec fn cell_within(cell: Cell, line: &str, base: Option<usize>) -> bool {
    match cell {
        Cell::Range(start, end) => match base {
            Some(b) => b <= start <= end <= b + line.spec_bytes().len() && on_boundary(line, start - b)
                && on_boundary(line, end - b),
            None => false,
        },
        Cell::Owned(_) => true,
    }
}

/// Pushes the trimmed cell between `start` and `stop`.
fn push_row_cell(
    line: &str,
    bytes: &[u8],
    cells: &mut Vec<Cell>,
    base: Option<usize>,
    start: usize,
    stop: usize,
    needs_unescape: bool,
)
    requires
        bytes@ == line.spec_bytes(),
        start <= stop <= bytes@.len(),
        start == 0 || bytes@[start - 1] < 0x80,
        stop == bytes@.len() || bytes@[stop as int] < 0x80,
        base matches Some(b) ==> b + bytes@.len() <= usize::MAX,
    ensures
        cell_views(final(cells)@) == cell_views(old(cells)@).push(row_cell(line, base, start as int, stop as int, needs_unescape)),
        final(cells)@.len() == old(cells)@.len() + 1,
        final(cells)@.subrange(0, old(cells)@.len() as int) == old(cells)@,
        cell_within(final(cells)@.last(), line, base),
{
    let mut trimmed_start = start;
    while trimmed_start < stop && (bytes[trimmed_start] == 0x20 || bytes[trimmed_start] == 0x09)
        invariant
            start <= trimmed_start <= stop <= bytes@.len(),
            skip_blanks(bytes@, start as int, stop as int) == skip_blanks(bytes@, trimmed_start as int, stop as int),
            forall|j: int| start <= j < trimmed_start ==> is_blank_byte(#[trigger] bytes@[j]),
        decreases stop - trimmed_start,
    {
        trimmed_start += 1;
    }
    let mut trimmed_end = stop;
    while trimmed_end > trimmed_start && (bytes[trimmed_end - 1] == 0x20 || bytes[trimmed_end - 1] == 0x09)
        invariant
            start <= trimmed_start <= trimmed_end <= stop <= bytes@.len(),
            trim_blanks_back(bytes@, trimmed_start as int, stop as int) == trim_blanks_back(
                bytes@,
                trimmed_start as int,
                trimmed_end as int,
            ),
            forall|j: int| trimmed_end <= j < stop ==> is_blank_byte(#[trigger] bytes@[j]),
        decreases trimmed_end - trimmed_start,
    {
        trimmed_end -= 1;
    }
    proof {
        encode_utf8_valid_utf8(line@);
        let b = bytes@;
        if trimmed_start == 0 {
            is_char_boundary_start_end_of_seq(b);
        } else if trimmed_start > start {
            lemma_boundary_after_ascii(b, trimmed_start as int);
        } else {
            lemma_boundary_after_ascii(b, trimmed_start as int);
        }
        if trimmed_end < stop {
            lemma_boundary_at_ascii(b, trimmed_end as int);
        } else {
            lemma_boundary_at_ascii(b, trimmed_end as int);
        }
    }
    let cell = if needs_unescape {
        Cell::Owned(unescape_pipes_of(slice_str(line, trimmed_start, trimmed_end)))
    } else {
        match base {
            Some(base) => Cell::Range(base + trimmed_start, base + trimmed_end),
            None => Cell::Owned(slice_str(line, trimmed_start, trimmed_end).to_owned()),
        }
    };
    cells.push(cell);
    assert(cell_views(cells@) =~= cell_views(old(cells)@).push(cell_view(cell)));
    assert(cells@.subrange(0, old(cells)@.len() as int) =~= old(cells)@);
}

/// Splits a table row into trimmed cells, appended to `cells`. Leading
/// and trailing pipes are optional; `\|` yields a literal pipe. Pipes
/// inside code spans still split. With `base`, plain cells are ranges of
/// the source starting there; without it, every cell is owned.
pub fn split_table_row_into(line: &str, base: Option<usize>, cells: &mut Vec<Cell>)
    requires
        base matches Some(b) ==> b + line.spec_bytes().len() <= usize::MAX,
    ensures
        cell_views(final(cells)@) == cell_views(old(cells)@) + split_row(line, base),
        final(cells)@.len() >= old(cells)@.len(),
        final(cells)@.subrange(0, old(cells)@.len() as int) == old(cells)@,
        forall|j: int|
            old(cells)@.len() <= j < final(cells)@.len() ==> #[trigger] cell_within(final(cells)@[j], line, base),
{
    let bytes = line.as_bytes();
    let length = bytes.len();
    let mut index: usize = 0;
    while index < length && (bytes[index] == 0x20 || bytes[index] == 0x09)
        invariant
            length == bytes@.len(),
            index <= length,
            skip_blanks(bytes@, 0, length as int) == skip_blanks(bytes@, index as int, length as int),
        decreases length - index,
    {
        index += 1;
    }
    proof {
        lemma_skip_blanks(bytes@, 0, length as int);
    }
    if index < length && bytes[index] == 0x7C {
        index += 1;
    }
    let mut end = length;
    while end > index && (bytes[end - 1] == 0x20 || bytes[end - 1] == 0x09)
        invariant
            length == bytes@.len(),
            index <= end <= length,
            trim_blanks_back(bytes@, index as int, length as int) == trim_blanks_back(bytes@, index as int, end as int),
            forall|j: int| end <= j < length ==> is_blank_byte(#[trigger] bytes@[j]),
        decreases end - index,
    {
        end -= 1;
    }
    let ghost target = cell_views(old(cells)@) + split_row(line, base);
    let mut cell_start = index;
    let mut escaped = false;
    let mut needs_unescape = false;
    let mut ended_with_pipe = false;
    let mut cursor = index;
    proof {
        assert(index == row_start(bytes@));
        assert(target == cell_views(cells@) + row_cells(line, base, end as int, cursor as int, cell_start as int, escaped, needs_unescape, ended_with_pipe)) by {
            assert(cell_views(cells@) == cell_views(old(cells)@));
        }
    }
    while cursor < end
        invariant
            bytes@ == line.spec_bytes(),
            length == bytes@.len(),
            base matches Some(b) ==> b + bytes@.len() <= usize::MAX,
            cell_start <= cursor <= end <= length,
            cell_start == 0 || bytes@[cell_start - 1] < 0x80,
            end == length || bytes@[end as int] < 0x80,
            cells@.len() >= old(cells)@.len(),
            cells@.subrange(0, old(cells)@.len() as int) == old(cells)@,
            forall|j: int| old(cells)@.len() <= j < cells@.len() ==> #[trigger] cell_within(cells@[j], line, base),
            target == cell_views(cells@) + row_cells(
                line,
                base,
                end as int,
                cursor as int,
                cell_start as int,
                escaped,
                needs_unescape,
                ended_with_pipe,
            ),
        decreases end - cursor,
    {
        let byte = bytes[cursor];
        if escaped {
            if byte == 0x7C {
                needs_unescape = true;
            }
            escaped = false;
            ended_with_pipe = false;
            cursor += 1;
        } else if byte == 0x5C {
            escaped = true;
            ended_with_pipe = false;
            cursor += 1;
        } else if byte == 0x7C {
            let ghost before = cell_views(cells@);
            let ghost cells_before = cells@;
            push_row_cell(line, bytes, cells, base, cell_start, cursor, needs_unescape);
            proof {
                assert(cells@.subrange(0, old(cells)@.len() as int) =~= cells_before.subrange(0, old(cells)@.len() as int));
                assert forall|j: int| old(cells)@.len() <= j < cells@.len() implies #[trigger] cell_within(cells@[j], line, base) by {
                    if j < cells_before.len() {
                        assert(cells@[j] == cells@.subrange(0, cells_before.len() as int)[j]);
                    }
                }
                assert(before.push(row_cell(line, base, cell_start as int, cursor as int, needs_unescape)) + row_cells(
                    line,
                    base,
                    end as int,
                    cursor + 1,
                    cursor + 1,
                    false,
                    false,
                    true,
                ) =~= before + (seq![row_cell(line, base, cell_start as int, cursor as int, needs_unescape)]
                    + row_cells(line, base, end as int, cursor + 1, cursor + 1, false, false, true)));
            }
            needs_unescape = false;
            cursor += 1;
            cell_start = cursor;
            ended_with_pipe = true;
        } else {
            ended_with_pipe = false;
            cursor += 1;
        }
    }
    let mut blank_index = cell_start;
    while blank_index < end && (bytes[blank_index] == 0x20 || bytes[blank_index] == 0x09)
        invariant
            cell_start <= blank_index <= end <= bytes@.len(),
            forall|j: int| cell_start <= j < blank_index ==> is_blank_byte(#[trigger] bytes@[j]),
        decreases end - blank_index,
    {
        blank_index += 1;
    }
    let trailing_is_blank = blank_index >= end;
    proof {
        let all_blank = forall|j: int| cell_start <= j < end ==> is_blank_byte(#[trigger] bytes@[j]);
        if !trailing_is_blank {
            assert(!is_blank_byte(bytes@[blank_index as int]));
        }
        assert(trailing_is_blank == all_blank);
    }
    if !(ended_with_pipe && trailing_is_blank) {
        let ghost before = cell_views(cells@);
        let ghost cells_before = cells@;
        push_row_cell(line, bytes, cells, base, cell_start, end, needs_unescape);
        assert(cell_views(cells@) =~= before + seq![row_cell(line, base, cell_start as int, end as int, needs_unescape)]);
        assert(cells@.subrange(0, old(cells)@.len() as int) =~= cells_before.subrange(0, old(cells)@.len() as int));
        assert forall|j: int| old(cells)@.len() <= j < cells@.len() implies #[trigger] cell_within(cells@[j], line, base) by {
            if j < cells_before.len() {
                assert(cells@[j] == cells@.subrange(0, cells_before.len() as int)[j]);
            }
        }
    } else {
        assert(cell_views(cells@) =~= cell_views(cells@) + Seq::<CellView>::empty());
    }
}

/// The trimmed cells of a table row.
pub fn split_table_row(line: &str, base: Option<usize>) -> (cells: Vec<Cell>)
    requires
        base matches Some(b) ==> b + line.spec_bytes().len() <= usize::MAX,
    ensures
        cell_views(cells@) == split_row(line, base),
        forall|j: int| 0 <= j < cells@.len() ==> #[trigger] cell_within(cells@[j], line, base),
{
    let mut cells: Vec<Cell> = Vec::new();
    split_table_row_into(line, base, &mut cells);
    assert(cell_views(Seq::<Cell>::empty()) =~= Seq::<CellView>::empty());
    assert(Seq::<CellView>::empty() + split_row(line, base) =~= split_row(line, base));
    cells
}

// ----- delimiter rows -----

/// The characters from `start` to `end` without Unicode whitespace at
/// either side, as a pair of bounds.
pub open spec fn white_start(text: Seq<char>, i: int, end: int) -> int
    decreases end - i,
{
    if 0 <= i < end && i < text.len() && white_space(text[i]) {
        white_start(text, i + 1, end)
    } else {
        i
    }
}

pub open spec fn white_end(text: Seq<char>, start: int, end: int) -> int
    decreases end - start,
{
    if start < end && 0 < end <= text.len() && white_space(text[end - 1]) {
        white_end(text, start, end - 1)
    } else {
        end
    }
}

/// `text` without Unicode whitespace at either end (`str::trim`).
pub open spec fn trim_white(text: Seq<char>) -> Seq<char> {
    let start = white_start(text, 0, text.len() as int);
    text.subrange(start, white_end(text, start, text.len() as int))
}

/// `text` without `ch` at either end.
pub open spec fn strip_char(text: Seq<char>, ch: char) -> Seq<char> {
    let start = char_start(text, 0, ch);
    text.subrange(start, char_end(text, start, text.len() as int, ch))
}

pub open spec fn char_start(text: Seq<char>, i: int, ch: char) -> int
    decreases text.len() - i,
{
    if 0 <= i < text.len() && text[i] == ch {
        char_start(text, i + 1, ch)
    } else {
        i
    }
}

pub open spec fn char_end(text: Seq<char>, start: int, end: int, ch: char) -> int
    decreases end - start,
{
    if start < end && 0 < end <= text.len() && text[end - 1] == ch {
        char_end(text, start, end - 1, ch)
    } else {
        end
    }
}

/// A delimiter cell's alignment: dashes with an optional colon at either
/// end.
pub open spec fn cell_alignment(cell: Seq<char>) -> Option<Alignment> {
    let trimmed = trim_white(cell);
    let left = trimmed.len() > 0 && trimmed[0] == ':';
    let right = trimmed.len() > 1 && trimmed.last() == ':';
    let dashes = strip_char(trimmed, ':');
    if dashes.len() == 0 || !(forall|i: int| 0 <= i < dashes.len() ==> #[trigger] dashes[i] == '-') {
        None
    } else if left && right {
        Some(Alignment::Center)
    } else if left {
        Some(Alignment::Left)
    } else if right {
        Some(Alignment::Right)
    } else {
        Some(Alignment::Unaligned)
    }
}

/// The alignments of the first `count` cells, if every one is a delimiter.
pub open spec fn cell_alignments(line: &str, cells: Seq<CellView>, count: int) -> Option<Seq<Alignment>>
    decreases count,
{
    if count <= 0 {
        Some(Seq::empty())
    } else {
        let text = match cells[count - 1] {
            CellView::Range(start, end) => chars_between(line, start, end),
            CellView::Text(text) => text,
        };
        match (cell_alignments(line, cells, count - 1), cell_alignment(text)) {
            (Some(before), Some(alignment)) => Some(before.push(alignment)),
            _ => None,
        }
    }
}

proof fn lemma_alignments_fail_onward(line: &str, cells: Seq<CellView>, k: int, n: int)
    requires
        0 <= k <= n,
        cell_alignments(line, cells, k) is None,
    ensures
        cell_alignments(line, cells, n) is None,
    decreases n - k,
{
    if k < n {
        lemma_alignments_fail_onward(line, cells, k + 1, n);
    }
}

pub open spec fn delimiter_byte(byte: u8) -> bool {
    byte == 0x7C || byte == 0x2D || byte == 0x3A || byte == 0x20 || byte == 0x09
}

/// A GFM delimiter row's alignments: cells of dashes with optional
/// colons, only pipes, dashes, colons and blanks on the line, and pipes
/// around a single cell.
pub open spec fn spec_delimiter_row(line: &str) -> Option<Seq<Alignment>> {
    let bytes = line.spec_bytes();
    let cells = split_row(line, Some(0usize));
    let trimmed = trim_white(line@);
    if !(forall|i: int| 0 <= i < bytes.len() ==> #[trigger] delimiter_byte(bytes[i])) || !holds_dash(line@) {
        None
    } else if cells.len() == 0 || !holds_dash(trimmed) {
        None
    } else {
        match cell_alignments(line, cells, cells.len() as int) {
            None => None,
            Some(alignments) => if cells.len() == 1 && !(trimmed.len() > 0 && trimmed[0] == '|') && !(trimmed.len()
                > 0 && trimmed.last() == '|') {
                None
            } else {
                Some(alignments)
            },
        }
    }
}

pub open spec fn holds_dash(text: Seq<char>) -> bool {
    exists|i: int| 0 <= i < text.len() && #[trigger] text[i] == '-'
}

/// The bounds of `text` without Unicode whitespace at either end.
fn trim_bounds(text: &Vec<char>) -> (bounds: (usize, usize))
    ensures
        bounds.0 == white_start(text@, 0, text@.len() as int),
        bounds.1 == white_end(text@, bounds.0 as int, text@.len() as int),
        bounds.0 <= bounds.1 <= text@.len(),
{
    let length = text.len();
    let mut start: usize = 0;
    while start < length && is_whitespace(text[start])
        invariant
            length == text@.len(),
            start <= length,
            white_start(text@, 0, length as int) == white_start(text@, start as int, length as int),
        decreases length - start,
    {
        start += 1;
    }
    let mut end = length;
    while end > start && is_whitespace(text[end - 1])
        invariant
            length == text@.len(),
            start <= end <= length,
            white_end(text@, start as int, length as int) == white_end(text@, start as int, end as int),
        decreases end - start,
    {
        end -= 1;
    }
    (start, end)
}

/// Whether `text` holds a dash between `start` and `end`.
fn dash_between(text: &Vec<char>, start: usize, end: usize) -> (found: bool)
    requires
        start <= end <= text@.len(),
    ensures
        found == holds_dash(text@.subrange(start as int, end as int)),
{
    let mut index = start;
    while index < end
        invariant
            start <= index <= end <= text@.len(),
            forall|i: int| start <= i < index ==> text@[i] != '-',
        decreases end - index,
    {
        if text[index] == '-' {
            assert(text@.subrange(start as int, end as int)[index - start] == '-');
            return true;
        }
        index += 1;
    }
    assert forall|i: int| 0 <= i < end - start implies #[trigger] text@.subrange(start as int, end as int)[i] != '-' by {
        assert(text@.subrange(start as int, end as int)[i] == text@[start + i]);
    }
    false
}

/// The alignment a delimiter cell's text gives, if it is one.
fn alignment_of(cell: &str) -> (alignment: Option<Alignment>)
    ensures
        alignment == cell_alignment(cell@),
{
    let chars = chars_of(cell);
    let (start, end) = trim_bounds(&chars);
    let ghost trimmed = chars@.subrange(start as int, end as int);
    let left = end > start && chars[start] == ':';
    let right = end - start > 1 && chars[end - 1] == ':';
    let mut dash_start = start;
    while dash_start < end && chars[dash_start] == ':'
        invariant
            start <= dash_start <= end <= chars@.len(),
            trimmed == chars@.subrange(start as int, end as int),
            char_start(trimmed, 0, ':') == char_start(trimmed, dash_start - start, ':'),
        decreases end - dash_start,
    {
        dash_start += 1;
    }
    let mut dash_end = end;
    while dash_end > dash_start && chars[dash_end - 1] == ':'
        invariant
            start <= dash_start <= dash_end <= end <= chars@.len(),
            trimmed == chars@.subrange(start as int, end as int),
            char_end(trimmed, dash_start - start, end - start, ':') == char_end(
                trimmed,
                dash_start - start,
                dash_end - start,
                ':',
            ),
        decreases dash_end - dash_start,
    {
        dash_end -= 1;
    }
    let ghost dashes = strip_char(trimmed, ':');
    proof {
        assert(dashes =~= chars@.subrange(dash_start as int, dash_end as int));
    }
    if dash_end == dash_start {
        return None;
    }
    let mut index = dash_start;
    while index < dash_end
        invariant
            dash_start <= index <= dash_end <= chars@.len(),
            dashes =~= chars@.subrange(dash_start as int, dash_end as int),
            dashes == strip_char(trim_white(cell@), ':'),
            forall|i: int| dash_start <= i < index ==> chars@[i] == '-',
        decreases dash_end - index,
    {
        if chars[index] != '-' {
            assert(dashes[index - dash_start] != '-');
            return None;
        }
        index += 1;
    }
    assert forall|i: int| 0 <= i < dashes.len() implies #[trigger] dashes[i] == '-' by {
        assert(dashes[i] == chars@[dash_start + i]);
    }
    if left && right {
        Some(Alignment::Center)
    } else if left {
        Some(Alignment::Left)
    } else if right {
        Some(Alignment::Right)
    } else {
        Some(Alignment::Unaligned)
    }
}

/// A GFM delimiter row's column alignments: cells of dashes with an
/// optional colon at either end.
pub fn parse_delimiter_row(line: &str) -> (alignments: Option<Vec<Alignment>>)
    requires
        line.spec_bytes().len() <= usize::MAX,
    ensures
        match alignments {
            Some(found) => spec_delimiter_row(line) == Some(found@),
            None => spec_delimiter_row(line) is None,
        },
{
    let bytes = line.as_bytes();
    let chars = chars_of(line);
    let mut index: usize = 0;
    while index < bytes.len()
        invariant
            bytes@ == line.spec_bytes(),
            index <= bytes@.len(),
            forall|i: int| 0 <= i < index ==> #[trigger] delimiter_byte(bytes@[i]),
        decreases bytes@.len() - index,
    {
        let byte = bytes[index];
        if !(byte == 0x7C || byte == 0x2D || byte == 0x3A || byte == 0x20 || byte == 0x09) {
            assert(!delimiter_byte(bytes@[index as int]));
            return None;
        }
        index += 1;
    }
    if !dash_between(&chars, 0, chars.len()) {
        assert(chars@.subrange(0, chars@.len() as int) =~= line@);
        return None;
    }
    assert(chars@.subrange(0, chars@.len() as int) =~= line@);
    let cells = split_table_row(line, Some(0));
    let (start, end) = trim_bounds(&chars);
    if cells.len() == 0 || !dash_between(&chars, start, end) {
        return None;
    }
    let mut alignments: Vec<Alignment> = Vec::new();
    let mut k: usize = 0;
    while k < cells.len()
        invariant
            k <= cells@.len(),
            cell_views(cells@) == split_row(line, Some(0usize)),
            forall|j: int| 0 <= j < cells@.len() ==> #[trigger] cell_within(cells@[j], line, Some(0usize)),
            cell_alignments(line, cell_views(cells@), k as int) == Some(alignments@),
        decreases cells@.len() - k,
    {
        proof {
            assert(cell_within(cells@[k as int], line, Some(0usize)));
        }
        let text = cells[k].text(line);
        assert(text@ == match cell_views(cells@)[k as int] {
            CellView::Range(start, end) => chars_between(line, start, end),
            CellView::Text(owned) => owned,
        });
        match alignment_of(text.as_str()) {
            Some(alignment) => alignments.push(alignment),
            None => {
                proof {
                    lemma_alignments_fail_onward(line, cell_views(cells@), k + 1, cells@.len() as int);
                }
                return None;
            },
        }
        k += 1;
    }
    let single_unpiped = cells.len() == 1 && !(end > start && chars[start] == '|') && !(end > start && chars[end - 1]
        == '|');
    if single_unpiped {
        return None;
    }
    Some(alignments)
}

#[derive(Debug, Clone, PartialEq, Eq)]
pub enum Kind {
    Document,
    BlockQuote,
    List(ListData),
    Item(ItemData),
    Paragraph,
    Heading { level: u8, setext: bool },
    ThematicBreak,
    IndentedCode,
    FencedCode { fence_char: u8, fence_length: u16, fence_offset: u8, closed: bool, info: String },
    HtmlBlock { kind: u8 },
    Table(Box<TableData>),
    FootnoteDefinition { label: String },
}

#[derive(Debug, Clone, PartialEq, Eq)]
pub struct Reference {
    pub destination: String,
    pub title: String,
}

// ----- line scanners -----

pub fn is_space_or_tab(byte: u8) -> (blank: bool)
    ensures
        blank == (byte == 0x20 || byte == 0x09),
{
    byte == 0x20 || byte == 0x09
}

/// The end of the run of `marker` bytes from `i`.
pub open spec fn run_of(line: Seq<u8>, i: int, marker: u8) -> int
    decreases line.len() - i,
{
    if 0 <= i < line.len() && line[i] == marker {
        run_of(line, i + 1, marker)
    } else {
        i
    }
}

proof fn lemma_run_of_bounds(line: Seq<u8>, i: int, marker: u8)
    requires
        0 <= i,
    ensures
        i <= run_of(line, i, marker),
        i <= line.len() ==> run_of(line, i, marker) <= line.len(),
    decreases line.len() - i,
{
    if 0 <= i < line.len() && line[i] == marker {
        lemma_run_of_bounds(line, i + 1, marker);
    }
}

fn count_run(line: &[u8], start: usize, marker: u8) -> (end: usize)
    ensures
        end == run_of(line@, start as int, marker),
{
    let mut at = start;
    while at < line.len() && line[at] == marker
        invariant
            run_of(line@, start as int, marker) == run_of(line@, at as int, marker),
        decreases line@.len() - at,
    {
        at += 1;
    }
    at
}

/// Only spaces and tabs from `i` to the end.
pub open spec fn blank_from(line: Seq<u8>, i: int) -> bool {
    forall|j: int| i <= j < line.len() ==> #[trigger] line[j] == 0x20u8 || line[j] == 0x09u8
}

fn rest_blank(line: &[u8], start: usize) -> (blank: bool)
    ensures
        blank == blank_from(line@, start as int),
{
    let mut index = start;
    while index < line.len()
        invariant
            start <= index,
            forall|j: int| start <= j < index ==> #[trigger] line@[j] == 0x20u8 || line@[j] == 0x09u8,
        decreases line@.len() - index,
    {
        if !is_space_or_tab(line[index]) {
            return false;
        }
        index += 1;
    }
    true
}

/// `#{1,6}` at `at` followed by a space, tab, or end of line: the level.
pub open spec fn spec_atx_heading(line: Seq<u8>, at: int) -> Option<u8> {
    let count = run_of(line, at, 0x23) - at;
    if count == 0 || count > 6 {
        None
    } else if at + count >= line.len() || line[at + count] == 0x20 || line[at + count] == 0x09 {
        Some(count as u8)
    } else {
        None
    }
}

/// `#{1,6}` followed by a space, tab, or end of line. Returns the level.
pub fn scan_atx_heading(line: &[u8], at: usize) -> (level: Option<u8>)
    ensures
        level == spec_atx_heading(line@, at as int),
{
    let end = count_run(line, at, 0x23);
    proof {
        lemma_run_of_bounds(line@, at as int, 0x23);
    }
    let count = end - at;
    if count == 0 || count > 6 {
        return None;
    }
    if end >= line.len() || line[end] == 0x20 || line[end] == 0x09 {
        Some(count as u8)
    } else {
        None
    }
}

/// Whether `marker` occurs in `line` from `i` on.
pub open spec fn occurs_from(line: Seq<u8>, i: int, marker: u8) -> bool {
    exists|j: int| i <= j < line.len() && #[trigger] line[j] == marker
}

fn contains_from(line: &[u8], start: usize, marker: u8) -> (found: bool)
    ensures
        found == occurs_from(line@, start as int, marker),
{
    let mut index = start;
    while index < line.len()
        invariant
            start <= index,
            forall|j: int| start <= j < index ==> #[trigger] line@[j] != marker,
        decreases line@.len() - index,
    {
        if line[index] == marker {
            return true;
        }
        index += 1;
    }
    false
}

/// Three or more backticks or tildes at `at` (any repeated byte counts,
/// as the caller offers only those); a backtick fence's info string may
/// not hold a backtick. The fence byte and the run's length.
pub open spec fn spec_opening_fence(line: Seq<u8>, at: int) -> Option<(u8, usize)> {
    if at < 0 || at >= line.len() {
        None
    } else {
        let fence_char = line[at];
        let length = run_of(line, at, fence_char) - at;
        if length < 3 {
            None
        } else if fence_char == 0x60 && occurs_from(line, at + length, 0x60) {
            None
        } else {
            Some((fence_char, length as usize))
        }
    }
}

/// Three or more backticks or tildes; a backtick fence's info string may
/// not contain backticks. Returns `(fence char, length)`.
pub fn scan_opening_fence(line: &[u8], at: usize) -> (fence: Option<(u8, usize)>)
    ensures
        fence == spec_opening_fence(line@, at as int),
{
    if at >= line.len() {
        return None;
    }
    let fence_char = line[at];
    let end = count_run(line, at, fence_char);
    proof {
        lemma_run_of_bounds(line@, at as int, fence_char);
    }
    let length = end - at;
    if length < 3 {
        return None;
    }
    if fence_char == 0x60 && contains_from(line, end, 0x60) {
        return None;
    }
    Some((fence_char, length))
}

/// The length of a run of `fence_char` at `at` followed only by spaces
/// or tabs, else zero.
pub open spec fn spec_closing_fence(line: Seq<u8>, at: int, fence_char: u8) -> usize {
    let end = run_of(line, at, fence_char);
    if blank_from(line, end) {
        (end - at) as usize
    } else {
        0
    }
}

/// Length of a closing fence run followed only by spaces or tabs, else 0.
pub fn scan_closing_fence(line: &[u8], at: usize, fence_char: u8) -> (length: usize)
    requires
        at <= line@.len(),
    ensures
        length == spec_closing_fence(line@, at as int, fence_char),
{
    let end = count_run(line, at, fence_char);
    proof {
        lemma_run_of_bounds(line@, at as int, fence_char);
    }
    if rest_blank(line, end) {
        end - at
    } else {
        0
    }
}

/// A run of `=` (level 1) or `-` (level 2) at `at` followed only by
/// spaces and tabs.
pub open spec fn spec_setext_underline(line: Seq<u8>, at: int) -> Option<u8> {
    if at < 0 || at >= line.len() || !(line[at] == 0x3D || line[at] == 0x2D) {
        None
    } else if blank_from(line, run_of(line, at, line[at])) {
        Some(if line[at] == 0x3D {
            1u8
        } else {
            2u8
        })
    } else {
        None
    }
}

/// A run of `=` (level 1) or `-` (level 2) followed only by whitespace.
pub fn scan_setext_underline(line: &[u8], at: usize) -> (level: Option<u8>)
    ensures
        level == spec_setext_underline(line@, at as int),
{
    if at >= line.len() {
        return None;
    }
    let marker = line[at];
    let level: u8 = if marker == 0x3D {
        1
    } else if marker == 0x2D {
        2
    } else {
        return None;
    };
    let end = count_run(line, at, marker);
    if rest_blank(line, end) {
        Some(level)
    } else {
        None
    }
}

/// How many bytes from `at` on equal `marker`, when all others are spaces
/// or tabs; `None` at the first other byte.
pub open spec fn marker_count(line: Seq<u8>, at: int, marker: u8) -> Option<nat>
    decreases line.len() - at,
{
    if at < 0 || at >= line.len() {
        Some(0)
    } else if line[at] == marker {
        match marker_count(line, at + 1, marker) {
            Some(count) => Some(count + 1),
            None => None,
        }
    } else if line[at] == 0x20 || line[at] == 0x09 {
        marker_count(line, at + 1, marker)
    } else {
        None
    }
}

/// Three or more `*`, `-`, or `_` (whichever byte starts the run) with
/// only spaces or tabs between.
pub open spec fn spec_thematic_break(line: Seq<u8>, at: int) -> bool {
    0 <= at < line.len() && (marker_count(line, at, line[at]) matches Some(count) && count >= 3)
}

proof fn lemma_marker_count_split(line: Seq<u8>, start: int, at: int, marker: u8, before: nat)
    requires
        0 <= start <= at <= line.len(),
        marker_count(line.subrange(0, at), start, marker) == Some(before),
    ensures
        marker_count(line, start, marker) == match marker_count(line, at, marker) {
            Some(count) => Some(before + count),
            None => None::<nat>,
        },
    decreases at - start,
{
    let prefix = line.subrange(0, at);
    if start < at {
        if line[start] == marker {
            let rest = marker_count(prefix, start + 1, marker);
            assert(rest matches Some(r) && before == r + 1);
            lemma_marker_count_split(line, start + 1, at, marker, (before - 1) as nat);
        } else {
            lemma_marker_count_split(line, start + 1, at, marker, before);
        }
    }
}

/// Three or more `*`, `-`, or `_` with optional spaces or tabs between.
pub fn scan_thematic_break(line: &[u8], at: usize) -> (found: bool)
    ensures
        found == spec_thematic_break(line@, at as int),
{
    if at >= line.len() {
        return false;
    }
    let marker = line[at];
    let mut count: usize = 0;
    let mut index = at;
    while index < line.len()
        invariant
            at <= index <= line@.len(),
            marker == line@[at as int],
            count <= index - at,
            marker_count(line@.subrange(0, index as int), at as int, marker) == Some(count as nat),
        decreases line@.len() - index,
    {
        let byte = line[index];
        let ghost before = line@.subrange(0, index as int);
        let ghost after = line@.subrange(0, index + 1);
        proof {
            assert(before =~= after.subrange(0, index as int));
            lemma_marker_count_split(after, at as int, index as int, marker, count as nat);
            assert(marker_count(after, index + 1, marker) == Some(0nat));
            assert(after[index as int] == byte);
        }
        if byte == marker {
            count += 1;
        } else if !is_space_or_tab(byte) {
            proof {
                lemma_marker_count_split(line@, at as int, index as int, marker, count as nat);
            }
            return false;
        }
        index += 1;
    }
    proof {
        assert(line@.subrange(0, index as int) =~= line@);
    }
    count >= 3
}

/// What `parse_list_marker` finds at `at`: `(ordered, start, marker,
/// width)`. A bullet is `*`, `+` or `-`; an ordered marker is one to nine
/// digits and `.` or `)`. The marker must be followed by a space, a tab
/// or the end; when interrupting a paragraph, only an ordered list
/// starting at 1 and a non-empty item qualify.
pub open spec fn spec_list_marker(line: Seq<u8>, at: int, interrupts_paragraph: bool) -> Option<(bool, u64, u8, usize)> {
    if at < 0 || at >= line.len() {
        None
    } else {
        let first = line[at];
        let found: Option<(bool, u64, u8, usize)> = if first == 0x2A || first == 0x2B || first == 0x2D {
            Some((false, 0u64, first, 1usize))
        } else if 0x30 <= first <= 0x39 {
            let digits = digit_run(line, at) - at;
            if digits > 9 || at + digits >= line.len() {
                None
            } else if !(line[at + digits] == 0x2E || line[at + digits] == 0x29) {
                None
            } else if interrupts_paragraph && digit_value(line, at, at + digits) != 1 {
                None
            } else {
                Some((true, digit_value(line, at, at + digits) as u64, line[at + digits], (digits + 1) as usize))
            }
        } else {
            None
        };
        match found {
            None => None,
            Some((ordered, start, marker, width)) => {
                let after = at + width;
                if after < line.len() && !(line[after] == 0x20 || line[after] == 0x09) {
                    None
                } else if interrupts_paragraph && blank_from(line, after) {
                    None
                } else {
                    Some((ordered, start, marker, width))
                }
            },
        }
    }
}

/// The end of the run of digits from `i`.
pub open spec fn digit_run(line: Seq<u8>, i: int) -> int
    decreases line.len() - i,
{
    if 0 <= i < line.len() && 0x30 <= line[i] <= 0x39 {
        digit_run(line, i + 1)
    } else {
        i
    }
}

/// The number the digits `line[start..end]` spell.
pub open spec fn digit_value(line: Seq<u8>, start: int, end: int) -> nat
    decreases end - start,
{
    if end <= start {
        0
    } else {
        digit_value(line, start, end - 1) * 10 + (line[end - 1] - 0x30) as nat
    }
}

proof fn lemma_digit_value_bound(line: Seq<u8>, start: int, end: int)
    requires
        start <= end,
        forall|i: int| start <= i < end ==> 0x30 <= #[trigger] line[i] <= 0x39,
    ensures
        digit_value(line, start, end) < pow10((end - start) as nat),
    decreases end - start,
{
    if end > start {
        lemma_digit_value_bound(line, start, end - 1);
        assert(digit_value(line, start, end - 1) * 10 + 9 < pow10((end - start) as nat)) by (nonlinear_arith)
            requires
                digit_value(line, start, end - 1) < pow10((end - 1 - start) as nat),
                pow10((end - start) as nat) == 10 * pow10((end - 1 - start) as nat),
        ;
    }
}

pub open spec fn pow10(n: nat) -> nat
    decreases n,
{
    if n == 0 {
        1
    } else {
        10 * pow10((n - 1) as nat)
    }
}

proof fn lemma_digit_run(line: Seq<u8>, i: int)
    requires
        0 <= i,
    ensures
        i <= digit_run(line, i),
        i <= line.len() ==> digit_run(line, i) <= line.len(),
        forall|j: int| i <= j < digit_run(line, i) ==> 0x30 <= #[trigger] line[j] <= 0x39,
        digit_run(line, i) < line.len() ==> !(0x30 <= line[digit_run(line, i)] <= 0x39),
    decreases line.len() - i,
{
    if 0 <= i < line.len() && 0x30 <= line[i] <= 0x39 {
        lemma_digit_run(line, i + 1);
    }
}

/// Returns `(ordered, start, marker, marker width)` for a list marker at
/// `at`. When interrupting a paragraph, only `1.`/`1)` ordered markers and
/// non-empty items qualify.
pub fn parse_list_marker(line: &[u8], at: usize, interrupts_paragraph: bool) -> (marker: Option<(bool, u64, u8, usize)>)
    ensures
        marker == spec_list_marker(line@, at as int, interrupts_paragraph),
{
    if at >= line.len() {
        return None;
    }
    let first = line[at];
    let ordered: bool;
    let start: u64;
    let marker: u8;
    let width: usize;
    if first == 0x2A || first == 0x2B || first == 0x2D {
        ordered = false;
        start = 0;
        marker = first;
        width = 1;
    } else if 0x30 <= first && first <= 0x39 {
        let mut digits: usize = 0;
        let mut value: u64 = 0;
        proof {
            lemma_digit_run(line@, at as int);
        }
        while digits < line.len() - at && 0x30 <= line[at + digits] && line[at + digits] <= 0x39
            invariant
                at < line@.len(),
                digits <= 9,
                at + digits <= digit_run(line@, at as int),
                digit_run(line@, at as int) <= line@.len(),
                forall|j: int| at <= j < digit_run(line@, at as int) ==> 0x30 <= #[trigger] line@[j] <= 0x39,
                digit_run(line@, at as int) < line@.len() ==> !(0x30 <= line@[digit_run(line@, at as int)]
                    <= 0x39),
                value == digit_value(line@, at as int, at + digits),
                value < pow10(digits as nat),
            decreases line@.len() - digits,
        {
            proof {
                lemma_digit_value_bound(line@, at as int, at + digits + 1);
                reveal_with_fuel(pow10, 10);
            }
            value = value * 10 + (line[at + digits] - 0x30) as u64;
            digits += 1;
            if digits > 9 {
                return None;
            }
        }
        if digits >= line.len() - at {
            return None;
        }
        let delimiter = line[at + digits];
        if delimiter != 0x2E && delimiter != 0x29 {
            return None;
        }
        if interrupts_paragraph && value != 1 {
            return None;
        }
        ordered = true;
        start = value;
        marker = delimiter;
        width = digits + 1;
    } else {
        return None;
    }
    if width < line.len() - at && !is_space_or_tab(line[at + width]) {
        return None;
    }
    if interrupts_paragraph && rest_blank(line, at + width) {
        return None;
    }
    Some((ordered, start, marker, width))
}

} // verus!
