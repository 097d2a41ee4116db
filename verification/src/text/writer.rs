//! Renders Markdown events as plain text meant to be read as is: no
//! markup, structure kept with indentation and list markers, links shown
//! as `text (url)`, tables as aligned columns, footnotes numbered and
//! listed at the end.
//!
//! The writer keeps its output as characters; `finish_text` hands it back
//! as a `String`.

use vstd::prelude::*;
use crate::markdown::{Event, EventSink, EventView, Tag, TagEnd, TagView, event_views};
use crate::message::{chars_of, decimal, string_of};
use crate::text::reader::{line_break, lemma_line_break, lines_from};

verus! {

// ----- the model -----

/// What an open container contributes to the lines inside it.
pub struct ContainerView {
    /// Start of every line inside.
    pub indent: Seq<char>,
    /// Written instead of `indent` on the first line inside, then cleared.
    pub marker: Option<Seq<char>>,
    /// A block has been written inside.
    pub has_block: bool,
    /// Blocks inside are separated by a blank line.
    pub loose: bool,
    /// Number of the next item, for an ordered list.
    pub next_number: Option<u64>,
    pub is_list: bool,
}

/// A footnote: its label, its number (zero until it is referenced) and
/// its body once its definition has been read.
pub struct FootnoteView {
    pub label: Seq<char>,
    pub number: nat,
    pub body: Option<Seq<char>>,
}

/// A table being collected: its rows of cells, and the text written
/// before it, put back when it ends.
pub struct TableView {
    pub rows: Seq<Seq<Seq<char>>>,
    pub outer: Seq<char>,
}

/// The whole state of a text writer.
pub struct TextState {
    pub out: Seq<char>,
    pub containers: Seq<ContainerView>,
    /// Nothing has been written on the current line yet.
    pub at_line_start: bool,
    /// Where each open link's text starts in `out`, with its destination.
    pub links: Seq<(nat, Seq<char>)>,
    pub image_depth: nat,
    pub table: Option<TableView>,
    pub in_html_block: bool,
    pub footnotes: Seq<FootnoteView>,
    /// While a footnote definition is read: its label and the main output.
    pub capture: Option<(Seq<char>, Seq<char>)>,
}

/// What a container writes at the start of a line: its marker if one is
/// pending, else its indent.
pub open spec fn prefix_of(container: ContainerView) -> Seq<char> {
    match container.marker {
        Some(marker) => marker,
        None => container.indent,
    }
}

/// The prefixes of the containers, outermost first.
pub open spec fn prefixes(containers: Seq<ContainerView>) -> Seq<char>
    decreases containers.len(),
{
    if containers.len() == 0 {
        Seq::empty()
    } else {
        prefixes(containers.drop_last()) + prefix_of(containers.last())
    }
}

/// A container with its marker spent.
pub open spec fn spent(container: ContainerView) -> ContainerView {
    ContainerView { marker: None, ..container }
}

/// `text` without the spaces at its end.
pub open spec fn trim_spaces(text: Seq<char>) -> Seq<char>
    decreases text.len(),
{
    if text.len() > 0 && text.last() == ' ' {
        trim_spaces(text.drop_last())
    } else {
        text
    }
}

/// `count` spaces.
pub open spec fn spaces(count: nat) -> Seq<char> {
    Seq::new(count, |i: int| ' ')
}

impl TextState {
    /// Writes the container prefixes if the line is fresh.
    pub open spec fn begin_content(self) -> TextState {
        if !self.at_line_start {
            self
        } else {
            TextState {
                at_line_start: false,
                out: self.out + prefixes(self.containers),
                containers: self.containers.map_values(|container: ContainerView| spent(container)),
                ..self
            }
        }
    }

    pub open spec fn end_line(self) -> TextState {
        TextState { out: self.out.push('\n'), at_line_start: true, ..self }
    }

    pub open spec fn close_open_line(self) -> TextState {
        if !self.at_line_start {
            self.end_line()
        } else {
            self
        }
    }

    /// Separates a new block from the previous one in the same container.
    pub open spec fn begin_block(self) -> TextState {
        if self.containers.len() == 0 {
            self
        } else {
            let parent = self.containers.last();
            let marked = TextState {
                containers: self.containers.update(
                    self.containers.len() - 1,
                    ContainerView { has_block: true, ..parent },
                ),
                ..self
            };
            if parent.has_block {
                if parent.loose {
                    marked.close_open_line().end_line()
                } else {
                    marked.close_open_line()
                }
            } else {
                marked
            }
        }
    }

    pub open spec fn push_container(self, container: ContainerView) -> TextState {
        TextState { containers: self.containers.push(container), ..self }
    }

    /// Closes a container. An empty one with a marker still gets its
    /// marker line, trailing spaces trimmed.
    pub open spec fn pop_container(self) -> TextState {
        let is_empty = self.containers.len() > 0 && !self.containers.last().has_block
            && self.containers.last().marker is Some;
        let marked = if is_empty {
            let begun = self.begin_content();
            TextState { out: trim_spaces(begun.out), ..begun }
        } else {
            self
        };
        let closed = marked.close_open_line();
        if closed.containers.len() > 0 {
            TextState { containers: closed.containers.drop_last(), ..closed }
        } else {
            closed
        }
    }
}

/// The outermost container: no prefix, loose.
pub open spec fn root_container() -> ContainerView {
    ContainerView {
        indent: Seq::empty(),
        marker: None,
        has_block: false,
        loose: true,
        next_number: None,
        is_list: false,
    }
}

impl TextState {
    /// A writer that has taken no event, its output starting with `out`.
    pub open spec fn initial(out: Seq<char>) -> TextState {
        TextState {
            out,
            containers: seq![root_container()],
            at_line_start: true,
            links: Seq::empty(),
            image_depth: 0,
            table: None,
            in_html_block: false,
            footnotes: Seq::empty(),
            capture: None,
        }
    }
}

/// The text a run of events renders to, after `out`.
pub open spec fn rendered_text(out: Seq<char>, events: Seq<EventView>) -> Seq<char> {
    TextState::initial(out).steps(events).render_footnotes().out
}

// ----- tables -----

/// The most cells any row has.
pub open spec fn column_count(rows: Seq<Seq<Seq<char>>>) -> nat
    decreases rows.len(),
{
    if rows.len() == 0 {
        0
    } else {
        let before = column_count(rows.drop_last());
        if rows.last().len() > before {
            rows.last().len()
        } else {
            before
        }
    }
}

/// The widest cell of column `column`, in characters.
pub open spec fn column_width(rows: Seq<Seq<Seq<char>>>, column: int) -> nat
    decreases rows.len(),
{
    if rows.len() == 0 {
        0
    } else {
        let before = column_width(rows.drop_last(), column);
        let here = if 0 <= column < rows.last().len() {
            rows.last()[column].len()
        } else {
            0
        };
        if here > before {
            here
        } else {
            before
        }
    }
}

/// The width of every column.
pub open spec fn column_widths(rows: Seq<Seq<Seq<char>>>) -> Seq<nat> {
    Seq::new(column_count(rows), |column: int| column_width(rows, column))
}

/// Cell `index` of a row as written: two spaces before every cell but the
/// first, and every cell but the last padded to its column's width.
pub open spec fn cell_text(row: Seq<Seq<char>>, widths: Seq<nat>, index: int) -> Seq<char> {
    let separator = if index > 0 {
        seq![' ', ' ']
    } else {
        Seq::empty()
    };
    let padding = if index + 1 < row.len() && widths[index] > row[index].len() {
        spaces((widths[index] - row[index].len()) as nat)
    } else {
        Seq::empty()
    };
    separator + row[index] + padding
}

/// The first `count` cells of a row as written.
pub open spec fn row_text(row: Seq<Seq<char>>, widths: Seq<nat>, count: int) -> Seq<char>
    decreases count,
{
    if count <= 0 {
        Seq::empty()
    } else {
        row_text(row, widths, count - 1) + cell_text(row, widths, count - 1)
    }
}

/// The first `count` columns of the rule under the header: a dash per
/// character of the column's width, at least one.
pub open spec fn rule_text(widths: Seq<nat>, count: int) -> Seq<char>
    decreases count,
{
    if count <= 0 {
        Seq::empty()
    } else {
        let width: nat = if widths[count - 1] > 0 {
            widths[count - 1]
        } else {
            1
        };
        rule_text(widths, count - 1) + (if count > 1 {
            seq![' ', ' ']
        } else {
            Seq::empty()
        }) + Seq::new(width, |i: int| '-')
    }
}

impl TextState {
    /// Writes rows `from` on, the rule under the first.
    pub open spec fn write_rows(self, rows: Seq<Seq<Seq<char>>>, widths: Seq<nat>, from: int) -> TextState
        decreases rows.len() - from,
    {
        if from < 0 || from >= rows.len() {
            self
        } else {
            let wrote = self.write(row_text(rows[from], widths, rows[from].len() as int)).end_line();
            let ruled = if from == 0 {
                wrote.write(rule_text(widths, widths.len() as int)).end_line()
            } else {
                wrote
            };
            ruled.write_rows(rows, widths, from + 1)
        }
    }

    /// Writes the collected table as aligned columns in place of what its
    /// cells wrote.
    pub open spec fn render_table(self) -> TextState {
        match self.table {
            None => self,
            Some(table) => TextState {
                out: table.outer,
                at_line_start: true,
                table: None,
                ..self
            }.write_rows(table.rows, column_widths(table.rows), 0),
        }
    }
}

// ----- footnotes -----

/// How many footnotes have a number.
pub open spec fn numbered(notes: Seq<FootnoteView>) -> nat
    decreases notes.len(),
{
    if notes.len() == 0 {
        0
    } else {
        numbered(notes.drop_last()) + if notes.last().number > 0 {
            1nat
        } else {
            0nat
        }
    }
}

/// The first footnote from `from` on with `label`, or the count of notes.
pub open spec fn find_label(notes: Seq<FootnoteView>, label: Seq<char>, from: int) -> int
    decreases notes.len() - from,
{
    if from < 0 || from >= notes.len() {
        notes.len() as int
    } else if notes[from].label == label {
        from
    } else {
        find_label(notes, label, from + 1)
    }
}

impl TextState {
    /// The number of the footnote `label`, given when it is first
    /// referenced: one more than the footnotes numbered so far.
    pub open spec fn footnote_number(self, label: Seq<char>) -> (TextState, nat) {
        let index = find_label(self.footnotes, label, 0);
        let next = numbered(self.footnotes) + 1;
        if index >= self.footnotes.len() {
            (
                TextState {
                    footnotes: self.footnotes.push(FootnoteView { label, number: next, body: None }),
                    ..self
                },
                next,
            )
        } else if self.footnotes[index].number == 0 {
            (
                TextState {
                    footnotes: self.footnotes.update(
                        index,
                        FootnoteView { number: next, ..self.footnotes[index] },
                    ),
                    ..self
                },
                next,
            )
        } else {
            (self, self.footnotes[index].number)
        }
    }

    /// Files the body written since a footnote definition opened under
    /// its label, and puts the main output back.
    pub open spec fn end_footnote_definition(self) -> TextState {
        match self.capture {
            None => self,
            Some((label, main)) => {
                let index = find_label(self.footnotes, label, 0);
                TextState {
                    out: main,
                    at_line_start: main.len() == 0 || main.last() == '\n',
                    capture: None,
                    footnotes: if index < self.footnotes.len() {
                        self.footnotes.update(index, FootnoteView { body: Some(self.out), ..self.footnotes[index] })
                    } else {
                        self.footnotes.push(FootnoteView { label, number: 0, body: Some(self.out) })
                    },
                    ..self
                }
            },
        }
    }

    /// The marker of the next item: the list's next number and a dot, or
    /// a dash.
    pub open spec fn next_item_marker(self) -> (TextState, Seq<char>) {
        if self.containers.len() > 0 && self.containers.last().is_list
            && self.containers.last().next_number is Some {
            let list = self.containers.last();
            let number = list.next_number->0;
            (
                TextState {
                    containers: self.containers.update(
                        self.containers.len() - 1,
                        ContainerView { next_number: Some(number.wrapping_add(1)), ..list },
                    ),
                    ..self
                },
                decimal(number as nat) + seq!['.', ' '],
            )
        } else {
            (self, seq!['-', ' '])
        }
    }

    /// Closes a link: its destination follows in parentheses unless it is
    /// empty or the same as the link's text.
    pub open spec fn end_link(self) -> TextState {
        if self.links.len() == 0 {
            self
        } else {
            let (start, destination) = self.links.last();
            let from = if start <= self.out.len() {
                start as int
            } else {
                self.out.len() as int
            };
            let text = self.out.subrange(from, self.out.len() as int);
            let closed = TextState { links: self.links.drop_last(), ..self };
            if destination.len() > 0 && text != destination {
                TextState { out: closed.out + seq![' ', '('] + destination + seq![')'], ..closed }
            } else {
                closed
            }
        }
    }

    /// The content of a text or code event, after the line's prefixes.
    pub open spec fn write(self, text: Seq<char>) -> TextState {
        let begun = self.begin_content();
        TextState { out: begun.out + text, ..begun }
    }

    pub open spec fn start(self, tag: TagView) -> TextState {
        match tag {
            TagView::Paragraph | TagView::Heading(_) | TagView::CodeBlock(_) => self.begin_block(),
            TagView::HtmlBlock => TextState { in_html_block: true, ..self },
            TagView::BlockQuote => self.begin_block().push_container(
                ContainerView {
                    indent: seq![' ', ' '],
                    marker: None,
                    has_block: false,
                    loose: true,
                    next_number: None,
                    is_list: false,
                },
            ),
            TagView::List { start, tight } => self.begin_block().push_container(
                ContainerView {
                    indent: Seq::empty(),
                    marker: None,
                    has_block: false,
                    loose: !tight,
                    next_number: start,
                    is_list: true,
                },
            ),
            TagView::Item => {
                let (marked, marker) = self.begin_block().next_item_marker();
                let loose = marked.containers.len() > 0 && marked.containers.last().loose;
                marked.push_container(
                    ContainerView {
                        indent: spaces(marker.len()),
                        marker: Some(marker),
                        has_block: false,
                        loose,
                        next_number: None,
                        is_list: false,
                    },
                )
            },
            TagView::FootnoteDefinition(label) => TextState {
                out: Seq::empty(),
                capture: Some((label, self.out)),
                at_line_start: true,
                ..self
            }.push_container(
                ContainerView {
                    indent: Seq::empty(),
                    marker: None,
                    has_block: false,
                    loose: true,
                    next_number: None,
                    is_list: false,
                },
            ),
            TagView::Table(_) => {
                let begun = self.begin_block();
                TextState {
                    out: Seq::empty(),
                    table: Some(TableView { rows: Seq::empty(), outer: begun.out }),
                    at_line_start: false,
                    ..begun
                }
            },
            TagView::TableHead | TagView::TableRow => match self.table {
                Some(table) => TextState {
                    table: Some(TableView { rows: table.rows.push(Seq::empty()), ..table }),
                    ..self
                },
                None => self,
            },
            TagView::TableCell => TextState { out: Seq::empty(), ..self },
            TagView::Emphasis | TagView::Strong | TagView::Strikethrough => self.begin_content(),
            TagView::Link { destination, .. } => {
                let begun = self.begin_content();
                TextState { links: begun.links.push((begun.out.len(), destination)), ..begun }
            },
            TagView::Image { .. } => {
                let begun = self.begin_content();
                TextState {
                    image_depth: if begun.image_depth < usize::MAX {
                        begun.image_depth + 1
                    } else {
                        begun.image_depth
                    },
                    ..begun
                }
            },
        }
    }

    pub open spec fn end(self, tag: TagEnd) -> TextState {
        match tag {
            TagEnd::Paragraph | TagEnd::Heading(_) | TagEnd::CodeBlock => self.close_open_line(),
            TagEnd::HtmlBlock => self,
            TagEnd::BlockQuote | TagEnd::Item | TagEnd::List(_) => self.pop_container(),
            TagEnd::FootnoteDefinition => {
                let closed = self.close_open_line();
                let popped = if closed.containers.len() > 0 {
                    TextState { containers: closed.containers.drop_last(), ..closed }
                } else {
                    closed
                };
                popped.end_footnote_definition()
            },
            TagEnd::Table => self.render_table(),
            TagEnd::TableHead | TagEnd::TableRow => self,
            TagEnd::TableCell => {
                let taken = TextState { out: Seq::empty(), ..self };
                match self.table {
                    Some(table) => if table.rows.len() > 0 {
                        TextState {
                            table: Some(
                                TableView {
                                    rows: table.rows.update(
                                        table.rows.len() - 1,
                                        table.rows.last().push(self.out),
                                    ),
                                    ..table
                                },
                            ),
                            ..taken
                        }
                    } else {
                        taken
                    },
                    None => taken,
                }
            },
            TagEnd::Emphasis | TagEnd::Strong | TagEnd::Strikethrough => self,
            TagEnd::Link => self.end_link(),
            TagEnd::Image => TextState {
                image_depth: if self.image_depth > 0 {
                    (self.image_depth - 1) as nat
                } else {
                    0
                },
                ..self
            },
        }
    }

    /// What one event does to the writer. Inside a raw HTML block every
    /// event is dropped until the block ends.
    pub open spec fn step(self, event: EventView) -> TextState {
        if self.in_html_block {
            if event == EventView::End(TagEnd::HtmlBlock) {
                TextState { in_html_block: false, ..self }
            } else {
                self
            }
        } else {
            match event {
                EventView::Start(tag) => self.start(tag),
                EventView::End(tag) => self.end(tag),
                EventView::Text(text) | EventView::Code(text) => self.write(text),
                EventView::Html(_) | EventView::InlineHtml(_) => self,
                EventView::SoftBreak | EventView::HardBreak => if self.table is Some || self.image_depth > 0 {
                    TextState { out: self.out.push(' '), ..self }
                } else {
                    self.end_line()
                },
                EventView::Rule => self.begin_block().write(seq!['*', ' ', '*', ' ', '*']).end_line(),
                EventView::FootnoteReference(label) => {
                    let (numbered, number) = self.begin_content().footnote_number(label);
                    TextState { out: numbered.out + seq!['['] + decimal(number) + seq![']'], ..numbered }
                },
                EventView::TaskListMarker(checked) => self.write(
                    if checked {
                        seq!['[', 'x', ']', ' ']
                    } else {
                        seq!['[', ' ', ']', ' ']
                    },
                ),
            }
        }
    }

    /// What a run of events does to the writer.
    pub open spec fn steps(self, events: Seq<EventView>) -> TextState
        decreases events.len(),
    {
        if events.len() == 0 {
            self
        } else {
            self.steps(events.drop_last()).step(events.last())
        }
    }
}

/// A task list marker writes a box after the content starts: empty for an
/// open task, crossed for a done one.
pub proof fn lemma_task_marker_text(state: TextState, checked: bool)
    requires
        !state.in_html_block,
    ensures
        ({
            let out = state.step(EventView::TaskListMarker(checked)).out;
            &&& out.len() >= 4
            &&& out.subrange(0, out.len() - 4) == state.begin_content().out
            &&& out[out.len() - 4] == '['
            &&& out[out.len() - 3] == (if checked { 'x' } else { ' ' })
            &&& out[out.len() - 2] == ']'
            &&& out[out.len() - 1] == ' '
        }),
{
    let begun = state.begin_content();
    let marker = if checked { seq!['[', 'x', ']', ' '] } else { seq!['[', ' ', ']', ' '] };
    let out = state.step(EventView::TaskListMarker(checked)).out;
    assert(out == begun.out + marker);
    assert(out.subrange(0, out.len() - 4) =~= begun.out);
}

// ----- the footnote list -----

/// The footnotes before `count` that were both referenced and defined.
pub open spec fn referenced(notes: Seq<FootnoteView>, count: int) -> Seq<int>
    decreases count,
{
    if count <= 0 {
        Seq::empty()
    } else {
        let before = referenced(notes, count - 1);
        if notes[count - 1].number > 0 && notes[count - 1].body is Some {
            before.push(count - 1)
        } else {
            before
        }
    }
}

/// `index` placed into `sorted` after every footnote whose number is not
/// larger than its own.
pub open spec fn insert_by_number(notes: Seq<FootnoteView>, sorted: Seq<int>, index: int) -> Seq<int>
    decreases sorted.len(),
{
    if sorted.len() == 0 {
        seq![index]
    } else if notes[sorted.last()].number <= notes[index].number {
        sorted.push(index)
    } else {
        insert_by_number(notes, sorted.drop_last(), index).push(sorted.last())
    }
}

/// `indices` in the order of their footnotes' numbers, equal numbers
/// keeping their order.
pub open spec fn by_number(notes: Seq<FootnoteView>, indices: Seq<int>) -> Seq<int>
    decreases indices.len(),
{
    if indices.len() == 0 {
        Seq::empty()
    } else {
        insert_by_number(notes, by_number(notes, indices.drop_last()), indices.last())
    }
}

/// `text` without the newlines at its end.
pub open spec fn trim_newlines(text: Seq<char>) -> Seq<char>
    decreases text.len(),
{
    if text.len() > 0 && text.last() == '\n' {
        trim_newlines(text.drop_last())
    } else {
        text
    }
}

/// `[n] `, the marker of footnote `n` in the list.
pub open spec fn note_marker(number: nat) -> Seq<char> {
    seq!['['] + decimal(number) + seq![']', ' ']
}

/// The lines of `text` from `from` on, each ended by a newline: the
/// first after `marker`, each later one that is not empty after as many
/// spaces.
pub open spec fn note_lines(text: Seq<char>, from: int, first: bool, marker: Seq<char>) -> Seq<char>
    decreases text.len() + 1 - from,
{
    if from < 0 || from > text.len() {
        Seq::empty()
    } else {
        let end = line_break(text, from);
        let line = text.subrange(from, end);
        let lead = if first {
            marker
        } else if line.len() > 0 {
            spaces(marker.len())
        } else {
            Seq::empty()
        };
        proof {
            lemma_line_break(text, from);
        }
        if end < text.len() {
            lead + line + seq!['\n'] + note_lines(text, end + 1, false, marker)
        } else {
            lead + line + seq!['\n']
        }
    }
}

/// The entry of a footnote in the list at the end.
pub open spec fn note_text(note: FootnoteView) -> Seq<char> {
    match note.body {
        Some(body) => note_lines(trim_newlines(body), 0, true, note_marker(note.number)),
        None => Seq::empty(),
    }
}

/// The entries of the footnotes `order` names, the first `count` of them.
pub open spec fn notes_text(notes: Seq<FootnoteView>, order: Seq<int>, count: int) -> Seq<char>
    decreases count,
{
    if count <= 0 {
        Seq::empty()
    } else {
        notes_text(notes, order, count - 1) + note_text(notes[order[count - 1]])
    }
}

impl TextState {
    /// The footnotes that were referenced and defined, in number order,
    /// after a blank line.
    pub open spec fn render_footnotes(self) -> TextState {
        let order = by_number(self.footnotes, referenced(self.footnotes, self.footnotes.len() as int));
        if order.len() == 0 {
            self
        } else {
            let opened = self.close_open_line().end_line();
            TextState {
                out: opened.out + notes_text(self.footnotes, order, order.len() as int),
                at_line_start: true,
                ..opened
            }
        }
    }
}

// ----- laws -----

/// Where cell `count` of a row starts once the cells before it are padded
/// to their columns: their widths and the two spaces between them.
pub open spec fn column_start(widths: Seq<nat>, count: int) -> nat
    decreases count,
{
    if count <= 0 {
        0
    } else {
        column_start(widths, count - 1) + widths[count - 1] + if count > 1 {
            2nat
        } else {
            0nat
        }
    }
}

proof fn lemma_column_width_covers(rows: Seq<Seq<Seq<char>>>, row: int, column: int)
    requires
        0 <= row < rows.len(),
        0 <= column < rows[row].len(),
    ensures
        rows[row][column].len() <= column_width(rows, column),
    decreases rows.len(),
{
    if row < rows.len() - 1 {
        lemma_column_width_covers(rows.drop_last(), row, column);
    }
}

proof fn lemma_row_start(row: Seq<Seq<char>>, widths: Seq<nat>, count: int)
    requires
        0 <= count < row.len(),
        count <= widths.len(),
        forall|i: int| 0 <= i < count ==> row[i].len() <= #[trigger] widths[i],
    ensures
        row_text(row, widths, count).len() == column_start(widths, count),
    decreases count,
{
    if count > 0 {
        lemma_row_start(row, widths, count - 1);
    }
}

/// Tables line up: in every row that has a cell in a column, that cell
/// starts at the same character of its line.
pub proof fn lemma_columns_line_up(rows: Seq<Seq<Seq<char>>>, first: int, second: int, column: int)
    requires
        0 <= first < rows.len(),
        0 <= second < rows.len(),
        0 <= column < rows[first].len(),
        column < rows[second].len(),
    ensures
        row_text(rows[first], column_widths(rows), column).len() == row_text(
            rows[second],
            column_widths(rows),
            column,
        ).len(),
{
    let widths = column_widths(rows);
    lemma_column_count_bound(rows, first);
    lemma_column_count_bound(rows, second);
    assert forall|i: int| 0 <= i < column implies rows[first][i].len() <= #[trigger] widths[i] by {
        lemma_column_width_covers(rows, first, i);
    }
    lemma_row_start(rows[first], widths, column);
    assert forall|i: int| 0 <= i < column implies rows[second][i].len() <= #[trigger] widths[i] by {
        lemma_column_width_covers(rows, second, i);
    }
    lemma_row_start(rows[second], widths, column);
}

proof fn lemma_find_label_push(notes: Seq<FootnoteView>, note: FootnoteView, label: Seq<char>, from: int)
    requires
        0 <= from <= notes.len(),
    ensures
        find_label(notes.push(note), label, from) == if find_label(notes, label, from) < notes.len() {
            find_label(notes, label, from)
        } else if note.label == label {
            notes.len() as int
        } else {
            notes.len() + 1int
        },
    decreases notes.len() - from,
{
    if from < notes.len() {
        assert(notes.push(note)[from] == notes[from]);
        if notes[from].label != label {
            lemma_find_label_push(notes, note, label, from + 1);
        }
    } else {
        assert(notes.push(note)[from] == note);
        if note.label != label {
            assert(find_label(notes.push(note), label, from + 1) == notes.len() + 1);
        }
    }
}

proof fn lemma_find_label_same_labels(a: Seq<FootnoteView>, b: Seq<FootnoteView>, label: Seq<char>, from: int)
    requires
        0 <= from <= a.len(),
        a.len() == b.len(),
        forall|i: int| 0 <= i < a.len() ==> #[trigger] a[i].label == b[i].label,
    ensures
        find_label(a, label, from) == find_label(b, label, from),
    decreases a.len() - from,
{
    if from < a.len() && a[from].label != label {
        lemma_find_label_same_labels(a, b, label, from + 1);
    }
}

/// A footnote keeps the number its first reference gave it: a second
/// reference to the same label gets the same number, at least one, and
/// changes nothing.
pub proof fn lemma_footnote_number_is_kept(state: TextState, label: Seq<char>)
    ensures
        state.footnote_number(label).1 >= 1,
        state.footnote_number(label).0.footnote_number(label) == state.footnote_number(label),
{
    let notes = state.footnotes;
    let (first, number) = state.footnote_number(label);
    let index = find_label(notes, label, 0);
    lemma_find_label_range(notes, label, 0);
    if index >= notes.len() {
        let note = FootnoteView { label, number: numbered(notes) + 1, body: None };
        lemma_find_label_push(notes, note, label, 0);
        assert(first.footnotes == notes.push(note));
        assert(find_label(first.footnotes, label, 0) == notes.len());
    } else if notes[index].number == 0 {
        let updated = notes.update(index, FootnoteView { number: numbered(notes) + 1, ..notes[index] });
        assert(first.footnotes == updated);
        lemma_find_label_same_labels(notes, updated, label, 0);
    }
}

/// The numbers footnotes carry are 1 to the count of numbered ones, each
/// used once.
pub open spec fn numbering_dense(notes: Seq<FootnoteView>) -> bool {
    &&& forall|i: int| 0 <= i < notes.len() ==> #[trigger] notes[i].number <= numbered(notes)
    &&& forall|i: int, j: int|
        0 <= i < notes.len() && 0 <= j < notes.len() && i != j && notes[i].number > 0 ==> #[trigger] notes[i].number
            != #[trigger] notes[j].number
}

proof fn lemma_numbered_push(notes: Seq<FootnoteView>, note: FootnoteView)
    ensures
        numbered(notes.push(note)) == numbered(notes) + if note.number > 0 {
            1nat
        } else {
            0nat
        },
{
    assert(notes.push(note).drop_last() =~= notes);
}

proof fn lemma_numbered_update(notes: Seq<FootnoteView>, index: int, note: FootnoteView)
    requires
        0 <= index < notes.len(),
    ensures
        numbered(notes.update(index, note)) + (if notes[index].number > 0 {
            1nat
        } else {
            0nat
        }) == numbered(notes) + if note.number > 0 {
            1nat
        } else {
            0nat
        },
    decreases notes.len(),
{
    if index < notes.len() - 1 {
        lemma_numbered_update(notes.drop_last(), index, note);
        assert(notes.update(index, note).drop_last() =~= notes.drop_last().update(index, note));
    } else {
        assert(notes.update(index, note).drop_last() =~= notes.drop_last());
    }
}

proof fn lemma_footnote_number_dense(state: TextState, label: Seq<char>)
    requires
        numbering_dense(state.footnotes),
    ensures
        numbering_dense(state.footnote_number(label).0.footnotes),
{
    let notes = state.footnotes;
    let index = find_label(notes, label, 0);
    let next = numbered(notes) + 1;
    lemma_find_label_range(notes, label, 0);
    if index >= notes.len() {
        let note = FootnoteView { label, number: next, body: None };
        lemma_numbered_push(notes, note);
        let after = notes.push(note);
        assert forall|i: int| 0 <= i < after.len() implies #[trigger] after[i].number <= numbered(after) by {
            if i < notes.len() {
                assert(after[i] == notes[i]);
            }
        }
        assert forall|i: int, j: int|
            0 <= i < after.len() && 0 <= j < after.len() && i != j && after[i].number > 0 implies #[trigger] after[i].number
            != #[trigger] after[j].number by {
            if i < notes.len() && j < notes.len() {
                assert(after[i] == notes[i] && after[j] == notes[j]);
            } else if i < notes.len() {
                assert(after[i] == notes[i]);
            } else {
                assert(after[j] == notes[j]);
            }
        }
    } else if notes[index].number == 0 {
        let note = FootnoteView { number: next, ..notes[index] };
        lemma_numbered_update(notes, index, note);
        let after = notes.update(index, note);
        assert forall|i: int| 0 <= i < after.len() implies #[trigger] after[i].number <= numbered(after) by {
            if i != index {
                assert(after[i] == notes[i]);
            }
        }
        assert forall|i: int, j: int|
            0 <= i < after.len() && 0 <= j < after.len() && i != j && after[i].number > 0 implies #[trigger] after[i].number
            != #[trigger] after[j].number by {
            if i != index && j != index {
                assert(after[i] == notes[i] && after[j] == notes[j]);
            } else if i != index {
                assert(after[i] == notes[i]);
            } else {
                assert(after[j] == notes[j]);
            }
        }
    }
}

proof fn lemma_end_definition_dense(state: TextState)
    requires
        numbering_dense(state.footnotes),
    ensures
        numbering_dense(state.end_footnote_definition().footnotes),
{
    if let Some((label, main)) = state.capture {
        let notes = state.footnotes;
        let index = find_label(notes, label, 0);
        lemma_find_label_range(notes, label, 0);
        if index < notes.len() {
            let note = FootnoteView { body: Some(state.out), ..notes[index] };
            lemma_numbered_update(notes, index, note);
            let after = notes.update(index, note);
            assert forall|i: int| 0 <= i < after.len() implies #[trigger] after[i].number == notes[i].number by {
                if i != index {
                    assert(after[i] == notes[i]);
                }
            }
        } else {
            let note = FootnoteView { label, number: 0, body: Some(state.out) };
            lemma_numbered_push(notes, note);
            let after = notes.push(note);
            assert forall|i: int| 0 <= i < notes.len() implies #[trigger] after[i] == notes[i] by {}
        }
    }
}

proof fn lemma_write_rows_keep_footnotes(state: TextState, rows: Seq<Seq<Seq<char>>>, widths: Seq<nat>, from: int)
    ensures
        state.write_rows(rows, widths, from).footnotes == state.footnotes,
    decreases rows.len() - from,
{
    if 0 <= from < rows.len() {
        let wrote = state.write(row_text(rows[from], widths, rows[from].len() as int)).end_line();
        let ruled = if from == 0 {
            wrote.write(rule_text(widths, widths.len() as int)).end_line()
        } else {
            wrote
        };
        lemma_write_rows_keep_footnotes(ruled, rows, widths, from + 1);
    }
}

proof fn lemma_step_dense(state: TextState, event: EventView)
    requires
        numbering_dense(state.footnotes),
    ensures
        numbering_dense(state.step(event).footnotes),
{
    if !state.in_html_block {
        match event {
            EventView::FootnoteReference(label) => {
                lemma_footnote_number_dense(state.begin_content(), label);
            },
            EventView::End(TagEnd::FootnoteDefinition) => {
                let closed = state.close_open_line();
                let popped = if closed.containers.len() > 0 {
                    TextState { containers: closed.containers.drop_last(), ..closed }
                } else {
                    closed
                };
                lemma_end_definition_dense(popped);
            },
            EventView::End(TagEnd::Table) => {
                if let Some(table) = state.table {
                    let cleared = TextState { out: table.outer, at_line_start: true, table: None, ..state };
                    lemma_write_rows_keep_footnotes(cleared, table.rows, column_widths(table.rows), 0);
                }
            },
            _ => {},
        }
    }
}

/// Footnote numbers stay 1 to the count of numbered footnotes, each used
/// once, whatever events the writer takes.
pub proof fn lemma_footnote_numbers_stay_distinct(out: Seq<char>, events: Seq<EventView>)
    ensures
        numbering_dense(TextState::initial(out).steps(events).footnotes),
    decreases events.len(),
{
    if events.len() > 0 {
        lemma_footnote_numbers_stay_distinct(out, events.drop_last());
        lemma_step_dense(TextState::initial(out).steps(events.drop_last()), events.last());
    }
}

// ----- the writer -----

struct Container {
    indent: Vec<char>,
    marker: Option<Vec<char>>,
    has_block: bool,
    loose: bool,
    next_number: Option<u64>,
    is_list: bool,
}

impl View for Container {
    type V = ContainerView;

    closed spec fn view(&self) -> ContainerView {
        ContainerView {
            indent: self.indent@,
            marker: chars_view(self.marker),
            has_block: self.has_block,
            loose: self.loose,
            next_number: self.next_number,
            is_list: self.is_list,
        }
    }
}

struct Table {
    rows: Vec<Vec<Vec<char>>>,
    outer: Vec<char>,
}

/// The characters of each cell of each row.
pub open spec fn rows_view(rows: Seq<Vec<Vec<char>>>) -> Seq<Seq<Seq<char>>> {
    rows.map_values(|row: Vec<Vec<char>>| row@.map_values(|cell: Vec<char>| cell@))
}

impl View for Table {
    type V = TableView;

    closed spec fn view(&self) -> TableView {
        TableView { rows: rows_view(self.rows@), outer: self.outer@ }
    }
}

struct Footnote {
    label: Vec<char>,
    number: usize,
    body: Option<Vec<char>>,
}

impl View for Footnote {
    type V = FootnoteView;

    closed spec fn view(&self) -> FootnoteView {
        FootnoteView {
            label: self.label@,
            number: self.number as nat,
            body: chars_view(self.body),
        }
    }
}

/// Renders events to plain text.
pub struct TextWriter {
    out: Vec<char>,
    containers: Vec<Container>,
    at_line_start: bool,
    links: Vec<(usize, Vec<char>)>,
    image_depth: usize,
    table: Option<Table>,
    in_html_block: bool,
    footnotes: Vec<Footnote>,
    capture: Option<(Vec<char>, Vec<char>)>,
    /// The events taken so far.
    history: Ghost<Seq<Event>>,
}

impl View for TextWriter {
    type V = TextState;

    closed spec fn view(&self) -> TextState {
        TextState {
            out: self.out@,
            containers: self.containers@.map_values(|container: Container| container@),
            at_line_start: self.at_line_start,
            links: self.links@.map_values(|link: (usize, Vec<char>)| (link.0 as nat, link.1@)),
            image_depth: self.image_depth as nat,
            table: match self.table {
                Some(table) => Some(table@),
                None => None,
            },
            in_html_block: self.in_html_block,
            footnotes: self.footnotes@.map_values(|note: Footnote| note@),
            capture: match self.capture {
                Some(capture) => Some((capture.0@, capture.1@)),
                None => None,
            },
        }
    }
}

/// Appends `tail` to `out`.
fn push_chars(out: &mut Vec<char>, tail: &[char])
    ensures
        final(out)@ == old(out)@ + tail@,
{
    let mut index: usize = 0;
    while index < tail.len()
        invariant
            index <= tail@.len(),
            out@ == old(out)@ + tail@.subrange(0, index as int),
        decreases tail@.len() - index,
    {
        out.push(tail[index]);
        index += 1;
        proof {
            assert(tail@.subrange(0, index as int) =~= tail@.subrange(0, index - 1).push(tail@[index - 1]));
        }
    }
    assert(tail@.subrange(0, index as int) =~= tail@);
}

/// The characters of an optional run of characters.
pub open spec fn chars_view(chars: Option<Vec<char>>) -> Option<Seq<char>> {
    match chars {
        Some(chars) => Some(chars@),
        None => None,
    }
}

/// The decimal digits of `n`.
fn decimal_chars(n: u64) -> (digits: Vec<char>)
    ensures
        digits@ == decimal(n as nat),
    decreases n,
{
    let mut digits = if n >= 10 {
        decimal_chars(n / 10)
    } else {
        Vec::new()
    };
    let digit = (n % 10) as u8;
    digits.push((48 + digit) as char);
    proof {
        assert((48 + digit) as u8 as char == crate::message::digit_char((n % 10) as nat));
        if n < 10 {
            assert(digits@ =~= seq![crate::message::digit_char(n as nat)]);
        }
    }
    digits
}

/// Whether `text` from `from` on is exactly `other`.
fn tail_equals(text: &[char], from: usize, other: &[char]) -> (same: bool)
    requires
        from <= text@.len(),
    ensures
        same == (text@.subrange(from as int, text@.len() as int) == other@),
{
    if text.len() - from != other.len() {
        proof {
            assert(text@.subrange(from as int, text@.len() as int).len() != other@.len());
        }
        return false;
    }
    let mut index: usize = 0;
    while index < other.len()
        invariant
            from <= text@.len(),
            text@.len() <= usize::MAX,
            text@.len() - from == other@.len(),
            index <= other@.len(),
            forall|i: int| 0 <= i < index ==> text@[from + i] == other@[i],
        decreases other@.len() - index,
    {
        if text[from + index] != other[index] {
            proof {
                assert(text@.subrange(from as int, text@.len() as int)[index as int] != other@[index as int]);
            }
            return false;
        }
        index += 1;
    }
    assert(text@.subrange(from as int, text@.len() as int) =~= other@);
    true
}

/// No more footnotes are numbered than there are.
proof fn lemma_numbered_at_most(notes: Seq<FootnoteView>)
    ensures
        numbered(notes) <= notes.len(),
    decreases notes.len(),
{
    if notes.len() > 0 {
        lemma_numbered_at_most(notes.drop_last());
    }
}

/// A footnote without a number leaves room for one more below the count.
proof fn lemma_numbered_bound(notes: Seq<FootnoteView>, index: int)
    requires
        0 <= index < notes.len(),
        notes[index].number == 0,
    ensures
        numbered(notes) < notes.len(),
    decreases notes.len(),
{
    lemma_numbered_at_most(notes.drop_last());
    if index < notes.len() - 1 {
        lemma_numbered_bound(notes.drop_last(), index);
    }
}

proof fn lemma_find_label_step(notes: Seq<FootnoteView>, label: Seq<char>, from: int)
    requires
        0 <= from < notes.len(),
        notes[from].label != label,
    ensures
        find_label(notes, label, from) == find_label(notes, label, from + 1),
{
}

proof fn lemma_find_label_range(notes: Seq<FootnoteView>, label: Seq<char>, from: int)
    requires
        0 <= from <= notes.len(),
    ensures
        from <= find_label(notes, label, from) <= notes.len(),
        find_label(notes, label, from) < notes.len() ==> notes[find_label(notes, label, from)].label == label,
    decreases notes.len() - from,
{
    if from < notes.len() && notes[from].label != label {
        lemma_find_label_range(notes, label, from + 1);
    }
}

/// Widths as natural numbers.
pub open spec fn nats(widths: Seq<usize>) -> Seq<nat> {
    widths.map_values(|width: usize| width as nat)
}

proof fn lemma_column_count_bound(rows: Seq<Seq<Seq<char>>>, row: int)
    requires
        0 <= row < rows.len(),
    ensures
        rows[row].len() <= column_count(rows),
    decreases rows.len(),
{
    if row < rows.len() - 1 {
        lemma_column_count_bound(rows.drop_last(), row);
    }
}

proof fn lemma_column_width_bound(rows: Seq<Seq<Seq<char>>>, column: int, limit: nat)
    requires
        forall|r: int, c: int| 0 <= r < rows.len() && 0 <= c < rows[r].len() ==> #[trigger] rows[r][c].len() <= limit,
    ensures
        column_width(rows, column) <= limit,
    decreases rows.len(),
{
    if rows.len() > 0 {
        lemma_column_width_bound(rows.drop_last(), column, limit);
    }
}

/// The width of every column of `rows`: its widest cell in characters.
fn column_widths_of(rows: &Vec<Vec<Vec<char>>>) -> (widths: Vec<usize>)
    ensures
        nats(widths@) == column_widths(rows_view(rows@)),
{
    let ghost view = rows_view(rows@);
    let mut count: usize = 0;
    let mut r: usize = 0;
    while r < rows.len()
        invariant
            view == rows_view(rows@),
            r <= rows@.len(),
            count == column_count(view.subrange(0, r as int)),
        decreases rows@.len() - r,
    {
        proof {
            assert(view.subrange(0, r + 1).drop_last() =~= view.subrange(0, r as int));
        }
        if rows[r].len() > count {
            count = rows[r].len();
        }
        r += 1;
    }
    assert(view.subrange(0, r as int) =~= view);
    let mut widths: Vec<usize> = vec![0; count];
    r = 0;
    while r < rows.len()
        invariant
            view == rows_view(rows@),
            r <= rows@.len(),
            count == column_count(view),
            widths@.len() == count,
            forall|c: int| 0 <= c < count ==> #[trigger] widths@[c] == column_width(view.subrange(0, r as int), c),
        decreases rows@.len() - r,
    {
        proof {
            lemma_column_count_bound(view, r as int);
            assert(view.subrange(0, r + 1).drop_last() =~= view.subrange(0, r as int));
        }
        let row = &rows[r];
        let mut index: usize = 0;
        while index < row.len()
            invariant
                view == rows_view(rows@),
                r < rows@.len(),
                row == rows@[r as int],
                index <= row@.len(),
                row@.len() <= count,
                count == column_count(view),
                widths@.len() == count,
                forall|c: int|
                    0 <= c < count ==> #[trigger] widths@[c] == {
                        let before = column_width(view.subrange(0, r as int), c);
                        if c < index && row@[c]@.len() > before {
                            row@[c]@.len()
                        } else {
                            before
                        }
                    },
            decreases row@.len() - index,
        {
            let length = row[index].len();
            if length > widths[index] {
                widths.set(index, length);
            }
            index += 1;
        }
        proof {
            assert forall|c: int| 0 <= c < count implies #[trigger] widths@[c] == column_width(
                view.subrange(0, r + 1),
                c,
            ) by {
                let prefix = view.subrange(0, r + 1);
                assert(prefix.drop_last() =~= view.subrange(0, r as int));
                assert(prefix.last() == view[r as int]);
                if c < row@.len() {
                    assert(view[r as int][c] == row@[c]@);
                }
            }
        }
        r += 1;
    }
    proof {
        assert(view.subrange(0, r as int) =~= view);
        assert(nats(widths@) =~= column_widths(view));
    }
    widths
}

/// Appends `count` spaces.
fn push_spaces(out: &mut Vec<char>, count: usize)
    ensures
        final(out)@ == old(out)@ + spaces(count as nat),
{
    let mut index: usize = 0;
    while index < count
        invariant
            index <= count,
            out@ == old(out)@ + spaces(index as nat),
        decreases count - index,
    {
        out.push(' ');
        index += 1;
        assert(spaces(index as nat) =~= spaces((index - 1) as nat).push(' '));
    }
}

/// Appends the cells of a row, each but the last padded to its column.
fn write_table_row(out: &mut Vec<char>, row: &Vec<Vec<char>>, widths: &Vec<usize>)
    requires
        row@.len() <= widths@.len(),
    ensures
        final(out)@ == old(out)@ + row_text(
            row@.map_values(|cell: Vec<char>| cell@),
            nats(widths@),
            row@.len() as int,
        ),
{
    let ghost cells = row@.map_values(|cell: Vec<char>| cell@);
    let mut index: usize = 0;
    while index < row.len()
        invariant
            row@.len() <= widths@.len(),
            cells == row@.map_values(|cell: Vec<char>| cell@),
            index <= row@.len(),
            out@ == old(out)@ + row_text(cells, nats(widths@), index as int),
        decreases row@.len() - index,
    {
        let ghost before = out@;
        if index > 0 {
            out.push(' ');
            out.push(' ');
        }
        let cell = &row[index];
        push_chars(out, cell.as_slice());
        if index + 1 < row.len() && widths[index] > cell.len() {
            push_spaces(out, widths[index] - cell.len());
        }
        proof {
            let separator = if index > 0 {
                seq![' ', ' ']
            } else {
                Seq::<char>::empty()
            };
            assert(cells[index as int] == cell@);
            assert(out@ =~= before + cell_text(cells, nats(widths@), index as int));
        }
        index += 1;
    }
}

/// Appends the rule under a table's header.
fn push_rule(out: &mut Vec<char>, widths: &Vec<usize>)
    ensures
        final(out)@ == old(out)@ + rule_text(nats(widths@), widths@.len() as int),
{
    let mut index: usize = 0;
    while index < widths.len()
        invariant
            index <= widths@.len(),
            out@ == old(out)@ + rule_text(nats(widths@), index as int),
        decreases widths@.len() - index,
    {
        let ghost before = out@;
        if index > 0 {
            out.push(' ');
            out.push(' ');
        }
        let width = if widths[index] > 0 {
            widths[index]
        } else {
            1
        };
        let ghost middle = out@;
        let mut dash: usize = 0;
        while dash < width
            invariant
                dash <= width,
                out@ == middle + Seq::new(dash as nat, |i: int| '-'),
            decreases width - dash,
        {
            out.push('-');
            dash += 1;
            assert(Seq::new(dash as nat, |i: int| '-') =~= Seq::new((dash - 1) as nat, |i: int| '-').push('-'));
        }
        proof {
            assert(out@ =~= before + (if index > 0 {
                seq![' ', ' ']
            } else {
                Seq::<char>::empty()
            }) + Seq::new(width as nat, |i: int| '-'));
        }
        index += 1;
    }
}

/// Indices as integers.
pub open spec fn ints(indices: Seq<usize>) -> Seq<int> {
    indices.map_values(|index: usize| index as int)
}

proof fn lemma_trim_newlines(text: Seq<char>, end: int)
    requires
        0 <= end <= text.len(),
        forall|i: int| end <= i < text.len() ==> text[i] == '\n',
        end == 0 || text[end - 1] != '\n',
    ensures
        trim_newlines(text) == text.subrange(0, end),
    decreases text.len(),
{
    if text.len() > end {
        lemma_trim_newlines(text.drop_last(), end);
        assert(text.drop_last().subrange(0, end) =~= text.subrange(0, end));
    } else {
        assert(text.subrange(0, end) =~= text);
    }
}

/// Appends a footnote's entry: `[n] ` and its body, later lines indented
/// under the first.
fn push_note(out: &mut Vec<char>, number: usize, body: &Vec<char>)
    ensures
        final(out)@ == old(out)@ + note_lines(trim_newlines(body@), 0, true, note_marker(number as nat)),
{
    let mut end = body.len();
    while end > 0 && body[end - 1] == '\n'
        invariant
            end <= body@.len(),
            forall|i: int| end <= i < body@.len() ==> body@[i] == '\n',
        decreases end,
    {
        end -= 1;
    }
    proof {
        lemma_trim_newlines(body@, end as int);
    }
    let ghost text = body@.subrange(0, end as int);
    let mut marker: Vec<char> = vec!['['];
    let digits = decimal_chars(number as u64);
    push_chars(&mut marker, digits.as_slice());
    marker.push(']');
    marker.push(' ');
    assert(marker@ =~= note_marker(number as nat));
    let ghost target = old(out)@ + note_lines(text, 0, true, marker@);
    assert(text == trim_newlines(body@));
    let mut start: usize = 0;
    let mut first = true;
    loop
        invariant
            end <= body@.len(),
            text == body@.subrange(0, end as int),
            start <= end,
            target == out@ + note_lines(text, start as int, first, marker@),
            target == old(out)@ + note_lines(trim_newlines(body@), 0, true, note_marker(number as nat)),
        decreases end - start,
    {
        let mut stop = start;
        while stop < end && body[stop] != '\n'
            invariant
                end <= body@.len(),
                text == body@.subrange(0, end as int),
                start <= stop <= end,
                line_break(text, start as int) == line_break(text, stop as int),
            decreases end - stop,
        {
            stop += 1;
        }
        proof {
            lemma_line_break(text, start as int);
        }
        let ghost before = out@;
        if first {
            push_chars(out, marker.as_slice());
        } else if stop > start {
            push_spaces(out, marker.len());
        }
        let mut index = start;
        while index < stop
            invariant
                end <= body@.len(),
                text == body@.subrange(0, end as int),
                start <= index <= stop <= end,
                out@ == before + (if first {
                    marker@
                } else if stop > start {
                    spaces(marker@.len())
                } else {
                    Seq::<char>::empty()
                }) + text.subrange(start as int, index as int),
            decreases stop - index,
        {
            out.push(body[index]);
            index += 1;
            proof {
                assert(text.subrange(start as int, index as int) =~= text.subrange(start as int, index - 1).push(
                    text[index - 1],
                ));
            }
        }
        out.push('\n');
        proof {
            assert(line_break(text, start as int) == stop);
            let lead = if first {
                marker@
            } else if stop > start {
                spaces(marker@.len())
            } else {
                Seq::<char>::empty()
            };
            assert(out@ =~= before + lead + text.subrange(start as int, stop as int) + seq!['\n']);
            if stop < end {
                assert(note_lines(text, start as int, first, marker@) =~= lead + text.subrange(start as int, stop as int)
                    + seq!['\n'] + note_lines(text, stop + 1, false, marker@));
            } else {
                assert(note_lines(text, start as int, first, marker@) =~= lead + text.subrange(start as int, stop as int)
                    + seq!['\n']);
            }
        }
        if stop >= end {
            assert(out@ == target);
            return;
        }
        start = stop + 1;
        first = false;
    }
}

/// Places `index` into `sorted` after every footnote numbered no higher.
fn insert_by_number_into(notes: &Vec<Footnote>, sorted: &mut Vec<usize>, index: usize)
    requires
        index < notes@.len(),
        forall|k: int| 0 <= k < old(sorted)@.len() ==> #[trigger] old(sorted)@[k] < notes@.len(),
    ensures
        ints(final(sorted)@) == insert_by_number(
            notes@.map_values(|note: Footnote| note@),
            ints(old(sorted)@),
            index as int,
        ),
        forall|k: int| 0 <= k < final(sorted)@.len() ==> #[trigger] final(sorted)@[k] < notes@.len(),
    decreases old(sorted)@.len(),
{
    let ghost view = notes@.map_values(|note: Footnote| note@);
    let count = sorted.len();
    if count == 0 {
        sorted.push(index);
        assert(ints(sorted@) =~= seq![index as int]);
        return;
    }
    let last = sorted[count - 1];
    if notes[last].number <= notes[index].number {
        sorted.push(index);
        assert(ints(sorted@) =~= ints(old(sorted)@).push(index as int));
    } else {
        let last = sorted.pop().unwrap();
        assert(ints(sorted@) =~= ints(old(sorted)@).drop_last());
        insert_by_number_into(notes, sorted, index);
        let ghost inserted = sorted@;
        sorted.push(last);
        assert(ints(sorted@) =~= ints(inserted).push(last as int));
    }
}

impl TextWriter {
    fn begin_content(&mut self)
        ensures
            final(self).history == old(self).history,
            final(self)@ == old(self)@.begin_content(),
    {
        if !self.at_line_start {
            return;
        }
        self.at_line_start = false;
        let ghost start = self.out@;
        let mut index: usize = 0;
        while index < self.containers.len()
            invariant
                index <= self.containers@.len(),
                self.containers@.len() == old(self).containers@.len(),
                !self.at_line_start,
                self.history == old(self).history,
                self.links == old(self).links,
                self.image_depth == old(self).image_depth,
                self.table == old(self).table,
                self.in_html_block == old(self).in_html_block,
                self.footnotes == old(self).footnotes,
                self.capture == old(self).capture,
                self.out@ == start + prefixes(old(self)@.containers.subrange(0, index as int)),
                forall|i: int|
                    0 <= i < self.containers@.len() ==> #[trigger] self.containers@[i]@ == if i < index {
                        spent(old(self).containers@[i]@)
                    } else {
                        old(self).containers@[i]@
                    },
            decreases self.containers@.len() - index,
        {
            let ghost current = self.containers@[index as int]@;
            let ghost containers_before = self.containers@;
            let mut container = self.containers.remove(index);
            assert(container@ == current);
            match container.marker.take() {
                Some(marker) => push_chars(&mut self.out, marker.as_slice()),
                None => push_chars(&mut self.out, container.indent.as_slice()),
            }
            assert(container@ == spent(current));
            self.containers.insert(index, container);
            proof {
                let before = old(self)@.containers;
                assert(before.subrange(0, index + 1).drop_last() =~= before.subrange(0, index as int));
                assert(before.subrange(0, index + 1).last() == current);
                assert(self.containers@ =~= containers_before.update(index as int, container));
                assert forall|i: int| 0 <= i < self.containers@.len() implies #[trigger] self.containers@[i]@
                    == if i < index + 1 {
                    spent(old(self).containers@[i]@)
                } else {
                    old(self).containers@[i]@
                } by {
                    if i != index {
                        assert(self.containers@[i] == containers_before[i]);
                    }
                }
            }
            index += 1;
        }
        proof {
            assert(old(self)@.containers.subrange(0, index as int) =~= old(self)@.containers);
            assert(self@.containers =~= old(self)@.containers.map_values(
                |container: ContainerView| spent(container),
            ));
        }
    }

    fn end_line(&mut self)
        ensures
            final(self).history == old(self).history,
            final(self)@ == old(self)@.end_line(),
    {
        self.out.push('\n');
        self.at_line_start = true;
    }

    fn close_open_line(&mut self)
        ensures
            final(self).history == old(self).history,
            final(self)@ == old(self)@.close_open_line(),
    {
        if !self.at_line_start {
            self.end_line();
        }
    }

    fn begin_block(&mut self)
        ensures
            final(self).history == old(self).history,
            final(self)@ == old(self)@.begin_block(),
    {
        if self.containers.len() == 0 {
            return;
        }
        let ghost before = self.containers@;
        let mut parent = self.containers.pop().unwrap();
        let needs_separator = parent.has_block;
        let loose = parent.loose;
        parent.has_block = true;
        self.containers.push(parent);
        proof {
            assert(self@.containers =~= old(self)@.containers.update(
                old(self)@.containers.len() - 1,
                ContainerView { has_block: true, ..old(self)@.containers.last() },
            ));
        }
        if needs_separator {
            self.close_open_line();
            if loose {
                self.end_line();
            }
        }
    }

    fn push_container(
        &mut self,
        indent: Vec<char>,
        marker: Option<Vec<char>>,
        loose: bool,
        is_list: bool,
        next_number: Option<u64>,
    )
        ensures
            final(self)@ == old(self)@.push_container(
                ContainerView {
                    indent: indent@,
                    marker: chars_view(marker),
                    has_block: false,
                    loose,
                    next_number,
                    is_list,
                },
            ),
            final(self).history == old(self).history,
    {
        self.containers.push(Container { indent, marker, has_block: false, loose, next_number, is_list });
        proof {
            assert(self@.containers =~= old(self)@.containers.push(
                ContainerView {
                    indent: indent@,
                    marker: chars_view(marker),
                    has_block: false,
                    loose,
                    next_number,
                    is_list,
                },
            ));
        }
    }

    /// Drops the spaces at the end of the output.
    fn trim_trailing_spaces(&mut self)
        ensures
            final(self).history == old(self).history,
            final(self)@ == (TextState { out: trim_spaces(old(self)@.out), ..old(self)@ }),
    {
        while self.out.len() > 0 && self.out[self.out.len() - 1] == ' '
            invariant
                trim_spaces(self.out@) == trim_spaces(old(self).out@),
                self.history == old(self).history,
                self.containers == old(self).containers,
                self.at_line_start == old(self).at_line_start,
                self.links == old(self).links,
                self.image_depth == old(self).image_depth,
                self.table == old(self).table,
                self.in_html_block == old(self).in_html_block,
                self.footnotes == old(self).footnotes,
                self.capture == old(self).capture,
            decreases self.out@.len(),
        {
            self.out.pop();
        }
    }

    fn pop_container(&mut self)
        ensures
            final(self).history == old(self).history,
            final(self)@ == old(self)@.pop_container(),
    {
        let count = self.containers.len();
        let is_empty = count > 0 && !self.containers[count - 1].has_block && self.containers[count
            - 1].marker.is_some();
        if is_empty {
            self.begin_content();
            self.trim_trailing_spaces();
        }
        self.close_open_line();
        let ghost before = self@;
        self.containers.pop();
        proof {
            if before.containers.len() > 0 {
                assert(self@.containers =~= before.containers.drop_last());
            }
        }
    }

    /// The first footnote labelled `label`, or the count of notes.
    fn find_label(&self, label: &[char]) -> (index: usize)
        ensures
            index == find_label(self@.footnotes, label@, 0),
    {
        let mut index: usize = 0;
        while index < self.footnotes.len()
            invariant
                index <= self.footnotes@.len(),
                find_label(self@.footnotes, label@, 0) == find_label(self@.footnotes, label@, index as int),
            decreases self.footnotes@.len() - index,
        {
            if tail_equals(self.footnotes[index].label.as_slice(), 0, label) {
                proof {
                    assert(self.footnotes@[index as int].label@.subrange(0, self.footnotes@[index as int].label@.len() as int)
                        =~= self.footnotes@[index as int].label@);
                    assert(self@.footnotes[index as int].label == label@);
                }
                return index;
            }
            proof {
                assert(self.footnotes@[index as int].label@.subrange(0, self.footnotes@[index as int].label@.len() as int)
                    =~= self.footnotes@[index as int].label@);
                lemma_find_label_step(self@.footnotes, label@, index as int);
            }
            index += 1;
        }
        index
    }

    /// How many footnotes have a number.
    fn count_numbered(&self) -> (count: usize)
        ensures
            count == numbered(self@.footnotes),
    {
        let mut count: usize = 0;
        let mut index: usize = 0;
        while index < self.footnotes.len()
            invariant
                index <= self.footnotes@.len(),
                count <= index,
                count == numbered(self@.footnotes.subrange(0, index as int)),
            decreases self.footnotes@.len() - index,
        {
            proof {
                assert(self@.footnotes.subrange(0, index + 1).drop_last() =~= self@.footnotes.subrange(0, index as int));
            }
            if self.footnotes[index].number > 0 {
                count += 1;
            }
            index += 1;
        }
        assert(self@.footnotes.subrange(0, index as int) =~= self@.footnotes);
        count
    }

    fn footnote_number(&mut self, label: Vec<char>) -> (number: usize)
        ensures
            final(self).history == old(self).history,
            (final(self)@, number as nat) == old(self)@.footnote_number(label@),
    {
        let index = self.find_label(label.as_slice());
        let count = self.count_numbered();
        proof {
            lemma_find_label_range(self@.footnotes, label@, 0);
            lemma_numbered_at_most(self@.footnotes);
        }
        if index >= self.footnotes.len() {
            self.footnotes.push(Footnote { label, number: 0, body: None });
            let length = self.footnotes.len();
            let mut note = self.footnotes.pop().unwrap();
            note.number = count + 1;
            self.footnotes.push(note);
            proof {
                assert(self@.footnotes =~= old(self)@.footnotes.push(
                    FootnoteView { label: label@, number: numbered(old(self)@.footnotes) + 1, body: None },
                ));
            }
            count + 1
        } else if self.footnotes[index].number == 0 {
            proof {
                lemma_numbered_bound(self@.footnotes, index as int);
            }
            let mut note = self.footnotes.remove(index);
            note.number = count + 1;
            self.footnotes.insert(index, note);
            proof {
                assert(self@.footnotes =~= old(self)@.footnotes.update(
                    index as int,
                    FootnoteView { number: numbered(old(self)@.footnotes) + 1, ..old(self)@.footnotes[index as int] },
                ));
            }
            count + 1
        } else {
            self.footnotes[index].number
        }
    }

    fn end_footnote_definition(&mut self)
        ensures
            final(self).history == old(self).history,
            final(self)@ == old(self)@.end_footnote_definition(),
    {
        let (label, main) = match self.capture.take() {
            Some(capture) => capture,
            None => return,
        };
        let mut body = main;
        std::mem::swap(&mut body, &mut self.out);
        let length = self.out.len();
        self.at_line_start = length == 0 || self.out[length - 1] == '\n';
        let index = self.find_label(label.as_slice());
        proof {
            lemma_find_label_range(self@.footnotes, label@, 0);
        }
        if index < self.footnotes.len() {
            let mut note = self.footnotes.remove(index);
            note.body = Some(body);
            self.footnotes.insert(index, note);
            proof {
                assert(self@.footnotes =~= old(self)@.footnotes.update(
                    index as int,
                    FootnoteView { body: Some(old(self)@.out), ..old(self)@.footnotes[index as int] },
                ));
            }
        } else {
            self.footnotes.push(Footnote { label, number: 0, body: Some(body) });
            proof {
                assert(self@.footnotes =~= old(self)@.footnotes.push(
                    FootnoteView { label: label@, number: 0, body: Some(old(self)@.out) },
                ));
            }
        }
    }

    fn next_item_marker(&mut self) -> (marker: Vec<char>)
        ensures
            final(self).history == old(self).history,
            (final(self)@, marker@) == old(self)@.next_item_marker(),
    {
        let count = self.containers.len();
        if count > 0 && self.containers[count - 1].is_list {
            if let Some(number) = self.containers[count - 1].next_number {
                let mut list = self.containers.pop().unwrap();
                list.next_number = Some(number.wrapping_add(1));
                self.containers.push(list);
                proof {
                    assert(self@.containers =~= old(self)@.containers.update(
                        count - 1,
                        ContainerView { next_number: Some(number.wrapping_add(1)), ..old(self)@.containers.last() },
                    ));
                }
                let mut marker = decimal_chars(number);
                marker.push('.');
                marker.push(' ');
                return marker;
            }
        }
        let marker = vec!['-', ' '];
        assert(marker@ =~= seq!['-', ' ']);
        marker
    }

    fn render_table(&mut self)
        ensures
            final(self).history == old(self).history,
            final(self)@ == old(self)@.render_table(),
    {
        let ghost target = old(self)@.render_table();
        let table = match self.table.take() {
            Some(table) => table,
            None => return,
        };
        let Table { rows, outer } = table;
        self.out = outer;
        self.at_line_start = true;
        let widths = column_widths_of(&rows);
        let ghost view = rows_view(rows@);
        let mut r: usize = 0;
        while r < rows.len()
            invariant
                view == rows_view(rows@),
                nats(widths@) == column_widths(view),
                r <= rows@.len(),
                target == self@.write_rows(view, nats(widths@), r as int),
                self.history == old(self).history,
            decreases rows@.len() - r,
        {
            proof {
                lemma_column_count_bound(view, r as int);
                assert(view[r as int] == rows@[r as int]@.map_values(|cell: Vec<char>| cell@));
            }
            self.begin_content();
            write_table_row(&mut self.out, &rows[r], &widths);
            self.end_line();
            if r == 0 {
                self.begin_content();
                push_rule(&mut self.out, &widths);
                self.end_line();
            }
            r += 1;
        }
    }

    /// Appends characters after the line's prefixes.
    fn write(&mut self, text: &[char])
        ensures
            final(self).history == old(self).history,
            final(self)@ == old(self)@.write(text@),
    {
        self.begin_content();
        push_chars(&mut self.out, text);
    }

    fn start(&mut self, tag: Tag)
        ensures
            final(self).history == old(self).history,
            final(self)@ == old(self)@.start(tag@),
    {
        match tag {
            Tag::Paragraph | Tag::Heading(_) | Tag::CodeBlock(_) => self.begin_block(),
            Tag::HtmlBlock => self.in_html_block = true,
            Tag::BlockQuote => {
                self.begin_block();
                let indent = vec![' ', ' '];
                assert(indent@ =~= seq![' ', ' ']);
                self.push_container(indent, None, true, false, None);
            },
            Tag::List { start, tight } => {
                self.begin_block();
                let indent: Vec<char> = Vec::new();
                assert(indent@ =~= Seq::<char>::empty());
                self.push_container(indent, None, !tight, true, start);
            },
            Tag::Item => {
                self.begin_block();
                let marker = self.next_item_marker();
                let mut indent: Vec<char> = Vec::new();
                push_spaces(&mut indent, marker.len());
                assert(indent@ =~= spaces(marker@.len()));
                let count = self.containers.len();
                let loose = count > 0 && self.containers[count - 1].loose;
                self.push_container(indent, Some(marker), loose, false, None);
            },
            Tag::FootnoteDefinition(label) => {
                let mut body: Vec<char> = Vec::new();
                std::mem::swap(&mut body, &mut self.out);
                self.capture = Some((chars_of(&label), body));
                self.at_line_start = true;
                let indent: Vec<char> = Vec::new();
                assert(indent@ =~= Seq::<char>::empty());
                self.push_container(indent, None, true, false, None);
            },
            Tag::Table(_) => {
                self.begin_block();
                let mut outer: Vec<char> = Vec::new();
                std::mem::swap(&mut outer, &mut self.out);
                self.table = Some(Table { rows: Vec::new(), outer });
                self.at_line_start = false;
                proof {
                    assert(rows_view(Seq::<Vec<Vec<char>>>::empty()) =~= Seq::<Seq<Seq<char>>>::empty());
                }
            },
            Tag::TableHead | Tag::TableRow => {
                if let Some(mut table) = self.table.take() {
                    let ghost rows_before = table.rows@;
                    let empty_row: Vec<Vec<char>> = Vec::new();
                    assert(empty_row@.map_values(|cell: Vec<char>| cell@) =~= Seq::<Seq<char>>::empty());
                    table.rows.push(empty_row);
                    proof {
                        assert(rows_view(table.rows@) =~= rows_view(rows_before).push(Seq::empty()));
                    }
                    self.table = Some(table);
                }
            },
            Tag::TableCell => self.out.clear(),
            Tag::Emphasis | Tag::Strong | Tag::Strikethrough => self.begin_content(),
            Tag::Link { destination, .. } => {
                self.begin_content();
                let at = self.out.len();
                let ghost before = self@.links;
                self.links.push((at, chars_of(&destination)));
                proof {
                    assert(self@.links =~= before.push((at as nat, destination@)));
                }
            },
            Tag::Image { .. } => {
                self.begin_content();
                if self.image_depth < usize::MAX {
                    self.image_depth += 1;
                }
            },
        }
    }

    fn end(&mut self, tag: TagEnd)
        ensures
            final(self).history == old(self).history,
            final(self)@ == old(self)@.end(tag),
    {
        match tag {
            TagEnd::Paragraph | TagEnd::Heading(_) | TagEnd::CodeBlock => self.close_open_line(),
            TagEnd::HtmlBlock => {},
            TagEnd::BlockQuote | TagEnd::Item | TagEnd::List(_) => self.pop_container(),
            TagEnd::FootnoteDefinition => {
                self.close_open_line();
                let ghost closed = self@;
                self.containers.pop();
                proof {
                    if closed.containers.len() > 0 {
                        assert(self@.containers =~= closed.containers.drop_last());
                    }
                }
                self.end_footnote_definition();
            },
            TagEnd::Table => self.render_table(),
            TagEnd::TableHead | TagEnd::TableRow => {},
            TagEnd::TableCell => {
                let mut cell: Vec<char> = Vec::new();
                std::mem::swap(&mut cell, &mut self.out);
                if let Some(mut table) = self.table.take() {
                    let ghost rows_before = table.rows@;
                    if table.rows.len() > 0 {
                        let mut row = table.rows.pop().unwrap();
                        let ghost row_before = row@;
                        row.push(cell);
                        table.rows.push(row);
                        proof {
                            let cells_before = row_before.map_values(|cell: Vec<char>| cell@);
                            assert(row@.map_values(|cell: Vec<char>| cell@) =~= cells_before.push(old(self).out@));
                            assert(rows_view(table.rows@) =~= rows_view(rows_before).update(
                                rows_before.len() - 1,
                                rows_view(rows_before).last().push(old(self).out@),
                            ));
                        }
                    }
                    self.table = Some(table);
                }
            },
            TagEnd::Emphasis | TagEnd::Strong | TagEnd::Strikethrough => {},
            TagEnd::Link => self.end_link(),
            TagEnd::Image => {
                if self.image_depth > 0 {
                    self.image_depth -= 1;
                }
            },
        }
    }

    /// Takes one event.
    fn render_event(&mut self, event: Event)
        ensures
            final(self).history == old(self).history,
            final(self)@ == old(self)@.step(event@),
            final(self).history == old(self).history,
    {
        if self.in_html_block {
            if let Event::End(TagEnd::HtmlBlock) = event {
                self.in_html_block = false;
            }
            return;
        }
        match event {
            Event::Start(tag) => self.start(tag),
            Event::End(tag) => self.end(tag),
            Event::Text(text) | Event::Code(text) => {
                let chars = chars_of(&text);
                self.write(chars.as_slice());
            },
            Event::Html(_) | Event::InlineHtml(_) => {},
            Event::SoftBreak | Event::HardBreak => {
                if self.table.is_some() || self.image_depth > 0 {
                    self.out.push(' ');
                } else {
                    self.end_line();
                }
            },
            Event::Rule => {
                self.begin_block();
                let rule = ['*', ' ', '*', ' ', '*'];
                assert(rule@ =~= seq!['*', ' ', '*', ' ', '*']);
                self.write(&rule);
                self.end_line();
            },
            Event::FootnoteReference(label) => {
                self.begin_content();
                let number = self.footnote_number(chars_of(&label));
                let ghost numbered_out = self@.out;
                self.out.push('[');
                let digits = decimal_chars(number as u64);
                push_chars(&mut self.out, digits.as_slice());
                self.out.push(']');
                proof {
                    assert(self@.out =~= numbered_out + seq!['['] + decimal(number as nat) + seq![']']);
                }
            },
            Event::TaskListMarker(checked) => {
                let marker = if checked {
                    ['[', 'x', ']', ' ']
                } else {
                    ['[', ' ', ']', ' ']
                };
                assert(marker@ =~= if checked {
                    seq!['[', 'x', ']', ' ']
                } else {
                    seq!['[', ' ', ']', ' ']
                });
                self.write(&marker);
            },
        }
    }

    /// Lists the footnotes that were referenced and defined, in number
    /// order.
    fn render_footnotes(&mut self)
        ensures
            final(self).history == old(self).history,
            final(self)@ == old(self)@.render_footnotes(),
    {
        let ghost notes = self@.footnotes;
        let mut indices: Vec<usize> = Vec::new();
        let mut index: usize = 0;
        while index < self.footnotes.len()
            invariant
                notes == self@.footnotes,
                self.history == old(self).history,
                index <= notes.len(),
                ints(indices@) == referenced(notes, index as int),
                forall|k: int| 0 <= k < indices@.len() ==> #[trigger] indices@[k] < notes.len(),
            decreases notes.len() - index,
        {
            if self.footnotes[index].number > 0 && self.footnotes[index].body.is_some() {
                indices.push(index);
                assert(ints(indices@) =~= referenced(notes, index as int).push(index as int));
            }
            index += 1;
        }
        let mut order: Vec<usize> = Vec::new();
        let mut k: usize = 0;
        while k < indices.len()
            invariant
                notes == self@.footnotes,
                self.history == old(self).history,
                notes == self.footnotes@.map_values(|note: Footnote| note@),
                k <= indices@.len(),
                forall|j: int| 0 <= j < indices@.len() ==> #[trigger] indices@[j] < notes.len(),
                ints(order@) == by_number(notes, ints(indices@).subrange(0, k as int)),
                forall|j: int| 0 <= j < order@.len() ==> #[trigger] order@[j] < notes.len(),
            decreases indices@.len() - k,
        {
            proof {
                assert(ints(indices@).subrange(0, k + 1).drop_last() =~= ints(indices@).subrange(0, k as int));
            }
            insert_by_number_into(&self.footnotes, &mut order, indices[k]);
            k += 1;
        }
        assert(ints(indices@).subrange(0, k as int) =~= ints(indices@));
        if order.len() == 0 {
            return;
        }
        self.close_open_line();
        self.end_line();
        let ghost opened = self@.out;
        let mut k: usize = 0;
        while k < order.len()
            invariant
                notes == self@.footnotes,
                self.history == old(self).history,
                notes == self.footnotes@.map_values(|note: Footnote| note@),
                k <= order@.len(),
                forall|j: int| 0 <= j < order@.len() ==> #[trigger] order@[j] < notes.len(),
                self@.out == opened + notes_text(notes, ints(order@), k as int),
                self@.at_line_start,
                self@ == (TextState { out: self@.out, ..old(self)@.close_open_line().end_line() }),
            decreases order@.len() - k,
        {
            let note = &self.footnotes[order[k]];
            if let Some(body) = &note.body {
                push_note(&mut self.out, note.number, body);
            }
            k += 1;
        }
        self.at_line_start = true;
    }

    fn end_link(&mut self)
        ensures
            final(self).history == old(self).history,
            final(self)@ == old(self)@.end_link(),
    {
        let ghost before = self@;
        let (start, destination) = match self.links.pop() {
            Some(link) => link,
            None => return,
        };
        proof {
            assert(self@.links =~= before.links.drop_last());
        }
        let length = self.out.len();
        let from = if start <= length {
            start
        } else {
            length
        };
        let same = tail_equals(self.out.as_slice(), from, destination.as_slice());
        if destination.len() > 0 && !same {
            self.out.push(' ');
            self.out.push('(');
            push_chars(&mut self.out, destination.as_slice());
            self.out.push(')');
            proof {
                assert(self@.out =~= before.out + seq![' ', '('] + destination@ + seq![')']);
            }
        }
    }
}


impl TextWriter {
    fn starting_with(out: Vec<char>) -> (writer: TextWriter)
        ensures
            writer@ == TextState::initial(out@),
            writer.received() == Seq::<Event>::empty(),
    {
        let root = Container {
            indent: Vec::new(),
            marker: None,
            has_block: false,
            loose: true,
            next_number: None,
            is_list: false,
        };
        let writer = TextWriter {
            out,
            containers: vec![root],
            at_line_start: true,
            links: Vec::new(),
            image_depth: 0,
            table: None,
            in_html_block: false,
            footnotes: Vec::new(),
            capture: None,
            history: Ghost(Seq::empty()),
        };
        proof {
            assert(writer@.containers =~= seq![root_container()]);
            assert(writer@.links =~= Seq::<(nat, Seq<char>)>::empty());
            assert(writer@.footnotes =~= Seq::<FootnoteView>::empty());
        }
        writer
    }

    /// A writer with nothing written yet.
    pub fn new() -> (writer: TextWriter)
        ensures
            writer@ == TextState::initial(Seq::empty()),
            writer.received() == Seq::<Event>::empty(),
    {
        TextWriter::starting_with(Vec::new())
    }

    /// The length of the output not handed out yet.
    pub fn pending_len(&self) -> (length: usize)
        ensures
            length == self@.out.len(),
    {
        self.out.len()
    }

    /// Hands out the output so far when nothing still refers to it: at
    /// the start of a line, outside links, tables and footnote
    /// definitions. Otherwise hands out nothing.
    pub fn take_output(&mut self) -> (chunk: String)
        ensures
            final(self).received() == old(self).received(),
            if old(self)@.at_line_start && old(self)@.links.len() == 0 && old(self)@.table is None
                && old(self)@.capture is None {
                &&& chunk@ == old(self)@.out
                &&& final(self)@ == (TextState { out: Seq::empty(), ..old(self)@ })
            } else {
                &&& chunk@ == Seq::<char>::empty()
                &&& final(self)@ == old(self)@
            },
    {
        if self.at_line_start && self.links.len() == 0 && self.table.is_none() && self.capture.is_none() {
            let chunk = string_of(self.out.as_slice());
            self.out = Vec::new();
            chunk
        } else {
            String::new()
        }
    }

    /// Lists the footnotes and hands back what is left of the output.
    pub fn finish_text(self) -> (text: String)
        ensures
            text@ == self@.render_footnotes().out,
    {
        let mut writer = self;
        writer.render_footnotes();
        string_of(writer.out.as_slice())
    }
}

impl EventSink for TextWriter {
    closed spec fn received(&self) -> Seq<Event> {
        self.history@
    }

    fn event(&mut self, event: Event)
        ensures
            final(self)@ == old(self)@.step(event@),
    {
        let ghost taken = event;
        self.render_event(event);
        proof {
            self.history = Ghost(self.history@.push(taken));
        }
    }
}

/// Renders `events` after the text in `out`, footnotes listed at the end.
pub fn push_text(out: &mut String, events: Vec<Event>)
    ensures
        final(out)@ == rendered_text(old(out)@, event_views(events@)),
{
    let mut writer = TextWriter::starting_with(chars_of(out.as_str()));
    let ghost all = events@;
    let ghost views = event_views(all);
    for event in iter: events
        invariant
            views == event_views(all),
            iter.seq() == all,
            writer@ == TextState::initial(old(out)@).steps(views.take(iter.index() as int)),
    {
        proof {
            assert(views.take(iter.index() + 1).drop_last() =~= views.take(iter.index() as int));
            assert(event@ == views[iter.index() as int]);
        }
        writer.render_event(event);
    }
    assert(views.take(views.len() as int) =~= views);
    *out = writer.finish_text();
}

} // verus!
