//! Markdown: CommonMark with the GitHub Flavored Markdown extensions.
//! Documents are read as a stream of [`Event`]s that renderers consume;
//! this module holds the events, the sink that receives them, and the
//! scanners of the block and inline syntax.

pub mod block;
pub mod delimiters;
pub mod inline;
pub mod scan;
pub mod writer;

use vstd::prelude::*;

verus! {

/// Text alignment of a table column, from the delimiter row.
#[derive(Debug, Clone, Copy, PartialEq, Eq, Structural)]
pub enum Alignment {
    /// No colon in the delimiter cell.
    Unaligned,
    Left,
    Center,
    Right,
}

#[derive(Debug, Clone, PartialEq, Eq)]
pub enum CodeBlockKind {
    Indented,
    /// The info string after the opening fence, entity- and escape-decoded.
    Fenced(String),
}

/// Start of a container. Every `Start(tag)` is followed, after its content,
/// by the matching `End(tag_end)`.
#[derive(Debug, Clone, PartialEq, Eq)]
pub enum Tag {
    Paragraph,
    Heading(u8),
    BlockQuote,
    CodeBlock(CodeBlockKind),
    HtmlBlock,
    /// `start` is `Some` for an ordered list. A tight list renders its
    /// items' paragraphs without `<p>` tags.
    List { start: Option<u64>, tight: bool },
    Item,
    FootnoteDefinition(String),
    Table(Vec<Alignment>),
    TableHead,
    TableRow,
    TableCell,
    Emphasis,
    Strong,
    Strikethrough,
    Link { destination: String, title: String },
    Image { destination: String, title: String },
}

#[derive(Debug, Clone, Copy, PartialEq, Eq, Structural)]
pub enum TagEnd {
    Paragraph,
    Heading(u8),
    BlockQuote,
    CodeBlock,
    HtmlBlock,
    List(bool),
    Item,
    FootnoteDefinition,
    Table,
    TableHead,
    TableRow,
    TableCell,
    Emphasis,
    Strong,
    Strikethrough,
    Link,
    Image,
}

/// The end that closes a container opened by `tag`: the same kind, with a
/// heading's level and whether a list is ordered.
pub open spec fn spec_tag_end(tag: Tag) -> TagEnd {
    match tag {
        Tag::Paragraph => TagEnd::Paragraph,
        Tag::Heading(level) => TagEnd::Heading(level),
        Tag::BlockQuote => TagEnd::BlockQuote,
        Tag::CodeBlock(_) => TagEnd::CodeBlock,
        Tag::HtmlBlock => TagEnd::HtmlBlock,
        Tag::List { start, .. } => TagEnd::List(start is Some),
        Tag::Item => TagEnd::Item,
        Tag::FootnoteDefinition(_) => TagEnd::FootnoteDefinition,
        Tag::Table(_) => TagEnd::Table,
        Tag::TableHead => TagEnd::TableHead,
        Tag::TableRow => TagEnd::TableRow,
        Tag::TableCell => TagEnd::TableCell,
        Tag::Emphasis => TagEnd::Emphasis,
        Tag::Strong => TagEnd::Strong,
        Tag::Strikethrough => TagEnd::Strikethrough,
        Tag::Link { .. } => TagEnd::Link,
        Tag::Image { .. } => TagEnd::Image,
    }
}

impl Tag {
    pub fn end(&self) -> (end: TagEnd)
        ensures
            end == spec_tag_end(*self),
    {
        match self {
            Tag::Paragraph => TagEnd::Paragraph,
            Tag::Heading(level) => TagEnd::Heading(*level),
            Tag::BlockQuote => TagEnd::BlockQuote,
            Tag::CodeBlock(_) => TagEnd::CodeBlock,
            Tag::HtmlBlock => TagEnd::HtmlBlock,
            Tag::List { start, .. } => TagEnd::List(start.is_some()),
            Tag::Item => TagEnd::Item,
            Tag::FootnoteDefinition(_) => TagEnd::FootnoteDefinition,
            Tag::Table(_) => TagEnd::Table,
            Tag::TableHead => TagEnd::TableHead,
            Tag::TableRow => TagEnd::TableRow,
            Tag::TableCell => TagEnd::TableCell,
            Tag::Emphasis => TagEnd::Emphasis,
            Tag::Strong => TagEnd::Strong,
            Tag::Strikethrough => TagEnd::Strikethrough,
            Tag::Link { .. } => TagEnd::Link,
            Tag::Image { .. } => TagEnd::Image,
        }
    }
}

#[derive(Debug, Clone, PartialEq, Eq)]
pub enum Event {
    Start(Tag),
    End(TagEnd),
    /// Text with escapes and entities already resolved.
    Text(String),
    /// Contents of a code span, normalized per the spec.
    Code(String),
    /// Raw HTML from an HTML block (one line, including its newline).
    Html(String),
    /// Raw inline HTML.
    InlineHtml(String),
    SoftBreak,
    HardBreak,
    Rule,
    FootnoteReference(String),
    /// `[ ]` or `[x]` at the start of a list item.
    TaskListMarker(bool),
}

/// A code block's kind with its info string as characters.
pub enum CodeBlockKindView {
    Indented,
    Fenced(Seq<char>),
}

/// A tag with its strings as characters.
pub enum TagView {
    Paragraph,
    Heading(u8),
    BlockQuote,
    CodeBlock(CodeBlockKindView),
    HtmlBlock,
    List { start: Option<u64>, tight: bool },
    Item,
    FootnoteDefinition(Seq<char>),
    Table(Seq<Alignment>),
    TableHead,
    TableRow,
    TableCell,
    Emphasis,
    Strong,
    Strikethrough,
    Link { destination: Seq<char>, title: Seq<char> },
    Image { destination: Seq<char>, title: Seq<char> },
}

/// An event with its strings as characters.
pub enum EventView {
    Start(TagView),
    End(TagEnd),
    Text(Seq<char>),
    Code(Seq<char>),
    Html(Seq<char>),
    InlineHtml(Seq<char>),
    SoftBreak,
    HardBreak,
    Rule,
    FootnoteReference(Seq<char>),
    TaskListMarker(bool),
}

impl View for CodeBlockKind {
    type V = CodeBlockKindView;

    open spec fn view(&self) -> CodeBlockKindView {
        match self {
            CodeBlockKind::Indented => CodeBlockKindView::Indented,
            CodeBlockKind::Fenced(info) => CodeBlockKindView::Fenced(info@),
        }
    }
}

impl View for Tag {
    type V = TagView;

    open spec fn view(&self) -> TagView {
        match self {
            Tag::Paragraph => TagView::Paragraph,
            Tag::Heading(level) => TagView::Heading(*level),
            Tag::BlockQuote => TagView::BlockQuote,
            Tag::CodeBlock(kind) => TagView::CodeBlock(kind@),
            Tag::HtmlBlock => TagView::HtmlBlock,
            Tag::List { start, tight } => TagView::List { start: *start, tight: *tight },
            Tag::Item => TagView::Item,
            Tag::FootnoteDefinition(label) => TagView::FootnoteDefinition(label@),
            Tag::Table(alignments) => TagView::Table(alignments@),
            Tag::TableHead => TagView::TableHead,
            Tag::TableRow => TagView::TableRow,
            Tag::TableCell => TagView::TableCell,
            Tag::Emphasis => TagView::Emphasis,
            Tag::Strong => TagView::Strong,
            Tag::Strikethrough => TagView::Strikethrough,
            Tag::Link { destination, title } => TagView::Link { destination: destination@, title: title@ },
            Tag::Image { destination, title } => TagView::Image { destination: destination@, title: title@ },
        }
    }
}

impl View for Event {
    type V = EventView;

    open spec fn view(&self) -> EventView {
        match self {
            Event::Start(tag) => EventView::Start(tag@),
            Event::End(end) => EventView::End(*end),
            Event::Text(text) => EventView::Text(text@),
            Event::Code(text) => EventView::Code(text@),
            Event::Html(text) => EventView::Html(text@),
            Event::InlineHtml(text) => EventView::InlineHtml(text@),
            Event::SoftBreak => EventView::SoftBreak,
            Event::HardBreak => EventView::HardBreak,
            Event::Rule => EventView::Rule,
            Event::FootnoteReference(label) => EventView::FootnoteReference(label@),
            Event::TaskListMarker(checked) => EventView::TaskListMarker(*checked),
        }
    }
}

/// The views of a run of events.
pub open spec fn event_views(events: Seq<Event>) -> Seq<EventView> {
    events.map_values(|event: Event| event@)
}

/// Receives events as a reader produces them: nothing is buffered between
/// the reader and the sink, so a renderer can consume each event as it
/// comes.
pub trait EventSink {
    /// The events received so far.
    spec fn received(&self) -> Seq<Event>;

    fn event(&mut self, event: Event)
        ensures
            final(self).received() == old(self).received().push(event),
    ;
}

impl EventSink for Vec<Event> {
    open spec fn received(&self) -> Seq<Event> {
        self@
    }

    fn event(&mut self, event: Event) {
        self.push(event);
    }
}

} // verus!
