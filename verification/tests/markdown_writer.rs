use sublime::markdown::writer::{push_markdown, MarkdownWriter};
use sublime::markdown::{Alignment, CodeBlockKind, Event, EventSink, Tag, TagEnd};

fn text(value: &str) -> Event {
    Event::Text(String::from(value))
}

fn render(events: Vec<Event>) -> String {
    let mut out = String::new();
    push_markdown(&mut out, events);
    out
}

fn paragraph(values: &[&str]) -> Vec<Event> {
    let mut events = vec![Event::Start(Tag::Paragraph)];
    for value in values {
        events.push(text(value));
    }
    events.push(Event::End(TagEnd::Paragraph));
    events
}

fn item(value: &str) -> Vec<Event> {
    let mut events = vec![Event::Start(Tag::Item)];
    events.extend(paragraph(&[value]));
    events.push(Event::End(TagEnd::Item));
    events
}

fn bullets(values: &[&str]) -> Vec<Event> {
    let mut events = vec![Event::Start(Tag::List { start: None, tight: true })];
    for value in values {
        events.extend(item(value));
    }
    events.push(Event::End(TagEnd::List(false)));
    events
}

#[test]
fn writes_canonical_forms() {
    // "Title\n=====\n\n+ one\n+ two\n\n1) a\n2) b\n\n~~~\ncode\n~~~\n"
    let mut events = vec![Event::Start(Tag::Heading(1)), text("Title"), Event::End(TagEnd::Heading(1))];
    events.extend(bullets(&["one", "two"]));
    events.push(Event::Start(Tag::List { start: Some(1), tight: true }));
    events.extend(item("a"));
    events.extend(item("b"));
    events.push(Event::End(TagEnd::List(true)));
    events.push(Event::Start(Tag::CodeBlock(CodeBlockKind::Fenced(String::new()))));
    events.push(text("code\n"));
    events.push(Event::End(TagEnd::CodeBlock));
    assert_eq!(render(events), "# Title\n\n- one\n- two\n\n1. a\n2. b\n\n```\ncode\n```\n");
}

#[test]
fn escapes_text_that_would_become_markup() {
    // "\\# not a heading\n\n1\\. not a list\n\na \\* b \\_ c\n"
    let mut events = paragraph(&["#", " not a heading"]);
    events.extend(paragraph(&["1", ". not a list"]));
    events.extend(paragraph(&["a ", "*", " b ", "_", " c"]));
    assert_eq!(render(events), "\\# not a heading\n\n1\\. not a list\n\na \\* b \\_ c\n");
}

#[test]
fn keeps_adjacent_lists_apart() {
    // "- a\n\n* b\n"
    let mut events = bullets(&["a"]);
    events.extend(bullets(&["b"]));
    assert_eq!(render(events), "- a\n\n* b\n");
}

#[test]
fn nested_containers_carry_their_prefixes() {
    // "> - one\n>   two\n>\n>   more\n"
    let mut events = vec![
        Event::Start(Tag::BlockQuote),
        Event::Start(Tag::List { start: None, tight: false }),
        Event::Start(Tag::Item),
        Event::Start(Tag::Paragraph),
        text("one"),
        Event::SoftBreak,
        text("two"),
        Event::End(TagEnd::Paragraph),
    ];
    events.extend(paragraph(&["more"]));
    events.extend(vec![
        Event::End(TagEnd::Item),
        Event::End(TagEnd::List(false)),
        Event::End(TagEnd::BlockQuote),
    ]);
    assert_eq!(render(events), "> - one\n>   two\n>\n>   more\n");
}

#[test]
fn unsplit_digits_are_escaped_at_the_line_start() {
    assert_eq!(render(paragraph(&["1. not a list"])), "1\\. not a list\n");
    assert_eq!(render(paragraph(&["12) no"])), "12\\) no\n");
    assert_eq!(render(paragraph(&["1234567890. long"])), "1234567890. long\n");
    assert_eq!(render(paragraph(&[" lead", "\tx"])), "&#32;lead\tx\n");
    assert_eq!(render(paragraph(&["a\nb"])), "a&#10;b\n");
}

#[test]
fn markup_characters_in_text_are_escaped() {
    assert_eq!(
        render(paragraph(&["www.x.org: see http://y !"])),
        "www\\.x.org: see http\\://y \\!\n"
    );
    assert_eq!(render(paragraph(&["a & b @ c ~ [d] <e> `f` \\"])), "a \\& b \\@ c \\~ \\[d\\] \\<e> \\`f\\` \\\\\n");
    assert_eq!(render(paragraph(&["héllo # | !x"])), "héllo # | !x\n");
}

#[test]
fn nested_runs_alternate_their_delimiters() {
    let events = vec![
        Event::Start(Tag::Paragraph),
        Event::Start(Tag::Emphasis),
        Event::Start(Tag::Strong),
        text("a"),
        Event::End(TagEnd::Strong),
        Event::End(TagEnd::Emphasis),
        text(" in"),
        Event::Start(Tag::Emphasis),
        text("word"),
        Event::End(TagEnd::Emphasis),
        Event::Start(Tag::Strikethrough),
        text("gone"),
        Event::End(TagEnd::Strikethrough),
        Event::End(TagEnd::Paragraph),
    ];
    assert_eq!(render(events), "*__a__* in*word*~~gone~~\n");
}

#[test]
fn headings_take_setext_form_when_they_span_lines() {
    let events = vec![
        Event::Start(Tag::Heading(2)),
        text("two"),
        Event::SoftBreak,
        text("lines"),
        Event::End(TagEnd::Heading(2)),
        Event::Start(Tag::Heading(3)),
        text("three"),
        Event::SoftBreak,
        text("lines # x"),
        Event::End(TagEnd::Heading(3)),
        Event::Start(Tag::Heading(4)),
        Event::End(TagEnd::Heading(4)),
    ];
    assert_eq!(render(events), "two\nlines\n---\n\n### three lines \\# x\n\n####\n");
}

#[test]
fn code_spans_and_links() {
    let events = vec![
        Event::Start(Tag::Paragraph),
        Event::Code(String::from("a`b")),
        text(" "),
        Event::Code(String::from("`x")),
        text(" "),
        Event::Start(Tag::Link { destination: String::from("a b"), title: String::from("t\"q") }),
        text("x"),
        Event::End(TagEnd::Link),
        Event::Start(Tag::Image { destination: String::from("/i.png"), title: String::new() }),
        text("alt"),
        Event::End(TagEnd::Image),
        Event::Start(Tag::Link { destination: String::new(), title: String::new() }),
        text("none"),
        Event::End(TagEnd::Link),
        Event::End(TagEnd::Paragraph),
    ];
    assert_eq!(render(events), "``a`b`` `` `x `` [x](<a b> \"t\\\"q\")![alt](/i.png)[none](<>)\n");
}

#[test]
fn tables_are_written_with_pipes() {
    let cell = |events: Vec<Event>| {
        let mut cell = vec![Event::Start(Tag::TableCell)];
        cell.extend(events);
        cell.push(Event::End(TagEnd::TableCell));
        cell
    };
    let mut events = vec![
        Event::Start(Tag::Table(vec![Alignment::Left, Alignment::Right])),
        Event::Start(Tag::TableHead),
    ];
    events.extend(cell(vec![text("a")]));
    events.extend(cell(vec![text("b|c")]));
    events.push(Event::End(TagEnd::TableHead));
    events.push(Event::Start(Tag::TableRow));
    events.extend(cell(vec![Event::Code(String::from("x|y"))]));
    events.push(Event::End(TagEnd::TableRow));
    events.push(Event::End(TagEnd::Table));
    assert_eq!(render(events), "| a | b\\|c |\n| :-- | --: |\n| `x\\|y` |\n");
}

#[test]
fn footnotes_and_html() {
    let mut events = vec![
        Event::Start(Tag::Paragraph),
        text("see"),
        Event::FootnoteReference(String::from("n")),
        Event::End(TagEnd::Paragraph),
        Event::Start(Tag::FootnoteDefinition(String::from("n"))),
    ];
    events.extend(paragraph(&["note"]));
    events.push(Event::End(TagEnd::FootnoteDefinition));
    events.push(Event::Start(Tag::HtmlBlock));
    events.push(Event::Html(String::from("&lt;script>x\n")));
    events.push(Event::Html(String::from("&lt;/b> &lt;/STYLE>\n")));
    events.push(Event::End(TagEnd::HtmlBlock));
    assert_eq!(render(events), "see[^n]\n\n[^n]: note\n\n<script>x\n&lt;/b> </STYLE>\n");
}

#[test]
fn code_blocks_fence_after_lists_and_indent_otherwise() {
    let mut events = bullets(&["x"]);
    events.push(Event::Start(Tag::CodeBlock(CodeBlockKind::Indented)));
    events.push(text("code\n"));
    events.push(Event::End(TagEnd::CodeBlock));
    events.push(Event::Start(Tag::CodeBlock(CodeBlockKind::Indented)));
    events.push(text("a\n\nb\n"));
    events.push(Event::End(TagEnd::CodeBlock));
    events.push(Event::Start(Tag::CodeBlock(CodeBlockKind::Fenced(String::from("a`b")))));
    events.push(text("~~~~\n"));
    events.push(Event::End(TagEnd::CodeBlock));
    assert_eq!(render(events), "- x\n\n```\ncode\n```\n\n    a\n\n    b\n\n~~~~~a`b\n~~~~\n~~~~~\n");
}

#[test]
fn items_breaks_rules_and_tasks() {
    let events = vec![
        Event::Start(Tag::List { start: Some(7), tight: true }),
        Event::Start(Tag::Item),
        Event::Start(Tag::Paragraph),
        Event::TaskListMarker(false),
        text("a"),
        Event::HardBreak,
        text("b"),
        Event::End(TagEnd::Paragraph),
        Event::End(TagEnd::Item),
        Event::Start(Tag::Item),
        Event::End(TagEnd::Item),
        Event::End(TagEnd::List(true)),
        Event::Rule,
    ];
    assert_eq!(render(events), "7. [ ] a\\\n   b\n8.\n\n***\n");
}

#[test]
fn output_is_handed_out_at_line_starts() {
    let mut writer = MarkdownWriter::new();
    writer.event(Event::Start(Tag::Paragraph));
    writer.event(text("one"));
    assert_eq!(writer.take_output(), "");
    writer.event(Event::End(TagEnd::Paragraph));
    assert_eq!(writer.pending_len(), 4);
    assert_eq!(writer.take_output(), "one\n");
    writer.event(Event::Start(Tag::Paragraph));
    writer.event(text("two"));
    assert_eq!(writer.finish_markdown(), "\ntwo\n");
}
