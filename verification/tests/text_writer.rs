use sublime::markdown::{Alignment, Event, EventSink, Tag, TagEnd};
use sublime::text::reader::parse_into;
use sublime::text::writer::{push_text, TextWriter};

fn text(value: &str) -> Event {
    Event::Text(String::from(value))
}

fn render(events: Vec<Event>) -> String {
    let mut out = String::new();
    push_text(&mut out, events);
    out
}

fn paragraph(value: &str) -> Vec<Event> {
    vec![Event::Start(Tag::Paragraph), text(value), Event::End(TagEnd::Paragraph)]
}

fn item(value: &str) -> Vec<Event> {
    let mut events = vec![Event::Start(Tag::Item)];
    events.extend(paragraph(value));
    events.push(Event::End(TagEnd::Item));
    events
}

#[test]
fn drops_markup_and_keeps_structure() {
    // "# Title\n\nSome *text* with a [link](https://x.y).\n\n- one\n- two\n  - nested\n\n1. a\n2. b\n"
    let mut events = vec![
        Event::Start(Tag::Heading(1)),
        text("Title"),
        Event::End(TagEnd::Heading(1)),
        Event::Start(Tag::Paragraph),
        text("Some "),
        Event::Start(Tag::Emphasis),
        text("text"),
        Event::End(TagEnd::Emphasis),
        text(" with a "),
        Event::Start(Tag::Link { destination: String::from("https://x.y"), title: String::new() }),
        text("link"),
        Event::End(TagEnd::Link),
        text("."),
        Event::End(TagEnd::Paragraph),
        Event::Start(Tag::List { start: None, tight: true }),
    ];
    events.extend(item("one"));
    events.push(Event::Start(Tag::Item));
    events.extend(paragraph("two"));
    events.push(Event::Start(Tag::List { start: None, tight: true }));
    events.extend(item("nested"));
    events.push(Event::End(TagEnd::List(false)));
    events.push(Event::End(TagEnd::Item));
    events.push(Event::End(TagEnd::List(false)));
    events.push(Event::Start(Tag::List { start: Some(1), tight: true }));
    events.extend(item("a"));
    events.extend(item("b"));
    events.push(Event::End(TagEnd::List(true)));
    assert_eq!(
        render(events),
        "Title\n\nSome text with a link (https://x.y).\n\n- one\n- two\n  - nested\n\n1. a\n2. b\n"
    );
}

#[test]
fn tables_align_columns() {
    // "| a | bbb |\n|---|---|\n| cc | d |\n"
    let cell = |value: &str| vec![Event::Start(Tag::TableCell), text(value), Event::End(TagEnd::TableCell)];
    let mut events = vec![
        Event::Start(Tag::Table(vec![Alignment::Unaligned, Alignment::Unaligned])),
        Event::Start(Tag::TableHead),
    ];
    events.extend(cell("a"));
    events.extend(cell("bbb"));
    events.push(Event::End(TagEnd::TableHead));
    events.push(Event::Start(Tag::TableRow));
    events.extend(cell("cc"));
    events.extend(cell("d"));
    events.push(Event::End(TagEnd::TableRow));
    events.push(Event::End(TagEnd::Table));
    assert_eq!(render(events), "a   bbb\n--  ---\ncc  d\n");
}

#[test]
fn footnotes_are_numbered_and_listed() {
    // "Text[^n].\n\n[^n]: The note.\n"
    let mut events = vec![
        Event::Start(Tag::Paragraph),
        text("Text"),
        Event::FootnoteReference(String::from("n")),
        text("."),
        Event::End(TagEnd::Paragraph),
        Event::Start(Tag::FootnoteDefinition(String::from("n"))),
    ];
    events.extend(paragraph("The note."));
    events.push(Event::End(TagEnd::FootnoteDefinition));
    assert_eq!(render(events), "Text[1].\n\n[1] The note.\n");
}

#[test]
fn footnotes_take_numbers_in_order_of_first_reference() {
    let mut events = vec![
        Event::Start(Tag::FootnoteDefinition(String::from("early"))),
    ];
    events.extend(paragraph("Defined first, cited second."));
    events.push(Event::End(TagEnd::FootnoteDefinition));
    events.extend(vec![
        Event::Start(Tag::Paragraph),
        Event::FootnoteReference(String::from("late")),
        Event::FootnoteReference(String::from("early")),
        Event::FootnoteReference(String::from("late")),
        Event::FootnoteReference(String::from("never")),
        Event::End(TagEnd::Paragraph),
        Event::Start(Tag::FootnoteDefinition(String::from("late"))),
    ]);
    events.extend(paragraph("Two\nlines"));
    events.extend(paragraph("and a second paragraph"));
    events.push(Event::End(TagEnd::FootnoteDefinition));
    assert_eq!(
        render(events),
        "[1][2][1][3]\n\n[1] Two\n    lines\n\n    and a second paragraph\n[2] Defined first, cited second.\n"
    );
}

#[test]
fn links_show_their_destination_unless_it_is_the_text() {
    let link = |dest: &str, label: &str| {
        vec![
            Event::Start(Tag::Link { destination: String::from(dest), title: String::new() }),
            text(label),
            Event::End(TagEnd::Link),
        ]
    };
    let mut events = vec![Event::Start(Tag::Paragraph)];
    events.extend(link("https://a.b", "https://a.b"));
    events.push(text(" "));
    events.extend(link("", "empty"));
    events.push(text(" "));
    events.extend(link("/x", "named"));
    events.push(Event::End(TagEnd::Paragraph));
    assert_eq!(render(events), "https://a.b empty named (/x)\n");
}

#[test]
fn block_quotes_and_rules_and_code() {
    let mut events = vec![Event::Start(Tag::BlockQuote)];
    events.extend(paragraph("quoted"));
    events.extend(paragraph("twice"));
    events.push(Event::End(TagEnd::BlockQuote));
    events.push(Event::Rule);
    events.push(Event::Start(Tag::CodeBlock(sublime::markdown::CodeBlockKind::Indented)));
    events.push(text("let x = 1;"));
    events.push(Event::End(TagEnd::CodeBlock));
    events.push(Event::Start(Tag::HtmlBlock));
    events.push(Event::Html(String::from("<div>\n")));
    events.push(text("hidden"));
    events.push(Event::End(TagEnd::HtmlBlock));
    events.extend(paragraph("after"));
    assert_eq!(render(events), "  quoted\n\n  twice\n\n* * *\n\nlet x = 1;\n\nafter\n");
}

#[test]
fn breaks_and_task_markers() {
    let events = vec![
        Event::Start(Tag::List { start: Some(9), tight: false }),
        Event::Start(Tag::Item),
        Event::Start(Tag::Paragraph),
        Event::TaskListMarker(true),
        text("done"),
        Event::SoftBreak,
        text("more"),
        Event::HardBreak,
        Event::Code(String::from("code")),
        Event::End(TagEnd::Paragraph),
        Event::End(TagEnd::Item),
        Event::Start(Tag::Item),
        Event::End(TagEnd::Item),
        Event::End(TagEnd::List(true)),
    ];
    assert_eq!(render(events), "9. [x] done\n   more\n   code\n\n10.\n");
}

#[test]
fn plain_text_survives_a_round_trip() {
    let mut writer = TextWriter::new();
    parse_into("one\ntwo\n\n\nthree\r\n", &mut writer);
    assert_eq!(writer.finish_text(), "one\ntwo\n\nthree\n");
}

#[test]
fn output_is_handed_out_only_at_line_ends() {
    let mut writer = TextWriter::new();
    writer.event(Event::Start(Tag::Paragraph));
    writer.event(text("first"));
    assert_eq!(writer.take_output(), "");
    writer.event(Event::End(TagEnd::Paragraph));
    assert_eq!(writer.pending_len(), 6);
    assert_eq!(writer.take_output(), "first\n");
    assert_eq!(writer.pending_len(), 0);
    writer.event(Event::Start(Tag::Paragraph));
    writer.event(text("second"));
    writer.event(Event::End(TagEnd::Paragraph));
    assert_eq!(writer.finish_text(), "\nsecond\n");
}

#[test]
fn text_is_appended_after_what_was_there() {
    let mut out = String::from("kept\n");
    push_text(&mut out, paragraph("new"));
    assert_eq!(out, "kept\nnew\n");
}
