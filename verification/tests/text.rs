use sublime::markdown::{Event, Tag, TagEnd};
use sublime::text::reader::parse_into;

#[test]
fn paragraphs_from_blank_lines() {
    let mut events: Vec<Event> = Vec::new();
    parse_into("one\ntwo\n\n\nthree\r\n", &mut events);
    assert_eq!(
        events,
        vec![
            Event::Start(Tag::Paragraph),
            Event::Text(String::from("one")),
            Event::SoftBreak,
            Event::Text(String::from("two")),
            Event::End(TagEnd::Paragraph),
            Event::Start(Tag::Paragraph),
            Event::Text(String::from("three")),
            Event::End(TagEnd::Paragraph),
        ]
    );
}

#[test]
fn empty_text_is_no_events() {
    let mut events: Vec<Event> = Vec::new();
    parse_into("\n  \n", &mut events);
    assert!(events.is_empty());
}

#[test]
fn events_are_appended_after_what_the_sink_holds() {
    let mut events: Vec<Event> = vec![Event::SoftBreak];
    parse_into("last line without newline", &mut events);
    assert_eq!(
        events,
        vec![
            Event::SoftBreak,
            Event::Start(Tag::Paragraph),
            Event::Text(String::from("last line without newline")),
            Event::End(TagEnd::Paragraph),
        ]
    );
}

#[test]
fn lines_keep_inner_spaces_and_markup_characters() {
    let mut events: Vec<Event> = Vec::new();
    parse_into("  # not a heading \r\n\t\r\n*x*", &mut events);
    assert_eq!(
        events,
        vec![
            Event::Start(Tag::Paragraph),
            Event::Text(String::from("  # not a heading ")),
            Event::End(TagEnd::Paragraph),
            Event::Start(Tag::Paragraph),
            Event::Text(String::from("*x*")),
            Event::End(TagEnd::Paragraph),
        ]
    );
}

#[test]
fn nothing_at_all_is_no_events() {
    let mut events: Vec<Event> = Vec::new();
    parse_into("", &mut events);
    assert!(events.is_empty());
}
