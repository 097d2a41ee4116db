use sublime::markdown::block::{
    is_space_or_tab, parse_list_marker, scan_atx_heading, scan_closing_fence, scan_opening_fence, scan_setext_underline,
    scan_thematic_break,
};
use sublime::markdown::inline::apply_tagfilter;
use sublime::markdown::scan::{
    end_of_line, is_ascii_punctuation, is_unicode_punctuation, is_unicode_whitespace, normalize_label,
    rest_of_line_is_blank, scan_autolink, scan_html_block_end, scan_html_block_start, scan_inline_html,
    scan_link_destination, scan_link_label, scan_link_title, skip_spaces_and_one_newline,
};
use sublime::markdown::writer::{choose_fence, is_marker_delimiter, longest_run};
use sublime::markdown::{Tag, TagEnd};

#[test]
fn headings_and_fences() {
    assert_eq!(scan_atx_heading(b"# Title", 0), Some(1));
    assert_eq!(scan_atx_heading(b"  ###### six", 2), Some(6));
    assert_eq!(scan_atx_heading(b"####### seven", 0), None);
    assert_eq!(scan_atx_heading(b"#hashtag", 0), None);
    assert_eq!(scan_atx_heading(b"##", 0), Some(2));
    assert_eq!(scan_opening_fence(b"```rust", 0), Some((b'`', 3)));
    assert_eq!(scan_opening_fence(b"~~~~ info `x`", 0), Some((b'~', 4)));
    assert_eq!(scan_opening_fence(b"``` a`b", 0), None);
    assert_eq!(scan_opening_fence(b"``", 0), None);
    assert_eq!(scan_closing_fence(b"````  ", 0, b'`'), 4);
    assert_eq!(scan_closing_fence(b"``` x", 0, b'`'), 0);
    assert_eq!(scan_setext_underline(b"===", 0), Some(1));
    assert_eq!(scan_setext_underline(b"--- \t", 0), Some(2));
    assert_eq!(scan_setext_underline(b"-- -", 0), None);
    assert!(scan_thematic_break(b"* * *", 0));
    assert!(scan_thematic_break(b"___", 0));
    assert!(!scan_thematic_break(b"--", 0));
    assert!(!scan_thematic_break(b"--a", 0));
    assert!(is_space_or_tab(b'\t'));
    assert!(!is_space_or_tab(b'\n'));
}

#[test]
fn list_markers() {
    assert_eq!(parse_list_marker(b"- item", 0, false), Some((false, 0, b'-', 1)));
    assert_eq!(parse_list_marker(b"12) item", 0, false), Some((true, 12, b')', 3)));
    assert_eq!(parse_list_marker(b"2. item", 0, true), None);
    assert_eq!(parse_list_marker(b"1. item", 0, true), Some((true, 1, b'.', 2)));
    assert_eq!(parse_list_marker(b"-", 0, false), Some((false, 0, b'-', 1)));
    assert_eq!(parse_list_marker(b"-", 0, true), None);
    assert_eq!(parse_list_marker(b"-x", 0, false), None);
    assert_eq!(parse_list_marker(b"1234567890. x", 0, false), None);
    assert_eq!(parse_list_marker(b"123456789. x", 0, false), Some((true, 123_456_789, b'.', 10)));
}

#[test]
fn link_parts() {
    assert_eq!(scan_link_label(b"[foo] bar"), Some(5));
    assert_eq!(scan_link_label(b"[a\\]b]"), Some(6));
    assert_eq!(scan_link_label(b"[a[b]"), None);
    assert_eq!(scan_link_label(b"foo]"), None);
    assert_eq!(scan_link_destination(b"<a b> rest"), Some((1, 4, 5)));
    assert_eq!(scan_link_destination(b"/url(x) \"t\""), Some((0, 7, 7)));
    assert_eq!(scan_link_destination(b"/url(x"), None);
    assert_eq!(scan_link_destination(b"<a\nb>"), None);
    assert_eq!(scan_link_title(b"\"title\" x"), Some((1, 6, 7)));
    assert_eq!(scan_link_title(b"(a(b)"), None);
    assert_eq!(scan_link_title(b"'a\\'b'"), Some((1, 5, 6)));
    assert_eq!(skip_spaces_and_one_newline(b"  \n  \nx", 0), 5);
    assert!(rest_of_line_is_blank(b"x  \ny", 1));
    assert!(!rest_of_line_is_blank(b"x  y", 1));
    assert_eq!(end_of_line(b"ab\ncd", 0), 3);
    assert_eq!(end_of_line(b"abcd", 1), 4);
}

#[test]
fn html_scanners() {
    assert_eq!(scan_html_block_start(b"<script>", false), Some(1));
    assert_eq!(scan_html_block_start(b"<!-- c", false), Some(2));
    assert_eq!(scan_html_block_start(b"<?php", false), Some(3));
    assert_eq!(scan_html_block_start(b"<!DOCTYPE html>", false), Some(4));
    assert_eq!(scan_html_block_start(b"<![CDATA[", false), Some(5));
    assert_eq!(scan_html_block_start(b"<DIV class=\"x\">", true), Some(6));
    assert_eq!(scan_html_block_start(b"<custom-tag a='b'>  ", false), Some(7));
    assert_eq!(scan_html_block_start(b"<custom-tag a='b'>  ", true), None);
    assert_eq!(scan_html_block_start(b"<span>text", false), None);
    assert!(scan_html_block_end(1, b"x </SCRIPT> y"));
    assert!(scan_html_block_end(2, b"end -->"));
    assert!(!scan_html_block_end(6, b""));
    assert_eq!(scan_inline_html(b"<a href=\"x\">text"), Some(12));
    assert_eq!(scan_inline_html(b"</a >"), Some(5));
    assert_eq!(scan_inline_html(b"<!-- c -->z"), Some(10));
    assert_eq!(scan_inline_html(b"<br/>"), Some(5));
    assert_eq!(scan_inline_html(b"<a b=>"), None);
    assert_eq!(scan_autolink(b"<https://x.org/a>b"), Some((17, false)));
    assert_eq!(scan_autolink(b"<me@example.com>"), Some((16, true)));
    assert_eq!(scan_autolink(b"<x:y>"), None);
    assert_eq!(scan_autolink(b"<not a link>"), None);
}

#[test]
fn character_classes_and_labels() {
    assert!(is_ascii_punctuation(b'!'));
    assert!(is_ascii_punctuation(b'~'));
    assert!(!is_ascii_punctuation(b'a'));
    assert!(is_unicode_whitespace('\u{A0}'));
    assert!(is_unicode_whitespace('\t'));
    assert!(!is_unicode_whitespace('x'));
    assert!(is_unicode_whitespace('\u{3000}'));
    assert!(is_unicode_whitespace('\u{2009}'));
    assert!(!is_unicode_whitespace('\u{2028}'));
    assert!(!is_unicode_whitespace('\u{85}'));
    assert!(!is_unicode_whitespace('\u{0B}'));
    assert!(is_unicode_punctuation('«'));
    assert!(is_unicode_punctuation('.'));
    assert!(!is_unicode_punctuation('é'));
    assert_eq!(normalize_label("  Foo \n  BAR  "), "foo bar");
    assert_eq!(normalize_label("Straße"), "strasse");
    assert_eq!(normalize_label("ΑΣ"), "ασ");
}

#[test]
fn writer_helpers() {
    assert!(is_marker_delimiter(b". rest"));
    assert!(is_marker_delimiter(b")"));
    assert!(!is_marker_delimiter(b".x"));
    assert_eq!(longest_run("a``b```c`", b'`'), 3);
    assert_eq!(longest_run("", b'`'), 0);
    assert_eq!(choose_fence("plain", ""), "```");
    assert_eq!(choose_fence("a ```` b", "rust"), "`````");
    assert_eq!(choose_fence("~~~", "a`b"), "~~~~");
}

#[test]
fn tag_filter_neutralizes_only_listed_tags() {
    assert_eq!(apply_tagfilter("<script>x</script>"), "&lt;script>x&lt;/script>");
    assert_eq!(apply_tagfilter("<em>ok</em>"), "<em>ok</em>");
    assert_eq!(apply_tagfilter("<TITLE/>"), "&lt;TITLE/>");
    assert_eq!(apply_tagfilter("<scripts>"), "<scripts>");
    assert_eq!(apply_tagfilter("<style"), "&lt;style");
}

#[test]
fn tags_know_their_ends() {
    assert_eq!(Tag::Paragraph.end(), TagEnd::Paragraph);
    assert_eq!(Tag::Heading(3).end(), TagEnd::Heading(3));
    assert_eq!(Tag::List { start: Some(4), tight: true }.end(), TagEnd::List(true));
    assert_eq!(Tag::List { start: None, tight: false }.end(), TagEnd::List(false));
    assert_eq!(
        Tag::Link { destination: String::from("/x"), title: String::new() }.end(),
        TagEnd::Link
    );
    assert_eq!(Tag::FootnoteDefinition(String::from("n")).end(), TagEnd::FootnoteDefinition);
}
