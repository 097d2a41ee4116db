use sublime::markdown::inline::{
    autolink_candidate, find_autolink_literal, is_domain_byte, is_plain_inline, normalize_code_span, scan_domain,
    scan_email_literal, scan_www_or_scheme, split_task_marker, trim_autolink_end,
};

#[test]
fn domains_are_dotted_segments() {
    assert!(is_domain_byte(b'a') && is_domain_byte(b'-') && is_domain_byte(0xC3));
    assert!(!is_domain_byte(b'.') && !is_domain_byte(b'/'));
    assert_eq!(scan_domain(b"example.com/x", 0, true), Some(11));
    assert_eq!(scan_domain(b"localhost", 0, true), None);
    assert_eq!(scan_domain(b"localhost", 0, false), Some(9));
    assert_eq!(scan_domain(b"a_b.example.com", 0, true), Some(15));
    assert_eq!(scan_domain(b"x.a_b.com", 0, true), None);
    assert_eq!(scan_domain(b"example..com", 0, true), None);
    assert_eq!(scan_domain(b"", 0, false), None);
}

#[test]
fn link_ends_drop_trailing_punctuation() {
    assert_eq!(trim_autolink_end(b"www.a.com/x?.", 0, 13), 11);
    assert_eq!(trim_autolink_end(b"a.com/(x))", 0, 10), 9);
    assert_eq!(trim_autolink_end(b"a.com/(x)", 0, 9), 9);
    assert_eq!(trim_autolink_end(b"a.com/&amp;", 0, 11), 6);
    assert_eq!(trim_autolink_end(b"a.com/x;", 0, 8), 8);
    assert_eq!(trim_autolink_end(b"...", 1, 3), 1);
}

#[test]
fn www_and_scheme_literals() {
    assert_eq!(scan_www_or_scheme("www.commonmark.org/help", 0), Some((23, "http://", true)));
    assert_eq!(scan_www_or_scheme("Visit https://x.org.", 6), Some((19, "", false)));
    assert_eq!(scan_www_or_scheme("ftp://files", 0), Some((11, "", false)));
    assert_eq!(scan_www_or_scheme("HTTP://A.B", 0), Some((10, "", false)));
    assert_eq!(scan_www_or_scheme("www.x", 0), Some((5, "http://", true)));
    assert_eq!(scan_www_or_scheme("www.", 0), None);
    assert_eq!(scan_www_or_scheme("gopher://x.y", 0), None);
}

#[test]
fn email_literals() {
    assert_eq!(scan_email_literal("write to foo@bar.baz.", 12), Some((9, 20, "mailto:")));
    assert_eq!(scan_email_literal("mailto:foo@bar.baz", 10), Some((0, 18, "")));
    assert_eq!(scan_email_literal("xmpp:foo@bar.baz/res.x", 8), Some((0, 22, "")));
    assert_eq!(scan_email_literal("@bar.com", 0), None);
    assert_eq!(scan_email_literal("a@b", 1), None);
    assert_eq!(scan_email_literal("a@b.c-", 1), None);
}

#[test]
fn literals_are_found_in_order() {
    assert_eq!(find_autolink_literal("see www.x.org and a@b.co", 0), Some((4, 13, "http://")));
    assert_eq!(find_autolink_literal("see www.x.org and a@b.co", 5), Some((18, 24, "mailto:")));
    assert_eq!(find_autolink_literal("xwww.a.b", 0), None);
    assert_eq!(find_autolink_literal("(www.a.b)", 0), Some((1, 8, "http://")));
    assert_eq!(find_autolink_literal("mail me: a@b.co", 0), Some((9, 15, "mailto:")));
    assert_eq!(find_autolink_literal("\"http://q.r\"", 0), Some((1, 11, "")));
    assert_eq!(find_autolink_literal("text", 0), None);
}

#[test]
fn cheap_tests_before_scanning() {
    assert!(!autolink_candidate(b"plain text"));
    assert!(autolink_candidate(b"a@b"));
    assert!(autolink_candidate(b"http: x"));
    assert!(autolink_candidate(b"see WWW.x"));
    assert!(!autolink_candidate(b"nothing:here"));
    assert!(is_plain_inline("plain text 123"));
    assert!(!is_plain_inline("word"));
    assert!(!is_plain_inline("a*b"));
    assert!(!is_plain_inline("a:b"));
}

#[test]
fn code_spans_are_normalized() {
    assert_eq!(normalize_code_span(" a "), Some(String::from("a")));
    assert_eq!(normalize_code_span("a\nb"), Some(String::from("a b")));
    assert_eq!(normalize_code_span("  "), None);
    assert_eq!(normalize_code_span("a"), None);
    assert_eq!(normalize_code_span(" \n "), Some(String::from("   ")));
    assert_eq!(normalize_code_span("\na\n"), Some(String::from("a")));
}

#[test]
fn task_markers_split_off() {
    assert_eq!(split_task_marker("[x] done"), Some((true, "done")));
    assert_eq!(split_task_marker("[ ]"), Some((false, "")));
    assert_eq!(split_task_marker("[X]\tgo on"), Some((true, "go on")));
    assert_eq!(split_task_marker("[ ]   "), None);
    assert_eq!(split_task_marker("[y] a"), None);
    assert_eq!(split_task_marker("[x]done"), None);
    assert_eq!(split_task_marker("[ ] \n"), None);
}
