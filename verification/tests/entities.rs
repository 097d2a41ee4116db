use sublime::markdown::scan::{decode_entity, parse_reference_definition, unescape_and_decode};

const ENTITIES: [(&str, &str); 3] = [("amp", "&"), ("copy", "\u{A9}"), ("ngE", "\u{2267}\u{338}")];

#[test]
fn numeric_references_decode() {
    assert_eq!(decode_entity(b"&#35;", &ENTITIES), Some((String::from("#"), 5)));
    assert_eq!(decode_entity(b"&#x41; rest", &ENTITIES), Some((String::from("A"), 6)));
    assert_eq!(decode_entity(b"&#X1F600;", &ENTITIES), Some((String::from("\u{1F600}"), 9)));
    assert_eq!(decode_entity(b"&#0;", &ENTITIES), Some((String::from("\u{FFFD}"), 4)));
    assert_eq!(decode_entity(b"&#xD800;", &ENTITIES), Some((String::from("\u{FFFD}"), 8)));
    assert_eq!(decode_entity(b"&#1234567;", &ENTITIES), Some((String::from("\u{FFFD}"), 10)));
    assert_eq!(decode_entity(b"&#12345678;", &ENTITIES), None);
    assert_eq!(decode_entity(b"&#x1234567;", &ENTITIES), None);
    assert_eq!(decode_entity(b"&#;", &ENTITIES), None);
    assert_eq!(decode_entity(b"&#12", &ENTITIES), None);
    assert_eq!(decode_entity(b"&#xg;", &ENTITIES), None);
}

#[test]
fn named_references_are_looked_up() {
    assert_eq!(decode_entity(b"&amp;", &ENTITIES), Some((String::from("&"), 5)));
    assert_eq!(decode_entity(b"&ngE;x", &ENTITIES), Some((String::from("\u{2267}\u{338}"), 5)));
    assert_eq!(decode_entity(b"&nope;", &ENTITIES), None);
    assert_eq!(decode_entity(b"&amp", &ENTITIES), None);
    assert_eq!(decode_entity(b"&;", &ENTITIES), None);
    assert_eq!(decode_entity(b"amp;", &ENTITIES), None);
    assert_eq!(decode_entity(b"", &ENTITIES), None);
    let long = format!("&{};", "a".repeat(32));
    assert_eq!(decode_entity(long.as_bytes(), &[]), None);
}

#[test]
fn escapes_and_references_are_resolved() {
    assert_eq!(unescape_and_decode("a\\*b &copy; &#65;\\q &nope; é", &ENTITIES), "a*b \u{A9} A\\q &nope; é");
    assert_eq!(unescape_and_decode("plain", &ENTITIES), "plain");
    assert_eq!(unescape_and_decode("", &ENTITIES), "");
    assert_eq!(unescape_and_decode("trailing\\", &ENTITIES), "trailing\\");
    assert_eq!(unescape_and_decode("&amp;amp;", &ENTITIES), "&amp;");
}

fn definition(text: &str) -> Option<(String, String, String, usize)> {
    parse_reference_definition(text, &ENTITIES)
}

fn owned(label: &str, destination: &str, title: &str, consumed: usize) -> Option<(String, String, String, usize)> {
    Some((String::from(label), String::from(destination), String::from(title), consumed))
}

#[test]
fn reference_definitions_are_read() {
    assert_eq!(definition("[foo]: /url \"title\"\nrest"), owned("foo", "/url", "title", 20));
    assert_eq!(definition("[foo]:\n<a b>\n'x'"), owned("foo", "a b", "x", 16));
    assert_eq!(definition("[a]: /u&amp;v\\*"), owned("a", "/u&v*", "", 15));
    assert_eq!(definition("[a]: /url\nnext"), owned("a", "/url", "", 10));
    assert_eq!(definition("[é]: /x (t)"), owned("é", "/x", "t", 12));
    assert_eq!(definition("[ ]: /url"), None);
    assert_eq!(definition("[foo] /url"), None);
    assert_eq!(definition("[foo]: /url bad"), None);
    assert_eq!(definition("[foo]: /url 'title' x"), None);
    assert_eq!(definition("[foo]:"), None);
    assert_eq!(definition("foo: /url"), None);
}
