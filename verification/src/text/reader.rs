//! Reads plain text into the Markdown event stream: a paragraph per run
//! of non-blank lines, the lines inside a paragraph joined by soft
//! breaks. Nothing in the text is markup; the writers escape whatever
//! would read as Markdown, so the text comes out as it went in.

use vstd::prelude::*;
use crate::chars::{is_whitespace, white_space};
use crate::markdown::{Event, EventSink, EventView, Tag, TagEnd, TagView, event_views};
use crate::message::{chars_of, push_char};

verus! {

/// Where the line holding `i` ends: its newline, or the end of the text.
pub open spec fn line_break(text: Seq<char>, i: int) -> int
    decreases text.len() - i,
{
    if i < 0 || i >= text.len() {
        text.len() as int
    } else if text[i] == '\n' {
        i
    } else {
        line_break(text, i + 1)
    }
}

pub proof fn lemma_line_break(text: Seq<char>, i: int)
    requires
        0 <= i <= text.len(),
    ensures
        i <= line_break(text, i) <= text.len(),
        line_break(text, i) < text.len() ==> text[line_break(text, i)] == '\n',
    decreases text.len() - i,
{
    if i < text.len() && text[i] != '\n' {
        lemma_line_break(text, i + 1);
    }
}

/// The lines of `text` from `i` on, split at each newline: n newlines
/// make n + 1 lines.
pub open spec fn lines_from(text: Seq<char>, i: int) -> Seq<Seq<char>>
    decreases text.len() + 1 - i,
{
    if i < 0 || i > text.len() {
        Seq::empty()
    } else {
        let end = line_break(text, i);
        proof {
            lemma_line_break(text, i);
        }
        if end < text.len() {
            seq![text.subrange(i, end)] + lines_from(text, end + 1)
        } else {
            seq![text.subrange(i, end)]
        }
    }
}

/// A line without the `\r` of a CRLF ending.
pub open spec fn without_cr(line: Seq<char>) -> Seq<char> {
    if line.len() > 0 && line.last() == '\r' {
        line.drop_last()
    } else {
        line
    }
}

/// Whether a line holds only whitespace.
pub open spec fn is_blank(line: Seq<char>) -> bool {
    forall|i: int| 0 <= i < line.len() ==> white_space(#[trigger] line[i])
}

/// The events of `lines`, a paragraph already open or not: a blank line
/// closes an open paragraph; any other opens one or continues it after a
/// soft break, and is its text.
pub open spec fn paragraph_events(lines: Seq<Seq<char>>, open: bool) -> Seq<EventView>
    decreases lines.len(),
{
    if lines.len() == 0 {
        if open {
            seq![EventView::End(TagEnd::Paragraph)]
        } else {
            Seq::empty()
        }
    } else {
        let line = without_cr(lines[0]);
        if is_blank(line) {
            (if open {
                seq![EventView::End(TagEnd::Paragraph)]
            } else {
                Seq::empty()
            }) + paragraph_events(lines.drop_first(), false)
        } else {
            (if open {
                seq![EventView::SoftBreak]
            } else {
                seq![EventView::Start(TagView::Paragraph)]
            }) + seq![EventView::Text(line)] + paragraph_events(lines.drop_first(), true)
        }
    }
}

/// The events of plain text.
pub open spec fn text_events(text: Seq<char>) -> Seq<EventView> {
    paragraph_events(lines_from(text, 0), false)
}

fn push_event<S: EventSink>(sink: &mut S, event: Event)
    ensures
        event_views(final(sink).received()) == event_views(old(sink).received()).push(event@),
{
    sink.event(event);
    proof {
        assert(event_views(sink.received()) =~= event_views(old(sink).received()).push(event@));
    }
}

/// Parses `text` and pushes every event into `sink`.
pub fn parse_into<S: EventSink>(text: &str, sink: &mut S)
    ensures
        event_views(final(sink).received()) == event_views(old(sink).received()) + text_events(text@),
{
    let chars = chars_of(text);
    let length = chars.len();
    let mut open = false;
    let mut start: usize = 0;
    let ghost before = event_views(sink.received());
    proof {
        assert(before + Seq::<EventView>::empty() =~= before);
    }
    loop
        invariant
            chars@ == text@,
            length == chars@.len(),
            start <= length,
            before == event_views(old(sink).received()),
            event_views(sink.received()) + paragraph_events(lines_from(text@, start as int), open) == before
                + text_events(text@),
        decreases length - start,
    {
        let mut end = start;
        while end < length && chars[end] != '\n'
            invariant
                chars@ == text@,
                length == chars@.len(),
                start <= end <= length,
                line_break(text@, start as int) == line_break(text@, end as int),
            decreases length - end,
        {
            end += 1;
        }
        let ghost line = text@.subrange(start as int, end as int);
        let stop = if end > start && chars[end - 1] == '\r' {
            end - 1
        } else {
            end
        };
        let mut blank = true;
        let mut content = String::new();
        let mut index = start;
        while index < stop
            invariant
                chars@ == text@,
                length == chars@.len(),
                start <= index <= stop <= end <= length,
                content@ == text@.subrange(start as int, index as int),
                blank == (forall|i: int| start <= i < index ==> white_space(#[trigger] text@[i])),
            decreases stop - index,
        {
            let ch = chars[index];
            if !is_whitespace(ch) {
                blank = false;
            }
            push_char(&mut content, ch);
            index += 1;
            proof {
                assert(content@ =~= text@.subrange(start as int, index as int));
            }
        }
        proof {
            lemma_line_break(text@, start as int);
            assert(without_cr(line) =~= text@.subrange(start as int, stop as int));
            let kept = without_cr(line);
            assert forall|i: int| 0 <= i < kept.len() implies #[trigger] kept[i] == text@[start + i] by {}
            if blank {
                assert forall|i: int| 0 <= i < kept.len() implies white_space(#[trigger] kept[i]) by {
                    assert(kept[i] == text@[start + i]);
                }
            } else {
                let i = choose|i: int| start <= i < stop && !white_space(#[trigger] text@[i]);
                assert(kept[i - start] == text@[i]);
            }
            assert(blank == is_blank(kept));
            let lines = lines_from(text@, start as int);
            assert(lines[0] == line);
            if end < length {
                assert(lines.drop_first() =~= lines_from(text@, end + 1));
            } else {
                assert(lines.drop_first() =~= Seq::<Seq<char>>::empty());
            }
        }
        let ghost received = event_views(sink.received());
        let ghost was_open = open;
        if blank {
            if open {
                push_event(sink, Event::End(TagEnd::Paragraph));
                open = false;
            }
        } else {
            if open {
                push_event(sink, Event::SoftBreak);
            } else {
                push_event(sink, Event::Start(Tag::Paragraph));
                open = true;
            }
            push_event(sink, Event::Text(content));
        }
        proof {
            let lines = lines_from(text@, start as int);
            let rest = lines.drop_first();
            assert(event_views(sink.received()) + paragraph_events(rest, open) =~= received
                + paragraph_events(lines, was_open));
        }
        if end >= length {
            proof {
                let rest = lines_from(text@, start as int).drop_first();
                assert(rest =~= Seq::<Seq<char>>::empty());
                assert(event_views(sink.received()) + paragraph_events(Seq::<Seq<char>>::empty(), open) == before
                    + text_events(text@));
            }
            let ghost done = event_views(sink.received());
            if open {
                push_event(sink, Event::End(TagEnd::Paragraph));
            }
            proof {
                if open {
                    assert(event_views(sink.received()) =~= done + paragraph_events(Seq::<Seq<char>>::empty(), true));
                } else {
                    assert(event_views(sink.received()) =~= done + paragraph_events(Seq::<Seq<char>>::empty(), false));
                }
            }
            return;
        }
        start = end + 1;
    }
}

} // verus!
