//! Markdown rendering through pulldown-cmark, and the capture of a slide's
//! first heading from the parser's event stream.

use vstd::prelude::*;
use pulldown_cmark::{Event, Options, Parser, Tag, TagEnd};

verus! {

// ---------------------------------------------------------------------
// Events
// ---------------------------------------------------------------------

/// The parser events that heading capture reads: heading starts and ends
/// with their level (1-6), the text of `Text` and `Code` events, and every
/// other event.
pub enum MdEvent {
    HeadingStart(u8),
    HeadingEnd(u8),
    InlineText(String),
    Other,
}

/// The mathematical value of an [`MdEvent`].
pub ghost enum MdEventView {
    HeadingStart(u8),
    HeadingEnd(u8),
    InlineText(Seq<char>),
    Other,
}

impl View for MdEvent {
    type V = MdEventView;

    open spec fn view(&self) -> MdEventView {
        match self {
            MdEvent::HeadingStart(l) => MdEventView::HeadingStart(*l),
            MdEvent::HeadingEnd(l) => MdEventView::HeadingEnd(*l),
            MdEvent::InlineText(s) => MdEventView::InlineText(s@),
            MdEvent::Other => MdEventView::Other,
        }
    }
}

pub open spec fn events_view(v: Seq<MdEvent>) -> Seq<MdEventView> {
    v.map_values(|e: MdEvent| e@)
}

/// Heading levels are 1 to 6.
pub open spec fn level_in_range(e: MdEventView) -> bool {
    match e {
        MdEventView::HeadingStart(l) => 1 <= l <= 6,
        MdEventView::HeadingEnd(l) => 1 <= l <= 6,
        _ => true,
    }
}

/// The events that pulldown-cmark's `Parser::new_ext` yields for `md` under
/// the given extensions, each read as an [`MdEventView`].
pub uninterp spec fn cmark_events(
    md: Seq<char>,
    tables: bool,
    strikethrough: bool,
    tasklists: bool,
) -> Seq<MdEventView>;

/// The HTML that pulldown-cmark's `html::push_html` writes for the events of
/// `Parser::new_ext(md, ..)` under the given extensions.
pub uninterp spec fn cmark_html(
    md: Seq<char>,
    tables: bool,
    strikethrough: bool,
    tasklists: bool,
) -> Seq<char>;

/// `pulldown_cmark::Parser::new_ext`, its events read one by one: heading
/// starts and ends keep their level (`HeadingLevel` `H1`..`H6` are 1..6),
/// `Text` and `Code` keep their text, the rest become `Other`.
#[verifier::external_body]
fn parse_events(md: &str, tables: bool, strikethrough: bool, tasklists: bool) -> (events: Vec<
    MdEvent,
>)
    ensures
        events_view(events@) == cmark_events(md@, tables, strikethrough, tasklists),
        forall|i: int| 0 <= i < events@.len() ==> level_in_range(#[trigger] events@[i]@),
{
    let mut opts = Options::empty();
    opts.set(Options::ENABLE_TABLES, tables);
    opts.set(Options::ENABLE_STRIKETHROUGH, strikethrough);
    opts.set(Options::ENABLE_TASKLISTS, tasklists);
    Parser::new_ext(md, opts).map(|event| match event {
        Event::Start(Tag::Heading { level, .. }) => MdEvent::HeadingStart(level as u8),
        Event::End(TagEnd::Heading(level)) => MdEvent::HeadingEnd(level as u8),
        Event::Text(text) => MdEvent::InlineText(text.to_string()),
        Event::Code(text) => MdEvent::InlineText(text.to_string()),
        _ => MdEvent::Other,
    }).collect()
}

/// `pulldown_cmark::html::push_html` into an empty string, over
/// `Parser::new_ext(md, ..)`.
#[verifier::external_body]
fn push_html(md: &str, tables: bool, strikethrough: bool, tasklists: bool) -> (html: String)
    ensures
        html@ == cmark_html(md@, tables, strikethrough, tasklists),
{
    let mut opts = Options::empty();
    opts.set(Options::ENABLE_TABLES, tables);
    opts.set(Options::ENABLE_STRIKETHROUGH, strikethrough);
    opts.set(Options::ENABLE_TASKLISTS, tasklists);
    let mut html = String::new();
    pulldown_cmark::html::push_html(&mut html, Parser::new_ext(md, opts));
    html
}

// ---------------------------------------------------------------------
// Rendering with the deck's extensions (tables, strikethrough, task lists)
// ---------------------------------------------------------------------

/// The HTML of a slide's markdown.
pub open spec fn slide_markup(md: Seq<char>) -> Seq<char> {
    cmark_html(md, true, true, true)
}

/// The parser events of a slide's markdown.
pub open spec fn slide_events(md: Seq<char>) -> Seq<MdEventView> {
    cmark_events(md, true, true, true)
}

/// Renders markdown to HTML with tables, strikethrough and task lists.
pub fn render_markdown(markdown: &str) -> (html: String)
    ensures
        html@ == slide_markup(markdown@),
{
    push_html(markdown, true, true, true)
}

/// The level and flattened text of a slide's first heading.
pub struct FirstHeading {
    pub level: u8,
    pub text: String,
}

pub open spec fn heading_view(h: Option<FirstHeading>) -> Option<(u8, Seq<char>)> {
    match h {
        Some(h) => Some((h.level, h.text@)),
        None => None,
    }
}

/// Scans events for the first complete heading. `open` is the heading being
/// read: its level and the text gathered so far. Outside a heading, a
/// heading start opens one; inside, `Text`/`Code` text is appended and the
/// end tag of the same level completes it. Other events change nothing.
pub open spec fn scan_heading(
    events: Seq<MdEventView>,
    open: Option<(u8, Seq<char>)>,
) -> Option<(u8, Seq<char>)>
    decreases events.len(),
{
    if events.len() == 0 {
        None
    } else {
        let rest = events.drop_first();
        match open {
            None => match events[0] {
                MdEventView::HeadingStart(l) => scan_heading(rest, Some((l, Seq::empty()))),
                _ => scan_heading(rest, None),
            },
            Some((l, t)) => match events[0] {
                MdEventView::InlineText(s) => scan_heading(rest, Some((l, t + s))),
                MdEventView::HeadingEnd(e) => if e == l {
                    Some((l, t))
                } else {
                    scan_heading(rest, open)
                },
                _ => scan_heading(rest, open),
            },
        }
    }
}

/// The first heading of an event stream: its level and the concatenated
/// text of its `Text`/`Code` children (mdBook's `text_in_node`).
pub open spec fn first_heading_of(events: Seq<MdEventView>) -> Option<(u8, Seq<char>)> {
    scan_heading(events, None)
}

/// Captures the first heading of an event stream.
pub fn first_heading(events: &Vec<MdEvent>) -> (h: Option<FirstHeading>)
    ensures
        heading_view(h) == first_heading_of(events_view(events@)),
{
    let ghost evs = events_view(events@);
    let mut open = false;
    let mut level: u8 = 0;
    let mut buf = String::new();
    let mut i: usize = 0;
    assert(evs.skip(0) == evs);
    while i < events.len()
        invariant
            evs == events_view(events@),
            i <= events@.len(),
            first_heading_of(evs) == scan_heading(
                evs.skip(i as int),
                if open {
                    Some((level, buf@))
                } else {
                    None
                },
            ),
        decreases events@.len() - i,
    {
        assert(evs.skip(i as int)[0] == events@[i as int]@);
        assert(evs.skip(i as int).drop_first() == evs.skip(i + 1));
        match &events[i] {
            MdEvent::HeadingStart(l) => {
                if !open {
                    open = true;
                    level = *l;
                    buf = String::new();
                }
            },
            MdEvent::InlineText(s) => {
                if open {
                    buf.append(s.as_str());
                }
            },
            MdEvent::HeadingEnd(l) => {
                if open && *l == level {
                    return Some(FirstHeading { level, text: buf });
                }
            },
            MdEvent::Other => {},
        }
        i = i + 1;
    }
    None
}

/// Renders a slide's markdown and captures its first heading, from one
/// parse of the text.
pub fn render_markdown_with_heading(markdown: &str) -> (r: (String, Option<FirstHeading>))
    ensures
        r.0@ == slide_markup(markdown@),
        heading_view(r.1) == first_heading_of(slide_events(markdown@)),
        r.1 matches Some(h) ==> 1 <= h.level <= 6,
{
    let events = parse_events(markdown, true, true, true);
    let html = render_markdown(markdown);
    let heading = first_heading(&events);
    proof {
        lemma_scan_levels(events_view(events@), None);
    }
    (html, heading)
}

/// A completed heading has the level of a heading start in the stream.
proof fn lemma_scan_levels(events: Seq<MdEventView>, open: Option<(u8, Seq<char>)>)
    requires
        forall|i: int| 0 <= i < events.len() ==> level_in_range(#[trigger] events[i]),
        open matches Some((l, _)) ==> 1 <= l <= 6,
    ensures
        scan_heading(events, open) matches Some((l, _)) ==> 1 <= l <= 6,
    decreases events.len(),
{
    if events.len() > 0 {
        assert(level_in_range(events[0]));
        let rest = events.drop_first();
        assert forall|i: int| 0 <= i < rest.len() implies level_in_range(#[trigger] rest[i]) by {
            assert(rest[i] == events[i + 1]);
        }
        match open {
            None => match events[0] {
                MdEventView::HeadingStart(l) => lemma_scan_levels(rest, Some((l, Seq::empty()))),
                _ => lemma_scan_levels(rest, None),
            },
            Some((l, t)) => match events[0] {
                MdEventView::InlineText(s) => lemma_scan_levels(rest, Some((l, t + s))),
                MdEventView::HeadingEnd(e) => if e != l {
                    lemma_scan_levels(rest, open)
                },
                _ => lemma_scan_levels(rest, open),
            },
        }
    }
}

} // verus!

verus! {

/// The text that one event contributes to a heading: that of a `Text` or
/// `Code` event, nothing for any other.
pub open spec fn text_piece(e: MdEventView) -> Seq<char> {
    match e {
        MdEventView::InlineText(s) => s,
        _ => Seq::empty(),
    }
}

/// The `Text` and `Code` text of `events`, concatenated in order.
pub open spec fn inline_text(events: Seq<MdEventView>) -> Seq<char>
    decreases events.len(),
{
    if events.len() == 0 {
        Seq::empty()
    } else {
        text_piece(events[0]) + inline_text(events.drop_first())
    }
}

/// `a` is the first heading start of `events`, of level `l`, and `b` the
/// first end tag of level `l` after it.
pub open spec fn first_heading_span(events: Seq<MdEventView>, a: int, b: int, l: u8) -> bool {
    &&& 0 <= a < b < events.len()
    &&& events[a] == MdEventView::HeadingStart(l)
    &&& forall|i: int| 0 <= i < a ==> !(#[trigger] events[i] is HeadingStart)
    &&& events[b] == MdEventView::HeadingEnd(l)
    &&& forall|i: int| a < i < b ==> #[trigger] events[i] != MdEventView::HeadingEnd(l)
}

proof fn lemma_scan_open(events: Seq<MdEventView>, l: u8, t: Seq<char>, b: int)
    requires
        0 <= b < events.len(),
        events[b] == MdEventView::HeadingEnd(l),
        forall|i: int| 0 <= i < b ==> #[trigger] events[i] != MdEventView::HeadingEnd(l),
    ensures
        scan_heading(events, Some((l, t))) == Some((l, t + inline_text(events.take(b)))),
    decreases events.len(),
{
    let rest = events.drop_first();
    if b == 0 {
        assert(events.take(0) == Seq::<MdEventView>::empty());
        assert(t + Seq::<char>::empty() == t);
    } else {
        assert forall|i: int| 0 <= i < b - 1 implies #[trigger] rest[i] != MdEventView::HeadingEnd(l) by {
            assert(rest[i] == events[i + 1]);
        }
        assert(rest[b - 1] == events[b]);
        let p = text_piece(events[0]);
        lemma_scan_open(rest, l, t + p, b - 1);
        assert(events.take(b)[0] == events[0]);
        assert(events.take(b).drop_first() == rest.take(b - 1));
        assert(inline_text(events.take(b)) == p + inline_text(rest.take(b - 1)));
        assert(t + p + inline_text(rest.take(b - 1)) == t + (p + inline_text(rest.take(b - 1))));
        match events[0] {
            MdEventView::InlineText(s) => {},
            MdEventView::HeadingEnd(e) => {
                assert(e != l);
                assert(t + p == t);
            },
            _ => {
                assert(t + p == t);
            },
        }
    }
}

proof fn lemma_scan_none_end(events: Seq<MdEventView>, l: u8, t: Seq<char>)
    requires
        forall|i: int| 0 <= i < events.len() ==> #[trigger] events[i] != MdEventView::HeadingEnd(l),
    ensures
        scan_heading(events, Some((l, t))) is None,
    decreases events.len(),
{
    if events.len() > 0 {
        let rest = events.drop_first();
        assert forall|i: int| 0 <= i < rest.len() implies #[trigger] rest[i] != MdEventView::HeadingEnd(l) by {
            assert(rest[i] == events[i + 1]);
        }
        lemma_scan_none_end(rest, l, t + text_piece(events[0]));
        lemma_scan_none_end(rest, l, t);
    }
}

proof fn lemma_scan_skip(events: Seq<MdEventView>, a: int)
    requires
        0 <= a <= events.len(),
        forall|i: int| 0 <= i < a ==> !(#[trigger] events[i] is HeadingStart),
    ensures
        scan_heading(events, None) == scan_heading(events.skip(a), None),
    decreases a,
{
    if a > 0 {
        let rest = events.drop_first();
        assert(!(events[0] is HeadingStart));
        assert forall|i: int| 0 <= i < a - 1 implies !(#[trigger] rest[i] is HeadingStart) by {
            assert(rest[i] == events[i + 1]);
        }
        lemma_scan_skip(rest, a - 1);
        assert(rest.skip(a - 1) == events.skip(a));
    } else {
        assert(events.skip(0) == events);
    }
}

/// Law: the captured heading is the first heading of the stream, with its
/// level and the concatenation of every `Text` and `Code` event between its
/// start and its end, whatever other events (emphasis, links, ...) lie
/// between them. A stream with no heading start has none, and neither has a
/// stream whose first heading is never closed.
pub proof fn law_first_heading_text(events: Seq<MdEventView>)
    ensures
        forall|a: int, b: int, l: u8|
            first_heading_span(events, a, b, l) ==> first_heading_of(events) == Some(
                (l, inline_text(events.subrange(a + 1, b))),
            ),
        (forall|i: int| 0 <= i < events.len() ==> !(#[trigger] events[i] is HeadingStart))
            ==> first_heading_of(events) is None,
        forall|a: int, l: u8|
            0 <= a < events.len() && events[a] == MdEventView::HeadingStart(l) && (forall|i: int|
                0 <= i < a ==> !(#[trigger] events[i] is HeadingStart)) && (forall|i: int|
                a < i < events.len() ==> #[trigger] events[i] != MdEventView::HeadingEnd(l))
                ==> first_heading_of(events) is None,
{
    assert forall|a: int, b: int, l: u8|
        first_heading_span(events, a, b, l) implies first_heading_of(events) == Some(
            (l, inline_text(events.subrange(a + 1, b))),
        ) by {
        lemma_scan_skip(events, a);
        let s = events.skip(a);
        assert(s[0] == events[a]);
        let r = s.drop_first();
        assert(r == events.skip(a + 1));
        assert forall|i: int| 0 <= i < b - a - 1 implies #[trigger] r[i] != MdEventView::HeadingEnd(l) by {
            assert(r[i] == events[a + 1 + i]);
        }
        assert(r[b - a - 1] == events[b]);
        lemma_scan_open(r, l, Seq::empty(), b - a - 1);
        assert(r.take(b - a - 1) == events.subrange(a + 1, b));
        assert(Seq::<char>::empty() + inline_text(r.take(b - a - 1)) == inline_text(r.take(b - a - 1)));
    }
    if forall|i: int| 0 <= i < events.len() ==> !(#[trigger] events[i] is HeadingStart) {
        lemma_scan_skip(events, events.len() as int);
        assert(events.skip(events.len() as int).len() == 0);
    }
    assert forall|a: int, l: u8|
        0 <= a < events.len() && events[a] == MdEventView::HeadingStart(l) && (forall|i: int|
            0 <= i < a ==> !(#[trigger] events[i] is HeadingStart)) && (forall|i: int|
            a < i < events.len() ==> #[trigger] events[i] != MdEventView::HeadingEnd(l))
            implies first_heading_of(events) is None by {
        lemma_scan_skip(events, a);
        let s = events.skip(a);
        assert(s[0] == events[a]);
        let r = s.drop_first();
        assert forall|i: int| 0 <= i < r.len() implies #[trigger] r[i] != MdEventView::HeadingEnd(l) by {
            assert(r[i] == events[a + 1 + i]);
        }
        lemma_scan_none_end(r, l, Seq::empty());
    }
}

} // verus!
