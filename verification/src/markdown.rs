//! Markdown body parsing.
//!
//! The body is tokenised by `pulldown-cmark`; this module reduces the event
//! stream to a title, a description and the local links with their positions.

use crate::text::{
    chars_of, check_at, lemma_newlines_bound, lemma_newlines_concat, newlines, push_all,
    starts_with, string_of, trim, trimmed,
};
use pulldown_cmark::{Event, HeadingLevel, Options, Parser, Tag, TagEnd};
use vstd::prelude::*;

verus! {

/// A link found in the markdown document.
#[derive(Debug, Clone, PartialEq)]
pub struct ParsedLink {
    /// The link target (URL or path), as written.
    pub target: String,
    /// 1-based line number where the link starts.
    pub line: usize,
    /// 1-based column number where the link starts.
    pub column: usize,
}

/// The mathematical content of a [`ParsedLink`].
pub struct LinkModel {
    pub target: Seq<char>,
    pub line: nat,
    pub column: nat,
}

impl View for ParsedLink {
    type V = LinkModel;

    open spec fn view(&self) -> LinkModel {
        LinkModel { target: self.target@, line: self.line as nat, column: self.column as nat }
    }
}

impl DeepView for ParsedLink {
    type V = LinkModel;

    open spec fn deep_view(&self) -> LinkModel {
        self@
    }
}

/// Parsed content extracted from a markdown document.
#[derive(Debug, Clone, Default)]
pub struct ParsedMarkdown {
    /// The document title (first level-1 heading).
    pub title: Option<String>,
    /// Description (first paragraph after the title).
    pub description: Option<String>,
    /// Local links found in the document, in document order.
    pub links: Vec<ParsedLink>,
}

/// The mathematical content of a [`ParsedMarkdown`].
pub struct MarkdownModel {
    pub title: Option<Seq<char>>,
    pub description: Option<Seq<char>>,
    pub links: Seq<LinkModel>,
}

impl View for ParsedMarkdown {
    type V = MarkdownModel;

    open spec fn view(&self) -> MarkdownModel {
        MarkdownModel {
            title: self.title.deep_view(),
            description: self.description.deep_view(),
            links: self.links.deep_view(),
        }
    }
}

/// What the reduction reads of one parser event.
#[derive(Debug, Clone, PartialEq)]
pub enum MarkupEvent {
    /// A level-1 heading opens.
    HeadingOpen,
    /// A level-1 heading closes.
    HeadingClose,
    /// A paragraph opens.
    ParagraphOpen,
    /// A paragraph closes.
    ParagraphClose,
    /// Plain text or the content of an inline code span.
    Text(String),
    /// A link opens; `offset` is the byte offset at which its source starts.
    Link { dest: String, offset: usize },
    /// Any other event.
    Other,
}

/// The mathematical content of a [`MarkupEvent`].
pub enum EventModel {
    HeadingOpen,
    HeadingClose,
    ParagraphOpen,
    ParagraphClose,
    Text(Seq<char>),
    Link { dest: Seq<char>, offset: nat },
    Other,
}

impl View for MarkupEvent {
    type V = EventModel;

    open spec fn view(&self) -> EventModel {
        match self {
            MarkupEvent::HeadingOpen => EventModel::HeadingOpen,
            MarkupEvent::HeadingClose => EventModel::HeadingClose,
            MarkupEvent::ParagraphOpen => EventModel::ParagraphOpen,
            MarkupEvent::ParagraphClose => EventModel::ParagraphClose,
            MarkupEvent::Text(t) => EventModel::Text(t@),
            MarkupEvent::Link { dest, offset } => EventModel::Link {
                dest: dest@,
                offset: *offset as nat,
            },
            MarkupEvent::Other => EventModel::Other,
        }
    }
}

impl DeepView for MarkupEvent {
    type V = EventModel;

    open spec fn deep_view(&self) -> EventModel {
        self@
    }
}

/// The events that `pulldown-cmark` yields for `content` with no extension
/// enabled, each reduced to an [`EventModel`].
pub uninterp spec fn markup_events(content: Seq<char>) -> Seq<EventModel>;

/// Runs `pulldown_cmark::Parser::new_ext(content, Options::empty())` as an
/// offset iterator and records every event it yields, in order. A level-1
/// heading start or end, a paragraph start or end, text, inline code and a link
/// start keep their kind (and text, or destination and start offset); every
/// other event becomes `Other`. The tokenisation itself is not specified here:
/// the sequence is only given the name [`markup_events`].
#[verifier::external_body]
pub(crate) fn read_events(content: &str) -> (events: Vec<MarkupEvent>)
    ensures
        events.deep_view() == markup_events(content@),
{
    let mut events = Vec::new();
    for (event, range) in Parser::new_ext(content, Options::empty()).into_offset_iter() {
        events.push(match event {
            Event::Start(Tag::Heading { level: HeadingLevel::H1, .. }) => MarkupEvent::HeadingOpen,
            Event::End(TagEnd::Heading(HeadingLevel::H1)) => MarkupEvent::HeadingClose,
            Event::Start(Tag::Paragraph) => MarkupEvent::ParagraphOpen,
            Event::End(TagEnd::Paragraph) => MarkupEvent::ParagraphClose,
            Event::Text(text) | Event::Code(text) => MarkupEvent::Text(text.to_string()),
            Event::Start(Tag::Link { dest_url, .. }) => MarkupEvent::Link { dest: dest_url.to_string(), offset: range.start },
            _ => MarkupEvent::Other,
        });
    }
    events
}

/// Position in a document (1-based line and column).
#[derive(Debug, Clone, Copy, PartialEq, Eq)]
pub struct Position {
    pub line: usize,
    pub column: usize,
}

/// The number of bytes that the UTF-8 encoding of `c` takes.
pub open spec fn utf8_width(c: char) -> nat {
    if (c as u32) < 0x80 {
        1
    } else if (c as u32) < 0x800 {
        2
    } else if (c as u32) < 0x10000 {
        3
    } else {
        4
    }
}

/// The number of bytes that the UTF-8 encoding of `s` takes.
pub open spec fn byte_len(s: Seq<char>) -> nat
    decreases s.len(),
{
    if s.len() == 0 {
        0
    } else {
        byte_len(s.drop_last()) + utf8_width(s.last())
    }
}

/// The number of characters of `s` whose encoding starts before byte `offset`.
pub open spec fn chars_before(s: Seq<char>, offset: nat) -> nat
    decreases s.len(),
{
    if s.len() == 0 {
        0
    } else if byte_len(s.drop_last()) < offset {
        s.len()
    } else {
        chars_before(s.drop_last(), offset)
    }
}

/// The number of characters after the last line feed of `s` (all of them if
/// there is none).
pub open spec fn tail_len(s: Seq<char>) -> nat
    decreases s.len(),
{
    if s.len() == 0 || s.last() == '\n' {
        0
    } else {
        tail_len(s.drop_last()) + 1
    }
}

/// The 1-based line of byte `offset` in `s`: one more than the line feeds
/// before it.
pub open spec fn line_at(s: Seq<char>, offset: nat) -> nat {
    newlines(s.take(chars_before(s, offset) as int)) + 1
}

/// The 1-based column of byte `offset` in `s`: one more than the characters
/// between the preceding line feed and the offset.
pub open spec fn column_at(s: Seq<char>, offset: nat) -> nat {
    tail_len(s.take(chars_before(s, offset) as int)) + 1
}

/// The largest `usize` not above `n`.
pub open spec fn clamp(n: nat) -> usize {
    if n > usize::MAX {
        usize::MAX
    } else {
        n as usize
    }
}

/// The encoded length grows with the prefix.
pub proof fn lemma_byte_len_monotone(s: Seq<char>, i: int, j: int)
    requires
        0 <= i <= j <= s.len(),
    ensures
        byte_len(s.take(i)) + (j - i) <= byte_len(s.take(j)),
    decreases j - i,
{
    if i < j {
        lemma_byte_len_monotone(s, i, j - 1);
        assert(s.take(j).drop_last() == s.take(j - 1));
    }
}

/// `chars_before` is the one index at which the encoded prefix first reaches
/// the offset.
pub proof fn lemma_chars_before(s: Seq<char>, offset: nat, i: int)
    requires
        0 <= i <= s.len(),
        i > 0 ==> byte_len(s.take(i - 1)) < offset,
        i < s.len() ==> byte_len(s.take(i)) >= offset,
    ensures
        chars_before(s, offset) == i,
    decreases s.len(),
{
    if s.len() == 0 {
    } else if i == s.len() {
        assert(s.take(i - 1) == s.drop_last());
    } else {
        lemma_byte_len_monotone(s, i, s.len() - 1);
        assert(s.take(s.len() - 1) == s.drop_last());
        let t = s.drop_last();
        assert(t.take(i) == s.take(i));
        if i > 0 {
            assert(t.take(i - 1) == s.take(i - 1));
        }
        lemma_chars_before(t, offset, i);
    }
}

/// The number of bytes that the UTF-8 encoding of `c` takes.
pub fn width_of(c: char) -> (w: usize)
    ensures
        w == utf8_width(c),
{
    let code: u32 = c as u32;
    if code < 0x80 {
        1
    } else if code < 0x800 {
        2
    } else if code < 0x10000 {
        3
    } else {
        4
    }
}

/// Convert a byte offset to a 1-based line and column number.
///
/// Lines are counted by line feeds and columns by characters; an offset past
/// the end addresses the end. Both numbers saturate at `usize::MAX`.
pub fn offset_to_position(content: &str, offset: usize) -> (pos: Position)
    ensures
        pos.line == clamp(line_at(content@, offset as nat)),
        pos.column == clamp(column_at(content@, offset as nat)),
{
    let chars = chars_of(content);
    locate(&chars, offset)
}

/// [`offset_to_position`] on characters.
pub fn locate(chars: &Vec<char>, offset: usize) -> (pos: Position)
    ensures
        pos.line == clamp(line_at(chars@, offset as nat)),
        pos.column == clamp(column_at(chars@, offset as nat)),
{
    let ghost s = chars@;
    let mut i: usize = 0;
    let mut remaining: usize = offset;
    let mut lines: usize = 0;
    let mut tail: usize = 0;
    while i < chars.len() && remaining > 0
        invariant
            s == chars@,
            i <= chars.len(),
            i > 0 ==> byte_len(s.take(i - 1)) < offset,
            remaining > 0 ==> remaining == offset - byte_len(s.take(i as int)),
            remaining == 0 ==> byte_len(s.take(i as int)) >= offset,
            lines == newlines(s.take(i as int)),
            tail == tail_len(s.take(i as int)),
            tail <= i,
        decreases chars.len() - i,
    {
        let c = chars[i];
        let w = width_of(c);
        proof {
            assert(s.take(i + 1).drop_last() == s.take(i as int));
            lemma_newlines_bound(s.take(i as int));
        }
        remaining = if remaining >= w {
            remaining - w
        } else {
            0
        };
        if c == '\n' {
            lines += 1;
            tail = 0;
        } else {
            tail += 1;
        }
        i += 1;
    }
    proof {
        lemma_chars_before(s, offset as nat, i as int);
    }
    Position {
        line: if lines < usize::MAX {
            lines + 1
        } else {
            usize::MAX
        },
        column: if tail < usize::MAX {
            tail + 1
        } else {
            usize::MAX
        },
    }
}

/// A link destination that is kept: not empty and not an absolute web URL.
pub open spec fn is_local(dest: Seq<char>) -> bool {
    &&& dest.len() > 0
    &&& !starts_with(dest, "http://"@)
    &&& !starts_with(dest, "https://"@)
}

/// The state of the reduction between two events.
pub struct Scan {
    pub title: Option<Seq<char>>,
    pub description: Option<Seq<char>>,
    pub links: Seq<LinkModel>,
    /// Inside the heading that may become the title.
    pub in_heading: bool,
    /// Inside the paragraph that may become the description.
    pub in_paragraph: bool,
    pub heading_text: Seq<char>,
    pub paragraph_text: Seq<char>,
}

/// The state before the first event.
pub open spec fn scan_start() -> Scan {
    Scan {
        title: None,
        description: None,
        links: Seq::empty(),
        in_heading: false,
        in_paragraph: false,
        heading_text: Seq::empty(),
        paragraph_text: Seq::empty(),
    }
}

/// The effect of one event.
///
/// A level-1 heading is collected while no title is known, and gives the title
/// when it closes with text left after trimming. A paragraph is collected once
/// the title is known and while no description is; text and inline code add to
/// whichever is being collected. Every local link is recorded at the position
/// of its offset in `content`.
pub open spec fn scan_step(s: Scan, e: EventModel, content: Seq<char>) -> Scan {
    match e {
        EventModel::HeadingOpen => if s.title is None {
            Scan { in_heading: true, ..s }
        } else {
            s
        },
        EventModel::HeadingClose => if s.in_heading {
            if trim(s.heading_text).len() > 0 {
                Scan { in_heading: false, title: Some(trim(s.heading_text)), ..s }
            } else {
                Scan { in_heading: false, ..s }
            }
        } else {
            s
        },
        EventModel::ParagraphOpen => if s.title is Some && s.description is None {
            Scan { in_paragraph: true, ..s }
        } else {
            s
        },
        EventModel::ParagraphClose => if s.in_paragraph {
            if trim(s.paragraph_text).len() > 0 {
                Scan { in_paragraph: false, description: Some(trim(s.paragraph_text)), ..s }
            } else {
                Scan { in_paragraph: false, ..s }
            }
        } else {
            s
        },
        EventModel::Text(t) => if s.in_heading {
            Scan { heading_text: s.heading_text + t, ..s }
        } else if s.in_paragraph {
            Scan { paragraph_text: s.paragraph_text + t, ..s }
        } else {
            s
        },
        EventModel::Link { dest, offset } => if is_local(dest) {
            Scan {
                links: s.links.push(
                    LinkModel {
                        target: dest,
                        line: clamp(line_at(content, offset)) as nat,
                        column: clamp(column_at(content, offset)) as nat,
                    },
                ),
                ..s
            }
        } else {
            s
        },
        EventModel::Other => s,
    }
}

/// The state after all of `events`.
pub open spec fn scan(events: Seq<EventModel>, content: Seq<char>) -> Scan
    decreases events.len(),
{
    if events.len() == 0 {
        scan_start()
    } else {
        scan_step(scan(events.drop_last(), content), events.last(), content)
    }
}

/// What a document with the given events yields.
pub open spec fn outcome(events: Seq<EventModel>, content: Seq<char>) -> MarkdownModel {
    let s = scan(events, content);
    MarkdownModel { title: s.title, description: s.description, links: s.links }
}

/// Reduces the events of `content` to its title, description and local links.
pub fn extract(content: &str, events: &Vec<MarkupEvent>) -> (result: ParsedMarkdown)
    ensures
        result@ == outcome(events.deep_view(), content@),
{
    let chars = chars_of(content);
    let http = chars_of("http://");
    let https = chars_of("https://");
    let mut title: Option<String> = None;
    let mut description: Option<String> = None;
    let mut links: Vec<ParsedLink> = Vec::new();
    let mut in_heading = false;
    let mut in_paragraph = false;
    let mut heading_text: Vec<char> = Vec::new();
    let mut paragraph_text: Vec<char> = Vec::new();
    let ghost all = events.deep_view();
    let mut i: usize = 0;
    assert(links.deep_view() == Seq::<LinkModel>::empty());
    while i < events.len()
        invariant
            i <= events.len(),
            all == events.deep_view(),
            chars@ == content@,
            http@ == "http://"@,
            https@ == "https://"@,
            scan(all.take(i as int), content@) == (Scan {
                title: title.deep_view(),
                description: description.deep_view(),
                links: links.deep_view(),
                in_heading,
                in_paragraph,
                heading_text: heading_text@,
                paragraph_text: paragraph_text@,
            }),
        decreases events.len() - i,
    {
        proof {
            assert(all.take(i + 1).drop_last() == all.take(i as int));
            assert(all.take(i + 1).last() == events[i as int]@);
        }
        match &events[i] {
            MarkupEvent::HeadingOpen => {
                if title.is_none() {
                    in_heading = true;
                }
            },
            MarkupEvent::HeadingClose => {
                if in_heading {
                    in_heading = false;
                    let text = trimmed(&heading_text);
                    if text.len() > 0 {
                        title = Some(string_of(&text));
                    }
                }
            },
            MarkupEvent::ParagraphOpen => {
                if title.is_some() && description.is_none() {
                    in_paragraph = true;
                }
            },
            MarkupEvent::ParagraphClose => {
                if in_paragraph {
                    in_paragraph = false;
                    let text = trimmed(&paragraph_text);
                    if text.len() > 0 {
                        description = Some(string_of(&text));
                    }
                }
            },
            MarkupEvent::Text(t) => {
                if in_heading {
                    let extra = chars_of(t.as_str());
                    push_all(&mut heading_text, &extra);
                } else if in_paragraph {
                    let extra = chars_of(t.as_str());
                    push_all(&mut paragraph_text, &extra);
                }
            },
            MarkupEvent::Link { dest, offset } => {
                let target = chars_of(dest.as_str());
                if target.len() > 0 && !check_at(&target, &http, 0) && !check_at(
                    &target,
                    &https,
                    0,
                ) {
                    let pos = locate(&chars, *offset);
                    let ghost before = links.deep_view();
                    let link = ParsedLink {
                        target: dest.clone(),
                        line: pos.line,
                        column: pos.column,
                    };
                    links.push(link);
                    assert(links.deep_view() == before.push(link@));
                }
            },
            MarkupEvent::Other => {},
        }
        i += 1;
    }
    assert(all.take(events.len() as int) == all);
    ParsedMarkdown { title, description, links }
}

/// Parse markdown content and extract title, description, and links.
pub fn parse(content: &str) -> (result: ParsedMarkdown)
    ensures
        result@ == outcome(markup_events(content@), content@),
{
    let events = read_events(content);
    extract(content, &events)
}

/// No level-1 heading opens among `events`.
pub open spec fn no_heading(events: Seq<EventModel>) -> bool {
    forall|i: int| 0 <= i < events.len() ==> !(#[trigger] events[i] is HeadingOpen)
}

/// The texts among `events`, joined in order.
pub open spec fn flattened(events: Seq<EventModel>) -> Seq<char>
    decreases events.len(),
{
    if events.len() == 0 {
        Seq::empty()
    } else {
        match events.last() {
            EventModel::Text(t) => flattened(events.drop_last()) + t,
            _ => flattened(events.drop_last()),
        }
    }
}

/// The first level-1 heading of `events` opens at `open` and closes at
/// `close`.
pub open spec fn first_heading(events: Seq<EventModel>, open: int, close: int) -> bool {
    &&& 0 <= open < close < events.len()
    &&& events[open] is HeadingOpen
    &&& events[close] is HeadingClose
    &&& no_heading(events.take(open))
    &&& forall|i: int| open < i < close ==> !(#[trigger] events[i] is HeadingClose)
}

/// The flattened text between the two ends of a heading.
pub open spec fn text_between(events: Seq<EventModel>, open: int, close: int) -> Seq<char> {
    flattened(events.subrange(open + 1, close))
}

/// Once a title is known, no heading is being collected.
pub proof fn lemma_titled_is_closed(events: Seq<EventModel>, content: Seq<char>)
    ensures
        scan(events, content).title is Some ==> !scan(events, content).in_heading,
    decreases events.len(),
{
    if events.len() > 0 {
        lemma_titled_is_closed(events.drop_last(), content);
    }
}

/// A title, once found, stays: later events do not change it.
pub proof fn lemma_title_stays(events: Seq<EventModel>, content: Seq<char>, upto: int)
    requires
        0 <= upto <= events.len(),
        scan(events.take(upto), content).title is Some,
    ensures
        scan(events, content).title == scan(events.take(upto), content).title,
    decreases events.len() - upto,
{
    if upto == events.len() {
        assert(events.take(upto) == events);
    } else {
        let rest = events.drop_last();
        assert(rest.take(upto) == events.take(upto));
        lemma_title_stays(rest, content, upto);
        lemma_titled_is_closed(rest, content);
    }
}

/// Without a level-1 heading nothing is collected: there is no title, and
/// hence no description.
pub proof fn lemma_no_heading_no_title(events: Seq<EventModel>, content: Seq<char>)
    requires
        no_heading(events),
    ensures
        scan(events, content).title is None,
        scan(events, content).description is None,
        !scan(events, content).in_heading,
        !scan(events, content).in_paragraph,
        scan(events, content).heading_text.len() == 0,
    decreases events.len(),
{
    if events.len() > 0 {
        let rest = events.drop_last();
        assert forall|i: int| 0 <= i < rest.len() implies !(#[trigger] rest[i] is HeadingOpen) by {
            assert(rest[i] == events[i]);
        }
        lemma_no_heading_no_title(rest, content);
        assert(!(events[events.len() - 1] is HeadingOpen));
    }
}

/// Inside the first heading the reduction collects its flattened text.
pub proof fn lemma_inside_first_heading(
    events: Seq<EventModel>,
    content: Seq<char>,
    open: int,
    close: int,
    upto: int,
)
    requires
        first_heading(events, open, close),
        open < upto <= close,
    ensures
        scan(events.take(upto), content).title is None,
        scan(events.take(upto), content).in_heading,
        scan(events.take(upto), content).heading_text == flattened(
            events.subrange(open + 1, upto),
        ),
    decreases upto,
{
    let before = events.take(upto).drop_last();
    assert(before == events.take(upto - 1));
    assert(events.take(upto).last() == events[upto - 1]);
    if upto == open + 1 {
        lemma_no_heading_no_title(events.take(open), content);
        assert(events.subrange(open + 1, upto) == Seq::<EventModel>::empty());
    } else {
        lemma_inside_first_heading(events, content, open, close, upto - 1);
        assert(!(events[upto - 1] is HeadingClose));
        let inner = events.subrange(open + 1, upto);
        assert(inner.drop_last() == events.subrange(open + 1, upto - 1));
        assert(inner.last() == events[upto - 1]);
    }
}

/// The title is the trimmed text of the first level-1 heading, where that
/// text is not blank.
pub proof fn lemma_first_heading_is_title(
    events: Seq<EventModel>,
    content: Seq<char>,
    open: int,
    close: int,
)
    requires
        first_heading(events, open, close),
        trim(text_between(events, open, close)).len() > 0,
    ensures
        scan(events, content).title == Some(trim(text_between(events, open, close))),
{
    lemma_inside_first_heading(events, content, open, close, close);
    let closed = events.take(close + 1);
    assert(closed.drop_last() == events.take(close));
    assert(closed.last() == events[close]);
    lemma_title_stays(events, content, close + 1);
}

/// The encoded length of two texts in a row is the sum of their lengths.
pub proof fn lemma_byte_len_concat(a: Seq<char>, b: Seq<char>)
    ensures
        byte_len(a + b) == byte_len(a) + byte_len(b),
    decreases b.len(),
{
    if b.len() == 0 {
        assert(a + b == a);
    } else {
        lemma_byte_len_concat(a, b.drop_last());
        assert((a + b).drop_last() == a + b.drop_last());
    }
}

/// What `chars_before` returns: the encoded prefix before it ends before the
/// offset, and the prefix up to it reaches the offset unless it is the whole
/// text.
pub proof fn lemma_chars_before_bounds(s: Seq<char>, offset: nat)
    ensures
        0 <= chars_before(s, offset) <= s.len(),
        chars_before(s, offset) > 0 ==> byte_len(s.take(chars_before(s, offset) - 1)) < offset,
        chars_before(s, offset) < s.len() ==> byte_len(s.take(chars_before(s, offset) as int))
            >= offset,
    decreases s.len(),
{
    if s.len() == 0 {
    } else if byte_len(s.drop_last()) < offset {
        assert(s.take(s.len() - 1) == s.drop_last());
    } else {
        let t = s.drop_last();
        lemma_chars_before_bounds(t, offset);
        let i = chars_before(t, offset) as int;
        if i > 0 {
            assert(t.take(i - 1) == s.take(i - 1));
        }
        if i < t.len() {
            assert(t.take(i) == s.take(i));
        } else {
            assert(s.take(i) == t);
        }
    }
}

/// Behind a text that is empty or ends a line, the column counts from the
/// start of what follows.
pub proof fn lemma_tail_len_after_line(a: Seq<char>, b: Seq<char>)
    requires
        a.len() == 0 || a.last() == '\n',
    ensures
        tail_len(a + b) == tail_len(b),
    decreases b.len(),
{
    if b.len() == 0 {
        assert(a + b == a);
    } else {
        lemma_tail_len_after_line(a, b.drop_last());
        assert((a + b).drop_last() == a + b.drop_last());
        assert((a + b).last() == b.last());
    }
}

/// Positions carry over from the rest of a text to the whole of it.
///
/// Let the text be cut at a character index that is its start or follows a
/// line feed. A byte offset into the part behind the cut then lies, in the
/// whole text, as many lines further down as the part before the cut holds
/// line feeds, and in the same column.
pub proof fn lemma_position_behind_cut(s: Seq<char>, cut: int, offset: nat)
    requires
        0 <= cut <= s.len(),
        cut == 0 || s[cut - 1] == '\n',
    ensures
        line_at(s, byte_len(s.take(cut)) + offset) == newlines(s.take(cut)) + line_at(
            s.skip(cut),
            offset,
        ),
        column_at(s, byte_len(s.take(cut)) + offset) == column_at(s.skip(cut), offset),
{
    let head = s.take(cut);
    let rest = s.skip(cut);
    let base = byte_len(head);
    let k = chars_before(rest, offset) as int;
    lemma_chars_before_bounds(rest, offset);
    assert forall|j: int| 0 <= j <= rest.len() implies byte_len(#[trigger] s.take(cut + j))
        == base + byte_len(rest.take(j)) by {
        assert(s.take(cut + j) == head + rest.take(j));
        lemma_byte_len_concat(head, rest.take(j));
    }
    if k > 0 {
        assert(byte_len(s.take(cut + (k - 1))) == base + byte_len(rest.take(k - 1)));
    } else if cut > 0 {
        lemma_byte_len_monotone(s, cut - 1, cut);
    }
    if k < rest.len() {
        assert(byte_len(s.take(cut + k)) == base + byte_len(rest.take(k)));
    }
    lemma_chars_before(s, base + offset, cut + k);
    assert(s.take(cut + k) == head + rest.take(k));
    lemma_newlines_concat(head, rest.take(k));
    lemma_tail_len_after_line(head, rest.take(k));
}

/// The local links among `events`, in order, each at the line and column
/// that byte `base` plus its offset has in `text`.
pub open spec fn links_at(events: Seq<EventModel>, text: Seq<char>, base: nat) -> Seq<LinkModel>
    decreases events.len(),
{
    if events.len() == 0 {
        Seq::empty()
    } else {
        match events.last() {
            EventModel::Link { dest, offset } => if is_local(dest) {
                links_at(events.drop_last(), text, base).push(
                    LinkModel {
                        target: dest,
                        line: clamp(line_at(text, base + offset)) as nat,
                        column: clamp(column_at(text, base + offset)) as nat,
                    },
                )
            } else {
                links_at(events.drop_last(), text, base)
            },
            _ => links_at(events.drop_last(), text, base),
        }
    }
}

/// The links that the reduction records are the local links of the events, at
/// the positions of their offsets.
pub proof fn lemma_scan_links(events: Seq<EventModel>, content: Seq<char>)
    ensures
        scan(events, content).links == links_at(events, content, 0),
    decreases events.len(),
{
    if events.len() > 0 {
        lemma_scan_links(events.drop_last(), content);
    }
}

/// A title that the reduction finds is never empty.
pub proof fn lemma_title_not_empty(events: Seq<EventModel>, content: Seq<char>)
    ensures
        scan(events, content).title matches Some(t) ==> t.len() > 0,
    decreases events.len(),
{
    if events.len() > 0 {
        lemma_title_not_empty(events.drop_last(), content);
    }
}

} // verus!
