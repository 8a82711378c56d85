//! Topics: one indexed document with its derived fields.

use crate::frontmatter::{
    body_start_of, distinct_keys, lemma_body_start, parse_string_array, split, string_array,
    FrontmatterModel, FrontmatterResult,
};
use crate::markdown::{
    byte_len, clamp, first_heading, is_local, lemma_first_heading_is_title, lemma_no_heading_no_title,
    lemma_position_behind_cut, lemma_scan_links, links_at, markup_events, no_heading, outcome,
    text_between, EventModel, LinkModel, MarkdownModel, ParsedLink, ParsedMarkdown,
};
use crate::meta::{lookup, value_of, MetaModel, MetaValue};
use crate::paths::{file_stem, file_stem_of};
use crate::query::{FieldModel, FieldValue, Queryable};
use crate::text::{
    chars_of, decimal, decimal_chars, is_blank, join, join_chars, lemma_trim_empty_iff_blank,
    newlines, push_all, rows, str_eq, string_of, trim, trimmed,
};
use vstd::prelude::*;

verus! {

/// Validation warning for a topic.
#[derive(Debug, Clone, PartialEq)]
pub enum TopicWarning {
    MissingTitle,
    EmptyContent,
    /// Broken link with target, line, and column number.
    BrokenLink { target: String, line: usize, column: usize },
}

/// The mathematical content of a [`TopicWarning`].
pub enum WarningModel {
    MissingTitle,
    EmptyContent,
    BrokenLink { target: Seq<char>, line: nat, column: nat },
}

impl View for TopicWarning {
    type V = WarningModel;

    open spec fn view(&self) -> WarningModel {
        match self {
            TopicWarning::MissingTitle => WarningModel::MissingTitle,
            TopicWarning::EmptyContent => WarningModel::EmptyContent,
            TopicWarning::BrokenLink { target, line, column } => WarningModel::BrokenLink {
                target: target@,
                line: *line as nat,
                column: *column as nat,
            },
        }
    }
}

impl DeepView for TopicWarning {
    type V = WarningModel;

    open spec fn deep_view(&self) -> WarningModel {
        self@
    }
}

/// The text that a warning is shown as.
pub open spec fn warning_text(w: WarningModel) -> Seq<char> {
    match w {
        WarningModel::MissingTitle => "Missing title (no # heading)"@,
        WarningModel::EmptyContent => "Empty content"@,
        WarningModel::BrokenLink { target, line, column } => "Broken link: "@ + target
            + " (line "@ + decimal(line) + ", col "@ + decimal(column) + ")"@,
    }
}

/// What a warning says, without its position.
pub open spec fn summary_text(w: WarningModel) -> Seq<char> {
    match w {
        WarningModel::MissingTitle => "Missing title (no # heading)"@,
        WarningModel::EmptyContent => "Empty content"@,
        WarningModel::BrokenLink { target, .. } => "Broken link: "@ + target,
    }
}

/// The line and column that a warning points at; only a broken link has
/// them.
pub open spec fn position_of_warning(w: WarningModel) -> Option<(nat, nat)> {
    match w {
        WarningModel::BrokenLink { line, column, .. } => Some((line, column)),
        _ => None,
    }
}

impl TopicWarning {
    /// What the warning says, without its position.
    pub fn summary(&self) -> (out: String)
        ensures
            out@ == summary_text(self@),
    {
        match self {
            TopicWarning::MissingTitle => "Missing title (no # heading)".to_owned(),
            TopicWarning::EmptyContent => "Empty content".to_owned(),
            TopicWarning::BrokenLink { target, .. } => {
                let mut out = chars_of("Broken link: ");
                push_all(&mut out, &chars_of(target.as_str()));
                string_of(&out)
            },
        }
    }

    /// The line and column that the warning points at, if it has them.
    pub fn position(&self) -> (at: Option<(usize, usize)>)
        ensures
            match at {
                Some((line, column)) => position_of_warning(self@) == Some(
                    (line as nat, column as nat),
                ),
                None => position_of_warning(self@) is None,
            },
    {
        match self {
            TopicWarning::BrokenLink { line, column, .. } => Some((*line, *column)),
            _ => None,
        }
    }

    /// The warning as a line of text.
    pub fn message(&self) -> (out: String)
        ensures
            out@ == warning_text(self@),
    {
        match self {
            TopicWarning::MissingTitle => "Missing title (no # heading)".to_owned(),
            TopicWarning::EmptyContent => "Empty content".to_owned(),
            TopicWarning::BrokenLink { target, line, column } => {
                let mut out = chars_of("Broken link: ");
                push_all(&mut out, &chars_of(target.as_str()));
                push_all(&mut out, &chars_of(" (line "));
                push_all(&mut out, &decimal_chars(*line));
                push_all(&mut out, &chars_of(", col "));
                push_all(&mut out, &decimal_chars(*column));
                push_all(&mut out, &chars_of(")"));
                string_of(&out)
            },
        }
    }
}

/// A parsed topic with all its metadata.
#[derive(Debug)]
pub struct Topic {
    /// Where the topic was read from.
    pub path: String,
    pub title: String,
    /// Short description (first paragraph after the heading)
    pub description: Option<String>,
    /// Links found in the document (with line numbers relative to file start).
    pub links: Vec<ParsedLink>,
    /// All frontmatter fields for queries
    pub metadata: Vec<(String, MetaValue)>,
    /// Validation warnings
    pub warnings: Vec<TopicWarning>,
}

/// The mathematical content of a [`Topic`].
pub struct TopicModel {
    pub path: Seq<char>,
    pub title: Seq<char>,
    pub description: Option<Seq<char>>,
    pub links: Seq<LinkModel>,
    pub metadata: Seq<(Seq<char>, MetaModel)>,
    pub warnings: Seq<WarningModel>,
}

impl View for Topic {
    type V = TopicModel;

    open spec fn view(&self) -> TopicModel {
        TopicModel {
            path: self.path@,
            title: self.title@,
            description: self.description.deep_view(),
            links: self.links.deep_view(),
            metadata: self.metadata.deep_view(),
            warnings: self.warnings.deep_view(),
        }
    }
}

impl DeepView for Topic {
    type V = TopicModel;

    open spec fn deep_view(&self) -> TopicModel {
        self@
    }
}

/// What holds of every topic that this module builds: the title is not empty
/// and no metadata key occurs twice.
pub open spec fn well_formed(t: TopicModel) -> bool {
    &&& t.title.len() > 0
    &&& distinct_keys(t.metadata)
}

/// One link, moved down by `by` lines.
pub open spec fn lowered(link: LinkModel, by: nat) -> LinkModel {
    LinkModel { target: link.target, line: clamp(link.line + by) as nat, column: link.column }
}

/// The links, each moved down by `by` lines; columns stay.
pub open spec fn shifted(links: Seq<LinkModel>, by: nat) -> Seq<LinkModel> {
    Seq::new(links.len(), |i: int| lowered(links[i], by))
}

/// The title of a document without a heading: the file stem, or `Untitled`
/// where the path has none.
pub open spec fn fallback_title(stem: Option<Seq<char>>) -> Seq<char> {
    match stem {
        Some(s) => if s.len() > 0 {
            s
        } else {
            "Untitled"@
        },
        None => "Untitled"@,
    }
}

/// The warnings of a fresh topic: `EmptyContent` for a blank body, then
/// `MissingTitle` where no title was found.
pub open spec fn first_warnings(blank: bool, untitled: bool) -> Seq<WarningModel> {
    (if blank {
        seq![WarningModel::EmptyContent]
    } else {
        Seq::empty()
    }) + (if untitled {
        seq![WarningModel::MissingTitle]
    } else {
        Seq::empty()
    })
}

/// The topic put together from the split of a file, the reading of its body
/// and the stem of its path.
pub open spec fn assembled(
    path: Seq<char>,
    fm: FrontmatterModel,
    md: MarkdownModel,
    stem: Option<Seq<char>>,
) -> TopicModel {
    TopicModel {
        path,
        title: match md.title {
            Some(t) => t,
            None => fallback_title(stem),
        },
        description: md.description,
        links: shifted(md.links, fm.frontmatter_lines),
        metadata: fm.metadata,
        warnings: first_warnings(is_blank(fm.body), md.title is None),
    }
}

/// The topic that a file at `path` with the given content is.
pub open spec fn topic_of(path: Seq<char>, content: Seq<char>) -> TopicModel {
    let fm = split(content);
    assembled(path, fm, outcome(markup_events(fm.body), fm.body), file_stem_of(path))
}

/// The events of the body of `content`.
pub open spec fn body_events(content: Seq<char>) -> Seq<EventModel> {
    markup_events(split(content).body)
}

/// A document with a level-1 heading is titled by it.
///
/// Where the first level-1 heading of the body holds text that is not blank,
/// the title is that text, flattened and trimmed, and the topic carries no
/// `MissingTitle` warning.
pub proof fn lemma_heading_gives_title(
    path: Seq<char>,
    content: Seq<char>,
    open: int,
    close: int,
)
    requires
        first_heading(body_events(content), open, close),
        trim(text_between(body_events(content), open, close)).len() > 0,
    ensures
        topic_of(path, content).title == trim(text_between(body_events(content), open, close)),
        !topic_of(path, content).warnings.contains(WarningModel::MissingTitle),
{
    lemma_first_heading_is_title(body_events(content), split(content).body, open, close);
}

/// A document without a level-1 heading is titled by its file.
///
/// The title is then the stem of the path (`Untitled` where there is none),
/// there is no description, and the topic carries a `MissingTitle` warning.
pub proof fn lemma_no_heading_gives_stem(path: Seq<char>, content: Seq<char>)
    requires
        no_heading(body_events(content)),
    ensures
        topic_of(path, content).title == fallback_title(file_stem_of(path)),
        topic_of(path, content).description is None,
        topic_of(path, content).warnings.contains(WarningModel::MissingTitle),
{
    lemma_no_heading_no_title(body_events(content), split(content).body);
    let w = topic_of(path, content).warnings;
    assert(w[w.len() - 1] == WarningModel::MissingTitle);
}

/// A topic carries an `EmptyContent` warning if and only if its body is
/// blank, and a `MissingTitle` warning if and only if its body gave no title.
pub proof fn lemma_first_warnings(path: Seq<char>, content: Seq<char>)
    ensures
        topic_of(path, content).warnings.contains(WarningModel::EmptyContent) <==> is_blank(
            split(content).body,
        ),
        topic_of(path, content).warnings.contains(WarningModel::MissingTitle) <==> outcome(
            body_events(content),
            split(content).body,
        ).title is None,
{
    let w = topic_of(path, content).warnings;
    if is_blank(split(content).body) {
        assert(w[0] == WarningModel::EmptyContent);
    }
    if outcome(body_events(content), split(content).body).title is None {
        assert(w[w.len() - 1] == WarningModel::MissingTitle);
    }
}

/// Every link among `events` starts before byte `limit`.
pub open spec fn links_start_before(events: Seq<EventModel>, limit: nat) -> bool {
    forall|i: int|
        0 <= i < events.len() ==> (#[trigger] events[i] matches EventModel::Link { offset, .. }
            ==> offset < limit)
}

/// Links found behind a cut, moved down by the line feeds before the cut, are
/// the links at their places in the whole text.
pub proof fn lemma_shifted_links(events: Seq<EventModel>, s: Seq<char>, cut: int)
    requires
        0 <= cut <= s.len(),
        0 < cut < s.len() ==> s[cut - 1] == '\n',
        links_start_before(events, byte_len(s.skip(cut))),
    ensures
        shifted(links_at(events, s.skip(cut), 0), newlines(s.take(cut))) == links_at(
            events,
            s,
            byte_len(s.take(cut)),
        ),
    decreases events.len(),
{
    let by = newlines(s.take(cut));
    let base = byte_len(s.take(cut));
    if events.len() == 0 {
        assert(shifted(Seq::<LinkModel>::empty(), by) == Seq::<LinkModel>::empty());
    } else {
        let rest = events.drop_last();
        assert forall|i: int| 0 <= i < rest.len() implies (#[trigger] rest[i] matches EventModel::Link {
            offset,
            ..
        } ==> offset < byte_len(s.skip(cut))) by {
            assert(rest[i] == events[i]);
        }
        lemma_shifted_links(rest, s, cut);
        let inner = links_at(rest, s.skip(cut), 0);
        match events.last() {
            EventModel::Link { dest, offset } => {
                if is_local(dest) {
                    assert(events[events.len() - 1] is Link);
                    assert(s.skip(cut).len() > 0);
                    lemma_position_behind_cut(s, cut, offset);
                    let found = links_at(events, s.skip(cut), 0);
                    assert(found == inner.push(found.last()));
                    assert(shifted(found, by) == shifted(inner, by).push(
                        lowered(found.last(), by),
                    ));
                }
            },
            _ => {},
        }
    }
}

/// The links of a topic address the file it was read from.
///
/// Where every link starts inside the body, the links of the topic are the
/// local links of its body in order, each at the line and column that the
/// start of its source has in the whole text of the file, whether or not a
/// header stands in front of the body.
pub proof fn lemma_links_address_file(path: Seq<char>, content: Seq<char>)
    requires
        links_start_before(body_events(content), byte_len(split(content).body)),
    ensures
        topic_of(path, content).links == links_at(
            body_events(content),
            content,
            byte_len(content.take(body_start_of(content))),
        ),
{
    lemma_body_start(content);
    lemma_scan_links(body_events(content), split(content).body);
    lemma_shifted_links(body_events(content), content, body_start_of(content));
}

/// The field of a metadata value for matching: a string, number or boolean
/// is a single text; a sequence holds the texts of its strings and numbers;
/// anything else is no field.
pub open spec fn field_of(value: MetaModel) -> Option<FieldModel> {
    match value {
        MetaModel::Text(s) => Some(FieldModel::Single(s)),
        MetaModel::Number(n) => Some(FieldModel::Single(n)),
        MetaModel::Bool(b) => Some(FieldModel::Single(bool_text(b))),
        MetaModel::Sequence(items) => Some(FieldModel::Multiple(scalars_in(items))),
        _ => None,
    }
}

/// `true` or `false`.
pub open spec fn bool_text(b: bool) -> Seq<char> {
    if b {
        "true"@
    } else {
        "false"@
    }
}

/// The texts of the strings and numbers among `items`, in order.
pub open spec fn scalars_in(items: Seq<MetaModel>) -> Seq<Seq<char>>
    decreases items.len(),
{
    if items.len() == 0 {
        Seq::empty()
    } else {
        match items.last() {
            MetaModel::Text(s) => scalars_in(items.drop_last()).push(s),
            MetaModel::Number(n) => scalars_in(items.drop_last()).push(n),
            _ => scalars_in(items.drop_last()),
        }
    }
}

/// The strings that stand in `items` themselves, in order.
pub open spec fn direct_texts(items: Seq<MetaModel>) -> Seq<Seq<char>>
    decreases items.len(),
{
    if items.len() == 0 {
        Seq::empty()
    } else {
        match items.last() {
            MetaModel::Text(s) => direct_texts(items.drop_last()).push(s),
            _ => direct_texts(items.drop_last()),
        }
    }
}

/// The field that a topic offers under `key`: `tag` stands for `tags`, `title`
/// is the title, and any other key is looked up in the metadata.
pub open spec fn topic_field(t: TopicModel, key: Seq<char>) -> Option<FieldModel> {
    let key = if key == "tag"@ {
        "tags"@
    } else {
        key
    };
    if key == "title"@ {
        Some(FieldModel::Single(t.title))
    } else {
        match value_of(t.metadata, key) {
            Some(v) => field_of(v),
            None => None,
        }
    }
}

/// The tags of a topic: what its `tags` entry lists.
pub open spec fn tags_of(t: TopicModel) -> Seq<Seq<char>> {
    string_array(value_of(t.metadata, "tags"@))
}

/// The line that a topic is listed as: its title, followed by its tags in
/// square brackets if it has any.
pub open spec fn display_text(t: TopicModel) -> Seq<char> {
    if tags_of(t).len() == 0 {
        t.title
    } else {
        t.title + " ["@ + join(tags_of(t), ", "@) + "]"@
    }
}

/// Convert a metadata value to a FieldValue for querying.
pub fn yaml_to_field_value(value: &MetaValue) -> (r: Option<FieldValue>)
    ensures
        r.deep_view() == field_of(value@),
{
    match value {
        MetaValue::Text(s) => Some(FieldValue::Single(s.clone())),
        MetaValue::Number(n) => Some(FieldValue::Single(n.clone())),
        MetaValue::Bool(b) => Some(
            FieldValue::Single(
                if *b {
                    "true".to_owned()
                } else {
                    "false".to_owned()
                },
            ),
        ),
        MetaValue::Sequence(items) => {
            let ghost all = value@->Sequence_0;
            let mut strings: Vec<String> = Vec::new();
            let mut i: usize = 0;
            assert(strings.deep_view() == Seq::<Seq<char>>::empty());
            while i < items.len()
                invariant
                    i <= items.len(),
                    all.len() == items.len(),
                    forall|k: int| 0 <= k < items.len() ==> all[k] == items[k]@,
                    strings.deep_view() == scalars_in(all.take(i as int)),
                decreases items.len() - i,
            {
                proof {
                    assert(all.take(i + 1).drop_last() == all.take(i as int));
                }
                let ghost before = strings.deep_view();
                match &items[i] {
                    MetaValue::Text(s) => {
                        strings.push(s.clone());
                        assert(strings.deep_view() == before.push(s@));
                    },
                    MetaValue::Number(n) => {
                        strings.push(n.clone());
                        assert(strings.deep_view() == before.push(n@));
                    },
                    _ => {},
                }
                i += 1;
            }
            assert(all.take(items.len() as int) == all);
            Some(FieldValue::Multiple(strings))
        },
        _ => None,
    }
}

impl Topic {
    /// Puts a topic together from the split of a file, the reading of its body
    /// and the stem of its path.
    pub fn assemble(
        path: &str,
        fm: FrontmatterResult,
        parsed: ParsedMarkdown,
        stem: Option<String>,
    ) -> (topic: Topic)
        ensures
            topic@ == assembled(path@, fm@, parsed@, stem.deep_view()),
            distinct_keys(fm@.metadata) && (parsed@.title matches Some(t) ==> t.len() > 0)
                ==> well_formed(topic@),
    {
        let mut warnings: Vec<TopicWarning> = Vec::new();
        assert(warnings.deep_view() == Seq::<WarningModel>::empty());
        let body = chars_of(fm.body.as_str());
        let rest = trimmed(&body);
        proof {
            lemma_trim_empty_iff_blank(body@);
        }
        if rest.len() == 0 {
            warnings.push(TopicWarning::EmptyContent);
            assert(warnings.deep_view() == seq![WarningModel::EmptyContent]);
        }
        let ghost found = parsed@.links;
        let ghost by = fm.frontmatter_lines as nat;
        let mut links: Vec<ParsedLink> = Vec::new();
        let mut i: usize = 0;
        while i < parsed.links.len()
            invariant
                i <= parsed.links.len(),
                found == parsed.links.deep_view(),
                by == fm.frontmatter_lines,
                links.len() == i,
                forall|k: int| 0 <= k < i ==> (#[trigger] links[k])@ == lowered(found[k], by),
            decreases parsed.links.len() - i,
        {
            let link = &parsed.links[i];
            assert(found[i as int] == link@);
            let line = if link.line <= usize::MAX - fm.frontmatter_lines {
                link.line + fm.frontmatter_lines
            } else {
                usize::MAX
            };
            links.push(ParsedLink { target: link.target.clone(), line, column: link.column });
            i += 1;
        }
        assert(links.deep_view() == shifted(found, by));
        let ghost early = warnings.deep_view();
        let title = match parsed.title {
            Some(t) => {
                assert(early + Seq::<WarningModel>::empty() == early);
                t
            },
            None => {
                warnings.push(TopicWarning::MissingTitle);
                assert(warnings.deep_view() == early + seq![WarningModel::MissingTitle]);
                proof {
                    reveal_strlit("Untitled");
                }
                match stem {
                    Some(s) => if s.as_str().unicode_len() > 0 {
                        s
                    } else {
                        "Untitled".to_owned()
                    },
                    None => "Untitled".to_owned(),
                }
            },
        };
        Topic {
            path: path.to_owned(),
            title,
            description: parsed.description,
            links,
            metadata: fm.metadata,
            warnings,
        }
    }

    /// Parse a topic from the content of the file at `path`.
    pub fn from_content(path: &str, content: &str) -> (topic: Topic)
        ensures
            topic@ == topic_of(path@, content@),
            well_formed(topic@),
    {
        let fm = crate::frontmatter::parse(content);
        let parsed = crate::markdown::parse(fm.body.as_str());
        proof {
            crate::markdown::lemma_title_not_empty(markup_events(fm.body@), fm.body@);
        }
        let stem = file_stem(path);
        Topic::assemble(path, fm, parsed, stem)
    }

    /// Get tags from metadata (convenience method).
    pub fn tags(&self) -> (out: Vec<String>)
        ensures
            out.deep_view() == tags_of(self@),
    {
        parse_string_array(lookup(&self.metadata, "tags"))
    }

    /// Format for display.
    pub fn display(&self) -> (shown: TopicDisplay<'_>)
        ensures
            shown.0 == self,
    {
        TopicDisplay(self)
    }
}

impl Queryable for Topic {
    open spec fn field(&self, key: Seq<char>) -> Option<FieldModel> {
        topic_field(self@, key)
    }

    open spec fn text(&self) -> Seq<char> {
        self.title@
    }

    fn get_field(&self, key: &str) -> (r: Option<FieldValue>) {
        // Handle tag/tags alias
        let key = if str_eq(key, "tag") {
            "tags"
        } else {
            key
        };
        // Title is always available
        if str_eq(key, "title") {
            return Some(FieldValue::Single(self.title.clone()));
        }
        // Look up in metadata
        match lookup(&self.metadata, key) {
            Some(value) => yaml_to_field_value(value),
            None => None,
        }
    }

    fn searchable_text(&self) -> (r: String) {
        self.title.clone()
    }
}

/// Display wrapper for Topic.
pub struct TopicDisplay<'a>(pub &'a Topic);

impl TopicDisplay<'_> {
    /// The line that the topic is listed as.
    pub fn to_text(&self) -> (out: String)
        ensures
            out@ == display_text(self.0@),
    {
        let tags = self.0.tags();
        if tags.len() == 0 {
            self.0.title.clone()
        } else {
            let mut pieces: Vec<Vec<char>> = Vec::new();
            let mut i: usize = 0;
            while i < tags.len()
                invariant
                    i <= tags.len(),
                    pieces.len() == i,
                    forall|k: int| 0 <= k < i ==> (#[trigger] pieces[k])@ == tags[k]@,
                decreases tags.len() - i,
            {
                pieces.push(chars_of(tags[i].as_str()));
                i += 1;
            }
            assert(rows(pieces@) == tags.deep_view());
            let mut out = chars_of(self.0.title.as_str());
            push_all(&mut out, &chars_of(" ["));
            push_all(&mut out, &join_chars(&pieces, &chars_of(", ")));
            push_all(&mut out, &chars_of("]"));
            string_of(&out)
        }
    }
}

} // verus!
