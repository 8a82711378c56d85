//! Splitting a document into its metadata header and its body.

use crate::meta::{read_yaml, text_of, yaml_mapping, MetaModel, MetaValue};
use crate::text::{
    chars_of, check_at, count_newlines, lemma_skip_space, newlines, occurs_at, rows, skip_space,
    skip_space_from, slice_of, split_chars, split_on, string_of, trim, trimmed,
};
use vstd::prelude::*;

verus! {

/// Result of parsing frontmatter.
#[derive(Debug)]
pub struct FrontmatterResult {
    /// Parsed frontmatter key-value pairs; no key occurs twice.
    pub metadata: Vec<(String, MetaValue)>,
    /// The body content (after the frontmatter and the blank lines that follow it).
    pub body: String,
    /// Number of line feeds before the body starts.
    /// Add this to body-relative line numbers to get file-absolute line numbers.
    pub frontmatter_lines: usize,
}

/// The mathematical content of a [`FrontmatterResult`].
pub struct FrontmatterModel {
    pub metadata: Seq<(Seq<char>, MetaModel)>,
    pub body: Seq<char>,
    pub frontmatter_lines: nat,
}

impl View for FrontmatterResult {
    type V = FrontmatterModel;

    open spec fn view(&self) -> FrontmatterModel {
        FrontmatterModel {
            metadata: self.metadata.deep_view(),
            body: self.body@,
            frontmatter_lines: self.frontmatter_lines as nat,
        }
    }
}

/// Where a header lies in a text, as character indices.
#[derive(Debug, Clone, Copy, PartialEq, Eq)]
pub struct Header {
    /// First character after the opening delimiter.
    pub yaml_start: usize,
    /// The line feed in front of the closing delimiter.
    pub yaml_end: usize,
    /// First character of the body.
    pub body_start: usize,
}

/// The mathematical content of a [`Header`].
pub struct HeaderModel {
    pub yaml_start: int,
    pub yaml_end: int,
    pub body_start: int,
}

impl View for Header {
    type V = HeaderModel;

    open spec fn view(&self) -> HeaderModel {
        HeaderModel {
            yaml_start: self.yaml_start as int,
            yaml_end: self.yaml_end as int,
            body_start: self.body_start as int,
        }
    }
}

/// The three hyphens that open and close a header.
pub open spec fn delimiter() -> Seq<char> {
    seq!['-', '-', '-']
}

/// A line that consists of the delimiter alone starts right after index `i`,
/// which holds a line feed.
pub open spec fn closes_at(s: Seq<char>, i: int) -> bool {
    &&& 0 <= i < s.len()
    &&& s[i] == '\n'
    &&& occurs_at(s, delimiter(), i + 1)
    &&& (i + 4 == s.len() || s[i + 4] == '\n')
}

/// The first index at or after `from` at which the header closes.
pub open spec fn find_close(s: Seq<char>, from: int) -> Option<int>
    decreases s.len() - from,
{
    if from < 0 || from >= s.len() {
        None
    } else if closes_at(s, from) {
        Some(from)
    } else {
        find_close(s, from + 1)
    }
}

/// The index of the first character at or after `i` that is not a line feed.
pub open spec fn skip_newlines(s: Seq<char>, i: int) -> int
    decreases s.len() - i,
{
    if 0 <= i < s.len() && s[i] == '\n' {
        skip_newlines(s, i + 1)
    } else {
        i
    }
}

/// The header of `s`, if it has one: after leading whitespace the text opens
/// with the delimiter, and a later line consists of the delimiter alone. The
/// body starts after that line and the empty lines that follow it.
pub open spec fn header_of(s: Seq<char>) -> Option<HeaderModel> {
    let open = skip_space(s, 0);
    if !occurs_at(s, delimiter(), open) {
        None
    } else {
        match find_close(s, open + 3) {
            None => None,
            Some(close) => Some(
                HeaderModel {
                    yaml_start: open + 3,
                    yaml_end: close,
                    body_start: skip_newlines(s, close + 4),
                },
            ),
        }
    }
}

/// The result for a text without a usable header: no metadata, and the whole
/// text as body.
pub open spec fn unsplit(s: Seq<char>) -> FrontmatterModel {
    FrontmatterModel { metadata: Seq::empty(), body: s, frontmatter_lines: 0 }
}

/// The result for a text with the given header and the given reading of the
/// text between its delimiters.
pub open spec fn split_with(
    s: Seq<char>,
    header: Option<HeaderModel>,
    entries: Option<Seq<(Seq<char>, MetaModel)>>,
) -> FrontmatterModel {
    match (header, entries) {
        (Some(h), Some(m)) => FrontmatterModel {
            metadata: m,
            body: s.skip(h.body_start),
            frontmatter_lines: newlines(s.take(h.body_start)),
        },
        _ => unsplit(s),
    }
}

/// The text between the delimiters of a header.
pub open spec fn yaml_text(s: Seq<char>, header: HeaderModel) -> Seq<char> {
    s.subrange(header.yaml_start, header.yaml_end)
}

/// The split of `s`: metadata, body and the number of line feeds in front of
/// the body. A text without a header, with a header that never closes, or with
/// one that does not read as a mapping is all body.
pub open spec fn split(s: Seq<char>) -> FrontmatterModel {
    match header_of(s) {
        Some(h) => split_with(s, Some(h), yaml_mapping(yaml_text(s, h))),
        None => unsplit(s),
    }
}

/// The bounds of a header lie inside the text, in order.
pub open spec fn header_within(h: HeaderModel, len: int) -> bool {
    0 <= h.yaml_start <= h.yaml_end < h.body_start <= len
}

/// `skip_newlines` stays inside the text and passes line feeds only.
pub proof fn lemma_skip_newlines(s: Seq<char>, i: int)
    requires
        0 <= i <= s.len(),
    ensures
        i <= skip_newlines(s, i) <= s.len(),
        forall|j: int| i <= j < skip_newlines(s, i) ==> s[j] == '\n',
        skip_newlines(s, i) < s.len() ==> s[skip_newlines(s, i)] != '\n',
    decreases s.len() - i,
{
    if i < s.len() && s[i] == '\n' {
        lemma_skip_newlines(s, i + 1);
    }
}

/// `find_close` returns the first closing index at or after `from`.
pub proof fn lemma_find_close(s: Seq<char>, from: int)
    requires
        0 <= from,
    ensures
        match find_close(s, from) {
            Some(i) => from <= i && closes_at(s, i) && forall|j: int|
                from <= j < i ==> !closes_at(s, j),
            None => forall|j: int| from <= j ==> !closes_at(s, j),
        },
    decreases s.len() - from,
{
    if from < s.len() && !closes_at(s, from) {
        lemma_find_close(s, from + 1);
    }
}

/// Finds the header of a text.
pub fn locate_header(chars: &Vec<char>) -> (r: Option<Header>)
    ensures
        r.deep_view() == header_of(chars@),
        r matches Some(h) ==> header_within(h@, chars.len() as int),
{
    let n = chars.len();
    let open = skip_space_from(chars, 0);
    let mut dashes: Vec<char> = Vec::new();
    dashes.push('-');
    dashes.push('-');
    dashes.push('-');
    assert(dashes@ == delimiter());
    if !check_at(chars, &dashes, open) {
        return None;
    }
    let mut i: usize = open + 3;
    while i < n
        invariant
            open + 3 <= i <= n,
            n == chars.len(),
            dashes@ == delimiter(),
            open == skip_space(chars@, 0),
            occurs_at(chars@, delimiter(), open as int),
            find_close(chars@, open + 3) == find_close(chars@, i as int),
        decreases n - i,
    {
        if chars[i] == '\n' && check_at(chars, &dashes, i + 1) && (i + 4 == n || chars[i + 4]
            == '\n') {
            let mut body: usize = i + 4;
            while body < n && chars[body] == '\n'
                invariant
                    i + 4 <= body <= n,
                    n == chars.len(),
                    skip_newlines(chars@, i + 4) == skip_newlines(chars@, body as int),
                decreases n - body,
            {
                body += 1;
            }
            return Some(Header { yaml_start: open + 3, yaml_end: i, body_start: body });
        }
        i += 1;
    }
    None
}

impl DeepView for Header {
    type V = HeaderModel;

    open spec fn deep_view(&self) -> HeaderModel {
        self@
    }
}

/// Builds the result from a text, its header and the reading of the text
/// between the delimiters.
pub fn finish(chars: &Vec<char>, header: Option<Header>, entries: Option<Vec<(String, MetaValue)>>) -> (result: FrontmatterResult)
    requires
        header matches Some(h) ==> header_within(h@, chars.len() as int),
    ensures
        result@ == split_with(chars@, header.deep_view(), entries.deep_view()),
{
    match (header, entries) {
        (Some(h), Some(metadata)) => {
            let body = slice_of(chars, h.body_start, chars.len());
            let lines = count_newlines(chars, 0, h.body_start);
            assert(chars@.subrange(h.body_start as int, chars.len() as int) == chars@.skip(
                h.body_start as int,
            ));
            assert(chars@.subrange(0, h.body_start as int) == chars@.take(h.body_start as int));
            FrontmatterResult { metadata, body: string_of(&body), frontmatter_lines: lines }
        },
        _ => {
            let metadata: Vec<(String, MetaValue)> = Vec::new();
            assert(metadata.deep_view() == Seq::<(Seq<char>, MetaModel)>::empty());
            FrontmatterResult { metadata, body: string_of(chars), frontmatter_lines: 0 }
        },
    }
}

/// Parse YAML frontmatter from markdown content.
///
/// Returns frontmatter metadata, body content, and line count.
/// If no valid frontmatter is found, returns no metadata and the full content.
pub fn parse(content: &str) -> (result: FrontmatterResult)
    ensures
        result@ == split(content@),
        distinct_keys(result@.metadata),
{
    let chars = chars_of(content);
    let header = locate_header(&chars);
    match header {
        Some(h) => {
            let yaml = slice_of(&chars, h.yaml_start, h.yaml_end);
            let entries = read_yaml(string_of(&yaml).as_str());
            proof {
                if entries is Some {
                    let list = entries->0;
                    let m = list.deep_view();
                    assert forall|i: int, j: int| 0 <= i < j < m.len() implies m[i].0 != m[j].0 by {
                        assert(m[i].0 == list[i].0@);
                        assert(m[j].0 == list[j].0@);
                    }
                }
            }
            finish(&chars, Some(h), entries)
        },
        None => finish(&chars, None, None),
    }
}

/// No two entries share a key.
pub open spec fn distinct_keys(m: Seq<(Seq<char>, MetaModel)>) -> bool {
    forall|i: int, j: int| 0 <= i < j < m.len() ==> m[i].0 != m[j].0
}

/// The texts among `items`, in order.
pub open spec fn texts_in(items: Seq<MetaModel>) -> Seq<Seq<char>>
    decreases items.len(),
{
    if items.len() == 0 {
        Seq::empty()
    } else {
        match text_of(items.last()) {
            Some(s) => texts_in(items.drop_last()).push(s),
            None => texts_in(items.drop_last()),
        }
    }
}

/// Every piece of `pieces`, trimmed.
pub open spec fn trim_each(pieces: Seq<Seq<char>>) -> Seq<Seq<char>> {
    Seq::new(pieces.len(), |i: int| trim(pieces[i]))
}

/// The list of strings that a value stands for: the strings of a sequence, or
/// the trimmed pieces of one comma-separated string; nothing for any other
/// value or for none.
pub open spec fn string_array(value: Option<MetaModel>) -> Seq<Seq<char>> {
    match value {
        Some(MetaModel::Sequence(items)) => texts_in(items),
        Some(MetaModel::Text(s)) => trim_each(split_on(s, ',')),
        _ => Seq::empty(),
    }
}

/// Parse a metadata value that might be an array of strings.
///
/// Handles both array syntax and comma-separated string syntax.
pub fn parse_string_array(value: Option<&MetaValue>) -> (out: Vec<String>)
    ensures
        out.deep_view() == string_array(value.deep_view()),
{
    let mut out: Vec<String> = Vec::new();
    match value {
        Some(MetaValue::Sequence(items)) => {
            let ghost all = value.deep_view()->0->Sequence_0;
            let mut i: usize = 0;
            assert(out.deep_view() == Seq::<Seq<char>>::empty());
            while i < items.len()
                invariant
                    i <= items.len(),
                    all.len() == items.len(),
                    forall|k: int| 0 <= k < items.len() ==> all[k] == items[k]@,
                    out.deep_view() == texts_in(all.take(i as int)),
                decreases items.len() - i,
            {
                proof {
                    assert(all.take(i + 1).drop_last() == all.take(i as int));
                }
                let ghost before = out.deep_view();
                match items[i].as_str() {
                    Some(s) => {
                        let owned = s.to_owned();
                        out.push(owned);
                        assert(out.deep_view() == before.push(s@));
                    },
                    None => {},
                }
                i += 1;
            }
            assert(all.take(items.len() as int) == all);
        },
        Some(MetaValue::Text(s)) => {
            let chars = chars_of(s.as_str());
            let pieces = split_chars(&chars, ',');
            let mut i: usize = 0;
            while i < pieces.len()
                invariant
                    i <= pieces.len(),
                    out.len() == i,
                    forall|k: int| 0 <= k < i ==> out[k]@ == trim(#[trigger] pieces[k]@),
                decreases pieces.len() - i,
            {
                let piece = trimmed(&pieces[i]);
                out.push(string_of(&piece));
                i += 1;
            }
            assert(out.deep_view() == trim_each(rows(pieces@)));
        },
        _ => {
            assert(out.deep_view() == Seq::<Seq<char>>::empty());
        },
    }
    out
}

/// Where the body of `s` starts: behind the header if `s` has one that reads
/// as a mapping, at the start otherwise.
pub open spec fn body_start_of(s: Seq<char>) -> int {
    match header_of(s) {
        Some(h) => if yaml_mapping(yaml_text(s, h)) is Some {
            h.body_start
        } else {
            0
        },
        None => 0,
    }
}

/// The body is the text from `body_start_of` on, the line count is that of
/// the text in front of it, and a body that starts inside the text starts a
/// line.
pub proof fn lemma_body_start(s: Seq<char>)
    ensures
        0 <= body_start_of(s) <= s.len(),
        split(s).body == s.skip(body_start_of(s)),
        split(s).frontmatter_lines == newlines(s.take(body_start_of(s))),
        0 < body_start_of(s) < s.len() ==> s[body_start_of(s) - 1] == '\n',
{
    let start = body_start_of(s);
    if start == 0 {
        assert(s.skip(0) == s);
        assert(s.take(0) == Seq::<char>::empty());
        if header_of(s) is Some && yaml_mapping(yaml_text(s, header_of(s)->0)) is Some {
            assert(split(s).body == s.skip(0));
        }
    } else {
        let open = skip_space(s, 0);
        lemma_skip_space(s, 0);
        lemma_find_close(s, open + 3);
        let close = find_close(s, open + 3)->0;
        lemma_skip_newlines(s, close + 4);
        if start < s.len() {
            assert(s[close + 4] == '\n');
            assert(s[start - 1] == '\n');
        }
    }
}

/// The index at which the body of the text starts.
pub fn body_offset(chars: &Vec<char>) -> (r: usize)
    ensures
        r == body_start_of(chars@),
        r <= chars.len(),
{
    match locate_header(chars) {
        Some(h) => {
            let yaml = slice_of(chars, h.yaml_start, h.yaml_end);
            match read_yaml(string_of(&yaml).as_str()) {
                Some(_) => h.body_start,
                None => 0,
            }
        },
        None => 0,
    }
}

} // verus!
