//! Renaming a topic: the new file name, the new heading and the links of
//! the other documents.

use crate::frontmatter::{body_offset, body_start_of};
use crate::paths::{
    file_name, file_name_of, file_stem, file_stem_of, join_path, joined, parent, parent_of,
};
use crate::text::{
    chars_of, check_at, lemma_position_of, occurs_at, position_of, push_all, replace_all,
    replace_chars, slice_of, str_eq, string_of,
};
use crate::utils::{slug_of, slugify};
use vstd::prelude::*;

verus! {

/// What opens a level-1 heading line.
pub open spec fn heading_mark() -> Seq<char> {
    seq!['#', ' ']
}

/// The start of the first line at or after the line start `i` that opens
/// with the heading mark.
pub open spec fn find_heading(s: Seq<char>, i: int) -> Option<int>
    decreases s.len() - i,
{
    if i < 0 || i >= s.len() {
        None
    } else if occurs_at(s, heading_mark(), i) {
        Some(i)
    } else if position_of(s, '\n', i) >= s.len() || position_of(s, '\n', i) < i {
        None
    } else {
        find_heading(s, position_of(s, '\n', i) + 1)
    }
}

/// Where the text of the line that starts at `i` ends: in front of its line
/// feed, and of a carriage return before that.
pub open spec fn line_text_end(s: Seq<char>, i: int) -> int {
    let e = position_of(s, '\n', i);
    if e > i && s[e - 1] == '\r' {
        e - 1
    } else {
        e
    }
}

/// The text with its title changed: the first line of the body that opens
/// with the heading mark becomes the mark and the new title; everything else
/// stays as it is, line ends included.
pub open spec fn retitled(s: Seq<char>, title: Seq<char>) -> Seq<char> {
    match find_heading(s, body_start_of(s)) {
        Some(i) => s.take(i) + heading_mark() + title + s.skip(line_text_end(s, i)),
        None => s,
    }
}

/// Update the first heading in the body of the content to the new title.
pub fn update_heading(content: &str, new_title: &str) -> (out: String)
    ensures
        out@ == retitled(content@, new_title@),
{
    let chars = chars_of(content);
    let n = chars.len();
    let mut mark: Vec<char> = Vec::new();
    mark.push('#');
    mark.push(' ');
    assert(mark@ == heading_mark());
    let start = body_offset(&chars);
    let mut i: usize = start;
    while i < n
        invariant
            start <= i <= n,
            n == chars.len(),
            chars@ == content@,
            mark@ == heading_mark(),
            start == body_start_of(chars@),
            find_heading(chars@, start as int) == find_heading(chars@, i as int),
        decreases n - i,
    {
        proof {
            lemma_position_of(chars@, '\n', i as int);
        }
        let mut end: usize = i;
        while end < n && chars[end] != '\n'
            invariant
                i <= end <= n,
                n == chars.len(),
                position_of(chars@, '\n', i as int) == position_of(chars@, '\n', end as int),
            decreases n - end,
        {
            end += 1;
        }
        assert(position_of(chars@, '\n', end as int) == end);
        if check_at(&chars, &mark, i) {
            let stop = if end > i && chars[end - 1] == '\r' {
                end - 1
            } else {
                end
            };
            let mut out = slice_of(&chars, 0, i);
            push_all(&mut out, &mark);
            push_all(&mut out, &chars_of(new_title));
            push_all(&mut out, &slice_of(&chars, stop, n));
            proof {
                assert(chars@.subrange(0, i as int) == chars@.take(i as int));
                assert(chars@.subrange(stop as int, n as int) == chars@.skip(stop as int));
            }
            return string_of(&out);
        }
        if end >= n {
            assert(find_heading(chars@, i as int) is None);
            return string_of(&chars);
        }
        i = end + 1;
    }
    string_of(&chars)
}

/// `s` without any `.md` at its end.
pub open spec fn without_md(s: Seq<char>) -> Seq<char>
    decreases s.len(),
{
    if s.len() >= 3 && s.subrange(s.len() - 3, s.len() as int) == seq!['.', 'm', 'd'] {
        without_md(s.take(s.len() - 3))
    } else {
        s
    }
}

/// A link target in round brackets, as it closes a markdown link.
pub open spec fn in_parens(inner: Seq<char>) -> Seq<char> {
    seq![']', '('] + inner + seq![')']
}

/// A name in double square brackets.
pub open spec fn in_brackets(inner: Seq<char>) -> Seq<char> {
    seq!['[', '['] + inner + seq![']', ']']
}

/// The text with every link to the old file pointed at the new one: first
/// targets that are the old file name, then targets that are the old stem,
/// then bracketed names that are the old file name without `.md`, then
/// bracketed names that are the old stem.
pub open spec fn relinked(
    s: Seq<char>,
    old_filename: Seq<char>,
    old_stem: Seq<char>,
    new_filename: Seq<char>,
    new_stem: Seq<char>,
) -> Seq<char> {
    let a = replace_all(s, in_parens(old_filename), in_parens(new_filename));
    let b = replace_all(a, in_parens(old_stem), in_parens(new_stem));
    let c = replace_all(b, in_brackets(without_md(old_filename)), in_brackets(new_stem));
    replace_all(c, in_brackets(old_stem), in_brackets(new_stem))
}

/// `inner` in round brackets behind a closing square bracket.
pub fn parens(inner: &Vec<char>) -> (out: Vec<char>)
    ensures
        out@ == in_parens(inner@),
{
    let mut out: Vec<char> = Vec::new();
    out.push(']');
    out.push('(');
    assert(out@ == seq![']', '(']);
    push_all(&mut out, inner);
    let ghost before = out@;
    out.push(')');
    assert(out@ == before + seq![')']);
    out
}

/// `inner` in double square brackets.
pub fn brackets(inner: &Vec<char>) -> (out: Vec<char>)
    ensures
        out@ == in_brackets(inner@),
{
    let mut out: Vec<char> = Vec::new();
    out.push('[');
    out.push('[');
    assert(out@ == seq!['[', '[']);
    push_all(&mut out, inner);
    let ghost before = out@;
    out.push(']');
    out.push(']');
    assert(out@ == before + seq![']', ']']);
    out
}

/// `v` without any `.md` at its end.
pub fn strip_md(v: &Vec<char>) -> (out: Vec<char>)
    ensures
        out@ == without_md(v@),
{
    let mut n: usize = v.len();
    assert(v@.take(n as int) == v@);
    while n >= 3 && v[n - 3] == '.' && v[n - 2] == 'm' && v[n - 1] == 'd'
        invariant
            n <= v.len(),
            without_md(v@) == without_md(v@.take(n as int)),
        decreases n,
    {
        proof {
            let t = v@.take(n as int);
            assert(t.subrange(n - 3, n as int) == seq!['.', 'm', 'd']);
            assert(t.take(n - 3) == v@.take(n - 3));
        }
        n -= 3;
    }
    proof {
        let t = v@.take(n as int);
        if n >= 3 {
            let tail = t.subrange(n - 3, n as int);
            assert(tail[0] == v@[n - 3] && tail[1] == v@[n - 2] && tail[2] == v@[n - 1]);
        }
    }
    let out = slice_of(v, 0, n);
    assert(v@.subrange(0, n as int) == v@.take(n as int));
    out
}

/// Update links from old filename to new filename.
pub fn update_links(
    content: &str,
    old_filename: &str,
    old_stem: &str,
    new_filename: &str,
    new_stem: &str,
) -> (out: String)
    ensures
        out@ == relinked(content@, old_filename@, old_stem@, new_filename@, new_stem@),
{
    let text = chars_of(content);
    let old_name = chars_of(old_filename);
    let old = chars_of(old_stem);
    let new_name = chars_of(new_filename);
    let new = chars_of(new_stem);
    let a = replace_chars(&text, &parens(&old_name), &parens(&new_name));
    let b = replace_chars(&a, &parens(&old), &parens(&new));
    let c = replace_chars(&b, &brackets(&strip_md(&old_name)), &brackets(&new));
    let d = replace_chars(&c, &brackets(&old), &brackets(&new));
    string_of(&d)
}

/// The new text of a document that links to the renamed file, or `None`
/// where the rename changes nothing in it.
pub open spec fn relinked_if_changed(
    s: Seq<char>,
    old_filename: Seq<char>,
    old_stem: Seq<char>,
    new_filename: Seq<char>,
    new_stem: Seq<char>,
) -> Option<Seq<char>> {
    let out = relinked(s, old_filename, old_stem, new_filename, new_stem);
    if out == s {
        None
    } else {
        Some(out)
    }
}

/// What a rename works with: the names of the old file and of the new one.
#[derive(Debug, Clone, PartialEq)]
pub struct RenamePlan {
    pub old_filename: String,
    pub old_stem: String,
    pub new_stem: String,
    pub new_filename: String,
    pub new_path: String,
}

/// The mathematical content of a [`RenamePlan`].
pub struct PlanModel {
    pub old_filename: Seq<char>,
    pub old_stem: Seq<char>,
    pub new_stem: Seq<char>,
    pub new_filename: Seq<char>,
    pub new_path: Seq<char>,
}

impl View for RenamePlan {
    type V = PlanModel;

    open spec fn view(&self) -> PlanModel {
        PlanModel {
            old_filename: self.old_filename@,
            old_stem: self.old_stem@,
            new_stem: self.new_stem@,
            new_filename: self.new_filename@,
            new_path: self.new_path@,
        }
    }
}

impl DeepView for RenamePlan {
    type V = PlanModel;

    open spec fn deep_view(&self) -> PlanModel {
        self@
    }
}

/// The text of an optional text, empty where there is none.
pub open spec fn or_empty(s: Option<Seq<char>>) -> Seq<char> {
    match s {
        Some(t) => t,
        None => Seq::empty(),
    }
}

/// The plan for renaming the file at `old_path` to the title `to`: the new
/// stem is the slug of the title, the new file is `<slug>.md` in the directory
/// of the old one. There is no plan for a path without a directory.
pub open spec fn planned(old_path: Seq<char>, to: Seq<char>) -> Option<PlanModel> {
    match parent_of(old_path) {
        Some(dir) => Some(
            PlanModel {
                old_filename: or_empty(file_name_of(old_path)),
                old_stem: or_empty(file_stem_of(old_path)),
                new_stem: slug_of(to),
                new_filename: slug_of(to) + seq!['.', 'm', 'd'],
                new_path: joined(dir, slug_of(to) + seq!['.', 'm', 'd']),
            },
        ),
        None => None,
    }
}

/// Plans the rename of the file at `old_path` to the title `to`.
pub fn plan_rename(old_path: &str, to: &str) -> (plan: Option<RenamePlan>)
    ensures
        plan.deep_view() == planned(old_path@, to@),
{
    let dir = match parent(old_path) {
        Some(d) => d,
        None => {
            return None;
        },
    };
    let old_filename = match file_name(old_path) {
        Some(name) => name,
        None => String::new(),
    };
    let old_stem = match file_stem(old_path) {
        Some(stem) => stem,
        None => String::new(),
    };
    let new_stem = slugify(to);
    let mut name = chars_of(new_stem.as_str());
    let ghost slug = name@;
    name.push('.');
    name.push('m');
    name.push('d');
    assert(name@ == slug + seq!['.', 'm', 'd']);
    let new_filename = string_of(&name);
    let new_path = join_path(dir.as_str(), new_filename.as_str());
    Some(RenamePlan { old_filename, old_stem, new_stem, new_filename, new_path })
}

/// The text to write back to a document after the rename in `plan`: its
/// content with the links updated, or `None` where it holds no such link and
/// stays as it is.
pub fn relink(content: &str, plan: &RenamePlan) -> (out: Option<String>)
    ensures
        out.deep_view() == relinked_if_changed(
            content@,
            plan@.old_filename,
            plan@.old_stem,
            plan@.new_filename,
            plan@.new_stem,
        ),
{
    let updated = update_links(
        content,
        plan.old_filename.as_str(),
        plan.old_stem.as_str(),
        plan.new_filename.as_str(),
        plan.new_stem.as_str(),
    );
    if str_eq(updated.as_str(), content) {
        None
    } else {
        Some(updated)
    }
}

} // verus!
