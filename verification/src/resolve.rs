//! Finding the one file that a command is about.

use crate::paths::{join_path, joined};
use crate::text::{chars_of, string_of};
use crate::topic::Topic;
use crate::utils::{slug_of, slugify};
use vstd::prelude::*;

verus! {

/// The extension of a topic file, with its dot.
pub open spec fn md_suffix() -> Seq<char> {
    seq!['.', 'm', 'd']
}

/// `name` with `.md` behind it.
pub fn with_md(name: &str) -> (out: String)
    ensures
        out@ == name@ + md_suffix(),
{
    let mut chars = chars_of(name);
    let ghost stem = chars@;
    chars.push('.');
    chars.push('m');
    chars.push('d');
    assert(chars@ == stem + md_suffix());
    string_of(&chars)
}

/// The two paths that are tried before a search: the query as a path below
/// the root, and the same with `.md` behind it.
pub fn candidate_paths(root: &str, query: &str) -> (paths: (String, String))
    ensures
        paths.0@ == joined(root@, query@),
        paths.1@ == joined(root@, query@ + md_suffix()),
{
    let direct = join_path(root, query);
    let named = with_md(query);
    let with_ext = join_path(root, named.as_str());
    (direct, with_ext)
}

/// The path of the file for a new topic with the given title: `<slug>.md`
/// below the root.
pub fn new_topic_path(root: &str, title: &str) -> (path: String)
    ensures
        path@ == joined(root@, slug_of(title@) + md_suffix()),
{
    let slug = slugify(title);
    let name = with_md(slug.as_str());
    join_path(root, name.as_str())
}

/// What a search for the one topic of a command came to.
#[derive(Debug, Clone, Copy, PartialEq, Eq)]
pub enum Resolution {
    /// Nothing matched.
    NotFound,
    /// Exactly one topic matched: the one at this index.
    Found(usize),
    /// More than one topic matched.
    Ambiguous,
}

/// Decides what the matches of a search stand for: one match is the topic,
/// none is a failure, and several are not guessed among.
pub fn resolve(matches: &Vec<Topic>) -> (r: Resolution)
    ensures
        matches.len() == 0 ==> r == Resolution::NotFound,
        matches.len() == 1 ==> r == Resolution::Found(0),
        matches.len() > 1 ==> r == Resolution::Ambiguous,
{
    if matches.len() == 0 {
        Resolution::NotFound
    } else if matches.len() == 1 {
        Resolution::Found(0)
    } else {
        Resolution::Ambiguous
    }
}

} // verus!
