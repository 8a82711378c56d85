//! Broken-link detection.

use crate::markdown::{LinkModel, ParsedLink};
use crate::paths::{join_path, joined, parent, parent_of};
use crate::text::{before_first, chars_of, first_index_of, lemma_position_of};
use crate::topic::{Topic, TopicModel, TopicWarning, WarningModel};
use vstd::prelude::*;
use vstd::string::StrSliceExecFns;

verus! {

/// The file part of a link target: what stands in front of its first `#`.
/// There is none for an empty target and for one that is an anchor only.
pub open spec fn link_path_of(target: Seq<char>) -> Option<Seq<char>> {
    if target.len() == 0 || target[0] == '#' {
        None
    } else {
        Some(before_first(target, '#'))
    }
}

/// Extract the file path from a link target.
/// Returns None if the link should be skipped (anchor-only or empty).
pub fn extract_link_path(target: &str) -> (r: Option<&str>)
    ensures
        r.deep_view() == link_path_of(target@),
        r matches Some(p) ==> p@.len() > 0,
{
    let chars = chars_of(target);
    if chars.len() == 0 || chars[0] == '#' {
        return None;
    }
    let end = first_index_of(&chars, '#');
    proof {
        lemma_position_of(chars@, '#', 0);
    }
    Some(target.substring_char(0, end))
}

/// The path that has to exist for the link to be whole: the file part of the
/// target, taken from the directory of the document. There is none where
/// the link has no file part or the document no directory.
pub open spec fn probe_of(topic_path: Seq<char>, target: Seq<char>) -> Option<Seq<char>> {
    match (link_path_of(target), parent_of(topic_path)) {
        (Some(file), Some(dir)) => Some(joined(dir, file)),
        _ => None,
    }
}

/// The path whose existence decides whether the link is broken.
pub fn probe_path(topic_path: &str, link: &ParsedLink) -> (r: Option<String>)
    ensures
        r.deep_view() == probe_of(topic_path@, link.target@),
{
    match extract_link_path(link.target.as_str()) {
        Some(file) => match parent(topic_path) {
            Some(dir) => Some(join_path(dir.as_str(), file)),
            None => None,
        },
        None => None,
    }
}

/// The warning for a link whose file does not exist; it carries the target
/// as authored.
pub open spec fn broken(link: LinkModel) -> WarningModel {
    WarningModel::BrokenLink { target: link.target, line: link.line, column: link.column }
}

/// What a link check finds: a warning where the link has a path to probe and
/// nothing exists there.
pub open spec fn checked(topic_path: Seq<char>, link: LinkModel, exists: bool) -> Option<
    WarningModel,
> {
    if probe_of(topic_path, link.target) is Some && !exists {
        Some(broken(link))
    } else {
        None
    }
}

/// Check a link of the document at `topic_path`, given whether its
/// [`probe_path`] exists.
pub fn check_link(topic_path: &str, link: &ParsedLink, exists: bool) -> (r: Option<TopicWarning>)
    ensures
        r.deep_view() == checked(topic_path@, link@, exists),
{
    if exists {
        return None;
    }
    match probe_path(topic_path, link) {
        Some(_) => Some(
            TopicWarning::BrokenLink {
                target: link.target.clone(),
                line: link.line,
                column: link.column,
            },
        ),
        None => None,
    }
}

/// The warnings for the first `n` links, in order; a link without an answer
/// in `exists` counts as whole.
pub open spec fn broken_links(
    topic_path: Seq<char>,
    links: Seq<LinkModel>,
    exists: Seq<bool>,
    n: int,
) -> Seq<WarningModel>
    decreases n,
{
    if n <= 0 {
        Seq::empty()
    } else {
        let before = broken_links(topic_path, links, exists, n - 1);
        let found = n - 1 >= exists.len() || exists[n - 1];
        match checked(topic_path, links[n - 1], found) {
            Some(w) => before.push(w),
            None => before,
        }
    }
}

/// The topic after the lint pass: its warnings followed by one for every
/// broken link; nothing else changes.
pub open spec fn linted(t: TopicModel, exists: Seq<bool>) -> TopicModel {
    TopicModel {
        warnings: t.warnings + broken_links(t.path, t.links, exists, t.links.len() as int),
        ..t
    }
}

/// Appends a warning for every link of the topic that is broken, given for
/// each link whether its [`probe_path`] exists.
pub fn with_broken_links(topic: Topic, exists: &Vec<bool>) -> (out: Topic)
    ensures
        out@ == linted(topic@, exists@),
{
    let ghost start = topic@;
    let Topic { path, title, description, links, metadata, warnings } = topic;
    let mut warnings = warnings;
    let ghost all = links.deep_view();
    let mut i: usize = 0;
    assert(start.warnings + Seq::<WarningModel>::empty() == start.warnings);
    while i < links.len()
        invariant
            i <= links.len(),
            all == links.deep_view(),
            start.path == path@,
            warnings.deep_view() == start.warnings + broken_links(
                path@,
                all,
                exists@,
                i as int,
            ),
        decreases links.len() - i,
    {
        let found = i >= exists.len() || exists[i];
        let ghost before = warnings.deep_view();
        assert(all[i as int] == links[i as int]@);
        match check_link(path.as_str(), &links[i], found) {
            Some(w) => {
                warnings.push(w);
                assert(warnings.deep_view() == before.push(w@));
                assert(before.push(w@) == start.warnings + broken_links(
                    path@,
                    all,
                    exists@,
                    i as int,
                ).push(w@));
            },
            None => {},
        }
        i += 1;
    }
    Topic { path, title, description, links, metadata, warnings }
}

/// One missing file gives one warning.
///
/// A document whose only link has a file part, in a directory, where nothing
/// exists at the probed path, gains exactly one warning by the lint pass: a
/// `BrokenLink` with the target as authored, anchor included, at the link's
/// line and column.
pub proof fn lemma_missing_file_warns_once(t: TopicModel, link: LinkModel)
    requires
        t.links == seq![link],
        probe_of(t.path, link.target) is Some,
    ensures
        linted(t, seq![false]).warnings == t.warnings.push(
            WarningModel::BrokenLink { target: link.target, line: link.line, column: link.column },
        ),
{
    let exists = seq![false];
    assert(broken_links(t.path, t.links, exists, 0) == Seq::<WarningModel>::empty());
    assert(broken_links(t.path, t.links, exists, 1) == seq![broken(link)]);
    assert(t.warnings + seq![broken(link)] == t.warnings.push(broken(link)));
}

/// The topics that carry a warning, in order.
pub open spec fn with_issues(topics: Seq<TopicModel>) -> Seq<TopicModel>
    decreases topics.len(),
{
    if topics.len() == 0 {
        Seq::empty()
    } else if topics.last().warnings.len() > 0 {
        with_issues(topics.drop_last()).push(topics.last())
    } else {
        with_issues(topics.drop_last())
    }
}

/// Keeps the topics that carry a warning.
pub fn issues(topics: Vec<Topic>) -> (out: Vec<Topic>)
    ensures
        out.deep_view() == with_issues(topics.deep_view()),
{
    let ghost all = topics.deep_view();
    let mut rest = topics;
    let mut out: Vec<Topic> = Vec::new();
    let ghost mut done: int = 0;
    assert(out.deep_view() == Seq::<TopicModel>::empty());
    assert(rest.deep_view() == all.skip(0));
    while rest.len() > 0
        invariant
            0 <= done <= all.len(),
            rest.deep_view() == all.skip(done),
            out.deep_view() == with_issues(all.take(done)),
        decreases rest.len(),
    {
        let ghost left = rest.deep_view();
        let topic = rest.remove(0);
        proof {
            assert(topic@ == left[0]);
            assert(rest.deep_view() == left.skip(1));
            assert(left.skip(1) == all.skip(done + 1));
            assert(all.take(done + 1).drop_last() == all.take(done));
            assert(all.take(done + 1).last() == topic@);
            assert(topic@.warnings.len() == topic.warnings.len());
        }
        if topic.warnings.len() > 0 {
            let ghost before = out.deep_view();
            out.push(topic);
            assert(out.deep_view() == before.push(all[done]));
        }
        proof {
            done = done + 1;
        }
    }
    assert(all.take(all.len() as int) == all);
    out
}

} // verus!
