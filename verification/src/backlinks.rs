//! Backlinks: the documents that link to a given document.

use crate::paths::{file_name, file_name_of, file_stem, file_stem_of};
use crate::rename::or_empty;
use crate::text::{
    before_first, chars_of, eq_ignore_ascii_case, first_index_of, lower_chars, lowercase_of,
    same_chars, same_ignoring_ascii_case, slice_of, str_eq, string_of,
};
use crate::topic::{Topic, TopicModel};
use vstd::prelude::*;

verus! {

/// The topic answers to the name: by its title or by the stem of its file,
/// the case of ASCII letters aside.
pub open spec fn answers_to(t: TopicModel, name: Seq<char>) -> bool {
    ||| same_ignoring_ascii_case(t.title, name)
    ||| (file_stem_of(t.path) is Some && same_ignoring_ascii_case(file_stem_of(t.path)->0, name))
}

/// The index of the first of the first `n` topics that answers to the name.
pub open spec fn found_among(topics: Seq<TopicModel>, name: Seq<char>, n: int) -> Option<int>
    decreases n,
{
    if n <= 0 {
        None
    } else {
        match found_among(topics, name, n - 1) {
            Some(i) => Some(i),
            None => if answers_to(topics[n - 1], name) {
                Some(n - 1)
            } else {
                None
            },
        }
    }
}

/// The index of the first topic that answers to the name.
pub open spec fn found_topic(topics: Seq<TopicModel>, name: Seq<char>) -> Option<int> {
    found_among(topics, name, topics.len() as int)
}

/// What is found among the first `n` topics is found among all.
pub proof fn lemma_found_among(topics: Seq<TopicModel>, name: Seq<char>, n: int, m: int)
    requires
        0 <= n <= m,
        found_among(topics, name, n) is Some,
    ensures
        found_among(topics, name, m) == found_among(topics, name, n),
    decreases m - n,
{
    if n < m {
        lemma_found_among(topics, name, n, m - 1);
    }
}

/// Whether the topic answers to the name.
pub fn topic_answers(topic: &Topic, name: &str) -> (r: bool)
    ensures
        r == answers_to(topic@, name@),
{
    if eq_ignore_ascii_case(topic.title.as_str(), name) {
        return true;
    }
    match file_stem(topic.path.as_str()) {
        Some(stem) => eq_ignore_ascii_case(stem.as_str(), name),
        None => false,
    }
}

/// Finds the topic that a name stands for: the first whose title or file stem
/// is the name, the case of ASCII letters aside.
pub fn find_topic(topics: &Vec<Topic>, name: &str) -> (r: Option<usize>)
    ensures
        r.deep_view() == match found_topic(topics.deep_view(), name@) {
            Some(i) => Some(i as usize),
            None => None,
        },
        r matches Some(i) ==> i < topics.len() && found_topic(topics.deep_view(), name@) == Some(
            i as int,
        ),
{
    let ghost all = topics.deep_view();
    let mut i: usize = 0;
    while i < topics.len()
        invariant
            i <= topics.len(),
            all == topics.deep_view(),
            found_among(all, name@, i as int) is None,
        decreases topics.len() - i,
    {
        assert(all[i as int] == topics[i as int]@);
        if topic_answers(&topics[i], name) {
            proof {
                lemma_found_among(all, name@, i + 1, all.len() as int);
            }
            return Some(i);
        }
        i += 1;
    }
    None
}

/// A link target points at the file at `path`: without its anchor, its
/// lowercased file name is that of the file, or its lowercased stem is.
pub open spec fn hits(target: Seq<char>, path: Seq<char>) -> bool {
    let file = before_first(target, '#');
    ||| lowercase_of(or_empty(file_name_of(file))) == lowercase_of(or_empty(file_name_of(path)))
    ||| lowercase_of(or_empty(file_stem_of(file))) == lowercase_of(or_empty(file_stem_of(path)))
}

/// One of the first `n` links of `a` points at the file at `path`.
pub open spec fn any_hit(a: TopicModel, path: Seq<char>, n: int) -> bool {
    exists|k: int| 0 <= k < n && k < a.links.len() && hits(#[trigger] a.links[k].target, path)
}

/// Document `a` links to document `b`: it is another file, and one of its
/// links points at the file of `b`.
pub open spec fn links_to(a: TopicModel, b: TopicModel) -> bool {
    a.path != b.path && any_hit(a, b.path, a.links.len() as int)
}

/// The indices of the documents among the first `n` that link to the
/// document at index `t`, in order.
pub open spec fn linking(topics: Seq<TopicModel>, t: int, n: int) -> Seq<usize>
    decreases n,
{
    if n <= 0 {
        Seq::empty()
    } else if links_to(topics[n - 1], topics[t]) {
        linking(topics, t, n - 1).push((n - 1) as usize)
    } else {
        linking(topics, t, n - 1)
    }
}

/// The backlinks of the document at index `t`: the indices of all documents
/// that link to it.
pub open spec fn backlinks_of(topics: Seq<TopicModel>, t: int) -> Seq<usize> {
    linking(topics, t, topics.len() as int)
}

/// The indices that `linking` lists lie below `n` and rise, and an index
/// below `n` is listed if and only if its document links to the target.
pub proof fn lemma_linking(topics: Seq<TopicModel>, t: int, n: int)
    requires
        0 <= n <= topics.len() <= usize::MAX,
    ensures
        forall|k: int| 0 <= k < linking(topics, t, n).len() ==> #[trigger] linking(topics, t, n)[k] < n,
        forall|j: int, k: int|
            0 <= j < k < linking(topics, t, n).len() ==> linking(topics, t, n)[j] < linking(
                topics,
                t,
                n,
            )[k],
        forall|a: int|
            0 <= a < n ==> (linking(topics, t, n).contains(a as usize) <==> links_to(
                #[trigger] topics[a],
                topics[t],
            )),
    decreases n,
{
    if n > 0 {
        lemma_linking(topics, t, n - 1);
        let before = linking(topics, t, n - 1);
        let now = linking(topics, t, n);
        let last = (n - 1) as usize;
        if links_to(topics[n - 1], topics[t]) {
            assert(now == before.push(last));
            assert(now[before.len() as int] == last);
            assert forall|a: int| 0 <= a < n implies (now.contains(a as usize) <==> links_to(
                #[trigger] topics[a],
                topics[t],
            )) by {
                if a < n - 1 {
                    if before.contains(a as usize) {
                        let k = choose|k: int| 0 <= k < before.len() && before[k] == a as usize;
                        assert(now[k] == a as usize);
                    }
                    if now.contains(a as usize) {
                        let k = choose|k: int| 0 <= k < now.len() && now[k] == a as usize;
                        assert(k < before.len());
                        assert(before[k] == a as usize);
                    }
                }
            }
        } else {
            assert forall|a: int| 0 <= a < n implies (now.contains(a as usize) <==> links_to(
                #[trigger] topics[a],
                topics[t],
            )) by {
                if a == n - 1 && now.contains(a as usize) {
                    let k = choose|k: int| 0 <= k < now.len() && now[k] == a as usize;
                    assert(now[k] < n - 1);
                }
            }
        }
    }
}

/// A document is a backlink of another exactly where it links to it, and
/// then once.
///
/// The backlinks of the document at index `t` rise strictly, so none occurs
/// twice, however many links a document holds; and the document at index `a`
/// is among them if and only if it is another file and one of its links
/// points at the file of `t`.
pub proof fn lemma_backlinks_once(topics: Seq<TopicModel>, t: int, a: int)
    requires
        topics.len() <= usize::MAX,
        0 <= a < topics.len(),
    ensures
        backlinks_of(topics, t).contains(a as usize) <==> links_to(topics[a], topics[t]),
        forall|j: int, k: int|
            0 <= j < k < backlinks_of(topics, t).len() ==> backlinks_of(topics, t)[j]
                < backlinks_of(topics, t)[k],
        backlinks_of(topics, t).to_multiset().count(a as usize) <= 1,
{
    lemma_linking(topics, t, topics.len() as int);
    let found = backlinks_of(topics, t);
    assert(found.no_duplicates());
    found.lemma_multiset_has_no_duplicates();
    if !found.to_multiset().contains(a as usize) {
        assert(found.to_multiset().count(a as usize) == 0);
    }
}

/// The lowercased text of an optional text, of the empty text where there is
/// none.
pub fn lowered_or_empty(s: &Option<String>) -> (out: Vec<char>)
    ensures
        out@ == lowercase_of(or_empty(s.deep_view())),
{
    match s {
        Some(t) => lower_chars(t.as_str()),
        None => {
            proof {
                reveal_strlit("");
            }
            assert(""@ == Seq::<char>::empty());
            lower_chars("")
        },
    }
}

/// Whether the link target points at a file with the given lowercased name
/// and stem.
fn target_hits(
    target: &str,
    name: &Vec<char>,
    stem: &Vec<char>,
    Ghost(path): Ghost<Seq<char>>,
) -> (r: bool)
    requires
        name@ == lowercase_of(or_empty(file_name_of(path))),
        stem@ == lowercase_of(or_empty(file_stem_of(path))),
    ensures
        r == hits(target@, path),
{
    let chars = chars_of(target);
    let end = first_index_of(&chars, '#');
    let file = string_of(&slice_of(&chars, 0, end));
    assert(chars@.subrange(0, end as int) == before_first(target@, '#'));
    let link_name = lowered_or_empty(&file_name(file.as_str()));
    if same_chars(&link_name, name) {
        return true;
    }
    let link_stem = lowered_or_empty(&file_stem(file.as_str()));
    same_chars(&link_stem, stem)
}

/// The documents that link to the document at index `target`, each once, in
/// the order of the documents.
pub fn backlinks(topics: &Vec<Topic>, target: usize) -> (out: Vec<usize>)
    requires
        target < topics.len(),
    ensures
        out@ == backlinks_of(topics.deep_view(), target as int),
{
    let ghost all = topics.deep_view();
    let path = topics[target].path.as_str();
    assert(all[target as int] == topics[target as int]@);
    let name = lowered_or_empty(&file_name(path));
    let stem = lowered_or_empty(&file_stem(path));
    let mut out: Vec<usize> = Vec::new();
    let mut i: usize = 0;
    while i < topics.len()
        invariant
            i <= topics.len(),
            target < topics.len(),
            all == topics.deep_view(),
            path@ == all[target as int].path,
            name@ == lowercase_of(or_empty(file_name_of(path@))),
            stem@ == lowercase_of(or_empty(file_stem_of(path@))),
            out@ == linking(all, target as int, i as int),
        decreases topics.len() - i,
    {
        let topic = &topics[i];
        assert(all[i as int] == topic@);
        let mut found = false;
        if !str_eq(topic.path.as_str(), path) {
            let mut k: usize = 0;
            while k < topic.links.len() && !found
                invariant
                    k <= topic.links.len(),
                    name@ == lowercase_of(or_empty(file_name_of(path@))),
                    stem@ == lowercase_of(or_empty(file_stem_of(path@))),
                    found ==> any_hit(topic@, path@, topic.links.len() as int),
                    !found ==> !any_hit(topic@, path@, k as int),
                decreases topic.links.len() - k + if found { 0int } else { 1int },
            {
                assert(topic@.links[k as int].target == topic.links[k as int].target@);
                if target_hits(topic.links[k].target.as_str(), &name, &stem, Ghost(path@)) {
                    found = true;
                } else {
                    k += 1;
                }
            }
        }
        if found {
            out.push(i);
        }
        i += 1;
    }
    out
}

/// Find topics that link to the topic that `name` stands for; `None` where no
/// topic answers to the name.
pub fn backlinks_for(topics: &Vec<Topic>, name: &str) -> (out: Option<Vec<usize>>)
    ensures
        match found_topic(topics.deep_view(), name@) {
            Some(t) => out.deep_view() == Some(backlinks_of(topics.deep_view(), t)),
            None => out is None,
        },
{
    match find_topic(topics, name) {
        Some(t) => Some(backlinks(topics, t)),
        None => None,
    }
}

} // verus!
