//! The collection of topics: building, ordering, searching and statistics.

use crate::constants::TEMPLATE_FILE;
use crate::keyed::{lemma_slot_prefix, slot};
use crate::meta::{MetaModel, MetaValue};
use crate::paths::{extension, extension_of, file_name, file_name_of};
use crate::query::{filter_holds, query_of, satisfies, words, Query, QueryModel};
use crate::text::{contains, lower_chars, lowercase_of, str_eq};
use crate::topic::{
    bool_text, direct_texts, topic_field, topic_of, well_formed, Topic, TopicModel,
};
use vstd::prelude::*;

verus! {

/// The order in which topics are listed.
#[derive(Debug, Clone, Copy, PartialEq, Eq)]
pub enum SortOrder {
    /// Sort alphabetically by title (default)
    Alpha,
    /// Sort by most recently modified
    Modified,
    /// Sort by creation time
    Created,
}

impl Default for SortOrder {
    fn default() -> (order: SortOrder)
        ensures
            order == SortOrder::Alpha,
    {
        SortOrder::Alpha
    }
}

/// A file as it was read: its path, its text and its two time stamps, each a
/// count of nanoseconds from a fixed instant, or `None` where the file system
/// gave none.
#[derive(Debug)]
pub struct SourceFile {
    pub path: String,
    pub content: String,
    pub modified: Option<i128>,
    pub created: Option<i128>,
}

/// The mathematical content of a [`SourceFile`].
pub struct FileModel {
    pub path: Seq<char>,
    pub content: Seq<char>,
    pub modified: Option<i128>,
    pub created: Option<i128>,
}

impl View for SourceFile {
    type V = FileModel;

    open spec fn view(&self) -> FileModel {
        FileModel {
            path: self.path@,
            content: self.content@,
            modified: self.modified,
            created: self.created,
        }
    }
}

impl DeepView for SourceFile {
    type V = FileModel;

    open spec fn deep_view(&self) -> FileModel {
        self@
    }
}

/// A topic together with the time stamps of its file.
#[derive(Debug)]
pub struct Entry {
    pub topic: Topic,
    pub modified: Option<i128>,
    pub created: Option<i128>,
}

/// The mathematical content of an [`Entry`].
pub struct EntryModel {
    pub topic: TopicModel,
    pub modified: Option<i128>,
    pub created: Option<i128>,
}

impl View for Entry {
    type V = EntryModel;

    open spec fn view(&self) -> EntryModel {
        EntryModel { topic: self.topic@, modified: self.modified, created: self.created }
    }
}

impl DeepView for Entry {
    type V = EntryModel;

    open spec fn deep_view(&self) -> EntryModel {
        self@
    }
}

/// `a` is at most `b` in the order of strings: character by character, by code
/// point, a proper prefix first.
pub open spec fn lex_le(a: Seq<char>, b: Seq<char>) -> bool
    decreases a.len(),
{
    if a.len() == 0 {
        true
    } else if b.len() == 0 {
        false
    } else if a[0] != b[0] {
        (a[0] as u32) < (b[0] as u32)
    } else {
        lex_le(a.drop_first(), b.drop_first())
    }
}

/// `a` is at least as recent as `b`; a missing time stamp is older than any.
pub open spec fn not_older(a: Option<i128>, b: Option<i128>) -> bool {
    match (a, b) {
        (_, None) => true,
        (None, Some(_)) => false,
        (Some(x), Some(y)) => x >= y,
    }
}

/// `a` may stand in front of `b` in the given order: its lowercased title is
/// not greater, or its time stamp is not older.
pub open spec fn precedes(order: SortOrder, a: EntryModel, b: EntryModel) -> bool {
    match order {
        SortOrder::Alpha => lex_le(lowercase_of(a.topic.title), lowercase_of(b.topic.title)),
        SortOrder::Modified => not_older(a.modified, b.modified),
        SortOrder::Created => not_older(a.created, b.created),
    }
}

/// `x` put into `s` behind the last entry that may stand in front of it.
pub open spec fn inserted(order: SortOrder, s: Seq<EntryModel>, x: EntryModel) -> Seq<EntryModel>
    decreases s.len(),
{
    if s.len() == 0 {
        seq![x]
    } else if precedes(order, s.last(), x) {
        s.push(x)
    } else {
        inserted(order, s.drop_last(), x).push(s.last())
    }
}

/// The entries in the given order; entries that tie keep the order in which
/// they came.
pub open spec fn sorted(order: SortOrder, s: Seq<EntryModel>) -> Seq<EntryModel>
    decreases s.len(),
{
    if s.len() == 0 {
        Seq::empty()
    } else {
        inserted(order, sorted(order, s.drop_last()), s.last())
    }
}

/// Each entry may stand in front of the next.
pub open spec fn in_order(order: SortOrder, s: Seq<EntryModel>) -> bool {
    forall|i: int| 0 <= i < s.len() - 1 ==> precedes(order, #[trigger] s[i], s[i + 1])
}

/// Whether a path names a topic file: its extension is `md` and it is not the
/// template file.
pub open spec fn selects(path: Seq<char>) -> bool {
    &&& file_name_of(path) != Some(TEMPLATE_FILE@)
    &&& extension_of(path) == Some("md"@)
}

/// The entry that a file gives.
pub open spec fn entry_of(file: FileModel) -> EntryModel {
    EntryModel {
        topic: topic_of(file.path, file.content),
        modified: file.modified,
        created: file.created,
    }
}

/// The entries of the topic files among `files`, in the order of the files.
pub open spec fn entries_of(files: Seq<FileModel>) -> Seq<EntryModel>
    decreases files.len(),
{
    if files.len() == 0 {
        Seq::empty()
    } else if selects(files.last().path) {
        entries_of(files.drop_last()).push(entry_of(files.last()))
    } else {
        entries_of(files.drop_last())
    }
}

/// The entries whose topic meets the query, in order.
pub open spec fn matching(s: Seq<EntryModel>, q: QueryModel) -> Seq<EntryModel>
    decreases s.len(),
{
    if s.len() == 0 {
        Seq::empty()
    } else if meets(s.last().topic, q) {
        matching(s.drop_last(), q).push(s.last())
    } else {
        matching(s.drop_last(), q)
    }
}

/// The topic meets the query: every filter key names a field of the topic
/// that matches all values required of it, and the lowercased title contains
/// every term.
pub open spec fn meets(t: TopicModel, q: QueryModel) -> bool {
    &&& forall|i: int|
        0 <= i < q.filters.len() ==> filter_holds(
            topic_field(t, (#[trigger] q.filters[i]).0),
            q.filters[i].1,
        )
    &&& forall|j: int|
        0 <= j < q.terms.len() ==> contains(lowercase_of(t.title), #[trigger] q.terms[j])
}

/// For a topic, meeting a query is what matching it decides.
pub proof fn lemma_meets(topic: &Topic, q: QueryModel)
    ensures
        satisfies(topic, q) == meets(topic@, q),
{
}

/// The topics of the entries.
pub open spec fn topics(s: Seq<EntryModel>) -> Seq<TopicModel> {
    Seq::new(s.len(), |i: int| s[i].topic)
}

/// The index of the files: the entries of the topic files, in the given order.
pub open spec fn indexed(files: Seq<FileModel>, order: SortOrder) -> Seq<EntryModel> {
    sorted(order, entries_of(files))
}

/// The entries that a search keeps: all of them for an empty query, else those
/// that meet it, put in order again.
pub open spec fn searched(s: Seq<EntryModel>, q: QueryModel, order: SortOrder) -> Seq<
    EntryModel,
> {
    if q.filters.len() == 0 && q.terms.len() == 0 {
        s
    } else {
        sorted(order, matching(s, q))
    }
}

/// Where `x` goes: behind `s[p - 1]`, which may stand in front of it, and in
/// front of all later entries, which may not.
pub proof fn lemma_inserted_at(order: SortOrder, s: Seq<EntryModel>, x: EntryModel, p: int)
    requires
        0 <= p <= s.len(),
        p > 0 ==> precedes(order, s[p - 1], x),
        forall|j: int| p <= j < s.len() ==> !precedes(order, #[trigger] s[j], x),
    ensures
        inserted(order, s, x) == s.take(p).push(x) + s.skip(p),
    decreases s.len(),
{
    if s.len() == 0 {
        assert(s.take(p).push(x) + s.skip(p) == seq![x]);
    } else if p == s.len() {
        assert(s.take(p) == s);
        assert(s.push(x) + s.skip(p) == s.push(x));
    } else {
        assert(!precedes(order, s[s.len() - 1], x));
        let t = s.drop_last();
        assert forall|j: int| p <= j < t.len() implies !precedes(order, #[trigger] t[j], x) by {
            assert(t[j] == s[j]);
        }
        if p > 0 {
            assert(t[p - 1] == s[p - 1]);
        }
        lemma_inserted_at(order, t, x, p);
        assert(t.take(p) == s.take(p));
        assert((t.take(p).push(x) + t.skip(p)).push(s.last()) == s.take(p).push(x) + s.skip(p));
    }
}

/// Two different characters have different code points.
pub proof fn lemma_code_points_differ(x: char, y: char)
    requires
        x != y,
    ensures
        (x as u32) != (y as u32),
{
}

/// Of two strings, one is at most the other.
pub proof fn lemma_lex_le_total(a: Seq<char>, b: Seq<char>)
    ensures
        lex_le(a, b) || lex_le(b, a),
    decreases a.len(),
{
    if a.len() > 0 && b.len() > 0 {
        if a[0] == b[0] {
            lemma_lex_le_total(a.drop_first(), b.drop_first());
        } else {
            lemma_code_points_differ(a[0], b[0]);
        }
    }
}

/// The order of strings is transitive.
pub proof fn lemma_lex_le_transitive(a: Seq<char>, b: Seq<char>, c: Seq<char>)
    requires
        lex_le(a, b),
        lex_le(b, c),
    ensures
        lex_le(a, c),
    decreases a.len(),
{
    if a.len() > 0 && a[0] == b[0] && b[0] == c[0] {
        lemma_lex_le_transitive(a.drop_first(), b.drop_first(), c.drop_first());
    }
}

/// Of two entries, one may stand in front of the other.
pub proof fn lemma_precedes_total(order: SortOrder, a: EntryModel, b: EntryModel)
    ensures
        precedes(order, a, b) || precedes(order, b, a),
{
    lemma_lex_le_total(lowercase_of(a.topic.title), lowercase_of(b.topic.title));
}

/// What may stand in front of an entry may stand in front of all that the
/// entry may stand in front of.
pub proof fn lemma_precedes_transitive(
    order: SortOrder,
    a: EntryModel,
    b: EntryModel,
    c: EntryModel,
)
    requires
        precedes(order, a, b),
        precedes(order, b, c),
    ensures
        precedes(order, a, c),
{
    if order == SortOrder::Alpha {
        lemma_lex_le_transitive(
            lowercase_of(a.topic.title),
            lowercase_of(b.topic.title),
            lowercase_of(c.topic.title),
        );
    }
}

/// Putting an entry into an ordered sequence leaves it ordered, one longer,
/// and with the same entries and the new one.
pub proof fn lemma_inserted(order: SortOrder, s: Seq<EntryModel>, x: EntryModel)
    ensures
        inserted(order, s, x).len() == s.len() + 1,
        inserted(order, s, x).last() == x || (s.len() > 0 && inserted(order, s, x).last()
            == s.last()),
        inserted(order, s, x).to_multiset() == s.to_multiset().insert(x),
        in_order(order, s) ==> in_order(order, inserted(order, s, x)),
    decreases s.len(),
{
    let r = inserted(order, s, x);
    vstd::seq_lib::to_multiset_build(s, x);
    if s.len() == 0 {
        assert(r == s.push(x));
    } else if precedes(order, s.last(), x) {
        if in_order(order, s) {
            assert forall|i: int| 0 <= i < r.len() - 1 implies precedes(
                order,
                #[trigger] r[i],
                r[i + 1],
            ) by {
                if i < s.len() - 1 {
                    assert(precedes(order, s[i], s[i + 1]));
                }
            }
        }
    } else {
        let t = s.drop_last();
        let u = inserted(order, t, x);
        lemma_inserted(order, t, x);
        vstd::seq_lib::to_multiset_build(t, s.last());
        vstd::seq_lib::to_multiset_build(u, s.last());
        assert(t.push(s.last()) == s);
        assert(t.to_multiset().insert(x).insert(s.last()) =~= t.to_multiset().insert(
            s.last(),
        ).insert(x));
        assert(r.to_multiset() == s.to_multiset().insert(x));
        if in_order(order, s) {
            assert forall|i: int| 0 <= i < t.len() - 1 implies precedes(
                order,
                #[trigger] t[i],
                t[i + 1],
            ) by {
                assert(precedes(order, s[i], s[i + 1]));
            }
            assert(precedes(order, u.last(), s.last())) by {
                if u.last() == x {
                    lemma_precedes_total(order, s.last(), x);
                } else {
                    assert(precedes(order, s[s.len() - 2], s[s.len() - 2 + 1]));
                }
            }
            assert forall|i: int| 0 <= i < r.len() - 1 implies precedes(
                order,
                #[trigger] r[i],
                r[i + 1],
            ) by {
                if i < u.len() - 1 {
                    assert(precedes(order, u[i], u[i + 1]));
                }
            }
        }
    }
}

/// Sorting gives an ordered sequence of the same entries.
pub proof fn lemma_sorted(order: SortOrder, s: Seq<EntryModel>)
    ensures
        in_order(order, sorted(order, s)),
        sorted(order, s).len() == s.len(),
        sorted(order, s).to_multiset() == s.to_multiset(),
    decreases s.len(),
{
    if s.len() > 0 {
        lemma_sorted(order, s.drop_last());
        lemma_inserted(order, sorted(order, s.drop_last()), s.last());
        vstd::seq_lib::to_multiset_build(s.drop_last(), s.last());
        assert(s.drop_last().push(s.last()) == s);
        assert(sorted(order, s).to_multiset() == s.to_multiset());
    } else {
        assert(s == Seq::<EntryModel>::empty());
    }
}

/// In an ordered sequence every entry may stand in front of every later one.
pub proof fn lemma_in_order_throughout(order: SortOrder, s: Seq<EntryModel>, i: int, j: int)
    requires
        in_order(order, s),
        0 <= i < j < s.len(),
    ensures
        precedes(order, s[i], s[j]),
    decreases j - i,
{
    assert(precedes(order, s[j - 1], s[j - 1 + 1]));
    if i < j - 1 {
        lemma_in_order_throughout(order, s, i, j - 1);
        lemma_precedes_transitive(order, s[i], s[j - 1], s[j]);
    }
}

/// Sorting an ordered sequence changes nothing.
pub proof fn lemma_sorted_keeps_order(order: SortOrder, s: Seq<EntryModel>)
    requires
        in_order(order, s),
    ensures
        sorted(order, s) == s,
    decreases s.len(),
{
    if s.len() > 0 {
        let t = s.drop_last();
        assert forall|i: int| 0 <= i < t.len() - 1 implies precedes(
            order,
            #[trigger] t[i],
            t[i + 1],
        ) by {
            assert(precedes(order, s[i], s[i + 1]));
        }
        lemma_sorted_keeps_order(order, t);
        if t.len() > 0 {
            assert(precedes(order, s[s.len() - 2], s[s.len() - 2 + 1]));
        }
        assert(t.push(s.last()) == s);
    }
}

/// Every topic among the entries meets the query.
pub open spec fn all_meet(s: Seq<EntryModel>, q: QueryModel) -> bool {
    forall|i: int| 0 <= i < s.len() ==> meets((#[trigger] s[i]).topic, q)
}

/// What `matching` keeps meets the query, and where all entries meet it,
/// `matching` keeps them all.
pub proof fn lemma_matching(s: Seq<EntryModel>, q: QueryModel)
    ensures
        all_meet(matching(s, q), q),
        all_meet(s, q) ==> matching(s, q) == s,
    decreases s.len(),
{
    if s.len() > 0 {
        let t = s.drop_last();
        lemma_matching(t, q);
        if all_meet(s, q) {
            assert forall|i: int| 0 <= i < t.len() implies meets((#[trigger] t[i]).topic, q) by {
                assert(t[i] == s[i]);
            }
            assert(meets(s[s.len() - 1].topic, q));
            assert(t.push(s.last()) == s);
        }
    }
}

/// Sorting entries that all meet a query gives entries that all meet it.
pub proof fn lemma_sorted_all_meet(order: SortOrder, s: Seq<EntryModel>, q: QueryModel)
    requires
        all_meet(s, q),
    ensures
        all_meet(sorted(order, s), q),
{
    let r = sorted(order, s);
    lemma_sorted(order, s);
    assert forall|i: int| 0 <= i < r.len() implies meets((#[trigger] r[i]).topic, q) by {
        r.to_multiset_ensures();
        s.to_multiset_ensures();
        assert(r.contains(r[i]));
        assert(r.to_multiset().count(r[i]) > 0);
        assert(s.to_multiset().count(r[i]) > 0);
        assert(s.contains(r[i]));
        let j = choose|j: int| 0 <= j < s.len() && s[j] == r[i];
        assert(meets(s[j].topic, q));
    }
}

/// Searching is idempotent.
///
/// Searching the result of a search with the same query and the same order
/// gives that result again.
pub proof fn lemma_search_idempotent(s: Seq<EntryModel>, q: QueryModel, order: SortOrder)
    ensures
        searched(searched(s, q, order), q, order) == searched(s, q, order),
{
    if !(q.filters.len() == 0 && q.terms.len() == 0) {
        let kept = matching(s, q);
        let once = sorted(order, kept);
        lemma_matching(s, q);
        lemma_sorted_all_meet(order, kept, q);
        lemma_matching(once, q);
        lemma_sorted(order, kept);
        lemma_sorted_keeps_order(order, once);
    }
}

/// The index holds each topic file once and is in order, and an empty query
/// keeps all of it.
///
/// The entries of the index are those of the topic files, each as often as it
/// came; every entry may stand in front of every later one; and a search with
/// a query without filters and terms returns the index as it is.
pub proof fn lemma_empty_query_keeps_index(files: Seq<FileModel>, q: QueryModel, order: SortOrder)
    requires
        q.filters.len() == 0,
        q.terms.len() == 0,
    ensures
        searched(indexed(files, order), q, order) == indexed(files, order),
        indexed(files, order).to_multiset() == entries_of(files).to_multiset(),
        forall|i: int, j: int|
            0 <= i < j < indexed(files, order).len() ==> precedes(
                order,
                #[trigger] indexed(files, order)[i],
                #[trigger] indexed(files, order)[j],
            ),
{
    let all = indexed(files, order);
    lemma_sorted(order, entries_of(files));
    assert forall|i: int, j: int| 0 <= i < j < all.len() implies precedes(
        order,
        #[trigger] all[i],
        #[trigger] all[j],
    ) by {
        lemma_in_order_throughout(order, all, i, j);
    }
}

/// Whether `a` is at most `b` in the order of strings.
pub fn chars_le(a: &Vec<char>, b: &Vec<char>) -> (r: bool)
    ensures
        r == lex_le(a@, b@),
{
    let mut i: usize = 0;
    assert(a@.skip(0) == a@);
    assert(b@.skip(0) == b@);
    while i < a.len()
        invariant
            i <= a.len(),
            i <= b.len(),
            lex_le(a@, b@) == lex_le(a@.skip(i as int), b@.skip(i as int)),
        decreases a.len() - i,
    {
        if i >= b.len() {
            return false;
        }
        proof {
            assert(a@.skip(i as int)[0] == a@[i as int]);
            assert(b@.skip(i as int)[0] == b@[i as int]);
            assert(a@.skip(i as int).drop_first() == a@.skip(i + 1));
            assert(b@.skip(i as int).drop_first() == b@.skip(i + 1));
        }
        if a[i] != b[i] {
            return (a[i] as u32) < (b[i] as u32);
        }
        i += 1;
    }
    true
}

/// Whether `a` is at least as recent as `b`.
pub fn stamp_not_older(a: Option<i128>, b: Option<i128>) -> (r: bool)
    ensures
        r == not_older(a, b),
{
    match (a, b) {
        (_, None) => true,
        (None, Some(_)) => false,
        (Some(x), Some(y)) => x >= y,
    }
}

/// Whether `a` may stand in front of `b` in the given order.
pub fn may_precede(order: SortOrder, a: &Entry, b: &Entry) -> (r: bool)
    ensures
        r == precedes(order, a@, b@),
{
    match order {
        SortOrder::Alpha => {
            let x = lower_chars(a.topic.title.as_str());
            let y = lower_chars(b.topic.title.as_str());
            chars_le(&x, &y)
        },
        SortOrder::Modified => stamp_not_older(a.modified, b.modified),
        SortOrder::Created => stamp_not_older(a.created, b.created),
    }
}

/// Sort entries according to the specified order. Entries that tie stay in the
/// order in which they came.
pub fn sort_entries(entries: Vec<Entry>, order: SortOrder) -> (out: Vec<Entry>)
    ensures
        out.deep_view() == sorted(order, entries.deep_view()),
{
    let ghost all = entries.deep_view();
    let mut rest = entries;
    let mut out: Vec<Entry> = Vec::new();
    let ghost mut done: int = 0;
    assert(out.deep_view() == Seq::<EntryModel>::empty());
    assert(rest.deep_view() == all.skip(0));
    while rest.len() > 0
        invariant
            0 <= done <= all.len(),
            rest.deep_view() == all.skip(done),
            out.deep_view() == sorted(order, all.take(done)),
        decreases rest.len(),
    {
        let ghost left = rest.deep_view();
        let entry = rest.remove(0);
        proof {
            assert(entry@ == left[0]);
            assert(rest.deep_view() == left.skip(1));
            assert(left.skip(1) == all.skip(done + 1));
            assert(all.take(done + 1).drop_last() == all.take(done));
            assert(all.take(done + 1).last() == entry@);
        }
        let ghost before = out.deep_view();
        let mut p: usize = out.len();
        while p > 0 && !may_precede(order, &out[p - 1], &entry)
            invariant
                p <= out.len(),
                before == out.deep_view(),
                forall|j: int| p <= j < before.len() ==> !precedes(order, #[trigger] before[j], entry@),
            decreases p,
        {
            assert(before[p - 1] == out[p - 1]@);
            p -= 1;
        }
        proof {
            if p > 0 {
                assert(before[p - 1] == out[p - 1]@);
            }
            lemma_inserted_at(order, before, entry@, p as int);
        }
        out.insert(p, entry);
        assert(out.deep_view() == before.take(p as int).push(entry@) + before.skip(p as int));
        proof {
            done = done + 1;
        }
    }
    assert(all.take(all.len() as int) == all);
    out
}

/// Whether a path names a topic file.
pub fn is_topic_file(path: &str) -> (r: bool)
    ensures
        r == selects(path@),
{
    let is_template = match file_name(path) {
        Some(name) => str_eq(name.as_str(), TEMPLATE_FILE),
        None => false,
    };
    if is_template {
        return false;
    }
    match extension(path) {
        Some(ext) => str_eq(ext.as_str(), "md"),
        None => false,
    }
}

/// Every topic among the entries is well formed.
pub open spec fn all_well_formed(s: Seq<EntryModel>) -> bool {
    forall|i: int| 0 <= i < s.len() ==> well_formed((#[trigger] s[i]).topic)
}

/// Assembles the topic files among `files`, in the order of the files.
pub fn read_entries(files: Vec<SourceFile>) -> (out: Vec<Entry>)
    ensures
        out.deep_view() == entries_of(files.deep_view()),
        all_well_formed(out.deep_view()),
{
    let ghost all = files.deep_view();
    let mut out: Vec<Entry> = Vec::new();
    let mut i: usize = 0;
    assert(out.deep_view() == Seq::<EntryModel>::empty());
    while i < files.len()
        invariant
            i <= files.len(),
            all == files.deep_view(),
            out.deep_view() == entries_of(all.take(i as int)),
            all_well_formed(out.deep_view()),
        decreases files.len() - i,
    {
        proof {
            assert(all.take(i + 1).drop_last() == all.take(i as int));
            assert(all.take(i + 1).last() == files[i as int]@);
        }
        let file = &files[i];
        if is_topic_file(file.path.as_str()) {
            let ghost before = out.deep_view();
            let topic = Topic::from_content(file.path.as_str(), file.content.as_str());
            let entry = Entry { topic, modified: file.modified, created: file.created };
            out.push(entry);
            assert(out.deep_view() == before.push(entry_of(files[i as int]@)));
        }
        i += 1;
    }
    assert(all.take(files.len() as int) == all);
    out
}

/// The index of the files: the topic files among them, assembled and put in
/// the given order.
pub fn collect(files: Vec<SourceFile>, sort: SortOrder) -> (out: Vec<Entry>)
    ensures
        out.deep_view() == indexed(files.deep_view(), sort),
{
    sort_entries(read_entries(files), sort)
}

/// The topics of the entries, in order.
pub fn into_topics(entries: Vec<Entry>) -> (out: Vec<Topic>)
    ensures
        out.deep_view() == topics(entries.deep_view()),
{
    let ghost all = entries.deep_view();
    let mut rest = entries;
    let mut out: Vec<Topic> = Vec::new();
    let ghost mut done: int = 0;
    assert(rest.deep_view() == all.skip(0));
    while rest.len() > 0
        invariant
            0 <= done <= all.len(),
            rest.deep_view() == all.skip(done),
            out.len() == done,
            forall|k: int| 0 <= k < done ==> (#[trigger] out[k])@ == all[k].topic,
        decreases rest.len(),
    {
        let ghost left = rest.deep_view();
        let entry = rest.remove(0);
        proof {
            assert(entry@ == left[0]);
            assert(rest.deep_view() == left.skip(1));
            assert(left.skip(1) == all.skip(done + 1));
        }
        out.push(entry.topic);
        proof {
            done = done + 1;
        }
    }
    out
}

/// The entries that meet the query, in order.
pub fn keep_matching(entries: Vec<Entry>, query: &Query) -> (out: Vec<Entry>)
    ensures
        out.deep_view() == matching(entries.deep_view(), query@),
{
    let ghost all = entries.deep_view();
    let mut rest = entries;
    let mut out: Vec<Entry> = Vec::new();
    let ghost mut done: int = 0;
    assert(out.deep_view() == Seq::<EntryModel>::empty());
    assert(rest.deep_view() == all.skip(0));
    while rest.len() > 0
        invariant
            0 <= done <= all.len(),
            rest.deep_view() == all.skip(done),
            out.deep_view() == matching(all.take(done), query@),
        decreases rest.len(),
    {
        let ghost left = rest.deep_view();
        let entry = rest.remove(0);
        proof {
            assert(entry@ == left[0]);
            assert(rest.deep_view() == left.skip(1));
            assert(left.skip(1) == all.skip(done + 1));
            assert(all.take(done + 1).drop_last() == all.take(done));
            assert(all.take(done + 1).last() == entry@);
            lemma_meets(&entry.topic, query@);
        }
        if crate::query::matches(&entry.topic, query) {
            let ghost before = out.deep_view();
            out.push(entry);
            assert(out.deep_view() == before.push(all[done]));
        }
        proof {
            done = done + 1;
        }
    }
    assert(all.take(all.len() as int) == all);
    out
}

/// Narrows entries down to those that meet the query text, in the given
/// order. An empty query keeps the entries as they are.
pub fn refine(entries: Vec<Entry>, query_str: &str, sort: SortOrder) -> (out: Vec<Entry>)
    ensures
        out.deep_view() == searched(entries.deep_view(), query_of(words(query_str@)), sort),
{
    let query = Query::parse(query_str);
    if query.is_empty() {
        return entries;
    }
    sort_entries(keep_matching(entries, &query), sort)
}

/// Build an index of all topics among the files.
pub fn build(files: Vec<SourceFile>, sort: SortOrder) -> (out: Vec<Topic>)
    ensures
        out.deep_view() == topics(indexed(files.deep_view(), sort)),
{
    into_topics(collect(files, sort))
}

/// List all topics.
pub fn list(files: Vec<SourceFile>, sort: SortOrder) -> (out: Vec<Topic>)
    ensures
        out.deep_view() == topics(indexed(files.deep_view(), sort)),
{
    build(files, sort)
}

/// Search topics by query string.
pub fn search(files: Vec<SourceFile>, query_str: &str, sort: SortOrder) -> (out: Vec<Topic>)
    ensures
        out.deep_view() == topics(
            searched(indexed(files.deep_view(), sort), query_of(words(query_str@)), sort),
        ),
{
    into_topics(refine(collect(files, sort), query_str, sort))
}

/// Statistics about the index.
#[derive(Debug, Default)]
pub struct IndexStats {
    pub total: usize,
    /// Count of topics using each field (field_name -> count), each field
    /// once, in order of first use.
    pub fields: Vec<(String, usize)>,
    /// Values for each field with their counts (field_name -> (value -> count))
    pub field_values: Vec<(String, Vec<(String, usize)>)>,
}

/// The mathematical content of an [`IndexStats`].
pub struct StatsModel {
    pub total: nat,
    pub fields: Seq<(Seq<char>, usize)>,
    pub field_values: Seq<(Seq<char>, Seq<(Seq<char>, usize)>)>,
}

impl View for IndexStats {
    type V = StatsModel;

    open spec fn view(&self) -> StatsModel {
        StatsModel {
            total: self.total as nat,
            fields: self.fields.deep_view(),
            field_values: self.field_values.deep_view(),
        }
    }
}

/// One more, up to `usize::MAX`.
pub open spec fn succ(n: usize) -> usize {
    if n < usize::MAX {
        (n + 1) as usize
    } else {
        n
    }
}

/// The counts with one more for `key`; a new key is added at the end.
pub open spec fn counted(counts: Seq<(Seq<char>, usize)>, key: Seq<char>) -> Seq<
    (Seq<char>, usize),
> {
    match slot(counts, key) {
        Some(i) => counts.update(i, (key, succ(counts[i].1))),
        None => counts.push((key, 1usize)),
    }
}

/// The counts with one more for each of `keys`.
pub open spec fn counted_all(counts: Seq<(Seq<char>, usize)>, keys: Seq<Seq<char>>) -> Seq<
    (Seq<char>, usize),
>
    decreases keys.len(),
{
    if keys.len() == 0 {
        counts
    } else {
        counted(counted_all(counts, keys.drop_last()), keys.last())
    }
}

/// Whether a value counts as a use of its field: not null, not an empty
/// string and not an empty sequence.
pub open spec fn has_value(value: MetaModel) -> bool {
    match value {
        MetaModel::Null => false,
        MetaModel::Text(s) => s.len() > 0,
        MetaModel::Sequence(items) => items.len() > 0,
        _ => true,
    }
}

/// The texts that a value is counted under: a string itself, the strings of a
/// sequence, a boolean or number as text; nothing for other values.
pub open spec fn value_texts(value: MetaModel) -> Seq<Seq<char>> {
    match value {
        MetaModel::Text(s) => seq![s],
        MetaModel::Sequence(items) => direct_texts(items),
        MetaModel::Bool(b) => seq![bool_text(b)],
        MetaModel::Number(n) => seq![n],
        _ => Seq::empty(),
    }
}

/// The value counts of the fields with the given texts counted under `key`.
pub open spec fn with_values(
    field_values: Seq<(Seq<char>, Seq<(Seq<char>, usize)>)>,
    key: Seq<char>,
    texts: Seq<Seq<char>>,
) -> Seq<(Seq<char>, Seq<(Seq<char>, usize)>)> {
    match slot(field_values, key) {
        Some(i) => field_values.update(i, (key, counted_all(field_values[i].1, texts))),
        None => field_values.push((key, counted_all(Seq::empty(), texts))),
    }
}

/// The title is left out of the statistics.
pub open spec fn is_counted(key: Seq<char>, value: MetaModel) -> bool {
    key != "title"@ && has_value(value)
}

/// The statistics with one metadata entry taken in.
pub open spec fn with_entry(stats: StatsModel, key: Seq<char>, value: MetaModel) -> StatsModel {
    if is_counted(key, value) {
        StatsModel {
            total: stats.total,
            fields: counted(stats.fields, key),
            field_values: with_values(stats.field_values, key, value_texts(value)),
        }
    } else {
        stats
    }
}

/// The statistics with the metadata of one topic taken in.
pub open spec fn with_metadata(stats: StatsModel, metadata: Seq<(Seq<char>, MetaModel)>) -> StatsModel
    decreases metadata.len(),
{
    if metadata.len() == 0 {
        stats
    } else {
        with_entry(
            with_metadata(stats, metadata.drop_last()),
            metadata.last().0,
            metadata.last().1,
        )
    }
}

/// The field statistics of the topics, taken in one after the other.
pub open spec fn tallied(s: Seq<TopicModel>) -> StatsModel
    decreases s.len(),
{
    if s.len() == 0 {
        StatsModel { total: 0, fields: Seq::empty(), field_values: Seq::empty() }
    } else {
        with_metadata(tallied(s.drop_last()), s.last().metadata)
    }
}

/// The statistics of the topics: how many there are, and the field
/// statistics.
pub open spec fn stats_of(s: Seq<TopicModel>) -> StatsModel {
    StatsModel {
        total: s.len(),
        fields: tallied(s).fields,
        field_values: tallied(s).field_values,
    }
}

/// Counts one more for `key`.
pub fn bump(counts: &mut Vec<(String, usize)>, key: &str)
    ensures
        final(counts).deep_view() == counted(old(counts).deep_view(), key@),
{
    let ghost all = counts.deep_view();
    let mut i: usize = 0;
    while i < counts.len()
        invariant
            i <= counts.len(),
            all == counts.deep_view(),
            *counts == *old(counts),
            slot(all.take(i as int), key@) is None,
        decreases counts.len() - i,
    {
        proof {
            assert(all.take(i + 1).drop_last() == all.take(i as int));
            assert(all.take(i + 1).last() == all[i as int]);
            assert(all[i as int].0 == counts[i as int].0@);
            assert(all[i as int].1 == counts[i as int].1);
        }
        if str_eq(counts[i].0.as_str(), key) {
            proof {
                lemma_slot_prefix(all, key@, i + 1);
            }
            let mut entry = counts.remove(i);
            if entry.1 < usize::MAX {
                entry.1 = entry.1 + 1;
            }
            let ghost now = entry.1;
            counts.insert(i, entry);
            assert(counts.deep_view() == all.update(i as int, (key@, now)));
            return ;
        }
        i += 1;
    }
    assert(all.take(counts.len() as int) == all);
    counts.push((key.to_owned(), 1));
    assert(counts.deep_view() == all.push((key@, 1usize)));
}

/// Counts one more for each of `keys`.
pub fn bump_all(counts: &mut Vec<(String, usize)>, keys: &Vec<String>)
    ensures
        final(counts).deep_view() == counted_all(old(counts).deep_view(), keys.deep_view()),
{
    let ghost all = keys.deep_view();
    let mut i: usize = 0;
    while i < keys.len()
        invariant
            i <= keys.len(),
            all == keys.deep_view(),
            counts.deep_view() == counted_all(old(counts).deep_view(), all.take(i as int)),
        decreases keys.len() - i,
    {
        proof {
            assert(all.take(i + 1).drop_last() == all.take(i as int));
            assert(all.take(i + 1).last() == keys[i as int]@);
        }
        bump(counts, keys[i].as_str());
        i += 1;
    }
    assert(all.take(keys.len() as int) == all);
}

/// Whether a value counts as a use of its field.
pub fn counts_as_value(value: &MetaValue) -> (r: bool)
    ensures
        r == has_value(value@),
{
    match value {
        MetaValue::Null => false,
        MetaValue::Text(s) => s.as_str().unicode_len() > 0,
        MetaValue::Sequence(items) => items.len() > 0,
        _ => true,
    }
}

/// The texts that a value is counted under.
pub fn texts_of_value(value: &MetaValue) -> (out: Vec<String>)
    ensures
        out.deep_view() == value_texts(value@),
{
    let mut out: Vec<String> = Vec::new();
    assert(out.deep_view() == Seq::<Seq<char>>::empty());
    match value {
        MetaValue::Text(s) => {
            out.push(s.clone());
            assert(out.deep_view() == seq![s@]);
        },
        MetaValue::Sequence(items) => {
            let ghost all = value@->Sequence_0;
            let mut i: usize = 0;
            while i < items.len()
                invariant
                    i <= items.len(),
                    all.len() == items.len(),
                    forall|k: int| 0 <= k < items.len() ==> all[k] == items[k]@,
                    out.deep_view() == direct_texts(all.take(i as int)),
                decreases items.len() - i,
            {
                proof {
                    assert(all.take(i + 1).drop_last() == all.take(i as int));
                }
                let ghost before = out.deep_view();
                match &items[i] {
                    MetaValue::Text(s) => {
                        out.push(s.clone());
                        assert(out.deep_view() == before.push(s@));
                    },
                    _ => {},
                }
                i += 1;
            }
            assert(all.take(items.len() as int) == all);
        },
        MetaValue::Bool(b) => {
            let text = if *b {
                "true".to_owned()
            } else {
                "false".to_owned()
            };
            out.push(text);
            assert(out.deep_view() == seq![bool_text(*b)]);
        },
        MetaValue::Number(n) => {
            out.push(n.clone());
            assert(out.deep_view() == seq![n@]);
        },
        _ => {},
    }
    out
}

/// Counts the texts under `key`.
pub fn note_values(
    field_values: &mut Vec<(String, Vec<(String, usize)>)>,
    key: &str,
    texts: &Vec<String>,
)
    ensures
        final(field_values).deep_view() == with_values(
            old(field_values).deep_view(),
            key@,
            texts.deep_view(),
        ),
{
    let ghost all = field_values.deep_view();
    let mut i: usize = 0;
    while i < field_values.len()
        invariant
            i <= field_values.len(),
            all == field_values.deep_view(),
            *field_values == *old(field_values),
            slot(all.take(i as int), key@) is None,
        decreases field_values.len() - i,
    {
        proof {
            assert(all.take(i + 1).drop_last() == all.take(i as int));
            assert(all.take(i + 1).last() == all[i as int]);
            assert(all[i as int].0 == field_values[i as int].0@);
            assert(all[i as int].1 == field_values[i as int].1.deep_view());
        }
        if str_eq(field_values[i].0.as_str(), key) {
            proof {
                lemma_slot_prefix(all, key@, i + 1);
            }
            let mut entry = field_values.remove(i);
            bump_all(&mut entry.1, texts);
            let ghost now = entry.1.deep_view();
            field_values.insert(i, entry);
            assert(field_values.deep_view() == all.update(i as int, (key@, now)));
            return ;
        }
        i += 1;
    }
    assert(all.take(field_values.len() as int) == all);
    let mut values: Vec<(String, usize)> = Vec::new();
    assert(values.deep_view() == Seq::<(Seq<char>, usize)>::empty());
    bump_all(&mut values, texts);
    let ghost now = values.deep_view();
    field_values.push((key.to_owned(), values));
    assert(field_values.deep_view() == all.push((key@, now)));
}

/// Get statistics about the topics.
pub fn stats_for(topics: &Vec<Topic>) -> (stats: IndexStats)
    ensures
        stats@ == stats_of(topics.deep_view()),
{
    let ghost all = topics.deep_view();
    let mut fields: Vec<(String, usize)> = Vec::new();
    let mut field_values: Vec<(String, Vec<(String, usize)>)> = Vec::new();
    assert(fields.deep_view() == Seq::<(Seq<char>, usize)>::empty());
    assert(field_values.deep_view() == Seq::<(Seq<char>, Seq<(Seq<char>, usize)>)>::empty());
    let mut i: usize = 0;
    while i < topics.len()
        invariant
            i <= topics.len(),
            all == topics.deep_view(),
            fields.deep_view() == tallied(all.take(i as int)).fields,
            field_values.deep_view() == tallied(all.take(i as int)).field_values,
            tallied(all.take(i as int)).total == 0,
        decreases topics.len() - i,
    {
        proof {
            assert(all.take(i + 1).drop_last() == all.take(i as int));
            assert(all.take(i + 1).last() == topics[i as int]@);
        }
        let metadata = &topics[i].metadata;
        let ghost entries = metadata.deep_view();
        let ghost start = tallied(all.take(i as int));
        let mut k: usize = 0;
        while k < metadata.len()
            invariant
                k <= metadata.len(),
                entries == metadata.deep_view(),
                start.total == 0,
                with_metadata(start, entries.take(k as int)) == (StatsModel {
                    total: 0,
                    fields: fields.deep_view(),
                    field_values: field_values.deep_view(),
                }),
            decreases metadata.len() - k,
        {
            proof {
                assert(entries.take(k + 1).drop_last() == entries.take(k as int));
                assert(entries.take(k + 1).last() == (metadata[k as int].0@, metadata[k as int].1@));
            }
            let key = metadata[k].0.as_str();
            let value = &metadata[k].1;
            if !str_eq(key, "title") && counts_as_value(value) {
                bump(&mut fields, key);
                let texts = texts_of_value(value);
                note_values(&mut field_values, key, &texts);
            }
            k += 1;
        }
        assert(entries.take(metadata.len() as int) == entries);
        i += 1;
    }
    assert(all.take(topics.len() as int) == all);
    IndexStats { total: topics.len(), fields, field_values }
}

/// Get statistics about the index of the files.
pub fn stats(files: Vec<SourceFile>) -> (stats: IndexStats)
    ensures
        stats@ == stats_of(topics(indexed(files.deep_view(), SortOrder::Alpha))),
{
    let topics = build(files, SortOrder::Alpha);
    stats_for(&topics)
}

} // verus!
