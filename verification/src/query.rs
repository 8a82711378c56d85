//! Search queries: `key:value` filters and free-text terms.

use crate::keyed::{lemma_slot, lemma_slot_prefix, slot};
use crate::text::{
    char_is_space, chars_of, contains, find, find_from, has_substring, is_blank, is_space,
    lower_chars, lowercase_of, rows, same_chars, slice_of, string_of, to_lower,
};
use vstd::prelude::*;

verus! {

/// A parsed search query with structured filters and free-text terms.
#[derive(Debug, Default)]
pub struct Query {
    /// Key-value filters (e.g., status:active, priority:high): each key once,
    /// in order of first use, with the values required of it.
    pub filters: Vec<(String, Vec<String>)>,
    /// Free-text search terms.
    pub terms: Vec<String>,
}

/// The mathematical content of a [`Query`].
pub struct QueryModel {
    pub filters: Seq<(Seq<char>, Seq<Seq<char>>)>,
    pub terms: Seq<Seq<char>>,
}

impl View for Query {
    type V = QueryModel;

    open spec fn view(&self) -> QueryModel {
        QueryModel { filters: self.filters.deep_view(), terms: self.terms.deep_view() }
    }
}

/// The whitespace-separated words of `s`, in order.
pub open spec fn words(s: Seq<char>) -> Seq<Seq<char>>
    decreases s.len(),
{
    if s.len() == 0 {
        Seq::empty()
    } else {
        let before = words(s.drop_last());
        if is_space(s.last()) {
            before
        } else if s.len() >= 2 && !is_space(s[s.len() - 2]) && before.len() > 0 {
            before.drop_last().push(before.last().push(s.last()))
        } else {
            before.push(seq![s.last()])
        }
    }
}

/// What one word of a query asks for.
pub enum Token {
    /// The field `key` must contain `value`.
    Filter { key: Seq<char>, value: Seq<char> },
    /// The searchable text must contain the term.
    Term(Seq<char>),
}

/// The separator between the key and the value of a filter.
pub open spec fn separator() -> Seq<char> {
    seq![':']
}

/// The reading of one word: a filter if something follows its first colon, a
/// term otherwise. Keys, values and terms are lowercased.
pub open spec fn token_of(word: Seq<char>) -> Token {
    match find_from(word, separator(), 0) {
        Some(i) => if i + 1 < word.len() {
            Token::Filter { key: lowercase_of(word.take(i)), value: lowercase_of(word.skip(i + 1)) }
        } else {
            Token::Term(lowercase_of(word))
        },
        None => Token::Term(lowercase_of(word)),
    }
}

/// `filters` with `value` required of `key` as well: added to the key's entry
/// if it has one, in a new last entry otherwise.
pub open spec fn with_filter(
    filters: Seq<(Seq<char>, Seq<Seq<char>>)>,
    key: Seq<char>,
    value: Seq<char>,
) -> Seq<(Seq<char>, Seq<Seq<char>>)> {
    match slot(filters, key) {
        Some(i) => filters.update(i, (key, filters[i].1.push(value))),
        None => filters.push((key, seq![value])),
    }
}

/// The query that asks for `q` and for the token as well.
pub open spec fn with_token(q: QueryModel, token: Token) -> QueryModel {
    match token {
        Token::Filter { key, value } => QueryModel {
            filters: with_filter(q.filters, key, value),
            terms: q.terms,
        },
        Token::Term(t) => QueryModel { filters: q.filters, terms: q.terms.push(t) },
    }
}

/// The query that the given words spell.
pub open spec fn query_of(words: Seq<Seq<char>>) -> QueryModel
    decreases words.len(),
{
    if words.len() == 0 {
        QueryModel { filters: Seq::empty(), terms: Seq::empty() }
    } else {
        with_token(query_of(words.drop_last()), token_of(words.last()))
    }
}

/// Splits `v` into its whitespace-separated words.
pub fn split_words(v: &Vec<char>) -> (out: Vec<Vec<char>>)
    ensures
        rows(out@) == words(v@),
{
    let mut out: Vec<Vec<char>> = Vec::new();
    let mut current: Vec<char> = Vec::new();
    let mut in_word = false;
    let mut i: usize = 0;
    assert(rows(out@) == Seq::<Seq<char>>::empty());
    while i < v.len()
        invariant
            i <= v.len(),
            in_word <==> (i > 0 && !is_space(v@[i - 1])),
            in_word ==> current@.len() > 0 && words(v@.take(i as int)) == rows(out@).push(
                current@,
            ),
            !in_word ==> current@.len() == 0 && words(v@.take(i as int)) == rows(out@),
        decreases v.len() - i,
    {
        proof {
            assert(v@.take(i + 1).drop_last() == v@.take(i as int));
            if i > 0 {
                assert(v@.take(i + 1)[i - 1] == v@[i - 1]);
            }
        }
        let ghost before = rows(out@);
        let ghost word = current@;
        if char_is_space(v[i]) {
            if in_word {
                out.push(current);
                current = Vec::new();
                in_word = false;
                assert(rows(out@) == before.push(word));
            }
        } else {
            current.push(v[i]);
            in_word = true;
            proof {
                let c = v@[i as int];
                if word.len() > 0 {
                    assert(before.push(word).drop_last() == before);
                    assert(before.push(word).last() == word);
                } else {
                    assert(current@ == seq![c]);
                }
            }
        }
        i += 1;
    }
    assert(v@.take(v.len() as int) == v@);
    if in_word {
        let ghost before = rows(out@);
        let ghost word = current@;
        out.push(current);
        assert(rows(out@) == before.push(word));
    }
    out
}

/// Possible values a field can have.
#[derive(Debug)]
pub enum FieldValue {
    /// Single string value
    Single(String),
    /// Multiple string values (e.g., tags)
    Multiple(Vec<String>),
}

/// The mathematical content of a [`FieldValue`].
pub enum FieldModel {
    Single(Seq<char>),
    Multiple(Seq<Seq<char>>),
}

impl View for FieldValue {
    type V = FieldModel;

    open spec fn view(&self) -> FieldModel {
        match self {
            FieldValue::Single(v) => FieldModel::Single(v@),
            FieldValue::Multiple(vs) => FieldModel::Multiple(vs.deep_view()),
        }
    }
}

impl DeepView for FieldValue {
    type V = FieldModel;

    open spec fn deep_view(&self) -> FieldModel {
        self@
    }
}

/// One of `values`, lowercased, contains `filter`.
pub open spec fn any_contains(values: Seq<Seq<char>>, filter: Seq<char>) -> bool {
    exists|i: int| 0 <= i < values.len() && contains(lowercase_of(#[trigger] values[i]), filter)
}

/// A field matches a filter value if the lowercased field contains it; a field
/// of several values, if one of them does.
pub open spec fn field_matches(field: FieldModel, filter: Seq<char>) -> bool {
    match field {
        FieldModel::Single(v) => contains(lowercase_of(v), filter),
        FieldModel::Multiple(vs) => any_contains(vs, filter),
    }
}

impl FieldValue {
    /// Check if this field value matches the given filter value.
    pub fn matches(&self, filter: &str) -> (r: bool)
        ensures
            r == field_matches(self@, filter@),
    {
        let needle = chars_of(filter);
        match self {
            FieldValue::Single(v) => {
                let hay = lower_chars(v.as_str());
                has_substring(&hay, &needle)
            },
            FieldValue::Multiple(vs) => {
                let ghost all = vs.deep_view();
                let mut i: usize = 0;
                while i < vs.len()
                    invariant
                        i <= vs.len(),
                        all == vs.deep_view(),
                        self@ == FieldModel::Multiple(all),
                        needle@ == filter@,
                        forall|k: int|
                            0 <= k < i ==> !contains(lowercase_of(#[trigger] all[k]), filter@),
                    decreases vs.len() - i,
                {
                    let hay = lower_chars(vs[i].as_str());
                    assert(all[i as int] == vs[i as int]@);
                    if has_substring(&hay, &needle) {
                        assert(contains(lowercase_of(all[i as int]), filter@));
                        return true;
                    }
                    i += 1;
                }
                false
            },
        }
    }
}

/// A trait for items that can be matched against a query.
pub trait Queryable {
    /// The field stored under `key`, if any.
    open spec fn field(&self, key: Seq<char>) -> Option<FieldModel> {
        None
    }

    /// The text that free-text terms are looked for in.
    open spec fn text(&self) -> Seq<char> {
        Seq::empty()
    }

    /// Get the value(s) for a given filter key.
    fn get_field(&self, key: &str) -> (r: Option<FieldValue>)
        ensures
            r.deep_view() == self.field(key@),
    ;

    /// Get searchable text for free-text matching.
    fn searchable_text(&self) -> (r: String)
        ensures
            r@ == self.text(),
    ;
}

/// The field is there and matches every one of the values.
pub open spec fn filter_holds(field: Option<FieldModel>, values: Seq<Seq<char>>) -> bool {
    match field {
        Some(f) => forall|k: int| 0 <= k < values.len() ==> field_matches(f, #[trigger] values[k]),
        None => false,
    }
}

/// The item meets the query: every filter key names a field of the item that
/// matches all values required of it, and the lowercased searchable text
/// contains every term.
pub open spec fn satisfies<T: Queryable>(item: &T, q: QueryModel) -> bool {
    &&& forall|i: int|
        0 <= i < q.filters.len() ==> filter_holds(
            item.field((#[trigger] q.filters[i]).0),
            q.filters[i].1,
        )
    &&& forall|j: int|
        0 <= j < q.terms.len() ==> contains(lowercase_of(item.text()), #[trigger] q.terms[j])
}

impl Query {
    /// Parse a query string into structured filters and free-text terms.
    ///
    /// Syntax:
    /// - `key:value` → adds to filters
    /// - `bare word` → adds to terms
    /// - Multiple values for same key: `tags:work tags:personal`
    pub fn parse(input: &str) -> (query: Query)
        ensures
            query@ == query_of(words(input@)),
    {
        let chars = chars_of(input);
        let tokens = split_words(&chars);
        let mut colon: Vec<char> = Vec::new();
        colon.push(':');
        assert(colon@ == separator());
        let mut query = Query { filters: Vec::new(), terms: Vec::new() };
        let ghost all = rows(tokens@);
        let mut i: usize = 0;
        assert(query@.filters == Seq::<(Seq<char>, Seq<Seq<char>>)>::empty());
        assert(query@.terms == Seq::<Seq<char>>::empty());
        while i < tokens.len()
            invariant
                i <= tokens.len(),
                all == rows(tokens@),
                colon@ == separator(),
                query@ == query_of(all.take(i as int)),
            decreases tokens.len() - i,
        {
            proof {
                assert(all.take(i + 1).drop_last() == all.take(i as int));
                assert(all.take(i + 1).last() == tokens[i as int]@);
            }
            let token = &tokens[i];
            let ghost before = query@;
            let split = find(token, &colon, 0);
            let mut is_filter = false;
            if let Some(at) = split {
                if at + 1 < token.len() {
                    is_filter = true;
                    let key_text = string_of(&slice_of(token, 0, at));
                    let value_text = string_of(&slice_of(token, at + 1, token.len()));
                    assert(token@.subrange(0, at as int) == token@.take(at as int));
                    assert(token@.subrange(at + 1, token.len() as int) == token@.skip(at + 1));
                    let key = to_lower(key_text.as_str());
                    let value = to_lower(value_text.as_str());
                    add_filter(&mut query.filters, key, value);
                }
            }
            if !is_filter {
                let text = string_of(token);
                let term = to_lower(text.as_str());
                let ghost terms = query.terms.deep_view();
                query.terms.push(term);
                assert(query.terms.deep_view() == terms.push(term@));
            }
            assert(query@ == with_token(before, token_of(token@)));
            i += 1;
        }
        assert(all.take(tokens.len() as int) == all);
        query
    }

    /// Check if query is empty (no filters or terms).
    pub fn is_empty(&self) -> (r: bool)
        ensures
            r == (self@.filters.len() == 0 && self@.terms.len() == 0),
    {
        self.filters.is_empty() && self.terms.is_empty()
    }

    /// The values required of `key`, if the query filters on it.
    pub fn filter_values(&self, key: &str) -> (r: Option<&Vec<String>>)
        ensures
            match slot(self@.filters, key@) {
                Some(i) => r.deep_view() == Some(self@.filters[i].1),
                None => r is None,
            },
    {
        let ghost all = self.filters.deep_view();
        let mut i: usize = 0;
        while i < self.filters.len()
            invariant
                i <= self.filters.len(),
                all == self.filters.deep_view(),
                slot(all.take(i as int), key@) is None,
            decreases self.filters.len() - i,
        {
            proof {
                assert(all.take(i + 1).drop_last() == all.take(i as int));
                assert(all.take(i + 1).last() == all[i as int]);
                assert(all[i as int].0 == self.filters[i as int].0@);
                assert(all[i as int].1 == self.filters[i as int].1.deep_view());
            }
            let a = chars_of(self.filters[i].0.as_str());
            let b = chars_of(key);
            if same_chars(&a, &b) {
                proof {
                    lemma_slot_prefix(all, key@, i + 1);
                }
                return Some(&self.filters[i].1);
            }
            i += 1;
        }
        assert(all.take(self.filters.len() as int) == all);
        None
    }
}

/// Requires `value` of `key` as well.
pub fn add_filter(filters: &mut Vec<(String, Vec<String>)>, key: String, value: String)
    ensures
        final(filters).deep_view() == with_filter(old(filters).deep_view(), key@, value@),
{
    let ghost all = filters.deep_view();
    let wanted = chars_of(key.as_str());
    let mut i: usize = 0;
    while i < filters.len()
        invariant
            i <= filters.len(),
            all == filters.deep_view(),
            *filters == *old(filters),
            wanted@ == key@,
            slot(all.take(i as int), key@) is None,
        decreases filters.len() - i,
    {
        proof {
            assert(all.take(i + 1).drop_last() == all.take(i as int));
            assert(all.take(i + 1).last() == all[i as int]);
            assert(all[i as int].0 == filters[i as int].0@);
            assert(all[i as int].1 == filters[i as int].1.deep_view());
        }
        let here = chars_of(filters[i].0.as_str());
        if same_chars(&here, &wanted) {
            proof {
                lemma_slot_prefix(all, key@, i + 1);
            }
            let mut entry = filters.remove(i);
            let ghost values = entry.1.deep_view();
            entry.1.push(value);
            assert(entry.1.deep_view() == values.push(value@));
            filters.insert(i, entry);
            assert(filters.deep_view() == all.update(i as int, (key@, all[i as int].1.push(value@))));
            return ;
        }
        i += 1;
    }
    assert(all.take(filters.len() as int) == all);
    let mut values: Vec<String> = Vec::new();
    values.push(value);
    assert(values.deep_view() == seq![value@]);
    filters.push((key, values));
    assert(filters.deep_view() == all.push((key@, seq![value@])));
}

/// What one token asks of an item: that the field under its key is there
/// and matches its value, or that the lowercased searchable text contains its
/// term.
pub open spec fn token_holds<T: Queryable>(item: &T, token: Token) -> bool {
    match token {
        Token::Filter { key, value } => filter_holds(item.field(key), seq![value]),
        Token::Term(t) => contains(lowercase_of(item.text()), t),
    }
}

/// An item meets a query with one more token if and only if it meets the
/// query and the token holds of it.
pub proof fn lemma_with_token<T: Queryable>(item: &T, q: QueryModel, token: Token)
    ensures
        satisfies(item, with_token(q, token)) <==> (satisfies(item, q) && token_holds(item, token)),
{
    let r = with_token(q, token);
    match token {
        Token::Filter { key, value } => {
            lemma_slot(q.filters, key);
            assert(seq![value][0] == value);
            assert(r.terms == q.terms);
            assert(r.filters == with_filter(q.filters, key, value));
            match slot(q.filters, key) {
                Some(i) => {
                    let values = q.filters[i].1;
                    let more = values.push(value);
                    assert(r.filters[i] == (key, more));
                    assert(more[values.len() as int] == value);
                    assert forall|k: int| 0 <= k < values.len() implies more[k] == values[k] by {}
                    if satisfies(item, r) {
                        assert(filter_holds(item.field(r.filters[i].0), r.filters[i].1));
                        assert forall|j: int| 0 <= j < q.filters.len() implies filter_holds(
                            item.field((#[trigger] q.filters[j]).0),
                            q.filters[j].1,
                        ) by {
                            if j != i {
                                assert(r.filters[j] == q.filters[j]);
                            } else {
                                let f = item.field(key)->0;
                                assert forall|k: int| 0 <= k < values.len() implies field_matches(
                                    f,
                                    #[trigger] values[k],
                                ) by {
                                    assert(field_matches(f, more[k]));
                                }
                            }
                        }
                        assert(field_matches(item.field(key)->0, more[values.len() as int]));
                    }
                    if satisfies(item, q) && token_holds(item, token) {
                        assert(filter_holds(item.field(q.filters[i].0), q.filters[i].1));
                        assert forall|j: int| 0 <= j < r.filters.len() implies filter_holds(
                            item.field((#[trigger] r.filters[j]).0),
                            r.filters[j].1,
                        ) by {
                            if j != i {
                                assert(r.filters[j] == q.filters[j]);
                            } else {
                                let f = item.field(key)->0;
                                assert forall|k: int| 0 <= k < more.len() implies field_matches(
                                    f,
                                    #[trigger] more[k],
                                ) by {
                                    if k < values.len() {
                                        assert(field_matches(f, values[k]));
                                    }
                                }
                            }
                        }
                    }
                },
                None => {
                    let n = q.filters.len() as int;
                    assert(r.filters[n] == (key, seq![value]));
                    if satisfies(item, r) {
                        assert(filter_holds(item.field(r.filters[n].0), r.filters[n].1));
                        assert forall|j: int| 0 <= j < q.filters.len() implies filter_holds(
                            item.field((#[trigger] q.filters[j]).0),
                            q.filters[j].1,
                        ) by {
                            assert(r.filters[j] == q.filters[j]);
                        }
                    }
                    if satisfies(item, q) && token_holds(item, token) {
                        assert forall|j: int| 0 <= j < r.filters.len() implies filter_holds(
                            item.field((#[trigger] r.filters[j]).0),
                            r.filters[j].1,
                        ) by {
                            if j < n {
                                assert(r.filters[j] == q.filters[j]);
                            }
                        }
                    }
                },
            }
        },
        Token::Term(t) => {
            let n = q.terms.len() as int;
            assert(r.terms == q.terms.push(t));
            assert(r.filters == q.filters);
            if satisfies(item, r) {
                assert forall|j: int| 0 <= j < q.terms.len() implies contains(
                    lowercase_of(item.text()),
                    #[trigger] q.terms[j],
                ) by {
                    assert(r.terms[j] == q.terms[j]);
                }
                assert(contains(lowercase_of(item.text()), r.terms[n]));
            }
            if satisfies(item, q) && token_holds(item, token) {
                assert forall|j: int| 0 <= j < r.terms.len() implies contains(
                    lowercase_of(item.text()),
                    #[trigger] r.terms[j],
                ) by {
                    if j < n {
                        assert(r.terms[j] == q.terms[j]);
                    }
                }
            }
        },
    }
}

/// The words of a query are joined by "and".
///
/// An item meets the query that some words spell if and only if the token of
/// every single word holds of it: each filter on its own field, each term on
/// the searchable text.
pub proof fn lemma_query_is_conjunction<T: Queryable>(item: &T, words: Seq<Seq<char>>)
    ensures
        satisfies(item, query_of(words)) <==> forall|i: int|
            0 <= i < words.len() ==> token_holds(item, token_of(#[trigger] words[i])),
    decreases words.len(),
{
    if words.len() > 0 {
        let rest = words.drop_last();
        lemma_query_is_conjunction(item, rest);
        lemma_with_token(item, query_of(rest), token_of(words.last()));
        if satisfies(item, query_of(words)) {
            assert forall|i: int| 0 <= i < words.len() implies token_holds(
                item,
                token_of(#[trigger] words[i]),
            ) by {
                if i < rest.len() {
                    assert(rest[i] == words[i]);
                }
            }
        }
        if forall|i: int| 0 <= i < words.len() ==> token_holds(item, token_of(#[trigger] words[i])) {
            assert forall|i: int| 0 <= i < rest.len() implies token_holds(
                item,
                token_of(#[trigger] rest[i]),
            ) by {
                assert(rest[i] == words[i]);
            }
            assert(token_holds(item, token_of(words[words.len() - 1])));
        }
    }
}

/// A text without words spells the empty query, which every item meets.
pub proof fn lemma_blank_query<T: Queryable>(item: &T, text: Seq<char>)
    requires
        is_blank(text),
    ensures
        words(text).len() == 0,
        query_of(words(text)).filters.len() == 0,
        query_of(words(text)).terms.len() == 0,
        satisfies(item, query_of(words(text))),
    decreases text.len(),
{
    if text.len() > 0 {
        let rest = text.drop_last();
        assert forall|i: int| 0 <= i < rest.len() implies is_space(#[trigger] rest[i]) by {
            assert(rest[i] == text[i]);
        }
        lemma_blank_query(item, rest);
        assert(is_space(text[text.len() - 1]));
    }
}

/// Check if an item matches the query.
pub fn matches<T: Queryable>(item: &T, query: &Query) -> (r: bool)
    ensures
        r == satisfies(item, query@),
{
    let ghost q = query@;
    let mut i: usize = 0;
    while i < query.filters.len()
        invariant
            i <= query.filters.len(),
            q == query@,
            forall|k: int|
                0 <= k < i ==> filter_holds(item.field((#[trigger] q.filters[k]).0), q.filters[k].1),
        decreases query.filters.len() - i,
    {
        let key = &query.filters[i].0;
        let values = &query.filters[i].1;
        assert(q.filters[i as int].0 == key@);
        assert(q.filters[i as int].1 == values.deep_view());
        match item.get_field(key.as_str()) {
            Some(field) => {
                let mut k: usize = 0;
                while k < values.len()
                    invariant
                        k <= values.len(),
                        i < query.filters.len(),
                        q == query@,
                        item.field(q.filters[i as int].0) == Some(field@),
                        q.filters[i as int].1 == values.deep_view(),
                        forall|m: int|
                            0 <= m < k ==> field_matches(
                                field@,
                                #[trigger] values.deep_view()[m],
                            ),
                    decreases values.len() - k,
                {
                    assert(values.deep_view()[k as int] == values[k as int]@);
                    if !field.matches(values[k].as_str()) {
                        assert(!filter_holds(
                            item.field(q.filters[i as int].0),
                            q.filters[i as int].1,
                        ));
                        return false;
                    }
                    k += 1;
                }
                assert(filter_holds(item.field(q.filters[i as int].0), q.filters[i as int].1));
            },
            None => {
                assert(!filter_holds(item.field(q.filters[i as int].0), q.filters[i as int].1));
                return false;
            },
        }
        i += 1;
    }
    if query.terms.len() > 0 {
        let haystack = lower_chars(item.searchable_text().as_str());
        let mut j: usize = 0;
        while j < query.terms.len()
            invariant
                j <= query.terms.len(),
                q == query@,
                haystack@ == lowercase_of(item.text()),
                forall|m: int| 0 <= m < j ==> contains(haystack@, #[trigger] q.terms[m]),
            decreases query.terms.len() - j,
        {
            let term = chars_of(query.terms[j].as_str());
            assert(q.terms[j as int] == query.terms[j as int]@);
            if !has_substring(&haystack, &term) {
                assert(!contains(lowercase_of(item.text()), q.terms[j as int]));
                return false;
            }
            j += 1;
        }
    }
    true
}

} // verus!
