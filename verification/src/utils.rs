//! Small helpers.

use crate::text::{
    char_is_alnum, is_alnum, join, join_chars, lemma_split_on_nonempty, lower_chars,
    lowercase_of, rows, split_chars, split_on, string_of,
};
use vstd::prelude::*;

verus! {

/// `s` with every character that is not alphanumeric turned into a hyphen.
pub open spec fn hyphenated(s: Seq<char>) -> Seq<char> {
    Seq::new(
        s.len(),
        |i: int|
            if is_alnum(s[i]) {
                s[i]
            } else {
                '-'
            },
    )
}

/// The pieces that are not empty, in order.
pub open spec fn nonempty(pieces: Seq<Seq<char>>) -> Seq<Seq<char>>
    decreases pieces.len(),
{
    if pieces.len() == 0 {
        Seq::empty()
    } else if pieces.last().len() == 0 {
        nonempty(pieces.drop_last())
    } else {
        nonempty(pieces.drop_last()).push(pieces.last())
    }
}

/// The slug of a title: lowercased, every character that is not alphanumeric
/// made a hyphen, runs of hyphens collapsed to one, and none left at either end.
pub open spec fn slug_of(title: Seq<char>) -> Seq<char> {
    join(nonempty(split_on(hyphenated(lowercase_of(title)), '-')), seq!['-'])
}

/// Convert a string into a URL/filename-safe slug.
///
/// - Lowercases the input
/// - Replaces non-alphanumeric characters with hyphens
/// - Collapses multiple hyphens into one
/// - Trims leading/trailing hyphens
pub fn slugify(title: &str) -> (slug: String)
    ensures
        slug@ == slug_of(title@),
        is_slug(slug@),
{
    proof {
        lemma_slug_shape(title@);
    }
    let lowered = lower_chars(title);
    let mut mapped: Vec<char> = Vec::new();
    let mut i: usize = 0;
    while i < lowered.len()
        invariant
            i <= lowered.len(),
            mapped@ == hyphenated(lowered@).take(i as int),
        decreases lowered.len() - i,
    {
        let c = lowered[i];
        if char_is_alnum(c) {
            mapped.push(c);
        } else {
            mapped.push('-');
        }
        assert(mapped@ == hyphenated(lowered@).take(i + 1));
        i += 1;
    }
    assert(hyphenated(lowered@).take(lowered.len() as int) == hyphenated(lowered@));
    let pieces = split_chars(&mapped, '-');
    let mut kept: Vec<Vec<char>> = Vec::new();
    let ghost all = rows(pieces@);
    let mut k: usize = 0;
    assert(rows(kept@) == Seq::<Seq<char>>::empty());
    while k < pieces.len()
        invariant
            k <= pieces.len(),
            all == rows(pieces@),
            rows(kept@) == nonempty(all.take(k as int)),
        decreases pieces.len() - k,
    {
        proof {
            assert(all.take(k + 1).drop_last() == all.take(k as int));
            assert(all.take(k + 1).last() == pieces[k as int]@);
        }
        if pieces[k].len() > 0 {
            let ghost before = rows(kept@);
            let piece = pieces[k].clone();
            kept.push(piece);
            assert(rows(kept@) == before.push(pieces[k as int]@));
        }
        k += 1;
    }
    assert(all.take(pieces.len() as int) == all);
    let mut hyphen: Vec<char> = Vec::new();
    hyphen.push('-');
    assert(hyphen@ == seq!['-']);
    let joined = join_chars(&kept, &hyphen);
    string_of(&joined)
}

/// A text of alphanumeric characters only, none of them a hyphen.
pub open spec fn is_word(p: Seq<char>) -> bool {
    forall|k: int| 0 <= k < p.len() ==> #[trigger] p[k] != '-' && is_alnum(p[k])
}

/// Every piece is a word.
pub open spec fn all_words(pieces: Seq<Seq<char>>) -> bool {
    forall|i: int| 0 <= i < pieces.len() ==> is_word(#[trigger] pieces[i])
}

/// No piece is empty.
pub open spec fn none_empty(pieces: Seq<Seq<char>>) -> bool {
    forall|i: int| 0 <= i < pieces.len() ==> (#[trigger] pieces[i]).len() > 0
}

/// The shape of a slug: alphanumeric characters and hyphens, no hyphen at
/// either end and no two hyphens in a row.
pub open spec fn is_slug(s: Seq<char>) -> bool {
    &&& forall|i: int| 0 <= i < s.len() ==> #[trigger] s[i] == '-' || is_alnum(s[i])
    &&& s.len() > 0 ==> s[0] != '-' && s.last() != '-'
    &&& forall|i: int| 0 <= i < s.len() - 1 ==> !(#[trigger] s[i] == '-' && s[i + 1] == '-')
}

/// Splitting a hyphenated text at its hyphens leaves words.
pub proof fn lemma_split_hyphenated(s: Seq<char>)
    ensures
        all_words(split_on(hyphenated(s), '-')),
    decreases s.len(),
{
    let h = hyphenated(s);
    if s.len() > 0 {
        lemma_split_hyphenated(s.drop_last());
        assert(h.drop_last() == hyphenated(s.drop_last()));
        let before = split_on(h.drop_last(), '-');
        let pieces = split_on(h, '-');
        lemma_split_on_nonempty(h.drop_last(), '-');
        assert forall|i: int| 0 <= i < pieces.len() implies is_word(#[trigger] pieces[i]) by {
            if i < before.len() - 1 {
                assert(pieces[i] == before[i]);
            } else if h.last() != '-' {
                assert(is_word(before[before.len() - 1]));
                assert(h.last() == s.last());
            } else if i < before.len() {
                assert(pieces[i] == before[i]);
            }
        }
    } else {
        let pieces = split_on(h, '-');
        assert(is_word(pieces[0]));
    }
}

/// Dropping the empty pieces of words leaves words, none of them empty.
pub proof fn lemma_nonempty_words(pieces: Seq<Seq<char>>)
    requires
        all_words(pieces),
    ensures
        all_words(nonempty(pieces)),
        none_empty(nonempty(pieces)),
    decreases pieces.len(),
{
    if pieces.len() > 0 {
        let rest = pieces.drop_last();
        assert forall|i: int| 0 <= i < rest.len() implies is_word(#[trigger] rest[i]) by {
            assert(rest[i] == pieces[i]);
        }
        lemma_nonempty_words(rest);
        assert(is_word(pieces[pieces.len() - 1]));
    }
}

/// Words joined by single hyphens have the shape of a slug.
pub proof fn lemma_joined_words(pieces: Seq<Seq<char>>)
    requires
        all_words(pieces),
        none_empty(pieces),
    ensures
        is_slug(join(pieces, seq!['-'])),
        pieces.len() > 0 ==> join(pieces, seq!['-']).len() > 0,
    decreases pieces.len(),
{
    let out = join(pieces, seq!['-']);
    if pieces.len() == 1 {
        assert(is_word(pieces[0]));
        assert(pieces[0].len() > 0);
    } else if pieces.len() > 1 {
        let rest = pieces.drop_last();
        assert forall|i: int| 0 <= i < rest.len() implies is_word(#[trigger] rest[i])
            && rest[i].len() > 0 by {
            assert(rest[i] == pieces[i]);
        }
        lemma_joined_words(rest);
        let head = join(rest, seq!['-']);
        let last = pieces.last();
        assert(is_word(last));
        assert(last.len() > 0);
        let n = head.len() as int;
        assert forall|i: int| 0 <= i < out.len() implies (if i < n {
            out[i] == head[i]
        } else if i == n {
            out[i] == '-'
        } else {
            out[i] == last[i - n - 1]
        }) by {}
        assert(is_slug(out)) by {
            assert forall|i: int| 0 <= i < out.len() implies #[trigger] out[i] == '-' || is_alnum(
                out[i],
            ) by {
                if i < n {
                    assert(head[i] == '-' || is_alnum(head[i]));
                } else if i > n {
                    assert(last[i - n - 1] != '-');
                }
            }
            assert(out[0] == head[0]);
            assert(out.last() == last[last.len() - 1]);
            assert(last[last.len() - 1] != '-');
            assert forall|i: int| 0 <= i < out.len() - 1 implies !(#[trigger] out[i] == '-' && out[i
                + 1] == '-') by {
                if i + 1 < n {
                    assert(!(head[i] == '-' && head[i + 1] == '-'));
                } else if i + 1 == n {
                    assert(out[i] == head[n - 1]);
                } else if i == n {
                    assert(out[i + 1] == last[0]);
                    assert(last[0] != '-');
                } else {
                    assert(out[i] == last[i - n - 1]);
                    assert(last[i - n - 1] != '-');
                }
            }
        }
    }
}

/// Every slug is made of alphanumeric characters and single hyphens between
/// them, whatever the title.
pub proof fn lemma_slug_shape(title: Seq<char>)
    ensures
        is_slug(slug_of(title)),
{
    let lowered = lowercase_of(title);
    lemma_split_hyphenated(lowered);
    lemma_nonempty_words(split_on(hyphenated(lowered), '-'));
    lemma_joined_words(nonempty(split_on(hyphenated(lowered), '-')));
}

} // verus!
