//! Templates for new topics.

use crate::text::{chars_of, replace_all, replace_chars, string_of};
use vstd::prelude::*;

verus! {

/// The placeholder that stands for the title in a template.
pub open spec fn placeholder() -> Seq<char> {
    seq!['{', 't', 'i', 't', 'l', 'e', '}']
}

/// Render a template with the given title: every `{title}` becomes the title.
pub fn render(template: &str, title: &str) -> (out: String)
    ensures
        out@ == replace_all(template@, placeholder(), title@),
{
    let text = chars_of(template);
    let with = chars_of(title);
    let mut mark: Vec<char> = Vec::new();
    mark.push('{');
    mark.push('t');
    mark.push('i');
    mark.push('t');
    mark.push('l');
    mark.push('e');
    mark.push('}');
    assert(mark@ == placeholder());
    let replaced = replace_chars(&text, &mark, &with);
    string_of(&replaced)
}

} // verus!
