use hypha::query::{FieldValue, Query, Queryable};
use hypha::topic::{Topic, TopicWarning};

#[test]
fn parse_basic_topic() {
    let content = "---\ntags:\n  - test\n---\n\n# My Title\n\nSome content.";
    let topic = Topic::from_content("test.md", content);

    assert_eq!(topic.title, "My Title");
    assert_eq!(topic.tags(), vec!["test"]);
    assert!(topic.warnings.is_empty());
}

#[test]
fn parse_missing_title() {
    let content = "Just some content without a heading.";
    let topic = Topic::from_content("fallback.md", content);

    assert_eq!(topic.title, "fallback"); // Falls back to filename stem
    assert!(topic.warnings.contains(&TopicWarning::MissingTitle));
}

#[test]
fn parse_empty_content() {
    let content = "---\ntitle: Test\n---\n";
    let topic = Topic::from_content("empty.md", content);

    assert!(topic.warnings.contains(&TopicWarning::EmptyContent));
}

#[test]
fn link_line_offset_with_frontmatter() {
    let content = "---\ntags:\n  - a\n---\n\n# Title\n\n[link](other.md)";
    let topic = Topic::from_content("test.md", content);

    assert_eq!(topic.links.len(), 1);
    assert_eq!(topic.links[0].target, "other.md");
    assert_eq!(topic.links[0].line, 8);
}

#[test]
fn parse_with_description() {
    let content = "# Title\n\nThis is the description.\n\nMore content.";
    let topic = Topic::from_content("test.md", content);

    assert_eq!(topic.title, "Title");
    assert_eq!(topic.description, Some("This is the description.".to_string()));
}

#[test]
fn tags_convenience_method() {
    let content = "---\ntags:\n  - one\n  - two\n---\n\n# Title";
    let topic = Topic::from_content("test.md", content);

    assert_eq!(topic.tags(), vec!["one", "two"]);
}

#[test]
fn tags_empty_when_missing() {
    let content = "# Title\n\nNo frontmatter.";
    let topic = Topic::from_content("test.md", content);

    assert!(topic.tags().is_empty());
}

#[test]
fn title_with_heading_has_no_missing_title_warning() {
    let topic = Topic::from_content("notes/a.md", "Intro\n\n# The *Real* `Title`\n");
    assert_eq!(topic.title, "The Real Title");
    assert!(!topic.warnings.contains(&TopicWarning::MissingTitle));
    assert_eq!(topic.path, "notes/a.md");
}

#[test]
fn title_falls_back_to_stem_or_untitled() {
    assert_eq!(Topic::from_content("dir/some-note.md", "text").title, "some-note");
    assert_eq!(Topic::from_content("", "text").title, "Untitled");
    assert_eq!(Topic::from_content("..", "text").title, "Untitled");
    let topic = Topic::from_content("", "");
    assert_eq!(
        topic.warnings,
        vec![TopicWarning::EmptyContent, TopicWarning::MissingTitle]
    );
}

#[test]
fn empty_content_exactly_for_blank_bodies() {
    let blank = Topic::from_content("a.md", "---\na: 1\n---\n \n\t\n");
    assert!(blank.warnings.contains(&TopicWarning::EmptyContent));
    let none = Topic::from_content("a.md", "   \n");
    assert!(none.warnings.contains(&TopicWarning::EmptyContent));
    let full = Topic::from_content("a.md", "---\na: 1\n---\nx");
    assert!(!full.warnings.contains(&TopicWarning::EmptyContent));
}

#[test]
fn link_positions_address_the_file() {
    let content = "---\na: 1\n---\n\n# T\n\nsee [x](y.md) and\nthen [z](w.md#top)";
    let topic = Topic::from_content("t.md", content);
    let lines: Vec<&str> = content.split('\n').collect();
    assert_eq!(topic.links.len(), 2);
    for link in &topic.links {
        let line = lines[link.line - 1];
        let rest: String = line.chars().skip(link.column - 1).collect();
        assert!(rest.starts_with('['), "{:?} does not start a link", rest);
        assert!(rest.contains(&link.target));
    }
    assert_eq!((topic.links[0].line, topic.links[0].column), (7, 5));
    assert_eq!((topic.links[1].line, topic.links[1].column), (8, 6));

    let bare = Topic::from_content("t.md", "\n\ntext [a](b.md)");
    assert_eq!((bare.links[0].line, bare.links[0].column), (3, 6));
}

#[test]
fn tags_from_comma_separated_text() {
    let topic = Topic::from_content("t.md", "---\ntags: work , home\n---\n# T");
    assert_eq!(topic.tags(), vec!["work", "home"]);
    let odd = Topic::from_content("t.md", "---\ntags: 7\n---\n# T");
    assert!(odd.tags().is_empty());
}

#[test]
fn display_lists_tags() {
    let tagged = Topic::from_content("t.md", "---\ntags: [a, b]\n---\n# Title");
    assert_eq!(tagged.display().to_text(), "Title [a, b]");
    let plain = Topic::from_content("t.md", "# Title");
    assert_eq!(plain.display().to_text(), "Title");
}

#[test]
fn warning_messages() {
    assert_eq!(TopicWarning::MissingTitle.message(), "Missing title (no # heading)");
    assert_eq!(TopicWarning::EmptyContent.message(), "Empty content");
    let broken = TopicWarning::BrokenLink { target: "missing.md".to_string(), line: 12, column: 305 };
    assert_eq!(broken.message(), "Broken link: missing.md (line 12, col 305)");
    let zero = TopicWarning::BrokenLink { target: String::new(), line: 0, column: 10 };
    assert_eq!(zero.message(), "Broken link:  (line 0, col 10)");
}

#[test]
fn warning_summaries_and_positions() {
    assert_eq!(TopicWarning::MissingTitle.summary(), "Missing title (no # heading)");
    assert_eq!(TopicWarning::MissingTitle.position(), None);
    assert_eq!(TopicWarning::EmptyContent.summary(), "Empty content");
    assert_eq!(TopicWarning::EmptyContent.position(), None);
    let broken = TopicWarning::BrokenLink { target: "missing.md#x".to_string(), line: 12, column: 3 };
    assert_eq!(broken.summary(), "Broken link: missing.md#x");
    assert_eq!(broken.position(), Some((12, 3)));
}

fn single(field: Option<FieldValue>) -> Option<String> {
    match field {
        Some(FieldValue::Single(s)) => Some(s),
        _ => None,
    }
}

fn multiple(field: Option<FieldValue>) -> Option<Vec<String>> {
    match field {
        Some(FieldValue::Multiple(v)) => Some(v),
        _ => None,
    }
}

#[test]
fn fields_of_a_topic() {
    let content = "---\nstatus: Active\ncount: 3\ndone: false\ntags: [work, 7, true]\nnested:\n  a: b\nnone: ~\n---\n# My Title";
    let topic = Topic::from_content("t.md", content);
    assert_eq!(single(topic.get_field("title")), Some("My Title".to_string()));
    assert_eq!(single(topic.get_field("status")), Some("Active".to_string()));
    assert_eq!(single(topic.get_field("count")), Some("3".to_string()));
    assert_eq!(single(topic.get_field("done")), Some("false".to_string()));
    assert_eq!(multiple(topic.get_field("tags")), Some(vec!["work".to_string(), "7".to_string()]));
    assert_eq!(multiple(topic.get_field("tag")), Some(vec!["work".to_string(), "7".to_string()]));
    assert!(topic.get_field("nested").is_none());
    assert!(topic.get_field("none").is_none());
    assert!(topic.get_field("absent").is_none());
    assert_eq!(topic.searchable_text(), "My Title");
}

#[test]
fn filters_are_conjunctive() {
    let both = Topic::from_content("a.md", "---\nstatus: active\ntags: [homework, x]\n---\n# A");
    let status_only = Topic::from_content("b.md", "---\nstatus: active\ntags: [play]\n---\n# B");
    let tag_only = Topic::from_content("c.md", "---\nstatus: done\ntags: [work]\n---\n# C");
    let neither = Topic::from_content("d.md", "# D");
    let query = Query::parse("status:active tag:work");
    assert!(hypha::query::matches(&both, &query));
    assert!(!hypha::query::matches(&status_only, &query));
    assert!(!hypha::query::matches(&tag_only, &query));
    assert!(!hypha::query::matches(&neither, &query));
    assert!(hypha::query::matches(&neither, &Query::parse("")));
    assert!(hypha::query::matches(&both, &Query::parse("title:a")));
}
