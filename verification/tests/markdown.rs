use hypha::markdown::{extract, offset_to_position, parse, MarkupEvent};

#[test]
fn test_parse_title() {
    let result = parse("# Hello World\n\nSome content.");
    assert_eq!(result.title, Some("Hello World".to_string()));
}

#[test]
fn test_parse_description() {
    let result = parse("# Title\n\nThis is the description.\n\nMore content.");
    assert_eq!(result.description, Some("This is the description.".to_string()));
}

#[test]
fn test_parse_links() {
    let result = parse("Check [this](other.md) and [that](https://example.com).");
    assert_eq!(result.links.len(), 1);
    assert_eq!(result.links[0].target, "other.md");
    assert_eq!(result.links[0].line, 1);
    assert_eq!(result.links[0].column, 7); // "Check " = 6 chars, link starts at 7
}

#[test]
fn test_parse_reference_links() {
    let result = parse("See [docs][ref].\n\n[ref]: ./docs.md");
    assert_eq!(result.links.len(), 1);
    assert_eq!(result.links[0].target, "./docs.md");
}

#[test]
fn test_parse_link_line_numbers() {
    let result = parse("Line 1\n\n[link1](a.md)\n\nLine 4\n\n[link2](b.md)");
    assert_eq!(result.links.len(), 2);
    assert_eq!(result.links[0].target, "a.md");
    assert_eq!(result.links[0].line, 3);
    assert_eq!(result.links[0].column, 1);
    assert_eq!(result.links[1].target, "b.md");
    assert_eq!(result.links[1].line, 7);
    assert_eq!(result.links[1].column, 1);
}

#[test]
fn test_empty_content() {
    let result = parse("");
    assert_eq!(result.title, None);
    assert_eq!(result.description, None);
    assert!(result.links.is_empty());
}

#[test]
fn title_flattens_code_and_emphasis() {
    let result = parse("# The `parse` *function*\n\nText.");
    assert_eq!(result.title, Some("The parse function".to_string()));
}

#[test]
fn only_the_first_heading_gives_the_title() {
    let result = parse("## Minor\n\nIntro.\n\n# First\n\nAfter.\n\n# Second\n\nLater.");
    assert_eq!(result.title, Some("First".to_string()));
    assert_eq!(result.description, Some("After.".to_string()));
}

#[test]
fn paragraph_before_the_title_is_no_description() {
    let result = parse("Intro.\n\n# Title");
    assert_eq!(result.title, Some("Title".to_string()));
    assert_eq!(result.description, None);
    let none = parse("Just text.\n\nMore text.");
    assert_eq!(none.title, None);
    assert_eq!(none.description, None);
}

#[test]
fn paragraph_after_an_empty_heading_is_no_description() {
    let result = parse("#\n\nText.\n\n# Real\n\nSecond.");
    assert_eq!(result.title, Some("Real".to_string()));
    assert_eq!(result.description, Some("Second.".to_string()));
}

#[test]
fn web_and_empty_links_are_left_out() {
    let result = parse("[a](http://x.org) [b](https://x.org) [c]() [d](mailto:me@x.org) [e](#top)");
    let targets: Vec<&str> = result.links.iter().map(|l| l.target.as_str()).collect();
    assert_eq!(targets, vec!["mailto:me@x.org", "#top"]);
}

#[test]
fn columns_count_characters_not_bytes() {
    let result = parse("äöü [x](y.md)");
    assert_eq!(result.links[0].line, 1);
    assert_eq!(result.links[0].column, 5);
}

#[test]
fn offset_to_position_exact_values() {
    let text = "ab\ncd\n\nxyz";
    let at = |offset: usize| {
        let p = offset_to_position(text, offset);
        (p.line, p.column)
    };
    assert_eq!(at(0), (1, 1));
    assert_eq!(at(2), (1, 3));
    assert_eq!(at(3), (2, 1));
    assert_eq!(at(6), (3, 1));
    assert_eq!(at(7), (4, 1));
    assert_eq!(at(10), (4, 4));
    assert_eq!(at(500), (4, 4));
    assert_eq!(offset_to_position("é\nü!", 3), (offset_to_position("e\nu!", 2)));
    let p = offset_to_position("é\nü!", 5);
    assert_eq!((p.line, p.column), (2, 2));
}

#[test]
fn extract_works_on_any_event_sequence() {
    let events = vec![
        MarkupEvent::Text("ignored".to_string()),
        MarkupEvent::ParagraphOpen,
        MarkupEvent::Text("early".to_string()),
        MarkupEvent::ParagraphClose,
        MarkupEvent::HeadingOpen,
        MarkupEvent::Text("  My ".to_string()),
        MarkupEvent::Other,
        MarkupEvent::Text("Title ".to_string()),
        MarkupEvent::HeadingClose,
        MarkupEvent::HeadingOpen,
        MarkupEvent::Text("Other".to_string()),
        MarkupEvent::HeadingClose,
        MarkupEvent::ParagraphOpen,
        MarkupEvent::Link { dest: "a.md".to_string(), offset: 4 },
        MarkupEvent::Text(" first ".to_string()),
        MarkupEvent::ParagraphClose,
        MarkupEvent::ParagraphOpen,
        MarkupEvent::Text("second".to_string()),
        MarkupEvent::Link { dest: "http://x".to_string(), offset: 0 },
        MarkupEvent::Link { dest: String::new(), offset: 0 },
        MarkupEvent::ParagraphClose,
    ];
    let result = extract("ab\ncdef", &events);
    assert_eq!(result.title, Some("My Title".to_string()));
    assert_eq!(result.description, Some("first".to_string()));
    assert_eq!(result.links.len(), 1);
    assert_eq!(result.links[0].target, "a.md");
    assert_eq!(result.links[0].line, 2);
    assert_eq!(result.links[0].column, 2);
}
