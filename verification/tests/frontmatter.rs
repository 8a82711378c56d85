use hypha::frontmatter::{parse, parse_string_array};
use hypha::meta::{lookup, MetaValue};

#[test]
fn parse_valid_frontmatter() {
    let content = "---\ntitle: Test\ntags:\n  - a\n  - b\n---\n\nBody content";
    let result = parse(content);
    assert_eq!(
        lookup(&result.metadata, "title").and_then(|v| v.as_str()),
        Some("Test")
    );
    assert!(result.body.contains("Body content"));
    assert_eq!(result.frontmatter_lines, 7);
}

#[test]
fn parse_no_frontmatter() {
    let content = "Just some content";
    let result = parse(content);
    assert!(result.metadata.is_empty());
    assert_eq!(result.body, "Just some content");
    assert_eq!(result.frontmatter_lines, 0);
}

#[test]
fn parse_string_array_sequence() {
    let val = MetaValue::Sequence(vec![
        MetaValue::Text("a".to_string()),
        MetaValue::Text("b".to_string()),
    ]);
    let result = parse_string_array(Some(&val));
    assert_eq!(result, vec!["a", "b"]);
}

#[test]
fn parse_string_array_csv() {
    let val = MetaValue::Text("a, b, c".to_string());
    let result = parse_string_array(Some(&val));
    assert_eq!(result, vec!["a", "b", "c"]);
}

#[test]
fn parse_string_array_other_shapes() {
    assert!(parse_string_array(None).is_empty());
    assert!(parse_string_array(Some(&MetaValue::Null)).is_empty());
    assert!(parse_string_array(Some(&MetaValue::Bool(true))).is_empty());
    assert!(parse_string_array(Some(&MetaValue::Number("3".to_string()))).is_empty());
    let mixed = MetaValue::Sequence(vec![
        MetaValue::Number("1".to_string()),
        MetaValue::Text("x".to_string()),
        MetaValue::Tagged("!t".to_string(), Box::new(MetaValue::Text("y".to_string()))),
        MetaValue::Null,
    ]);
    assert_eq!(parse_string_array(Some(&mixed)), vec!["x", "y"]);
    assert_eq!(parse_string_array(Some(&MetaValue::Text(String::new()))), vec![""]);
    assert_eq!(parse_string_array(Some(&MetaValue::Text("a,,b ".to_string()))), vec!["a", "", "b"]);
}

#[test]
fn split_exact_body_and_line_count() {
    let result = parse("---\na: 1\n---\n\n\nBody\n");
    assert_eq!(result.body, "Body\n");
    assert_eq!(result.frontmatter_lines, 5);
    assert_eq!(result.metadata.len(), 1);
    assert_eq!(result.metadata[0].0, "a");
    assert_eq!(result.metadata[0].1, MetaValue::Number("1".to_string()));
}

#[test]
fn closing_delimiter_at_end_of_text() {
    let result = parse("---\na: x\n---");
    assert_eq!(result.body, "");
    assert_eq!(result.frontmatter_lines, 2);
    assert_eq!(lookup(&result.metadata, "a").and_then(|v| v.as_str()), Some("x"));
}

#[test]
fn unterminated_header_is_body() {
    let content = "---\ntitle: Test\nno closing line";
    let result = parse(content);
    assert!(result.metadata.is_empty());
    assert_eq!(result.body, content);
    assert_eq!(result.frontmatter_lines, 0);
}

#[test]
fn closing_line_must_be_the_delimiter_alone() {
    let content = "---\na: 1\n---x\nBody";
    let result = parse(content);
    assert!(result.metadata.is_empty());
    assert_eq!(result.body, content);
    assert_eq!(result.frontmatter_lines, 0);
}

#[test]
fn malformed_header_is_body() {
    let content = "---\n- just\n- a list\n---\nBody";
    let result = parse(content);
    assert!(result.metadata.is_empty());
    assert_eq!(result.body, content);
    assert_eq!(result.frontmatter_lines, 0);
}

#[test]
fn leading_whitespace_counts_toward_lines() {
    let result = parse("\n\n---\na: 1\n---\nBody");
    assert_eq!(result.body, "Body");
    assert_eq!(result.frontmatter_lines, 5);
    let plain = parse("\n\nBody");
    assert_eq!(plain.body, "\n\nBody");
    assert_eq!(plain.frontmatter_lines, 0);
}

#[test]
fn metadata_keeps_types_and_sorts_keys() {
    let text = "---\nz: true\nb: 2.5\na: [x, 1]\nm:\n  k: v\nn: ~\n---\n";
    let result = parse(text);
    let keys: Vec<&str> = result.metadata.iter().map(|e| e.0.as_str()).collect();
    assert_eq!(keys, vec!["a", "b", "m", "n", "z"]);
    assert_eq!(
        lookup(&result.metadata, "a"),
        Some(&MetaValue::Sequence(vec![
            MetaValue::Text("x".to_string()),
            MetaValue::Number("1".to_string()),
        ]))
    );
    assert_eq!(lookup(&result.metadata, "b"), Some(&MetaValue::Number("2.5".to_string())));
    assert_eq!(
        lookup(&result.metadata, "m"),
        Some(&MetaValue::Mapping(vec![(
            MetaValue::Text("k".to_string()),
            MetaValue::Text("v".to_string()),
        )]))
    );
    assert_eq!(lookup(&result.metadata, "n"), Some(&MetaValue::Null));
    assert_eq!(lookup(&result.metadata, "z"), Some(&MetaValue::Bool(true)));
    assert_eq!(lookup(&result.metadata, "Z"), None);
}

#[test]
fn empty_header_gives_no_metadata() {
    let result = parse("---\n---\n\n# Title\n");
    assert!(result.metadata.is_empty());
    assert_eq!(result.body, "# Title\n");
    assert_eq!(result.frontmatter_lines, 3);
}
