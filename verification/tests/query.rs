use hypha::query::{FieldValue, Query, Queryable};

#[test]
fn parse_empty() {
    let q = Query::parse("");
    assert!(q.is_empty());
}

#[test]
fn parse_filters_only() {
    let q = Query::parse("status:active priority:high");
    assert_eq!(q.filter_values("status"), Some(&vec!["active".to_string()]));
    assert_eq!(q.filter_values("priority"), Some(&vec!["high".to_string()]));
    assert!(q.terms.is_empty());
}

#[test]
fn parse_terms_only() {
    let q = Query::parse("meeting notes");
    assert!(q.filters.is_empty());
    assert_eq!(q.terms, vec!["meeting", "notes"]);
}

#[test]
fn parse_mixed() {
    let q = Query::parse("status:active quarterly review");
    assert_eq!(q.filter_values("status"), Some(&vec!["active".to_string()]));
    assert_eq!(q.terms, vec!["quarterly", "review"]);
}

#[test]
fn parse_multiple_same_key() {
    let q = Query::parse("tags:work tags:important");
    assert_eq!(
        q.filter_values("tags"),
        Some(&vec!["work".to_string(), "important".to_string()])
    );
}

#[test]
fn field_value_single_match() {
    let v = FieldValue::Single("active".to_string());
    assert!(v.matches("act"));
    assert!(v.matches("active"));
    assert!(!v.matches("draft"));
}

#[test]
fn field_value_multiple_match() {
    let v = FieldValue::Multiple(vec!["work".to_string(), "important".to_string()]);
    assert!(v.matches("work"));
    assert!(v.matches("important"));
    assert!(!v.matches("personal"));
}

#[test]
fn parse_folds_case_and_keeps_order() {
    let q = Query::parse("  Status:ACTIVE\tTag:Work  Alpha status:Draft ");
    assert_eq!(q.filters.len(), 2);
    assert_eq!(q.filters[0].0, "status");
    assert_eq!(q.filters[0].1, vec!["active", "draft"]);
    assert_eq!(q.filters[1].0, "tag");
    assert_eq!(q.terms, vec!["alpha"]);
    assert_eq!(q.filter_values("missing"), None);
}

#[test]
fn parse_token_without_value_is_a_term() {
    let q = Query::parse("status: a:b:c :x");
    assert_eq!(q.terms, vec!["status:"]);
    assert_eq!(q.filter_values("a"), Some(&vec!["b:c".to_string()]));
    assert_eq!(q.filter_values(""), Some(&vec!["x".to_string()]));
}

#[test]
fn field_value_matches_lowercased_field() {
    assert!(FieldValue::Single("ACTIVE".to_string()).matches("act"));
    assert!(!FieldValue::Single("active".to_string()).matches("ACT"));
    assert!(FieldValue::Single("x".to_string()).matches(""));
    assert!(!FieldValue::Multiple(Vec::new()).matches(""));
}

struct Card {
    status: Option<String>,
    text: String,
}

impl Queryable for Card {
    fn get_field(&self, key: &str) -> Option<FieldValue> {
        if key == "status" {
            self.status.clone().map(FieldValue::Single)
        } else {
            None
        }
    }

    fn searchable_text(&self) -> String {
        self.text.clone()
    }
}

#[test]
fn matches_any_queryable() {
    let card = Card { status: Some("Active".to_string()), text: "Weekly Review".to_string() };
    assert!(hypha::query::matches(&card, &Query::parse("")));
    assert!(hypha::query::matches(&card, &Query::parse("status:act review")));
    assert!(!hypha::query::matches(&card, &Query::parse("status:act monthly")));
    assert!(!hypha::query::matches(&card, &Query::parse("owner:me")));
    let bare = Card { status: None, text: "x".to_string() };
    assert!(!hypha::query::matches(&bare, &Query::parse("status:a")));
}
