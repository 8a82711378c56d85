use hypha::index::{
    build, collect, is_topic_file, list, refine, search, sort_entries, stats, stats_for, Entry,
    SortOrder, SourceFile,
};
use hypha::topic::Topic;

fn file(path: &str, content: &str, modified: Option<i128>, created: Option<i128>) -> SourceFile {
    SourceFile { path: path.to_string(), content: content.to_string(), modified, created }
}

fn files() -> Vec<SourceFile> {
    vec![
        file("r/topic-b.md", "---\ntags: [test, work]\nstatus: active\n---\n# topic B", Some(30), Some(1)),
        file("r/.template.md", "# {title}", Some(99), Some(99)),
        file("r/notes.txt", "# Not a topic", Some(98), Some(98)),
        file("r/topic-a.md", "---\ntags: [test]\nstatus: done\n---\n# Topic A", Some(10), None),
        file("r/sub/orphan.md", "---\ntags: orphan\ncount: 2\n---\n# Orphan Topic", None, Some(7)),
        file("r/zeta.md", "# Zeta", Some(30), Some(7)),
        file("r/no-title.md", "just text", Some(20), Some(3)),
    ]
}

fn titles(topics: &[Topic]) -> Vec<&str> {
    topics.iter().map(|t| t.title.as_str()).collect()
}

#[test]
fn selects_markdown_files_but_not_the_template() {
    assert!(is_topic_file("r/topic-a.md"));
    assert!(is_topic_file("a.md"));
    assert!(!is_topic_file("r/.template.md"));
    assert!(!is_topic_file(".template.md"));
    assert!(!is_topic_file("r/notes.txt"));
    assert!(!is_topic_file("r/README.MD"));
    assert!(!is_topic_file("r/md"));
    assert!(!is_topic_file(""));
}

#[test]
fn build_sorts_by_title_ignoring_case() {
    let topics = build(files(), SortOrder::Alpha);
    assert_eq!(titles(&topics), vec!["no-title", "Orphan Topic", "Topic A", "topic B", "Zeta"]);
    assert_eq!(titles(&list(files(), SortOrder::default())), titles(&topics));
}

#[test]
fn build_sorts_by_time_newest_first_and_stable() {
    let modified = build(files(), SortOrder::Modified);
    assert_eq!(titles(&modified), vec!["topic B", "Zeta", "no-title", "Topic A", "Orphan Topic"]);
    let created = build(files(), SortOrder::Created);
    assert_eq!(titles(&created), vec!["Orphan Topic", "Zeta", "no-title", "topic B", "Topic A"]);
}

#[test]
fn empty_query_returns_the_whole_index() {
    for sort in [SortOrder::Alpha, SortOrder::Modified, SortOrder::Created] {
        let all = build(files(), sort);
        assert_eq!(titles(&search(files(), "", sort)), titles(&all));
        assert_eq!(titles(&search(files(), "  \n ", sort)), titles(&all));
    }
}

#[test]
fn search_filters_and_keeps_order() {
    assert_eq!(
        titles(&search(files(), "tag:test", SortOrder::Alpha)),
        vec!["Topic A", "topic B"]
    );
    assert_eq!(
        titles(&search(files(), "tag:test", SortOrder::Modified)),
        vec!["topic B", "Topic A"]
    );
    assert_eq!(titles(&search(files(), "status:active tag:work", SortOrder::Alpha)), vec!["topic B"]);
    assert_eq!(titles(&search(files(), "TOPIC", SortOrder::Alpha)), vec!["Orphan Topic", "Topic A", "topic B"]);
    assert_eq!(titles(&search(files(), "tag:orphan", SortOrder::Alpha)), vec!["Orphan Topic"]);
    assert!(search(files(), "nonexistent_query_xyz", SortOrder::Alpha).is_empty());
}

#[test]
fn search_twice_changes_nothing() {
    for sort in [SortOrder::Alpha, SortOrder::Modified, SortOrder::Created] {
        for query in ["tag:test", "topic", "", "status:done a"] {
            let once = refine(collect(files(), sort), query, sort);
            let shown: Vec<String> = once.iter().map(|e| e.topic.path.clone()).collect();
            let twice = refine(once, query, sort);
            let again: Vec<String> = twice.iter().map(|e| e.topic.path.clone()).collect();
            assert_eq!(shown, again);
        }
    }
}

#[test]
fn sort_entries_keeps_ties_in_place() {
    let entries: Vec<Entry> = ["b", "A", "a", "B"]
        .iter()
        .enumerate()
        .map(|(i, title)| Entry {
            topic: Topic::from_content(&format!("{}.md", i), &format!("# {}", title)),
            modified: None,
            created: Some(5),
        })
        .collect();
    let sorted = sort_entries(entries, SortOrder::Alpha);
    let paths: Vec<&str> = sorted.iter().map(|e| e.topic.path.as_str()).collect();
    assert_eq!(paths, vec!["1.md", "2.md", "0.md", "3.md"]);
    let same = sort_entries(sorted, SortOrder::Created);
    let paths: Vec<&str> = same.iter().map(|e| e.topic.path.as_str()).collect();
    assert_eq!(paths, vec!["1.md", "2.md", "0.md", "3.md"]);
}

#[test]
fn stats_count_fields_and_values() {
    let result = stats(files());
    assert_eq!(result.total, 5);
    assert_eq!(
        result.fields,
        vec![("count".to_string(), 1), ("tags".to_string(), 3), ("status".to_string(), 2)]
    );
    assert_eq!(result.field_values.len(), 3);
    assert_eq!(result.field_values[0], ("count".to_string(), vec![("2".to_string(), 1)]));
    assert_eq!(
        result.field_values[1],
        (
            "tags".to_string(),
            vec![("orphan".to_string(), 1), ("test".to_string(), 2), ("work".to_string(), 1)]
        )
    );
    assert_eq!(
        result.field_values[2],
        ("status".to_string(), vec![("done".to_string(), 1), ("active".to_string(), 1)])
    );
}

#[test]
fn stats_skip_title_and_empty_values() {
    let text = "---\ntitle: T\nempty: ''\nnone: ~\nlist: []\nflag: false\nmap:\n  a: 1\nmixed: [x, 1, x]\n---\n# T";
    let topics = vec![Topic::from_content("a.md", text)];
    let result = stats_for(&topics);
    assert_eq!(result.total, 1);
    assert_eq!(
        result.fields,
        vec![("flag".to_string(), 1), ("map".to_string(), 1), ("mixed".to_string(), 1)]
    );
    assert_eq!(
        result.field_values,
        vec![
            ("flag".to_string(), vec![("false".to_string(), 1)]),
            ("map".to_string(), Vec::new()),
            ("mixed".to_string(), vec![("x".to_string(), 2)]),
        ]
    );
    assert_eq!(stats(Vec::new()).total, 0);
}
