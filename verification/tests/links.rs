use hypha::backlinks::{backlinks, backlinks_for, find_topic};
use hypha::lint::{check_link, extract_link_path, issues, probe_path, with_broken_links};
use hypha::markdown::ParsedLink;
use hypha::rename::{plan_rename, relink, update_heading, update_links};
use hypha::resolve::{candidate_paths, new_topic_path, resolve, Resolution};
use hypha::topic::{Topic, TopicWarning};

#[test]
fn extract_link_path_basic() {
    assert_eq!(extract_link_path("file.md"), Some("file.md"));
    assert_eq!(extract_link_path("./docs/file.md"), Some("./docs/file.md"));
}

#[test]
fn extract_link_path_with_anchor() {
    assert_eq!(extract_link_path("file.md#section"), Some("file.md"));
    assert_eq!(extract_link_path("./docs/file.md#heading"), Some("./docs/file.md"));
}

#[test]
fn extract_link_path_anchor_only() {
    assert_eq!(extract_link_path("#section"), None);
    assert_eq!(extract_link_path("#"), None);
}

#[test]
fn extract_link_path_empty() {
    assert_eq!(extract_link_path(""), None);
}

#[test]
fn extract_link_path_cuts_at_the_first_anchor() {
    assert_eq!(extract_link_path("a#b#c"), Some("a"));
    assert_eq!(extract_link_path("ä.md#ö"), Some("ä.md"));
}

fn link(target: &str, line: usize, column: usize) -> ParsedLink {
    ParsedLink { target: target.to_string(), line, column }
}

#[test]
fn probe_path_is_relative_to_the_document() {
    assert_eq!(
        probe_path("notes/sub/topic.md", &link("target.md#x", 1, 1)),
        Some("notes/sub/target.md".to_string())
    );
    assert_eq!(
        probe_path("notes/topic.md", &link("../up.md", 1, 1)),
        Some("notes/../up.md".to_string())
    );
    assert_eq!(probe_path("topic.md", &link("a.md", 1, 1)), Some("a.md".to_string()));
    assert_eq!(probe_path("notes/topic.md", &link("/abs.md", 1, 1)), Some("/abs.md".to_string()));
    assert_eq!(probe_path("notes/topic.md", &link("#only", 1, 1)), None);
    assert_eq!(probe_path("notes/topic.md", &link("", 1, 1)), None);
    assert_eq!(probe_path("", &link("a.md", 1, 1)), None);
}

#[test]
fn check_link_existing_file() {
    let link = ParsedLink { target: "target.md".to_string(), line: 1, column: 1 };
    assert!(check_link("notes/topic.md", &link, true).is_none());
}

#[test]
fn check_link_missing_file() {
    let link = ParsedLink { target: "missing.md".to_string(), line: 5, column: 3 };

    let result = check_link("notes/topic.md", &link, false);
    assert!(result.is_some());

    if let Some(TopicWarning::BrokenLink { target, line, column }) = result {
        assert_eq!(target, "missing.md");
        assert_eq!(line, 5);
        assert_eq!(column, 3);
    } else {
        panic!("Expected BrokenLink warning");
    }
}

#[test]
fn check_link_skips_anchors() {
    let link = ParsedLink { target: "#section".to_string(), line: 1, column: 1 };
    assert!(check_link("notes/topic.md", &link, false).is_none());
}

#[test]
fn check_link_with_anchor_to_existing_file() {
    let link = ParsedLink { target: "target.md#section".to_string(), line: 1, column: 1 };
    // The file exists; the anchor is not validated.
    assert!(check_link("notes/topic.md", &link, true).is_none());
}

#[test]
fn check_link_keeps_the_target_as_written() {
    let result = check_link("notes/topic.md", &link("missing.md#part", 2, 9), false);
    assert_eq!(
        result,
        Some(TopicWarning::BrokenLink { target: "missing.md#part".to_string(), line: 2, column: 9 })
    );
}

#[test]
fn check_link_skips_empty_targets_and_documents_without_directory() {
    assert_eq!(check_link("notes/topic.md", &link("", 1, 1), false), None);
    assert_eq!(check_link("", &link("a.md", 1, 1), false), None);
}

#[test]
fn lint_appends_one_warning_per_broken_link() {
    let topic = Topic::from_content("notes/d.md", "[x](missing.md) [y](there.md) [z](#top)");
    assert_eq!(topic.links.len(), 3);
    let before = topic.warnings.clone();
    let title = topic.title.clone();
    let linted = with_broken_links(topic, &vec![false, true, false]);
    assert_eq!(linted.title, title);
    assert_eq!(linted.links.len(), 3);
    assert_eq!(linted.warnings.len(), before.len() + 1);
    assert_eq!(linted.warnings[..before.len()], before[..]);
    assert_eq!(
        linted.warnings[before.len()],
        TopicWarning::BrokenLink { target: "missing.md".to_string(), line: 1, column: 1 }
    );
    let short = with_broken_links(Topic::from_content("notes/d.md", "[x](missing.md)"), &Vec::new());
    assert_eq!(short.warnings, vec![TopicWarning::MissingTitle]);
}

#[test]
fn issues_keeps_topics_with_warnings() {
    let topics = vec![
        Topic::from_content("n/a.md", "# A\n\ntext"),
        Topic::from_content("n/b.md", "no heading"),
        with_broken_links(Topic::from_content("n/c.md", "# C\n\n[x](missing.md)"), &vec![false]),
        Topic::from_content("n/d.md", ""),
    ];
    let found = issues(topics);
    let paths: Vec<&str> = found.iter().map(|t| t.path.as_str()).collect();
    assert_eq!(paths, vec!["n/b.md", "n/c.md", "n/d.md"]);
    assert_eq!(found[1].warnings.len(), 1);
    assert_eq!(found[2].warnings, vec![TopicWarning::EmptyContent, TopicWarning::MissingTitle]);
    assert!(issues(Vec::new()).is_empty());
}

#[test]
fn relink_reports_only_changed_texts() {
    let plan = plan_rename("notes/original.md", "Renamed").unwrap();
    assert_eq!(plan.new_filename, "renamed.md");
    assert_eq!(
        relink("See [x](original.md).", &plan),
        Some("See [x](renamed.md).".to_string())
    );
    assert_eq!(relink("See [[original]].", &plan), Some("See [[renamed]].".to_string()));
    assert_eq!(relink("See [x](other.md).", &plan), None);
    assert_eq!(relink("", &plan), None);
    let same = plan_rename("notes/renamed.md", "Renamed").unwrap();
    assert_eq!(relink("See [x](renamed.md).", &same), None);
}

#[test]
fn update_heading_changes_the_first_heading_only() {
    assert_eq!(
        update_heading("# Original Title\n\nSome content.", "Renamed"),
        "# Renamed\n\nSome content."
    );
    assert_eq!(
        update_heading("intro\n# One\n# Two\n", "New"),
        "intro\n# New\n# Two\n"
    );
    assert_eq!(update_heading("no heading\n#tag\n", "New"), "no heading\n#tag\n");
    assert_eq!(update_heading("", "New"), "");
}

#[test]
fn update_heading_leaves_header_and_line_ends_alone() {
    assert_eq!(
        update_heading("---\n# note\na: 1\n---\n\n# Old\r\ntext\r\n", "New"),
        "---\n# note\na: 1\n---\n\n# New\r\ntext\r\n"
    );
    assert_eq!(update_heading("---\na: [\n---\n# Old", "New"), "---\na: [\n---\n# New");
}

#[test]
fn update_links_rewrites_all_four_forms() {
    let text = "[x](original.md) [y](original) [[original]] [z](other.md) [[original.md]]";
    assert_eq!(
        update_links(text, "original.md", "original", "renamed.md", "renamed"),
        "[x](renamed.md) [y](renamed) [[renamed]] [z](other.md) [[original.md]]"
    );
    assert_eq!(
        update_links("nothing here", "original.md", "original", "renamed.md", "renamed"),
        "nothing here"
    );
    assert_eq!(
        update_links("[[a]] [[a.md]]", "a.md.md", "a.md", "b.md", "b"),
        "[[b]] [[b]]"
    );
}

#[test]
fn plan_rename_uses_the_slug() {
    let plan = plan_rename("notes/original.md", "Renamed Topic!").unwrap();
    assert_eq!(plan.old_filename, "original.md");
    assert_eq!(plan.old_stem, "original");
    assert_eq!(plan.new_stem, "renamed-topic");
    assert_eq!(plan.new_filename, "renamed-topic.md");
    assert_eq!(plan.new_path, "notes/renamed-topic.md");
    let bare = plan_rename("original.md", "renamed").unwrap();
    assert_eq!(bare.new_path, "renamed.md");
    assert_eq!(plan_rename("", "renamed"), None);
}

fn sample() -> Vec<Topic> {
    vec![
        Topic::from_content("n/topic-a.md", "# Topic A\n\n[b](topic-b.md) [b2](./topic-b.md#x) [c](Topic-C)"),
        Topic::from_content("n/topic-b.md", "# Topic B\n\n[self](topic-b.md)"),
        Topic::from_content("n/topic-c.md", "# Topic C\n\nNo links."),
        Topic::from_content("n/plain.md", "See [b](sub/TOPIC-B.MD) and [web](https://x.org/topic-c.md)."),
        Topic::from_content("n/orphan.md", "# Orphan Topic\n\n[a](#topic-b)"),
    ]
}

#[test]
fn find_topic_by_title_or_stem() {
    let topics = sample();
    assert_eq!(find_topic(&topics, "topic b"), Some(1));
    assert_eq!(find_topic(&topics, "TOPIC-C"), Some(2));
    assert_eq!(find_topic(&topics, "plain"), Some(3));
    assert_eq!(find_topic(&topics, "topic"), None);
    assert_eq!(find_topic(&Vec::new(), "x"), None);
}

#[test]
fn backlinks_list_each_source_once() {
    let topics = sample();
    assert_eq!(backlinks(&topics, 1), vec![0, 3]);
    assert_eq!(backlinks(&topics, 2), vec![0]);
    assert_eq!(backlinks(&topics, 4), Vec::<usize>::new());
    assert_eq!(backlinks_for(&topics, "Topic B"), Some(vec![0, 3]));
    assert_eq!(backlinks_for(&topics, "nonexistent"), None);
}

#[test]
fn candidate_paths_and_resolution() {
    assert_eq!(
        candidate_paths("root", "to-delete"),
        ("root/to-delete".to_string(), "root/to-delete.md".to_string())
    );
    assert_eq!(new_topic_path("root", "My New Topic"), "root/my-new-topic.md");
    let mut topics = Vec::new();
    assert_eq!(resolve(&topics), Resolution::NotFound);
    topics.push(Topic::from_content("a.md", "# A"));
    assert_eq!(resolve(&topics), Resolution::Found(0));
    topics.push(Topic::from_content("b.md", "# B"));
    assert_eq!(resolve(&topics), Resolution::Ambiguous);
}
