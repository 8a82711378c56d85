use hypha::config::{config_filename, Config};
use hypha::constants::PROJECT_NAME;
use hypha::template::render;
use hypha::utils::slugify;

#[test]
fn slugify_basic() {
    assert_eq!(slugify("My Great Topic"), "my-great-topic");
}

#[test]
fn slugify_special_chars() {
    assert_eq!(slugify("Q1 2026 Planning!"), "q1-2026-planning");
}

#[test]
fn slugify_colons() {
    assert_eq!(slugify("Fix: crash on startup"), "fix-crash-on-startup");
}

#[test]
fn slugify_multiple_spaces() {
    assert_eq!(slugify("too   many   spaces"), "too-many-spaces");
}

#[test]
fn slugify_trims_hyphens_at_both_ends() {
    assert_eq!(slugify("--Hello, World--"), "hello-world");
    assert_eq!(slugify("!!!"), "");
    assert_eq!(slugify(""), "");
}

#[test]
fn slugify_keeps_letters_outside_ascii() {
    assert_eq!(slugify("Über Größe"), "über-größe");
}

#[test]
fn render_replaces_title() {
    let template = "---\ntitle: {title}\n---\n";
    let result = render(template, "My Topic");
    assert!(result.contains("title: My Topic"));
}

#[test]
fn render_replaces_every_placeholder() {
    assert_eq!(render("# {title}\n\n{title}!", "A"), "# A\n\nA!");
    assert_eq!(render("no placeholder", "A"), "no placeholder");
    assert_eq!(render("{title", "A"), "{title");
}

#[test]
fn default_template_renders_a_heading() {
    let text = render(hypha::constants::DEFAULT_TEMPLATE, "My New Topic");
    assert!(text.contains("# My New Topic"));
    assert_eq!(hypha::constants::TEMPLATE_FILE, ".template.md");
    assert_eq!(hypha::constants::PROJECT_NAME, "hypha");
}

#[test]
fn config_file_is_named_after_the_project() {
    assert_eq!(config_filename(), ".hypha");
    assert_eq!(config_filename(), format!(".{}", PROJECT_NAME));
}

#[test]
fn config_needs_setup_without_a_root() {
    assert!(Config::default().needs_setup());
    assert_eq!(Config::default(), Config { root_dir: None });
    assert!(!Config { root_dir: Some("notes".to_string()) }.needs_setup());
}
