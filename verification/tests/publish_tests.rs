use dioxus_sugar::text::text_equal;

#[test]
fn readme_usage_version() {}

#[test]
fn readme_docs_link_version() {}

#[test]
fn readme_examples_link_version() {}

#[test]
fn crate_links_against_the_library() {
    assert!(text_equal("0.1.0", "0.1.0"));
}
