use mdblog::html::escape_html;
use mdblog::html::header;
use mdblog::posts::get_post;
use mdblog::posts::not_found_body;
use mdblog::posts::resolve_segment;
use mdblog::titles::extract_title;

#[test]
fn title_with_heading_marker() {
    assert_eq!(extract_title("# Hello"), Some("Hello".to_string()));
    assert_eq!(extract_title("# Hello\nbody text"), Some("Hello".to_string()));
}

#[test]
fn title_without_marker_unchanged() {
    assert_eq!(extract_title("Hello"), Some("Hello".to_string()));
    assert_eq!(extract_title("Hello\nbody"), Some("Hello".to_string()));
}

#[test]
fn title_extraction_idempotent() {
    let content = "# Same Title\nand a body";
    let first = extract_title(content);
    let second = extract_title(content);
    assert_eq!(first, second);
    assert_eq!(first, Some("Same Title".to_string()));
}

#[test]
fn empty_file_has_no_title() {
    assert_eq!(extract_title(""), None);
}

#[test]
fn title_strips_carriage_return_before_newline() {
    assert_eq!(extract_title("# Hi\r\nrest"), Some("Hi".to_string()));
}

#[test]
fn title_marker_stripped_once() {
    assert_eq!(extract_title("# # Nested\n"), Some("# Nested".to_string()));
}

#[test]
fn title_of_blank_first_line_is_empty() {
    assert_eq!(extract_title("\nsecond line"), Some("".to_string()));
}

#[test]
fn escape_replaces_markup_characters() {
    assert_eq!(escape_html("a<b&c\"d>'e"), "a&lt;b&amp;c&quot;d&gt;'e".to_string());
    assert_eq!(escape_html("plain"), "plain".to_string());
}

#[test]
fn header_wraps_title() {
    assert_eq!(header("blog"), "<!DOCTYPE html><meta charset=\"utf-8\"><h1>blog</h1>".to_string());
}

#[test]
fn resolve_accepts_html_segment() {
    assert_eq!(resolve_segment("post.html"), Some("post.md".to_string()));
    assert_eq!(resolve_segment("a.b.html"), Some("a.b.md".to_string()));
}

#[test]
fn resolve_rejects_missing_extension() {
    assert_eq!(resolve_segment("post"), None);
}

#[test]
fn resolve_rejects_wrong_extension() {
    assert_eq!(resolve_segment("post.txt"), None);
    assert_eq!(resolve_segment("post.md"), None);
    assert_eq!(resolve_segment(".html"), None);
}

#[test]
fn resolve_rejects_path_separators() {
    assert_eq!(resolve_segment("../escape.html"), None);
    assert_eq!(resolve_segment("/absolute.html"), None);
    assert_eq!(resolve_segment("dir\\other.html"), None);
}

#[test]
fn missing_source_is_not_found() {
    let (status, body) = get_post("missing.html", None);
    assert_eq!(status, 404);
    assert_eq!(body, "Guh!".to_string());
}

#[test]
fn wrong_extension_is_not_found_even_with_source() {
    let (status, body) = get_post("post.txt", Some("# T\nbody"));
    assert_eq!(status, 404);
    assert_eq!(body, "Guh!".to_string());
    let (status2, body2) = get_post("post", Some("# T\nbody"));
    assert_eq!(status2, 404);
    assert_eq!(body2, "Guh!".to_string());
}

#[test]
fn existing_post_renders_converted_markdown() {
    let content = "# B\nbody";
    let (status, body) = get_post("b.html", Some(content));
    assert_eq!(status, 200);
    let expected = format!(
        "<!DOCTYPE html><meta charset=\"utf-8\"><h1>dog wit a blog</h1>{}",
        markdown::to_html(content)
    );
    assert_eq!(body, expected);
    assert!(body.contains("<h1>"));
    assert!(body.contains("B"));
    // the conversion really transformed the markdown
    assert!(!body.ends_with(content));
}

#[test]
fn not_found_body_is_placeholder() {
    assert_eq!(not_found_body(), "Guh!".to_string());
}
