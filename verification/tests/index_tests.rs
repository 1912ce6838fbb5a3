use mdblog::mainpage::filter_markdown;
use mdblog::mainpage::is_markdown_name;
use mdblog::mainpage::main_page;
use mdblog::mainpage::mainpage_entry;
use mdblog::mainpage::scan_failure;
use mdblog::mainpage::slug_for;
use mdblog::mainpage::sort_by_freshness;
use mdblog::mainpage::PostFile;

fn entry(name: &str, secs: i64, nanos: u32, content: Option<&str>) -> PostFile {
    PostFile {
        name: name.to_string(),
        modified_secs: secs,
        modified_nanos: nanos,
        content: content.map(|c| c.to_string()),
    }
}

#[test]
fn markdown_names_recognised() {
    assert!(is_markdown_name("a.md"));
    assert!(is_markdown_name("notes.2024.md"));
    assert!(!is_markdown_name(".md"));
    assert!(!is_markdown_name("a.txt"));
    assert!(!is_markdown_name("style.css"));
    assert!(!is_markdown_name("a.MD"));
}

#[test]
fn slug_replaces_extension() {
    assert_eq!(slug_for("post.md"), "post.html".to_string());
    assert_eq!(slug_for("a.b.md"), "a.b.html".to_string());
}

#[test]
fn filter_keeps_only_markdown() {
    let files = vec![
        entry("a.md", 1, 0, Some("# A")),
        entry("style.css", 2, 0, Some("body {}")),
        entry("b.md", 3, 0, Some("# B")),
    ];
    let kept = filter_markdown(&files);
    let names: Vec<String> = kept.iter().map(|f| f.name.clone()).collect();
    assert_eq!(names, vec!["a.md".to_string(), "b.md".to_string()]);
}

#[test]
fn sort_orders_most_recent_first() {
    let mut files = vec![
        entry("old.md", 100, 0, None),
        entry("new.md", 300, 0, None),
        entry("mid.md", 200, 5, None),
        entry("mid2.md", 200, 9, None),
    ];
    sort_by_freshness(&mut files);
    let names: Vec<String> = files.iter().map(|f| f.name.clone()).collect();
    assert_eq!(
        names,
        vec![
            "new.md".to_string(),
            "mid2.md".to_string(),
            "mid.md".to_string(),
            "old.md".to_string()
        ]
    );
}

#[test]
fn sort_breaks_ties_by_name_ascending() {
    let mut files = vec![
        entry("b.md", 100, 0, None),
        entry("a.md", 100, 0, None),
        entry("c.md", 100, 0, None),
    ];
    sort_by_freshness(&mut files);
    let names: Vec<String> = files.iter().map(|f| f.name.clone()).collect();
    assert_eq!(names, vec!["a.md".to_string(), "b.md".to_string(), "c.md".to_string()]);
}

#[test]
fn entry_markup_links_slug_to_title() {
    let f = entry("a.md", 1, 0, Some("# A\nbody"));
    assert_eq!(mainpage_entry(&f), Some("<li><a href=\"a.html\">A</a></li>".to_string()));
}

#[test]
fn entry_markup_escapes_title() {
    let f = entry("a.md", 1, 0, Some("x < y & z"));
    assert_eq!(
        mainpage_entry(&f),
        Some("<li><a href=\"a.html\">x &lt; y &amp; z</a></li>".to_string())
    );
}

#[test]
fn entry_without_content_is_dropped() {
    let f = entry("a.md", 1, 0, None);
    assert_eq!(mainpage_entry(&f), None);
}

#[test]
fn index_lists_newest_first() {
    let files = vec![
        entry("a.md", 100, 0, Some("# A\nbody")),
        entry("b.md", 200, 0, Some("# B\nbody")),
    ];
    let (status, body) = main_page(&files);
    assert_eq!(status, 200);
    assert_eq!(
        body,
        "<!DOCTYPE html><meta charset=\"utf-8\"><h1>blog</h1><ul>\
         <li><a href=\"b.html\">B</a></li>\
         <li><a href=\"a.html\">A</a></li></ul>"
            .to_string()
    );
    let b_pos = body.find("b.html").unwrap();
    let a_pos = body.find("a.html").unwrap();
    assert!(b_pos < a_pos);
}

#[test]
fn index_drops_empty_and_unreadable_files() {
    let files = vec![
        entry("a.md", 100, 0, Some("# A")),
        entry("empty.md", 400, 0, Some("")),
        entry("unreadable.md", 300, 0, None),
    ];
    let (status, body) = main_page(&files);
    assert_eq!(status, 200);
    assert_eq!(
        body,
        "<!DOCTYPE html><meta charset=\"utf-8\"><h1>blog</h1><ul>\
         <li><a href=\"a.html\">A</a></li></ul>"
            .to_string()
    );
}

#[test]
fn index_ignores_non_markdown_files() {
    let files = vec![
        entry("style.css", 900, 0, Some("body {}")),
        entry("a.md", 100, 0, Some("# A")),
    ];
    let (_, body) = main_page(&files);
    assert!(!body.contains("style"));
    assert!(body.contains("a.html"));
}

#[test]
fn index_lists_all_distinct_times_in_order() {
    let mut files = Vec::new();
    for k in 0..6i64 {
        let name = format!("p{}.md", k);
        let text = format!("# T{}", k);
        files.push(entry(&name, 100 + k, 0, Some(&text)));
    }
    let (status, body) = main_page(&files);
    assert_eq!(status, 200);
    let mut last_pos = 0;
    for k in (0..6i64).rev() {
        let link = format!("p{}.html", k);
        let pos = body.find(&link).unwrap();
        assert!(pos >= last_pos);
        last_pos = pos;
    }
}

#[test]
fn scan_failure_is_server_error() {
    let (status, body) = scan_failure();
    assert_eq!(status, 500);
    assert_eq!(body, "internal server error".to_string());
}
