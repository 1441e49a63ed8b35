use lecture_digest::layout::{layout_report, Placed};
use lecture_digest::resources::{article_link, content_links, resource_page};

fn at(p: &Placed) -> (usize, u32, u32, u32, bool, &str) {
    (p.page, p.x, p.y, p.size, p.bold, p.text.as_str())
}

#[test]
fn keyword_pages() {
    assert_eq!(
        resource_page("machine learning"),
        Some("https://en.wikipedia.org/wiki/machine_learning".to_string())
    );
    assert_eq!(resource_page("a/b"), None);
    assert_eq!(resource_page("why?"), None);
    assert_eq!(resource_page("   "), None);
    assert_eq!(resource_page(""), None);
    assert_eq!(resource_page(&"x".repeat(50)).map(|u| u.len()), Some(30 + 50));
    assert_eq!(resource_page(&"x".repeat(51)), None);
    // 26 characters of two bytes each: 52 bytes.
    assert_eq!(resource_page(&"é".repeat(26)), None);
    assert!(resource_page(&"é".repeat(25)).is_some());
}

#[test]
fn article_links_only() {
    assert_eq!(article_link("/wiki/Rust"), Some("https://en.wikipedia.org/wiki/Rust".to_string()));
    assert_eq!(article_link("/wiki/File:Logo.png"), None);
    assert_eq!(article_link("https://example.org/wiki/Rust"), None);
    assert_eq!(article_link("/wik"), None);
}

#[test]
fn links_from_an_article_page() {
    let html = "<html><body><div id=\"mw-content-text\">\
        <a href=\"/wiki/Alpha\">a</a>\
        <a href=\"/wiki/Help:Contents\">h</a>\
        <a href=\"https://example.org/\">e</a>\
        <a href=\"/wiki/Beta\">b</a>\
        <a href=\"/wiki/Gamma\">g</a>\
        <a href=\"/wiki/Delta\">d</a>\
        </div><a href=\"/wiki/Outside\">o</a></body></html>";
    assert_eq!(
        content_links(html),
        vec![
            "https://en.wikipedia.org/wiki/Alpha".to_string(),
            "https://en.wikipedia.org/wiki/Beta".to_string(),
            "https://en.wikipedia.org/wiki/Gamma".to_string(),
        ]
    );
    assert_eq!(content_links("<p>no links</p>"), Vec::<String>::new());
}

#[test]
fn report_layout_positions() {
    let placed = layout_report("Short summary.", &vec!["rust".to_string()], &vec!["link".to_string()]);
    let got: Vec<_> = placed.iter().map(at).collect();
    assert_eq!(
        got,
        vec![
            (0, 20, 277, 18, true, "Lecture Summary"),
            (0, 20, 249, 14, true, "Keywords:"),
            (0, 25, 235, 11, false, "• rust"),
            (0, 20, 193, 14, true, "Summary:"),
            (0, 25, 179, 11, false, "Short summary."),
            (0, 20, 137, 14, true, "Resources:"),
            (0, 25, 123, 11, false, "• link"),
        ]
    );
}

#[test]
fn report_layout_breaks_pages() {
    let keywords: Vec<String> = (0..17).map(|i| format!("k{}", i)).collect();
    let placed = layout_report("", &keywords, &vec![]);
    assert_eq!(at(&placed[2 + 15]), (0, 25, 25, 11, false, "• k15"));
    assert_eq!(at(&placed[2 + 16]), (1, 25, 277, 11, false, "• k16"));
    assert!(placed.iter().all(|p| p.y >= 20 && p.y <= 277));
}

#[test]
fn long_summary_is_wrapped() {
    let summary = "word ".repeat(40);
    let placed = layout_report(summary.trim(), &vec![], &vec![]);
    let body: Vec<&Placed> = placed.iter().filter(|p| !p.bold).collect();
    assert!(body.len() >= 3);
    assert!(body.iter().all(|p| p.text.chars().count() <= 80));
}
