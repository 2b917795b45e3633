use typolite::export::{check_format, ExportError, ExportFormat, ExportService};

#[test]
fn export_test_toc_generation() {
    let service = ExportService::new();
    let html = "<h1>Chapter 1</h1><h2>Section 1.1</h2><h2>Section 1.2</h2>";

    let toc = service.generate_toc_from_html(html).unwrap();

    assert!(toc.contains("Table of Contents"));
    assert!(toc.contains("Chapter 1"));
    assert!(toc.contains("Section 1.1"));
}

#[test]
fn toc_entries_exact() {
    let service = ExportService::new();
    let toc = service
        .generate_toc_from_html("<h1>Chapter 1</h1>\n<p>x</p>\r\n  <h2>Big Part</h2>")
        .unwrap();
    assert_eq!(
        toc,
        "<div class=\"toc\">\n                <h2>Table of Contents</h2>\n                <ul>\n                    \
<li><a href=\"#chapter-1\">Chapter 1</a></li>\n  <li><a href=\"#big-part\">Big Part</a></li>\
\n                </ul>\n            </div>"
    );
}

#[test]
fn toc_of_html_without_headings_is_empty() {
    let service = ExportService::new();
    assert_eq!(service.generate_toc_from_html("<p>plain</p>").unwrap(), "");
    assert_eq!(service.generate_toc_from_html("").unwrap(), "");
}

#[test]
fn heading_line_extraction() {
    let service = ExportService::new();
    assert_eq!(
        service.extract_heading_from_line("<h3>Deep Dive</h3>"),
        Some("    <li><a href=\"#deep-dive\">Deep Dive</a></li>".to_string())
    );
    assert_eq!(service.extract_heading_from_line("<p>not a heading</p>"), None);
    assert_eq!(service.extract_heading_from_line("<hr>"), None);
    assert_eq!(service.extract_heading_from_line("<h</h1>x>"), None);
}

#[test]
fn docx_is_refused() {
    assert_eq!(check_format(ExportFormat::Docx), Err(ExportError::UnsupportedFormat));
    assert_eq!(check_format(ExportFormat::Pdf), Ok(()));
    assert_eq!(check_format(ExportFormat::Html), Ok(()));
}

#[test]
fn temp_dir_is_kept() {
    let dir = std::path::PathBuf::from("exports");
    let service = ExportService::new().with_temp_dir(dir.clone());
    assert_eq!(service.temp_dir(), &dir);
}

#[test]
fn css_with_and_without_theme() {
    let service = ExportService::new();
    let base = service.get_export_css(None);
    assert!(base.contains("@page"));
    let themed = service.get_export_css(Some("body { color: red; }"));
    assert_eq!(themed, format!("{}\n\n/* Custom Theme */\nbody {{ color: red; }}", base));
}

#[test]
fn complete_page_holds_toc_and_content() {
    let service = ExportService::new();
    let content = "<h1>Test Document</h1><p>This is a test.</p>";
    let page = service.create_complete_html(content, true, None);
    assert!(page.starts_with("<!DOCTYPE html>"));
    assert!(page.ends_with("</html>"));
    assert!(page.contains("Table of Contents"));
    assert!(page.contains("<li><a href=\"#test-document\">Test Document</a></li>"));
    assert!(page.contains(content));
    let bare = service.create_complete_html(content, false, None);
    assert!(!bare.contains("Table of Contents"));
    assert!(bare.contains(content));
}
