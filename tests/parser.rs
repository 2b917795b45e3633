use typolite::anchor::{anchor_base, AnchorRegistry};
use typolite::escape::escape_html;
use typolite::parser::MarkdownParser;

#[test]
fn test_basic_parsing() {
    let parser = MarkdownParser::new();
    let markdown = "# Hello World\n\nThis is a **test** document.";

    let result = parser.parse(markdown).unwrap();

    assert!(result.html.contains("<h1"));
    assert!(result.html.contains("<strong>test</strong>"));
    // Words are the white-space separated tokens of the raw text, so `#`
    // and `**test**` count too.
    assert_eq!(result.word_count, 8);
    assert_eq!(result.toc.len(), 1);
    assert_eq!(result.toc[0].title, "Hello World");
}

#[test]
fn parser_test_toc_generation() {
    let parser = MarkdownParser::new();
    let markdown = "# Title 1\n## Subtitle 1\n### Sub-subtitle\n## Subtitle 2";

    let result = parser.parse(markdown).unwrap();

    assert_eq!(result.toc.len(), 4);
    assert_eq!(result.toc[0].level, 1);
    assert_eq!(result.toc[1].level, 2);
    assert_eq!(result.toc[2].level, 3);
    assert_eq!(result.toc[3].level, 2);
}

#[test]
fn test_math_processing() {
    let parser = MarkdownParser::new();
    let text = "$x^2 + y^2 = z^2$";

    let result = parser.process_math(text);

    assert!(result.contains("katex-inline"));
    assert!(result.contains("x^2 + y^2 = z^2"));
}

#[test]
fn repeated_titles_get_numbered_anchors() {
    let parser = MarkdownParser::new();
    let result = parser.parse("# Notes\n\ntext\n\n# Notes\n").unwrap();
    assert_eq!(result.toc.len(), 2);
    assert_eq!(result.toc[0].anchor, "notes");
    assert_eq!(result.toc[1].anchor, "notes-2");
    assert!(result.html.contains("<h1 id=\"notes\">Notes</h1>"));
    assert!(result.html.contains("<h1 id=\"notes-2\">Notes</h1>"));
}

#[test]
fn third_repeat_and_punctuation() {
    let parser = MarkdownParser::new();
    let result = parser.parse("## Notes!\n## notes\n## NOTES").unwrap();
    let anchors: Vec<&str> = result.toc.iter().map(|t| t.anchor.as_str()).collect();
    assert_eq!(anchors, vec!["notes", "notes-2", "notes-3"]);
}

#[test]
fn basic_document_toc_entry() {
    let parser = MarkdownParser::new();
    let result = parser.parse("# Hello World\n\nThis is a **test** document.").unwrap();
    assert_eq!(result.toc[0].level, 1);
    assert_eq!(result.toc[0].anchor, "hello-world");
    assert_eq!(result.toc[0].line, 1);
    assert!(result.html.contains("<h1 id=\"hello-world\">Hello World</h1>"));
}

#[test]
fn empty_document() {
    let parser = MarkdownParser::new();
    let result = parser.parse("").unwrap();
    assert_eq!(result.html, "");
    assert!(result.toc.is_empty());
    assert!(result.line_map.is_empty());
    assert_eq!(result.word_count, 0);
    assert_eq!(result.reading_time, 1);
}

#[test]
fn reading_time_rounds_half_up() {
    let parser = MarkdownParser::new();
    let words = |n: usize| vec!["word"; n].join(" ");
    assert_eq!(parser.parse(&words(99)).unwrap().reading_time, 1);
    assert_eq!(parser.parse(&words(299)).unwrap().reading_time, 1);
    assert_eq!(parser.parse(&words(300)).unwrap().reading_time, 2);
    assert_eq!(parser.parse(&words(500)).unwrap().reading_time, 3);
    assert_eq!(parser.parse(&words(500)).unwrap().word_count, 500);
}

#[test]
fn words_counted_over_raw_text() {
    let parser = MarkdownParser::new();
    assert_eq!(parser.count_words(""), 0);
    assert_eq!(parser.count_words("  a\tb\n\nc  "), 3);
    assert_eq!(parser.count_words("```\nlet x = 1;\n```"), 6);
    assert_eq!(parser.count_words("one\u{3000}two\u{a0}three"), 3);
}

#[test]
fn parsing_is_deterministic() {
    let parser = MarkdownParser::new();
    let doc = "# A\ntext with $x$ and `code`\n\n```rust\nfn main() {}\n```\n## A\n";
    let first = parser.parse(doc).unwrap();
    let second = parser.parse(doc).unwrap();
    assert_eq!(first.html, second.html);
    assert_eq!(first.line_map, second.line_map);
    assert_eq!(first.word_count, second.word_count);
    assert_eq!(first.reading_time, second.reading_time);
    assert_eq!(first.toc.len(), second.toc.len());
    for (a, b) in first.toc.iter().zip(second.toc.iter()) {
        assert_eq!(a.level, b.level);
        assert_eq!(a.title, b.title);
        assert_eq!(a.anchor, b.anchor);
        assert_eq!(a.line, b.line);
    }
}

#[test]
fn fenced_code_is_highlighted() {
    let parser = MarkdownParser::new();
    let result = parser.parse("```rust\nlet a = b < c;\n```\n").unwrap();
    assert_eq!(
        result.html,
        "<pre class=\"language-rust\"><code class=\"language-rust\">let a = b &lt; c;\n</code></pre>"
    );
}

#[test]
fn highlight_without_language() {
    let parser = MarkdownParser::new();
    assert_eq!(
        parser.highlight_code("x && y", ""),
        "<pre class=\"language-\"><code class=\"language-\">x &amp;&amp; y</code></pre>"
    );
}

#[test]
fn text_is_escaped() {
    let parser = MarkdownParser::new();
    let result = parser.parse("a &lt; b").unwrap();
    assert_eq!(result.html, "<p>a &lt; b</p>\n");
    let result = parser.parse("x > y & z").unwrap();
    assert_eq!(result.html, "<p>x &gt; y &amp; z</p>\n");
}

#[test]
fn math_exact_markup() {
    let parser = MarkdownParser::new();
    assert_eq!(
        parser.process_math("$a<b$"),
        "<span class=\"katex-inline\" data-math=\"a&lt;b\">$a&lt;b$</span>"
    );
    assert_eq!(parser.process_math("$$"), "$$");
    assert_eq!(parser.process_math("a $x$ and $y$"), "a $x$ and $y$");
    assert_eq!(parser.process_math("$x"), "$x");
}

#[test]
fn line_map_records_offsets_at_breaks() {
    let parser = MarkdownParser::new();
    let result = parser.parse("ab\ncd\nef").unwrap();
    assert_eq!(result.line_map, vec![2, 4]);
    let result = parser.parse("# T\nab\n# U").unwrap();
    assert_eq!(result.toc.len(), 2);
}

#[test]
fn heading_lines_follow_breaks() {
    let parser = MarkdownParser::new();
    let result = parser.parse("para one\npara two\n\n# Head").unwrap();
    assert_eq!(result.toc.len(), 1);
    assert_eq!(result.toc[0].line, 2);
}

#[test]
fn heading_without_text_gets_no_id() {
    let parser = MarkdownParser::new();
    let result = parser.parse("# *Styled*\n").unwrap();
    assert!(result.toc.is_empty());
    assert_eq!(result.html, "<h1><em>Styled</em></h1>\n");
}

#[test]
fn escaping_plain_text_changes_nothing() {
    assert_eq!(escape_html("plain words 123"), "plain words 123");
    assert_eq!(escape_html(""), "");
    assert_eq!(escape_html("<a href=\"x\">&</a>"), "&lt;a href=&quot;x&quot;&gt;&amp;&lt;/a&gt;");
}

#[test]
fn anchor_normalisation() {
    assert_eq!(anchor_base("--hello, world!--"), "hello--world");
    assert_eq!(anchor_base(""), "");
    assert_eq!(anchor_base("caf\u{e9} 2"), "caf--2");
    let mut registry = AnchorRegistry::new();
    assert_eq!(registry.assign("Hello World"), "hello-world");
    assert_eq!(registry.assign("HELLO world"), "hello-world-2");
    assert_eq!(registry.assign("!!!"), "");
    assert_eq!(registry.assign("???"), "-2");
    assert_eq!(registry.assign_lowered("hello world"), "hello-world-3");
    assert_eq!(registry.assign_lowered("Hello World"), "hello-world-4");
    assert_eq!(anchor_base("MiXeD Case"), "mixed-case");
}

#[test]
fn image_alt_text_escaped_once() {
    let parser = MarkdownParser::new();
    let result = parser.parse("![a & b](pic.png)").unwrap();
    assert_eq!(result.html, "<p><img src=\"pic.png\" alt=\"a &amp; b\" /></p>\n");
}

#[test]
fn line_map_in_bytes_from_markdown() {
    let parser = MarkdownParser::new();
    let result = parser.parse("\u{e9}\nb").unwrap();
    assert_eq!(result.line_map, vec![2]);
}

#[test]
fn highlight_keeps_language_as_given() {
    let parser = MarkdownParser::new();
    assert_eq!(
        parser.highlight_code("a < b", "c++"),
        "<pre class=\"language-c++\"><code class=\"language-c++\">a &lt; b</code></pre>"
    );
}

#[test]
fn crlf_code_block_is_not_math() {
    let parser = MarkdownParser::new();
    let result = parser.parse("```\r\n$x$\r\n$y$\r\n```\r\n").unwrap();
    assert!(!result.html.contains("katex-inline"));
    assert!(result.html.contains("$x$"));
}

#[test]
fn indented_code_is_passed_through() {
    let parser = MarkdownParser::new();
    let result = parser.parse("    $x$ < y\n").unwrap();
    assert_eq!(result.html, "<pre><code>$x$ &lt; y\n</code></pre>\n");
}

#[test]
fn extensions_are_on() {
    let parser = MarkdownParser::new();
    assert!(parser.parse("~~gone~~").unwrap().html.contains("<del>gone</del>"));
    assert!(parser.parse("| a |\n|---|\n| b |\n").unwrap().html.contains("<table>"));
    assert!(parser.parse("- [x] done\n").unwrap().html.contains("checkbox"));
}

#[test]
fn numbered_anchor_can_meet_a_literal_title() {
    // The numbering counts repeats of one base only, so a title that is
    // itself `base-2` gets that anchor too.
    let parser = MarkdownParser::new();
    let result = parser.parse("# Notes\n# Notes\n# Notes 2\n").unwrap();
    let anchors: Vec<&str> = result.toc.iter().map(|t| t.anchor.as_str()).collect();
    assert_eq!(anchors, vec!["notes", "notes-2", "notes-2"]);
}
