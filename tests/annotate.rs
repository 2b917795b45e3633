use typolite::event::{MdEvent, Piece};
use typolite::parser::MarkdownParser;

fn html_of(p: &Piece) -> Option<&str> {
    match p {
        Piece::Html(h) => Some(h.as_str()),
        Piece::Source(_) => None,
    }
}

fn source_of(p: &Piece) -> Option<usize> {
    match p {
        Piece::Source(i) => Some(*i),
        Piece::Html(_) => None,
    }
}

#[test]
fn heading_start_gets_id_and_title_stays() {
    let parser = MarkdownParser::new();
    let events = vec![
        MdEvent::StartHeading(2),
        MdEvent::Text("A & B".to_string()),
        MdEvent::Other,
    ];
    let out = parser.process_events(&events);
    assert_eq!(out.pieces.len(), 3);
    assert_eq!(html_of(&out.pieces[0]), Some("<h2 id=\"a---b\">"));
    assert_eq!(html_of(&out.pieces[1]), Some("A &amp; B"));
    assert_eq!(source_of(&out.pieces[2]), Some(2));
    assert_eq!(out.toc.len(), 1);
    assert_eq!(out.toc[0].level, 2);
    assert_eq!(out.toc[0].title, "A & B");
    assert_eq!(out.toc[0].anchor, "a---b");
    assert_eq!(out.toc[0].line, 1);
}

#[test]
fn heading_without_text_passes_through() {
    let parser = MarkdownParser::new();
    let events = vec![MdEvent::StartHeading(1), MdEvent::Other, MdEvent::StartHeading(3)];
    let out = parser.process_events(&events);
    assert!(out.toc.is_empty());
    let sources: Vec<Option<usize>> = out.pieces.iter().map(source_of).collect();
    assert_eq!(sources, vec![Some(0), Some(1), Some(2)]);
}

#[test]
fn empty_titles_share_a_slot() {
    let parser = MarkdownParser::new();
    let events = vec![
        MdEvent::StartHeading(1),
        MdEvent::Text("!!".to_string()),
        MdEvent::StartHeading(1),
        MdEvent::Text("??".to_string()),
        MdEvent::StartHeading(1),
        MdEvent::Text("--".to_string()),
    ];
    let out = parser.process_events(&events);
    let anchors: Vec<&str> = out.toc.iter().map(|t| t.anchor.as_str()).collect();
    assert_eq!(anchors, vec!["", "-2", "-3"]);
}

#[test]
fn code_block_triple_becomes_one_piece() {
    let parser = MarkdownParser::new();
    let events = vec![
        MdEvent::StartFencedCode("py".to_string()),
        MdEvent::Text("x = 1 < 2\n".to_string()),
        MdEvent::EndCodeBlock,
        MdEvent::SoftBreak,
    ];
    let out = parser.process_events(&events);
    assert_eq!(out.pieces.len(), 2);
    assert_eq!(
        html_of(&out.pieces[0]),
        Some("<pre class=\"language-py\"><code class=\"language-py\">x = 1 &lt; 2\n</code></pre>")
    );
    assert_eq!(source_of(&out.pieces[1]), Some(3));
    assert_eq!(out.line_map, vec![10]);
}

#[test]
fn irregular_code_block_falls_back() {
    let parser = MarkdownParser::new();
    let events = vec![
        MdEvent::StartFencedCode("".to_string()),
        MdEvent::Text("a\n".to_string()),
        MdEvent::Text("b\n".to_string()),
        MdEvent::EndCodeBlock,
    ];
    let out = parser.process_events(&events);
    assert_eq!(out.pieces.len(), 4);
    let sources: Vec<Option<usize>> = out.pieces.iter().map(source_of).collect();
    assert_eq!(sources, vec![Some(0), Some(1), Some(2), Some(3)]);
    let empty = vec![MdEvent::StartFencedCode("rs".to_string()), MdEvent::EndCodeBlock];
    let out = parser.process_events(&empty);
    let sources: Vec<Option<usize>> = out.pieces.iter().map(source_of).collect();
    assert_eq!(sources, vec![Some(0), Some(1)]);
}

#[test]
fn line_map_counts_bytes_and_heading_lines() {
    let parser = MarkdownParser::new();
    let events = vec![
        MdEvent::Text("h\u{e9}llo".to_string()),
        MdEvent::HardBreak,
        MdEvent::Text("$x$".to_string()),
        MdEvent::SoftBreak,
        MdEvent::StartHeading(4),
        MdEvent::Text("End".to_string()),
    ];
    let out = parser.process_events(&events);
    assert_eq!(out.line_map, vec![6, 9]);
    assert_eq!(out.toc.len(), 1);
    assert_eq!(out.toc[0].line, 3);
    assert_eq!(
        html_of(&out.pieces[2]),
        Some("<span class=\"katex-inline\" data-math=\"x\">$x$</span>")
    );
}

#[test]
fn no_events_nothing_out() {
    let parser = MarkdownParser::new();
    let out = parser.process_events(&Vec::new());
    assert!(out.pieces.is_empty());
    assert!(out.toc.is_empty());
    assert!(out.line_map.is_empty());
}

#[test]
fn multibyte_text_counts_in_bytes() {
    let parser = MarkdownParser::new();
    let events = vec![MdEvent::Text("\u{e9}".to_string()), MdEvent::SoftBreak];
    assert_eq!(parser.process_events(&events).line_map, vec![2]);
    let events = vec![MdEvent::Text("\u{20ac}\u{1f600}".to_string()), MdEvent::HardBreak];
    assert_eq!(parser.process_events(&events).line_map, vec![7]);
}

#[test]
fn text_inside_image_stays_a_source_event() {
    let parser = MarkdownParser::new();
    let events = vec![
        MdEvent::StartImage,
        MdEvent::Text("a & b".to_string()),
        MdEvent::EndImage,
        MdEvent::Text("c & d".to_string()),
    ];
    let out = parser.process_events(&events);
    assert_eq!(source_of(&out.pieces[1]), Some(1));
    assert_eq!(html_of(&out.pieces[3]), Some("c &amp; d"));
}

#[test]
fn text_after_irregular_block_is_annotated_again() {
    let parser = MarkdownParser::new();
    let events = vec![
        MdEvent::StartFencedCode("".to_string()),
        MdEvent::Text("$x$\n".to_string()),
        MdEvent::Text("$y$\n".to_string()),
        MdEvent::EndCodeBlock,
        MdEvent::Text("a<b".to_string()),
        MdEvent::StartIndentedCode,
        MdEvent::Text("c<d".to_string()),
        MdEvent::EndCodeBlock,
    ];
    let out = parser.process_events(&events);
    assert_eq!(source_of(&out.pieces[1]), Some(1));
    assert_eq!(source_of(&out.pieces[2]), Some(2));
    assert_eq!(html_of(&out.pieces[4]), Some("a&lt;b"));
    assert_eq!(source_of(&out.pieces[6]), Some(6));
}
