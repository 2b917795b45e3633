//! The structural events of a Markdown document, as the tokenizer hands them
//! over, and the rendering of an annotated event sequence to HTML.

use vstd::prelude::*;
use pulldown_cmark::{CodeBlockKind, Event, Options, Parser, Tag};

verus! {

/// One structural event of a document. Events that the annotation does not
/// look into are `Other` and are rendered as the tokenizer produced them.
#[derive(Debug, Clone)]
pub enum MdEvent {
    /// Start of a heading of the given level (1 to 6).
    StartHeading(u8),
    /// Start of a fenced code block with its info string (empty if none).
    StartFencedCode(String),
    /// Start of an indented code block.
    StartIndentedCode,
    /// End of a code block.
    EndCodeBlock,
    /// A run of literal text.
    Text(String),
    SoftBreak,
    HardBreak,
    /// Start of an image; the text up to its end is its alternative text.
    StartImage,
    /// End of an image.
    EndImage,
    Other,
}

/// The mathematical value of an [`MdEvent`].
pub enum EventView {
    StartHeading(u8),
    StartFencedCode(Seq<char>),
    StartIndentedCode,
    EndCodeBlock,
    Text(Seq<char>),
    SoftBreak,
    HardBreak,
    StartImage,
    EndImage,
    Other,
}

impl View for MdEvent {
    type V = EventView;

    open spec fn view(&self) -> EventView {
        match self {
            MdEvent::StartHeading(l) => EventView::StartHeading(*l),
            MdEvent::StartFencedCode(lang) => EventView::StartFencedCode(lang@),
            MdEvent::StartIndentedCode => EventView::StartIndentedCode,
            MdEvent::EndCodeBlock => EventView::EndCodeBlock,
            MdEvent::Text(t) => EventView::Text(t@),
            MdEvent::SoftBreak => EventView::SoftBreak,
            MdEvent::HardBreak => EventView::HardBreak,
            MdEvent::StartImage => EventView::StartImage,
            MdEvent::EndImage => EventView::EndImage,
            MdEvent::Other => EventView::Other,
        }
    }
}

/// One item of an annotated event sequence: either the tokenizer's event at
/// the given index, unchanged, or a fragment of ready HTML.
#[derive(Debug, Clone)]
pub enum Piece {
    Source(usize),
    Html(String),
}

/// The mathematical value of a [`Piece`].
pub enum PieceView {
    Source(nat),
    Html(Seq<char>),
}

impl View for Piece {
    type V = PieceView;

    open spec fn view(&self) -> PieceView {
        match self {
            Piece::Source(i) => PieceView::Source(*i as nat),
            Piece::Html(h) => PieceView::Html(h@),
        }
    }
}

/// The views of a sequence of events.
pub open spec fn view_events(v: Seq<MdEvent>) -> Seq<EventView> {
    v.map_values(|e: MdEvent| e@)
}

/// The views of a sequence of pieces.
pub open spec fn view_pieces(v: Seq<Piece>) -> Seq<PieceView> {
    v.map_values(|p: Piece| p@)
}

/// The events that the tokenizer produces for a document, with the given
/// extension flags.
pub uninterp spec fn events_of(options: u32, markdown: Seq<char>) -> Seq<EventView>;

/// The HTML that the renderer writes for an annotated event sequence of a
/// document tokenized with the given extension flags.
pub uninterp spec fn rendered_html(options: u32, markdown: Seq<char>, plan: Seq<PieceView>) -> Seq<char>;

/// Relies on `pulldown_cmark::Options`: the flag bits of the extensions this
/// library parses with, tables (`1 << 1`), footnotes (`1 << 2`),
/// strikethrough (`1 << 3`), task lists (`1 << 4`) and smart punctuation
/// (`1 << 5`).
#[verifier::external_body]
pub(crate) fn extension_options() -> (r: u32)
    ensures
        r == 62,
{
    (Options::ENABLE_TABLES | Options::ENABLE_FOOTNOTES | Options::ENABLE_STRIKETHROUGH
        | Options::ENABLE_TASKLISTS | Options::ENABLE_SMART_PUNCTUATION).bits()
}

/// Relies on `pulldown_cmark::Parser::new_ext`: its events depend on the text
/// and the extension flags alone. Each event is carried over to the variant
/// of the same kind; `HeadingLevel` runs from `H1 = 1` to `H6 = 6`.
#[verifier::external_body]
pub(crate) fn tokenize(markdown: &str, options: u32) -> (r: Vec<MdEvent>)
    ensures
        view_events(r@) == events_of(options, markdown@),
        forall|k: int| 0 <= k < r@.len() ==> (#[trigger] r@[k] matches MdEvent::StartHeading(l)
            ==> 1 <= l <= 6),
{
    Parser::new_ext(markdown, Options::from_bits_truncate(options)).map(|event| match event {
        Event::Start(Tag::Heading(level, _, _)) => MdEvent::StartHeading(level as u8),
        Event::Start(Tag::CodeBlock(CodeBlockKind::Fenced(lang))) => MdEvent::StartFencedCode(lang.to_string()),
        Event::Start(Tag::CodeBlock(CodeBlockKind::Indented)) => MdEvent::StartIndentedCode,
        Event::End(Tag::CodeBlock(_)) => MdEvent::EndCodeBlock,
        Event::Text(text) => MdEvent::Text(text.to_string()),
        Event::SoftBreak => MdEvent::SoftBreak,
        Event::HardBreak => MdEvent::HardBreak,
        Event::Start(Tag::Image(..)) => MdEvent::StartImage,
        Event::End(Tag::Image(..)) => MdEvent::EndImage,
        _ => MdEvent::Other,
    }).collect()
}

/// Relies on `pulldown_cmark::html::push_html`, fed with the document's
/// events (tokenized as in [`tokenize`], with the same flags) in the order the
/// plan gives, each `Html` piece as a raw HTML event. The output depends on
/// these alone.
#[verifier::external_body]
pub(crate) fn render(markdown: &str, options: u32, plan: &Vec<Piece>) -> (r: String)
    requires
        forall|k: int| 0 <= k < plan@.len() ==> (#[trigger] plan@[k] matches Piece::Source(i)
            ==> (i as int) < events_of(options, markdown@).len()),
    ensures
        r@ == rendered_html(options, markdown@, view_pieces(plan@)),
{
    let events: Vec<Event> = Parser::new_ext(markdown, Options::from_bits_truncate(options)).collect();
    let mut html = String::new();
    pulldown_cmark::html::push_html(&mut html, plan.iter().map(|piece| match piece {
        Piece::Source(i) => events[*i].clone(),
        Piece::Html(h) => Event::Html(h.clone().into()),
    }));
    html
}

} // verus!
