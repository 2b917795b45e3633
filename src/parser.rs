//! The parse-and-annotate pipeline: one forward pass over the tokenizer's
//! events that assigns heading anchors, renders code blocks and inline math,
//! escapes literal text, and gathers the table of contents and line index.

use vstd::prelude::*;
use vstd::string::*;
use crate::anchor::{anchors_of_one_base_differ, anchor_base_spec, anchor_for, decimal, occurrences, push_decimal, AnchorRegistry};
use crate::escape::{escape_html, escape_plain_text_is_identity, escaped, is_html_special};
use crate::event::{extension_options, 
    events_of, render, rendered_html, tokenize, view_events, view_pieces, EventView, MdEvent,
    Piece, PieceView,
};
use crate::text::{chars_of, utf8_byte_len, utf8_len, is_space, is_white_space, lower_of, string_of};

verus! {

/// One entry of a table of contents.
#[derive(Debug, Clone)]
pub struct TocItem {
    pub level: u8,
    pub title: String,
    pub anchor: String,
    /// The source line (from 1) on which the heading starts.
    pub line: usize,
}

/// The mathematical value of a [`TocItem`].
pub struct TocView {
    pub level: u8,
    pub title: Seq<char>,
    pub anchor: Seq<char>,
    pub line: nat,
}

impl View for TocItem {
    type V = TocView;

    open spec fn view(&self) -> TocView {
        TocView { level: self.level, title: self.title@, anchor: self.anchor@, line: self.line as nat }
    }
}

/// The result of parsing one document.
#[derive(Debug, Clone)]
pub struct ParsedDocument {
    pub html: String,
    /// For each line break, the UTF-8 length in bytes of the text seen before it.
    pub line_map: Vec<usize>,
    pub toc: Vec<TocItem>,
    pub word_count: usize,
    /// Estimated reading time, in minutes.
    pub reading_time: u32,
}

/// The mathematical value of a [`ParsedDocument`].
pub struct DocView {
    pub html: Seq<char>,
    pub line_map: Seq<usize>,
    pub toc: Seq<TocView>,
    pub word_count: nat,
    pub reading_time: nat,
}

impl View for ParsedDocument {
    type V = DocView;

    open spec fn view(&self) -> DocView {
        DocView {
            html: self.html@,
            line_map: self.line_map@,
            toc: self.toc@.map_values(|t: TocItem| t@),
            word_count: self.word_count as nat,
            reading_time: self.reading_time as nat,
        }
    }
}

/// What the annotation pass makes of a document's events.
#[derive(Debug, Clone)]
pub struct AnnotatedEvents {
    /// The events to render, in order.
    pub pieces: Vec<Piece>,
    pub toc: Vec<TocItem>,
    /// For each line break, the UTF-8 length in bytes of the text seen before it.
    pub line_map: Vec<usize>,
}

/// Why a parse failed. Parsing itself is total; the variant is kept for
/// renderers that can fail.
#[derive(Debug, Clone)]
pub enum ParseError {
    RenderCallbackFailed(String),
}

// ----- Statistics -----

/// Whether a word (a maximal run of non-white-space characters) starts at `i`.
pub open spec fn word_starts_at(s: Seq<char>, i: int) -> bool {
    !is_white_space(s[i]) && (i == 0 || is_white_space(s[i - 1]))
}

/// The number of words among the first `n` characters of `s`.
pub open spec fn words_upto(s: Seq<char>, n: nat) -> nat
    decreases n,
{
    if n == 0 {
        0
    } else {
        words_upto(s, (n - 1) as nat) + if word_starts_at(s, n - 1) { 1nat } else { 0nat }
    }
}

/// The number of white-space separated words of `s`.
pub open spec fn word_count(s: Seq<char>) -> nat {
    words_upto(s, s.len())
}

/// Reading time at 200 words a minute, rounded half up, at least one minute.
pub open spec fn reading_minutes(words: nat) -> nat {
    let m = (words + 100) / 200;
    if m < 1 { 1 } else { m }
}

/// [`reading_minutes`], capped to what a `u32` holds.
pub open spec fn reading_time_of(words: nat) -> nat {
    if reading_minutes(words) > u32::MAX { u32::MAX as nat } else { reading_minutes(words) }
}

// ----- The annotation pass -----

/// A heading starts at `i` and its first inner event is text.
pub open spec fn heading_at(ev: Seq<EventView>, i: int) -> bool {
    0 <= i && i + 1 < ev.len() && ev[i] is StartHeading && ev[i + 1] is Text
}

/// The title of the heading at `i`.
pub open spec fn title_at(ev: Seq<EventView>, i: int) -> Seq<char> {
    ev[i + 1]->Text_0
}

/// The anchor base of the heading at `i`.
pub open spec fn base_at(ev: Seq<EventView>, i: int) -> Seq<char> {
    anchor_base_spec(lower_of(title_at(ev, i)))
}

/// A fenced code block made of exactly one text run starts at `i`.
pub open spec fn code_block_at(ev: Seq<EventView>, i: int) -> bool {
    0 <= i && i + 2 < ev.len() && ev[i] is StartFencedCode && ev[i + 1] is Text
        && ev[i + 2] is EndCodeBlock
}

/// The event at `i` belongs to a code block that started before it.
pub open spec fn consumed_at(ev: Seq<EventView>, i: int) -> bool {
    code_block_at(ev, i - 1) || code_block_at(ev, i - 2)
}

/// The anchor bases of the headings among the first `n` events.
pub open spec fn bases_upto(ev: Seq<EventView>, n: nat) -> Seq<Seq<char>>
    decreases n,
{
    if n == 0 {
        Seq::empty()
    } else {
        let prev = bases_upto(ev, (n - 1) as nat);
        if heading_at(ev, n - 1) { prev.push(base_at(ev, n - 1)) } else { prev }
    }
}

/// The anchor of the heading at `i`, numbered against the headings before it.
pub open spec fn anchor_at(ev: Seq<EventView>, i: int) -> Seq<char> {
    anchor_for(bases_upto(ev, i as nat), base_at(ev, i))
}

/// The source line on which event `n` stands: one more than the breaks
/// before it, capped to what a `usize` holds.
pub open spec fn line_upto(ev: Seq<EventView>, n: nat) -> nat
    decreases n,
{
    if n == 0 {
        1
    } else {
        let prev = line_upto(ev, (n - 1) as nat);
        if (ev[n - 1] is SoftBreak || ev[n - 1] is HardBreak) && prev < usize::MAX {
            prev + 1
        } else {
            prev
        }
    }
}

/// The UTF-8 length in bytes of the text of the first `n` events, capped to
/// what a `usize` holds.
pub open spec fn offset_upto(ev: Seq<EventView>, n: nat) -> nat
    decreases n,
{
    if n == 0 {
        0
    } else {
        let prev = offset_upto(ev, (n - 1) as nat);
        if ev[n - 1] is Text {
            let sum = prev + utf8_len(ev[n - 1]->Text_0);
            if sum > usize::MAX { usize::MAX as nat } else { sum }
        } else {
            prev
        }
    }
}

/// The line index of the first `n` events: the text offset at each break.
pub open spec fn line_map_upto(ev: Seq<EventView>, n: nat) -> Seq<usize>
    decreases n,
{
    if n == 0 {
        Seq::empty()
    } else {
        let prev = line_map_upto(ev, (n - 1) as nat);
        if ev[n - 1] is SoftBreak || ev[n - 1] is HardBreak {
            prev.push(offset_upto(ev, (n - 1) as nat) as usize)
        } else {
            prev
        }
    }
}

/// The table of contents of the first `n` events.
pub open spec fn toc_upto(ev: Seq<EventView>, n: nat) -> Seq<TocView>
    decreases n,
{
    if n == 0 {
        Seq::empty()
    } else {
        let prev = toc_upto(ev, (n - 1) as nat);
        let i = n - 1;
        if heading_at(ev, i) {
            prev.push(
                TocView {
                    level: ev[i]->StartHeading_0,
                    title: title_at(ev, i),
                    anchor: anchor_at(ev, i),
                    line: line_upto(ev, i as nat),
                },
            )
        } else {
            prev
        }
    }
}

/// The opening tag of a heading with an id.
pub open spec fn heading_open(level: u8, anchor: Seq<char>) -> Seq<char> {
    "<h"@ + decimal(level as nat) + " id=\""@ + anchor + "\">"@
}

/// The markup of a fenced code block.
pub open spec fn code_html(code: Seq<char>, lang: Seq<char>) -> Seq<char> {
    "<pre class=\"language-"@ + lang + "\"><code class=\"language-"@ + lang
        + "\">"@ + escaped(code) + "</code></pre>"@
}

/// A text run that is one inline math expression: `$`, something, `$`.
pub open spec fn is_math(s: Seq<char>) -> bool {
    s.len() > 2 && s[0] == '$' && s.last() == '$'
}

/// The markup of a text run: a math wrapper if it is one math expression,
/// else the escaped text.
pub open spec fn text_html(s: Seq<char>) -> Seq<char> {
    if is_math(s) {
        let inner = s.subrange(1, s.len() - 1);
        "<span class=\"katex-inline\" data-math=\""@ + escaped(inner) + "\">$"@ + escaped(inner)
            + "$</span>"@
    } else {
        escaped(s)
    }
}

/// How many images are open before event `n`. The renderer writes the text
/// inside an image as escaped alternative text itself.
pub open spec fn image_depth_upto(ev: Seq<EventView>, n: nat) -> nat
    decreases n,
{
    if n == 0 {
        0
    } else {
        let prev = image_depth_upto(ev, (n - 1) as nat);
        if ev[n - 1] is StartImage {
            prev + 1
        } else if ev[n - 1] is EndImage && prev > 0 {
            (prev - 1) as nat
        } else {
            prev
        }
    }
}

/// Whether event `n` stands inside a code block that is not highlighted: an
/// indented block, or a fenced block that is not exactly start, one text run,
/// end. The events of such a block pass through as they are.
pub open spec fn raw_code_upto(ev: Seq<EventView>, n: nat) -> bool
    decreases n,
{
    if n == 0 {
        false
    } else {
        let i = n - 1;
        if ev[i] is StartIndentedCode || (ev[i] is StartFencedCode && !code_block_at(ev, i)) {
            true
        } else if ev[i] is EndCodeBlock {
            false
        } else {
            raw_code_upto(ev, (n - 1) as nat)
        }
    }
}

/// What the annotation emits for event `i`.
pub open spec fn emit(ev: Seq<EventView>, i: int) -> Seq<PieceView> {
    if consumed_at(ev, i) {
        Seq::empty()
    } else if code_block_at(ev, i) {
        seq![PieceView::Html(code_html(ev[i + 1]->Text_0, ev[i]->StartFencedCode_0))]
    } else if heading_at(ev, i) {
        seq![PieceView::Html(heading_open(ev[i]->StartHeading_0, anchor_at(ev, i)))]
    } else if ev[i] is Text && image_depth_upto(ev, i as nat) == 0 && !raw_code_upto(ev, i as nat) {
        seq![PieceView::Html(text_html(ev[i]->Text_0))]
    } else {
        seq![PieceView::Source(i as nat)]
    }
}

/// The annotated sequence for the first `n` events.
pub open spec fn plan_upto(ev: Seq<EventView>, n: nat) -> Seq<PieceView>
    decreases n,
{
    if n == 0 {
        Seq::empty()
    } else {
        plan_upto(ev, (n - 1) as nat) + emit(ev, n - 1)
    }
}

/// The whole result of parsing `markdown` with the given tokenizer extensions.
pub open spec fn parsed(options: u32, markdown: Seq<char>) -> DocView {
    let ev = events_of(options, markdown);
    DocView {
        html: rendered_html(options, markdown, plan_upto(ev, ev.len())),
        line_map: line_map_upto(ev, ev.len()),
        toc: toc_upto(ev, ev.len()),
        word_count: word_count(markdown),
        reading_time: reading_time_of(word_count(markdown)),
    }
}

/// The opening tag of a heading with an id (see [`heading_open`]).
fn heading_open_html(level: u8, anchor: &str) -> (r: String)
    ensures
        r@ == heading_open(level, anchor@),
{
    let mut digits: Vec<char> = Vec::new();
    push_decimal(&mut digits, level as usize);
    assert(digits@ =~= decimal(level as nat));
    let digits = string_of(digits.as_slice());
    let mut out = String::new();
    out.append("<h");
    out.append(digits.as_str());
    out.append(" id=\"");
    out.append(anchor);
    out.append("\">");
    assert(out@ =~= heading_open(level, anchor@));
    out
}

/// Turns Markdown text into a [`ParsedDocument`].
#[derive(Debug)]
pub struct MarkdownParser {
    /// The tokenizer extensions, as flag bits.
    options: u32,
}

impl MarkdownParser {
    /// The tokenizer extensions this parser enables, as flag bits; one value
    /// serves both the tokenizing and the rendering of a document.
    pub closed spec fn options_spec(&self) -> u32 {
        self.options
    }

    /// A parser with tables, footnotes, strikethrough, task lists and smart
    /// punctuation on.
    pub fn new() -> (r: Self)
        ensures
            r.options_spec() == 62,
    {
        MarkdownParser { options: extension_options() }
    }

    /// Parses a document: its events are annotated by [`Self::process_events`]
    /// and rendered, and its words are counted over the raw text. Parsing
    /// never fails.
    pub fn parse(&self, markdown: &str) -> (r: Result<ParsedDocument, ParseError>)
        ensures
            r matches Ok(d) && d@ == parsed(self.options_spec(), markdown@),
            r matches Ok(d) && forall|k: int| 0 <= k < d.toc@.len() ==> 1 <= #[trigger] d.toc@[k].level <= 6
                && d.toc@[k].line >= 1,
            r matches Ok(d) && forall|a: int, b: int| 0 <= a < b < d.toc@.len() ==> d.toc@[a].line
                <= d.toc@[b].line,
    {
        let events = tokenize(markdown, self.options);
        let annotated = self.process_events(&events);
        let AnnotatedEvents { pieces, toc, line_map } = annotated;
        proof {
            assert forall|k: int| 0 <= k < view_events(events@).len() implies (#[trigger] view_events(
                events@,
            )[k] matches EventView::StartHeading(l) ==> 1 <= l <= 6) by {
                assert(view_events(events@)[k] == events@[k]@);
            }
            lemma_toc_shape(view_events(events@), events@.len());
            assert forall|k: int| 0 <= k < toc@.len() implies 1 <= #[trigger] toc@[k].level <= 6
                && toc@[k].line >= 1 by {
                assert(toc@.map_values(|t: TocItem| t@)[k] == toc@[k]@);
                let tv = toc_upto(view_events(events@), events@.len());
                assert(1 <= tv[k].level <= 6);
            }
            assert forall|a: int, b: int| 0 <= a < b < toc@.len() implies toc@[a].line
                <= toc@[b].line by {
                assert(toc@.map_values(|t: TocItem| t@)[a] == toc@[a]@);
                assert(toc@.map_values(|t: TocItem| t@)[b] == toc@[b]@);
            }
        }
        let html = render(markdown, self.options, &pieces);
        let word_count = self.count_words(markdown);
        let minutes = word_count / 200 + if word_count % 200 >= 100 { 1 } else { 0 };
        let minutes = if minutes < 1 { 1 } else { minutes };
        let reading_time: u32 = if minutes > u32::MAX as usize { u32::MAX } else { minutes as u32 };
        Ok(ParsedDocument { html, line_map, toc, word_count, reading_time })
    }

    /// One forward pass over the events: headings followed by text get an
    /// anchor, unique within the pass, that both opens the heading and enters
    /// the table of contents; single-text fenced code blocks are highlighted;
    /// text runs outside images and outside code blocks that are not
    /// highlighted are escaped or rendered as math; each line
    /// break records the text offset reached. Every other event is kept as it is.
    pub fn process_events(&self, events: &Vec<MdEvent>) -> (r: AnnotatedEvents)
        ensures
            view_pieces(r.pieces@) == plan_upto(view_events(events@), events@.len()),
            r.toc@.map_values(|t: TocItem| t@) == toc_upto(view_events(events@), events@.len()),
            r.line_map@ == line_map_upto(view_events(events@), events@.len()),
            forall|k: int| 0 <= k < r.pieces@.len() ==> (#[trigger] r.pieces@[k] matches Piece::Source(j)
                ==> j < events@.len()),
    {
        let ghost ev = view_events(events@);
        let n = events.len();
        let mut registry = AnchorRegistry::new();
        let mut toc: Vec<TocItem> = Vec::new();
        let mut line_map: Vec<usize> = Vec::new();
        let mut plan: Vec<Piece> = Vec::new();
        let mut line: usize = 1;
        let mut offset: usize = 0;
        let mut depth: usize = 0;
        let mut raw_code = false;
        let mut i: usize = 0;
        while i < n
            invariant
                n == events.len(),
                ev == view_events(events@),
                i <= n,
                registry.wf(),
                registry@ == bases_upto(ev, i as nat),
                registry@.len() <= i,
                toc@.map_values(|t: TocItem| t@) == toc_upto(ev, i as nat),
                line_map@ == line_map_upto(ev, i as nat),
                line == line_upto(ev, i as nat),
                offset == offset_upto(ev, i as nat),
                depth == image_depth_upto(ev, i as nat),
                raw_code == raw_code_upto(ev, i as nat),
                depth <= i,
                view_pieces(plan@) == plan_upto(ev, i as nat),
                forall|k: int| 0 <= k < plan@.len() ==> (#[trigger] plan@[k] matches Piece::Source(j)
                    ==> j < n),
            decreases n - i,
        {
            let consumed = (i >= 1 && code_block_exec(&events, i - 1)) || (i >= 2
                && code_block_exec(&events, i - 2));
            let code = code_block_exec(&events, i);
            let ghost plan_before = plan@;
            assert(ev[i as int] == events@[i as int]@);
            match &events[i] {
                MdEvent::StartHeading(level) => {
                    let mut title_event = false;
                    if i + 1 < n {
                        assert(ev[i + 1] == events@[i + 1]@);
                        if let MdEvent::Text(title) = &events[i + 1] {
                            title_event = true;
                            let anchor = registry.assign(title.as_str());
                            let item = TocItem {
                                level: *level,
                                title: title.clone(),
                                anchor: anchor.clone(),
                                line,
                            };
                            toc.push(item);
                            plan.push(Piece::Html(heading_open_html(*level, anchor.as_str())));
                        }
                    }
                    if !title_event {
                        plan.push(Piece::Source(i));
                    }
                },
                MdEvent::StartFencedCode(lang) => {
                    if code {
                        assert(ev[i + 1] == events@[i + 1]@);
                        if let MdEvent::Text(text) = &events[i + 1] {
                            plan.push(Piece::Html(self.highlight_code(text.as_str(), lang.as_str())));
                        }
                    } else {
                        raw_code = true;
                        plan.push(Piece::Source(i));
                    }
                },
                MdEvent::StartIndentedCode => {
                    raw_code = true;
                    plan.push(Piece::Source(i));
                },
                MdEvent::Text(text) => {
                    let len = utf8_byte_len(text.as_str());
                    offset = offset.saturating_add(len);
                    if !consumed {
                        if depth == 0 && !raw_code {
                            plan.push(Piece::Html(self.process_math(text.as_str())));
                        } else {
                            plan.push(Piece::Source(i));
                        }
                    }
                },
                MdEvent::StartImage => {
                    depth += 1;
                    plan.push(Piece::Source(i));
                },
                MdEvent::EndImage => {
                    if depth > 0 {
                        depth -= 1;
                    }
                    plan.push(Piece::Source(i));
                },
                MdEvent::EndCodeBlock => {
                    raw_code = false;
                    if !consumed {
                        plan.push(Piece::Source(i));
                    }
                },
                MdEvent::SoftBreak | MdEvent::HardBreak => {
                    line_map.push(offset);
                    line = line.saturating_add(1);
                    plan.push(Piece::Source(i));
                },
                MdEvent::Other => {
                    plan.push(Piece::Source(i));
                },
            }
            proof {
                assert(view_pieces(plan@) =~= view_pieces(plan_before) + emit(ev, i as int));
                assert(toc@.map_values(|t: TocItem| t@) =~= toc_upto(ev, (i + 1) as nat));
            }
            i += 1;
        }
        AnnotatedEvents { pieces: plan, toc, line_map }
    }

    /// Counts the white-space separated words of `text`.
    pub fn count_words(&self, text: &str) -> (r: usize)
        ensures
            r == word_count(text@),
    {
        let v = chars_of(text);
        let mut count: usize = 0;
        let mut i: usize = 0;
        while i < v.len()
            invariant
                i <= v.len(),
                v@ == text@,
                count == words_upto(v@, i as nat),
                count <= i,
            decreases v.len() - i,
        {
            let c = v[i];
            let here = !is_space(c) && (i == 0 || is_space(v[i - 1]));
            if here {
                count += 1;
            }
            i += 1;
        }
        count
    }

    /// Renders a fenced code block: the code, escaped, inside `pre` and
    /// `code` elements that carry the language as a class.
    pub fn highlight_code(&self, code: &str, lang: &str) -> (r: String)
        ensures
            r@ == code_html(code@, lang@),
    {
        let code_text = escape_html(code);
        let mut out = String::new();
        out.append("<pre class=\"language-");
        out.append(lang);
        out.append("\"><code class=\"language-");
        out.append(lang);
        out.append("\">");
        out.append(code_text.as_str());
        out.append("</code></pre>");
        assert(out@ =~= code_html(code@, lang@));
        out
    }

    /// Renders a text run: a run that is `$`, an expression, `$` becomes a
    /// math wrapper that carries the expression; any other run is escaped.
    pub fn process_math(&self, text: &str) -> (r: String)
        ensures
            r@ == text_html(text@),
    {
        let v = chars_of(text);
        let n = v.len();
        if n > 2 && v[0] == '$' && v[n - 1] == '$' {
            let inner = escape_html(text.substring_char(1, n - 1));
            let mut out = String::new();
            out.append("<span class=\"katex-inline\" data-math=\"");
            out.append(inner.as_str());
            out.append("\">$");
            out.append(inner.as_str());
            out.append("$</span>");
            assert(out@ =~= text_html(text@));
            out
        } else {
            escape_html(text)
        }
    }
}

/// Parsing is deterministic: two parses of one document give equal results.
pub proof fn parse_is_deterministic(options: u32, markdown: Seq<char>, first: DocView, second: DocView)
    requires
        first == parsed(options, markdown),
        second == parsed(options, markdown),
    ensures
        first == second,
{
}

/// The reading time of every document is `max(1, round(words / 200))`, and
/// a document without words reads in one minute.
pub proof fn reading_time_law(options: u32, markdown: Seq<char>)
    ensures
        parsed(options, markdown).reading_time == reading_time_of(parsed(options, markdown).word_count),
        reading_minutes(parsed(options, markdown).word_count) <= u32::MAX ==> parsed(options, markdown).reading_time
            == reading_minutes(parsed(options, markdown).word_count),
        markdown.len() == 0 ==> parsed(options, markdown).reading_time == 1,
{
}

proof fn lemma_base_occurrences(ev: Seq<EventView>, i: int, j: int, b: Seq<char>, m: nat)
    requires
        heading_at(ev, i),
        i < j,
        m <= j,
        base_at(ev, i) == b,
        forall|k: int| 0 <= k < j && k != i && #[trigger] heading_at(ev, k) ==> base_at(ev, k) != b,
    ensures
        occurrences(bases_upto(ev, m), b) == if m > i { 1nat } else { 0nat },
    decreases m,
{
    if m > 0 {
        lemma_base_occurrences(ev, i, j, b, (m - 1) as nat);
        let prev = bases_upto(ev, (m - 1) as nat);
        if heading_at(ev, m - 1) {
            assert(prev.push(base_at(ev, m - 1)).drop_last() =~= prev);
        }
    }
}

/// When two headings share a title and no other heading before the second
/// one normalises to the same base, the first gets the base as its anchor
/// and the second the base followed by `-2`.
pub proof fn repeated_title_anchors(ev: Seq<EventView>, i: int, j: int)
    requires
        heading_at(ev, i),
        heading_at(ev, j),
        i < j,
        title_at(ev, i) == title_at(ev, j),
        forall|k: int| 0 <= k < j && k != i && #[trigger] heading_at(ev, k) ==> base_at(ev, k)
            != base_at(ev, i),
    ensures
        anchor_at(ev, i) == base_at(ev, i),
        anchor_at(ev, j) == base_at(ev, i) + seq!['-', '2'],
{
    let b = base_at(ev, i);
    lemma_base_occurrences(ev, i, j, b, i as nat);
    lemma_base_occurrences(ev, i, j, b, j as nat);
    assert(decimal(2) == seq!['2']);
    assert(b + seq!['-'] + seq!['2'] =~= b + seq!['-', '2']);
}

/// The table of contents has one entry per heading, and the entry of the
/// heading at `i` stands after the entries of the headings before it.
proof fn lemma_toc_entry(ev: Seq<EventView>, i: int, m: nat)
    requires
        heading_at(ev, i),
        i < m,
    ensures
        toc_upto(ev, m).len() == bases_upto(ev, m).len(),
        bases_upto(ev, i as nat).len() < toc_upto(ev, m).len(),
        toc_upto(ev, m)[bases_upto(ev, i as nat).len() as int] == (TocView {
            level: ev[i]->StartHeading_0,
            title: title_at(ev, i),
            anchor: anchor_at(ev, i),
            line: line_upto(ev, i as nat),
        }),
    decreases m,
{
    lemma_toc_len(ev, i as nat);
    lemma_toc_len(ev, m);
    if m > i + 1 {
        lemma_toc_entry(ev, i, (m - 1) as nat);
    }
}

proof fn lemma_toc_len(ev: Seq<EventView>, m: nat)
    ensures
        toc_upto(ev, m).len() == bases_upto(ev, m).len(),
    decreases m,
{
    if m > 0 {
        lemma_toc_len(ev, (m - 1) as nat);
    }
}

/// Two headings of a document with the same title `T`, where no other
/// heading before the second normalises to the same base: the table of
/// contents lists the first with the base as its anchor and, after it, the
/// second with the base followed by `-2`.
pub proof fn repeated_title_toc_anchors(options: u32, markdown: Seq<char>, i: int, j: int)
    requires
        heading_at(events_of(options, markdown), i),
        heading_at(events_of(options, markdown), j),
        i < j,
        title_at(events_of(options, markdown), i) == title_at(events_of(options, markdown), j),
        forall|k: int| 0 <= k < j && k != i && #[trigger] heading_at(events_of(options, markdown), k)
            ==> base_at(events_of(options, markdown), k) != base_at(events_of(options, markdown), i),
    ensures
        exists|a: int, b: int| 0 <= a < b < parsed(options, markdown).toc.len()
            && parsed(options, markdown).toc[a].title == title_at(events_of(options, markdown), i)
            && parsed(options, markdown).toc[b].title == title_at(events_of(options, markdown), i)
            && parsed(options, markdown).toc[a].anchor == base_at(events_of(options, markdown), i)
            && parsed(options, markdown).toc[b].anchor == base_at(events_of(options, markdown), i) + seq!['-', '2'],
{
    let ev = events_of(options, markdown);
    let n = ev.len();
    repeated_title_anchors(ev, i, j);
    lemma_toc_entry(ev, i, n);
    lemma_toc_entry(ev, j, n);
    lemma_toc_entry(ev, i, j as nat);
    lemma_toc_len(ev, j as nat);
    let a = bases_upto(ev, i as nat).len() as int;
    let b = bases_upto(ev, j as nat).len() as int;
    assert(0 <= a < b < parsed(options, markdown).toc.len());
}

proof fn lemma_occurrences_grow(ev: Seq<EventView>, i: int, m: nat)
    requires
        heading_at(ev, i),
        i < m,
    ensures
        occurrences(bases_upto(ev, m), base_at(ev, i)) > occurrences(
            bases_upto(ev, i as nat),
            base_at(ev, i),
        ),
    decreases m,
{
    let b = base_at(ev, i);
    let prev = bases_upto(ev, (m - 1) as nat);
    if m > i + 1 {
        lemma_occurrences_grow(ev, i, (m - 1) as nat);
    }
    if heading_at(ev, m - 1) {
        assert(prev.push(base_at(ev, m - 1)).drop_last() =~= prev);
    }
}

/// Two headings of one document whose titles normalise to the same base get
/// different anchors.
pub proof fn same_base_anchors_differ(ev: Seq<EventView>, i: int, j: int)
    requires
        heading_at(ev, i),
        heading_at(ev, j),
        i < j,
        base_at(ev, i) == base_at(ev, j),
    ensures
        anchor_at(ev, i) != anchor_at(ev, j),
{
    lemma_occurrences_grow(ev, i, j as nat);
    anchors_of_one_base_differ(bases_upto(ev, i as nat), bases_upto(ev, j as nat), base_at(ev, i));
}

/// A text run outside images with none of `&`, `<`, `>`, `"` that is not a
/// math expression reaches the output as raw HTML, character for character.
pub proof fn plain_text_passes_unchanged(ev: Seq<EventView>, i: int)
    requires
        0 <= i < ev.len(),
        ev[i] is Text,
        !consumed_at(ev, i),
        image_depth_upto(ev, i as nat) == 0,
        !raw_code_upto(ev, i as nat),
        !is_math(ev[i]->Text_0),
        forall|k: int| 0 <= k < ev[i]->Text_0.len() ==> !is_html_special(#[trigger] ev[i]->Text_0[k]),
    ensures
        emit(ev, i) == seq![PieceView::Html(ev[i]->Text_0)],
{
    escape_plain_text_is_identity(ev[i]->Text_0);
}

/// When every heading of `ev` has a level from 1 to 6, so has every entry of
/// the table of contents; entries stand on lines from 1 on, in line order.
proof fn lemma_toc_shape(ev: Seq<EventView>, m: nat)
    requires
        forall|k: int| 0 <= k < ev.len() ==> (#[trigger] ev[k] matches EventView::StartHeading(l)
            ==> 1 <= l <= 6),
    ensures
        line_upto(ev, m) >= 1,
        forall|a: int| 0 <= a < toc_upto(ev, m).len() ==> 1 <= #[trigger] toc_upto(ev, m)[a].level
            <= 6 && 1 <= toc_upto(ev, m)[a].line <= line_upto(ev, m),
        forall|a: int, b: int| 0 <= a < b < toc_upto(ev, m).len() ==> toc_upto(ev, m)[a].line
            <= toc_upto(ev, m)[b].line,
    decreases m,
{
    if m > 0 {
        let p = (m - 1) as nat;
        lemma_toc_shape(ev, p);
        let prev = toc_upto(ev, p);
        let cur = toc_upto(ev, m);
        assert(line_upto(ev, p) <= line_upto(ev, m));
        if heading_at(ev, m - 1) {
            assert(ev[m - 1] matches EventView::StartHeading(l) ==> 1 <= l <= 6);
            assert(cur == prev.push(cur.last()));
            assert(cur.last().line == line_upto(ev, p));
            assert forall|a: int| 0 <= a < cur.len() implies 1 <= #[trigger] cur[a].level <= 6 && 1
                <= cur[a].line <= line_upto(ev, m) by {
                if a < prev.len() {
                    assert(cur[a] == prev[a]);
                }
            }
            assert forall|a: int, b: int| 0 <= a < b < cur.len() implies cur[a].line
                <= cur[b].line by {
                assert(cur[a] == prev[a]);
                assert(1 <= prev[a].level <= 6);
                if b < prev.len() {
                    assert(cur[b] == prev[b]);
                }
            }
        } else {
            assert(cur == prev);
        }
    }
}

/// Whether a single-text fenced code block starts at `i`.
fn code_block_exec(events: &Vec<MdEvent>, i: usize) -> (r: bool)
    ensures
        r == code_block_at(view_events(events@), i as int),
{
    if i >= events.len() || events.len() - i < 3 {
        return false;
    }
    let start = match &events[i] {
        MdEvent::StartFencedCode(_) => true,
        _ => false,
    };
    let text = match &events[i + 1] {
        MdEvent::Text(_) => true,
        _ => false,
    };
    let end = match &events[i + 2] {
        MdEvent::EndCodeBlock => true,
        _ => false,
    };
    start && text && end
}

} // verus!
