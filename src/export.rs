//! Export settings and the table of contents that an exported document opens with.

use vstd::prelude::*;
use vstd::string::*;
use crate::text::{
    chars_of, find, find_from, find_from_exec, lower_of, lowercase, occurs_at_exec, starts_with,
    string_of, trim_start_ws, trim_start_ws_exec,
};

verus! {

/// `std::path::PathBuf`, carried through as an opaque value.
#[verifier::external_type_specification]
#[verifier::external_body]
pub struct ExPathBuf(std::path::PathBuf);

/// Relies on `PathBuf::new`, which makes an empty path.
pub assume_specification[ std::path::PathBuf::new ]() -> std::path::PathBuf;

/// The format a document is exported to.
#[derive(Clone, Copy, Debug, PartialEq, Eq, Structural)]
pub enum ExportFormat {
    Pdf,
    Html,
    /// Not supported yet.
    Docx,
}

#[derive(Clone, Copy, Debug, PartialEq, Eq, Structural)]
pub enum PageSize {
    A4,
    Letter,
    Legal,
    A3,
    A5,
}

/// What an export produced.
#[derive(Debug)]
pub struct ExportResult {
    pub output_path: std::path::PathBuf,
    pub file_size: u64,
    pub pages: u32,
    pub export_time_ms: u64,
}

/// Why an export was refused.
#[derive(Clone, Copy, Debug, PartialEq, Eq, Structural)]
pub enum ExportError {
    /// The format has no exporter yet.
    UnsupportedFormat,
}

/// Accepts the formats that have an exporter.
pub fn check_format(format: ExportFormat) -> (r: Result<(), ExportError>)
    ensures
        r is Err <==> format == ExportFormat::Docx,
{
    match format {
        ExportFormat::Docx => Err(ExportError::UnsupportedFormat),
        _ => Ok(()),
    }
}

/// `n` times two spaces.
pub open spec fn indent(n: nat) -> Seq<char>
    decreases n,
{
    if n == 0 { Seq::empty() } else { indent((n - 1) as nat) + seq![' ', ' '] }
}

/// `s` with every space replaced by `-`.
pub open spec fn dashed(s: Seq<char>) -> Seq<char> {
    s.map_values(|c: char| if c == ' ' { '-' } else { c })
}

/// The heading level a line names: the first of `<h1` .. `<h6` that occurs in it.
pub open spec fn level_in(line: Seq<char>) -> Option<nat> {
    if find(line, "<h1"@) is Some { Some(1) }
    else if find(line, "<h2"@) is Some { Some(2) }
    else if find(line, "<h3"@) is Some { Some(3) }
    else if find(line, "<h4"@) is Some { Some(4) }
    else if find(line, "<h5"@) is Some { Some(5) }
    else if find(line, "<h6"@) is Some { Some(6) }
    else { None }
}

/// The list item for a heading of the given level and content.
pub open spec fn toc_entry(level: nat, content: Seq<char>) -> Seq<char> {
    indent((level - 1) as nat) + "<li><a href=\"#"@ + dashed(lower_of(content)) + "\">"@ + content
        + "</a></li>"@
}

/// The table-of-contents entry of the first heading of a line: the line,
/// without leading white space, starts with `<h`; the content runs from the
/// first `>` to the first `</h`.
pub open spec fn heading_entry(line: Seq<char>) -> Option<Seq<char>> {
    if !starts_with(trim_start_ws(line), "<h"@) {
        None
    } else {
        match (find(line, ">"@), find(line, "</h"@)) {
            (Some(a), Some(b)) => if a + 1 <= b {
                match level_in(line) {
                    Some(l) => Some(toc_entry(l, line.subrange((a + 1) as int, b as int))),
                    None => None,
                }
            } else {
                None
            },
            _ => None,
        }
    }
}

/// The entries of all headings of a line, one after another: after each
/// heading the scan goes on behind the `>` that closes its end tag.
pub open spec fn headings_in(line: Seq<char>) -> Seq<Seq<char>>
    decreases line.len(),
{
    match heading_entry(line) {
        None => Seq::empty(),
        Some(e) => match find_from(line, ">"@, find(line, "</h"@)->0) {
            Some(c) => if c + 1 <= line.len() {
                seq![e] + headings_in(line.subrange((c + 1) as int, line.len() as int))
            } else {
                seq![e]
            },
            None => seq![e],
        },
    }
}

/// A line without a carriage return that ended it.
pub open spec fn strip_cr(x: Seq<char>) -> Seq<char> {
    if x.len() > 0 && x.last() == '\r' { x.drop_last() } else { x }
}

/// The entries of the headings of the lines of `s` from index `p` on.
/// Lines end at `\n` or `\r\n`.
pub open spec fn toc_items_from(s: Seq<char>, p: nat) -> Seq<Seq<char>>
    decreases s.len() - p,
{
    if p >= s.len() {
        Seq::empty()
    } else {
        match find_from(s, seq!['\n'], p) {
            Some(k) => if p <= k < s.len() {
                headings_in(strip_cr(s.subrange(p as int, k as int))) + toc_items_from(s, k + 1)
            } else {
                headings_in(s.subrange(p as int, s.len() as int))
            },
            None => headings_in(s.subrange(p as int, s.len() as int)),
        }
    }
}

/// `items` joined by `\n`.
pub open spec fn join_lines(items: Seq<Seq<char>>) -> Seq<char>
    decreases items.len(),
{
    if items.len() == 0 {
        Seq::empty()
    } else if items.len() == 1 {
        items[0]
    } else {
        join_lines(items.drop_last()) + seq!['\n'] + items.last()
    }
}

/// The opening of the table of contents block.
pub open spec fn toc_open() -> Seq<char> {
    "<div class=\"toc\">\n                <h2>Table of Contents</h2>\n                <ul>\n                    "@
}

/// The closing of the table of contents block.
pub open spec fn toc_close() -> Seq<char> {
    "\n                </ul>\n            </div>"@
}

/// The table of contents of an HTML text: empty if it holds no heading.
pub open spec fn toc_html(html: Seq<char>) -> Seq<char> {
    let items = toc_items_from(html, 0);
    if items.len() == 0 { Seq::empty() } else { toc_open() + join_lines(items) + toc_close() }
}

/// The views of a sequence of strings.
pub open spec fn view_strings(v: Seq<String>) -> Seq<Seq<char>> {
    v.map_values(|s: String| s@)
}

/// The style sheet of every exported document.
pub const BASE_CSS: &'static str = "\n        @page {\n            margin: 1in;\n            size: A4;\n        }\n        \n        body {\n            font-family: -apple-system, BlinkMacSystemFont, \"Segoe UI\", Roboto, \"Helvetica Neue\", Arial, sans-serif;\n            font-size: 12pt;\n            line-height: 1.6;\n            color: #333;\n            max-width: none;\n            margin: 0;\n            padding: 0;\n        }\n        \n        .document {\n            max-width: none;\n            margin: 0;\n            padding: 20px;\n        }\n        \n        h1, h2, h3, h4, h5, h6 {\n            page-break-after: avoid;\n            margin-top: 1.5em;\n            margin-bottom: 0.5em;\n            font-weight: 600;\n        }\n        \n        h1 { font-size: 24pt; }\n        h2 { font-size: 20pt; }\n        h3 { font-size: 16pt; }\n        h4 { font-size: 14pt; }\n        h5 { font-size: 12pt; }\n        h6 { font-size: 11pt; }\n        \n        p {\n            margin: 0 0 1em 0;\n            orphans: 3;\n            widows: 3;\n        }\n        \n        pre, code {\n            font-family: \"SFMono-Regular\", Consolas, \"Liberation Mono\", Menlo, monospace;\n            font-size: 85%;\n        }\n        \n        pre {\n            background: #f6f8fa;\n            border-radius: 6px;\n            padding: 16px;\n            overflow-x: auto;\n            page-break-inside: avoid;\n        }\n        \n        code {\n            background: #f6f8fa;\n            padding: 2px 4px;\n            border-radius: 3px;\n        }\n        \n        blockquote {\n            border-left: 4px solid #dfe2e5;\n            padding: 0 16px;\n            margin: 0 0 16px 0;\n            color: #6a737d;\n        }\n        \n        table {\n            border-collapse: collapse;\n            width: 100%;\n            margin: 1em 0;\n            page-break-inside: avoid;\n        }\n        \n        th, td {\n            border: 1px solid #dfe2e5;\n            padding: 8px 12px;\n            text-align: left;\n        }\n        \n        th {\n            background: #f6f8fa;\n            font-weight: 600;\n        }\n        \n        img {\n            max-width: 100%;\n            height: auto;\n            page-break-inside: avoid;\n        }\n        \n        .toc {\n            page-break-after: always;\n            margin-bottom: 2em;\n        }\n        \n        .toc h2 {\n            margin-top: 0;\n        }\n        \n        .toc ul {\n            list-style: none;\n            padding-left: 0;\n        }\n        \n        .toc li {\n            margin: 0.5em 0;\n        }\n        \n        .toc a {\n            text-decoration: none;\n            color: #0366d6;\n        }\n        \n        .toc a:hover {\n            text-decoration: underline;\n        }\n        \n        @media print {\n            .no-print {\n                display: none;\n            }\n        }\n        ";

/// Separates the base style sheet from a custom theme.
pub const THEME_SEPARATOR: &'static str = "\n\n/* Custom Theme */\n";

/// Part 1 of 4 of the exported page; the style sheet, the table of
/// contents and the content go between them.
pub const PAGE_HEAD: &'static str = "<!DOCTYPE html>\n<html lang=\"en\">\n<head>\n    <meta charset=\"UTF-8\">\n    <meta name=\"viewport\" content=\"width=device-width, initial-scale=1.0\">\n    <title>Exported Document</title>\n    <style>\n        ";

/// Part 2 of 4 of the exported page; the style sheet, the table of
/// contents and the content go between them.
pub const PAGE_BEFORE_TOC: &'static str = "\n    </style>\n</head>\n<body>\n    <div class=\"document\">\n        ";

/// Part 3 of 4 of the exported page; the style sheet, the table of
/// contents and the content go between them.
pub const PAGE_BEFORE_CONTENT: &'static str = "\n        <div class=\"content\">\n            ";

/// Part 4 of 4 of the exported page; the style sheet, the table of
/// contents and the content go between them.
pub const PAGE_END: &'static str = "\n        </div>\n    </div>\n</body>\n</html>";

/// The style sheet of an export: the base sheet, then the custom theme if any.
pub open spec fn export_css(theme: Option<Seq<char>>) -> Seq<char> {
    match theme {
        Some(t) => BASE_CSS@ + THEME_SEPARATOR@ + t,
        None => BASE_CSS@,
    }
}

/// A complete exported page around `content`.
pub open spec fn complete_html(content: Seq<char>, css: Seq<char>, toc: Seq<char>) -> Seq<char> {
    PAGE_HEAD@ + css + PAGE_BEFORE_TOC@ + toc + PAGE_BEFORE_CONTENT@ + content + PAGE_END@
}

/// Writes exported documents; keeps the directory for intermediate files.
#[derive(Debug)]
pub struct ExportService {
    temp_dir: std::path::PathBuf,
}

impl ExportService {
    /// The directory for intermediate files.
    pub closed spec fn temp_dir_spec(&self) -> std::path::PathBuf {
        self.temp_dir
    }

    /// A service whose directory for intermediate files is still empty; the
    /// caller that owns the file system chooses it with [`Self::with_temp_dir`].
    pub fn new() -> (r: Self) {
        ExportService { temp_dir: std::path::PathBuf::new() }
    }

    /// The same service with another directory for intermediate files.
    pub fn with_temp_dir(self, temp_dir: std::path::PathBuf) -> (r: Self)
        ensures
            r.temp_dir_spec() == temp_dir,
    {
        ExportService { temp_dir }
    }

    /// The directory for intermediate files.
    pub fn temp_dir(&self) -> (r: &std::path::PathBuf)
        ensures
            *r == self.temp_dir_spec(),
    {
        &self.temp_dir
    }

    /// The style sheet of an export (see [`export_css`]).
    pub fn get_export_css(&self, css_theme: Option<&str>) -> (r: String)
        ensures
            r@ == export_css(match css_theme { Some(t) => Some(t@), None => None }),
    {
        let mut css = String::new();
        css.append(BASE_CSS);
        if let Some(theme) = css_theme {
            css.append(THEME_SEPARATOR);
            css.append(theme);
        }
        css
    }

    /// A complete page around `content`: the style sheet, then the table of
    /// contents if `include_toc`, then the content.
    pub fn create_complete_html(&self, content: &str, include_toc: bool, css_theme: Option<&str>) -> (r: String)
        ensures
            r@ == complete_html(
                content@,
                export_css(match css_theme { Some(t) => Some(t@), None => None }),
                if include_toc { toc_html(content@) } else { Seq::empty() },
            ),
    {
        let css = self.get_export_css(css_theme);
        let toc = if include_toc {
            match self.generate_toc_from_html(content) {
                Ok(t) => t,
                Err(_) => String::new(),
            }
        } else {
            String::new()
        };
        let mut html = String::new();
        html.append(PAGE_HEAD);
        html.append(css.as_str());
        html.append(PAGE_BEFORE_TOC);
        html.append(toc.as_str());
        html.append(PAGE_BEFORE_CONTENT);
        html.append(content);
        html.append(PAGE_END);
        html
    }

    /// The table-of-contents entry of the first heading of a line (see [`heading_entry`]).
    pub fn extract_heading_from_line(&self, line: &str) -> (r: Option<String>)
        ensures
            r matches Some(e) ==> heading_entry(line@) == Some(e@),
            r is None ==> heading_entry(line@) is None,
    {
        let v = chars_of(line);
        match heading_of(&v) {
            Some((e, _)) => Some(e),
            None => None,
        }
    }

    /// The table of contents of an HTML text (see [`toc_html`]); never fails.
    pub fn generate_toc_from_html(&self, html: &str) -> (r: Result<String, ExportError>)
        ensures
            r matches Ok(t) && t@ == toc_html(html@),
    {
        let s = chars_of(html);
        let nl = chars_of("\n");
        proof {
            reveal_strlit("\n");
        }
        let mut items: Vec<String> = Vec::new();
        let mut p: usize = 0;
        while p < s.len()
            invariant
                s@ == html@,
                nl@ == seq!['\n'],
                p <= s.len(),
                view_strings(items@) + toc_items_from(s@, p as nat) == toc_items_from(s@, 0),
            decreases s.len() - p,
        {
            let ghost before = items@;
            match find_from_exec(&s, &nl, p) {
                Some(k) => {
                    let mut line = copy_range(&s, p, k);
                    if line.len() > 0 && line[line.len() - 1] == '\r' {
                        line.pop();
                    }
                    headings_into(line, &mut items);
                    assert(view_strings(items@) =~= view_strings(before) + headings_in(
                        strip_cr(s@.subrange(p as int, k as int)),
                    ));
                    p = k + 1;
                },
                None => {
                    let line = copy_range(&s, p, s.len());
                    headings_into(line, &mut items);
                    assert(view_strings(items@) =~= view_strings(before) + headings_in(
                        s@.subrange(p as int, s.len() as int),
                    ));
                    p = s.len();
                },
            }
        }
        assert(view_strings(items@) =~= toc_items_from(s@, 0));
        if items.len() == 0 {
            return Ok(String::new());
        }
        let mut out = String::new();
        out.append("<div class=\"toc\">\n                <h2>Table of Contents</h2>\n                <ul>\n                    ");
        let mut i: usize = 0;
        while i < items.len()
            invariant
                i <= items.len(),
                items.len() > 0,
                out@ == toc_open() + join_lines(view_strings(items@).take(i as int)),
            decreases items.len() - i,
        {
            let ghost taken = view_strings(items@).take(i + 1);
            proof {
                reveal_strlit("\n");
            }
            assert(taken.drop_last() =~= view_strings(items@).take(i as int));
            assert(taken.last() == items@[i as int]@);
            if i > 0 {
                out.append("\n");
            }
            out.append(items[i].as_str());
            assert(out@ =~= toc_open() + join_lines(taken));
            i += 1;
        }
        assert(view_strings(items@).take(items.len() as int) =~= view_strings(items@));
        out.append("\n                </ul>\n            </div>");
        Ok(out)
    }
}

/// The characters of `s` from `lo` to `hi`.
fn copy_range(s: &Vec<char>, lo: usize, hi: usize) -> (r: Vec<char>)
    requires
        lo <= hi <= s.len(),
    ensures
        r@ == s@.subrange(lo as int, hi as int),
{
    let mut r: Vec<char> = Vec::new();
    let mut k: usize = lo;
    while k < hi
        invariant
            lo <= k <= hi <= s.len(),
            r@ == s@.subrange(lo as int, k as int),
        decreases hi - k,
    {
        r.push(s[k]);
        assert(r@ =~= s@.subrange(lo as int, k + 1));
        k += 1;
    }
    r
}

/// The level that `level_in` gives.
fn level_of(v: &Vec<char>) -> (r: Option<usize>)
    ensures
        r matches Some(l) ==> level_in(v@) == Some(l as nat),
        r is None ==> level_in(v@) is None,
{
    if find_from_exec(v, &chars_of("<h1"), 0).is_some() {
        Some(1)
    } else if find_from_exec(v, &chars_of("<h2"), 0).is_some() {
        Some(2)
    } else if find_from_exec(v, &chars_of("<h3"), 0).is_some() {
        Some(3)
    } else if find_from_exec(v, &chars_of("<h4"), 0).is_some() {
        Some(4)
    } else if find_from_exec(v, &chars_of("<h5"), 0).is_some() {
        Some(5)
    } else if find_from_exec(v, &chars_of("<h6"), 0).is_some() {
        Some(6)
    } else {
        None
    }
}

/// The entry of the first heading of a line, with the index of the first `</h`.
fn heading_of(v: &Vec<char>) -> (r: Option<(String, usize)>)
    ensures
        r matches Some((e, b)) ==> heading_entry(v@) == Some(e@) && find(v@, "</h"@) == Some(
            b as nat,
        ) && b <= v@.len(),
        r is None ==> heading_entry(v@) is None,
{
    let t = trim_start_ws_exec(v);
    let open = chars_of("<h");
    proof {
        reveal_strlit("<h");
    }
    if !occurs_at_exec(v, &open, t) {
        assert(!starts_with(trim_start_ws(v@), "<h"@)) by {
            if starts_with(trim_start_ws(v@), "<h"@) {
                assert(v@.subrange(t as int, t + 2) =~= trim_start_ws(v@).take(2));
            }
        }
        return None;
    }
    assert(v@.subrange(t as int, t + 2) =~= trim_start_ws(v@).take(2));
    let a = match find_from_exec(v, &chars_of(">"), 0) {
        Some(a) => a,
        None => return None,
    };
    let b = match find_from_exec(v, &chars_of("</h"), 0) {
        Some(b) => b,
        None => return None,
    };
    if a >= b {
        return None;
    }
    let level = match level_of(v) {
        Some(l) => l,
        None => return None,
    };
    let content = string_of(copy_range(v, a + 1, b).as_slice());
    let lowered = chars_of(lowercase(content.as_str()).as_str());
    let mut slug: Vec<char> = Vec::new();
    let mut i: usize = 0;
    while i < lowered.len()
        invariant
            i <= lowered.len(),
            slug@ == dashed(lowered@).take(i as int),
        decreases lowered.len() - i,
    {
        slug.push(if lowered[i] == ' ' { '-' } else { lowered[i] });
        assert(slug@ =~= dashed(lowered@).take(i + 1));
        i += 1;
    }
    assert(slug@ =~= dashed(lowered@));
    let mut out = String::new();
    let mut k: usize = 1;
    while k < level
        invariant
            1 <= k <= level <= 6,
            out@ == indent((k - 1) as nat),
        decreases level - k,
    {
        out.append("  ");
        proof {
            reveal_strlit("  ");
        }
        assert(out@ =~= indent(k as nat));
        k += 1;
    }
    out.append("<li><a href=\"#");
    out.append(string_of(slug.as_slice()).as_str());
    out.append("\">");
    out.append(content.as_str());
    out.append("</a></li>");
    assert(out@ =~= toc_entry(level as nat, v@.subrange(a + 1, b as int)));
    Some((out, b))
}

/// Appends the entries of all headings of a line (see [`headings_in`]).
fn headings_into(line: Vec<char>, items: &mut Vec<String>)
    ensures
        view_strings(final(items)@) == view_strings(old(items)@) + headings_in(line@),
{
    let mut cur = line;
    let close = chars_of(">");
    proof {
        reveal_strlit(">");
    }
    loop
        invariant
            close@ == ">"@,
            view_strings(items@) + headings_in(cur@) == view_strings(old(items)@) + headings_in(line@),
        decreases cur.len(),
    {
        let ghost before = items@;
        proof {
            reveal_strlit(">");
        }
        match heading_of(&cur) {
            None => {
                assert(view_strings(items@) =~= view_strings(items@) + headings_in(cur@));
                return;
            },
            Some((e, b)) => {
                items.push(e);
                assert(view_strings(items@) =~= view_strings(before).push(heading_entry(cur@)->0));
                match find_from_exec(&cur, &close, b) {
                    Some(c) => {
                        let next = copy_range(&cur, c + 1, cur.len());
                        assert(view_strings(items@) + headings_in(next@) =~= view_strings(before)
                            + headings_in(cur@));
                        cur = next;
                    },
                    None => {
                        assert(view_strings(items@) =~= view_strings(before) + headings_in(cur@));
                        return;
                    },
                }
            },
        }
    }
}

} // verus!
