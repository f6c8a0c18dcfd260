//! Markdown as a list of styled lines: each logical line of the document
//! (paragraph, heading, list item, code line, table row) with its spans.

use vstd::prelude::*;
use crate::style::{Color, Style};
use crate::num::{decimal, decimal_chars};
use crate::preview::{MdEvent, Tag, TagEnd};
use crate::preview_boxes::{cells_view, col_w_upto, col_widths, max_cols_upto};
use crate::md_events::{markdown_events, parse_markdown};
use crate::syntax::{
    highlight_lang_block, highlight_plain_block, has_theme, lang_block_pieces, pieces_view,
    plain_block_pieces, theme_known, StyledPiece, Syntaxes,
};
use crate::text::{chars_of, lines_of, push_char, split_by, split_chars, string_of, text_lines, views};

verus! {

/// An inline format in effect.
#[derive(Clone, Copy, PartialEq, Eq, Structural, Debug)]
pub enum In {
    Bold,
    Italic,
    Strike,
    Code,
    Link,
    Image,
}

/// A piece of text with its style.
pub struct Span {
    pub text: String,
    pub style: Style,
}

/// A line: its spans and the style of the whole line.
pub struct Line {
    pub spans: Vec<Span>,
    pub style: Style,
}

/// A line as plain values.
pub type LineV = (Seq<(Seq<char>, Style)>, Style);

pub open spec fn span_view(s: Span) -> (Seq<char>, Style) {
    (s.text@, s.style)
}

pub open spec fn line_view(l: Line) -> LineV {
    (l.spans@.map_values(|s: Span| span_view(s)), l.style)
}

pub open spec fn lines_view(ls: Seq<Line>) -> Seq<LineV> {
    ls.map_values(|l: Line| line_view(l))
}

/// `n` copies of `s`.
pub open spec fn repeat(s: Seq<char>, n: int) -> Seq<char>
    decreases n,
{
    if n <= 0 {
        Seq::empty()
    } else {
        repeat(s, n - 1) + s
    }
}

pub open spec fn fg_style(c: Color) -> Style {
    Style { fg: Some(c), ..Style::none() }
}

pub open spec fn bold_style(c: Color) -> Style {
    Style { fg: Some(c), bold: true, ..Style::none() }
}

/// The spans of a text put on one line with the default style: one per
/// line of the text (as `str::lines` gives them).
pub open spec fn raw_spans(t: Seq<char>) -> Seq<(Seq<char>, Style)> {
    text_lines(t).map_values(|l: Seq<char>| (l, Style::none()))
}

/// A line of text whose whole line has style `st`.
pub open spec fn styled_line(t: Seq<char>, st: Style) -> LineV {
    (raw_spans(t), st)
}

/// The collecting state.
pub struct LineCtx {
    pub out: Vec<Line>,
    pub styles: Vec<In>,
    pub list_stack: Vec<(bool, u64)>,
    pub item_pending: bool,
    pub in_code_block: bool,
    pub code_lang: String,
    pub code_buf: String,
    pub table_rows: Vec<Vec<String>>,
    pub in_table: bool,
    pub quote_depth: usize,
    pub task_marker: Option<bool>,
}

/// The collecting state as plain values.
#[verifier::ext_equal]
pub struct LinesV {
    pub out: Seq<LineV>,
    pub styles: Seq<In>,
    pub lists: Seq<(bool, u64)>,
    pub item_pending: bool,
    pub in_code: bool,
    pub lang: Seq<char>,
    pub code: Seq<char>,
    pub table: Seq<Seq<Seq<char>>>,
    pub in_table: bool,
    pub qd: int,
    pub task: Option<bool>,
}

impl LineCtx {
    pub open spec fn view(&self) -> LinesV {
        LinesV {
            out: lines_view(self.out@),
            styles: self.styles@,
            lists: self.list_stack@,
            item_pending: self.item_pending,
            in_code: self.in_code_block,
            lang: self.code_lang@,
            code: self.code_buf@,
            table: cells_view(self.table_rows@),
            in_table: self.in_table,
            qd: self.quote_depth as int,
            task: self.task_marker,
        }
    }
}

pub open spec fn lines_init() -> LinesV {
    LinesV {
        out: Seq::empty(),
        styles: Seq::empty(),
        lists: Seq::empty(),
        item_pending: false,
        in_code: false,
        lang: Seq::empty(),
        code: Seq::empty(),
        table: Seq::empty(),
        in_table: false,
        qd: 0,
        task: None,
    }
}

/// The formats in effect over the first `k`: the style so far and whether
/// code is among them.
pub open spec fn fold_styles(styles: Seq<In>, k: int) -> (Style, bool)
    decreases k,
{
    if k <= 0 {
        (Style::none(), false)
    } else {
        let (s, code) = fold_styles(styles, k - 1);
        match styles[k - 1] {
            In::Bold => (Style { bold: true, ..s }, code),
            In::Italic => (Style { italic: true, ..s }, code),
            In::Strike => (Style { crossed_out: true, ..s }, code),
            In::Code => (s, true),
            In::Link => (Style { fg: Some(Color::Cyan), underlined: true, ..s }, code),
            In::Image => (Style { fg: Some(Color::Magenta), ..s }, code),
        }
    }
}

/// The style of text: the formats in effect, code light green on black,
/// quoted text dark gray.
pub open spec fn text_style_of(styles: Seq<In>, qd: int) -> Style {
    let (s, code) = fold_styles(styles, styles.len() as int);
    let s1 = if code { Style { fg: Some(Color::LightGreen), bg: Some(Color::Black), ..s } } else { s };
    if qd > 0 { Style { fg: Some(Color::DarkGray), ..s1 } } else { s1 }
}

/// A new line, starting with the quote bars when quoted.
pub open spec fn quote_line(qd: int) -> LineV {
    if qd > 0 {
        (seq![(repeat("│ "@, qd), fg_style(Color::Blue))], Style::none())
    } else {
        (Seq::empty(), Style::none())
    }
}

pub open spec fn new_line(c: LinesV) -> LinesV {
    LinesV { out: c.out.push(quote_line(c.qd)), ..c }
}

pub open spec fn blank(c: LinesV) -> LinesV {
    LinesV { out: c.out.push((Seq::empty(), Style::none())), ..c }
}

/// A span added to the last line, if there is one.
pub open spec fn push_span(out: Seq<LineV>, sp: (Seq<char>, Style)) -> Seq<LineV> {
    if out.len() > 0 {
        out.update(out.len() - 1, (out.last().0.push(sp), out.last().1))
    } else {
        out
    }
}

/// The prefix of a list item and the lists after it: indented two columns
/// per level below the first, the number (which then counts on) or a bullet.
pub open spec fn item_prefix(lists: Seq<(bool, u64)>) -> (Seq<char>, Seq<(bool, u64)>) {
    let depth = lists.len() as int;
    let indent = repeat("  "@, depth - 1);
    if depth == 0 {
        (Seq::empty(), lists)
    } else if lists.last().0 {
        let n = lists.last().1;
        (
            indent + decimal(n as nat) + ". "@,
            lists.update(depth - 1, (true, if n < u64::MAX { (n + 1) as u64 } else { n })),
        )
    } else {
        (indent + "• "@, lists)
    }
}

/// The task mark of an item.
pub open spec fn task_span(checked: bool) -> (Seq<char>, Style) {
    if checked { ("☑ "@, fg_style(Color::Green)) } else { ("☐ "@, fg_style(Color::Gray)) }
}

/// The first `k` pieces of a text cut at newlines: each piece after the
/// first starts a new line; non-empty pieces go on the last line.
pub open spec fn parts_upto(c: LinesV, parts: Seq<Seq<char>>, k: int, st: Style) -> LinesV
    decreases k,
{
    if k <= 0 {
        c
    } else {
        let c1 = parts_upto(c, parts, k - 1, st);
        let c2 = if k - 1 > 0 { new_line(c1) } else { c1 };
        let p = parts[k - 1];
        if p.len() > 0 { LinesV { out: push_span(c2.out, (p, st)), ..c2 } } else { c2 }
    }
}

/// Text arrives outside code blocks and tables: a pending list item first
/// gets its task mark and prefix, then the text goes on, a new line at each
/// newline.
pub open spec fn emit_spec(c: LinesV, t: Seq<char>) -> LinesV {
    let st = text_style_of(c.styles, c.qd);
    let c1 = if c.item_pending {
        let (prefix, lists) = item_prefix(c.lists);
        if c.out.len() > 0 {
            let o1 = match c.task {
                Some(ch) => push_span(c.out, task_span(ch)),
                None => c.out,
            };
            LinesV { out: push_span(o1, (prefix, fg_style(Color::Gray))), lists, task: None, item_pending: false, ..c }
        } else {
            LinesV { lists, item_pending: false, ..c }
        }
    } else {
        c
    };
    let parts = split_by(t, '\n');
    parts_upto(c1, parts, parts.len() as int, st)
}

/// The style of a heading's marker.
pub open spec fn heading_style(level: int) -> Style {
    if level == 1 {
        Style { fg: Some(Color::LightBlue), bold: true, underlined: true, ..Style::none() }
    } else if level == 2 {
        bold_style(Color::Cyan)
    } else if level == 3 {
        bold_style(Color::Yellow)
    } else if level == 4 {
        bold_style(Color::Green)
    } else if level == 5 {
        bold_style(Color::Magenta)
    } else {
        Style { bold: true, ..Style::none() }
    }
}

pub open spec fn with_in(c: LinesV, f: In) -> LinesV {
    LinesV { styles: c.styles.push(f), ..c }
}

/// An element starts.
pub open spec fn lstart_spec(c: LinesV, tag: Tag) -> LinesV {
    match tag {
        Tag::Paragraph => new_line(c),
        Tag::Heading(l) => {
            let c1 = new_line(c);
            LinesV { out: c1.out.push((seq![(repeat("#"@, l as int) + " "@, heading_style(l as int))], Style::none())), ..c1 }
        },
        Tag::CodeBlock(lang) => LinesV { in_code: true, code: Seq::empty(), lang: lang@, ..c },
        Tag::List(start) => LinesV {
            lists: c.lists.push((start is Some, match start {
                Some(n) => n,
                None => 1,
            })),
            ..c
        },
        Tag::Item => new_line(LinesV { item_pending: true, ..c }),
        Tag::Emphasis => with_in(c, In::Italic),
        Tag::Strong => with_in(c, In::Bold),
        Tag::Strikethrough => with_in(c, In::Strike),
        Tag::Link => with_in(c, In::Link),
        Tag::Image => {
            let c1 = with_in(c, In::Image);
            LinesV { out: push_span(c1.out, ("🖼 "@, fg_style(Color::Magenta))), ..c1 }
        },
        Tag::BlockQuote => LinesV { qd: if c.qd < usize::MAX { c.qd + 1 } else { c.qd }, ..c },
        Tag::FootnoteDefinition(label) => {
            let c1 = new_line(c);
            LinesV { out: push_span(c1.out, ("[^"@ + label@ + "]: "@, bold_style(Color::Yellow))), ..c1 }
        },
        Tag::Table => LinesV { in_table: true, table: Seq::empty(), ..c },
        Tag::TableHead | Tag::TableRow => LinesV { table: c.table.push(Seq::empty()), ..c },
        Tag::TableCell => if c.table.len() > 0 {
            LinesV { table: c.table.update(c.table.len() - 1, c.table.last().push(Seq::empty())), ..c }
        } else {
            c
        },
        Tag::Other => c,
    }
}

/// The style of a highlighted piece: its colors where they are not fully
/// transparent, and its font style.
pub open spec fn piece_style(p: ((u8, u8, u8, u8), (u8, u8, u8, u8), u8, Seq<char>)) -> Style {
    let (f, b, bits, _) = p;
    Style {
        fg: if f.3 != 0 { Some(Color::Rgb(f.0, f.1, f.2)) } else { None },
        bg: if b.3 != 0 { Some(Color::Rgb(b.0, b.1, b.2)) } else { None },
        bold: bits & 1 != 0,
        italic: bits & 4 != 0,
        underlined: bits & 2 != 0,
        crossed_out: false,
        dim: false,
    }
}

/// A highlighted code line: a space on black, then its pieces.
pub open spec fn code_line_of(ps: Seq<((u8, u8, u8, u8), (u8, u8, u8, u8), u8, Seq<char>)>) -> LineV {
    (
        seq![(" "@, Style { bg: Some(Color::Black), ..Style::none() })] + ps.map_values(
            |p: ((u8, u8, u8, u8), (u8, u8, u8, u8), u8, Seq<char>)| (p.3, piece_style(p)),
        ),
        Style::none(),
    )
}

/// The lines of a code block: highlighted under the theme when there is
/// one of that name, else gray on black after a space.
pub open spec fn code_lines_of(lang: Seq<char>, theme: Seq<char>, code: Seq<char>) -> Seq<LineV> {
    let ls = text_lines(code);
    if theme_known(theme) {
        let ps = if lang.len() == 0 { plain_block_pieces(theme, ls) } else { lang_block_pieces(lang, theme, ls) };
        ps.map_values(|p: Seq<((u8, u8, u8, u8), (u8, u8, u8, u8), u8, Seq<char>)>| code_line_of(p))
    } else {
        ls.map_values(|l: Seq<char>| styled_line(" "@ + l, Style { fg: Some(Color::Gray), bg: Some(Color::Black), ..Style::none() }))
    }
}

/// The text of a table border: `l`, `─` over each column and its padding
/// joined by `m`, then `r`; the first `k` columns.
pub open spec fn border_upto(ws: Seq<int>, k: int, m: char) -> Seq<char>
    decreases k,
{
    if k <= 0 {
        Seq::empty()
    } else {
        border_upto(ws, k - 1, m) + repeat("─"@, ws[k - 1] + 2) + (if k < ws.len() { seq![m] } else { Seq::empty() })
    }
}

pub open spec fn border_text(ws: Seq<int>, l: char, m: char, r: char) -> Seq<char> {
    seq![l] + border_upto(ws, ws.len() as int, m) + seq![r]
}

/// The spans of a table row over its first `k` columns.
pub open spec fn row_spans_upto(row: Seq<Seq<char>>, ws: Seq<int>, k: int, head: bool) -> Seq<(Seq<char>, Style)>
    decreases k,
{
    if k <= 0 {
        seq![("│"@, fg_style(Color::DarkGray))]
    } else {
        let cell = if k - 1 < row.len() { row[k - 1] } else { Seq::empty() };
        let pad = if ws[k - 1] > cell.len() { ws[k - 1] - cell.len() } else { 0 };
        row_spans_upto(row, ws, k - 1, head) + seq![
            (" "@, Style::none()),
            (cell, if head { Style { bold: true, ..Style::none() } } else { Style::none() }),
            (repeat(" "@, pad), Style::none()),
            (" "@, Style::none()),
            ("│"@, fg_style(Color::DarkGray)),
        ]
    }
}

/// The rows of a table, the first `k`; a separator follows the header.
pub open spec fn table_lines_upto(rows: Seq<Seq<Seq<char>>>, ws: Seq<int>, k: int) -> Seq<LineV>
    decreases k,
{
    if k <= 0 {
        Seq::empty()
    } else {
        let prev = table_lines_upto(rows, ws, k - 1);
        let line = (row_spans_upto(rows[k - 1], ws, ws.len() as int, k == 1), Style::none());
        if k == 1 {
            prev.push(line).push(styled_line(border_text(ws, '├', '┼', '┤'), fg_style(Color::DarkGray)))
        } else {
            prev.push(line)
        }
    }
}

/// The lines of a table: top border, rows, bottom border; none for a table
/// without cells.
pub open spec fn table_lines(rows: Seq<Seq<Seq<char>>>) -> Seq<LineV> {
    let cols = max_cols_upto(rows, rows.len() as int);
    if rows.len() == 0 || cols == 0 {
        Seq::empty()
    } else {
        let ws = col_widths(rows, cols);
        let border = fg_style(Color::DarkGray);
        seq![styled_line(border_text(ws, '┌', '┬', '┐'), border)] + table_lines_upto(rows, ws, rows.len() as int)
            + seq![styled_line(border_text(ws, '└', '┴', '┘'), border)]
    }
}

/// An element ends.
pub open spec fn lend_spec(c: LinesV, tag: TagEnd, theme: Seq<char>) -> LinesV {
    match tag {
        TagEnd::Paragraph | TagEnd::Heading(_) => blank(c),
        TagEnd::CodeBlock => blank(LinesV { out: c.out + code_lines_of(c.lang, theme, c.code), code: Seq::empty(), in_code: false, ..c }),
        TagEnd::List => {
            let c1 = LinesV { lists: if c.lists.len() > 0 { c.lists.drop_last() } else { c.lists }, ..c };
            if c1.lists.len() == 0 { blank(c1) } else { c1 }
        },
        TagEnd::Item => LinesV { item_pending: false, ..c },
        TagEnd::Emphasis | TagEnd::Strong | TagEnd::Strikethrough | TagEnd::Link | TagEnd::Image => LinesV {
            styles: if c.styles.len() > 0 { c.styles.drop_last() } else { c.styles },
            ..c
        },
        TagEnd::BlockQuote => {
            let qd = if c.qd > 0 { c.qd - 1 } else { 0 };
            if qd == 0 { blank(LinesV { qd, ..c }) } else { LinesV { qd, ..c } }
        },
        TagEnd::FootnoteDefinition => blank(c),
        TagEnd::Table => blank(LinesV { out: c.out + table_lines(c.table), table: Seq::empty(), in_table: false, ..c }),
        TagEnd::TableHead | TagEnd::TableRow | TagEnd::TableCell | TagEnd::Other => c,
    }
}

/// Text inside a table: into the last cell of the last row, or as a new
/// cell when the row has none.
pub open spec fn table_text(c: LinesV, t: Seq<char>) -> LinesV {
    if c.table.len() > 0 {
        let row = c.table.last();
        let row2 = if row.len() > 0 { row.update(row.len() - 1, row.last() + t) } else { row.push(t) };
        LinesV { table: c.table.update(c.table.len() - 1, row2), ..c }
    } else {
        c
    }
}

/// One event.
pub open spec fn levent_spec(c: LinesV, ev: MdEvent, theme: Seq<char>) -> LinesV {
    match ev {
        MdEvent::Start(tag) => lstart_spec(c, tag),
        MdEvent::End(tag) => lend_spec(c, tag, theme),
        MdEvent::Text(t) => if c.in_code {
            LinesV { code: c.code + t@, ..c }
        } else if c.in_table {
            table_text(c, t@)
        } else {
            emit_spec(c, t@)
        },
        MdEvent::Code(t) => {
            let c2 = emit_spec(with_in(c, In::Code), t@);
            LinesV { styles: c.styles, ..c2 }
        },
        MdEvent::SoftBreak | MdEvent::HardBreak => if !c.in_code { new_line(c) } else { c },
        MdEvent::Rule => blank(LinesV { out: c.out.push(styled_line(repeat("─"@, 40), fg_style(Color::DarkGray))), ..c }),
        MdEvent::TaskListMarker(b) => LinesV { task: Some(b), ..c },
        MdEvent::FootnoteReference(t) => LinesV { out: push_span(c.out, ("[¹"@ + t@ + "]"@, bold_style(Color::Yellow))), ..c },
        MdEvent::Html(_) | MdEvent::InlineHtml(_) | MdEvent::Other => c,
    }
}

/// The state after the first `k` events.
pub open spec fn lrun(evs: Seq<MdEvent>, k: int, theme: Seq<char>) -> LinesV
    decreases k,
{
    if k <= 0 {
        lines_init()
    } else {
        levent_spec(lrun(evs, k - 1, theme), evs[k - 1], theme)
    }
}

/// The styled lines of a document given by its parser events; a single
/// blank line when there are none.
pub open spec fn lines_of_events(evs: Seq<MdEvent>, theme: Seq<char>) -> Seq<LineV> {
    let out = lrun(evs, evs.len() as int, theme).out;
    if out.len() == 0 { seq![(seq![(" "@, Style::none())], Style::none())] } else { out }
}


/// `n` copies of `s`.
pub(crate) fn repeat_str(s: &str, n: usize) -> (r: String)
    ensures
        r@ == repeat(s@, n as int),
{
    let cs = chars_of(s);
    let mut r = String::new();
    let mut i: usize = 0;
    while i < n
        invariant
            i <= n,
            cs@ == s@,
            r@ == repeat(s@, i as int),
        decreases n - i,
    {
        let ghost r0 = r@;
        let mut j: usize = 0;
        while j < cs.len()
            invariant
                j <= cs@.len(),
                cs@ == s@,
                r@ == r0 + s@.take(j as int),
            decreases cs.len() - j,
        {
            push_char(&mut r, cs[j]);
            proof {
                assert(s@.take(j as int + 1) =~= s@.take(j as int).push(cs@[j as int]));
            }
            j += 1;
        }
        proof {
            assert(s@.take(s@.len() as int) =~= s@);
        }
        i += 1;
    }
    r
}

/// Join two strings.
pub(crate) fn concat(a: &str, b: &str) -> (r: String)
    ensures
        r@ == a@ + b@,
{
    let mut r = String::from_str(a);
    let cs = chars_of(b);
    let mut j: usize = 0;
    while j < cs.len()
        invariant
            j <= cs@.len(),
            cs@ == b@,
            r@ == a@ + b@.take(j as int),
        decreases cs.len() - j,
    {
        push_char(&mut r, cs[j]);
        proof {
            assert(b@.take(j as int + 1) =~= b@.take(j as int).push(cs@[j as int]));
        }
        j += 1;
    }
    proof {
        assert(b@.take(b@.len() as int) =~= b@);
    }
    r
}

/// A line of text with the whole line styled `st` (see `styled_line`).
fn styled(t: &str, st: Style) -> (l: Line)
    ensures
        line_view(l) == styled_line(t@, st),
{
    let ls = lines_of(t);
    let ghost lv = ls@.map_values(|l: Vec<char>| l@);
    let mut spans: Vec<Span> = Vec::new();
    let mut i: usize = 0;
    while i < ls.len()
        invariant
            i <= ls@.len(),
            lv == ls@.map_values(|l: Vec<char>| l@),
            lv == text_lines(t@),
            spans@.map_values(|s: Span| span_view(s)) == raw_spans(t@).take(i as int),
        decreases ls.len() - i,
    {
        let text = string_of(ls[i].as_slice(), 0, ls[i].len());
        proof {
            assert(ls@[i as int]@.subrange(0, ls@[i as int]@.len() as int) =~= lv[i as int]);
        }
        let ghost prev = spans@;
        spans.push(Span { text, style: Style::plain() });
        proof {
            assert(raw_spans(t@).take(i as int + 1) =~= raw_spans(t@).take(i as int).push(raw_spans(t@)[i as int]));
            assert(spans@.map_values(|s: Span| span_view(s)) =~= prev.map_values(|s: Span| span_view(s)).push((text@, Style::none())));
        }
        i += 1;
    }
    proof {
        assert(raw_spans(t@).take(raw_spans(t@).len() as int) =~= raw_spans(t@));
    }
    Line { spans, style: st }
}

impl LineCtx {
    /// The empty state.
    pub fn new() -> (c: LineCtx)
        ensures
            c@ == lines_init(),
    {
        let c = LineCtx {
            out: Vec::new(),
            styles: Vec::new(),
            list_stack: Vec::new(),
            item_pending: false,
            in_code_block: false,
            code_lang: String::new(),
            code_buf: String::new(),
            table_rows: Vec::new(),
            in_table: false,
            quote_depth: 0,
            task_marker: None,
        };
        assert(c@.out =~= Seq::<LineV>::empty());
        assert(c@.table =~= Seq::<Seq<Seq<char>>>::empty());
        assert(c@ =~= lines_init());
        c
    }

    fn push_line(&mut self, l: Line)
        ensures
            final(self)@ == (LinesV { out: old(self)@.out.push(line_view(l)), ..old(self)@ }),
    {
        let ghost c = self@;
        self.out.push(l);
        assert(self@.out =~= c.out.push(line_view(l)));
        assert(self@ =~= LinesV { out: c.out.push(line_view(l)), ..c });
    }

    /// Add a span to the last line, if there is one.
    fn push_span(&mut self, text: String, st: Style)
        ensures
            final(self)@ == (LinesV { out: push_span(old(self)@.out, (text@, st)), ..old(self)@ }),
    {
        let ghost c = self@;
        if self.out.len() > 0 {
            let mut last = self.out.pop().unwrap();
            let ghost l0 = last;
            last.spans.push(Span { text, style: st });
            proof {
                assert(line_view(last).0 =~= line_view(l0).0.push((text@, st)));
            }
            self.out.push(last);
            assert(self@.out =~= push_span(c.out, (text@, st)));
        }
        assert(self@ =~= LinesV { out: push_span(c.out, (text@, st)), ..c });
    }

    /// Start a new line (see `new_line`).
    fn new_line(&mut self)
        ensures
            final(self)@ == new_line(old(self)@),
    {
        let ghost c = self@;
        let mut spans: Vec<Span> = Vec::new();
        if self.quote_depth > 0 {
            let q = repeat_str("│ ", self.quote_depth);
            spans.push(Span { text: q, style: Style::plain().with_fg(Color::Blue) });
        }
        let l = Line { spans, style: Style::plain() };
        assert(line_view(l) =~= quote_line(c.qd));
        self.push_line(l);
    }

    /// Add an empty line.
    fn blank(&mut self)
        ensures
            final(self)@ == blank(old(self)@),
    {
        let l = Line { spans: Vec::new(), style: Style::plain() };
        assert(line_view(l).0 =~= Seq::<(Seq<char>, Style)>::empty());
        self.push_line(l);
    }

    /// The style of text (see `text_style_of`).
    fn current_style(&self) -> (st: Style)
        ensures
            st == text_style_of(self@.styles, self@.qd),
    {
        let mut s = Style::plain();
        let mut code = false;
        let mut i: usize = 0;
        while i < self.styles.len()
            invariant
                i <= self.styles@.len(),
                (s, code) == fold_styles(self.styles@, i as int),
            decreases self.styles.len() - i,
        {
            match self.styles[i] {
                In::Bold => s.bold = true,
                In::Italic => s.italic = true,
                In::Strike => s.crossed_out = true,
                In::Code => code = true,
                In::Link => {
                    s.fg = Some(Color::Cyan);
                    s.underlined = true;
                },
                In::Image => s.fg = Some(Color::Magenta),
            }
            i += 1;
        }
        if code {
            s.fg = Some(Color::LightGreen);
            s.bg = Some(Color::Black);
        }
        if self.quote_depth > 0 {
            s.fg = Some(Color::DarkGray);
        }
        s
    }

    /// The prefix of a list item (see `item_prefix`).
    fn item_prefix(&mut self) -> (r: String)
        ensures
            (r@, final(self)@.lists) == item_prefix(old(self)@.lists),
            final(self)@ == (LinesV { lists: final(self)@.lists, ..old(self)@ }),
    {
        let ghost c = self@;
        let depth = self.list_stack.len();
        if depth == 0 {
            return String::new();
        }
        let indent = repeat_str("  ", depth - 1);
        let (ordered, n) = self.list_stack[depth - 1];
        if ordered {
            let _ = self.list_stack.pop();
            let next: u64 = if n < u64::MAX { n + 1 } else { n };
            self.list_stack.push((true, next));
            let ds = decimal_chars(n);
            let num = string_of(ds.as_slice(), 0, ds.len());
            proof {
                assert(ds@.subrange(0, ds@.len() as int) =~= ds@);
            }
            let a = concat(indent.as_str(), num.as_str());
            let r = concat(a.as_str(), ". ");
            assert(self@.lists =~= c.lists.update(depth - 1, (true, next)));
            assert(self@ =~= LinesV { lists: self@.lists, ..c });
            r
        } else {
            concat(indent.as_str(), "• ")
        }
    }
}


fn heading_style_of(level: u8) -> (st: Style)
    ensures
        st == heading_style(level as int),
{
    let mut st = Style::plain();
    st.bold = true;
    if level == 1 {
        st.fg = Some(Color::LightBlue);
        st.underlined = true;
    } else if level == 2 {
        st.fg = Some(Color::Cyan);
    } else if level == 3 {
        st.fg = Some(Color::Yellow);
    } else if level == 4 {
        st.fg = Some(Color::Green);
    } else if level == 5 {
        st.fg = Some(Color::Magenta);
    }
    st
}

fn bold_fg(c: Color) -> (st: Style)
    ensures
        st == bold_style(c),
{
    let mut st = Style::plain().with_fg(c);
    st.bold = true;
    st
}

impl LineCtx {
    /// Text arrives outside code blocks and tables (see `emit_spec`).
    fn emit_text(&mut self, t: &str)
        ensures
            final(self)@ == emit_spec(old(self)@, t@),
    {
        let ghost c = self@;
        let st = self.current_style();
        if self.item_pending {
            let prefix = self.item_prefix();
            if self.out.len() > 0 {
                match self.task_marker {
                    Some(ch) => {
                        let mark = if ch { String::from_str("☑ ") } else { String::from_str("☐ ") };
                        let mst = if ch { Style::plain().with_fg(Color::Green) } else { Style::plain().with_fg(Color::Gray) };
                        self.push_span(mark, mst);
                    },
                    None => {},
                }
                self.task_marker = None;
                self.push_span(prefix, Style::plain().with_fg(Color::Gray));
            }
            self.item_pending = false;
        }
        let ghost c1 = self@;
        let ghost want1 = if c.item_pending {
            let (prefix, lists) = item_prefix(c.lists);
            if c.out.len() > 0 {
                let o1 = match c.task {
                    Some(ch) => push_span(c.out, task_span(ch)),
                    None => c.out,
                };
                LinesV { out: push_span(o1, (prefix, fg_style(Color::Gray))), lists, task: None, item_pending: false, ..c }
            } else {
                LinesV { lists, item_pending: false, ..c }
            }
        } else {
            c
        };
        assert(c1 =~= want1);
        let parts = split_chars(chars_of(t).as_slice(), '\n');
        let ghost pv = parts@.map_values(|l: Vec<char>| l@);
        let mut k: usize = 0;
        while k < parts.len()
            invariant
                k <= parts@.len(),
                pv == parts@.map_values(|l: Vec<char>| l@),
                pv == split_by(t@, '\n'),
                self@ == parts_upto(c1, pv, k as int, st),
            decreases parts.len() - k,
        {
            if k > 0 {
                self.new_line();
            }
            if parts[k].len() > 0 {
                let text = string_of(parts[k].as_slice(), 0, parts[k].len());
                proof {
                    assert(parts@[k as int]@.subrange(0, parts@[k as int]@.len() as int) =~= pv[k as int]);
                }
                self.push_span(text, st);
            }
            k += 1;
        }
    }

    /// An element starts (see `lstart_spec`).
    fn start(&mut self, tag: &Tag)
        ensures
            final(self)@ == lstart_spec(old(self)@, *tag),
    {
        let ghost c = self@;
        match tag {
            Tag::Paragraph => self.new_line(),
            Tag::Heading(l) => {
                self.new_line();
                let hashes = repeat_str("#", *l as usize);
                let prefix = concat(hashes.as_str(), " ");
                let mut spans: Vec<Span> = Vec::new();
                spans.push(Span { text: prefix, style: heading_style_of(*l) });
                let line = Line { spans, style: Style::plain() };
                assert(line_view(line).0 =~= seq![(repeat("#"@, *l as int) + " "@, heading_style(*l as int))]);
                self.push_line(line);
            },
            Tag::CodeBlock(lang) => {
                self.in_code_block = true;
                self.code_buf = String::new();
                self.code_lang = lang.clone();
                assert(self@ =~= lstart_spec(c, *tag));
            },
            Tag::List(start) => {
                let n: u64 = match start {
                    Some(n) => *n,
                    None => 1,
                };
                self.list_stack.push((start.is_some(), n));
                assert(self@ =~= lstart_spec(c, *tag));
            },
            Tag::Item => {
                self.item_pending = true;
                self.new_line();
            },
            Tag::Emphasis => {
                self.styles.push(In::Italic);
                assert(self@ =~= lstart_spec(c, *tag));
            },
            Tag::Strong => {
                self.styles.push(In::Bold);
                assert(self@ =~= lstart_spec(c, *tag));
            },
            Tag::Strikethrough => {
                self.styles.push(In::Strike);
                assert(self@ =~= lstart_spec(c, *tag));
            },
            Tag::Link => {
                self.styles.push(In::Link);
                assert(self@ =~= lstart_spec(c, *tag));
            },
            Tag::Image => {
                self.styles.push(In::Image);
                assert(self@ =~= with_in(c, In::Image));
                self.push_span(String::from_str("🖼 "), Style::plain().with_fg(Color::Magenta));
            },
            Tag::BlockQuote => {
                if self.quote_depth < usize::MAX {
                    self.quote_depth = self.quote_depth + 1;
                }
                assert(self@ =~= lstart_spec(c, *tag));
            },
            Tag::FootnoteDefinition(label) => {
                self.new_line();
                let a = concat("[^", label.as_str());
                let text = concat(a.as_str(), "]: ");
                self.push_span(text, bold_fg(Color::Yellow));
            },
            Tag::Table => {
                self.in_table = true;
                self.table_rows = Vec::new();
                assert(self@ =~= lstart_spec(c, *tag));
            },
            Tag::TableHead | Tag::TableRow => {
                self.table_rows.push(Vec::new());
                proof {
                    assert(views(Seq::<String>::empty()) =~= Seq::<Seq<char>>::empty());
                    assert(self@.table =~= c.table.push(Seq::empty()));
                }
                assert(self@ =~= lstart_spec(c, *tag));
            },
            Tag::TableCell => {
                if self.table_rows.len() > 0 {
                    let mut r = self.table_rows.pop().unwrap();
                    let ghost r0 = r@;
                    r.push(String::new());
                    self.table_rows.push(r);
                    proof {
                        assert(views(r@) =~= views(r0).push(Seq::empty()));
                        assert(self@.table =~= c.table.update(c.table.len() - 1, c.table.last().push(Seq::empty())));
                    }
                }
                assert(self@ =~= lstart_spec(c, *tag));
            },
            Tag::Other => {},
        }
    }
}


/// `n + 2` copies of `s` are `n` copies and two more.
proof fn lemma_repeat_two(s: Seq<char>, n: int)
    requires
        n >= 0,
    ensures
        repeat(s, n + 2) == repeat(s, n) + s + s,
{
    assert(repeat(s, n + 1) == repeat(s, n) + s);
    assert(repeat(s, n + 2) == repeat(s, n + 1) + s);
}

/// The text of a table border (see `border_text`).
fn border_string(ws: &Vec<usize>, l: char, m: char, r: char) -> (b: String)
    ensures
        b@ == border_text(ws@.map_values(|w: usize| w as int), l, m, r),
{
    let ghost wv = ws@.map_values(|w: usize| w as int);
    let mut b = String::new();
    push_char(&mut b, l);
    let mut i: usize = 0;
    proof {
        reveal_strlit("──");
        reveal_strlit("─");
    }
    while i < ws.len()
        invariant
            i <= ws@.len(),
            wv == ws@.map_values(|w: usize| w as int),
            b@ == seq![l] + border_upto(wv, i as int, m),
            "──"@ == "─"@ + "─"@,
        decreases ws.len() - i,
    {
        let run = repeat_str("─", ws[i]);
        let run2 = concat(run.as_str(), "──");
        proof {
            lemma_repeat_two("─"@, ws@[i as int] as int);
            assert(run2@ =~= repeat("─"@, wv[i as int] + 2));
        }
        let b2 = concat(b.as_str(), run2.as_str());
        b = b2;
        if i + 1 < ws.len() {
            push_char(&mut b, m);
        }
        proof {
            assert(b@ =~= seq![l] + border_upto(wv, i as int + 1, m));
        }
        i += 1;
    }
    push_char(&mut b, r);
    b
}

/// The widths of the first `cols` columns of a table (see `col_widths`).
fn column_widths(rows: &Vec<Vec<String>>, cols: usize) -> (ws: Vec<usize>)
    ensures
        ws@.map_values(|w: usize| w as int) == col_widths(cells_view(rows@), cols as int),
{
    let ghost rv = cells_view(rows@);
    let mut ws: Vec<usize> = Vec::new();
    let mut c: usize = 0;
    while c < cols
        invariant
            c <= cols,
            ws@.len() == c,
            rv == cells_view(rows@),
            forall|j: int| 0 <= j < c ==> #[trigger] ws@[j] == col_w_upto(rv, j, rv.len() as int),
        decreases cols - c,
    {
        let mut m: usize = 0;
        let mut k: usize = 0;
        while k < rows.len()
            invariant
                k <= rows@.len(),
                rv == cells_view(rows@),
                m == col_w_upto(rv, c as int, k as int),
            decreases rows.len() - k,
        {
            if c < rows[k].len() {
                assert(rv[k as int][c as int] == rows@[k as int]@[c as int]@);
                let l = rows[k][c].as_str().unicode_len();
                if l > m {
                    m = l;
                }
            }
            k += 1;
        }
        ws.push(m);
        c += 1;
    }
    assert(ws@.map_values(|w: usize| w as int) =~= col_widths(rv, cols as int));
    ws
}

/// The spans of a table row (see `row_spans_upto`).
fn row_spans(row: &Vec<String>, ws: &Vec<usize>, head: bool) -> (r: Vec<Span>)
    ensures
        r@.map_values(|s: Span| span_view(s)) == row_spans_upto(views(row@), ws@.map_values(|w: usize| w as int), ws@.len() as int, head),
{
    let ghost wv = ws@.map_values(|w: usize| w as int);
    let ghost rv = views(row@);
    let border = Style::plain().with_fg(Color::DarkGray);
    let mut out: Vec<Span> = Vec::new();
    out.push(Span { text: String::from_str("│"), style: border });
    let mut i: usize = 0;
    assert(out@.map_values(|s: Span| span_view(s)) =~= row_spans_upto(rv, wv, 0, head));
    while i < ws.len()
        invariant
            i <= ws@.len(),
            wv == ws@.map_values(|w: usize| w as int),
            rv == views(row@),
            border == fg_style(Color::DarkGray),
            out@.map_values(|s: Span| span_view(s)) == row_spans_upto(rv, wv, i as int, head),
        decreases ws.len() - i,
    {
        let cell = if i < row.len() { row[i].clone() } else { String::new() };
        let n = cell.as_str().unicode_len();
        let pad = if ws[i] > n { ws[i] - n } else { 0 };
        let st = if head {
            let mut b = Style::plain();
            b.bold = true;
            b
        } else {
            Style::plain()
        };
        let ghost prev = out@;
        out.push(Span { text: String::from_str(" "), style: Style::plain() });
        out.push(Span { text: cell, style: st });
        out.push(Span { text: repeat_str(" ", pad), style: Style::plain() });
        out.push(Span { text: String::from_str(" "), style: Style::plain() });
        out.push(Span { text: String::from_str("│"), style: border });
        proof {
            assert(out@.map_values(|s: Span| span_view(s)) =~= row_spans_upto(rv, wv, i as int + 1, head));
        }
        i += 1;
    }
    out
}

impl LineCtx {
    /// Add the lines of the code block read and clear it (see
    /// `code_lines_of`).
    fn flush_code(&mut self, sx: &Syntaxes, theme: &str)
        ensures
            final(self)@ == (LinesV {
                out: old(self)@.out + code_lines_of(old(self)@.lang, theme@, old(self)@.code),
                code: Seq::empty(),
                ..old(self)@
            }),
    {
        let ghost c = self@;
        let mut code = String::new();
        std::mem::swap(&mut code, &mut self.code_buf);
        let ls = lines_of(code.as_str());
        let mut texts: Vec<String> = Vec::new();
        let mut i: usize = 0;
        while i < ls.len()
            invariant
                i <= ls@.len(),
                views(texts@) == ls@.map_values(|l: Vec<char>| l@).take(i as int),
            decreases ls.len() - i,
        {
            let t = string_of(ls[i].as_slice(), 0, ls[i].len());
            proof {
                assert(ls@[i as int]@.subrange(0, ls@[i as int]@.len() as int) =~= ls@[i as int]@);
            }
            let ghost prev = texts@;
            texts.push(t);
            proof {
                assert(views(texts@) =~= views(prev).push(t@));
                assert(ls@.map_values(|l: Vec<char>| l@).take(i as int + 1) =~= ls@.map_values(|l: Vec<char>| l@).take(i as int).push(ls@[i as int]@));
            }
            i += 1;
        }
        proof {
            assert(ls@.map_values(|l: Vec<char>| l@).take(ls@.len() as int) =~= ls@.map_values(|l: Vec<char>| l@));
        }
        let ghost want = code_lines_of(c.lang, theme@, c.code);
        let ghost base = self@;
        assert(base =~= LinesV { code: Seq::empty(), ..c });
        if has_theme(sx, theme) {
            let pieces = if self.code_lang.as_str().unicode_len() == 0 {
                highlight_plain_block(sx, theme, &texts)
            } else {
                highlight_lang_block(sx, self.code_lang.as_str(), theme, &texts)
            };
            let ghost pv = pieces@.map_values(|l: Vec<StyledPiece>| pieces_view(l@));
            let mut j: usize = 0;
            while j < pieces.len()
                invariant
                    j <= pieces@.len(),
                    pv == pieces@.map_values(|l: Vec<StyledPiece>| pieces_view(l@)),
                    want == pv.map_values(|p: Seq<((u8, u8, u8, u8), (u8, u8, u8, u8), u8, Seq<char>)>| code_line_of(p)),
                    self@ == (LinesV { out: base.out + want.take(j as int), ..base }),
                decreases pieces.len() - j,
            {
                let mut spans: Vec<Span> = Vec::new();
                let mut bg = Style::plain();
                bg.bg = Some(Color::Black);
                spans.push(Span { text: String::from_str(" "), style: bg });
                let ghost ps = pv[j as int];
                let mut q: usize = 0;
                while q < pieces[j].len()
                    invariant
                        j < pieces@.len(),
                        q <= pieces@[j as int]@.len(),
                        ps == pieces_view(pieces@[j as int]@),
                        spans@.map_values(|s: Span| span_view(s)) == code_line_of(ps).0.take(q as int + 1),
                    decreases pieces@[j as int]@.len() - q,
                {
                    let p = &pieces[j][q];
                    let f = p.0;
                    let b = p.1;
                    let bits = p.2;
                    let st = Style {
                        fg: if f.3 != 0 { Some(Color::Rgb(f.0, f.1, f.2)) } else { None },
                        bg: if b.3 != 0 { Some(Color::Rgb(b.0, b.1, b.2)) } else { None },
                        bold: bits & 1 != 0,
                        italic: bits & 4 != 0,
                        underlined: bits & 2 != 0,
                        crossed_out: false,
                        dim: false,
                    };
                    let ghost prev = spans@;
                    spans.push(Span { text: p.3.clone(), style: st });
                    proof {
                        assert(code_line_of(ps).0.take(q as int + 2) =~= code_line_of(ps).0.take(q as int + 1).push(code_line_of(ps).0[q as int + 1]));
                        assert(spans@.map_values(|s: Span| span_view(s)) =~= prev.map_values(|s: Span| span_view(s)).push((p.3@, st)));
                    }
                    q += 1;
                }
                proof {
                    assert(code_line_of(ps).0.take(ps.len() as int + 1) =~= code_line_of(ps).0);
                }
                let line = Line { spans, style: Style::plain() };
                self.push_line(line);
                proof {
                    assert(line_view(line) == want[j as int]);
                    assert(want.take(j as int + 1) =~= want.take(j as int).push(want[j as int]));
                    assert(base.out + want.take(j as int + 1) =~= base.out + want.take(j as int) + seq![want[j as int]]);
                }
                j += 1;
            }
            proof {
                assert(want.take(want.len() as int) =~= want);
            }
        } else {
            let ghost lv = ls@.map_values(|l: Vec<char>| l@);
            let mut st = Style::plain().with_fg(Color::Gray);
            st.bg = Some(Color::Black);
            let mut j: usize = 0;
            while j < texts.len()
                invariant
                    j <= texts@.len(),
                    views(texts@) == lv,
                    lv == text_lines(c.code),
                    want == lv.map_values(|l: Seq<char>| styled_line(" "@ + l, st)),
                    self@ == (LinesV { out: base.out + want.take(j as int), ..base }),
                decreases texts.len() - j,
            {
                let t = concat(" ", texts[j].as_str());
                let line = styled(t.as_str(), st);
                self.push_line(line);
                proof {
                    assert(views(texts@)[j as int] == texts@[j as int]@);
                    assert(want.take(j as int + 1) =~= want.take(j as int).push(want[j as int]));
                }
                j += 1;
            }
            proof {
                assert(want.take(want.len() as int) =~= want);
            }
        }
    }
}


impl LineCtx {
    /// Add the lines of the table read and clear it (see `table_lines`).
    fn flush_table(&mut self)
        ensures
            final(self)@ == (LinesV { out: old(self)@.out + table_lines(old(self)@.table), table: Seq::empty(), ..old(self)@ }),
    {
        let ghost c = self@;
        let mut rows: Vec<Vec<String>> = Vec::new();
        std::mem::swap(&mut rows, &mut self.table_rows);
        let ghost rv = cells_view(rows@);
        let ghost base = self@;
        proof {
            assert(base.table =~= Seq::<Seq<Seq<char>>>::empty());
            assert(base =~= LinesV { table: Seq::empty(), ..c });
            assert(rv == c.table);
        }
        if rows.len() == 0 {
            assert(base.out + table_lines(rv) =~= base.out);
            return;
        }
        let mut cols: usize = 0;
        let mut k: usize = 0;
        while k < rows.len()
            invariant
                k <= rows@.len(),
                rv == cells_view(rows@),
                cols == max_cols_upto(rv, k as int),
            decreases rows.len() - k,
        {
            assert(rv[k as int].len() == rows@[k as int]@.len());
            if rows[k].len() > cols {
                cols = rows[k].len();
            }
            k += 1;
        }
        if cols == 0 {
            assert(base.out + table_lines(rv) =~= base.out);
            return;
        }
        let ws = column_widths(&rows, cols);
        let ghost wv = ws@.map_values(|w: usize| w as int);
        let border = Style::plain().with_fg(Color::DarkGray);
        let top = border_string(&ws, '┌', '┬', '┐');
        self.push_line(styled(top.as_str(), border));
        let ghost top_line = styled_line(border_text(wv, '┌', '┬', '┐'), fg_style(Color::DarkGray));
        let mut ri: usize = 0;
        while ri < rows.len()
            invariant
                ri <= rows@.len(),
                rv == cells_view(rows@),
                wv == ws@.map_values(|w: usize| w as int),
                wv == col_widths(rv, cols as int),
                border == fg_style(Color::DarkGray),
                top_line == styled_line(border_text(wv, '┌', '┬', '┐'), fg_style(Color::DarkGray)),
                self@ == (LinesV { out: base.out + seq![top_line] + table_lines_upto(rv, wv, ri as int), ..base }),
            decreases rows.len() - ri,
        {
            let spans = row_spans(&rows[ri], &ws, ri == 0);
            assert(views(rows@[ri as int]@) == rv[ri as int]);
            let line = Line { spans, style: Style::plain() };
            self.push_line(line);
            if ri == 0 {
                let mid = border_string(&ws, '├', '┼', '┤');
                self.push_line(styled(mid.as_str(), border));
            }
            proof {
                assert(self@.out =~= base.out + seq![top_line] + table_lines_upto(rv, wv, ri as int + 1));
            }
            ri += 1;
        }
        let bottom = border_string(&ws, '└', '┴', '┘');
        self.push_line(styled(bottom.as_str(), border));
        proof {
            assert(self@.out =~= base.out + table_lines(rv));
        }
    }

    /// An element ends (see `lend_spec`).
    fn end(&mut self, tag: TagEnd, sx: &Syntaxes, theme: &str)
        ensures
            final(self)@ == lend_spec(old(self)@, tag, theme@),
    {
        let ghost c = self@;
        match tag {
            TagEnd::Paragraph | TagEnd::Heading(_) => self.blank(),
            TagEnd::CodeBlock => {
                self.flush_code(sx, theme);
                self.in_code_block = false;
                let ghost c1 = self@;
                assert(c1 =~= LinesV { out: c.out + code_lines_of(c.lang, theme@, c.code), code: Seq::empty(), in_code: false, ..c });
                self.blank();
            },
            TagEnd::List => {
                if self.list_stack.len() > 0 {
                    let _ = self.list_stack.pop();
                }
                if self.list_stack.len() == 0 {
                    self.blank();
                }
                assert(self@ =~= lend_spec(c, tag, theme@));
            },
            TagEnd::Item => {
                self.item_pending = false;
                assert(self@ =~= lend_spec(c, tag, theme@));
            },
            TagEnd::Emphasis | TagEnd::Strong | TagEnd::Strikethrough | TagEnd::Link | TagEnd::Image => {
                if self.styles.len() > 0 {
                    let _ = self.styles.pop();
                }
                assert(self@ =~= lend_spec(c, tag, theme@));
            },
            TagEnd::BlockQuote => {
                if self.quote_depth > 0 {
                    self.quote_depth = self.quote_depth - 1;
                }
                if self.quote_depth == 0 {
                    self.blank();
                }
                assert(self@ =~= lend_spec(c, tag, theme@));
            },
            TagEnd::FootnoteDefinition => self.blank(),
            TagEnd::Table => {
                self.flush_table();
                self.in_table = false;
                let ghost c1 = self@;
                assert(c1 =~= LinesV { out: c.out + table_lines(c.table), table: Seq::empty(), in_table: false, ..c });
                self.blank();
            },
            TagEnd::TableHead | TagEnd::TableRow | TagEnd::TableCell | TagEnd::Other => {},
        }
    }

    /// One event (see `levent_spec`).
    pub fn event(&mut self, ev: &MdEvent, sx: &Syntaxes, theme: &str)
        ensures
            final(self)@ == levent_spec(old(self)@, *ev, theme@),
    {
        let ghost c = self@;
        match ev {
            MdEvent::Start(tag) => self.start(tag),
            MdEvent::End(tag) => self.end(*tag, sx, theme),
            MdEvent::Text(t) => {
                if self.in_code_block {
                    let code = concat(self.code_buf.as_str(), t.as_str());
                    self.code_buf = code;
                    assert(self@ =~= levent_spec(c, *ev, theme@));
                } else if self.in_table {
                    if self.table_rows.len() > 0 {
                        let mut row = self.table_rows.pop().unwrap();
                        let ghost r0 = views(row@);
                        if row.len() > 0 {
                            let cell = row.pop().unwrap();
                            let cell2 = concat(cell.as_str(), t.as_str());
                            row.push(cell2);
                            assert(views(row@) =~= r0.update(r0.len() - 1, r0.last() + t@));
                        } else {
                            let cell2 = t.clone();
                            row.push(cell2);
                            assert(views(row@) =~= r0.push(t@));
                        }
                        self.table_rows.push(row);
                        assert(self@.table =~= table_text(c, t@).table);
                    }
                    assert(self@ =~= levent_spec(c, *ev, theme@));
                } else {
                    self.emit_text(t.as_str());
                }
            },
            MdEvent::Code(t) => {
                self.styles.push(In::Code);
                self.emit_text(t.as_str());
                proof {
                    lemma_emit_styles(with_in(c, In::Code), t@);
                }
                let _ = self.styles.pop();
                assert(self@ =~= levent_spec(c, *ev, theme@));
            },
            MdEvent::SoftBreak | MdEvent::HardBreak => {
                if !self.in_code_block {
                    self.new_line();
                }
            },
            MdEvent::Rule => {
                let rule = repeat_str("─", 40);
                self.push_line(styled(rule.as_str(), Style::plain().with_fg(Color::DarkGray)));
                self.blank();
            },
            MdEvent::TaskListMarker(b) => {
                self.task_marker = Some(*b);
                assert(self@ =~= levent_spec(c, *ev, theme@));
            },
            MdEvent::FootnoteReference(t) => {
                let a = concat("[¹", t.as_str());
                let text = concat(a.as_str(), "]");
                self.push_span(text, bold_fg(Color::Yellow));
            },
            MdEvent::Html(_) | MdEvent::InlineHtml(_) | MdEvent::Other => {},
        }
    }
}

/// The styled lines of a document given by its parser events (see
/// `lines_of_events`), code highlighted with the syntect theme `theme`.
pub fn lines_from_events(events: &Vec<MdEvent>, sx: &Syntaxes, theme: &str) -> (r: Vec<Line>)
    ensures
        lines_view(r@) == lines_of_events(events@, theme@),
{
    let mut ctx = LineCtx::new();
    let mut i: usize = 0;
    while i < events.len()
        invariant
            i <= events@.len(),
            ctx@ == lrun(events@, i as int, theme@),
        decreases events.len() - i,
    {
        ctx.event(&events[i], sx, theme);
        i += 1;
    }
    let mut out = ctx.out;
    if out.len() == 0 {
        let mut spans: Vec<Span> = Vec::new();
        spans.push(Span { text: String::from_str(" "), style: Style::plain() });
        let l = Line { spans, style: Style::plain() };
        assert(line_view(l).0 =~= seq![(" "@, Style::none())]);
        out.push(l);
        assert(lines_view(out@) =~= seq![(seq![(" "@, Style::none())], Style::none())]);
    }
    out
}

/// The styled lines of a Markdown source (see `lines_of_events`).
pub fn render_lines(src: &str, sx: &Syntaxes, theme: &str) -> (r: Vec<Line>)
    ensures
        lines_view(r@) == lines_of_events(markdown_events(src@, true, true, true, true), theme@),
{
    let evs = parse_markdown(src);
    lines_from_events(&evs, sx, theme)
}


proof fn lemma_parts_styles(c: LinesV, parts: Seq<Seq<char>>, k: int, st: Style)
    ensures
        parts_upto(c, parts, k, st).styles == c.styles,
    decreases k,
{
    if k > 0 {
        lemma_parts_styles(c, parts, k - 1, st);
    }
}

/// Text leaves the formats in effect as they are.
proof fn lemma_emit_styles(c: LinesV, t: Seq<char>)
    ensures
        emit_spec(c, t).styles == c.styles,
{
    let st = text_style_of(c.styles, c.qd);
    let c1 = if c.item_pending {
        let (prefix, lists) = item_prefix(c.lists);
        if c.out.len() > 0 {
            let o1 = match c.task {
                Some(ch) => push_span(c.out, task_span(ch)),
                None => c.out,
            };
            LinesV { out: push_span(o1, (prefix, fg_style(Color::Gray))), lists, task: None, item_pending: false, ..c }
        } else {
            LinesV { lists, item_pending: false, ..c }
        }
    } else {
        c
    };
    let parts = split_by(t, '\n');
    lemma_parts_styles(c1, parts, parts.len() as int, st);
}


/// Law: the styled lines of any document are never an empty list.
pub proof fn law_lines_not_empty(evs: Seq<MdEvent>, theme: Seq<char>)
    ensures
        lines_of_events(evs, theme).len() >= 1,
{
}

} // verus!
