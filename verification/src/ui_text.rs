//! The text of the window's chrome: the title bar, the status bar, the
//! outline popup, and the selection's cells.

use vstd::prelude::*;
use crate::style::{Color, Style};
use crate::app::{headings_upto, App, Focus};
use crate::chars::{is_whitespace, white};
use crate::markdown::{concat, fg_style, repeat, repeat_str, span_view, Span};
use crate::num::{decimal, decimal_chars};
use crate::text::{chars_of, string_of};

verus! {

pub open spec fn spans_view(ss: Seq<Span>) -> Seq<(Seq<char>, Style)> {
    ss.map_values(|s: Span| span_view(s))
}

/// The title bar: the title on the accent color, a mark when the buffer is
/// unsaved, and the theme, code theme, wrap state and mode.
pub open spec fn title_spans(a: App) -> Seq<(Seq<char>, Style)> {
    let accent = a.theme.accent_of();
    let right = " "@ + a.theme.name_of() + " │ "@ + a.preview_theme@ + " │ wrap:"@ + (if a.wrap { "on"@ } else {
        "off"@
    }) + " │ "@ + (if a.focus == Focus::Editor { "EDIT"@ } else { "VIEW"@ }) + " "@;
    seq![
        (" ✦ "@ + a.title@ + " "@, Style { fg: Some(Color::Black), bg: Some(accent), bold: true, ..Style::none() }),
        (if a.buf@.dirty { " ● unsaved "@ } else { ""@ }, fg_style(Color::LightRed)),
        (" "@, Style::none()),
        (right, fg_style(Color::DarkGray)),
    ]
}

/// The spans of the title bar (see `title_spans`).
pub fn title_line(app: &App) -> (r: Vec<Span>)
    ensures
        spans_view(r@) == title_spans(*app),
{
    let accent = app.theme.accent();
    let a = concat(" ✦ ", app.title.as_str());
    let title = concat(a.as_str(), " ");
    let mut tst = Style::plain().with_fg(Color::Black).with_bg(accent);
    tst.bold = true;
    let dirty = if app.buf.dirty { String::from_str(" ● unsaved ") } else { String::from_str("") };
    let r1 = concat(" ", app.theme.name());
    let r2 = concat(r1.as_str(), " │ ");
    let r3 = concat(r2.as_str(), app.preview_theme.as_str());
    let r4 = concat(r3.as_str(), " │ wrap:");
    let r5 = concat(r4.as_str(), if app.wrap { "on" } else { "off" });
    let r6 = concat(r5.as_str(), " │ ");
    let r7 = concat(r6.as_str(), if app.focus == Focus::Editor { "EDIT" } else { "VIEW" });
    let right = concat(r7.as_str(), " ");
    let mut out: Vec<Span> = Vec::new();
    out.push(Span { text: title, style: tst });
    out.push(Span { text: dirty, style: Style::plain().with_fg(Color::LightRed) });
    out.push(Span { text: String::from_str(" "), style: Style::plain() });
    out.push(Span { text: right, style: Style::plain().with_fg(Color::DarkGray) });
    assert(spans_view(out@) =~= title_spans(*app));
    out
}

/// Words of `t[..k]` as `str::split_whitespace` counts them: the characters
/// that are not whitespace and start the text or follow whitespace.
pub open spec fn words_upto(t: Seq<char>, k: int) -> int
    decreases k,
{
    if k <= 0 {
        0
    } else {
        words_upto(t, k - 1) + if !white(t[k - 1]) && (k == 1 || white(t[k - 2])) { 1int } else { 0int }
    }
}

/// The number of whitespace-separated words of a text.
pub fn word_count(s: &str) -> (n: usize)
    ensures
        n == words_upto(s@, s@.len() as int),
{
    let cs = chars_of(s);
    let mut n: usize = 0;
    let mut prev_white = true;
    let mut i: usize = 0;
    while i < cs.len()
        invariant
            i <= cs@.len(),
            cs@ == s@,
            n == words_upto(s@, i as int),
            n <= i,
            prev_white == (i == 0 || white(s@[i - 1])),
        decreases cs.len() - i,
    {
        let w = is_whitespace(cs[i]);
        if !w && prev_white {
            n += 1;
        }
        prev_white = w;
        i += 1;
    }
    n
}

/// The status bar while searching: the query after `/` and a hint; the
/// cursor after the query.
pub open spec fn search_bar(a: App) -> Seq<(Seq<char>, Style)> {
    seq![
        ("/"@, Style { fg: Some(Color::Yellow), bold: true, ..Style::none() }),
        (a.search_query@, Style::none()),
        ("  (Enter=next · Esc=cancel · n/N in editor)"@, Style::none()),
    ]
}

/// The status bar while typing a command: the command after `:`.
pub open spec fn command_bar(a: App) -> Seq<(Seq<char>, Style)> {
    seq![(":"@, fg_style(Color::Yellow)), (a.command@, Style::none())]
}

/// The status bar otherwise: the mode, the cursor's line and column, the
/// status message (white on red when it is an error), and the counts of
/// words, lines and the revision.
pub open spec fn normal_bar(a: App) -> Seq<(Seq<char>, Style)> {
    let m = a.buf@;
    let ed = a.focus == Focus::Editor;
    let t = m.text();
    seq![
        (if ed { " INSERT "@ } else { " NORMAL "@ }, Style {
            fg: Some(Color::Black),
            bg: Some(if ed { Color::LightGreen } else { Color::LightBlue }),
            ..Style::none()
        }),
        (" "@ + decimal((m.line + 1) as nat) + ":"@ + decimal((m.col + 1) as nat) + " "@, fg_style(Color::DarkGray)),
        (" "@ + a.status@ + " "@, if a.status_is_error {
            Style { fg: Some(Color::White), bg: Some(Color::Red), ..Style::none() }
        } else {
            fg_style(Color::DarkGray)
        }),
        ("  "@ + decimal(words_upto(t, t.len() as int) as nat) + " words · "@ + decimal(m.lines.len()) + "L · rev:"@ + decimal(
            m.revision as nat,
        ), Style::none()),
    ]
}

/// The status bar's spans and, while searching or typing a command, the
/// cursor's column (after the text, saturating at the screen's edge).
pub open spec fn status_of(a: App, x: int) -> (Seq<(Seq<char>, Style)>, Option<u16>) {
    if a.search_open {
        let c = x + 1 + a.search_query@.len();
        (search_bar(a), Some((if c > u16::MAX { u16::MAX as int } else { c }) as u16))
    } else if a.in_command {
        let c = x + 1 + a.command@.len();
        (command_bar(a), Some((if c > u16::MAX { u16::MAX as int } else { c }) as u16))
    } else {
        (normal_bar(a), None)
    }
}

/// `n` in decimal, as a string.
fn decimal_string(n: u64) -> (s: String)
    ensures
        s@ == decimal(n as nat),
{
    let ds = decimal_chars(n);
    assert(ds@.subrange(0, ds@.len() as int) =~= ds@);
    string_of(ds.as_slice(), 0, ds.len())
}

/// `x` plus one plus `n`, saturating at the screen's edge.
fn col_after(x: u16, n: usize) -> (c: u16)
    ensures
        c == (if x + 1 + n > u16::MAX { u16::MAX as int } else { x + 1 + n }),
{
    if n >= u16::MAX as usize || x as usize + 1 + n > u16::MAX as usize {
        u16::MAX
    } else {
        (x as usize + 1 + n) as u16
    }
}

/// The status bar at column `x` (see `status_of`).
pub fn status_line(app: &App, x: u16) -> (r: (Vec<Span>, Option<u16>))
    requires
        app.ok(),
        app.buf@.col < usize::MAX,
    ensures
        spans_view(r.0@) == status_of(*app, x as int).0,
        r.1 == status_of(*app, x as int).1,
{
    let mut out: Vec<Span> = Vec::new();
    if app.search_open {
        let mut st = Style::plain().with_fg(Color::Yellow);
        st.bold = true;
        out.push(Span { text: String::from_str("/"), style: st });
        out.push(Span { text: app.search_query.clone(), style: Style::plain() });
        out.push(Span { text: String::from_str("  (Enter=next · Esc=cancel · n/N in editor)"), style: Style::plain() });
        assert(spans_view(out@) =~= search_bar(*app));
        let c = col_after(x, app.search_query.as_str().unicode_len());
        return (out, Some(c));
    }
    if app.in_command {
        out.push(Span { text: String::from_str(":"), style: Style::plain().with_fg(Color::Yellow) });
        out.push(Span { text: app.command.clone(), style: Style::plain() });
        assert(spans_view(out@) =~= command_bar(*app));
        let c = col_after(x, app.command.as_str().unicode_len());
        return (out, Some(c));
    }
    let ed = app.focus == Focus::Editor;
    let mode = if ed { String::from_str(" INSERT ") } else { String::from_str(" NORMAL ") };
    let mst = Style::plain().with_fg(Color::Black).with_bg(if ed { Color::LightGreen } else { Color::LightBlue });
    proof {
        crate::wrap::lemma_size_mono(app.buf@.lines, app.buf@.line + 1, app.buf@.lines.len() as int);
    }
    let n = app.buf.line_count();
    let l1 = decimal_string((app.buf.cursor_line + 1) as u64);
    let c1 = decimal_string((app.buf.cursor_col + 1) as u64);
    let left = concat(concat(concat(concat(" ", l1.as_str()).as_str(), ":").as_str(), c1.as_str()).as_str(), " ");
    let sst = if app.status_is_error {
        Style::plain().with_fg(Color::White).with_bg(Color::Red)
    } else {
        Style::plain().with_fg(Color::DarkGray)
    };
    let status = concat(concat(" ", app.status.as_str()).as_str(), " ");
    let text = app.buf.text();
    let words = decimal_string(word_count(text.as_str()) as u64);
    let lines = decimal_string(n as u64);
    let rev = decimal_string(app.buf.revision);
    let counts = concat(
        concat(concat(concat(concat("  ", words.as_str()).as_str(), " words · ").as_str(), lines.as_str()).as_str(), "L · rev:").as_str(),
        rev.as_str(),
    );
    assert(left@ == " "@ + decimal((app.buf@.line + 1) as nat) + ":"@ + decimal((app.buf@.col + 1) as nat) + " "@);
    assert(status@ == " "@ + app.status@ + " "@);
    assert(text@ == app.buf@.text());
    assert(counts@ == "  "@ + decimal(words_upto(text@, text@.len() as int) as nat) + " words · "@ + decimal(app.buf@.lines.len()) + "L · rev:"@ + decimal(app.buf@.revision as nat));
    out.push(Span { text: mode, style: mst });
    out.push(Span { text: left, style: Style::plain().with_fg(Color::DarkGray) });
    out.push(Span { text: status, style: sst });
    out.push(Span { text: counts, style: Style::plain() });
    assert(spans_view(out@) =~= normal_bar(*app));
    (out, None)
}


/// The color of an outline entry of a heading level.
pub open spec fn level_color(level: int) -> Color {
    if level == 1 {
        Color::LightBlue
    } else if level == 2 {
        Color::Cyan
    } else if level == 3 {
        Color::Yellow
    } else {
        Color::Gray
    }
}

/// An outline entry: indented two columns per level below the first, `H`
/// and the level, then the title; the selected entry on the accent color.
pub open spec fn outline_entry(a: App, i: int, h: (int, int, Seq<char>)) -> Seq<(Seq<char>, Style)> {
    let st = if i == a.outline_sel {
        Style { fg: Some(Color::Black), bg: Some(a.theme.accent_of()), ..Style::none() }
    } else {
        fg_style(level_color(h.1))
    };
    seq![(repeat("  "@, h.1 - 1) + "H"@ + decimal(h.1 as nat) + " "@, st), (h.2, st)]
}

/// The outline's lines: one entry per heading of the buffer, in order.
pub open spec fn outline_of(a: App) -> Seq<Seq<(Seq<char>, Style)>> {
    let hs = headings_upto(a.buf@.lines, a.buf@.lines.len() as int);
    Seq::new(hs.len(), |i: int| outline_entry(a, i, hs[i]))
}

/// The outline popup's lines (see `outline_of`).
pub fn outline_lines(app: &App) -> (r: Vec<Vec<Span>>)
    ensures
        r@.map_values(|l: Vec<Span>| spans_view(l@)) == outline_of(*app),
{
    let hs = app.headings();
    let ghost hv = hs@.map_values(|h: (usize, usize, String)| (h.0 as int, h.1 as int, h.2@));
    let mut out: Vec<Vec<Span>> = Vec::new();
    let mut i: usize = 0;
    while i < hs.len()
        invariant
            i <= hs@.len(),
            hv == hs@.map_values(|h: (usize, usize, String)| (h.0 as int, h.1 as int, h.2@)),
            hv == headings_upto(app.buf@.lines, app.buf@.lines.len() as int),
            out@.map_values(|l: Vec<Span>| spans_view(l@)) == outline_of(*app).take(i as int),
        decreases hs.len() - i,
    {
        let level = hs[i].1;
        let st = if i == app.outline_sel {
            Style::plain().with_fg(Color::Black).with_bg(app.theme.accent())
        } else {
            Style::plain().with_fg(if level == 1 {
                Color::LightBlue
            } else if level == 2 {
                Color::Cyan
            } else if level == 3 {
                Color::Yellow
            } else {
                Color::Gray
            })
        };
        let indent = repeat_str("  ", if level > 0 { level - 1 } else { 0 });
        assert(repeat("  "@, (if level > 0 { level - 1 } else { 0 }) as int) == repeat("  "@, level - 1));
        let ls = decimal_string(level as u64);
        let head = concat(concat(concat(indent.as_str(), "H").as_str(), ls.as_str()).as_str(), " ");
        let mut line: Vec<Span> = Vec::new();
        line.push(Span { text: head, style: st });
        line.push(Span { text: hs[i].2.clone(), style: st });
        let ghost prev = out@;
        proof {
            assert(hv[i as int] == (hs@[i as int].0 as int, level as int, hs@[i as int].2@));
            assert(spans_view(line@) =~= outline_entry(*app, i as int, hv[i as int]));
        }
        out.push(line);
        proof {
            assert(outline_of(*app).take(i as int + 1) =~= outline_of(*app).take(i as int).push(outline_of(*app)[i as int]));
            assert(out@.map_values(|l: Vec<Span>| spans_view(l@)) =~= prev.map_values(|l: Vec<Span>| spans_view(l@)).push(spans_view(line@)));
        }
        i += 1;
    }
    assert(outline_of(*app).take(hs@.len() as int) =~= outline_of(*app));
    out
}

/// The selected rectangle of the screen (columns then rows, both ends
/// included), when a selection has both ends.
pub open spec fn selection_of(a: App) -> Option<(u16, u16, u16, u16)> {
    match (a.sel_start, a.sel_end) {
        (Some((sx, sy)), Some((ex, ey))) => Some((
            if sx <= ex { sx } else { ex },
            if sx <= ex { ex } else { sx },
            if sy <= ey { sy } else { ey },
            if sy <= ey { ey } else { sy },
        )),
        _ => None,
    }
}

/// The selected rectangle (see `selection_of`).
pub fn selection_rect(app: &App) -> (r: Option<(u16, u16, u16, u16)>)
    ensures
        r == selection_of(*app),
{
    match (app.sel_start, app.sel_end) {
        (Some((sx, sy)), Some((ex, ey))) => Some((
            if sx <= ex { sx } else { ex },
            if sx <= ex { ex } else { sx },
            if sy <= ey { sy } else { ey },
            if sy <= ey { ey } else { sy },
        )),
        _ => None,
    }
}

/// A selected cell's style: its colors swapped (a missing one as the
/// terminal's default), nothing else kept.
pub open spec fn inverted_of(st: Style) -> Style {
    Style {
        fg: Some(match st.bg {
            Some(c) => c,
            None => Color::Reset,
        }),
        bg: Some(match st.fg {
            Some(c) => c,
            None => Color::Reset,
        }),
        ..Style::none()
    }
}

/// A selected cell's style (see `inverted_of`).
pub fn inverted(st: Style) -> (r: Style)
    ensures
        r == inverted_of(st),
{
    let fg = match st.bg {
        Some(c) => c,
        None => Color::Reset,
    };
    let bg = match st.fg {
        Some(c) => c,
        None => Color::Reset,
    };
    Style::plain().with_fg(fg).with_bg(bg)
}

} // verus!
