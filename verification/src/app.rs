//! Application state and the editor's decisions: focus, themes, status
//! messages, wrapped-cursor navigation, outline and search.

use vstd::prelude::*;
use crate::buffer::{BufModel, Buffer, min_int};
use crate::num::{decimal, decimal_chars};
use crate::chars::{is_whitespace, lower, to_lowercase, utf8_len, white};
use crate::text::chars_of;
use crate::wrap::{cw, char_cells};
use crate::style::Color;
use crate::syntax::Syntaxes;
use crate::markdown::{lines_of_events, lines_view, render_lines, Line};
use crate::md_events::markdown_events;
use crate::wrap::{lemma_rows_before_bound, lemma_segs_len, lemma_size_mono, locate, locate_in_wrapped, rows_before, rows_for_line, segments, segs, size_upto};

verus! {

/// Which pane has keyboard focus.
#[derive(Clone, Copy, PartialEq, Eq, Structural)]
pub enum Focus {
    Editor,
    Preview,
}

/// Built-in color themes for the editor chrome.
#[derive(Clone, Copy, PartialEq, Eq, Structural)]
pub enum Theme {
    Dark,
    Light,
    Ghostly,
}

impl Theme {
    pub open spec fn bg_of(self) -> Color {
        match self {
            Theme::Dark => Color::Reset,
            Theme::Light => Color::Rgb(245, 245, 240),
            Theme::Ghostly => Color::Black,
        }
    }

    pub open spec fn fg_of(self) -> Color {
        match self {
            Theme::Dark => Color::Gray,
            Theme::Light => Color::Rgb(40, 40, 48),
            Theme::Ghostly => Color::DarkGray,
        }
    }

    pub open spec fn accent_of(self) -> Color {
        match self {
            Theme::Dark => Color::LightBlue,
            Theme::Light => Color::Rgb(30, 100, 180),
            Theme::Ghostly => Color::Cyan,
        }
    }

    pub open spec fn name_of(self) -> Seq<char> {
        match self {
            Theme::Dark => "dark"@,
            Theme::Light => "light"@,
            Theme::Ghostly => "ghost"@,
        }
    }

    pub fn bg(self) -> (c: Color)
        ensures
            c == self.bg_of(),
    {
        match self {
            Theme::Dark => Color::Reset,
            Theme::Light => Color::Rgb(245, 245, 240),
            Theme::Ghostly => Color::Black,
        }
    }

    pub fn fg(self) -> (c: Color)
        ensures
            c == self.fg_of(),
    {
        match self {
            Theme::Dark => Color::Gray,
            Theme::Light => Color::Rgb(40, 40, 48),
            Theme::Ghostly => Color::DarkGray,
        }
    }

    pub fn accent(self) -> (c: Color)
        ensures
            c == self.accent_of(),
    {
        match self {
            Theme::Dark => Color::LightBlue,
            Theme::Light => Color::Rgb(30, 100, 180),
            Theme::Ghostly => Color::Cyan,
        }
    }

    pub fn name(self) -> (s: &'static str)
        ensures
            s@ == self.name_of(),
    {
        match self {
            Theme::Dark => "dark",
            Theme::Light => "light",
            Theme::Ghostly => "ghost",
        }
    }

    /// The theme that follows in the cycle dark → light → ghost → dark.
    pub open spec fn next(self) -> Theme {
        match self {
            Theme::Dark => Theme::Light,
            Theme::Light => Theme::Ghostly,
            Theme::Ghostly => Theme::Dark,
        }
    }

    /// The code-highlight theme that goes with this theme.
    pub open spec fn code_theme_of(self) -> Seq<char> {
        match self {
            Theme::Dark => "base16-ocean.dark"@,
            Theme::Light => "InspiredGitHub"@,
            Theme::Ghostly => "base16-eighties.dark"@,
        }
    }
}

/// The editor state that the terminal layer reads and updates. Sizes and
/// pane positions are recorded by the renderer each frame.
pub struct App {
    pub buf: Buffer,
    pub title: String,
    pub focus: Focus,
    pub should_quit: bool,
    pub status: String,
    pub status_is_error: bool,
    pub theme: Theme,
    pub wrap: bool,
    pub show_help: bool,
    pub sync_preview: bool,
    pub outline_open: bool,
    pub outline_sel: usize,
    pub search_open: bool,
    pub search_query: String,
    pub last_query: String,
    pub command: String,
    pub in_command: bool,
    pub editor_scroll: usize,
    pub preview_scroll: usize,
    /// Editor inner rect, recorded each frame for mouse hit-testing.
    pub ei_x: u16,
    pub ei_y: u16,
    pub ei_w: u16,
    /// Preview pane rect for mouse hit-testing.
    pub pi_x: u16,
    pub pi_y: u16,
    pub pi_w: u16,
    /// Text selection state: start/end in absolute screen coords.
    pub sel_start: Option<(u16, u16)>,
    pub sel_end: Option<(u16, u16)>,
    /// Which pane the selection is in (0=editor, 1=preview).
    pub sel_pane: u8,
    /// Window sizes updated each frame by the UI.
    pub editor_height: usize,
    pub editor_width: usize,
    pub preview_height: usize,
    pub preview_width: usize,
    pub preview_theme: String,
    /// Revision of the buffer that the preview was last rendered from.
    pub cached_rev: u64,
    pub cache_width: usize,
    pub preview_content_height: usize,
    /// syntect's bundled syntaxes and themes, for code in the preview.
    pub syntaxes: Syntaxes,
    /// The preview's styled lines, from the last rendered revision.
    pub cached_lines: Vec<Line>,
}

/// Width of the line-number gutter for a buffer of `n` lines.
pub open spec fn gutter_of(n: int) -> int {
    let d = decimal(n as nat).len() as int;
    (if d < 2 { 2 } else { d }) + 1
}

/// Text columns of the editor pane beside the gutter (at least one).
pub open spec fn avail_of(width: int, n: int) -> int {
    let g = gutter_of(n);
    let a = if width > g + 1 { width - (g + 1) } else { 0 };
    if a < 1 { 1 } else { a }
}

/// (display row, x cell) of the cursor in the editor.
pub open spec fn cursor_row(m: BufModel, wrap: bool, width: int) -> (int, int) {
    let w = avail_of(width, m.lines.len() as int);
    let row = rows_before(m.lines, m.line, w, wrap);
    if wrap {
        let p = locate(m.lines[m.line], m.col, w);
        (row + p.0, p.1)
    } else {
        (row, min_int(m.col, width))
    }
}

/// The scroll offset that brings display row `row` into a window of `height`.
pub open spec fn scroll_to(scroll: int, height: int, row: int) -> int {
    if row < scroll {
        row
    } else if row >= scroll + height {
        row + 1 - height
    } else {
        scroll
    }
}

/// The first line, searching from line `i` whose rows start at display row
/// `cur`, whose rows reach past display row `target`, with its first row.
pub open spec fn scan_rows(ls: Seq<Seq<char>>, w: int, i: int, cur: int, target: int) -> Option<
    (int, int),
>
    decreases ls.len() - i,
{
    if i < 0 || i >= ls.len() {
        None
    } else if cur + segs(ls[i], w).len() > target {
        Some((i, cur))
    } else {
        scan_rows(ls, w, i + 1, cur + segs(ls[i], w).len(), target)
    }
}

/// The cursor after moving up one display row: onto the row above, in the
/// line that holds it, at the same cell offset (clamped to that row and line).
pub open spec fn display_up_of(m: BufModel, wrap: bool, width: int) -> BufModel {
    if !wrap {
        m.move_up()
    } else {
        let (row, x) = cursor_row(m, wrap, width);
        let w = avail_of(width, m.lines.len() as int);
        if row == 0 {
            BufModel { col: 0, desired: None, ..m }
        } else {
            match scan_rows(m.lines, w, 0, 0, row - 1) {
                None => m,
                Some((i, cur)) => {
                    let s = segs(m.lines[i], w);
                    let seg = s[min_int(row - 1 - cur, s.len() - 1)];
                    BufModel {
                        line: i,
                        col: min_int(min_int(seg.0 + x, seg.0 + seg.1), m.lines[i].len() as int),
                        ..m
                    }
                },
            }
        }
    }
}

/// The cursor after moving down one display row.
pub open spec fn display_down_of(m: BufModel, wrap: bool, width: int) -> BufModel {
    if !wrap {
        m.move_down()
    } else {
        let (row, x) = cursor_row(m, wrap, width);
        let w = avail_of(width, m.lines.len() as int);
        match scan_rows(m.lines, w, 0, 0, row) {
            None => m,
            Some((i, cur)) => {
                let s = segs(m.lines[i], w);
                let within = row - cur;
                if within + 1 < s.len() {
                    let seg = s[within + 1];
                    BufModel { line: i, col: min_int(seg.0 + x, seg.0 + seg.1), ..m }
                } else if i + 1 < m.lines.len() {
                    BufModel { line: i + 1, col: min_int(x, m.lines[i + 1].len() as int), ..m }
                } else {
                    m
                }
            },
        }
    }
}

pub open spec fn repeat_up(m: BufModel, wrap: bool, width: int, k: nat) -> BufModel
    decreases k,
{
    if k == 0 { m } else { display_up_of(repeat_up(m, wrap, width, (k - 1) as nat), wrap, width) }
}

pub open spec fn repeat_down(m: BufModel, wrap: bool, width: int, k: nat) -> BufModel
    decreases k,
{
    if k == 0 { m } else { display_down_of(repeat_down(m, wrap, width, (k - 1) as nat), wrap, width) }
}

/// An `App` equal to `a` but for the buffer, status and scroll fields.
pub open spec fn same_except_view(a: App, b: App) -> bool {
    &&& a.title == b.title
    &&& a.focus == b.focus
    &&& a.should_quit == b.should_quit
    &&& a.theme == b.theme
    &&& a.wrap == b.wrap
    &&& a.show_help == b.show_help
    &&& a.sync_preview == b.sync_preview
    &&& a.outline_open == b.outline_open
    &&& a.outline_sel == b.outline_sel
    &&& a.search_open == b.search_open
    &&& a.search_query == b.search_query
    &&& a.last_query == b.last_query
    &&& a.command == b.command
    &&& a.in_command == b.in_command
    &&& a.preview_scroll == b.preview_scroll
    &&& a.ei_x == b.ei_x
    &&& a.ei_y == b.ei_y
    &&& a.ei_w == b.ei_w
    &&& a.pi_x == b.pi_x
    &&& a.pi_y == b.pi_y
    &&& a.pi_w == b.pi_w
    &&& a.sel_start == b.sel_start
    &&& a.sel_end == b.sel_end
    &&& a.sel_pane == b.sel_pane
    &&& a.editor_height == b.editor_height
    &&& a.editor_width == b.editor_width
    &&& a.preview_height == b.preview_height
    &&& a.preview_width == b.preview_width
    &&& a.preview_theme == b.preview_theme
    &&& a.cached_rev == b.cached_rev
    &&& a.cache_width == b.cache_width
    &&& a.preview_content_height == b.preview_content_height
}


/// The column where a click `cells` columns into a row lands, walking the
/// characters from `j`: it stops at the character whose left half (at least
/// one cell) holds the click.
pub open spec fn click_walk(cs: Seq<char>, j: int, end: int, used: int, cells: int) -> int
    decreases end - j,
{
    if j >= end || j < 0 || j >= cs.len() {
        j
    } else {
        let w = cw(cs[j]);
        let h = if w / 2 > 1 { w / 2 } else { 1 };
        if used + h > cells {
            j
        } else {
            click_walk(cs, j + 1, end, used + w, cells)
        }
    }
}

pub open spec fn sat_sub(a: int, b: int) -> int {
    if a > b { a - b } else { 0 }
}

/// The (line, column) that a click at screen (`column`, `row`) selects.
pub open spec fn click_target(
    m: BufModel,
    width: int,
    ei_x: int,
    ei_y: int,
    scroll: int,
    column: int,
    row: int,
) -> Option<(int, int)> {
    let n = m.lines.len() as int;
    let g = gutter_of(n);
    let tw = avail_of(width, n);
    let drow = sat_sub(row, ei_y) + scroll;
    match scan_rows(m.lines, tw, 0, 0, drow) {
        None => None,
        Some((i, cur)) => {
            let cs = m.lines[i];
            let s = segs(cs, tw);
            let seg = if drow - cur < s.len() { s[drow - cur] } else { (0, 0) };
            let cells = sat_sub(sat_sub(column, ei_x), g);
            let end = min_int(seg.0 + seg.1, cs.len() as int);
            let col = click_walk(cs, seg.0, end, 0, cells);
            Some((i, min_int(col, cs.len() as int)))
        },
    }
}

/// Index of the first character at or after `i` that is not whitespace.
pub open spec fn ws_end(cs: Seq<char>, i: int) -> int
    decreases cs.len() - i,
{
    if 0 <= i < cs.len() && white(cs[i]) { ws_end(cs, i + 1) } else { i }
}

/// Index of the first character at or after `i` that is not `#`.
pub open spec fn hash_end(cs: Seq<char>, i: int) -> int
    decreases cs.len() - i,
{
    if 0 <= i < cs.len() && cs[i] == '#' { hash_end(cs, i + 1) } else { i }
}

/// A heading line: after leading whitespace, `#`s (level, at most 6), then
/// the title with leading whitespace removed.
pub open spec fn heading_of(cs: Seq<char>) -> Option<(int, Seq<char>)> {
    let t0 = ws_end(cs, 0);
    if t0 < cs.len() && cs[t0] == '#' {
        let k = hash_end(cs, t0) - t0;
        let level = if k < 6 { k } else { 6 };
        Some((level, cs.subrange(ws_end(cs, t0 + level), cs.len() as int)))
    } else {
        None
    }
}

/// A code fence line: three backquotes after leading whitespace.
pub open spec fn is_fence(cs: Seq<char>) -> bool {
    let t0 = ws_end(cs, 0);
    &&& t0 + 3 <= cs.len()
    &&& cs[t0] == '`'
    &&& cs[t0 + 1] == '`'
    &&& cs[t0 + 2] == '`'
}

/// Whether line `k` starts inside a fenced code block: an odd number of fence
/// lines come before it.
pub open spec fn fenced_before(ls: Seq<Seq<char>>, k: int) -> bool
    decreases k,
{
    if k <= 0 { false } else { fenced_before(ls, k - 1) != is_fence(ls[k - 1]) }
}

/// (line index, level, title) of every heading among the first `k` lines;
/// fence lines and the lines inside fenced code are not headings.
pub open spec fn headings_upto(ls: Seq<Seq<char>>, k: int) -> Seq<(int, int, Seq<char>)>
    decreases k,
{
    if k <= 0 {
        Seq::empty()
    } else {
        let prev = headings_upto(ls, k - 1);
        if fenced_before(ls, k - 1) || is_fence(ls[k - 1]) {
            prev
        } else {
            match heading_of(ls[k - 1]) {
                Some((lv, t)) => prev.push((k - 1, lv, t)),
                None => prev,
            }
        }
    }
}

/// First position at or after `k` where `q` occurs in `h`.
pub open spec fn match_from(h: Seq<char>, q: Seq<char>, k: int) -> Option<int>
    decreases h.len() - k,
{
    if k < 0 || k + q.len() > h.len() {
        None
    } else if h.subrange(k, k + q.len()) == q {
        Some(k)
    } else if k >= h.len() {
        None
    } else {
        match_from(h, q, k + 1)
    }
}

/// The line visited at `step` of a search from line `start` among `n` lines.
pub open spec fn probe(start: int, n: int, forward: bool, step: int) -> int {
    if forward { (start + step + 1) % n } else { (start + n - step - 1) % n }
}

/// The first line (from `step` on) whose lowercase holds `q`, with the
/// character index of the match in the lowercased line, clamped to the
/// line's length.
pub open spec fn search_from(ls: Seq<Seq<char>>, q: Seq<char>, start: int, forward: bool, step: int) -> Option<
    (int, int),
>
    decreases ls.len() - step,
{
    let n = ls.len() as int;
    if step < 0 || step >= n {
        None
    } else {
        let i = probe(start, n, forward, step);
        let h = lower(ls[i]);
        match match_from(h, q, 0) {
            Some(k) => Some((i, min_int(k, ls[i].len() as int))),
            None => search_from(ls, q, start, forward, step + 1),
        }
    }
}


pub proof fn lemma_headings_lines(ls: Seq<Seq<char>>, k: int)
    requires
        0 <= k <= ls.len(),
    ensures
        forall|j: int| 0 <= j < headings_upto(ls, k).len() ==> 0 <= #[trigger] headings_upto(ls, k)[j].0 < k,
    decreases k,
{
    if k > 0 {
        lemma_headings_lines(ls, k - 1);
        let prev = headings_upto(ls, k - 1);
        let cur = headings_upto(ls, k);
        assert forall|j: int| 0 <= j < cur.len() implies 0 <= #[trigger] cur[j].0 < k by {
            if j < prev.len() {
                assert(cur[j] == prev[j]);
            }
        }
    }
}

pub proof fn lemma_match_from(h: Seq<char>, q: Seq<char>, k0: int)
    ensures
        match_from(h, q, k0) matches Some(k) ==> k0 <= k && k + q.len() <= h.len(),
    decreases h.len() - k0,
{
    if !(k0 < 0 || k0 + q.len() > h.len()) && h.subrange(k0, k0 + q.len()) != q && k0 < h.len() {
        lemma_match_from(h, q, k0 + 1);
    }
}

/// First position where `q` occurs in `h`.
pub(crate) fn find_chars(h: &Vec<char>, q: &Vec<char>) -> (r: Option<usize>)
    ensures
        match r {
            Some(k) => match_from(h@, q@, 0) == Some(k as int) && k + q@.len() <= h@.len(),
            None => match_from(h@, q@, 0) is None,
        },
{
    if q.len() > h.len() {
        return None;
    }
    let hl = h.len();
    let last = hl - q.len();
    let mut k: usize = 0;
    while k <= last
        invariant
            hl == h@.len(),
            last + q@.len() == h@.len(),
            k <= last + 1,
            match_from(h@, q@, k as int) == match_from(h@, q@, 0),
        decreases last + 1 - k,
    {
        let mut j: usize = 0;
        let mut same = true;
        while j < q.len()
            invariant
                j <= q@.len(),
                k <= last,
                hl == h@.len(),
                last + q@.len() == h@.len(),
                same <==> (forall|t: int| 0 <= t < j ==> h@[k + t] == q@[t]),
            decreases q.len() - j,
        {
            if h[k + j] != q[j] {
                same = false;
            }
            j += 1;
        }
        proof {
            if same {
                assert(h@.subrange(k as int, k + q@.len()) =~= q@);
            } else {
                if h@.subrange(k as int, k + q@.len()) == q@ {
                    assert forall|t: int| 0 <= t < q@.len() implies h@[k + t] == q@[t] by {
                        assert(h@.subrange(k as int, k + q@.len())[t] == h@[k + t]);
                    }
                }
            }
        }
        if same {
            return Some(k);
        }
        if k == last {
            proof {
                assert(match_from(h@, q@, k + 1) is None);
            }
            return None;
        }
        k += 1;
    }
    None
}

pub proof fn lemma_utf8_len_nonneg(s: Seq<char>)
    ensures
        utf8_len(s) >= 0,
    decreases s.len(),
{
    if s.len() > 0 {
        lemma_utf8_len_nonneg(s.drop_last());
    }
}

/// Walk a row's characters from `start` to where a click `cells` columns in lands.
fn click_column(chars: &Vec<char>, start: usize, end: usize, cells: usize) -> (col: usize)
    requires
        start <= end <= chars@.len() < usize::MAX / 8,
    ensures
        col == click_walk(chars@, start as int, end as int, 0, cells as int),
        start <= col <= end,
{
    let mut col = start;
    let mut used: usize = 0;
    while col < end
        invariant
            start <= col <= end <= chars@.len() < usize::MAX / 8,
            used <= 3 * (col - start),
            click_walk(chars@, col as int, end as int, used as int, cells as int) == click_walk(
                chars@,
                start as int,
                end as int,
                0,
                cells as int,
            ),
        decreases end - col,
    {
        let w = char_cells(chars[col]);
        let h = if w / 2 > 1 { w / 2 } else { 1 };
        if used + h > cells {
            return col;
        }
        used += w;
        col += 1;
    }
    col
}

/// `b` is `a` with status `msg`, not an error.
pub open spec fn status_set(a: App, b: App, msg: Seq<char>) -> bool {
    &&& b.status@ == msg
    &&& !b.status_is_error
    &&& b == (App {
        status: b.status,
        status_is_error: false,
        ..a
    })
}

/// `b` is `a` with status `msg`, shown as an error.
pub open spec fn error_set(a: App, b: App, msg: Seq<char>) -> bool {
    &&& b.status@ == msg
    &&& b.status_is_error
    &&& b == (App { status: b.status, status_is_error: true, ..a })
}

/// `b` is `a` with the focus moved to the other pane, and its status.
pub open spec fn focus_switched(a: App, b: App) -> bool {
    &&& b.focus == (if a.focus == Focus::Editor {
        Focus::Preview
    } else {
        Focus::Editor
    })
    &&& b.status@ == (if b.focus == Focus::Editor {
        "edit"@
    } else {
        "preview (j/k to scroll)"@
    })
    &&& b == (App {
        focus: b.focus,
        status: b.status,
        status_is_error: false,
        ..a
    })
}

/// `b` is `a` with the next color theme and its code theme.
pub open spec fn theme_cycled(a: App, b: App) -> bool {
    &&& b.theme == a.theme.next()
    &&& b.preview_theme@ == b.theme.code_theme_of()
    &&& b.status@ == "theme: "@ + b.theme.name_of()
    &&& b == (App {
        theme: b.theme,
        preview_theme: b.preview_theme,
        cached_rev: u64::MAX,
        status: b.status,
        status_is_error: false,
        ..a
    })
}

/// `b` is `a` with soft wrap turned over.
pub open spec fn wrap_toggled(a: App, b: App) -> bool {
    &&& b.wrap == !a.wrap
    &&& b.status@ == (if b.wrap { "wrap: on"@ } else { "wrap: off"@ })
    &&& b == (App {
        wrap: b.wrap,
        cache_width: 0,
        status: b.status,
        status_is_error: false,
        ..a
    })
}

/// `b` is `a` scrolled just enough to show the cursor.
pub open spec fn cursor_shown(a: App, b: App) -> bool {
    &&& b.editor_scroll == scroll_to(
        a.editor_scroll as int,
        a.editor_height as int,
        a.cursor_row_of().0,
    )
    &&& b == (App { editor_scroll: b.editor_scroll, ..a })
}

/// `b` is `a` with the cursor at the start of line `n` (1-based, clamped), shown.
pub open spec fn went_to_line(a: App, b: App, n: int) -> bool {
    &&& b.buf@ == (BufModel {
        line: min_int(sat_sub(n as int, 1), a.buf@.lines.len() - 1),
        col: 0,
        ..a.buf@
    })
    &&& b.editor_scroll == scroll_to(
        a.editor_scroll as int,
        a.editor_height as int,
        cursor_row(b.buf@, a.wrap, a.editor_width as int).0,
    )
    &&& b.status@ == "→ line "@ + decimal((b.buf@.line + 1) as nat)
    &&& !b.status_is_error
    &&& same_except_view(b, a)
}

/// `b` is `a` with the cursor one display row up.
pub open spec fn moved_up(a: App, b: App) -> bool {
    &&& b.buf@ == display_up_of(a.buf@, a.wrap, a.editor_width as int)
    &&& b == (App { buf: b.buf, ..a })
}

/// `b` is `a` with the cursor one display row down.
pub open spec fn moved_down(a: App, b: App) -> bool {
    &&& b.buf@ == display_down_of(a.buf@, a.wrap, a.editor_width as int)
    &&& b == (App { buf: b.buf, ..a })
}

/// `b` is `a` with the cursor a page of display rows up.
pub open spec fn paged_up(a: App, b: App) -> bool {
    &&& b.buf@ == repeat_up(
        a.buf@,
        a.wrap,
        a.editor_width as int,
        sat_sub(a.editor_height as int, 1) as nat,
    )
    &&& b == (App { buf: b.buf, ..a })
}

/// `b` is `a` with the cursor a page of display rows down.
pub open spec fn paged_down(a: App, b: App) -> bool {
    &&& b.buf@ == repeat_down(
        a.buf@,
        a.wrap,
        a.editor_width as int,
        sat_sub(a.editor_height as int, 1) as nat,
    )
    &&& b == (App { buf: b.buf, ..a })
}

/// `b` is `a` after a click at (`column`, `row`) in the editor pane.
pub open spec fn clicked(a: App, b: App, column: int, row: int) -> bool {
    &&& match click_target(
        a.buf@,
        a.editor_width as int,
        a.ei_x as int,
        a.ei_y as int,
        a.editor_scroll as int,
        column as int,
        row as int,
    ) {
        Some((l, c)) => {
            &&& b.buf@ == (BufModel { line: l, col: c, ..a.buf@ })
            &&& b.editor_scroll == scroll_to(
                a.editor_scroll as int,
                a.editor_height as int,
                cursor_row(b.buf@, a.wrap, a.editor_width as int).0,
            )
            &&& b == (App {
                buf: b.buf,
                editor_scroll: b.editor_scroll,
                ..a
            })
        },
        None => b == a,
    }
}

/// `b` is `a` with the next heading of the outline selected.
pub open spec fn outline_went_down(a: App, b: App) -> bool {
    &&& b.outline_sel == (if headings_upto(
        a.buf@.lines,
        a.buf@.lines.len() as int,
    ).len() > 0 {
        min_int(
            a.outline_sel + 1,
            headings_upto(a.buf@.lines, a.buf@.lines.len() as int).len() - 1,
        )
    } else {
        a.outline_sel as int
    })
    &&& b == (App { outline_sel: b.outline_sel, ..a })
}

/// `b` is `a` with the previous heading of the outline selected.
pub open spec fn outline_went_up(a: App, b: App) -> bool {
    &&& b.outline_sel == sat_sub(a.outline_sel as int, 1)
    &&& b == (App { outline_sel: b.outline_sel, ..a })
}

/// `b` is `a` after jumping to the selected heading.
pub open spec fn outline_jumped(a: App, b: App) -> bool {
    &&& ({
        let hs = headings_upto(a.buf@.lines, a.buf@.lines.len() as int);
        if a.outline_sel < hs.len() {
            &&& b.buf@ == (BufModel {
                line: min_int(hs[a.outline_sel as int].0, a.buf@.lines.len() - 1),
                col: 0,
                ..a.buf@
            })
            &&& b.status@ == "→ line "@ + decimal((b.buf@.line + 1) as nat)
            &&& !b.outline_open
            &&& b.editor_scroll == scroll_to(
                a.editor_scroll as int,
                a.editor_height as int,
                cursor_row(b.buf@, a.wrap, a.editor_width as int).0,
            )
            &&& !b.status_is_error
            &&& same_except_view(b, App { outline_open: false, ..a })
        } else {
            b == a
        }
    })
}

/// `b` is `a` after searching for `query` from the cursor line; `found` tells whether a line matched.
pub open spec fn found_next(a: App, b: App, query: Seq<char>, forward: bool, found: bool) -> bool {
    &&& query.len() == 0 ==> b == a && !found
    &&& query.len() > 0 ==> match search_from(
        a.buf@.lines,
        lower(query),
        a.buf@.line,
        forward,
        0,
    ) {
        Some((l, c)) => {
            &&& found
            &&& b.buf@ == (BufModel { line: l, col: c, ..a.buf@ })
            &&& b.editor_scroll == scroll_to(
                a.editor_scroll as int,
                a.editor_height as int,
                cursor_row(b.buf@, a.wrap, a.editor_width as int).0,
            )
            &&& b.status@ == "match at line "@ + decimal((l + 1) as nat)
            &&& !b.status_is_error
            &&& same_except_view(b, a)
        },
        None => {
            &&& !found
            &&& b.status@ == "no match"@
            &&& b == (App {
                status: b.status,
                status_is_error: false,
                ..a
            })
        },
    }
}

impl App {
    /// The state's invariant: a well-formed buffer whose size and the editor
    /// scroll and height fit comfortably in `usize` arithmetic.
    pub open spec fn ok(self) -> bool {
        &&& self.buf@.wf()
        &&& size_upto(self.buf@.lines, self.buf@.lines.len() as int) < usize::MAX / 8
        &&& self.editor_scroll <= usize::MAX / 2
        &&& self.editor_height <= usize::MAX / 2
    }

    pub open spec fn cursor_row_of(self) -> (int, int) {
        cursor_row(self.buf@, self.wrap, self.editor_width as int)
    }

    pub fn new(buf: Buffer, title: String) -> (a: Self)
        ensures
            a.buf == buf,
            a.title == title,
            a.status@ == title@ + " — terra"@,
            a.focus == Focus::Editor,
            !a.should_quit && !a.status_is_error && a.wrap && !a.show_help && a.sync_preview,
            a.theme == Theme::Dark,
            !a.outline_open && a.outline_sel == 0 && !a.search_open && !a.in_command,
            a.search_query@.len() == 0 && a.last_query@.len() == 0 && a.command@.len() == 0,
            a.editor_scroll == 0 && a.preview_scroll == 0,
            a.ei_x == 0 && a.ei_y == 0 && a.ei_w == 0 && a.pi_x == 0 && a.pi_y == 0 && a.pi_w == 0,
            a.sel_start is None && a.sel_end is None && a.sel_pane == 0,
            a.editor_height == 0 && a.editor_width == 0 && a.preview_height == 0
                && a.preview_width == 0,
            a.preview_theme@ == "base16-ocean.dark"@,
            a.cached_rev == u64::MAX && a.cache_width == 0 && a.preview_content_height == 0,
            a.cached_lines@.len() == 0,
    {
        let mut status = title.clone();
        status.append(" — terra");
        App {
            buf,
            title,
            focus: Focus::Editor,
            should_quit: false,
            status,
            status_is_error: false,
            theme: Theme::Dark,
            wrap: true,
            show_help: false,
            sync_preview: true,
            outline_open: false,
            outline_sel: 0,
            search_open: false,
            search_query: String::new(),
            last_query: String::new(),
            command: String::new(),
            in_command: false,
            editor_scroll: 0,
            preview_scroll: 0,
            ei_x: 0,
            ei_y: 0,
            ei_w: 0,
            pi_x: 0,
            pi_y: 0,
            pi_w: 0,
            sel_start: None,
            sel_end: None,
            sel_pane: 0,
            editor_height: 0,
            editor_width: 0,
            preview_height: 0,
            preview_width: 0,
            preview_theme: String::from_str("base16-ocean.dark"),
            cached_rev: u64::MAX,
            cache_width: 0,
            preview_content_height: 0,
            syntaxes: Syntaxes::load(),
            cached_lines: Vec::new(),
        }
    }

    pub fn set_status(&mut self, msg: &str)
        ensures
            status_set(*old(self), *final(self), msg@),
    {
        self.status = String::from_str(msg);
        self.status_is_error = false;
    }

    pub fn set_error(&mut self, msg: &str)
        ensures
            error_set(*old(self), *final(self), msg@),
    {
        self.status = String::from_str(msg);
        self.status_is_error = true;
    }

    /// Render the preview's lines again when the buffer changed since the
    /// last time: the lines of the text with the preview theme, the
    /// buffer's revision recorded and the wrap width reset. Returns whether
    /// it did.
    pub fn ensure_preview(&mut self) -> (stale: bool)
        ensures
            stale == (old(self).cached_rev != old(self).buf@.revision),
            stale ==> *final(self) == (App {
                cached_rev: old(self).buf@.revision,
                cache_width: 0,
                cached_lines: final(self).cached_lines,
                ..*old(self)
            }),
            stale ==> lines_view(final(self).cached_lines@) == lines_of_events(
                markdown_events(old(self).buf@.text(), true, true, true, true),
                old(self).preview_theme@,
            ),
            !stale ==> *final(self) == *old(self),
    {
        if self.cached_rev != self.buf.revision {
            let text = self.buf.text();
            self.cached_lines = render_lines(text.as_str(), &self.syntaxes, self.preview_theme.as_str());
            self.cached_rev = self.buf.revision;
            self.cache_width = 0;  // force rewrap
            true
        } else {
            false
        }
    }

    pub fn switch_focus(&mut self)
        ensures
            focus_switched(*old(self), *final(self)),
    {
        self.focus = match self.focus {
            Focus::Editor => Focus::Preview,
            Focus::Preview => Focus::Editor,
        };
        self.set_status(
            match self.focus {
                Focus::Editor => "edit",
                Focus::Preview => "preview (j/k to scroll)",
            },
        );
    }

    pub fn cycle_theme(&mut self)
        ensures
            theme_cycled(*old(self), *final(self)),
    {
        self.theme = match self.theme {
            Theme::Dark => Theme::Light,
            Theme::Light => Theme::Ghostly,
            Theme::Ghostly => Theme::Dark,
        };
        self.preview_theme = match self.theme {
            Theme::Dark => String::from_str("base16-ocean.dark"),
            Theme::Light => String::from_str("InspiredGitHub"),
            Theme::Ghostly => String::from_str("base16-eighties.dark"),
        };
        self.cached_rev = u64::MAX;  // force re-render
        let mut msg = String::from_str("theme: ");
        msg.append(self.theme.name());
        self.set_status(msg.as_str());
    }

    pub fn toggle_wrap(&mut self)
        ensures
            wrap_toggled(*old(self), *final(self)),
    {
        self.wrap = !self.wrap;
        self.cache_width = 0;
        self.set_status(
            if self.wrap {
                "wrap: on"
            } else {
                "wrap: off"
            },
        );
    }

    pub fn gutter_width(&self) -> (g: usize)
        ensures
            g == gutter_of(self.buf@.lines.len() as int),
            3 <= g <= 21,
    {
        let n = self.buf.line_count();
        let digits = decimal_chars(n as u64).len();
        (if digits < 2 { 2 } else { digits }) + 1
    }

    fn avail(&self) -> (a: usize)
        ensures
            a == avail_of(self.editor_width as int, self.buf@.lines.len() as int),
            a >= 1,
    {
        let g = self.gutter_width();
        let a = if self.editor_width > g + 1 { self.editor_width - (g + 1) } else { 0 };
        if a < 1 { 1 } else { a }
    }

    pub fn line_len_public(&self, i: usize) -> (n: usize)
        ensures
            n == self.buf@.len_of(i as int),
    {
        self.buf.line_chars(i).len()
    }

    /// Returns (display_row, x_cell) of the cursor in the editor.
    pub fn editor_cursor_display_row(&self) -> (r: (usize, usize))
        requires
            self.ok(),
        ensures
            (r.0 as int, r.1 as int) == self.cursor_row_of(),
            r.0 < usize::MAX / 8,
            self.wrap ==> r.1 <= 3 * (usize::MAX / 8),
    {
        let ghost m = self.buf@;
        let avail = self.avail();
        let mut row: usize = 0;
        let mut i: usize = 0;
        proof {
            lemma_size_mono(m.lines, m.line, m.lines.len() as int);
        }
        while i < self.buf.cursor_line
            invariant
                m == self.buf@,
                self.ok(),
                i <= m.line,
                row == rows_before(m.lines, i as int, avail as int, self.wrap),
                avail == avail_of(self.editor_width as int, m.lines.len() as int),
            decreases self.buf.cursor_line - i,
        {
            proof {
                lemma_rows_before_bound(m.lines, i as int + 1, avail as int, self.wrap);
                lemma_size_mono(m.lines, i as int + 1, m.lines.len() as int);
                lemma_size_mono(m.lines, i as int, m.lines.len() as int);
            }
            let chars = self.buf.line_chars(i);
            row += if self.wrap {
                rows_for_line(chars.as_slice(), avail)
            } else {
                1
            };
            i += 1;
        }
        proof {
            lemma_rows_before_bound(m.lines, m.line, avail as int, self.wrap);
            lemma_size_mono(m.lines, m.line, m.lines.len() as int);
            lemma_segs_len(m.lines[m.line], avail as int);
        }
        let chars = self.buf.line_chars(self.buf.cursor_line);
        if self.wrap {
            let (r, x) = locate_in_wrapped(chars.as_slice(), self.buf.cursor_col, avail);
            (row + r, x)
        } else {
            let x = if self.buf.cursor_col <= self.editor_width {
                self.buf.cursor_col
            } else {
                self.editor_width
            };
            (row, x)
        }
    }

    /// Scroll editor so cursor is visible.
    pub fn ensure_cursor_visible(&mut self)
        requires
            old(self).ok(),
        ensures
            cursor_shown(*old(self), *final(self)),
            final(self).ok(),
    {
        let (row, _) = self.editor_cursor_display_row();
        if row < self.editor_scroll {
            self.editor_scroll = row;
        } else if row >= self.editor_scroll + self.editor_height {
            self.editor_scroll = row + 1 - self.editor_height;
        }
    }

    /// Move cursor to a specific line (1-indexed).
    pub fn goto_line(&mut self, n: usize)
        requires
            old(self).ok(),
        ensures
            went_to_line(*old(self), *final(self), n as int),
            final(self).ok(),
    {
        if self.buf.line_count() == 0 {
            return;
        }
        let last = self.buf.line_count() - 1;
        let target = if n > 0 { n - 1 } else { 0 };
        self.buf.cursor_line = if target <= last { target } else { last };
        self.buf.cursor_col = 0;
        self.ensure_cursor_visible();
        let mut msg = String::from_str("→ line ");
        let digits = decimal_chars((self.buf.cursor_line + 1) as u64);
        let d = crate::text::string_of(digits.as_slice(), 0, digits.len());
        proof {
            assert(digits@.subrange(0, digits@.len() as int) =~= digits@);
        }
        msg.append(d.as_str());
        self.set_status(msg.as_str());
    }

    /// Move the editor cursor up by one *display* row (handles wrap).
    #[verifier::rlimit(40)]
    pub fn display_up(&mut self)
        requires
            old(self).ok(),
        ensures
            moved_up(*old(self), *final(self)),
            final(self).ok(),
    {
        if !self.wrap {
            self.buf.up();
            return;
        }
        let (row, x) = self.editor_cursor_display_row();
        assert(x <= 3 * (usize::MAX / 8));
        if row == 0 {
            self.buf.line_start();
            return;
        }
        // find target logical line & col
        let ghost m = self.buf@;
        let avail = self.avail();
        let n = self.buf.line_count();
        let mut cur_row: usize = 0;
        let mut i: usize = 0;
        while i < n
            invariant
                m == self.buf@,
                *self == *old(self),
                self.ok(),
                self.wrap,
                n == m.lines.len(),
                i <= n,
                cur_row == rows_before(m.lines, i as int, avail as int, true),
                scan_rows(m.lines, avail as int, i as int, cur_row as int, row - 1) == scan_rows(
                    m.lines,
                    avail as int,
                    0,
                    0,
                    row - 1,
                ),
                row > 0,
                cur_row <= row - 1,
                avail == avail_of(self.editor_width as int, n as int),
                (row as int, x as int) == self.cursor_row_of(),
                row < usize::MAX / 8,
                x <= 3 * (usize::MAX / 8),
            decreases n - i,
        {
            proof {
                lemma_rows_before_bound(m.lines, i as int + 1, avail as int, true);
                lemma_size_mono(m.lines, i as int + 1, n as int);
                lemma_size_mono(m.lines, i as int, n as int);
                lemma_segs_len(m.lines[i as int], avail as int);
            }
            let chars = self.buf.line_chars(i);
            let nrows = rows_for_line(chars.as_slice(), avail);
            assert(rows_before(m.lines, i as int + 1, avail as int, true) == cur_row + nrows);
            assert(cur_row + nrows <= size_upto(m.lines, i as int + 1));
            if cur_row + nrows > row - 1 {
                // the row above lies in this line
                let within = row - 1 - cur_row;
                let segs = segments(chars.as_slice(), avail);
                let k = if within <= segs.len() - 1 { within } else { segs.len() - 1 };
                let seg = segs[k];
                proof {
                    let sv = segs@.map_values(|p: (usize, usize)| (p.0 as int, p.1 as int));
                    assert(sv[k as int] == (seg.0 as int, seg.1 as int));
                }
                let plen = chars.len();
                self.buf.cursor_line = i;
                let a = seg.0 + x;
                let b = seg.0 + seg.1;
                let c = if a <= b { a } else { b };
                self.buf.cursor_col = if c <= plen { c } else { plen };
                return;
            }
            cur_row += nrows;
            i += 1;
        }
    }

    pub fn display_down(&mut self)
        requires
            old(self).ok(),
        ensures
            moved_down(*old(self), *final(self)),
            final(self).ok(),
    {
        if !self.wrap {
            self.buf.down();
            return;
        }
        let (row, x) = self.editor_cursor_display_row();
        let ghost m = self.buf@;
        let avail = self.avail();
        let n = self.buf.line_count();
        let mut cur_row: usize = 0;
        let mut i: usize = 0;
        while i < n
            invariant
                m == self.buf@,
                *self == *old(self),
                self.ok(),
                self.wrap,
                n == m.lines.len(),
                i <= n,
                cur_row == rows_before(m.lines, i as int, avail as int, true),
                cur_row <= row,
                scan_rows(m.lines, avail as int, i as int, cur_row as int, row as int) == scan_rows(
                    m.lines,
                    avail as int,
                    0,
                    0,
                    row as int,
                ),
                avail == avail_of(self.editor_width as int, n as int),
                (row as int, x as int) == self.cursor_row_of(),
                row < usize::MAX / 8,
                x <= 3 * (usize::MAX / 8),
            decreases n - i,
        {
            proof {
                lemma_rows_before_bound(m.lines, i as int + 1, avail as int, true);
                lemma_size_mono(m.lines, i as int + 1, n as int);
                lemma_size_mono(m.lines, i as int, n as int);
                lemma_segs_len(m.lines[i as int], avail as int);
            }
            let chars = self.buf.line_chars(i);
            let nrows = rows_for_line(chars.as_slice(), avail);
            if cur_row <= row && cur_row + nrows > row {
                let within = row - cur_row;
                let segs = segments(chars.as_slice(), avail);
                if within + 1 < segs.len() {
                    let seg = segs[within + 1];
                    proof {
                        let sv = segs@.map_values(|p: (usize, usize)| (p.0 as int, p.1 as int));
                        assert(sv[within + 1] == (seg.0 as int, seg.1 as int));
                    }
                    self.buf.cursor_line = i;
                    let a = seg.0 + x;
                    let b = seg.0 + seg.1;
                    self.buf.cursor_col = if a <= b { a } else { b };
                    return;
                }
                // go to next line
                if i + 1 < n {
                    proof {
                        lemma_size_mono(m.lines, i as int + 1, n as int);
                    }
                    self.buf.cursor_line = i + 1;
                    let nl = self.buf.line_chars(i + 1).len();
                    self.buf.cursor_col = if x <= nl { x } else { nl };
                    return;
                }
                // the last line: nothing below
                return;
            }
            cur_row += nrows;
            i += 1;
        }
    }

    pub fn page_up(&mut self)
        requires
            old(self).ok(),
        ensures
            paged_up(*old(self), *final(self)),
            final(self).ok(),
    {
        let k = if self.editor_height > 0 { self.editor_height - 1 } else { 0 };
        let mut j: usize = 0;
        while j < k
            invariant
                j <= k,
                k == sat_sub(old(self).editor_height as int, 1),
                self.buf@ == repeat_up(old(self).buf@, old(self).wrap, old(self).editor_width as int, j as nat),
                *self == (App { buf: self.buf, ..*old(self) }),
                self.ok(),
            decreases k - j,
        {
            self.display_up();
            j += 1;
        }
    }

    pub fn page_down(&mut self)
        requires
            old(self).ok(),
        ensures
            paged_down(*old(self), *final(self)),
            final(self).ok(),
    {
        let k = if self.editor_height > 0 { self.editor_height - 1 } else { 0 };
        let mut j: usize = 0;
        while j < k
            invariant
                j <= k,
                k == sat_sub(old(self).editor_height as int, 1),
                self.buf@ == repeat_down(old(self).buf@, old(self).wrap, old(self).editor_width as int, j as nat),
                *self == (App { buf: self.buf, ..*old(self) }),
                self.ok(),
            decreases k - j,
        {
            self.display_down();
            j += 1;
        }
    }

    /// Position the cursor from a mouse click in the editor pane.
    pub fn click_editor(&mut self, column: u16, row: u16)
        requires
            old(self).ok(),
        ensures
            clicked(*old(self), *final(self), column as int, row as int),
            final(self).ok(),
    {
        let ghost m = self.buf@;
        let gutter = self.gutter_width();
        let text_w = self.avail();
        let r0 = row as usize;
        let y0 = self.ei_y as usize;
        let display_row = (if r0 > y0 { r0 - y0 } else { 0 }) + self.editor_scroll;
        // walk lines accumulating display rows
        let n = self.buf.line_count();
        let mut cur: usize = 0;
        let mut i: usize = 0;
        while i < n
            invariant
                m == self.buf@,
                *self == *old(self),
                self.ok(),
                n == m.lines.len(),
                i <= n,
                cur == rows_before(m.lines, i as int, text_w as int, true),
                cur <= display_row,
                scan_rows(m.lines, text_w as int, i as int, cur as int, display_row as int)
                    == scan_rows(m.lines, text_w as int, 0, 0, display_row as int),
                text_w == avail_of(self.editor_width as int, n as int),
                gutter == crate::app::gutter_of(n as int),
                display_row == sat_sub(row as int, self.ei_y as int) + self.editor_scroll,
            decreases n - i,
        {
            proof {
                lemma_rows_before_bound(m.lines, i as int + 1, text_w as int, true);
                lemma_size_mono(m.lines, i as int + 1, n as int);
                lemma_size_mono(m.lines, i as int, n as int);
                lemma_segs_len(m.lines[i as int], text_w as int);
            }
            let chars = self.buf.line_chars(i);
            let segs = segments(chars.as_slice(), text_w);
            let nrows = if segs.len() < 1 { 1 } else { segs.len() };
            assert(rows_before(m.lines, i as int + 1, text_w as int, true) == cur + nrows);
            if cur + nrows > display_row {
                let within = display_row - cur;
                let ghost sv = segs@.map_values(|p: (usize, usize)| (p.0 as int, p.1 as int));
                let seg = if within < segs.len() { segs[within] } else { (0, 0) };
                proof {
                    if within < segs.len() {
                        assert(sv[within as int] == (seg.0 as int, seg.1 as int));
                    }
                }
                // cells from segment start to click
                let cx = column as usize;
                let ex = self.ei_x as usize;
                let c1 = if cx > ex { cx - ex } else { 0 };
                let cells = if c1 > gutter { c1 - gutter } else { 0 };
                let e1 = seg.0 + seg.1;
                let end = if e1 <= chars.len() { e1 } else { chars.len() };
                let col = click_column(&chars, seg.0, end, cells);
                self.buf.cursor_line = i;
                let len = self.line_len_public(i);
                self.buf.cursor_col = if col <= len { col } else { len };
                self.ensure_cursor_visible();
                return;
            }
            cur += nrows;
            i += 1;
        }
    }

    /// Return (line_index, level, title) for every heading in the buffer.
    pub fn headings(&self) -> (out: Vec<(usize, usize, String)>)
        ensures
            out@.map_values(|h: (usize, usize, String)| (h.0 as int, h.1 as int, h.2@))
                == headings_upto(self.buf@.lines, self.buf@.lines.len() as int),
    {
        let mut out: Vec<(usize, usize, String)> = Vec::new();
        let n = self.buf.lines.len();
        let mut i: usize = 0;
        let mut in_fence = false;
        while i < n
            invariant
                i <= n == self.buf@.lines.len(),
                out@.map_values(|h: (usize, usize, String)| (h.0 as int, h.1 as int, h.2@))
                    == headings_upto(self.buf@.lines, i as int),
                in_fence == fenced_before(self.buf@.lines, i as int),
            decreases n - i,
        {
            let ghost prev = out@;
            let cs = chars_of(self.buf.lines[i].as_str());
            assert(cs@ == self.buf@.lines[i as int]);
            let mut t: usize = 0;
            while t < cs.len() && is_whitespace(cs[t])
                invariant
                    t <= cs@.len(),
                    ws_end(cs@, t as int) == ws_end(cs@, 0),
                decreases cs.len() - t,
            {
                t += 1;
            }
            let fence = cs.len() >= 3 && t <= cs.len() - 3 && cs[t] == '`' && cs[t + 1] == '`' && cs[t + 2] == '`';
            if !in_fence && !fence && t < cs.len() && cs[t] == '#' {
                let mut e = t;
                while e < cs.len() && cs[e] == '#'
                    invariant
                        t <= e <= cs@.len(),
                        hash_end(cs@, e as int) == hash_end(cs@, t as int),
                    decreases cs.len() - e,
                {
                    e += 1;
                }
                let k = e - t;
                let level = if k < 6 { k } else { 6 };
                if level > 0 {
                    let mut r = t + level;
                    while r < cs.len() && is_whitespace(cs[r])
                        invariant
                            t + level <= r <= cs@.len(),
                            ws_end(cs@, r as int) == ws_end(cs@, t + level),
                        decreases cs.len() - r,
                    {
                        r += 1;
                    }
                    let title = crate::text::string_of(cs.as_slice(), r, cs.len());
                    out.push((i, level, title));
                    proof {
                        assert(out@.map_values(|h: (usize, usize, String)| (h.0 as int, h.1 as int, h.2@))
                            =~= prev.map_values(|h: (usize, usize, String)| (h.0 as int, h.1 as int, h.2@)).push(
                            (i as int, level as int, title@),
                        ));
                    }
                }
            }
            in_fence = in_fence != fence;
            i += 1;
        }
        out
    }

    pub fn outline_down(&mut self)
        requires
            old(self).outline_sel < usize::MAX,
        ensures
            outline_went_down(*old(self), *final(self)),
    {
        let h = self.headings();
        proof {
            assert(h@.len() == headings_upto(self.buf@.lines, self.buf@.lines.len() as int).len());
        }
        if h.len() > 0 {
            let next = self.outline_sel + 1;
            self.outline_sel = if next <= h.len() - 1 { next } else { h.len() - 1 };
        }
    }

    pub fn outline_up(&mut self)
        ensures
            outline_went_up(*old(self), *final(self)),
    {
        self.outline_sel = if self.outline_sel > 0 { self.outline_sel - 1 } else { 0 };
    }

    pub fn outline_jump(&mut self)
        requires
            old(self).ok(),
        ensures
            outline_jumped(*old(self), *final(self)),
            final(self).ok(),
    {
        let h = self.headings();
        let ghost hs = h@.map_values(|h: (usize, usize, String)| (h.0 as int, h.1 as int, h.2@));
        let n = self.buf.line_count();
        if self.outline_sel < h.len() {
            let l = h[self.outline_sel].0;
            assert(hs[self.outline_sel as int].0 == l);
            assert(l < self.buf@.lines.len()) by {
                lemma_headings_lines(self.buf@.lines, self.buf@.lines.len() as int);
            }
            self.goto_line(l + 1);
            self.outline_open = false;
        }
    }

    /// Find next line containing `query` (case-insensitive) starting after
    /// the cursor; returns whether a line matched. The caller then follows
    /// the cursor with the preview (a floating-point proportion).
    pub fn find_next(&mut self, query: &str, forward: bool) -> (found: bool)
        requires
            old(self).ok(),
        ensures
            found_next(*old(self), *final(self), query@, forward, found),
            final(self).ok(),
    {
        if query.is_empty() {
            return false;
        }
        let q = chars_of(to_lowercase(query).as_str());
        let n = self.buf.line_count();
        proof {
            crate::wrap::lemma_size_ge_len(self.buf@.lines, n as int);
        }
        let start = self.buf.cursor_line;
        let ghost m = self.buf@;
        let mut step: usize = 0;
        while step < n
            invariant
                m == self.buf@,
                *self == *old(self),
                self.ok(),
                n == m.lines.len(),
                start == m.line,
                start < n,
                n < usize::MAX / 8,
                step <= n,
                q@ == lower(query@),
                query@.len() > 0,
                search_from(m.lines, q@, start as int, forward, step as int) == search_from(
                    m.lines,
                    q@,
                    start as int,
                    forward,
                    0,
                ),
            decreases n - step,
        {
            let i = if forward {
                (start + step + 1) % n
            } else {
                (start + n - step - 1) % n
            };
            let h = chars_of(to_lowercase(self.buf.lines[i].as_str()).as_str());
            match find_chars(&h, &q) {
                Some(k) => {
                    let len = self.buf.line_len(i);
                    let col = if k <= len { k } else { len };
                    self.buf.cursor_line = i;
                    self.buf.cursor_col = col;
                    self.ensure_cursor_visible();
                    let mut msg = String::from_str("match at line ");
                    let digits = decimal_chars((i + 1) as u64);
                    let d = crate::text::string_of(digits.as_slice(), 0, digits.len());
                    proof {
                        assert(digits@.subrange(0, digits@.len() as int) =~= digits@);
                    }
                    msg.append(d.as_str());
                    self.set_status(msg.as_str());
                    return true;
                },
                None => {},
            }
            step += 1;
        }
        self.set_status("no match");
        false
    }
}


proof fn lemma_mod_twice(x: int, n: int)
    requires
        n > 0,
        0 <= x < 2 * n,
    ensures
        x % n == (if x < n { x } else { x - n }),
{
    if x < n {
        vstd::arithmetic::div_mod::lemma_small_mod(x as nat, n as nat);
    } else {
        vstd::arithmetic::div_mod::lemma_small_mod((x - n) as nat, n as nat);
        vstd::arithmetic::div_mod::lemma_mod_add_multiples_vanish(x - n, n);
    }
}

/// The step at which a search from line `start` among `n` lines probes
/// line `j`.
pub open spec fn step_to(start: int, n: int, forward: bool, j: int) -> int {
    if forward {
        if j > start { j - start - 1 } else { j + n - start - 1 }
    } else {
        if j < start { start - 1 - j } else { start - 1 - j + n }
    }
}

/// The probes of a search visit each of the `n` lines once, in order away
/// from the cursor's line: forward the line after it first, backward the
/// line before it first, wrapping around; the cursor's own line comes last
/// (step `n - 1`) and at no other step.
pub proof fn law_probe_order(start: int, n: int, forward: bool)
    requires
        0 <= start < n,
    ensures
        forall|step: int| 0 <= step < n ==> 0 <= #[trigger] probe(start, n, forward, step) < n,
        forall|step: int| 0 <= step < n ==> (#[trigger] probe(start, n, forward, step) == start <==> step == n - 1),
        forward ==> probe(start, n, forward, 0) == (if start + 1 < n { start + 1 } else { 0 }),
        !forward ==> probe(start, n, forward, 0) == (if start > 0 { start - 1 } else { n - 1 }),
        forall|step: int| 0 <= step < n - 1 ==> #[trigger] probe(start, n, forward, step + 1) == (if forward {
            if probe(start, n, forward, step) + 1 < n { probe(start, n, forward, step) + 1 } else { 0 }
        } else {
            if probe(start, n, forward, step) > 0 { probe(start, n, forward, step) - 1 } else { n - 1 }
        }),
        forall|s1: int, s2: int| 0 <= s1 < s2 < n ==> #[trigger] probe(start, n, forward, s1) != #[trigger] probe(start, n, forward, s2),
        forall|j: int| 0 <= j < n && j != start ==> 0 <= #[trigger] step_to(start, n, forward, j) < n - 1 && probe(
            start,
            n,
            forward,
            step_to(start, n, forward, j),
        ) == j,
{
    assert forall|step: int| 0 <= step < n implies {
        &&& 0 <= #[trigger] probe(start, n, forward, step) < n
        &&& probe(start, n, forward, step) == (if forward {
            if start + step + 1 < n { start + step + 1 } else { start + step + 1 - n }
        } else {
            if start - step - 1 >= 0 { start - step - 1 } else { start - step - 1 + n }
        })
    } by {
        if forward {
            lemma_mod_twice(start + step + 1, n);
        } else {
            lemma_mod_twice(start + n - step - 1, n);
        }
    }
    assert forall|j: int| 0 <= j < n && j != start implies 0 <= #[trigger] step_to(start, n, forward, j) < n - 1 && probe(
        start,
        n,
        forward,
        step_to(start, n, forward, j),
    ) == j by {
        let step = step_to(start, n, forward, j);
        assert(0 <= step < n - 1);
        assert(probe(start, n, forward, step) == j);
    }
    assert forall|step: int| 0 <= step < n - 1 implies #[trigger] probe(start, n, forward, step + 1) == (if forward {
        if probe(start, n, forward, step) + 1 < n { probe(start, n, forward, step) + 1 } else { 0 }
    } else {
        if probe(start, n, forward, step) > 0 { probe(start, n, forward, step) - 1 } else { n - 1 }
    }) by {
        assert(0 <= probe(start, n, forward, step) < n);
        assert(0 <= probe(start, n, forward, step + 1) < n);
    }
    assert forall|s1: int, s2: int| 0 <= s1 < s2 < n implies #[trigger] probe(start, n, forward, s1) != #[trigger] probe(start, n, forward, s2) by {
        assert(0 <= probe(start, n, forward, s1) < n);
        assert(0 <= probe(start, n, forward, s2) < n);
    }
}

/// What a search from `step` on finds: a line that some probe at or after
/// `step` visits, where every probe before it found nothing.
proof fn lemma_search_found(ls: Seq<Seq<char>>, q: Seq<char>, start: int, forward: bool, step: int)
    requires
        0 <= step,
    ensures
        search_from(ls, q, start, forward, step) matches Some((i, c)) ==> exists|st: int| step <= st < ls.len() && #[trigger] probe(start, ls.len() as int, forward, st) == i
            && match_from(lower(ls[i]), q, 0) is Some
            && forall|s3: int| step <= s3 < st ==> #[trigger] match_from(lower(ls[probe(start, ls.len() as int, forward, s3)]), q, 0) is None,
    decreases ls.len() - step,
{
    if step < ls.len() {
        lemma_search_found(ls, q, start, forward, step + 1);
        let i = probe(start, ls.len() as int, forward, step);
        if match_from(lower(ls[i]), q, 0) is None {
            if let Some((i2, c)) = search_from(ls, q, start, forward, step) {
                let st = choose|st: int| step + 1 <= st < ls.len() && #[trigger] probe(start, ls.len() as int, forward, st) == i2
                    && match_from(lower(ls[i2]), q, 0) is Some
                    && forall|s3: int| step + 1 <= s3 < st ==> #[trigger] match_from(lower(ls[probe(start, ls.len() as int, forward, s3)]), q, 0) is None;
                assert forall|s3: int| step <= s3 < st implies #[trigger] match_from(lower(ls[probe(start, ls.len() as int, forward, s3)]), q, 0) is None by {
                    if s3 > step {
                    }
                }
            }
        }
    }
}

/// A search (`n` or `N`) that stays on the cursor's line found no match on
/// any other line: every other line is probed first.
pub proof fn law_search_leaves_line(ls: Seq<Seq<char>>, q: Seq<char>, start: int, forward: bool)
    requires
        0 <= start < ls.len(),
    ensures
        search_from(ls, q, start, forward, 0) matches Some((i, c)) && i == start ==> forall|j: int|
            0 <= j < ls.len() && j != start ==> #[trigger] match_from(lower(ls[j]), q, 0) is None,
{
    let n = ls.len() as int;
    lemma_search_found(ls, q, start, forward, 0);
    law_probe_order(start, n, forward);
    if let Some((i, c)) = search_from(ls, q, start, forward, 0) {
        if i == start {
            let st = choose|st: int| 0 <= st < n && #[trigger] probe(start, n, forward, st) == i
                && match_from(lower(ls[i]), q, 0) is Some
                && forall|s3: int| 0 <= s3 < st ==> #[trigger] match_from(lower(ls[probe(start, n, forward, s3)]), q, 0) is None;
            assert(st == n - 1);
            assert forall|j: int| 0 <= j < n && j != start implies #[trigger] match_from(lower(ls[j]), q, 0) is None by {
                let sj = step_to(start, n, forward, j);
                assert(0 <= sj < n - 1);
                assert(match_from(lower(ls[probe(start, n, forward, sj)]), q, 0) is None);
            }
        }
    }
}

} // verus!
