//! What a key press or a mouse event does to the editor state, and what the
//! terminal layer must do after it (save the file, follow the cursor with the
//! preview, copy text to the clipboard).

use vstd::prelude::*;
use crate::app::{clicked, cursor_shown, error_set, focus_switched, found_next, moved_down, moved_up, outline_jumped, outline_went_down, outline_went_up, paged_down, paged_up, search_from, status_set, theme_cycled, went_to_line, wrap_toggled, App, Focus};
use crate::buffer::{item_number, ordered_item, BufModel};
use crate::chars::{lower, to_lowercase};
use crate::num::{digits_value, is_digit};
use crate::text::{chars_of, eq_str, has_prefix, push_char, starts_with, string_of, trim, trim_chars};
use crate::wrap::size_upto;

verus! {

/// A key, as the terminal reports it.
#[derive(Clone, Copy, PartialEq, Eq, Structural, Debug)]
pub enum KeyCode {
    Char(char),
    Left,
    Right,
    Up,
    Down,
    Home,
    End,
    PageUp,
    PageDown,
    Backspace,
    Delete,
    Enter,
    Tab,
    Esc,
    Other,
}

/// A key press with the state of the Control and Shift modifiers.
#[derive(Clone, Copy, PartialEq, Eq, Structural, Debug)]
pub struct Key {
    pub code: KeyCode,
    pub ctrl: bool,
    pub shift: bool,
}

/// What the terminal layer does after an event.
#[derive(Debug)]
pub enum Effect {
    /// Nothing more.
    Nothing,
    /// Write the buffer to its file and report the outcome.
    Save,
    /// A search moved the cursor: the preview follows it.
    Follow,
    /// Put this text on the clipboard.
    Copy(String),
}

/// The state may take a key: the editor invariant, the cursor within its
/// line, and room in `usize` for the line, the outline selection and the
/// preview scroll to grow.
pub open spec fn key_ready(a: App) -> bool {
    &&& a.ok()
    &&& a.buf@.cursor_in_line()
    &&& a.buf@.lines[a.buf@.line].len() + 64 < usize::MAX
    &&& (ordered_item(a.buf@.lines[a.buf@.line]) ==> item_number(a.buf@.lines[a.buf@.line]) < u64::MAX)
    &&& a.outline_sel < usize::MAX
    &&& a.preview_scroll + a.preview_height < usize::MAX
}

/// `b` is `a` with buffer model `m`.
pub open spec fn with_buf(a: App, b: App, m: BufModel) -> bool {
    b.buf@ == m && b == (App { buf: b.buf, ..a })
}

/// `b` is `a` with buffer model `m`, scrolled to show the cursor when the
/// new state keeps the editor invariant.
pub open spec fn with_buf_shown(a: App, b: App, m: BufModel) -> bool {
    let mid = App { buf: b.buf, ..a };
    &&& b.buf@ == m
    &&& if mid.ok() {
        cursor_shown(mid, b)
    } else {
        b == mid
    }
}

pub open spec fn sat_sub(x: int, y: int) -> int {
    if x >= y { x - y } else { 0 }
}

/// The preview scroll after a key in the preview pane.
pub open spec fn preview_scroll_of(a: App, code: KeyCode) -> int {
    let ps = a.preview_scroll as int;
    let max = sat_sub(a.preview_content_height as int, a.preview_height as int);
    match code {
        KeyCode::Up | KeyCode::Char('k') => sat_sub(ps, 1),
        KeyCode::Down | KeyCode::Char('j') => if ps < max { ps + 1 } else { ps },
        KeyCode::PageUp => sat_sub(ps, sat_sub(a.preview_height as int, 1)),
        KeyCode::PageDown => {
            let t = ps + sat_sub(a.preview_height as int, 1);
            if t <= max { t } else { max }
        },
        KeyCode::Char('g') => 0,
        KeyCode::Char('G') => max,
        _ => ps,
    }
}

/// A key in the preview pane scrolls it.
pub open spec fn preview_key_post(a: App, code: KeyCode, b: App) -> bool {
    b == (App { preview_scroll: preview_scroll_of(a, code) as usize, ..a })
}

/// A key in the editor pane moves the cursor or edits the text.
pub open spec fn editor_key_post(a: App, k: Key, b: App) -> bool {
    let m = a.buf@;
    match k.code {
        KeyCode::Left => with_buf(a, b, if k.ctrl { m.word_back() } else { m.move_left() }),
        KeyCode::Right => with_buf(a, b, if k.ctrl { m.word_forward() } else { m.move_right() }),
        KeyCode::Up => moved_up(a, b),
        KeyCode::Down => moved_down(a, b),
        KeyCode::Home => with_buf(a, b, BufModel { col: 0, desired: None, ..m }),
        KeyCode::End => with_buf(a, b, BufModel { col: m.len_of(m.line), desired: None, ..m }),
        KeyCode::PageUp => paged_up(a, b),
        KeyCode::PageDown => paged_down(a, b),
        KeyCode::Backspace => with_buf(a, b, m.backspace()),
        KeyCode::Delete => with_buf(a, b, m.delete()),
        KeyCode::Enter => with_buf(a, b, m.newline_smart()),
        KeyCode::Char(c) => with_buf(a, b, m.insert_char(c)),
        _ => b == a,
    }
}

/// A key while the search prompt is open.
pub open spec fn search_key_post(a: App, code: KeyCode, b: App, eff: Effect) -> bool {
    match code {
        KeyCode::Esc => b == (App { search_open: false, ..a }) && eff is Nothing,
        KeyCode::Enter => {
            let mid = App { last_query: b.last_query, search_open: false, ..a };
            let hit = search_hit(mid, a.search_query@, true);
            &&& b.last_query@ == a.search_query@
            &&& found_next(mid, b, a.search_query@, true, hit)
            &&& if hit { eff is Follow } else { eff is Nothing }
        },
        KeyCode::Backspace => b.search_query@ == (if a.search_query@.len() > 0 {
            a.search_query@.drop_last()
        } else {
            a.search_query@
        }) && b == (App { search_query: b.search_query, ..a }) && eff is Nothing,
        KeyCode::Char(c) => b.search_query@ == a.search_query@.push(c) && b == (App {
            search_query: b.search_query,
            ..a
        }) && eff is Nothing,
        _ => b == a && eff is Nothing,
    }
}

/// Whether a search for `q` from the cursor line finds a line.
pub open spec fn search_hit(a: App, q: Seq<char>, forward: bool) -> bool {
    q.len() > 0 && search_from(a.buf@.lines, lower(q), a.buf@.line, forward, 0) is Some
}

/// The line number that a command of digits names (1 when there is none or
/// it is too large).
pub open spec fn line_arg(s: Seq<char>) -> int {
    if s.len() > 0 && digits_value(s) <= usize::MAX {
        digits_value(s) as int
    } else {
        1
    }
}

/// Whether every character is an ASCII digit.
pub open spec fn all_digits(s: Seq<char>) -> bool {
    forall|i: int| 0 <= i < s.len() ==> is_digit(#[trigger] s[i])
}

/// What a `:` command does.
pub open spec fn command_post(a: App, cmd: Seq<char>, b: App, eff: Effect) -> bool {
    let l = lower(cmd);
    if l == "w"@ || l == "write"@ {
        b == a && eff is Save
    } else if l == "q"@ || l == "quit"@ {
        b == (App { should_quit: true, ..a }) && eff is Nothing
    } else if l == "x"@ || l == "wq"@ {
        b == (App { should_quit: true, ..a }) && eff is Save
    } else if l == "theme"@ || has_prefix(l, "theme "@) {
        theme_cycled(a, b) && eff is Nothing
    } else if l == "help"@ {
        b == (App { show_help: true, ..a }) && eff is Nothing
    } else if all_digits(l) {
        went_to_line(a, b, line_arg(l)) && eff is Nothing
    } else {
        error_set(a, b, "unknown command: :"@ + cmd) && eff is Nothing
    }
}

/// A key while the command prompt is open.
pub open spec fn command_key_post(a: App, code: KeyCode, b: App, eff: Effect) -> bool {
    match code {
        KeyCode::Esc => b.command@.len() == 0 && b == (App {
            in_command: false,
            command: b.command,
            ..a
        }) && eff is Nothing,
        KeyCode::Enter => {
            let mid = App { in_command: false, command: b.command, ..a };
            &&& b.command@.len() == 0
            &&& command_post(mid, trim(a.command@), b, eff)
        },
        KeyCode::Backspace => b.command@ == (if a.command@.len() > 0 {
            a.command@.drop_last()
        } else {
            a.command@
        }) && b == (App { command: b.command, ..a }) && eff is Nothing,
        KeyCode::Char(c) => b.command@ == a.command@.push(c) && b == (App {
            command: b.command,
            ..a
        }) && eff is Nothing,
        _ => b == a && eff is Nothing,
    }
}

/// The code themes that Ctrl+E cycles through.
pub open spec fn code_themes() -> Seq<Seq<char>> {
    seq![
        "base16-ocean.dark"@,
        "base16-eighties.dark"@,
        "base16-mocha.dark"@,
        "InspiredGitHub"@,
        "Solarized (dark)"@,
        "Solarized (light)"@,
    ]
}

/// Position of the first `t` in `ts` at or after `k`.
pub open spec fn index_in(ts: Seq<Seq<char>>, t: Seq<char>, k: int) -> Option<int>
    decreases ts.len() - k,
{
    if k < 0 || k >= ts.len() {
        None
    } else if ts[k] == t {
        Some(k)
    } else {
        index_in(ts, t, k + 1)
    }
}

/// The code theme after `cur`: the next one in the list, or the second when
/// `cur` is not in the list.
pub open spec fn next_code_theme(cur: Seq<char>) -> Seq<char> {
    let i = match index_in(code_themes(), cur, 0) {
        Some(i) => i,
        None => 0,
    };
    code_themes()[(i + 1) % 6]
}

/// Ctrl+E: the next code theme; the preview must be rendered again.
pub open spec fn code_theme_cycled(a: App, b: App) -> bool {
    &&& b.preview_theme@ == next_code_theme(a.preview_theme@)
    &&& b.status@ == "preview theme: "@ + b.preview_theme@
    &&& b == (App {
        preview_theme: b.preview_theme,
        cached_rev: u64::MAX,
        status: b.status,
        status_is_error: false,
        ..a
    })
}

/// Keys with the outline open: close it, move the selection, or jump.
pub open spec fn outline_key_post(a: App, code: KeyCode, b: App) -> bool {
    match code {
        KeyCode::Esc | KeyCode::Char('o') => b == (App { outline_open: false, ..a }),
        KeyCode::Down | KeyCode::Char('j') => outline_went_down(a, b),
        KeyCode::Up | KeyCode::Char('k') => outline_went_up(a, b),
        KeyCode::Enter => outline_jumped(a, b),
        _ => b == a,
    }
}

/// Keys with the help open: `?`, Esc and Enter close it; the others do nothing.
pub open spec fn help_key_post(a: App, code: KeyCode, b: App) -> bool {
    match code {
        KeyCode::Char('?') | KeyCode::Esc | KeyCode::Enter => b == (App { show_help: false, ..a }),
        _ => b == a,
    }
}

/// Whether a key is one of the global bindings (given the state); the other
/// keys go to the focused pane.
pub open spec fn is_global(a: App, k: Key) -> bool {
    let ed = a.focus == Focus::Editor;
    match k.code {
        KeyCode::Char(c) => if k.ctrl {
            c == 'c' || c == 'q' || c == 's' || c == 'h' || c == 'o' || c == '?' || c == 'w' || c
                == 'y' || c == 't' || c == 'e' || c == 'z' || c == 'r' || c == 'd' || c == 'k'
                || c == ':' || (c == '/' && ed) || ((c == 'n' || c == 'N') && ed
                && a.last_query@.len() > 0)
        } else {
            c == '?' || c == ':' || (c == '/' && ed) || ((c == 'n' || c == 'N') && ed
                && a.last_query@.len() > 0)
        },
        KeyCode::Tab | KeyCode::Esc => true,
        _ => false,
    }
}

/// What a global binding does.
pub open spec fn global_post(a: App, k: Key, b: App, eff: Effect) -> bool {
    let ed = a.focus == Focus::Editor;
    match k.code {
        KeyCode::Tab => focus_switched(a, b) && eff is Nothing,
        KeyCode::Esc => {
            let mid = App { last_query: b.last_query, ..a };
            b.last_query@.len() == 0 && status_set(mid, b, "ready"@) && eff is Nothing
        },
        KeyCode::Char(c) => if k.ctrl && c == 'c' {
            b == (App { should_quit: true, ..a }) && eff is Nothing
        } else if k.ctrl && c == 'q' {
            (if a.buf.dirty {
                let mid = App { buf: b.buf, should_quit: true, ..a };
                &&& b.buf@ == (BufModel { dirty: false, ..a.buf@ })
                &&& error_set(mid, b, "unsaved changes — Ctrl+Q again to force quit"@)
            } else {
                b == (App { should_quit: true, ..a })
            }) && eff is Nothing
        } else if k.ctrl && c == 's' {
            b == a && eff is Save
        } else if k.ctrl && c == 'h' {
            b == (App { show_help: !a.show_help, ..a }) && eff is Nothing
        } else if k.ctrl && c == 'o' {
            b == (App { outline_open: !a.outline_open, outline_sel: 0, ..a }) && eff is Nothing
        } else if c == '?' {
            b == (App { show_help: !a.show_help, ..a }) && eff is Nothing
        } else if k.ctrl && c == 'w' {
            wrap_toggled(a, b) && eff is Nothing
        } else if k.ctrl && c == 'y' {
            let mid = App { sync_preview: !a.sync_preview, ..a };
            status_set(
                mid,
                b,
                if mid.sync_preview { "preview sync: on"@ } else { "preview sync: off"@ },
            ) && eff is Nothing
        } else if k.ctrl && c == 't' {
            theme_cycled(a, b) && eff is Nothing
        } else if k.ctrl && c == 'e' {
            code_theme_cycled(a, b) && eff is Nothing
        } else if k.ctrl && c == 'z' {
            (if ed {
                with_buf_shown(a, b, if k.shift { a.buf@.redo_step() } else { a.buf@.undo_step() })
            } else {
                b == a
            }) && eff is Nothing
        } else if k.ctrl && c == 'r' {
            (if ed {
                with_buf_shown(a, b, a.buf@.redo_step())
            } else {
                b == a
            }) && eff is Nothing
        } else if k.ctrl && c == 'd' {
            (if ed {
                with_buf_shown(a, b, a.buf@.duplicate_line())
            } else {
                b == a
            }) && eff is Nothing
        } else if k.ctrl && c == 'k' {
            (if ed {
                with_buf_shown(a, b, a.buf@.delete_line())
            } else {
                b == a
            }) && eff is Nothing
        } else if c == ':' {
            b.command@.len() == 0 && b == (App { in_command: true, command: b.command, ..a })
                && eff is Nothing
        } else if c == '/' {
            b.search_query@.len() == 0 && b == (App {
                search_open: true,
                search_query: b.search_query,
                ..a
            }) && eff is Nothing
        } else {
            let hit = search_hit(a, a.last_query@, c == 'n');
            found_next(a, b, a.last_query@, c == 'n', hit) && if hit {
                eff is Follow
            } else {
                eff is Nothing
            }
        },
        _ => b == a && eff is Nothing,
    }
}

/// What a key press does, in the order the editor looks at it: an open
/// command prompt, search prompt, outline or help takes the key first; then
/// the global bindings; then the focused pane.
pub open spec fn key_post(a: App, k: Key, b: App, eff: Effect) -> bool {
    if a.in_command {
        command_key_post(a, k.code, b, eff)
    } else if a.search_open {
        search_key_post(a, k.code, b, eff)
    } else if a.outline_open {
        outline_key_post(a, k.code, b) && eff is Nothing
    } else if a.show_help {
        help_key_post(a, k.code, b) && eff is Nothing
    } else if is_global(a, k) {
        global_post(a, k, b, eff)
    } else if a.focus == Focus::Preview {
        preview_key_post(a, k.code, b) && eff is Nothing
    } else {
        editor_key_post(a, k, b) && eff is Nothing
    }
}

/// Whether the state keeps the editor invariant (`App::ok`).
pub fn limits_ok(app: &App) -> (b: bool)
    ensures
        b == app.ok(),
{
    let n = app.buf.line_count();
    if n == 0 || app.buf.cursor_line >= n {
        return false;
    }
    if app.editor_scroll > usize::MAX / 2 || app.editor_height > usize::MAX / 2 {
        return false;
    }
    let ghost ls = app.buf@.lines;
    let mut total: usize = 0;
    let mut i: usize = 0;
    while i < n
        invariant
            i <= n == ls.len(),
            ls == app.buf@.lines,
            total == size_upto(ls, i as int),
            total < usize::MAX / 8,
        decreases n - i,
    {
        let len = app.buf.line_chars(i).len();
        if len >= usize::MAX / 8 - total - 1 {
            proof {
                crate::wrap::lemma_size_mono(ls, i as int + 1, n as int);
            }
            return false;
        }
        total = total + len + 1;
        i += 1;
    }
    true
}

/// Whether the state may take a key (see `key_ready`).
pub fn ready(app: &App) -> (b: bool)
    ensures
        b == key_ready(*app),
{
    if !limits_ok(app) {
        return false;
    }
    let line = app.buf.line_chars(app.buf.cursor_line);
    app.buf.cursor_col <= line.len() && line.len() < usize::MAX - 64 && crate::buffer::marker_fits(
        &line,
    ) && app.outline_sel < usize::MAX && app.preview_height < usize::MAX - app.preview_scroll
}

/// Remove the last character of `s`, if any (as `String::pop`).
fn pop_last(s: &mut String)
    ensures
        final(s)@ == (if old(s)@.len() > 0 { old(s)@.drop_last() } else { old(s)@ }),
{
    let cs = chars_of(s.as_str());
    if cs.len() > 0 {
        *s = string_of(cs.as_slice(), 0, cs.len() - 1);
    }
}

/// Scroll to show the cursor when the state keeps the editor invariant.
fn show_cursor(app: &mut App)
    ensures
        if old(app).ok() {
            cursor_shown(*old(app), *final(app))
        } else {
            *final(app) == *old(app)
        },
{
    if limits_ok(app) {
        app.ensure_cursor_visible();
    }
}

fn handle_preview_key(code: KeyCode, app: &mut App)
    requires
        old(app).preview_scroll + old(app).preview_height < usize::MAX,
    ensures
        preview_key_post(*old(app), code, *final(app)),
{
    match code {
        KeyCode::Up | KeyCode::Char('k') => {
            app.preview_scroll = app.preview_scroll.saturating_sub(1);
        },
        KeyCode::Down | KeyCode::Char('j') => {
            let max = app.preview_content_height.saturating_sub(app.preview_height);
            if app.preview_scroll < max {
                app.preview_scroll += 1;
            }
        },
        KeyCode::PageUp => {
            app.preview_scroll = app.preview_scroll.saturating_sub(app.preview_height.saturating_sub(1));
        },
        KeyCode::PageDown => {
            let max = app.preview_content_height.saturating_sub(app.preview_height);
            let t = app.preview_scroll + app.preview_height.saturating_sub(1);
            app.preview_scroll = if t <= max { t } else { max };
        },
        KeyCode::Char('g') => app.preview_scroll = 0,
        KeyCode::Char('G') => {
            app.preview_scroll = app.preview_content_height.saturating_sub(app.preview_height);
        },
        _ => {},
    }
}

fn handle_editor_key(key: Key, app: &mut App)
    requires
        key_ready(*old(app)),
    ensures
        editor_key_post(*old(app), key, *final(app)),
{
    match key.code {
        KeyCode::Left => {
            if key.ctrl {
                app.buf.word_back();
            } else {
                app.buf.left();
            }
        },
        KeyCode::Right => {
            if key.ctrl {
                app.buf.word_forward();
            } else {
                app.buf.right();
            }
        },
        KeyCode::Up => app.display_up(),
        KeyCode::Down => app.display_down(),
        KeyCode::Home => app.buf.line_start(),
        KeyCode::End => app.buf.line_end(),
        KeyCode::PageUp => app.page_up(),
        KeyCode::PageDown => app.page_down(),
        KeyCode::Backspace => app.buf.backspace(),
        KeyCode::Delete => app.buf.delete(),
        KeyCode::Enter => app.buf.insert_newline_smart(),
        KeyCode::Char(c) => app.buf.insert_char(c),
        _ => {},
    }
}

fn handle_search_key(code: KeyCode, app: &mut App) -> (eff: Effect)
    requires
        old(app).ok(),
    ensures
        search_key_post(*old(app), code, *final(app), eff),
{
    match code {
        KeyCode::Esc => {
            app.search_open = false;
            Effect::Nothing
        },
        KeyCode::Enter => {
            app.last_query = app.search_query.clone();
            let q = app.search_query.clone();
            app.search_open = false;
            let found = app.find_next(q.as_str(), true);
            if found {
                Effect::Follow
            } else {
                Effect::Nothing
            }
        },
        KeyCode::Backspace => {
            pop_last(&mut app.search_query);
            Effect::Nothing
        },
        KeyCode::Char(c) => {
            push_char(&mut app.search_query, c);
            Effect::Nothing
        },
        _ => Effect::Nothing,
    }
}

/// Run a `:` command (already trimmed).
fn run_command(cmd: &str, app: &mut App) -> (eff: Effect)
    requires
        old(app).ok(),
    ensures
        command_post(*old(app), cmd@, *final(app), eff),
{
    let lower_s = to_lowercase(cmd);
    let l = chars_of(lower_s.as_str());
    if eq_str(l.as_slice(), "w") || eq_str(l.as_slice(), "write") {
        Effect::Save
    } else if eq_str(l.as_slice(), "q") || eq_str(l.as_slice(), "quit") {
        app.should_quit = true;
        Effect::Nothing
    } else if eq_str(l.as_slice(), "x") || eq_str(l.as_slice(), "wq") {
        app.should_quit = true;
        Effect::Save
    } else if eq_str(l.as_slice(), "theme") || starts_with(l.as_slice(), "theme ") {
        app.cycle_theme();
        Effect::Nothing
    } else if eq_str(l.as_slice(), "help") {
        app.show_help = true;
        Effect::Nothing
    } else {
        let mut all = true;
        let mut i: usize = 0;
        while i < l.len()
            invariant
                i <= l@.len(),
                all == (forall|j: int| 0 <= j < i ==> is_digit(#[trigger] l@[j])),
            decreases l.len() - i,
        {
            if !('0' <= l[i] && l[i] <= '9') {
                all = false;
            }
            i += 1;
        }
        if all {
            let n: usize = if l.len() == 0 {
                1
            } else {
                match crate::buffer::parse_digits(&l, 0, l.len()) {
                    Some(v) => if v <= usize::MAX as u64 {
                        v as usize
                    } else {
                        1
                    },
                    None => 1,
                }
            };
            proof {
                assert(l@.subrange(0, l@.len() as int) =~= l@);
            }
            app.goto_line(n);
        } else {
            let mut msg = String::from_str("unknown command: :");
            msg.append(cmd);
            app.set_error(msg.as_str());
        }
        Effect::Nothing
    }
}

#[verifier::rlimit(40)]
fn handle_command_key(code: KeyCode, app: &mut App) -> (eff: Effect)
    requires
        old(app).ok(),
    ensures
        command_key_post(*old(app), code, *final(app), eff),
{
    match code {
        KeyCode::Esc => {
            app.in_command = false;
            app.command = String::new();
            Effect::Nothing
        },
        KeyCode::Enter => {
            let cs = chars_of(app.command.as_str());
            let t = trim_chars(cs.as_slice());
            let cmd = string_of(t.as_slice(), 0, t.len());
            proof {
                assert(t@.subrange(0, t@.len() as int) =~= t@);
            }
            app.in_command = false;
            app.command = String::new();
            run_command(cmd.as_str(), app)
        },
        KeyCode::Backspace => {
            pop_last(&mut app.command);
            Effect::Nothing
        },
        KeyCode::Char(c) => {
            push_char(&mut app.command, c);
            Effect::Nothing
        },
        _ => Effect::Nothing,
    }
}

/// Ctrl+E: move to the next code theme of the preview.
pub fn cycle_preview_theme(app: &mut App)
    ensures
        code_theme_cycled(*old(app), *final(app)),
{
    let themes: Vec<&str> = vec![
        "base16-ocean.dark",
        "base16-eighties.dark",
        "base16-mocha.dark",
        "InspiredGitHub",
        "Solarized (dark)",
        "Solarized (light)",
    ];
    let ghost ts = code_themes();
    assert(themes@.map_values(|t: &str| t@) =~= ts);
    let cur_s = chars_of(app.preview_theme.as_str());
    let mut cur: usize = 0;
    let mut i: usize = 0;
    let mut hit = false;
    while i < themes.len()
        invariant
            i <= themes@.len() == 6,
            themes@.map_values(|t: &str| t@) == ts,
            cur_s@ == app.preview_theme@,
            cur < 6,
            !hit ==> index_in(ts, cur_s@, i as int) == index_in(ts, cur_s@, 0) && cur == 0,
            hit ==> index_in(ts, cur_s@, 0) == Some(cur as int),
        decreases themes.len() - i,
    {
        if !hit && eq_str(cur_s.as_slice(), themes[i]) {
            assert(ts[i as int] == themes@[i as int]@);
            cur = i;
            hit = true;
        }
        if !hit {
            assert(ts[i as int] == themes@[i as int]@);
        }
        i += 1;
    }
    assert(cur < 6);
    let next = themes[(cur + 1) % 6];
    assert(ts[(cur + 1) % 6] == themes@[((cur + 1) % 6) as int]@);
    app.preview_theme = String::from_str(next);
    app.cached_rev = u64::MAX;
    let mut msg = String::from_str("preview theme: ");
    msg.append(next);
    app.set_status(msg.as_str());
}

/// Handle a key press (see `key_post`).
pub fn handle_key(key: Key, app: &mut App) -> (eff: Effect)
    requires
        key_ready(*old(app)),
    ensures
        key_post(*old(app), key, *final(app), eff),
{
    if app.in_command {
        return handle_command_key(key.code, app);
    }
    if app.search_open {
        return handle_search_key(key.code, app);
    }
    if app.outline_open {
        match key.code {
            KeyCode::Esc | KeyCode::Char('o') => {
                app.outline_open = false;
            },
            KeyCode::Down | KeyCode::Char('j') => app.outline_down(),
            KeyCode::Up | KeyCode::Char('k') => app.outline_up(),
            KeyCode::Enter => app.outline_jump(),
            _ => {},
        }
        return Effect::Nothing;
    }
    if app.show_help {
        match key.code {
            KeyCode::Char('?') | KeyCode::Esc | KeyCode::Enter => {
                app.show_help = false;
            },
            _ => {},
        }
        return Effect::Nothing;
    }
    let ctrl = key.ctrl;
    let ed = app.focus == Focus::Editor;
    match key.code {
        KeyCode::Char(c) => {
            if ctrl && c == 'c' {
                if app.in_command {
                    app.in_command = false;
                    app.command = String::new();
                } else {
                    app.should_quit = true;
                }
                return Effect::Nothing;
            } else if ctrl && c == 'q' {
                if app.buf.dirty {
                    app.set_error("unsaved changes — Ctrl+Q again to force quit");
                    app.buf.dirty = false;
                }
                app.should_quit = true;
                return Effect::Nothing;
            } else if ctrl && c == 's' {
                return Effect::Save;
            } else if ctrl && c == 'h' {
                app.show_help = !app.show_help;
                return Effect::Nothing;
            } else if ctrl && c == 'o' {
                app.outline_open = !app.outline_open;
                app.outline_sel = 0;
                return Effect::Nothing;
            } else if c == '?' {
                app.show_help = !app.show_help;
                return Effect::Nothing;
            } else if ctrl && c == 'w' {
                app.toggle_wrap();
                return Effect::Nothing;
            } else if ctrl && c == 'y' {
                app.sync_preview = !app.sync_preview;
                app.set_status(
                    if app.sync_preview {
                        "preview sync: on"
                    } else {
                        "preview sync: off"
                    },
                );
                return Effect::Nothing;
            } else if ctrl && c == 't' {
                app.cycle_theme();
                return Effect::Nothing;
            } else if ctrl && c == 'e' {
                cycle_preview_theme(app);
                return Effect::Nothing;
            } else if ctrl && c == 'z' {
                if ed {
                    if key.shift {
                        app.buf.redo();
                    } else {
                        app.buf.undo();
                    }
                    show_cursor(app);
                }
                return Effect::Nothing;
            } else if ctrl && c == 'r' {
                if ed {
                    app.buf.redo();
                    show_cursor(app);
                }
                return Effect::Nothing;
            } else if ctrl && c == 'd' {
                if ed {
                    app.buf.duplicate_line();
                    show_cursor(app);
                }
                return Effect::Nothing;
            } else if ctrl && c == 'k' {
                if ed {
                    app.buf.delete_line();
                    show_cursor(app);
                }
                return Effect::Nothing;
            } else if c == ':' {
                app.in_command = true;
                app.command = String::new();
                return Effect::Nothing;
            } else if c == '/' {
                if ed {
                    app.search_open = true;
                    app.search_query = String::new();
                    return Effect::Nothing;
                }
            } else if c == 'n' || c == 'N' {
                if ed && app.last_query.as_str().unicode_len() > 0 {
                    let q = app.last_query.clone();
                    let found = app.find_next(q.as_str(), c == 'n');
                    return if found {
                        Effect::Follow
                    } else {
                        Effect::Nothing
                    };
                }
            }
        },
        KeyCode::Tab => {
            app.switch_focus();
            return Effect::Nothing;
        },
        KeyCode::Esc => {
            app.last_query = String::new();
            app.set_status("ready");
            return Effect::Nothing;
        },
        _ => {},
    }
    if app.focus == Focus::Preview {
        handle_preview_key(key.code, app);
    } else {
        handle_editor_key(key, app);
    }
    Effect::Nothing
}

/// A mouse event, as the terminal reports it.
#[derive(Clone, Copy, PartialEq, Eq, Structural, Debug)]
pub enum MouseKind {
    ScrollDown,
    ScrollUp,
    LeftDown,
    LeftDrag,
    LeftUp,
    Other,
}

#[derive(Clone, Copy, PartialEq, Eq, Structural, Debug)]
pub struct Mouse {
    pub kind: MouseKind,
    pub column: u16,
    pub row: u16,
}

pub open spec fn min_i(a: int, b: int) -> int {
    if a <= b { a } else { b }
}

pub open spec fn max_i(a: int, b: int) -> int {
    if a >= b { a } else { b }
}

/// A drag point kept inside the pane where the selection started
/// (horizontally; rows are not limited).
pub open spec fn clamped(a: App, x: int, y: int) -> (int, int) {
    if a.sel_pane == 0 {
        (max_i(min_i(x, a.ei_x + sat_sub(a.ei_w as int, 1)), a.ei_x as int), y)
    } else {
        (max_i(min_i(x, a.pi_x + sat_sub(a.pi_w as int, 1)), a.pi_x as int), y)
    }
}

/// The pane coordinates fit in `u16` arithmetic.
pub open spec fn panes_fit(a: App) -> bool {
    a.ei_x + a.ei_w <= u16::MAX && a.pi_x + a.pi_w <= u16::MAX
}

/// Keep a drag point inside the pane where the selection started.
pub fn clamp_to_pane(app: &App, x: u16, y: u16) -> (r: (u16, u16))
    requires
        panes_fit(*app),
    ensures
        (r.0 as int, r.1 as int) == clamped(*app, x as int, y as int),
{
    if app.sel_pane == 0 {
        let hi = app.ei_x + app.ei_w.saturating_sub(1);
        let cx = if x <= hi { x } else { hi };
        let cx = if cx >= app.ei_x { cx } else { app.ei_x };
        (cx, y)
    } else {
        let hi = app.pi_x + app.pi_w.saturating_sub(1);
        let cx = if x <= hi { x } else { hi };
        let cx = if cx >= app.pi_x { cx } else { app.pi_x };
        (cx, y)
    }
}

/// The lines of `ls` shown on screen rows `lo..=hi` with the editor
/// scrolled by `scroll`.
pub open spec fn rows_lines(ls: Seq<Seq<char>>, lo: int, hi: int, scroll: int) -> Seq<Seq<char>> {
    let s = lo + scroll;
    let e = min_i(hi + scroll + 1, ls.len() as int);
    if s < e {
        ls.subrange(s, e)
    } else {
        Seq::empty()
    }
}

/// The text of a selection from row `sy` to row `ey`: in the editor pane, the
/// source lines shown on those rows joined by newlines; in the preview pane,
/// the whole source.
pub open spec fn selection_text(a: App, sy: int, ey: int) -> Seq<char> {
    if a.sel_pane == 0 {
        crate::text::join_lines(
            rows_lines(crate::text::text_lines(a.buf@.text()), min_i(sy, ey), max_i(sy, ey), a.editor_scroll as int),
        )
    } else {
        a.buf@.text()
    }
}

/// The text under a selection (see `selection_text`).
pub fn extract_selection_text(app: &App, sx: u16, sy: u16, ex: u16, ey: u16) -> (r: String)
    requires
        app.editor_scroll <= usize::MAX / 2,
    ensures
        r@ == selection_text(*app, sy as int, ey as int),
{
    if app.sel_pane == 0 {
        let text = app.buf.text();
        let lines = crate::text::lines_of(text.as_str());
        let ghost ls = crate::text::text_lines(app.buf@.text());
        let (lo_y, hi_y) = if sy <= ey { (sy, ey) } else { (ey, sy) };
        let scroll = app.editor_scroll;
        let mut result: Vec<String> = Vec::new();
        let mut row = lo_y as usize;
        let hi = hi_y as usize;
        let ghost s0 = lo_y + scroll;
        while row <= hi
            invariant
                lo_y <= row <= hi + 1,
                hi == hi_y,
                hi <= u16::MAX,
                scroll <= usize::MAX / 2,
                lines@.map_values(|l: Vec<char>| l@) == ls,
                s0 == lo_y + scroll,
                crate::text::views(result@) == rows_lines(ls, lo_y as int, row - 1, scroll as int),
            decreases hi + 1 - row,
        {
            let idx = row + scroll;
            let ghost prev = result@;
            if idx < lines.len() {
                assert(lines@[idx as int]@ == ls[idx as int]);
                let l = string_of(lines[idx].as_slice(), 0, lines[idx].len());
                proof {
                    assert(lines@[idx as int]@.subrange(0, lines@[idx as int]@.len() as int) =~= lines@[idx as int]@);
                }
                result.push(l);
                proof {
                    assert(crate::text::views(result@) =~= crate::text::views(prev).push(l@));
                    assert(crate::text::views(result@) =~= rows_lines(ls, lo_y as int, row as int, scroll as int));
                }
            } else {
                proof {
                    assert(rows_lines(ls, lo_y as int, row as int, scroll as int) =~= rows_lines(ls, lo_y as int, row - 1, scroll as int));
                }
            }
            row += 1;
        }
        crate::text::join_text(&result)
    } else {
        app.buf.text()
    }
}

/// The mouse event leaves the state fitting the pane rectangles.
pub open spec fn mouse_ready(a: App) -> bool {
    a.ok() && panes_fit(a) && a.preview_scroll < usize::MAX
}

/// What a mouse event does: the wheel scrolls the focused pane; a left
/// press focuses its pane, starts a selection there and places the editor
/// cursor; a drag extends the selection within the pane; the release copies
/// the selected text (when the selection is not a single point and the text
/// is not empty) and ends the selection.
pub open spec fn mouse_post(a: App, m: Mouse, b: App, eff: Effect) -> bool {
    let x = m.column as int;
    let y = m.row as int;
    match m.kind {
        MouseKind::ScrollDown => (if a.focus == Focus::Preview {
            b == (App { preview_scroll: preview_scroll_of(a, KeyCode::Down) as usize, ..a })
        } else {
            moved_down(a, b)
        }) && eff is Nothing,
        MouseKind::ScrollUp => (if a.focus == Focus::Preview {
            b == (App { preview_scroll: preview_scroll_of(a, KeyCode::Up) as usize, ..a })
        } else {
            moved_up(a, b)
        }) && eff is Nothing,
        MouseKind::LeftDown => {
            let pane: u8 = if x < a.ei_x + a.ei_w { 0 } else { 1 };
            let mid = App {
                sel_pane: pane,
                sel_start: Some((m.column, m.row)),
                sel_end: Some((m.column, m.row)),
                focus: if pane == 0 { Focus::Editor } else { Focus::Preview },
                ..a
            };
            (if pane == 0 {
                clicked(mid, b, x, y)
            } else {
                b == mid
            }) && eff is Nothing
        },
        MouseKind::LeftDrag => (if a.sel_start is Some {
            let c = clamped(a, x, y);
            b == (App { sel_end: Some((c.0 as u16, c.1 as u16)), ..a })
        } else {
            b == a
        }) && eff is Nothing,
        MouseKind::LeftUp => {
            let cleared = App { sel_start: None, sel_end: None, ..a };
            match (a.sel_start, a.sel_end) {
                (Some((sx, sy)), Some((ex, ey))) => if (sx, sy) != (ex, ey) && selection_text(
                    a,
                    sy as int,
                    ey as int,
                ).len() > 0 {
                    &&& eff matches Effect::Copy(t) && t@ == selection_text(a, sy as int, ey as int)
                    &&& b.status@ == "copied to clipboard"@
                    &&& b == (App { status: b.status, status_is_error: false, ..cleared })
                } else {
                    b == cleared && eff is Nothing
                },
                _ => b == cleared && eff is Nothing,
            }
        },
        MouseKind::Other => b == a && eff is Nothing,
    }
}

/// Handle a mouse event (see `mouse_post`).
#[verifier::rlimit(60)]
pub fn handle_mouse(m: Mouse, app: &mut App) -> (eff: Effect)
    requires
        mouse_ready(*old(app)),
    ensures
        mouse_post(*old(app), m, *final(app), eff),
{
    match m.kind {
        MouseKind::ScrollDown => {
            if app.focus == Focus::Preview {
                let max = app.preview_content_height.saturating_sub(app.preview_height);
                if app.preview_scroll < max {
                    app.preview_scroll += 1;
                }
            } else {
                app.display_down();
            }
            Effect::Nothing
        },
        MouseKind::ScrollUp => {
            if app.focus == Focus::Preview {
                app.preview_scroll = app.preview_scroll.saturating_sub(1);
            } else {
                app.display_up();
            }
            Effect::Nothing
        },
        MouseKind::LeftDown => {
            // start a selection in the clicked pane
            let pane: u8 = if m.column < app.ei_x + app.ei_w { 0 } else { 1 };
            app.sel_pane = pane;
            app.sel_start = Some((m.column, m.row));
            app.sel_end = Some((m.column, m.row));
            if pane == 0 {
                app.focus = Focus::Editor;
                app.click_editor(m.column, m.row);
            } else {
                app.focus = Focus::Preview;
            }
            Effect::Nothing
        },
        MouseKind::LeftDrag => {
            if app.sel_start.is_some() {
                let (cx, cy) = clamp_to_pane(app, m.column, m.row);
                app.sel_end = Some((cx, cy));
            }
            Effect::Nothing
        },
        MouseKind::LeftUp => {
            let mut eff = Effect::Nothing;
            match (app.sel_start, app.sel_end) {
                (Some((sx, sy)), Some((ex, ey))) => {
                    if sx != ex || sy != ey {
                        let text = extract_selection_text(app, sx, sy, ex, ey);
                        if text.as_str().unicode_len() > 0 {
                            eff = Effect::Copy(text);
                            app.set_status("copied to clipboard");
                        }
                    }
                },
                _ => {},
            }
            app.sel_start = None;
            app.sel_end = None;
            eff
        },
        MouseKind::Other => Effect::Nothing,
    }
}

/// The Base64 digit for a value below 64.
pub open spec fn b64_digit(v: int) -> char {
    if v < 26 {
        (65 + v) as char
    } else if v < 52 {
        (97 + v - 26) as char
    } else if v < 62 {
        (48 + v - 52) as char
    } else if v == 62 {
        '+'
    } else {
        '/'
    }
}

/// Base64 of one group of one to three bytes, padded with `=`.
pub open spec fn b64_group(c: Seq<u8>) -> Seq<char> {
    let b0 = c[0] as int;
    let b1 = if c.len() > 1 { c[1] as int } else { 0 };
    let b2 = if c.len() > 2 { c[2] as int } else { 0 };
    let n = b0 * 65536 + b1 * 256 + b2;
    seq![
        b64_digit(n / 262144),
        b64_digit((n / 4096) % 64),
        if c.len() > 1 { b64_digit((n / 64) % 64) } else { '=' },
        if c.len() > 2 { b64_digit(n % 64) } else { '=' },
    ]
}

/// Base64 (standard alphabet, padded) of the first `k` groups of three bytes.
pub open spec fn b64_upto(data: Seq<u8>, k: int) -> Seq<char>
    decreases k,
{
    if k <= 0 {
        Seq::empty()
    } else {
        let lo = 3 * (k - 1);
        let hi = min_i(3 * k, data.len() as int);
        b64_upto(data, k - 1) + b64_group(data.subrange(lo, hi))
    }
}

/// Base64 of `data`.
pub open spec fn base64(data: Seq<u8>) -> Seq<char> {
    b64_upto(data, ((data.len() + 2) / 3) as int)
}

fn b64_digit_of(v: u32) -> (c: char)
    requires
        v < 64,
    ensures
        c == b64_digit(v as int),
{
    if v < 26 {
        char_of(65 + v)
    } else if v < 52 {
        char_of(97 + v - 26)
    } else if v < 62 {
        char_of(48 + v - 52)
    } else if v == 62 {
        '+'
    } else {
        '/'
    }
}

/// The ASCII character with code `v`.
fn char_of(v: u32) -> (c: char)
    requires
        v < 128,
    ensures
        c == v as char,
{
    (v as u8) as char
}

/// Append the Base64 of `data[i..i + len]` (one group).
fn encode_group(out: &mut String, data: &[u8], i: usize, len: usize)
    requires
        1 <= len <= 3,
        i + len <= data@.len(),
    ensures
        final(out)@ == old(out)@ + b64_group(data@.subrange(i as int, (i + len) as int)),
{
    let b0 = data[i] as u32;
    let b1 = if len > 1 { data[i + 1] as u32 } else { 0 };
    let b2 = if len > 2 { data[i + 2] as u32 } else { 0 };
    let v = (b0 << 16) | (b1 << 8) | b2;
    assert(v == b0 * 65536 + b1 * 256 + b2) by (bit_vector)
        requires
            b0 < 256 && b1 < 256 && b2 < 256,
            v == (b0 << 16) | (b1 << 8) | b2,
    ;
    let d0 = (v >> 18) & 63;
    let d1 = (v >> 12) & 63;
    let d2 = (v >> 6) & 63;
    let d3 = v & 63;
    assert(d0 == (v / 262144) % 64 && d1 == (v / 4096) % 64 && d2 == (v / 64) % 64 && d3 == v % 64)
        by (bit_vector)
        requires
            d0 == (v >> 18) & 63,
            d1 == (v >> 12) & 63,
            d2 == (v >> 6) & 63,
            d3 == v & 63,
    ;
    assert(v / 262144 < 64) by (bit_vector)
        requires
            v == b0 * 65536 + b1 * 256 + b2,
            b0 < 256 && b1 < 256 && b2 < 256,
    ;
    let ghost g = data@.subrange(i as int, (i + len) as int);
    assert(g[0] == data@[i as int]);
    assert(len > 1 ==> g[1] == data@[i + 1]);
    assert(len > 2 ==> g[2] == data@[i + 2]);
    let ghost prev = out@;
    push_char(out, b64_digit_of(d0));
    push_char(out, b64_digit_of(d1));
    if len > 1 {
        push_char(out, b64_digit_of(d2));
    } else {
        push_char(out, '=');
    }
    if len > 2 {
        push_char(out, b64_digit_of(d3));
    } else {
        push_char(out, '=');
    }
    assert(out@ =~= prev + b64_group(g));
}

/// Base64-encode bytes (standard alphabet, `=` padding), for the clipboard.
pub fn base64_encode(data: &[u8]) -> (out: String)
    ensures
        out@ == base64(data@),
{
    let mut out = String::new();
    let n = data.len();
    let mut i: usize = 0;
    let mut k: usize = 0;
    while i < n
        invariant
            n == data@.len(),
            i == min_i(3 * k, n as int),
            i < n ==> i == 3 * k,
            k > 0 ==> 3 * (k - 1) < n,
            out@ == b64_upto(data@, k as int),
        decreases n - i,
    {
        let len = if n - i >= 3 { 3 } else { n - i };
        encode_group(&mut out, data, i, len);
        proof {
            assert(min_i(3 * (k + 1), n as int) == i + len);
        }
        i += len;
        k += 1;
    }
    proof {
        assert((n + 2) / 3 == k);
    }
    out
}


proof fn lemma_b64_upto_len(data: Seq<u8>, k: int)
    requires
        k >= 0,
    ensures
        b64_upto(data, k).len() == 4 * k,
    decreases k,
{
    if k > 0 {
        lemma_b64_upto_len(data, k - 1);
    }
}

/// Law: Base64 takes four characters for every started group of three
/// bytes.
pub proof fn law_base64_len(data: Seq<u8>)
    ensures
        base64(data).len() == 4 * ((data.len() + 2) / 3),
{
    lemma_b64_upto_len(data, ((data.len() + 2) / 3) as int);
}


/// What came of writing the buffer to its file.
pub enum SaveOutcome {
    /// The buffer has no path; nothing was written.
    NoPath,
    /// The text was written; the path as text, when it is valid UTF-8.
    Written(Option<String>),
    /// Writing failed, with the error's message.
    Failed(String),
}

/// The status line after a save: "saved " and the path ("(no path)" when
/// there is none to show), or "save failed: " and the error.
pub open spec fn save_message(o: SaveOutcome) -> Seq<char> {
    match o {
        SaveOutcome::NoPath => "saved "@ + "(no path)"@,
        SaveOutcome::Written(Some(p)) => "saved "@ + p@,
        SaveOutcome::Written(None) => "saved "@ + "(no path)"@,
        SaveOutcome::Failed(e) => "save failed: "@ + e@,
    }
}

/// Record what came of a save: a written buffer is clean, and the status says
/// what happened (as an error when the write failed).
pub fn save_done(app: &mut App, outcome: SaveOutcome)
    ensures
        match outcome {
            SaveOutcome::Failed(_) => error_set(*old(app), *final(app), save_message(outcome)),
            SaveOutcome::NoPath => status_set(*old(app), *final(app), save_message(outcome)),
            SaveOutcome::Written(_) => {
                let clean = App { buf: crate::buffer::Buffer { dirty: false, ..old(app).buf }, ..*old(app) };
                status_set(clean, *final(app), save_message(outcome))
            },
        },
{
    let ghost o = outcome;
    match outcome {
        SaveOutcome::Failed(e) => {
            let mut msg = String::from_str("save failed: ");
            msg.append(e.as_str());
            proof {
                reveal_strlit("save failed: ");
            }
            app.set_error(msg.as_str());
        },
        SaveOutcome::NoPath => {
            let mut msg = String::from_str("saved ");
            msg.append("(no path)");
            app.set_status(msg.as_str());
        },
        SaveOutcome::Written(p) => {
            app.buf.dirty = false;
            let mut msg = String::from_str("saved ");
            match p {
                Some(t) => msg.append(t.as_str()),
                None => msg.append("(no path)"),
            }
            app.set_status(msg.as_str());
        },
    }
}

/// The preview scroll kept within the rendered content while the preview has
/// the focus: at most one less than its height (0 when it is empty).
pub fn clamp_preview_scroll(app: &mut App)
    ensures
        *final(app) == (App {
            preview_scroll: if old(app).preview_scroll as int <= old(app).preview_content_height as int - 1 {
                old(app).preview_scroll
            } else if old(app).preview_content_height > 0 {
                (old(app).preview_content_height - 1) as usize
            } else {
                0
            },
            ..*old(app)
        }),
{
    let top = if app.preview_content_height > 0 { app.preview_content_height - 1 } else { 0 };
    if app.preview_scroll > top {
        app.preview_scroll = top;
    }
}


/// The code theme after `k` presses of Ctrl+E from `t`.
pub open spec fn cycled_theme(t: Seq<char>, k: nat) -> Seq<char>
    decreases k,
{
    if k == 0 { t } else { next_code_theme(cycled_theme(t, (k - 1) as nat)) }
}

/// The six code themes are distinct, so each is found at its own position.
proof fn lemma_theme_index(j: int)
    requires
        0 <= j < 6,
    ensures
        index_in(code_themes(), code_themes()[j], 0) == Some(j),
{
    reveal_strlit("base16-ocean.dark");
    reveal_strlit("base16-eighties.dark");
    reveal_strlit("base16-mocha.dark");
    reveal_strlit("InspiredGitHub");
    reveal_strlit("Solarized (dark)");
    reveal_strlit("Solarized (light)");
    let ts = code_themes();
    assert(ts[0][7] == 'o' && ts[2][7] == 'm' && ts[1][7] == 'e');
    assert(ts[4][11] == 'd' && ts[5][11] == 'l');
    assert(ts[0] != ts[1] && ts[0] != ts[2] && ts[0] != ts[3] && ts[0] != ts[4] && ts[0] != ts[5]);
    assert(ts[1] != ts[2] && ts[1] != ts[3] && ts[1] != ts[4] && ts[1] != ts[5]);
    assert(ts[2] != ts[3] && ts[2] != ts[4] && ts[2] != ts[5]);
    assert(ts[3] != ts[4] && ts[3] != ts[5]);
    assert(ts[4] != ts[5]);
    reveal_with_fuel(index_in, 7);
}

/// Pressing Ctrl+E `k` times from the code theme at position `j` gives the
/// one at position `j + k`, wrapping around the six.
proof fn lemma_cycled_theme(j: int, k: nat)
    requires
        0 <= j < 6,
    ensures
        cycled_theme(code_themes()[j], k) == code_themes()[(j + k) % 6],
    decreases k,
{
    if k > 0 {
        lemma_cycled_theme(j, (k - 1) as nat);
        lemma_theme_index((j + k - 1) % 6);
        assert(((j + k - 1) % 6 + 1) % 6 == (j + k) % 6);
    }
}

/// From any of the six code themes, six presses of Ctrl+E pass through each
/// of the other five once and come back to it.
pub proof fn law_code_themes_cycle(t: Seq<char>)
    requires
        code_themes().contains(t),
    ensures
        cycled_theme(t, 6) == t,
        forall|k: nat| 1 <= k < 6 ==> #[trigger] cycled_theme(t, k) != t,
        forall|k1: nat, k2: nat| 1 <= k1 < k2 < 6 ==> #[trigger] cycled_theme(t, k1) != #[trigger] cycled_theme(t, k2),
{
    let j = choose|j: int| 0 <= j < 6 && code_themes()[j] == t;
    assert forall|k: nat| k <= 6 implies #[trigger] cycled_theme(t, k) == code_themes()[(j + k) % 6] by {
        lemma_cycled_theme(j, k);
    }
    assert forall|a: int, b: int| 0 <= a < b < 6 implies code_themes()[a] != code_themes()[b] by {
        lemma_theme_index(a);
        lemma_theme_index(b);
    }
    assert forall|k1: nat, k2: nat| 0 <= k1 < k2 < 6 implies cycled_theme(t, k1) != cycled_theme(t, k2) by {
        let a = (j + k1) % 6;
        let b = (j + k2) % 6;
        assert(a != b);
        lemma_theme_index(a);
        lemma_theme_index(b);
    }
    assert(cycled_theme(t, 0) == t);
}


proof fn lemma_presses(apps: Seq<App>, k: int)
    requires
        0 <= k < apps.len(),
        forall|j: int| 0 <= j < apps.len() - 1 ==> #[trigger] code_theme_cycled(apps[j], apps[j + 1]),
    ensures
        apps[k].preview_theme@ == cycled_theme(apps[0].preview_theme@, k as nat),
        apps[k].theme == apps[0].theme,
        apps[k].buf == apps[0].buf,
    decreases k,
{
    if k > 0 {
        lemma_presses(apps, k - 1);
        let j = k - 1;
        assert(code_theme_cycled(apps[j], apps[j + 1]));
    }
}

/// Six presses of Ctrl+E, starting from one of the six code themes (each
/// step as `cycle_preview_theme` makes it): the theme shown after each of the
/// first five is different from the start and from each other, the sixth
/// brings back the start, and the UI theme and the buffer never change.
pub proof fn law_six_code_theme_presses(apps: Seq<App>)
    requires
        apps.len() == 7,
        code_themes().contains(apps[0].preview_theme@),
        forall|j: int| 0 <= j < 6 ==> #[trigger] code_theme_cycled(apps[j], apps[j + 1]),
    ensures
        apps[6].preview_theme@ == apps[0].preview_theme@,
        forall|k: int| 1 <= k < 6 ==> #[trigger] apps[k].preview_theme@ != apps[0].preview_theme@,
        forall|k1: int, k2: int| 1 <= k1 < k2 < 6 ==> #[trigger] apps[k1].preview_theme@ != #[trigger] apps[k2].preview_theme@,
        forall|k: int| 0 <= k < 7 ==> #[trigger] apps[k].theme == apps[0].theme && apps[k].buf == apps[0].buf,
{
    let t = apps[0].preview_theme@;
    law_code_themes_cycle(t);
    assert forall|k: int| 0 <= k < 7 implies #[trigger] apps[k].theme == apps[0].theme && apps[k].buf == apps[0].buf
        && apps[k].preview_theme@ == cycled_theme(t, k as nat) by {
        lemma_presses(apps, k);
    }
    assert(cycled_theme(t, 6) == t);
    assert forall|k: int| 1 <= k < 6 implies #[trigger] apps[k].preview_theme@ != t by {
        assert(apps[k].theme == apps[0].theme);
        assert(cycled_theme(t, k as nat) != t);
    }
    assert forall|k1: int, k2: int| 1 <= k1 < k2 < 6 implies #[trigger] apps[k1].preview_theme@ != #[trigger] apps[k2].preview_theme@ by {
        assert(apps[k1].theme == apps[0].theme);
        assert(apps[k2].theme == apps[0].theme);
        assert(cycled_theme(t, k1 as nat) != cycled_theme(t, k2 as nat));
    }
    assert(apps[6].theme == apps[0].theme);
}

} // verus!
