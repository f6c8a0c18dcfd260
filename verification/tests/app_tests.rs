//! Scenarios for key handling, the chrome text, the editor pane and the
//! styled-lines model.

use terra::app::{App, Focus};
use terra::buffer::Buffer;
use terra::dump::dump_row;
use terra::editor_view::editor_view;
use terra::layout::{centered, panes, screen};
use terra::keys::{base64_encode, handle_key, Effect, Key, KeyCode};
use terra::markdown::{render_lines, Line};
use terra::style::{Area, Color, Style};
use terra::syntax::Syntaxes;
use terra::ui_text::{inverted, outline_lines, selection_rect, status_line, title_line, word_count};

fn app(text: &str) -> App {
    App::new(Buffer::new(text), "doc.md".to_string())
}

fn key(c: KeyCode) -> Key {
    Key { code: c, ctrl: false, shift: false }
}

fn ctrl(c: char) -> Key {
    Key { code: KeyCode::Char(c), ctrl: true, shift: false }
}

fn press(a: &mut App, k: Key) -> Effect {
    handle_key(k, a)
}

fn line_text(l: &Line) -> String {
    l.spans.iter().map(|s| s.text.as_str()).collect()
}

#[test]
fn typing_inserts_in_editor() {
    let mut a = app("ab");
    a.buf.cursor_col = 2;
    press(&mut a, key(KeyCode::Char('c')));
    assert_eq!(a.buf.text(), "abc");
    assert!(a.buf.dirty);
}

#[test]
fn ctrl_s_asks_to_save() {
    let mut a = app("x");
    assert!(matches!(press(&mut a, ctrl('s')), Effect::Save));
}

#[test]
fn ctrl_q_on_dirty_buffer_warns_then_quits() {
    let mut a = app("x");
    press(&mut a, key(KeyCode::Char('y')));
    assert!(a.buf.dirty);
    press(&mut a, ctrl('q'));
    assert!(a.should_quit);
    assert!(a.status_is_error);
    assert!(!a.buf.dirty);
}

#[test]
fn tab_switches_focus_and_preview_keys_scroll() {
    let mut a = app("x");
    press(&mut a, key(KeyCode::Tab));
    assert!(a.focus == Focus::Preview);
    a.preview_content_height = 50;
    a.preview_height = 10;
    press(&mut a, key(KeyCode::Char('j')));
    assert_eq!(a.preview_scroll, 1);
    press(&mut a, key(KeyCode::Char('G')));
    assert_eq!(a.preview_scroll, 40);
    press(&mut a, key(KeyCode::Char('g')));
    assert_eq!(a.preview_scroll, 0);
}

#[test]
fn command_goes_to_line() {
    let mut a = app("a\nb\nc\nd\ne\nf");
    press(&mut a, key(KeyCode::Char(':')));
    assert!(a.in_command);
    press(&mut a, key(KeyCode::Char('5')));
    press(&mut a, key(KeyCode::Enter));
    assert!(!a.in_command);
    assert_eq!(a.buf.cursor_line, 4);
}

#[test]
fn unknown_command_is_an_error() {
    let mut a = app("a");
    press(&mut a, key(KeyCode::Char(':')));
    press(&mut a, key(KeyCode::Char('z')));
    press(&mut a, key(KeyCode::Enter));
    assert!(a.status_is_error);
    assert_eq!(a.status, "unknown command: :z");
}

#[test]
fn search_finds_and_n_repeats() {
    let mut a = app("alpha\nbeta\nalpha again");
    press(&mut a, key(KeyCode::Char('/')));
    assert!(a.search_open);
    for c in "ALPHA".chars() {
        press(&mut a, key(KeyCode::Char(c)));
    }
    press(&mut a, key(KeyCode::Enter));
    assert!(!a.search_open);
    assert_eq!(a.last_query, "ALPHA");
    assert_eq!(a.buf.cursor_line, 2);
    press(&mut a, key(KeyCode::Char('n')));
    assert_eq!(a.buf.cursor_line, 0);
}

#[test]
fn help_and_outline_toggle() {
    let mut a = app("# One\ntext\n## Two");
    press(&mut a, key(KeyCode::Char('?')));
    assert!(a.show_help);
    press(&mut a, key(KeyCode::Esc));
    assert!(!a.show_help);
    press(&mut a, ctrl('o'));
    assert!(a.outline_open);
    press(&mut a, key(KeyCode::Char('j')));
    press(&mut a, key(KeyCode::Enter));
    assert!(!a.outline_open);
    assert_eq!(a.buf.cursor_line, 2);
}

#[test]
fn base64_of_man_and_padding() {
    assert_eq!(base64_encode(b"Man"), "TWFu");
    assert_eq!(base64_encode(b"Ma"), "TWE=");
    assert_eq!(base64_encode(b"M"), "TQ==");
    assert_eq!(base64_encode(b""), "");
}

#[test]
fn word_count_splits_on_whitespace() {
    assert_eq!(word_count("a b  c"), 3);
    assert_eq!(word_count("  lead\ttab\nnl "), 3);
    assert_eq!(word_count(""), 0);
}

#[test]
fn title_shows_title_and_modes() {
    let a = app("x");
    let spans = title_line(&a);
    assert_eq!(spans[0].text, " ✦ doc.md ");
    assert_eq!(spans[1].text, "");
    assert_eq!(spans[3].text, " dark │ base16-ocean.dark │ wrap:on │ EDIT ");
}

#[test]
fn status_bar_counts_and_position() {
    let a = app("one two\nthree");
    let (spans, cur) = status_line(&a, 0);
    assert!(cur.is_none());
    assert_eq!(spans[0].text, " INSERT ");
    assert_eq!(spans[1].text, " 1:1 ");
    assert_eq!(spans[3].text, "  3 words · 2L · rev:0");
}

#[test]
fn status_bar_while_searching_places_cursor() {
    let mut a = app("x");
    press(&mut a, key(KeyCode::Char('/')));
    press(&mut a, key(KeyCode::Char('a')));
    press(&mut a, key(KeyCode::Char('b')));
    let (spans, cur) = status_line(&a, 4);
    assert_eq!(spans[0].text, "/");
    assert_eq!(spans[1].text, "ab");
    assert_eq!(cur, Some(7));
}

#[test]
fn outline_entries_indent_by_level() {
    let a = app("# Top\n### Deep");
    let ls = outline_lines(&a);
    assert_eq!(ls.len(), 2);
    assert_eq!(ls[0][0].text, "H1 ");
    assert_eq!(ls[0][1].text, "Top");
    assert_eq!(ls[1][0].text, "    H3 ");
    assert_eq!(ls[1][0].style.fg, Some(Color::Yellow));
}

#[test]
fn selection_is_normalized_and_inverts() {
    let mut a = app("x");
    a.sel_start = Some((5, 3));
    a.sel_end = Some((2, 1));
    assert_eq!(selection_rect(&a), Some((2, 5, 1, 3)));
    let st = Style::plain().with_fg(Color::Red);
    let inv = inverted(st);
    assert_eq!(inv.fg, Some(Color::Reset));
    assert_eq!(inv.bg, Some(Color::Red));
}

#[test]
fn editor_rows_have_gutter_and_cursor() {
    let a = app("hello\nworld");
    let inner = Area { x: 1, y: 1, width: 30, height: 5 };
    let (rows, cur) = editor_view(&a, inner);
    assert_eq!(rows.len(), 2);
    assert_eq!(rows[0][0].text, " 1 ");
    assert_eq!(rows[0][1].text, "hello");
    assert_eq!(rows[1][0].text, " 2 ");
    assert_eq!(cur, Some((4, 1)));
}

#[test]
fn editor_marks_search_matches() {
    let mut a = app("a Foo b foo");
    a.last_query = "FOO".to_string();
    let inner = Area { x: 0, y: 0, width: 40, height: 3 };
    let (rows, _) = editor_view(&a, inner);
    let texts: Vec<&str> = rows[0].iter().map(|s| s.text.as_str()).collect();
    assert_eq!(texts, vec![" 1 ", "a ", "Foo", " b ", "foo"]);
    assert_eq!(rows[0][2].style.bg, Some(Color::Yellow));
    assert_eq!(rows[0][3].style.bg, Some(Color::Rgb(32, 36, 48)));
}

#[test]
fn editor_wraps_long_lines_into_rows() {
    let a = app("abcdefghij");
    let inner = Area { x: 0, y: 0, width: 8, height: 10 };
    let (rows, _) = editor_view(&a, inner);
    assert_eq!(rows.len(), 3);
    assert_eq!(rows[1][0].text, "   ");
    assert_eq!(rows[1][1].text, "efgh");
}

#[test]
fn lines_model_heading_list_and_table() {
    let sx = Syntaxes::load();
    let ls = render_lines("# Title\n\n1. one\n2. two\n\n| a | bb |\n|---|---|\n| 1 | 2 |\n", &sx, "base16-ocean.dark");
    let texts: Vec<String> = ls.iter().map(line_text).collect();
    assert!(texts.iter().any(|t| t == "# Title"));
    assert!(texts.iter().any(|t| t == "1. one"));
    assert!(texts.iter().any(|t| t == "2. two"));
    assert!(texts.iter().any(|t| t == "┌───┬────┐"));
    assert!(texts.iter().any(|t| t == "│ a │ bb │"));
    assert!(texts.iter().any(|t| t == "├───┼────┤"));
    assert!(texts.iter().any(|t| t == "│ 1 │ 2  │"));
    assert!(texts.iter().any(|t| t == "└───┴────┘"));
}

#[test]
fn lines_model_code_without_theme_is_plain() {
    let sx = Syntaxes::load();
    let ls = render_lines("```\nlet x = 1;\n```\n", &sx, "no such theme");
    let code: Vec<&Line> = ls.iter().filter(|l| line_text(l) == " let x = 1;").collect();
    assert_eq!(code.len(), 1);
    assert_eq!(code[0].style.bg, Some(Color::Black));
}

#[test]
fn lines_model_code_highlighted_with_theme() {
    let sx = Syntaxes::load();
    let ls = render_lines("```rust\nfn main() {}\n```\n", &sx, "base16-ocean.dark");
    let code: Vec<&Line> = ls.iter().filter(|l| line_text(l) == " fn main() {}").collect();
    assert_eq!(code.len(), 1);
    assert!(code[0].spans.len() > 2);
    assert_eq!(code[0].spans[0].style.bg, Some(Color::Black));
}

#[test]
fn lines_model_empty_document_is_one_blank_line() {
    let sx = Syntaxes::load();
    let ls = render_lines("", &sx, "base16-ocean.dark");
    assert_eq!(ls.len(), 1);
    assert_eq!(line_text(&ls[0]), " ");
}

#[test]
fn dump_row_emits_codes_at_style_changes() {
    let plain = Style::plain();
    let red = Style::plain().with_fg(Color::Red);
    let rgb = Style::plain().with_fg(Color::Rgb(1, 20, 255));
    let cells = vec![
        ("a".to_string(), plain),
        ("b".to_string(), plain),
        ("c".to_string(), red),
        ("d".to_string(), rgb),
    ];
    assert_eq!(
        dump_row(&cells),
        "\x1b[0m\x1b[39m\x1b[49mab\x1b[0m\x1b[31m\x1b[49mc\x1b[0m\x1b[38;2;1;20;255m\x1b[49md\x1b[0m"
    );
}

#[test]
fn screen_layout_bars_and_panes() {
    let (top, mid, bottom) = screen(Area { x: 0, y: 0, width: 80, height: 24 });
    assert_eq!(top, Area { x: 0, y: 0, width: 80, height: 1 });
    assert_eq!(mid, Area { x: 0, y: 1, width: 80, height: 22 });
    assert_eq!(bottom, Area { x: 0, y: 23, width: 80, height: 1 });
    let (ed, pv) = panes(mid);
    assert_eq!(ed, Area { x: 0, y: 1, width: 40, height: 22 });
    assert_eq!(pv, Area { x: 40, y: 1, width: 40, height: 22 });
    let pop = centered(50, 50, Area { x: 0, y: 0, width: 100, height: 100 });
    assert_eq!(pop, Area { x: 25, y: 25, width: 50, height: 50 });
}

#[test]
fn lines_model_plain_code_with_theme_keeps_text() {
    let sx = Syntaxes::load();
    let ls = render_lines("```\nabc def\n```\n", &sx, "base16-ocean.dark");
    let code: Vec<&Line> = ls.iter().filter(|l| line_text(l) == " abc def").collect();
    assert_eq!(code.len(), 1);
    assert_eq!(code[0].spans[0].text, " ");
    assert_eq!(code[0].spans[0].style.bg, Some(Color::Black));
    assert!(code[0].spans[1].style.fg.is_some());
}

#[test]
fn marks_spell_the_row_text() {
    let mut a = app("Straße straße STRASSE");
    a.last_query = "straße".to_string();
    let inner = Area { x: 0, y: 0, width: 60, height: 3 };
    let (rows, _) = editor_view(&a, inner);
    let text: String = rows[0][1..].iter().map(|s| s.text.as_str()).collect();
    assert_eq!(text, "Straße straße STRASSE");
    assert_eq!(rows[0][1].text, "Straße");
}

#[test]
fn editor_rows_never_exceed_the_pane() {
    let a = app("1\n2\n3\n4\n5\n6\n7\n8\n9\n10\n11\n12");
    let inner = Area { x: 0, y: 0, width: 20, height: 4 };
    let (rows, cur) = editor_view(&a, inner);
    assert_eq!(rows.len(), 4);
    assert_eq!(rows[3][0].text, " 4 ");
    assert_eq!(cur, Some((3, 0)));
}

#[test]
fn base64_takes_four_chars_per_group() {
    for n in 0..10usize {
        let data = vec![7u8; n];
        assert_eq!(base64_encode(&data).len(), 4 * ((n + 2) / 3));
    }
}

#[test]
fn display_up_moves_one_row() {
    let mut a = app("a\nb\nc");
    a.editor_width = 40;
    a.buf.cursor_line = 2;
    a.buf.cursor_col = 0;
    a.display_up();
    assert_eq!((a.buf.cursor_line, a.buf.cursor_col), (1, 0));
    a.display_up();
    assert_eq!((a.buf.cursor_line, a.buf.cursor_col), (0, 0));
}

#[test]
fn search_sets_char_column() {
    let mut a = app("x\nÉtÉ ok");
    assert!(a.find_next("ok", true));
    assert_eq!((a.buf.cursor_line, a.buf.cursor_col), (1, 4));
    assert_eq!(a.status, "match at line 2");
}

#[test]
fn search_ignores_ascii_case() {
    let mut a = app("one\nHello World");
    assert!(a.find_next("WORLD", true));
    assert_eq!((a.buf.cursor_line, a.buf.cursor_col), (1, 6));
}

#[test]
fn headings_skip_fenced_code() {
    let a = app("```\n# not a heading\n```\n## Real");
    assert_eq!(a.headings(), vec![(3, 2, "Real".to_string())]);
}

#[test]
fn click_lands_on_clicked_char() {
    let mut a = app("hello");
    a.editor_width = 40;
    a.editor_height = 10;
    a.click_editor(5, 0);
    assert_eq!((a.buf.cursor_line, a.buf.cursor_col), (0, 2));
    a.click_editor(3, 0);
    assert_eq!(a.buf.cursor_col, 0);
}

#[test]
fn command_x_quits_and_reports_save() {
    let mut a = app("a\nb\nc");
    press(&mut a, key(KeyCode::Char(':')));
    press(&mut a, key(KeyCode::Char('x')));
    let eff = press(&mut a, key(KeyCode::Enter));
    assert!(matches!(eff, Effect::Save));
    assert!(a.should_quit);
    terra::keys::save_done(&mut a, terra::keys::SaveOutcome::NoPath);
    assert_eq!(a.status, "saved (no path)");
    assert!(!a.status_is_error);
}

#[test]
fn save_outcomes_set_status() {
    let mut a = app("z");
    a.buf.dirty = true;
    terra::keys::save_done(&mut a, terra::keys::SaveOutcome::Written(Some("n.md".to_string())));
    assert_eq!(a.status, "saved n.md");
    assert!(!a.buf.dirty);
    terra::keys::save_done(&mut a, terra::keys::SaveOutcome::Failed("denied".to_string()));
    assert_eq!(a.status, "save failed: denied");
    assert!(a.status_is_error);
}

#[test]
fn preview_scroll_clamped_to_content() {
    let mut a = app("z");
    a.preview_content_height = 10;
    a.preview_scroll = 25;
    terra::keys::clamp_preview_scroll(&mut a);
    assert_eq!(a.preview_scroll, 9);
    a.preview_scroll = 4;
    terra::keys::clamp_preview_scroll(&mut a);
    assert_eq!(a.preview_scroll, 4);
}

#[test]
fn bundled_theme_names_are_known() {
    let sx = Syntaxes::load();
    assert!(terra::syntax::has_theme(&sx, "InspiredGitHub"));
    assert!(terra::syntax::has_theme(&sx, "base16-ocean.light"));
    assert!(!terra::syntax::has_theme(&sx, "Monokai"));
}

#[test]
fn lang_block_uses_language_syntax() {
    let sx = Syntaxes::load();
    let lines = vec!["fn main() {}".to_string()];
    let rust = terra::syntax::highlight_lang_block(&sx, "rust", "base16-ocean.dark", &lines);
    let plain = terra::syntax::highlight_lang_block(&sx, "no-such-language", "base16-ocean.dark", &lines);
    assert_eq!(rust.len(), 1);
    assert_eq!(plain.len(), 1);
    assert!(rust[0].len() > plain[0].len());
}

#[test]
fn whitespace_beyond_ascii() {
    assert!(terra::chars::is_whitespace('\u{3000}'));
    assert!(terra::chars::is_whitespace('\u{85}'));
    assert!(!terra::chars::is_whitespace('\u{200B}'));
}

#[test]
fn six_code_theme_presses_come_back() {
    let mut a = app("x");
    let start = a.preview_theme.clone();
    let mut seen = Vec::new();
    for _ in 0..6 {
        press(&mut a, ctrl('e'));
        assert_eq!(a.cached_rev, u64::MAX);
        assert_eq!(a.status, format!("preview theme: {}", a.preview_theme));
        seen.push(a.preview_theme.clone());
    }
    assert_eq!(a.preview_theme, start);
    let mut names = seen.clone();
    names.sort();
    names.dedup();
    assert_eq!(names.len(), 6);
}

#[test]
fn insert_then_backspace_restores() {
    let mut b = Buffer::new("ab\ncd");
    b.cursor_line = 1;
    b.cursor_col = 1;
    b.insert_char('Z');
    b.backspace();
    assert_eq!(b.text(), "ab\ncd");
    assert_eq!((b.cursor_line, b.cursor_col), (1, 1));
}
