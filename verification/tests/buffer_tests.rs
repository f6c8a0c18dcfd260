//! Editing-core scenarios: insertion, deletion, motion, smart lists, undo/redo.

use terra::buffer::Buffer;

#[test]
fn insert_and_text_roundtrip() {
    let mut b = Buffer::new("hi");
    b.line_end(); // cursor at end
    b.insert_char('!');
    assert_eq!(b.text(), "hi!");
    b.insert_newline();
    assert_eq!(b.text(), "hi!\n");
}

#[test]
fn backspace_joins_lines() {
    let mut b = Buffer::new("ab\ncd");
    b.cursor_line = 1; // start of second line
    b.cursor_col = 0;
    b.backspace();
    assert_eq!(b.text(), "abcd");
    assert_eq!(b.cursor_line, 0);
    assert_eq!(b.cursor_col, 2);
}

#[test]
fn backspace_mid_line() {
    let mut b = Buffer::new("abc");
    b.cursor_col = 2; // between b and c
    b.backspace();
    assert_eq!(b.text(), "ac");
    assert_eq!(b.cursor_col, 1);
}

#[test]
fn delete_under_cursor() {
    let mut b = Buffer::new("abc");
    b.cursor_col = 0;
    b.delete();
    assert_eq!(b.text(), "bc");
}

#[test]
fn delete_at_eol_joins_next() {
    let mut b = Buffer::new("ab\ncd");
    b.cursor_line = 0;
    b.cursor_col = 2;
    b.delete();
    assert_eq!(b.text(), "abcd");
}

#[test]
fn insert_text_multiline() {
    let mut b = Buffer::new("hello world");
    // cursor after "hello " (col 6, at the 'w')
    b.cursor_col = 6;
    b.insert_text("there\nnew line");
    assert_eq!(b.text(), "hello there\nnew lineworld");
    assert_eq!(b.cursor_line, 1);
}

#[test]
fn word_movement_forward() {
    let mut b = Buffer::new("foo bar baz");
    b.word_forward();
    assert_eq!(b.cursor_col, 3, "after first word");
    b.word_forward(); // skip space, land after bar
    assert_eq!(b.cursor_col, 7);
}

#[test]
fn word_movement_back() {
    let mut b = Buffer::new("foo bar baz");
    b.cursor_col = 7; // after "bar"
    b.word_back();
    assert_eq!(b.cursor_col, 4);
}

#[test]
fn up_down_with_desired_col() {
    let mut b = Buffer::new("short\nthis is a longer line\ntiny");
    b.cursor_line = 1;
    b.cursor_col = 10;
    b.up();
    assert_eq!(b.cursor_line, 0);
    assert!(b.cursor_col <= 5); // clamped to short line
    b.down();
    assert_eq!(b.cursor_line, 1);
    assert_eq!(b.cursor_col, 10, "desired col restored");
}

#[test]
fn navigation_at_boundaries() {
    let mut b = Buffer::new("a\nb\nc");
    b.cursor_line = 0; b.cursor_col = 0;
    b.left(); // no-op
    assert_eq!((b.cursor_line, b.cursor_col), (0, 0));
    b.line_end();
    b.right(); // wrap to next line
    assert_eq!((b.cursor_line, b.cursor_col), (1, 0));
}

#[test]
fn empty_buffer_safe() {
    let b = Buffer::new("");
    assert_eq!(b.line_count(), 1);
    assert_eq!(b.text(), "");
}

#[test]
fn smart_list_continues_bullet() {
    let mut b = Buffer::new("- one");
    b.line_end();
    b.insert_newline_smart();
    assert_eq!(b.text(), "- one\n- ");
}

#[test]
fn smart_list_continues_ordered() {
    let mut b = Buffer::new("1. one");
    b.line_end();
    b.insert_newline_smart();
    assert_eq!(b.text(), "1. one\n2. ");
    b.insert_text("two");
    b.line_end();
    b.insert_newline_smart();
    assert_eq!(b.text(), "1. one\n2. two\n3. ");
}

#[test]
fn smart_list_continues_task() {
    let mut b = Buffer::new("- [ ] todo");
    b.line_end();
    b.insert_newline_smart();
    assert_eq!(b.text(), "- [ ] todo\n- [ ] ");
}

#[test]
fn smart_list_empty_item_outdents() {
    let mut b = Buffer::new("- one\n- ");
    b.cursor_line = 1;
    b.line_end();
    b.insert_newline_smart();
    assert_eq!(b.text(), "- one\n\n");
}

#[test]
fn duplicate_line_works() {
    let mut b = Buffer::new("a\nb\nc");
    b.cursor_line = 1;
    b.duplicate_line();
    assert_eq!(b.text(), "a\nb\nb\nc");
    assert_eq!(b.cursor_line, 2);
}

#[test]
fn delete_line_works() {
    let mut b = Buffer::new("a\nb\nc");
    b.cursor_line = 1;
    b.delete_line();
    assert_eq!(b.text(), "a\nc");
    assert_eq!(b.cursor_line, 1);
}

#[test]
fn delete_last_line_safe() {
    let mut b = Buffer::new("only");
    b.delete_line();
    assert_eq!(b.text(), "");
    assert_eq!(b.line_count(), 1);
}

#[test]
fn undo_redo_basic() {
    let mut b = Buffer::new("hello");
    b.line_end();
    b.insert_char('!'); // "hello!"
    b.insert_char('?'); // "hello!?" (coalesced)
    assert_eq!(b.text(), "hello!?");
    b.undo();
    assert_eq!(b.text(), "hello");
    b.redo();
    assert_eq!(b.text(), "hello!?");
}

#[test]
fn undo_backspace() {
    let mut b = Buffer::new("abc");
    b.line_end();
    b.backspace(); // "ab"
    b.backspace(); // "a"
    assert_eq!(b.text(), "a");
    b.undo(); // back to "ab"
    assert_eq!(b.text(), "ab");
    b.undo(); // back to "abc"
    assert_eq!(b.text(), "abc");
}

#[test]
fn auto_indent_preserves_whitespace() {
    let mut b = Buffer::new("    indented code");
    b.line_end();
    b.insert_newline_smart();
    assert_eq!(b.text(), "    indented code\n    ");
    assert_eq!(b.cursor_col, 4);
}

#[test]
fn undo_group_then_new_edit_clears_future() {
    let mut b = Buffer::new("x");
    b.line_end();
    b.insert_char('y');
    b.undo();
    assert_eq!(b.text(), "x");
    b.insert_char('z'); // new edit clears redo
    assert_eq!(b.text(), "xz");
    b.redo(); // no-op
    assert_eq!(b.text(), "xz");
}

#[test]
fn consecutive_inserts_undo_as_one_step() {
    let mut b = Buffer::new("hello");
    b.line_end();
    b.insert_char('!');
    b.insert_char('?');
    b.insert_char('.');
    assert_eq!(b.text(), "hello!?.");
    b.undo();
    assert_eq!(b.text(), "hello");
}

#[test]
fn insert_after_moving_opens_new_undo_step() {
    let mut b = Buffer::new("ab");
    b.line_end();
    b.insert_char('x');
    b.insert_char('y');
    b.line_start();
    b.insert_char('z');
    assert_eq!(b.text(), "zabxy");
    b.undo();
    assert_eq!(b.text(), "abxy");
    b.undo();
    assert_eq!(b.text(), "ab");
}

#[test]
fn blank_zero_padded_item_ends_list() {
    let mut b = Buffer::new("007. ");
    b.line_end();
    b.insert_newline_smart();
    assert_eq!(b.text(), "\n");
    assert_eq!(b.cursor_line, 1);
    assert_eq!(b.cursor_col, 0);
}

#[test]
fn zero_padded_item_continues_with_next_number() {
    let mut b = Buffer::new("007. x");
    b.line_end();
    b.insert_newline_smart();
    assert_eq!(b.text(), "007. x\n8. ");
}

#[test]
fn word_wrap_breaks_at_word_boundary() {
    let cs: Vec<char> = "ab cd".chars().collect();
    assert_eq!(terra::wrap::segments(&cs, 4), vec![(0, 3), (3, 2)]);
    let long: Vec<char> = "abcdef".chars().collect();
    assert_eq!(terra::wrap::segments(&long, 4), vec![(0, 4), (4, 2)]);
    let words: Vec<char> = "aa bb cc".chars().collect();
    assert_eq!(terra::wrap::segments(&words, 4), vec![(0, 3), (3, 3), (6, 2)]);
    assert_eq!(terra::wrap::segments(&[], 4), vec![(0, 0)]);
}

#[test]
fn undo_steps_by_word() {
    let mut b = Buffer::new("");
    for c in "hello world".chars() {
        b.insert_char(c);
    }
    assert_eq!(b.text(), "hello world");
    b.undo();
    assert_eq!(b.text(), "hello ");
    b.undo();
    assert_eq!(b.text(), "");
}

#[test]
fn redo_after_undo_restores_cursor() {
    let mut b = Buffer::new("hello");
    b.line_end();
    b.insert_char('!');
    b.insert_char('?');
    let (t, l, c) = (b.text(), b.cursor_line, b.cursor_col);
    b.undo();
    b.redo();
    assert_eq!((b.text(), b.cursor_line, b.cursor_col), (t, l, c));
}
