//! Line-based text buffer with cursor, editing operations and undo/redo.

use vstd::prelude::*;
use crate::text::{
    chars_of, join_lines, join_text, lemma_join_split, no_newline, push_char, split_lines,
    split_text, string_of, views,
};
use crate::chars::{alnum, is_alphanumeric, is_whitespace, white};
use crate::num::{decimal, decimal_chars, digits_value, is_digit};

verus! {

#[verifier::external_type_specification]
#[verifier::external_body]
pub struct ExPathBuf(std::path::PathBuf);

/// The abstract state of a snapshot kept for undo and redo.
pub struct SnapView {
    pub text: Seq<char>,
    pub line: int,
    pub col: int,
    /// Whether the snapshot opened a run of character insertions.
    pub insert: bool,
    /// The cursor column of the run's latest insertion.
    pub at: int,
}

/// The abstract state of a buffer: its lines (without newlines), the cursor,
/// the remembered column for vertical motion, and the undo and redo stacks.
pub struct BufModel {
    pub lines: Seq<Seq<char>>,
    pub line: int,
    pub col: int,
    pub desired: Option<int>,
    pub dirty: bool,
    pub path: Option<std::path::PathBuf>,
    pub revision: u64,
    pub undo: Seq<SnapView>,
    pub redo: Seq<SnapView>,
}

/// The most snapshots that an edit leaves on the undo stack.
pub const HISTORY_LIMIT: usize = 256;

/// A piece of text represented as a vector of lines. Each `String` holds the
/// contents of a single line *without* a trailing newline.
pub struct Buffer {
    pub lines: Vec<String>,
    /// Logical cursor: (line, char-column).
    pub cursor_line: usize,
    pub cursor_col: usize,
    /// Desired visual column when moving vertically across short lines.
    pub desired_col: Option<usize>,
    pub dirty: bool,
    pub path: Option<std::path::PathBuf>,
    /// Modification generation, bumped on every edit (used for preview cache).
    pub revision: u64,
    pub history: Vec<Snap>,
    pub future: Vec<Snap>,
}

/// A saved state for undo and redo.
pub struct Snap {
    pub text: String,
    pub line: usize,
    pub col: usize,
    /// Whether the snapshot opened a run of character insertions.
    pub insert: bool,
    /// The cursor column of the run's latest insertion.
    pub at: usize,
}

impl Snap {
    pub open spec fn view(self) -> SnapView {
        SnapView { text: self.text@, line: self.line as int, col: self.col as int, insert: self.insert, at: self.at as int }
    }
}

pub open spec fn snap_views(s: Seq<Snap>) -> Seq<SnapView> {
    s.map_values(|x: Snap| x.view())
}

impl Buffer {
    /// The remembered column for vertical motion.
    pub open spec fn desired_view(&self) -> Option<int> {
        match self.desired_col {
            Some(d) => Some(d as int),
            None => None,
        }
    }

    /// The undo stack, oldest first.
    pub open spec fn undo_view(&self) -> Seq<SnapView> {
        snap_views(self.history@)
    }

    /// The redo stack, oldest first.
    pub open spec fn redo_view(&self) -> Seq<SnapView> {
        snap_views(self.future@)
    }
}

impl View for Buffer {
    type V = BufModel;

    open spec fn view(&self) -> BufModel {
        BufModel {
            lines: views(self.lines@),
            line: self.cursor_line as int,
            col: self.cursor_col as int,
            desired: self.desired_view(),
            dirty: self.dirty,
            path: self.path,
            revision: self.revision,
            undo: self.undo_view(),
            redo: self.redo_view(),
        }
    }
}

/// The revision counter after one more edit (wrapping).
pub open spec fn bump(r: u64) -> u64 {
    if r == u64::MAX { 0 } else { (r + 1) as u64 }
}

/// Keep at most `HISTORY_LIMIT` snapshots, dropping the oldest.
pub open spec fn capped(h: Seq<SnapView>) -> Seq<SnapView> {
    if h.len() > HISTORY_LIMIT { h.drop_first() } else { h }
}

/// The char-column that `up`/`down` land on in a line of length `len`.
pub open spec fn min_int(a: int, b: int) -> int {
    if a <= b { a } else { b }
}

impl BufModel {
    /// The whole text: the lines joined by newlines.
    pub open spec fn text(self) -> Seq<char> {
        join_lines(self.lines)
    }

    /// Length in chars of line `i` (0 when out of range).
    pub open spec fn len_of(self, i: int) -> int {
        if 0 <= i < self.lines.len() { self.lines[i].len() as int } else { 0 }
    }

    /// The buffer's invariant: at least one line, and the cursor on a line.
    pub open spec fn wf(self) -> bool {
        &&& self.lines.len() >= 1
        &&& 0 <= self.line < self.lines.len()
        &&& 0 <= self.col
    }

    /// The cursor column lies within its line (or at its end).
    pub open spec fn cursor_in_line(self) -> bool {
        self.col <= self.len_of(self.line)
    }

    /// A fresh buffer holding `t`.
    pub open spec fn fresh(t: Seq<char>) -> BufModel {
        BufModel {
            lines: split_lines(t),
            line: 0,
            col: 0,
            desired: None,
            dirty: false,
            path: None,
            revision: 0,
            undo: Seq::empty(),
            redo: Seq::empty(),
        }
    }

    pub open spec fn touch(self) -> BufModel {
        BufModel { dirty: true, revision: bump(self.revision), ..self }
    }

    /// The snapshot of the current state.
    pub open spec fn snap(self, insert: bool) -> SnapView {
        SnapView { text: self.text(), line: self.line, col: self.col, insert, at: self.col }
    }

    /// An insertion one column after the run's latest insertion, on the same
    /// line, joins that run.
    pub open spec fn coalesces(self, insert: bool) -> bool {
        &&& insert
        &&& self.undo.len() > 0
        &&& self.undo.last().insert
        &&& self.undo.last().line == self.line
        &&& self.undo.last().at + 1 == self.col
    }

    /// Open a new undo step: record the current state, which empties the
    /// redo stack.
    pub open spec fn new_step(self, insert: bool) -> BufModel {
        BufModel { undo: capped(self.undo.push(self.snap(insert))), redo: Seq::empty(), ..self }
    }

    /// Record the current state for undo, which empties the redo stack; an
    /// insertion that joins a run only moves the run's latest position.
    pub open spec fn checkpoint(self, insert: bool) -> BufModel {
        if self.coalesces(insert) {
            BufModel {
                undo: self.undo.update(self.undo.len() - 1, SnapView { at: self.col, ..self.undo.last() }),
                ..self
            }
        } else {
            self.new_step(insert)
        }
    }

    /// Typing `c` starts a new word: it is not whitespace and follows
    /// whitespace on its line.
    pub open spec fn word_start(self, c: char) -> bool {
        let l = self.lines[self.line];
        &&& !white(c)
        &&& 0 < self.col <= l.len()
        &&& white(l[self.col - 1])
    }

    /// Reload a snapshot: its text, with the cursor clamped into it.
    pub open spec fn restore(self, s: SnapView) -> BufModel {
        let ls = split_lines(s.text);
        let l = min_int(s.line, ls.len() - 1);
        let c = min_int(s.col, ls[l].len() as int);
        BufModel { lines: ls, line: l, col: c, desired: None, ..self }.touch()
    }

    pub open spec fn undo_step(self) -> BufModel {
        if self.undo.len() == 0 {
            self
        } else {
            BufModel {
                redo: self.redo.push(self.snap(false)),
                undo: self.undo.drop_last(),
                ..self
            }.restore(self.undo.last())
        }
    }

    pub open spec fn redo_step(self) -> BufModel {
        if self.redo.len() == 0 {
            self
        } else {
            BufModel {
                undo: self.undo.push(self.snap(false)),
                redo: self.redo.drop_last(),
                ..self
            }.restore(self.redo.last())
        }
    }

    pub open spec fn move_left(self) -> BufModel {
        if self.col > 0 {
            BufModel { col: self.col - 1, desired: None, ..self }
        } else if self.line > 0 {
            BufModel { line: self.line - 1, col: self.len_of(self.line - 1), desired: None, ..self }
        } else {
            BufModel { desired: None, ..self }
        }
    }

    pub open spec fn move_right(self) -> BufModel {
        if self.col < self.len_of(self.line) {
            BufModel { col: self.col + 1, desired: None, ..self }
        } else if self.line + 1 < self.lines.len() {
            BufModel { line: self.line + 1, col: 0, desired: None, ..self }
        } else {
            BufModel { desired: None, ..self }
        }
    }

    /// The remembered column, or the current one when none is remembered.
    pub open spec fn goal(self) -> int {
        match self.desired {
            Some(d) => d,
            None => self.col,
        }
    }

    pub open spec fn move_up(self) -> BufModel {
        if self.line > 0 {
            BufModel {
                line: self.line - 1,
                col: min_int(self.goal(), self.len_of(self.line - 1)),
                desired: Some(self.goal()),
                ..self
            }
        } else {
            self
        }
    }

    pub open spec fn move_down(self) -> BufModel {
        if self.line + 1 < self.lines.len() {
            BufModel {
                line: self.line + 1,
                col: min_int(self.goal(), self.len_of(self.line + 1)),
                desired: Some(self.goal()),
                ..self
            }
        } else {
            self
        }
    }
}

/// `l` with `c` inserted before position `i` (unchanged when `i` is past its end).
pub open spec fn ins_at(l: Seq<char>, i: int, c: char) -> Seq<char> {
    if 0 <= i <= l.len() { l.take(i) + seq![c] + l.skip(i) } else { l }
}

/// `l` without its character at position `i` (unchanged when there is none).
pub open spec fn del_at(l: Seq<char>, i: int) -> Seq<char> {
    if 0 <= i < l.len() { l.take(i) + l.skip(i + 1) } else { l }
}

impl BufModel {
    pub open spec fn insert_char(self, c: char) -> BufModel {
        let b = if self.word_start(c) { self.new_step(true) } else { self.checkpoint(true) };
        BufModel {
            lines: b.lines.update(b.line, ins_at(b.lines[b.line], b.col, c)),
            col: b.col + 1,
            desired: None,
            ..b
        }.touch()
    }

    /// Insert the characters of `t` one at a time.
    pub open spec fn insert_chars(self, t: Seq<char>) -> BufModel
        decreases t.len(),
    {
        if t.len() == 0 {
            self
        } else {
            self.insert_chars(t.drop_last()).insert_char(t.last())
        }
    }

    /// Paste `t`, which holds newlines, at the cursor: the current line is cut
    /// at the cursor, the first piece of `t` ends its first half, the last piece
    /// starts its second half, and the pieces between become lines of their own.
    pub open spec fn paste_lines(self, t: Seq<char>) -> BufModel {
        let parts = split_lines(t);
        let n = parts.len() as int;
        let cur = self.lines[self.line];
        let before = cur.take(self.col);
        let after = cur.skip(self.col);
        BufModel {
            lines: self.lines.take(self.line) + seq![before + parts[0]] + parts.subrange(1, n - 1)
                + seq![parts[n - 1] + after] + self.lines.skip(self.line + 1),
            line: self.line + n - 1,
            col: parts[n - 1].len() as int,
            desired: None,
            ..self
        }.touch()
    }

    pub open spec fn insert_text(self, t: Seq<char>) -> BufModel {
        let b = self.checkpoint(true);
        if t.len() == 0 {
            b
        } else if no_newline(t) {
            b.insert_chars(t)
        } else {
            b.paste_lines(t)
        }
    }

    pub open spec fn backspace(self) -> BufModel {
        let b = self.checkpoint(false);
        if b.col == 0 {
            if b.line > 0 {
                BufModel {
                    lines: b.lines.update(b.line - 1, b.lines[b.line - 1] + b.lines[b.line]).remove(
                        b.line,
                    ),
                    line: b.line - 1,
                    col: b.lines[b.line - 1].len() as int,
                    desired: None,
                    ..b
                }.touch()
            } else {
                BufModel { desired: None, ..b }
            }
        } else {
            BufModel {
                lines: b.lines.update(b.line, del_at(b.lines[b.line], b.col - 1)),
                col: b.col - 1,
                desired: None,
                ..b
            }.touch()
        }
    }

    pub open spec fn delete(self) -> BufModel {
        let b = self.checkpoint(false);
        if b.col < b.len_of(b.line) {
            BufModel {
                lines: b.lines.update(b.line, del_at(b.lines[b.line], b.col)),
                desired: None,
                ..b
            }.touch()
        } else if b.line + 1 < b.lines.len() {
            BufModel {
                lines: b.lines.update(b.line, b.lines[b.line] + b.lines[b.line + 1]).remove(
                    b.line + 1,
                ),
                desired: None,
                ..b
            }.touch()
        } else {
            BufModel { desired: None, ..b }
        }
    }

    pub open spec fn duplicate_line(self) -> BufModel {
        let b = self.checkpoint(false);
        BufModel {
            lines: b.lines.insert(b.line + 1, b.lines[b.line]),
            line: b.line + 1,
            desired: None,
            ..b
        }.touch()
    }

    pub open spec fn delete_line(self) -> BufModel {
        let b = self.checkpoint(false);
        if b.lines.len() <= 1 {
            BufModel {
                lines: b.lines.update(0, Seq::empty()),
                col: 0,
                desired: None,
                ..b
            }.touch()
        } else {
            let ls = b.lines.remove(b.line);
            let l = if b.line >= ls.len() { ls.len() - 1 } else { b.line };
            BufModel {
                lines: ls,
                line: l,
                col: min_int(b.col, ls[l].len() as int),
                desired: None,
                ..b
            }.touch()
        }
    }
}


/// First position at or after `i` that holds an alphanumeric character (or the end).
pub open spec fn skip_non_alnum(cs: Seq<char>, i: int) -> int
    decreases cs.len() - i,
{
    if 0 <= i < cs.len() && !alnum(cs[i]) { skip_non_alnum(cs, i + 1) } else { i }
}

/// First position at or after `i` that does not hold an alphanumeric character.
pub open spec fn skip_alnum(cs: Seq<char>, i: int) -> int
    decreases cs.len() - i,
{
    if 0 <= i < cs.len() && alnum(cs[i]) { skip_alnum(cs, i + 1) } else { i }
}

/// Going left from `i`, the first position whose left neighbour is alphanumeric.
pub open spec fn back_non_alnum(cs: Seq<char>, i: int) -> int
    decreases i,
{
    if 0 < i <= cs.len() && !alnum(cs[i - 1]) { back_non_alnum(cs, i - 1) } else { i }
}

/// Going left from `i`, the first position whose left neighbour is not alphanumeric.
pub open spec fn back_alnum(cs: Seq<char>, i: int) -> int
    decreases i,
{
    if 0 < i <= cs.len() && alnum(cs[i - 1]) { back_alnum(cs, i - 1) } else { i }
}

/// Where a forward word motion from `col` stops: past the non-word characters,
/// then past the word that follows.
pub open spec fn word_end(cs: Seq<char>, col: int) -> int {
    skip_alnum(cs, skip_non_alnum(cs, col))
}

/// Where a backward word motion from `col` stops: to the start of the word
/// before the non-word characters left of `col`.
pub open spec fn word_start(cs: Seq<char>, col: int) -> int {
    back_alnum(cs, back_non_alnum(cs, col))
}

impl BufModel {
    pub open spec fn word_forward(self) -> BufModel {
        BufModel { col: word_end(self.lines[self.line], self.col), desired: None, ..self }
    }

    pub open spec fn word_back(self) -> BufModel {
        BufModel { col: word_start(self.lines[self.line], self.col), desired: None, ..self }
    }
}


/// Index of the first character at or after `i` that is not a space.
pub open spec fn space_end(cs: Seq<char>, i: int) -> int
    decreases cs.len() - i,
{
    if 0 <= i < cs.len() && cs[i] == ' ' { space_end(cs, i + 1) } else { i }
}

/// Index of the first character at or after `i` that is neither space nor tab.
pub open spec fn indent_end(cs: Seq<char>, i: int) -> int
    decreases cs.len() - i,
{
    if 0 <= i < cs.len() && (cs[i] == ' ' || cs[i] == '\t') { indent_end(cs, i + 1) } else { i }
}

/// Index of the first character at or after `i` that is not an ASCII digit.
pub open spec fn digit_end(cs: Seq<char>, i: int) -> int
    decreases cs.len() - i,
{
    if 0 <= i < cs.len() && is_digit(cs[i]) { digit_end(cs, i + 1) } else { i }
}

pub open spec fn is_bullet(c: char) -> bool {
    c == '-' || c == '*' || c == '+'
}

/// A task checkbox `[ ] `, `[x] ` or `[X] ` at position `i`.
pub open spec fn task_box_at(cs: Seq<char>, i: int) -> bool {
    &&& 0 <= i
    &&& i + 4 <= cs.len()
    &&& cs[i] == '['
    &&& (cs[i + 1] == ' ' || cs[i + 1] == 'x' || cs[i + 1] == 'X')
    &&& cs[i + 2] == ']'
    &&& cs[i + 3] == ' '
}

/// A bullet marker (`- `, `* ` or `+ `) after the indent.
pub open spec fn bullet_item(cs: Seq<char>) -> bool {
    let ind = space_end(cs, 0);
    ind + 2 <= cs.len() && is_bullet(cs[ind]) && cs[ind + 1] == ' '
}

/// An ordered marker (digits, then `. `) after the indent.
pub open spec fn ordered_item(cs: Seq<char>) -> bool {
    let ind = space_end(cs, 0);
    let e = digit_end(cs, ind);
    &&& !bullet_item(cs)
    &&& e > ind
    &&& e + 2 <= cs.len()
    &&& cs[e] == '.'
    &&& cs[e + 1] == ' '
}

/// The number written in an ordered marker (read as 1 when it exceeds `u64`).
pub open spec fn item_number(cs: Seq<char>) -> nat {
    let ind = space_end(cs, 0);
    let v = digits_value(cs.subrange(ind, digit_end(cs, ind)));
    if v <= u64::MAX { v } else { 1 }
}

/// Detect a Markdown list prefix at the start of a line: the number of
/// characters the prefix takes (indent and marker), and the prefix to use for
/// the next line.
pub open spec fn list_prefix_of(cs: Seq<char>) -> Option<(int, Seq<char>)> {
    let ind = space_end(cs, 0);
    if bullet_item(cs) {
        if task_box_at(cs, ind + 2) {
            Some((ind + 6, cs.take(ind + 2) + seq!['[', ' ', ']', ' ']))
        } else {
            Some((ind + 2, cs.take(ind + 2)))
        }
    } else if ordered_item(cs) {
        let num = item_number(cs);
        Some((digit_end(cs, ind) + 2, cs.take(ind) + decimal(num + 1) + seq!['.', ' ']))
    } else {
        None
    }
}

/// Every character is whitespace.
pub open spec fn all_white(s: Seq<char>) -> bool {
    forall|i: int| 0 <= i < s.len() ==> white(#[trigger] s[i])
}

impl BufModel {
    /// Smart newline: continue a list item, end an empty one, or carry the
    /// indentation over.
    pub open spec fn newline_smart(self) -> BufModel {
        let cs = self.lines[self.line];
        match list_prefix_of(cs) {
            Some((n, next)) => if all_white(cs.skip(n)) {
                BufModel { lines: self.lines.update(self.line, Seq::empty()), col: 0, ..self }.insert_text(
                    seq!['\n'],
                )
            } else {
                self.insert_text(seq!['\n']).insert_text(next)
            },
            None => {
                let ind = cs.take(indent_end(cs, 0));
                let b = self.insert_text(seq!['\n']);
                if ind.len() > 0 { b.insert_text(ind) } else { b }
            },
        }
    }
}

pub proof fn lemma_space_end(cs: Seq<char>, i: int)
    requires
        0 <= i <= cs.len(),
    ensures
        i <= space_end(cs, i) <= cs.len(),
        forall|j: int| i <= j < space_end(cs, i) ==> cs[j] == ' ',
        space_end(cs, i) < cs.len() ==> cs[space_end(cs, i)] != ' ',
    decreases cs.len() - i,
{
    if i < cs.len() && cs[i] == ' ' {
        lemma_space_end(cs, i + 1);
    }
}

pub proof fn lemma_indent_end(cs: Seq<char>, i: int)
    requires
        0 <= i <= cs.len(),
    ensures
        i <= indent_end(cs, i) <= cs.len(),
    decreases cs.len() - i,
{
    if i < cs.len() && (cs[i] == ' ' || cs[i] == '\t') {
        lemma_indent_end(cs, i + 1);
    }
}

pub proof fn lemma_digit_end(cs: Seq<char>, i: int)
    requires
        0 <= i <= cs.len(),
    ensures
        i <= digit_end(cs, i) <= cs.len(),
        forall|j: int| i <= j < digit_end(cs, i) ==> is_digit(cs[j]),
    decreases cs.len() - i,
{
    if i < cs.len() && is_digit(cs[i]) {
        lemma_digit_end(cs, i + 1);
    }
}

proof fn lemma_split_one_newline()
    ensures
        split_lines(seq!['\n']) == seq![Seq::<char>::empty(), Seq::<char>::empty()],
{
    assert(seq!['\n'].drop_first() =~= Seq::<char>::empty());
    assert(split_lines(Seq::<char>::empty()) == seq![Seq::<char>::empty()]);
    assert(split_lines(seq!['\n']) =~= seq![Seq::<char>::empty(), Seq::<char>::empty()]);
}

/// A detected list prefix.
struct Prefix {
    orig_len: usize,
    next: String,
}

/// Read the ASCII digits `cs[lo..hi]`; `None` when the value exceeds `u64`.
pub(crate) fn parse_digits(cs: &Vec<char>, lo: usize, hi: usize) -> (r: Option<u64>)
    requires
        lo <= hi <= cs@.len(),
        forall|j: int| lo <= j < hi ==> is_digit(cs@[j]),
    ensures
        match r {
            Some(v) => v as nat == digits_value(cs@.subrange(lo as int, hi as int)),
            None => digits_value(cs@.subrange(lo as int, hi as int)) > u64::MAX,
        },
{
    let mut v: u64 = 0;
    let mut ok = true;
    let mut i = lo;
    while i < hi
        invariant
            lo <= i <= hi <= cs@.len(),
            forall|j: int| lo <= j < hi ==> is_digit(cs@[j]),
            ok ==> v as nat == digits_value(cs@.subrange(lo as int, i as int)),
            !ok ==> digits_value(cs@.subrange(lo as int, i as int)) > u64::MAX,
        decreases hi - i,
    {
        let c = cs[i];
        let d = (c as u32 - 48) as u64;
        let ghost prev = cs@.subrange(lo as int, i as int);
        let ghost next = cs@.subrange(lo as int, i as int + 1);
        proof {
            assert(next.drop_last() =~= prev);
            assert(next.last() == c);
            assert(is_digit(cs@[i as int]));
        }
        if ok {
            match v.checked_mul(10) {
                Some(m) => match m.checked_add(d) {
                    Some(a) => {
                        v = a;
                    },
                    None => {
                        ok = false;
                    },
                },
                None => {
                    ok = false;
                    assert(digits_value(prev) * 10 + crate::num::digit_value(c) > u64::MAX) by (nonlinear_arith)
                        requires
                            digits_value(prev) * 10 > u64::MAX,
                    ;
                },
            }
        } else {
            assert(digits_value(prev) * 10 + crate::num::digit_value(c) > u64::MAX) by (nonlinear_arith)
                requires
                    digits_value(prev) > u64::MAX,
            ;
        }
        i += 1;
    }
    if ok { Some(v) } else { None }
}

/// Whether the number of an ordered list marker can be followed by the next
/// one in `u64` (true when the line has no ordered marker).
pub fn marker_fits(cs: &Vec<char>) -> (b: bool)
    ensures
        b == (ordered_item(cs@) ==> item_number(cs@) < u64::MAX),
{
    let n = cs.len();
    let mut i: usize = 0;
    while i < n && cs[i] == ' '
        invariant
            i <= n == cs@.len(),
            space_end(cs@, i as int) == space_end(cs@, 0),
        decreases n - i,
    {
        i += 1;
    }
    let indent = i;
    proof {
        lemma_space_end(cs@, 0);
    }
    if n >= 2 && indent <= n - 2 && (cs[indent] == '-' || cs[indent] == '*' || cs[indent] == '+')
        && cs[indent + 1] == ' ' {
        return true;
    }
    let mut e = indent;
    while e < n && '0' <= cs[e] && cs[e] <= '9'
        invariant
            indent <= e <= n == cs@.len(),
            digit_end(cs@, e as int) == digit_end(cs@, indent as int),
            forall|j: int| indent <= j < e ==> is_digit(cs@[j]),
        decreases n - e,
    {
        e += 1;
    }
    proof {
        lemma_digit_end(cs@, indent as int);
    }
    if e > indent && n >= 2 && e <= n - 2 && cs[e] == '.' && cs[e + 1] == ' ' {
        proof {
            assert(digit_end(cs@, indent as int) == e as int);
        }
        match parse_digits(cs, indent, e) {
            Some(v) => v < u64::MAX,
            None => true,
        }
    } else {
        true
    }
}

/// Detect a list prefix; see `list_prefix_of`.
fn list_prefix(cs: &Vec<char>) -> (r: Option<Prefix>)
    requires
        ordered_item(cs@) ==> item_number(cs@) < u64::MAX,
    ensures
        match r {
            Some(p) => list_prefix_of(cs@) == Some((p.orig_len as int, p.next@))
                && p.orig_len <= cs@.len() && p.next@.len() <= cs@.len() + 24,
            None => list_prefix_of(cs@) is None,
        },
{
    let n = cs.len();
    let mut i: usize = 0;
    // leading spaces (indent)
    while i < n && cs[i] == ' '
        invariant
            i <= n == cs@.len(),
            space_end(cs@, i as int) == space_end(cs@, 0),
        decreases n - i,
    {
        i += 1;
    }
    let indent = i;
    proof {
        lemma_space_end(cs@, 0);
    }
    // task list / bullet
    if n >= 2 && indent <= n - 2 && (cs[indent] == '-' || cs[indent] == '*' || cs[indent] == '+')
        && cs[indent + 1] == ' ' {
        let mut next = string_of(cs.as_slice(), 0, indent + 2);
        if n >= 6 && indent <= n - 6 && cs[indent + 2] == '[' && (cs[indent + 3] == ' ' || cs[indent
            + 3] == 'x' || cs[indent + 3] == 'X') && cs[indent + 4] == ']' && cs[indent + 5] == ' ' {
            push_char(&mut next, '[');
            push_char(&mut next, ' ');
            push_char(&mut next, ']');
            push_char(&mut next, ' ');
            proof {
                assert(next@ =~= cs@.take(indent + 2) + seq!['[', ' ', ']', ' ']);
            }
            return Some(Prefix { orig_len: indent + 6, next });
        }
        proof {
            assert(next@ =~= cs@.take(indent + 2));
        }
        return Some(Prefix { orig_len: indent + 2, next });
    }
    // ordered list
    let mut e = indent;
    while e < n && '0' <= cs[e] && cs[e] <= '9'
        invariant
            indent <= e <= n == cs@.len(),
            digit_end(cs@, e as int) == digit_end(cs@, indent as int),
        decreases n - e,
    {
        e += 1;
    }
    proof {
        lemma_digit_end(cs@, indent as int);
    }
    if e > indent && n >= 2 && e <= n - 2 && cs[e] == '.' && cs[e + 1] == ' ' {
        let num: u64 = match parse_digits(cs, indent, e) {
            Some(v) => v,
            None => 1,
        };
        let next_marker = decimal_chars(num + 1);
        let mut next = string_of(cs.as_slice(), 0, indent);
        let nm = string_of(next_marker.as_slice(), 0, next_marker.len());
        next.append(nm.as_str());
        push_char(&mut next, '.');
        push_char(&mut next, ' ');
        proof {
            assert(next_marker@.subrange(0, next_marker@.len() as int) =~= next_marker@);
            assert(next@ =~= cs@.take(indent as int) + decimal((num + 1) as nat) + seq!['.', ' ']);
            let ds = cs@.subrange(indent as int, e as int);
            assert forall|j: int| 0 <= j < ds.len() implies is_digit(#[trigger] ds[j]) by {
                assert(ds[j] == cs@[indent + j]);
            }
            crate::num::lemma_digits_value_bound(ds);
            crate::num::lemma_decimal_len(num as nat, ds.len());
        }
        return Some(Prefix { orig_len: e + 2, next });
    }
    None
}

impl Buffer {
    pub fn new(text: &str) -> (b: Self)
        ensures
            b@ == BufModel::fresh(text@),
            b@.wf(),
            b@.text() == text@,
    {
        let lines = split_text(text);
        proof {
            crate::text::lemma_split_len(text@);
            lemma_join_split(text@);
        }
        let b = Self {
            lines,
            cursor_line: 0,
            cursor_col: 0,
            desired_col: None,
            dirty: false,
            path: None,
            revision: 0,
            history: Vec::new(),
            future: Vec::new(),
        };
        proof {
            assert(snap_views(b.history@) =~= Seq::empty());
            assert(snap_views(b.future@) =~= Seq::empty());
        }
        b
    }

    pub fn text(&self) -> (s: String)
        ensures
            s@ == self@.text(),
    {
        join_text(&self.lines)
    }

    fn touch(&mut self)
        ensures
            final(self)@ == old(self)@.touch(),
    {
        self.dirty = true;
        self.revision = self.revision.wrapping_add(1);
    }

    pub(crate) fn line_len(&self, idx: usize) -> (n: usize)
        ensures
            n == self@.len_of(idx as int),
    {
        if idx < self.lines.len() {
            self.lines[idx].as_str().unicode_len()
        } else {
            0
        }
    }

    #[allow(dead_code)]
    fn clamp_cursor(&mut self)
        requires
            old(self).lines@.len() >= 1,
        ensures
            final(self)@ == (BufModel {
                line: min_int(old(self)@.line, old(self)@.lines.len() - 1),
                col: min_int(
                    old(self)@.col,
                    old(self)@.len_of(min_int(old(self)@.line, old(self)@.lines.len() - 1)),
                ),
                ..old(self)@
            }),
            final(self)@.wf(),
    {
        if self.cursor_line >= self.lines.len() {
            self.cursor_line = self.lines.len() - 1;
        }
        let max_col = self.line_len(self.cursor_line);
        if self.cursor_col > max_col {
            self.cursor_col = max_col;
        }
    }

    /// Move cursor left one character.
    pub fn left(&mut self)
        ensures
            final(self)@ == old(self)@.move_left(),
    {
        self.desired_col = None;
        if self.cursor_col > 0 {
            self.cursor_col -= 1;
        } else if self.cursor_line > 0 {
            self.cursor_line -= 1;
            self.cursor_col = self.line_len(self.cursor_line);
        }
    }

    pub fn right(&mut self)
        requires
            old(self)@.wf(),
        ensures
            final(self)@ == old(self)@.move_right(),
    {
        self.desired_col = None;
        assert(self.lines@.len() == self@.lines.len());
        assert(self.cursor_line < self.lines@.len());
        let n = self.lines.len();
        let max_col = self.line_len(self.cursor_line);
        if self.cursor_col < max_col {
            self.cursor_col += 1;
        } else if self.cursor_line < n - 1 {
            self.cursor_line += 1;
            self.cursor_col = 0;
        }
    }

    pub fn up(&mut self)
        ensures
            final(self)@ == old(self)@.move_up(),
    {
        if self.cursor_line > 0 {
            if self.desired_col.is_none() {
                self.desired_col = Some(self.cursor_col);
            }
            self.cursor_line -= 1;
            let max_col = self.line_len(self.cursor_line);
            let d = self.desired_col.unwrap();
            self.cursor_col = if d <= max_col { d } else { max_col };
        }
    }

    pub fn down(&mut self)
        requires
            old(self)@.wf(),
        ensures
            final(self)@ == old(self)@.move_down(),
    {
        assert(self.lines@.len() == self@.lines.len());
        assert(self.cursor_line < self.lines@.len());
        let n = self.lines.len();
        if self.cursor_line < n - 1 {
            if self.desired_col.is_none() {
                self.desired_col = Some(self.cursor_col);
            }
            self.cursor_line += 1;
            let max_col = self.line_len(self.cursor_line);
            let d = self.desired_col.unwrap();
            self.cursor_col = if d <= max_col { d } else { max_col };
        }
    }

    pub fn line_start(&mut self)
        ensures
            final(self)@ == (BufModel { col: 0, desired: None, ..old(self)@ }),
    {
        self.desired_col = None;
        self.cursor_col = 0;
    }

    pub fn line_end(&mut self)
        ensures
            final(self)@ == (BufModel {
                col: old(self)@.len_of(old(self)@.line),
                desired: None,
                ..old(self)@
            }),
    {
        self.desired_col = None;
        self.cursor_col = self.line_len(self.cursor_line);
    }

    /// Record the current state for undo. `insert` lets consecutive inserts
    /// coalesce into a single undo step.
    fn checkpoint(&mut self, insert: bool)
        ensures
            final(self)@ == old(self)@.checkpoint(insert),
    {
        if insert {
            let n = self.history.len();
            if n > 0 {
                let last = &self.history[n - 1];
                proof {
                    assert(snap_views(self.history@).last() == last.view());
                }
                if last.insert && last.line == self.cursor_line && self.cursor_col > 0 && last.at
                    == self.cursor_col - 1 {
                    let ghost h0 = self.history@;
                    let mut s = self.history.pop().unwrap();
                    s.at = self.cursor_col;
                    self.history.push(s);
                    proof {
                        assert(snap_views(self.history@) =~= snap_views(h0).update(
                            h0.len() - 1,
                            SnapView { at: self.cursor_col as int, ..snap_views(h0).last() },
                        ));
                    }
                    return;  // joins the run
                }
            }
        }
        self.new_step(insert);
    }

    /// Open a new undo step (see `BufModel::new_step`).
    fn new_step(&mut self, insert: bool)
        ensures
            final(self)@ == old(self)@.new_step(insert),
    {
        let ghost h0 = self.history@;
        self.future.clear();
        let t = self.text();
        let snap = Snap { text: t, line: self.cursor_line, col: self.cursor_col, insert, at: self.cursor_col };
        self.history.push(snap);
        proof {
            assert(snap_views(self.history@) =~= snap_views(h0).push(snap.view()));
            assert(snap_views(self.future@) =~= Seq::empty());
        }
        if self.history.len() > HISTORY_LIMIT {
            let ghost h1 = self.history@;
            self.history.remove(0);
            proof {
                assert(snap_views(self.history@) =~= snap_views(h1).drop_first());
            }
        }
    }

    /// Replace line `i`.
    fn set_line(&mut self, i: usize, s: String)
        requires
            i < old(self).lines@.len(),
        ensures
            final(self)@ == (BufModel { lines: old(self)@.lines.update(i as int, s@), ..old(self)@ }),
    {
        let ghost l0 = self.lines@;
        self.lines.set(i, s);
        proof {
            assert(views(self.lines@) =~= views(l0).update(i as int, s@));
        }
    }

    /// Insert a line before index `i`.
    fn add_line(&mut self, i: usize, s: String)
        requires
            i <= old(self).lines@.len(),
        ensures
            final(self)@ == (BufModel { lines: old(self)@.lines.insert(i as int, s@), ..old(self)@ }),
    {
        let ghost l0 = self.lines@;
        self.lines.insert(i, s);
        proof {
            assert(views(self.lines@) =~= views(l0).insert(i as int, s@));
        }
    }

    /// Remove the line at index `i`.
    fn drop_line(&mut self, i: usize)
        requires
            i < old(self).lines@.len(),
        ensures
            final(self)@ == (BufModel { lines: old(self)@.lines.remove(i as int), ..old(self)@ }),
    {
        let ghost l0 = self.lines@;
        self.lines.remove(i);
        proof {
            assert(views(self.lines@) =~= views(l0).remove(i as int));
        }
    }

    /// Insert a character at the cursor.
    pub fn insert_char(&mut self, c: char)
        requires
            old(self)@.wf(),
            old(self)@.col < usize::MAX,
        ensures
            final(self)@ == old(self)@.insert_char(c),
            final(self)@.wf(),
    {
        assert(self.lines@.len() == self@.lines.len());
        let chars = chars_of(self.lines[self.cursor_line].as_str());
        let col = self.cursor_col;
        let word = !is_whitespace(c) && 0 < col && col <= chars.len() && is_whitespace(chars[col - 1]);
        if word {
            self.new_step(true);
        } else {
            self.checkpoint(true);
        }
        self.desired_col = None;
        let mut new_line;
        if col <= chars.len() {
            new_line = string_of(&chars, 0, col);
            push_char(&mut new_line, c);
            let tail = string_of(&chars, col, chars.len());
            new_line.append(tail.as_str());
        } else {
            new_line = string_of(&chars, 0, chars.len());
        }
        proof {
            assert(new_line@ =~= ins_at(chars@, col as int, c));
        }
        self.cursor_col += 1;
        self.set_line(self.cursor_line, new_line);
        self.touch();
    }

    pub fn duplicate_line(&mut self)
        requires
            old(self)@.wf(),
        ensures
            final(self)@ == old(self)@.duplicate_line(),
            final(self)@.wf(),
    {
        self.checkpoint(false);
        assert(self.lines@.len() == self@.lines.len());
        let n = self.lines.len();
        assert(self.cursor_line < n);
        let cur = self.lines[self.cursor_line].clone();
        self.add_line(self.cursor_line + 1, cur);
        self.cursor_line += 1;
        self.desired_col = None;
        self.touch();
    }

    /// Delete the current line. The buffer always keeps at least one (empty) line.
    pub fn delete_line(&mut self)
        requires
            old(self)@.wf(),
        ensures
            final(self)@ == old(self)@.delete_line(),
            final(self)@.wf(),
    {
        self.checkpoint(false);
        assert(self.lines@.len() == self@.lines.len());
        if self.lines.len() <= 1 {
            self.set_line(0, String::new());
            self.cursor_col = 0;
            self.desired_col = None;
            self.touch();
            return;
        }
        self.drop_line(self.cursor_line);
        if self.cursor_line >= self.lines.len() {
            self.cursor_line = self.lines.len() - 1;
        }
        let m = self.line_len(self.cursor_line);
        if m < self.cursor_col {
            self.cursor_col = m;
        }
        self.desired_col = None;
        self.touch();
    }

    /// Delete char before cursor (backspace).
    pub fn backspace(&mut self)
        requires
            old(self)@.wf(),
        ensures
            final(self)@ == old(self)@.backspace(),
            final(self)@.wf(),
    {
        self.checkpoint(false);
        self.desired_col = None;
        assert(self.lines@.len() == self@.lines.len());
        if self.cursor_col == 0 {
            if self.cursor_line > 0 {
                // join with previous line
                let cur = self.lines[self.cursor_line].clone();
                let prev_len = self.lines[self.cursor_line - 1].as_str().unicode_len();
                let mut joined = self.lines[self.cursor_line - 1].clone();
                joined.append(cur.as_str());
                self.set_line(self.cursor_line - 1, joined);
                self.drop_line(self.cursor_line);
                self.cursor_line -= 1;
                self.cursor_col = prev_len;
                self.touch();
            }
            return;
        }
        let chars = chars_of(self.lines[self.cursor_line].as_str());
        let col = self.cursor_col;
        let mut new_line;
        if col - 1 < chars.len() {
            new_line = string_of(&chars, 0, col - 1);
            let tail = string_of(&chars, col, chars.len());
            new_line.append(tail.as_str());
        } else {
            new_line = string_of(&chars, 0, chars.len());
        }
        proof {
            assert(new_line@ =~= del_at(chars@, col - 1));
        }
        self.cursor_col -= 1;
        self.set_line(self.cursor_line, new_line);
        self.touch();
    }

    /// Delete char under cursor (delete key).
    pub fn delete(&mut self)
        requires
            old(self)@.wf(),
        ensures
            final(self)@ == old(self)@.delete(),
            final(self)@.wf(),
    {
        self.checkpoint(false);
        self.desired_col = None;
        assert(self.lines@.len() == self@.lines.len());
        let n = self.lines.len();
        let max_col = self.line_len(self.cursor_line);
        if self.cursor_col < max_col {
            let chars = chars_of(self.lines[self.cursor_line].as_str());
            let col = self.cursor_col;
            let mut new_line = string_of(&chars, 0, col);
            let tail = string_of(&chars, col + 1, chars.len());
            new_line.append(tail.as_str());
            proof {
                assert(new_line@ =~= del_at(chars@, col as int));
            }
            self.set_line(self.cursor_line, new_line);
            self.touch();
        } else if self.cursor_line < n - 1 {
            // join next line into current
            let next = self.lines[self.cursor_line + 1].clone();
            let mut joined = self.lines[self.cursor_line].clone();
            joined.append(next.as_str());
            self.set_line(self.cursor_line, joined);
            self.drop_line(self.cursor_line + 1);
            self.touch();
        }
    }

    fn restore(&mut self, snap: Snap)
        ensures
            final(self)@ == old(self)@.restore(snap.view()),
            final(self)@.wf(),
            final(self)@.cursor_in_line(),
    {
        let lines = split_text(snap.text.as_str());
        proof {
            crate::text::lemma_split_len(snap.text@);
        }
        let ghost l0 = self.lines@;
        self.lines = lines;
        let n = self.lines.len();
        self.cursor_line = if snap.line <= n - 1 { snap.line } else { n - 1 };
        let m = self.line_len(self.cursor_line);
        self.cursor_col = if snap.col <= m { snap.col } else { m };
        self.desired_col = None;
        self.touch();
    }

    /// Undo the last change group.
    pub fn undo(&mut self)
        ensures
            final(self)@ == old(self)@.undo_step(),
            old(self)@.wf() ==> final(self)@.wf(),
    {
        if self.history.len() == 0 {
            return;
        }
        let t = self.text();
        let ghost f0 = self.future@;
        let ghost h0 = self.history@;
        let ghost m0 = self@;
        self.future.push(Snap { text: t, line: self.cursor_line, col: self.cursor_col, insert: false, at: self.cursor_col });
        let snap = self.history.pop().unwrap();
        proof {
            assert(snap_views(self.future@) =~= snap_views(f0).push(m0.snap(false)));
            assert(snap_views(self.history@) =~= snap_views(h0).drop_last());
            assert(snap.view() == m0.undo.last());
        }
        self.restore(snap);
    }

    /// Redo a previously undone change.
    pub fn redo(&mut self)
        ensures
            final(self)@ == old(self)@.redo_step(),
            old(self)@.wf() ==> final(self)@.wf(),
    {
        if self.future.len() == 0 {
            return;
        }
        let t = self.text();
        let ghost f0 = self.future@;
        let ghost h0 = self.history@;
        let ghost m0 = self@;
        self.history.push(Snap { text: t, line: self.cursor_line, col: self.cursor_col, insert: false, at: self.cursor_col });
        let snap = self.future.pop().unwrap();
        proof {
            assert(snap_views(self.history@) =~= snap_views(h0).push(m0.snap(false)));
            assert(snap_views(self.future@) =~= snap_views(f0).drop_last());
            assert(snap.view() == m0.redo.last());
        }
        self.restore(snap);
    }

    /// Move cursor by one word to the right. Returns nothing.
    pub fn word_forward(&mut self)
        requires
            0 <= old(self)@.line < old(self)@.lines.len(),
        ensures
            final(self)@ == old(self)@.word_forward(),
    {
        self.desired_col = None;
        assert(self.lines@.len() == self@.lines.len());
        let chars = chars_of(self.lines[self.cursor_line].as_str());
        let mut i = self.cursor_col;
        // skip non-word then word
        while i < chars.len() && !is_alphanumeric(chars[i])
            invariant
                self.cursor_col <= i,
                skip_non_alnum(chars@, i as int) == skip_non_alnum(chars@, self.cursor_col as int),
            decreases chars.len() - i,
        {
            i += 1;
        }
        let ghost k = i;
        while i < chars.len() && is_alphanumeric(chars[i])
            invariant
                k <= i,
                skip_alnum(chars@, i as int) == skip_alnum(chars@, k as int),
                k == skip_non_alnum(chars@, self.cursor_col as int),
            decreases chars.len() - i,
        {
            i += 1;
        }
        self.cursor_col = i;
    }

    pub fn word_back(&mut self)
        requires
            0 <= old(self)@.line < old(self)@.lines.len(),
        ensures
            final(self)@ == old(self)@.word_back(),
    {
        self.desired_col = None;
        assert(self.lines@.len() == self@.lines.len());
        let chars = chars_of(self.lines[self.cursor_line].as_str());
        if self.cursor_col == 0 {
            return;
        }
        let mut i = self.cursor_col;
        while i > 0 && (i - 1 < chars.len()) && !is_alphanumeric(chars[i - 1])
            invariant
                i <= self.cursor_col,
                back_non_alnum(chars@, i as int) == back_non_alnum(chars@, self.cursor_col as int),
            decreases i,
        {
            i -= 1;
        }
        let ghost k = i;
        while i > 0 && (i - 1 < chars.len()) && is_alphanumeric(chars[i - 1])
            invariant
                i <= k,
                back_alnum(chars@, i as int) == back_alnum(chars@, k as int),
                k == back_non_alnum(chars@, self.cursor_col as int),
            decreases i,
        {
            i -= 1;
        }
        self.cursor_col = i;
    }

    /// Insert raw text which may contain newlines.
    pub fn insert_text(&mut self, text: &str)
        requires
            old(self)@.wf(),
            old(self)@.col + text@.len() < usize::MAX,
            !no_newline(text@) ==> old(self)@.cursor_in_line(),
        ensures
            final(self)@ == old(self)@.insert_text(text@),
            final(self)@.wf(),
    {
        self.checkpoint(true);
        if text.is_empty() {
            return;
        }
        let parts = split_text(text);
        let ghost b = self@;
        proof {
            crate::text::lemma_split_len(text@);
            if !no_newline(text@) {
                crate::text::lemma_split_newline(text@);
            } else {
                crate::text::lemma_split_no_newline(text@);
            }
        }
        if parts.len() == 1 {
            for c in it: text.chars()
                invariant
                    it.seq() == text@,
                    self@ == b.insert_chars(it.seq().take(it.index())),
                    self@.wf(),
                    self@.col == b.col + it.index(),
                    b.col + text@.len() < usize::MAX,
            {
                let ghost before = it.seq().take(it.index());
                self.insert_char(c);
                proof {
                    let after = it.seq().take(it.index() + 1);
                    assert(after.drop_last() =~= before);
                    assert(after.last() == c);
                }
            }
            proof {
                assert(text@.take(text@.len() as int) =~= text@);
            }
            return;
        }
        assert(self.lines@.len() == self@.lines.len());
        let line = self.cursor_line;
        let col = self.cursor_col;
        let ghost ps = views(parts@);
        let ghost np = parts@.len() as int;
        // split current line at cursor
        let chars = chars_of(self.lines[line].as_str());
        let mut first = string_of(&chars, 0, col);
        let after = string_of(&chars, col, chars.len());
        first.append(parts[0].as_str());
        let ghost b_lines = b.lines;
        self.set_line(line, first);
        proof {
            assert(self@.lines =~= b_lines.take(line as int) + seq![first@] + ps.subrange(1, 1)
                + b_lines.skip(line as int + 1));
        }
        // middle lines
        let mut line_idx = line;
        let mut k: usize = 1;
        while k + 1 < parts.len()
            invariant
                1 <= k < parts@.len(),
                ps == views(parts@),
                line_idx == line + k - 1,
                self@ == (BufModel {
                    lines: b_lines.take(line as int) + seq![first@] + ps.subrange(1, k as int)
                        + b_lines.skip(line as int + 1),
                    ..b
                }),
                line < b_lines.len(),
            decreases parts.len() - k,
        {
            let ghost l0 = self@.lines;
            assert(self.lines@.len() == self@.lines.len());
            let n = self.lines.len();
            assert(line_idx < n);
            self.add_line(line_idx + 1, parts[k].clone());
            proof {
                assert(self@.lines =~= b_lines.take(line as int) + seq![first@] + ps.subrange(
                    1,
                    k as int + 1,
                ) + b_lines.skip(line as int + 1));
            }
            line_idx += 1;
            k += 1;
        }
        // last: combine with `after`
        let mut last = String::new();
        last.append(parts[k].as_str());
        last.append(after.as_str());
        assert(self.lines@.len() == self@.lines.len());
        let n = self.lines.len();
        assert(line_idx < n);
        self.add_line(line_idx + 1, last);
        self.cursor_line = line_idx + 1;
        self.cursor_col = parts[k].as_str().unicode_len();
        self.desired_col = None;
        self.touch();
        proof {
            assert(first@ =~= b.lines[b.line].take(b.col) + ps[0]);
            assert(after@ =~= b.lines[b.line].skip(b.col));
            assert(self@.lines =~= b.lines.take(b.line) + seq![b.lines[b.line].take(b.col) + ps[0]]
                + ps.subrange(1, np - 1) + seq![ps[np - 1] + b.lines[b.line].skip(b.col)]
                + b.lines.skip(b.line + 1));
        }
    }

    pub fn insert_newline(&mut self)
        requires
            old(self)@.wf(),
            old(self)@.cursor_in_line(),
            old(self)@.col + 1 < usize::MAX,
        ensures
            final(self)@ == old(self)@.insert_text(seq!['\n']),
            final(self)@.wf(),
    {
        proof {
            reveal_strlit("\n");
            assert("\n"@ =~= seq!['\n']);
        }
        self.insert_text("\n");
    }

    /// Smart newline: if the current line is a list item, continue the list on
    /// the new line with the right prefix (and an incremented number for ordered
    /// lists). If the item is empty, end the list instead (outdent).
    pub fn insert_newline_smart(&mut self)
        requires
            old(self)@.wf(),
            old(self)@.lines[old(self)@.line].len() + 64 < usize::MAX,
            old(self)@.cursor_in_line() || (list_prefix_of(old(self)@.lines[old(self)@.line]) matches Some(
                p,
            ) && all_white(old(self)@.lines[old(self)@.line].skip(p.0))),
            ordered_item(old(self)@.lines[old(self)@.line]) ==> item_number(
                old(self)@.lines[old(self)@.line],
            ) < u64::MAX,
        ensures
            final(self)@ == old(self)@.newline_smart(),
            final(self)@.wf(),
    {
        proof {
            lemma_split_one_newline();
        }
        assert(self.lines@.len() == self@.lines.len());
        let line = self.lines[self.cursor_line].clone();
        let cs = chars_of(line.as_str());
        match list_prefix(&cs) {
            Some(prefix) => {
                let mut j = prefix.orig_len;
                let mut blank = true;
                while j < cs.len()
                    invariant
                        prefix.orig_len <= j <= cs@.len(),
                        blank == all_white(cs@.subrange(prefix.orig_len as int, j as int)),
                    decreases cs.len() - j,
                {
                    let ghost prev = cs@.subrange(prefix.orig_len as int, j as int);
                    if !is_whitespace(cs[j]) {
                        blank = false;
                    }
                    proof {
                        let nx = cs@.subrange(prefix.orig_len as int, j as int + 1);
                        assert(nx =~= prev.push(cs@[j as int]));
                        if blank {
                            assert(all_white(nx));
                        } else {
                            assert(!white(nx[nx.len() - 1]) || !all_white(prev));
                        }
                    }
                    j += 1;
                }
                proof {
                    assert(cs@.subrange(prefix.orig_len as int, cs@.len() as int) =~= cs@.skip(
                        prefix.orig_len as int,
                    ));
                }
                if blank {
                    // empty item: clear the prefix and just break the line
                    self.set_line(self.cursor_line, String::new());
                    self.cursor_col = 0;
                    self.insert_newline();
                    return;
                }
                self.insert_newline();
                self.insert_text(prefix.next.as_str());
            },
            None => {
                // auto-indent: copy leading whitespace from the current line
                let mut k: usize = 0;
                while k < cs.len() && (cs[k] == ' ' || cs[k] == '\t')
                    invariant
                        k <= cs@.len(),
                        indent_end(cs@, k as int) == indent_end(cs@, 0),
                    decreases cs.len() - k,
                {
                    k += 1;
                }
                let indent = string_of(cs.as_slice(), 0, k);
                self.insert_newline();
                if !indent.as_str().is_empty() {
                    self.insert_text(indent.as_str());
                }
            },
        }
    }

    pub fn line_count(&self) -> (n: usize)
        ensures
            n == self@.lines.len(),
    {
        self.lines.len()
    }

    /// Get a line's text as a Vec<char> (cheap-ish; used for rendering).
    pub fn line_chars(&self, idx: usize) -> (r: Vec<char>)
        ensures
            r@ == (if idx < self@.lines.len() { self@.lines[idx as int] } else { Seq::empty() }),
    {
        if idx < self.lines.len() {
            chars_of(self.lines[idx].as_str())
        } else {
            Vec::new()
        }
    }
}

} // verus!
