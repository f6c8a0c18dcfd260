//! What holds across the buffer's operations: undo and redo give back earlier
//! texts, paired edits cancel, and paired motions return the cursor.

use vstd::prelude::*;
use crate::buffer::{BufModel, capped, back_alnum, back_non_alnum, bullet_item, list_prefix_of, space_end, task_box_at};
use crate::chars::alnum;
use crate::text::{join_lines, lemma_join_split, split_lines, no_newline};

verus! {

/// A fresh buffer gives back the text it was made from.
pub proof fn law_fresh_text(t: Seq<char>)
    ensures
        BufModel::fresh(t).text() == t,
        BufModel::fresh(t).wf(),
{
    lemma_join_split(t);
    crate::text::lemma_split_len(t);
}

/// After an edit that records a snapshot (one that does not join a run of
/// insertions), undo gives back the text from before the edit.
pub proof fn law_undo_after_checkpoint(m: BufModel, edited: BufModel, insert: bool)
    requires
        !m.coalesces(insert),
        edited.undo == m.checkpoint(insert).undo,
    ensures
        edited.undo_step().text() == m.text(),
{
    let h = m.undo.push(m.snap(insert));
    assert(capped(h).last() == m.snap(insert));
    lemma_join_split(m.text());
}

/// Undo right after a backspace gives back the text from before it.
pub proof fn law_undo_backspace(m: BufModel)
    requires
        m.wf(),
    ensures
        m.backspace().undo_step().text() == m.text(),
{
    law_undo_after_checkpoint(m, m.backspace(), false);
}

/// Undo right after a delete gives back the text from before it.
pub proof fn law_undo_delete(m: BufModel)
    requires
        m.wf(),
    ensures
        m.delete().undo_step().text() == m.text(),
{
    law_undo_after_checkpoint(m, m.delete(), false);
}

/// Undo right after deleting a line gives back the text from before it.
pub proof fn law_undo_delete_line(m: BufModel)
    requires
        m.wf(),
    ensures
        m.delete_line().undo_step().text() == m.text(),
{
    law_undo_after_checkpoint(m, m.delete_line(), false);
}

/// Undo right after duplicating a line gives back the text from before it.
pub proof fn law_undo_duplicate_line(m: BufModel)
    requires
        m.wf(),
    ensures
        m.duplicate_line().undo_step().text() == m.text(),
{
    law_undo_after_checkpoint(m, m.duplicate_line(), false);
}

/// Undo right after typing a character that starts a new insertion run gives
/// back the text from before it.
pub proof fn law_undo_insert_char(m: BufModel, c: char)
    requires
        m.wf(),
        !m.coalesces(true),
    ensures
        m.insert_char(c).undo_step().text() == m.text(),
{
    law_undo_after_checkpoint(m, m.insert_char(c), true);
}

/// When no line holds a newline, undo after a backspace also gives back the
/// lines and the cursor.
pub proof fn law_undo_backspace_restores_cursor(m: BufModel)
    requires
        m.wf(),
        m.cursor_in_line(),
        forall|i: int| 0 <= i < m.lines.len() ==> no_newline(#[trigger] m.lines[i]),
    ensures
        m.backspace().undo_step().lines == m.lines,
        m.backspace().undo_step().line == m.line,
        m.backspace().undo_step().col == m.col,
{
    let h = m.undo.push(m.snap(false));
    assert(capped(h).last() == m.snap(false));
    lemma_split_join(m.lines);
}

/// Splitting joined lines gives the lines back when none holds a newline.
pub proof fn lemma_split_join(ls: Seq<Seq<char>>)
    requires
        ls.len() >= 1,
        forall|i: int| 0 <= i < ls.len() ==> no_newline(#[trigger] ls[i]),
    ensures
        split_lines(join_lines(ls)) == ls,
    decreases ls.len(),
{
    if ls.len() == 1 {
        crate::text::lemma_split_no_newline(ls[0]);
        assert(split_lines(join_lines(ls)) =~= ls);
    } else {
        let rest = ls.drop_first();
        assert forall|i: int| 0 <= i < rest.len() implies no_newline(#[trigger] rest[i]) by {
            assert(rest[i] == ls[i + 1]);
        }
        lemma_split_join(rest);
        assert(no_newline(ls[0]));
        crate::text::lemma_split_prefix(ls[0], join_lines(rest));
        assert(split_lines(join_lines(ls)) =~= ls);
    }
}

/// Redo right after undo gives back the text from before the undo.
pub proof fn law_redo_after_undo(m: BufModel)
    requires
        m.undo.len() > 0,
    ensures
        m.undo_step().redo_step().text() == m.text(),
{
    lemma_join_split(m.text());
}

/// Redo right after undo gives back the lines and the cursor from before the
/// undo, when no line holds a newline and the cursor lies within its line.
pub proof fn law_redo_after_undo_cursor(m: BufModel)
    requires
        m.wf(),
        m.cursor_in_line(),
        m.undo.len() > 0,
        forall|i: int| 0 <= i < m.lines.len() ==> no_newline(#[trigger] m.lines[i]),
    ensures
        m.undo_step().redo_step().lines == m.lines,
        m.undo_step().redo_step().line == m.line,
        m.undo_step().redo_step().col == m.col,
{
    lemma_split_join(m.lines);
}

/// Undo right after redo gives back the text from before the redo.
pub proof fn law_undo_after_redo(m: BufModel)
    requires
        m.redo.len() > 0,
    ensures
        m.redo_step().undo_step().text() == m.text(),
{
    lemma_join_split(m.text());
}

/// An edit that records a snapshot empties the redo stack, so a following
/// redo changes nothing.
pub proof fn law_edit_clears_redo(m: BufModel)
    requires
        m.wf(),
    ensures
        m.backspace().redo.len() == 0,
        m.delete().redo.len() == 0,
        m.delete_line().redo.len() == 0,
        m.duplicate_line().redo.len() == 0,
        m.backspace().redo_step() == m.backspace(),
        !m.coalesces(true) ==> m.insert_char('x').redo.len() == 0,
{
}

/// Typing a character and then deleting it with backspace gives back the
/// lines and the cursor.
pub proof fn law_insert_then_backspace(m: BufModel, c: char)
    requires
        m.wf(),
    ensures
        m.insert_char(c).backspace().lines == m.lines,
        m.insert_char(c).backspace().line == m.line,
        m.insert_char(c).backspace().col == m.col,
{
    let l = m.lines[m.line];
    let x = crate::buffer::ins_at(l, m.col, c);
    assert(crate::buffer::del_at(x, m.col) =~= l);
    assert(m.lines.update(m.line, x).update(m.line, l) =~= m.lines);
}

/// Duplicating a line and then deleting the current line gives back the lines.
pub proof fn law_duplicate_then_delete_line(m: BufModel)
    requires
        m.wf(),
    ensures
        m.duplicate_line().delete_line().lines == m.lines,
{
    let d = m.duplicate_line();
    assert(d.lines.remove(d.line) =~= m.lines);
}

/// Left then right returns the cursor, except at the very start of the text.
pub proof fn law_left_then_right(m: BufModel)
    requires
        m.wf(),
        m.cursor_in_line(),
        m.line > 0 || m.col > 0,
    ensures
        m.move_left().move_right().line == m.line,
        m.move_left().move_right().col == m.col,
{
}

/// Right then left returns the cursor, except at the very end of the text.
pub proof fn law_right_then_left(m: BufModel)
    requires
        m.wf(),
        m.cursor_in_line(),
        m.line + 1 < m.lines.len() || m.col < m.lines[m.line].len(),
    ensures
        m.move_right().move_left().line == m.line,
        m.move_right().move_left().col == m.col,
{
}

/// Down then up returns the cursor when no column is remembered; the column
/// is remembered for the next vertical move.
pub proof fn law_down_then_up(m: BufModel)
    requires
        m.wf(),
        m.cursor_in_line(),
        m.desired is None,
        m.line + 1 < m.lines.len(),
    ensures
        m.move_down().move_up().line == m.line,
        m.move_down().move_up().col == m.col,
        m.move_down().move_up().desired == Some(m.col),
{
}

/// Up then down returns the cursor when no column is remembered.
pub proof fn law_up_then_down(m: BufModel)
    requires
        m.wf(),
        m.cursor_in_line(),
        m.desired is None,
        m.line > 0,
    ensures
        m.move_up().move_down().line == m.line,
        m.move_up().move_down().col == m.col,
{
}


proof fn lemma_back_non_alnum(cs: Seq<char>, i: int)
    requires
        0 <= i <= cs.len(),
    ensures
        0 <= back_non_alnum(cs, i) <= i,
        forall|j: int| back_non_alnum(cs, i) <= j < i ==> !alnum(#[trigger] cs[j]),
        back_non_alnum(cs, i) > 0 ==> alnum(cs[back_non_alnum(cs, i) - 1]),
    decreases i,
{
    if 0 < i && !alnum(cs[i - 1]) {
        lemma_back_non_alnum(cs, i - 1);
    }
}

proof fn lemma_back_alnum(cs: Seq<char>, i: int)
    requires
        0 <= i <= cs.len(),
    ensures
        0 <= back_alnum(cs, i) <= i,
        forall|j: int| back_alnum(cs, i) <= j < i ==> alnum(#[trigger] cs[j]),
        back_alnum(cs, i) > 0 ==> !alnum(cs[back_alnum(cs, i) - 1]),
    decreases i,
{
    if 0 < i && alnum(cs[i - 1]) {
        lemma_back_alnum(cs, i - 1);
    }
}

/// A word motion back from a column within the line lands on the start of
/// the last word that begins before the column: left of it, on a letter or
/// digit that has none just before it, with only that word and then non-word
/// characters between it and the column; with no letter or digit left of the
/// column it goes to the start of the line. The line and the text stay.
pub proof fn law_word_back(m: BufModel)
    requires
        m.wf(),
        0 < m.col <= m.len_of(m.line),
    ensures
        ({
            let cs = m.lines[m.line];
            let r = m.word_back().col;
            &&& (exists|i: int| 0 <= i < m.col && alnum(#[trigger] cs[i])) ==> {
                &&& 0 <= r < m.col
                &&& alnum(cs[r])
                &&& (r == 0 || !alnum(cs[r - 1]))
                &&& forall|i: int, j: int| r <= i < j < m.col && !alnum(#[trigger] cs[i]) ==> !alnum(#[trigger] cs[j])
            }
            &&& (forall|i: int| 0 <= i < m.col ==> !alnum(#[trigger] cs[i])) ==> r == 0
            &&& m.word_back().line == m.line
            &&& m.word_back().lines == m.lines
        }),
{
    let cs = m.lines[m.line];
    let col = m.col;
    lemma_back_non_alnum(cs, col);
    let b = back_non_alnum(cs, col);
    lemma_back_alnum(cs, b);
    let r = back_alnum(cs, b);
    if exists|i: int| 0 <= i < col && alnum(#[trigger] cs[i]) {
        let w = choose|i: int| 0 <= i < col && alnum(#[trigger] cs[i]);
        assert(w < b);
        assert(alnum(cs[b - 1]));
        assert(r < b);
        assert(alnum(cs[r]));
        assert forall|i: int, j: int| r <= i < j < col && !alnum(#[trigger] cs[i]) implies !alnum(#[trigger] cs[j]) by {
            if i < b {
                assert(alnum(cs[i]));
            }
        }
    }
    if forall|i: int| 0 <= i < col ==> !alnum(#[trigger] cs[i]) {
        if b > 0 {
            assert(alnum(cs[b - 1]));
        }
    }
}

/// A task item continues as an unchecked task: the next line's prefix is the
/// item's indent and bullet followed by an empty box `[ ] `, the prefix read
/// covers the indent, bullet and box, and ticking or clearing the item's box
/// does not change its continuation.
pub proof fn law_task_continues_unchecked(cs: Seq<char>, mark: char)
    requires
        bullet_item(cs),
        task_box_at(cs, space_end(cs, 0) + 2),
        mark == ' ' || mark == 'x' || mark == 'X',
    ensures
        ({
            let ind = space_end(cs, 0);
            &&& list_prefix_of(cs) matches Some((n, next)) && {
                &&& n == ind + 6
                &&& next.len() == ind + 6
                &&& next.take(ind + 2) == cs.take(ind + 2)
                &&& next[ind + 2] == '['
                &&& next[ind + 3] == ' '
                &&& next[ind + 4] == ']'
                &&& next[ind + 5] == ' '
            }
            &&& list_prefix_of(cs.update(ind + 3, mark)) == list_prefix_of(cs)
        }),
{
    let ind = space_end(cs, 0);
    let cs2 = cs.update(ind + 3, mark);
    crate::buffer::lemma_space_end(cs, 0);
    crate::buffer::lemma_space_end(cs2, 0);
    lemma_space_end_same(cs, cs2, 0, ind + 3);
    assert(cs2.take(ind + 2) =~= cs.take(ind + 2));
    let next = cs.take(ind + 2) + seq!['[', ' ', ']', ' '];
    assert(next.take(ind + 2) =~= cs.take(ind + 2));
}

/// Lines that agree before position `k` skip the same spaces, when the
/// first non-space lies before `k`.
proof fn lemma_space_end_same(a: Seq<char>, b: Seq<char>, i: int, k: int)
    requires
        0 <= i <= k,
        k <= a.len() == b.len(),
        forall|j: int| 0 <= j < k ==> a[j] == b[j],
        space_end(a, i) < k,
    ensures
        space_end(a, i) == space_end(b, i),
    decreases a.len() - i,
{
    if i < a.len() && a[i] == ' ' {
        crate::buffer::lemma_space_end(a, i + 1);
        lemma_space_end_same(a, b, i + 1, k);
    }
}

} // verus!
