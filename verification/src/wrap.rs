//! Soft-wrapping a line of characters into display rows of a given width.

use vstd::prelude::*;
use crate::chars::{char_width, uwidth};

verus! {

/// Display width of a character, control characters counting as zero.
pub open spec fn cw(c: char) -> int {
    match uwidth(c) {
        Some(w) => w as int,
        None => 0,
    }
}

pub fn char_cells(c: char) -> (w: usize)
    ensures
        w == cw(c),
        w <= 3,
{
    match char_width(c) {
        Some(w) => w,
        None => 0,
    }
}

/// The scan state after the first `i` characters: the finished segments, the
/// start and cell count of the segment being filled, and the start (or -1
/// after a space) and cell count of the word being read.
pub open spec fn seg_scan(cs: Seq<char>, width: int, i: int) -> (Seq<(int, int)>, int, int, int, int)
    decreases i,
{
    if i <= 0 {
        (Seq::empty(), 0, 0, -1, 0)
    } else {
        let prev = seg_scan(cs, width, i - 1);
        let c = cs[i - 1];
        let w = cw(c);
        if prev.2 + w > width {
            if c != ' ' && prev.3 > prev.1 {
                // the word moves to the next row
                (prev.0.push((prev.1, prev.2 - prev.4)), prev.3, prev.4 + w, prev.3, prev.4 + w)
            } else {
                (
                    if prev.1 < i - 1 { prev.0.push((prev.1, prev.2)) } else { prev.0 },
                    i - 1,
                    w,
                    if c == ' ' { -1 } else { i - 1 },
                    w,
                )
            }
        } else if c == ' ' {
            (prev.0, prev.1, prev.2 + w, -1, 0)
        } else if prev.3 < 0 {
            (prev.0, prev.1, prev.2 + w, i - 1, w)
        } else {
            (prev.0, prev.1, prev.2 + w, prev.3, prev.4 + w)
        }
    }
}

/// Break a line into (start column, width in cells) segments, wrapping at
/// words: each character joins the current row unless that would exceed
/// `width` cells; then the word it belongs to moves to a new row when the
/// row holds something before that word, else the character starts the new
/// row. An empty line is one empty segment.
pub open spec fn segs(cs: Seq<char>, width: int) -> Seq<(int, int)> {
    let w = if width < 1 { 1 } else { width };
    if cs.len() == 0 {
        seq![(0, 0)]
    } else {
        let st = seg_scan(cs, w, cs.len() as int);
        st.0.push((st.1, st.2))
    }
}

/// Sum of the cell widths of `cs[a..b]`.
pub open spec fn cells_of(cs: Seq<char>, a: int, b: int) -> int
    decreases b - a,
{
    if b <= a { 0 } else { cells_of(cs, a, b - 1) + cw(cs[b - 1]) }
}

/// The segments start at 0, strictly increase, and start within the line.
pub open spec fn segs_ok(s: Seq<(int, int)>, n: int) -> bool {
    &&& s.len() >= 1
    &&& s[0].0 == 0
    &&& forall|k: int| 0 <= k < s.len() - 1 ==> #[trigger] s[k].0 < s[k + 1].0
    &&& forall|k: int| 0 <= k < s.len() ==> 0 <= #[trigger] s[k].0 && (s[k].0 < n || (n == 0 && s[k].0 == 0))
    &&& forall|k: int| 0 <= k < s.len() ==> 0 <= #[trigger] s[k].1
}

pub open spec fn word_view(o: Option<usize>) -> int {
    match o {
        Some(x) => x as int,
        None => -1,
    }
}

/// Break a line into (start_col, length_in_cells) segments that fit `width`.
pub fn segments(chars: &[char], width: usize) -> (r: Vec<(usize, usize)>)
    requires
        chars@.len() < usize::MAX / 4,
    ensures
        r@.map_values(|p: (usize, usize)| (p.0 as int, p.1 as int)) == segs(chars@, width as int),
        segs_ok(segs(chars@, width as int), chars@.len() as int),
        r@.len() <= chars@.len() + 1,
        forall|k: int| 0 <= k < r@.len() ==> #[trigger] r@[k].1 <= 3 * chars@.len() + 3,
{
    let width = if width < 1 { 1 } else { width };
    let mut out: Vec<(usize, usize)> = Vec::new();
    if chars.len() == 0 {
        out.push((0, 0));
        proof {
            assert(out@.map_values(|p: (usize, usize)| (p.0 as int, p.1 as int)) =~= seq![(0int, 0int)]);
        }
        return out;
    }
    let mut start: usize = 0;
    let mut cells: usize = 0;
    let mut word: Option<usize> = None;
    let mut word_cells: usize = 0;
    let mut i: usize = 0;
    while i < chars.len()
        invariant
            i <= chars@.len() < usize::MAX / 4,
            width >= 1,
            seg_scan(chars@, width as int, i as int) == (
                out@.map_values(|p: (usize, usize)| (p.0 as int, p.1 as int)),
                start as int,
                cells as int,
                word_view(word),
                word_cells as int,
            ),
            cells <= 3 * i,
            start <= i,
            i > 0 ==> start < i,
            word matches Some(ws) ==> start <= ws < i && word_cells <= cells,
            out@.len() <= i,
            forall|k: int| 0 <= k < out@.len() ==> #[trigger] out@[k].0 < start,
            forall|k: int| 0 <= k < out@.len() - 1 ==> #[trigger] out@[k].0 < out@[k + 1].0,
            out@.len() > 0 ==> out@[0].0 == 0,
            out@.len() == 0 ==> start == 0,
            forall|k: int| 0 <= k < out@.len() ==> #[trigger] out@[k].1 <= 3 * i,
        decreases chars.len() - i,
    {
        let c = chars[i];
        let w = char_cells(c);
        let ghost old_out = out@;
        let ghost prev = seg_scan(chars@, width as int, i as int);
        if cells + w > width {
            let moved = match word {
                Some(ws) => c != ' ' && ws > start,
                None => false,
            };
            if moved {
                let ws = match word { Some(ws) => ws, None => start };
                out.push((start, cells - word_cells));
                start = ws;
                cells = word_cells + w;
                word_cells = word_cells + w;
                proof {
                    assert(out@.map_values(|p: (usize, usize)| (p.0 as int, p.1 as int)) =~= old_out.map_values(
                        |p: (usize, usize)| (p.0 as int, p.1 as int),
                    ).push((prev.1, prev.2 - prev.4)));
                }
            } else {
                if start < i {
                    out.push((start, cells));
                }
                proof {
                    assert(out@.map_values(|p: (usize, usize)| (p.0 as int, p.1 as int)) =~= (if prev.1 < i {
                        old_out.map_values(|p: (usize, usize)| (p.0 as int, p.1 as int)).push((prev.1, prev.2))
                    } else {
                        old_out.map_values(|p: (usize, usize)| (p.0 as int, p.1 as int))
                    }));
                }
                start = i;
                cells = w;
                word = if c == ' ' { None } else { Some(i) };
                word_cells = w;
            }
        } else if c == ' ' {
            cells += w;
            word = None;
            word_cells = 0;
        } else {
            cells += w;
            match word {
                None => {
                    word = Some(i);
                    word_cells = w;
                },
                Some(_) => {
                    word_cells += w;
                },
            }
        }
        i += 1;
    }
    out.push((start, cells));
    proof {
        let m = out@.map_values(|p: (usize, usize)| (p.0 as int, p.1 as int));
        assert(m =~= segs(chars@, width as int));
        assert forall|k: int| 0 <= k < m.len() implies 0 <= #[trigger] m[k].0 && m[k].0 < chars@.len() by {
            assert(m[k].0 == out@[k].0);
        }
    }
    out
}

/// Number of display rows a line of chars will occupy at `width` cells.
pub fn rows_for_line(chars: &[char], width: usize) -> (n: usize)
    requires
        chars@.len() < usize::MAX / 4,
    ensures
        n == segs(chars@, width as int).len(),
        1 <= n <= chars@.len() + 1,
{
    let segs = segments(chars, width);
    if segs.len() < 1 { 1 } else { segs.len() }
}


pub proof fn lemma_seg_scan_len(cs: Seq<char>, width: int, i: int)
    requires
        0 <= i <= cs.len(),
    ensures
        seg_scan(cs, width, i).0.len() <= i,
        i > 0 ==> seg_scan(cs, width, i).1 < i,
        seg_scan(cs, width, i).0.len() == 0 || seg_scan(cs, width, i).1 > 0,
        seg_scan(cs, width, i).1 >= 0,
        seg_scan(cs, width, i).3 >= 0 ==> seg_scan(cs, width, i).1 <= seg_scan(cs, width, i).3 < i,
    decreases i,
{
    if i > 0 {
        lemma_seg_scan_len(cs, width, i - 1);
    }
}

pub proof fn lemma_segs_len(cs: Seq<char>, width: int)
    ensures
        1 <= segs(cs, width).len() <= cs.len() + 1,
{
    if cs.len() > 0 {
        let w = if width < 1 { 1 } else { width };
        lemma_seg_scan_len(cs, w, cs.len() as int);
    }
}

/// Rows that line `i` takes: its segments when wrapping, else one.
pub open spec fn rows_of(ls: Seq<Seq<char>>, i: int, w: int, wrap: bool) -> int {
    if wrap { segs(ls[i], w).len() as int } else { 1 }
}

/// Display rows taken by the lines before line `k`.
pub open spec fn rows_before(ls: Seq<Seq<char>>, k: int, w: int, wrap: bool) -> int
    decreases k,
{
    if k <= 0 { 0 } else { rows_before(ls, k - 1, w, wrap) + rows_of(ls, k - 1, w, wrap) }
}

/// Characters plus line breaks of the lines before line `k`.
pub open spec fn size_upto(ls: Seq<Seq<char>>, k: int) -> int
    decreases k,
{
    if k <= 0 { 0 } else { size_upto(ls, k - 1) + ls[k - 1].len() + 1 }
}

pub proof fn lemma_rows_before_bound(ls: Seq<Seq<char>>, k: int, w: int, wrap: bool)
    requires
        0 <= k <= ls.len(),
    ensures
        0 <= rows_before(ls, k, w, wrap) <= size_upto(ls, k),
    decreases k,
{
    if k > 0 {
        lemma_rows_before_bound(ls, k - 1, w, wrap);
        lemma_segs_len(ls[k - 1], w);
    }
}

pub proof fn lemma_size_mono(ls: Seq<Seq<char>>, a: int, b: int)
    requires
        0 <= a <= b <= ls.len(),
    ensures
        0 <= size_upto(ls, a) <= size_upto(ls, b),
        b > a ==> size_upto(ls, a) + ls[a].len() + 1 <= size_upto(ls, b),
    decreases b,
{
    if b > a {
        lemma_size_mono(ls, a, b - 1);
    } else {
        lemma_size_nonneg(ls, a);
    }
}

pub proof fn lemma_size_ge_len(ls: Seq<Seq<char>>, k: int)
    requires
        0 <= k <= ls.len(),
    ensures
        size_upto(ls, k) >= k,
    decreases k,
{
    if k > 0 {
        lemma_size_ge_len(ls, k - 1);
    }
}

pub proof fn lemma_size_nonneg(ls: Seq<Seq<char>>, a: int)
    ensures
        0 <= size_upto(ls, a),
    decreases a,
{
    if a > 0 {
        lemma_size_nonneg(ls, a - 1);
    }
}

/// The row after segment `k` starts at (the end of the line plus one after
/// the last segment).
pub open spec fn next_start(s: Seq<(int, int)>, n: int, k: int) -> int {
    if k + 1 < s.len() { s[k + 1].0 } else { n + 1 }
}

/// The segment holding column `col`, searching from segment `k`, with the
/// cell offset of `col` within it; past the last segment, the last row at 0.
pub open spec fn locate_from(cs: Seq<char>, s: Seq<(int, int)>, col: int, k: int) -> (int, int)
    decreases s.len() - k,
{
    if k >= s.len() {
        (s.len() - 1, 0)
    } else if col < next_start(s, cs.len() as int, k) {
        (k, cells_of(cs, s[k].0, if col <= cs.len() { col } else { cs.len() as int }))
    } else {
        locate_from(cs, s, col, k + 1)
    }
}

/// Where column `col` shows in the wrapped line: (row within the line, x).
pub open spec fn locate(cs: Seq<char>, col: int, width: int) -> (int, int) {
    locate_from(cs, segs(cs, width), col, 0)
}

/// Cells taken by `chars[a..b]`.
pub fn cells_between(chars: &[char], a: usize, b: usize) -> (x: usize)
    requires
        a <= b <= chars@.len() < usize::MAX / 4,
    ensures
        x == cells_of(chars@, a as int, b as int),
        x <= 3 * (b - a),
{
    let mut x: usize = 0;
    let mut j = a;
    while j < b
        invariant
            a <= j <= b <= chars@.len() < usize::MAX / 4,
            x == cells_of(chars@, a as int, j as int),
            x <= 3 * (j - a),
        decreases b - j,
    {
        x += char_cells(chars[j]);
        j += 1;
    }
    x
}

/// Given a cursor column, find (row_index_in_line, x_offset_in_cells).
pub fn locate_in_wrapped(chars: &[char], col: usize, width: usize) -> (r: (usize, usize))
    requires
        chars@.len() < usize::MAX / 4,
    ensures
        (r.0 as int, r.1 as int) == locate(chars@, col as int, width as int),
        r.1 <= 3 * chars@.len(),
        r.0 < segs(chars@, width as int).len(),
{
    let sg = segments(chars, width);
    let ghost sv = sg@.map_values(|p: (usize, usize)| (p.0 as int, p.1 as int));
    let mut ri: usize = 0;
    while ri < sg.len()
        invariant
            sv == sg@.map_values(|p: (usize, usize)| (p.0 as int, p.1 as int)),
            sv == segs(chars@, width as int),
            segs_ok(sv, chars@.len() as int),
            chars@.len() < usize::MAX / 4,
            ri <= sg@.len(),
            sg@.len() <= chars@.len() + 1,
            ri == 0 || sg@[ri as int].0 <= col || ri == sg@.len(),
            locate_from(chars@, sv, col as int, ri as int) == locate(chars@, col as int, width as int),
            sv.len() == sg@.len(),
        decreases sg.len() - ri,
    {
        let ns = if ri + 1 < sg.len() { sg[ri + 1].0 } else { chars.len() + 1 };
        assert(ns == next_start(sv, chars@.len() as int, ri as int));
        if col < ns {
            // within this segment
            let s = sg[ri].0;
            assert(s == sv[ri as int].0);
            let hi = if col <= chars.len() { col } else { chars.len() };
            let x = cells_between(chars, s, hi);
            assert(s <= chars@.len());
            return (ri, x);
        }
        ri += 1;
    }
    (sg.len() - 1, 0)
}

} // verus!
