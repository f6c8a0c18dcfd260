//! What the editor pane shows: the display rows in view, each with its
//! line-number gutter and its text (search matches marked), and where the
//! cursor goes.

use vstd::prelude::*;
use crate::style::{Area, Color, Style};
use crate::markdown::{fg_style, repeat, span_view, Span};
use crate::chars::{utf8_len, len_utf8};
use crate::text::find_sub;
use crate::app::{gutter_of, App, Focus};
use crate::chars::{lower, to_lowercase, uwidth, char_width};
use crate::num::{decimal, decimal_chars};
use crate::wrap::{rows_before, rows_of, segs, segments, rows_for_line, size_upto};

verus! {

/// The character index of `s` at which its UTF-8 encoding reaches byte `b`
/// (searching from index `k`), if `b` is a character boundary.
pub open spec fn char_at_byte(s: Seq<char>, b: int, k: int) -> Option<int>
    decreases s.len() + 1 - k,
{
    if k < 0 || k > s.len() {
        None
    } else if utf8_len(s.take(k)) == b {
        Some(k)
    } else if utf8_len(s.take(k)) > b {
        None
    } else {
        char_at_byte(s, b, k + 1)
    }
}

/// The spans of a text `t` with the matches of the lowercased query `lq`
/// in its lowercase `lt` marked, from character `cl` of `lt`: each match is
/// found in `lt` and its byte range cut out of `t`. `None` when a cut does
/// not fall on a character boundary of `t` (possible only where lowercasing
/// changes a character's UTF-8 length).
pub open spec fn match_spans(t: Seq<char>, lt: Seq<char>, lq: Seq<char>, cl: int, base: Style, ms: Style) -> Option<Seq<(Seq<char>, Style)>>
    decreases lt.len() + 1 - cl,
{
    let cb = utf8_len(lt.take(cl));
    match find_sub(lt, lq, cl) {
        Some(j) => if lq.len() > 0 && 0 <= cl <= j && j + lq.len() <= lt.len() {
            let ab = utf8_len(lt.take(j));
            let eb = ab + utf8_len(lq);
            match (char_at_byte(t, cb, 0), char_at_byte(t, ab, 0), char_at_byte(t, eb, 0)) {
                (Some(tc), Some(ta), Some(te)) => {
                    let pre = if ab > cb { seq![(t.subrange(tc, ta), base)] } else { Seq::empty() };
                    match match_spans(t, lt, lq, j + lq.len(), base, ms) {
                        Some(rest) => Some(pre + seq![(t.subrange(ta, te), ms)] + rest),
                        None => None,
                    }
                },
                _ => None,
            }
        } else {
            None
        },
        None => if cb < utf8_len(t) {
            match char_at_byte(t, cb, 0) {
                Some(tc) => Some(seq![(t.subrange(tc, t.len() as int), base)]),
                None => None,
            }
        } else {
            Some(Seq::empty())
        },
    }
}

/// The UTF-8 offsets of the prefixes of `cs`: `r[k]` is the length of the
/// first `k` characters.
fn byte_offsets(cs: &Vec<char>) -> (r: Vec<u128>)
    ensures
        r@.len() == cs@.len() + 1,
        forall|k: int| 0 <= k <= cs@.len() ==> #[trigger] r@[k] == utf8_len(cs@.take(k)),
        forall|k: int, l: int| 0 <= k <= l <= cs@.len() ==> r@[k] <= r@[l],
        forall|k: int, l: int| 0 <= k < l <= cs@.len() ==> r@[k] < r@[l],
        forall|k: int| 0 <= k <= cs@.len() ==> #[trigger] r@[k] <= 4 * k,
{
    let mut r: Vec<u128> = Vec::new();
    r.push(0);
    assert(cs@.take(0) =~= Seq::<char>::empty());
    let mut i: usize = 0;
    while i < cs.len()
        invariant
            i <= cs@.len(),
            r@.len() == i + 1,
            forall|k: int| 0 <= k <= i ==> #[trigger] r@[k] == utf8_len(cs@.take(k)),
            forall|k: int, l: int| 0 <= k <= l <= i ==> r@[k] <= r@[l],
            forall|k: int, l: int| 0 <= k < l <= i ==> r@[k] < r@[l],
            forall|k: int| 0 <= k <= i ==> #[trigger] r@[k] <= 4 * k,
        decreases cs.len() - i,
    {
        let w = len_utf8(cs[i]) as u128;
        let next = r[i] + w;
        proof {
            assert(cs@.take(i as int + 1).drop_last() =~= cs@.take(i as int));
            assert(cs@.take(i as int + 1).last() == cs@[i as int]);
        }
        r.push(next);
        i += 1;
    }
    r
}

/// The index `k` with `offs[k] == b`, if any (see `char_at_byte`).
fn index_of_byte(offs: &Vec<u128>, b: u128, cs: Ghost<Seq<char>>) -> (r: Option<usize>)
    requires
        offs@.len() == cs@.len() + 1,
        forall|k: int| 0 <= k <= cs@.len() ==> #[trigger] offs@[k] == utf8_len(cs@.take(k)),
        forall|k: int, l: int| 0 <= k <= l <= cs@.len() ==> offs@[k] <= offs@[l],
    ensures
        r matches Some(k) ==> char_at_byte(cs@, b as int, 0) == Some(k as int) && k <= cs@.len() && offs@[k as int] == b,
        r is None ==> char_at_byte(cs@, b as int, 0) is None,
{
    let mut k: usize = 0;
    while k < offs.len()
        invariant
            k <= offs@.len(),
            offs@.len() == cs@.len() + 1,
            forall|q: int| 0 <= q <= cs@.len() ==> #[trigger] offs@[q] == utf8_len(cs@.take(q)),
            forall|q: int, l: int| 0 <= q <= l <= cs@.len() ==> offs@[q] <= offs@[l],
            forall|q: int| 0 <= q < k ==> #[trigger] offs@[q] < b,
            char_at_byte(cs@, b as int, 0) == char_at_byte(cs@, b as int, k as int),
        decreases offs.len() - k,
    {
        if offs[k] == b {
            return Some(k);
        }
        if offs[k] > b {
            return None;
        }
        k += 1;
    }
    None
}


/// The first occurrence of `p` in `cs` at or after `k` (see `find_sub`).
fn find_from(cs: &Vec<char>, p: &Vec<char>, k: usize) -> (r: Option<usize>)
    ensures
        r matches Some(j) ==> find_sub(cs@, p@, k as int) == Some(j as int),
        r is None ==> find_sub(cs@, p@, k as int) is None,
{
    if p.len() > cs.len() || k > cs.len() - p.len() {
        return None;
    }
    let mut i = k;
    while i <= cs.len() - p.len()
        invariant
            k <= i,
            p@.len() <= cs@.len(),
            i <= cs@.len() - p@.len() + 1,
            find_sub(cs@, p@, k as int) == find_sub(cs@, p@, i as int),
        decreases cs.len() - p.len() + 1 - i,
    {
        let mut q: usize = 0;
        let n = cs.len();
        while q < p.len()
            invariant_except_break
                n == cs@.len(),
                q <= p@.len(),
                i + p@.len() <= cs@.len(),
                forall|r: int| 0 <= r < q ==> cs@[i + r] == p@[r],
            ensures
                q <= p@.len(),
                forall|r: int| 0 <= r < q ==> cs@[i + r] == p@[r],
                q < p@.len() ==> cs@[i + q] != p@[q as int],
            decreases p.len() - q,
        {
            if cs[i + q] != p[q] {
                break;
            }
            q += 1;
        }
        if q == p.len() {
            assert(cs@.subrange(i as int, i + p@.len()) =~= p@);
            return Some(i);
        }
        assert(cs@.subrange(i as int, i + p@.len())[q as int] != p@[q as int]);
        i += 1;
    }
    None
}

/// An optional list of spans with `acc` in front.
pub open spec fn with_front(acc: Seq<(Seq<char>, Style)>, r: Option<Seq<(Seq<char>, Style)>>) -> Option<Seq<(Seq<char>, Style)>> {
    match r {
        Some(rest) => Some(acc + rest),
        None => None,
    }
}

/// The spans of a text with the matches of a (lowercased, non-empty) query
/// in its lowercase marked (see `match_spans`).
fn search_spans(t: &Vec<char>, lt: &Vec<char>, lq: &Vec<char>, base: Style, ms: Style) -> (r: Option<Vec<Span>>)
    requires
        lq@.len() > 0,
    ensures
        r matches Some(v) ==> match_spans(t@, lt@, lq@, 0, base, ms) == Some(v@.map_values(|s: Span| span_view(s))),
        r is None ==> match_spans(t@, lt@, lq@, 0, base, ms) is None,
{
    let toffs = byte_offsets(t);
    let loffs = byte_offsets(lt);
    let qoffs = byte_offsets(lq);
    let qb = qoffs[lq.len()];
    assert(lq@.take(lq@.len() as int) =~= lq@);
    let mut out: Vec<Span> = Vec::new();
    let mut cl: usize = 0;
    let ltn = lt.len();
    let lqn = lq.len();
    loop
        invariant
            ltn == lt@.len(),
            lqn == lq@.len(),
            cl <= lt@.len(),
            qb == utf8_len(lq@),
            lq@.len() > 0,
            toffs@.len() == t@.len() + 1,
            forall|k: int| 0 <= k <= t@.len() ==> #[trigger] toffs@[k] == utf8_len(t@.take(k)),
            forall|k: int, l: int| 0 <= k <= l <= t@.len() ==> toffs@[k] <= toffs@[l],
            forall|k: int, l: int| 0 <= k < l <= t@.len() ==> toffs@[k] < toffs@[l],
            loffs@.len() == lt@.len() + 1,
            forall|k: int| 0 <= k <= lt@.len() ==> #[trigger] loffs@[k] <= 4 * k,
            qb <= 4 * lq@.len(),
            forall|k: int| 0 <= k <= lt@.len() ==> #[trigger] loffs@[k] == utf8_len(lt@.take(k)),
            forall|k: int, l: int| 0 <= k <= l <= lt@.len() ==> loffs@[k] <= loffs@[l],
            match_spans(t@, lt@, lq@, 0, base, ms) == with_front(
                out@.map_values(|s: Span| span_view(s)),
                match_spans(t@, lt@, lq@, cl as int, base, ms),
            ),
        decreases lt@.len() + 1 - cl,
    {
        let ghost acc = out@.map_values(|s: Span| span_view(s));
        let cb = loffs[cl];
        match find_from(lt, lq, cl) {
            Some(j) => {
                proof {
                    crate::text::lemma_find_sub(lt@, lq@, cl as int);
                }
                let ab = loffs[j];
                let eb = ab + qb;
                let tc = match index_of_byte(&toffs, cb, Ghost(t@)) {
                    Some(x) => x,
                    None => {
                        return None;
                    },
                };
                let ta = match index_of_byte(&toffs, ab, Ghost(t@)) {
                    Some(x) => x,
                    None => {
                        return None;
                    },
                };
                let te = match index_of_byte(&toffs, eb, Ghost(t@)) {
                    Some(x) => x,
                    None => {
                        return None;
                    },
                };
                assert(tc <= ta) by {
                    if ta < tc {
                        assert(toffs@[ta as int] < toffs@[tc as int]);
                    }
                }
                assert(ta <= te) by {
                    if te < ta {
                        assert(toffs@[te as int] < toffs@[ta as int]);
                    }
                }
                let ghost pre: Seq<(Seq<char>, Style)> = if ab > cb { seq![(t@.subrange(tc as int, ta as int), base)] } else { Seq::empty() };
                if ab > cb {
                    let text = crate::text::string_of(t.as_slice(), tc, ta);
                    out.push(Span { text, style: base });
                }
                let mid = crate::text::string_of(t.as_slice(), ta, te);
                out.push(Span { text: mid, style: ms });
                proof {
                    assert(out@.map_values(|s: Span| span_view(s)) =~= acc + pre + seq![(t@.subrange(ta as int, te as int), ms)]);
                    assert(acc + (pre + seq![(t@.subrange(ta as int, te as int), ms)]) =~= acc + pre + seq![(t@.subrange(ta as int, te as int), ms)]);
                    let r = match_spans(t@, lt@, lq@, j + lq@.len(), base, ms);
                    if r is Some {
                        assert(acc + (pre + seq![(t@.subrange(ta as int, te as int), ms)] + r->0) =~= acc + pre + seq![(t@.subrange(ta as int, te as int), ms)] + r->0);
                    }
                }
                cl = j + lq.len();
            },
            None => {
                if cb < toffs[t.len()] {
                    assert(t@.take(t@.len() as int) =~= t@);
                    match index_of_byte(&toffs, cb, Ghost(t@)) {
                        Some(tc) => {
                            let text = crate::text::string_of(t.as_slice(), tc, t.len());
                            out.push(Span { text, style: base });
                            assert(out@.map_values(|s: Span| span_view(s)) =~= acc + seq![(t@.subrange(tc as int, t@.len() as int), base)]);
                        },
                        None => {
                            return None;
                        },
                    }
                } else {
                    assert(t@.take(t@.len() as int) =~= t@);
                    assert(acc + Seq::<(Seq<char>, Style)>::empty() =~= acc);
                }
                return Some(out);
            },
        }
    }
}


/// All display rows of the first `k` lines, in order: (line, row within it).
pub open spec fn rows_upto(ls: Seq<Seq<char>>, w: int, wrap: bool, k: int) -> Seq<(int, int)>
    decreases k,
{
    if k <= 0 {
        Seq::empty()
    } else {
        rows_upto(ls, w, wrap, k - 1) + Seq::new(rows_of(ls, k - 1, w, wrap) as nat, |s: int| (k - 1, s))
    }
}

/// Text columns of the editor beside the gutter: the inner width less the
/// gutter and a space (at least one) when wrapping, else unbounded.
pub open spec fn text_w_of(wrap: bool, width: int, g: int) -> int {
    if wrap {
        let a = width - (g + 1);
        if a < 1 { 1 } else { a }
    } else {
        (usize::MAX / 2) as int
    }
}

/// The gutter of a display row: the line number right-aligned and a space
/// on the line's first row, blanks on the others.
pub open spec fn gutter_text(li: int, si: int, g: int) -> Seq<char> {
    if si == 0 {
        let d = decimal((li + 1) as nat);
        repeat(" "@, g - 1 - d.len()) + d + " "@
    } else {
        repeat(" "@, g)
    }
}

/// Search matches: black on yellow.
pub open spec fn match_style() -> Style {
    Style { fg: Some(Color::Black), bg: Some(Color::Yellow), ..Style::none() }
}

/// The spans of a row's text: all in the base style when there is no query;
/// else with the query's matches marked (compared in lowercase), the text
/// unmarked where a match does not fall on its character boundaries.
pub open spec fn text_spans(t: Seq<char>, query: Seq<char>, base: Style) -> Seq<(Seq<char>, Style)> {
    if query.len() == 0 {
        seq![(t, base)]
    } else {
        let lq = lower(query);
        if lq.len() == 0 {
            seq![(Seq::empty(), match_style())] + (if t.len() > 0 { seq![(t, base)] } else { Seq::empty() })
        } else {
            match match_spans(t, lower(t), lq, 0, base, match_style()) {
                Some(r) => r,
                None => seq![(t, base)],
            }
        }
    }
}

/// The editor's text width for an app and pane.
pub open spec fn app_text_w(a: App, inner: Area) -> int {
    text_w_of(a.wrap, inner.width as int, gutter_of(a.buf@.lines.len() as int))
}

/// The spans of display row `rc` (line, row within it): the gutter, then
/// the row's characters (the segment's start and, as many characters as its
/// width in cells, cut at the line's end) on the theme's colors, the cursor
/// line highlighted when the editor has focus.
pub open spec fn row_spans_of(a: App, inner: Area, rc: (int, int)) -> Seq<(Seq<char>, Style)> {
    let (li, si) = rc;
    let ls = a.buf@.lines;
    let g = gutter_of(ls.len() as int);
    let cs = ls[li];
    let sg = segs(cs, app_text_w(a, inner));
    let seg = if si < sg.len() { sg[si] } else { (0, 0) };
    let end = if seg.0 + seg.1 < cs.len() { seg.0 + seg.1 } else { cs.len() as int };
    let text = cs.subrange(seg.0, end);
    let hl = a.buf@.line == li && a.focus == Focus::Editor;
    let base = Style { fg: Some(a.theme.fg_of()), bg: Some(if hl { Color::Rgb(32, 36, 48) } else { a.theme.bg_of() }), ..Style::none() };
    let gst = fg_style(if si == 0 { Color::DarkGray } else { Color::Reset });
    seq![(gutter_text(li, si, g), gst)] + text_spans(text, a.last_query@, base)
}

/// The display rows in view: from the editor's scroll, as many as the pane
/// is tall.
pub open spec fn editor_rows(a: App, inner: Area) -> Seq<(int, int)> {
    let ls = a.buf@.lines;
    let all = rows_upto(ls, app_text_w(a, inner), a.wrap, ls.len() as int);
    let lo = if a.editor_scroll < all.len() { a.editor_scroll as int } else { all.len() as int };
    let hi = if a.editor_scroll + inner.height < all.len() { a.editor_scroll + inner.height } else { all.len() as int };
    all.subrange(lo, hi)
}

/// Cells of `cs[a..b]`, a character without a width counting none.
pub open spec fn cells0(cs: Seq<char>, a: int, b: int) -> int
    decreases b - a,
{
    if b <= a {
        0
    } else {
        cells0(cs, a, b - 1) + match uwidth(cs[b - 1]) {
            Some(w) => w as int,
            None => 0,
        }
    }
}

/// Where the cursor shows, when the editor has focus and the cursor's
/// display row (as the app counts it) is a row of the cursor line in view:
/// after the gutter, as many cells in as the row's characters before the
/// cursor take; the column saturates at the screen's edge.
pub open spec fn editor_cursor(a: App, inner: Area) -> Option<(u16, u16)> {
    let ls = a.buf@.lines;
    let w = app_text_w(a, inner);
    let line = a.buf@.line;
    let crow = a.cursor_row_of().0;
    let lsr = rows_before(ls, line, w, a.wrap);
    let all_len = rows_before(ls, ls.len() as int, w, a.wrap);
    let lo = if a.editor_scroll < all_len { a.editor_scroll as int } else { all_len };
    let hi = if a.editor_scroll + inner.height < all_len { a.editor_scroll + inner.height } else { all_len };
    if a.focus == Focus::Editor && crow >= lsr && crow - lsr < rows_of(ls, line, w, a.wrap) && lo <= crow < hi {
        let cs = ls[line];
        let seg = segs(cs, w)[crow - lsr];
        let c = if a.buf@.col < cs.len() { a.buf@.col } else { cs.len() as int };
        let end = if c > seg.0 { c } else { seg.0 };
        let x = inner.x + gutter_of(ls.len() as int) + cells0(cs, seg.0, end);
        Some(((if x > u16::MAX { u16::MAX as int } else { x }) as u16, (inner.y + crow - lo) as u16))
    } else {
        None
    }
}


/// The rows of the first `k` lines: as many as `rows_before` counts, each a
/// row of one of those lines.
proof fn lemma_rows_upto(ls: Seq<Seq<char>>, w: int, wrap: bool, k: int)
    requires
        0 <= k <= ls.len(),
    ensures
        rows_upto(ls, w, wrap, k).len() == rows_before(ls, k, w, wrap),
        forall|p: int| 0 <= p < rows_upto(ls, w, wrap, k).len() ==> {
            let rc = #[trigger] rows_upto(ls, w, wrap, k)[p];
            0 <= rc.0 < k && 0 <= rc.1 < rows_of(ls, rc.0, w, wrap)
        },
    decreases k,
{
    if k > 0 {
        lemma_rows_upto(ls, w, wrap, k - 1);
        let prev = rows_upto(ls, w, wrap, k - 1);
        let n = rows_of(ls, k - 1, w, wrap);
        assert(n >= 0) by {
            if wrap {
                assert(segs(ls[k - 1], w).len() >= 0);
            }
        }
        let cur = rows_upto(ls, w, wrap, k);
        assert forall|p: int| 0 <= p < cur.len() implies {
            let rc = #[trigger] cur[p];
            0 <= rc.0 < k && 0 <= rc.1 < rows_of(ls, rc.0, w, wrap)
        } by {
            if p < prev.len() {
                assert(cur[p] == prev[p]);
            } else {
                assert(cur[p] == (k - 1, p - prev.len()));
            }
        }
    }
}

/// The spans of a row's text (see `text_spans`).
fn text_spans_exec(t: &Vec<char>, query: &str, base: Style) -> (r: Vec<Span>)
    ensures
        r@.map_values(|s: Span| span_view(s)) == text_spans(t@, query@, base),
{
    let mut ms = Style::plain();
    ms.fg = Some(Color::Black);
    ms.bg = Some(Color::Yellow);
    let ts = crate::text::string_of(t.as_slice(), 0, t.len());
    assert(t@.subrange(0, t@.len() as int) =~= t@);
    let mut out: Vec<Span> = Vec::new();
    if query.unicode_len() == 0 {
        out.push(Span { text: ts, style: base });
        assert(out@.map_values(|s: Span| span_view(s)) =~= seq![(t@, base)]);
        return out;
    }
    let lqs = to_lowercase(query);
    let lq = crate::text::chars_of(lqs.as_str());
    if lq.len() == 0 {
        out.push(Span { text: String::new(), style: ms });
        if t.len() > 0 {
            out.push(Span { text: ts, style: base });
        }
        assert(out@.map_values(|s: Span| span_view(s)) =~= text_spans(t@, query@, base));
        return out;
    }
    let lts = to_lowercase(ts.as_str());
    let lt = crate::text::chars_of(lts.as_str());
    match search_spans(t, &lt, &lq, base, ms) {
        Some(v) => v,
        None => {
            out.push(Span { text: ts, style: base });
            assert(out@.map_values(|s: Span| span_view(s)) =~= seq![(t@, base)]);
            out
        },
    }
}

/// Cells of `cs[a..b]` (see `cells0`).
fn cells_between0(cs: &Vec<char>, a: usize, b: usize) -> (x: usize)
    requires
        a <= b <= cs@.len(),
        cs@.len() < usize::MAX / 4,
    ensures
        x == cells0(cs@, a as int, b as int),
        x <= 3 * (b - a),
{
    let mut x: usize = 0;
    let mut i = a;
    while i < b
        invariant
            a <= i <= b <= cs@.len(),
            cs@.len() < usize::MAX / 4,
            x == cells0(cs@, a as int, i as int),
            x <= 3 * (i - a),
        decreases b - i,
    {
        let w = match char_width(cs[i]) {
            Some(w) => w,
            None => 0,
        };
        x = x + w;
        i += 1;
    }
    x
}

/// All display rows of the buffer at text width `w`, and the rows before
/// the cursor line.
fn all_rows(app: &App, w: usize) -> (r: (Vec<(usize, usize)>, usize))
    requires
        app.ok(),
    ensures
        r.0@.map_values(|p: (usize, usize)| (p.0 as int, p.1 as int)) == rows_upto(app.buf@.lines, w as int, app.wrap, app.buf@.lines.len() as int),
        r.1 == rows_before(app.buf@.lines, app.buf@.line, w as int, app.wrap),
        r.0@.len() < usize::MAX / 8,
{
    let ghost ls = app.buf@.lines;
    let n = app.buf.line_count();
    let mut out: Vec<(usize, usize)> = Vec::new();
    let mut lsr: usize = 0;
    let mut i: usize = 0;
    while i < n
        invariant
            n == ls.len(),
            ls == app.buf@.lines,
            app.ok(),
            i <= n,
            out@.map_values(|p: (usize, usize)| (p.0 as int, p.1 as int)) == rows_upto(ls, w as int, app.wrap, i as int),
            out@.len() == rows_before(ls, i as int, w as int, app.wrap),
            out@.len() <= size_upto(ls, i as int),
            i > app.buf@.line ==> lsr == rows_before(ls, app.buf@.line, w as int, app.wrap),
        decreases n - i,
    {
        proof {
            lemma_rows_upto(ls, w as int, app.wrap, i as int);
            crate::wrap::lemma_size_mono(ls, i as int, n as int);
            crate::wrap::lemma_size_mono(ls, i as int + 1, n as int);
        }
        if i == app.buf.cursor_line {
            lsr = out.len();
        }
        let chars = app.buf.line_chars(i);
        let k = if app.wrap { rows_for_line(chars.as_slice(), w) } else { 1 };
        let ghost base = out@.map_values(|p: (usize, usize)| (p.0 as int, p.1 as int));
        let mut s: usize = 0;
        while s < k
            invariant
                s <= k,
                out@.map_values(|p: (usize, usize)| (p.0 as int, p.1 as int)) == base + Seq::new(s as nat, |t: int| (i as int, t)),
            decreases k - s,
        {
            let ghost prev = out@;
            out.push((i, s));
            proof {
                assert(out@.map_values(|p: (usize, usize)| (p.0 as int, p.1 as int)) =~= prev.map_values(|p: (usize, usize)| (p.0 as int, p.1 as int)).push((i as int, s as int)));
                assert(out@.map_values(|p: (usize, usize)| (p.0 as int, p.1 as int)) =~= base + Seq::new(s as nat + 1, |t: int| (i as int, t)));
            }
            s += 1;
        }
        proof {
            assert(k == rows_of(ls, i as int, w as int, app.wrap));
            assert(out@.map_values(|p: (usize, usize)| (p.0 as int, p.1 as int)) =~= rows_upto(ls, w as int, app.wrap, i as int + 1));
        }
        i += 1;
    }
    proof {
        lemma_rows_upto(ls, w as int, app.wrap, n as int);
    }
    (out, lsr)
}


/// The editor's text width for an app and pane (see `app_text_w`).
fn text_width(app: &App, inner: Area) -> (w: usize)
    ensures
        w == app_text_w(*app, inner),
        w >= 1,
{
    let g = app.gutter_width();
    if app.wrap {
        let a = inner.width as usize;
        let s = if a > g + 1 { a - (g + 1) } else { 0 };
        if s < 1 { 1 } else { s }
    } else {
        usize::MAX / 2
    }
}

/// The gutter of a display row (see `gutter_text`).
fn gutter_string(li: usize, si: usize, g: usize) -> (r: String)
    requires
        li < usize::MAX,
        g >= 1,
    ensures
        r@ == gutter_text(li as int, si as int, g as int),
{
    if si == 0 {
        let ds = decimal_chars((li + 1) as u64);
        let d = crate::text::string_of(ds.as_slice(), 0, ds.len());
        assert(ds@.subrange(0, ds@.len() as int) =~= ds@);
        let pad = if g - 1 > ds.len() { g - 1 - ds.len() } else { 0 };
        let sp = crate::markdown::repeat_str(" ", pad);
        assert(repeat(" "@, pad as int) == repeat(" "@, g - 1 - ds@.len())) by {
            if g - 1 <= ds.len() {
                assert(repeat(" "@, g - 1 - ds@.len()) == Seq::<char>::empty());
            }
        }
        let a = crate::markdown::concat(sp.as_str(), d.as_str());
        crate::markdown::concat(a.as_str(), " ")
    } else {
        crate::markdown::repeat_str(" ", g)
    }
}

/// The spans of a display row (see `row_spans_of`).
fn row_spans_exec(app: &App, inner: Area, w: usize, li: usize, si: usize) -> (r: Vec<Span>)
    requires
        app.ok(),
        li < app.buf@.lines.len(),
        w == app_text_w(*app, inner),
    ensures
        r@.map_values(|s: Span| span_view(s)) == row_spans_of(*app, inner, (li as int, si as int)),
{
    let ghost ls = app.buf@.lines;
    proof {
        crate::wrap::lemma_size_mono(ls, li as int, ls.len() as int);
    }
    let g = app.gutter_width();
    let cs = app.buf.line_chars(li);
    let sg = segments(cs.as_slice(), w);
    let ghost sv = sg@.map_values(|p: (usize, usize)| (p.0 as int, p.1 as int));
    let seg = if si < sg.len() { sg[si] } else { (0, 0) };
    assert(seg.0 <= cs@.len()) by {
        if si < sg.len() {
            assert(sv[si as int] == (seg.0 as int, seg.1 as int));
        }
    }
    let end = if seg.1 < cs.len() - seg.0 { seg.0 + seg.1 } else { cs.len() };
    let text = crate::text::copy_chars(cs.as_slice(), seg.0, end);
    let n = app.buf.line_count();
    assert(li < n);
    let gt = gutter_string(li, si, g);
    let hl = app.buf.cursor_line == li && app.focus == Focus::Editor;
    let mut base = Style::plain();
    base.fg = Some(app.theme.fg());
    base.bg = Some(if hl { Color::Rgb(32, 36, 48) } else { app.theme.bg() });
    let gst = Style::plain().with_fg(if si == 0 { Color::DarkGray } else { Color::Reset });
    let mut out: Vec<Span> = Vec::new();
    out.push(Span { text: gt, style: gst });
    let rest = text_spans_exec(&text, app.last_query.as_str(), base);
    let mut k: usize = 0;
    let ghost rv = rest@.map_values(|s: Span| span_view(s));
    while k < rest.len()
        invariant
            k <= rest@.len(),
            rv == rest@.map_values(|s: Span| span_view(s)),
            out@.map_values(|s: Span| span_view(s)) == seq![(gt@, gst)] + rv.take(k as int),
        decreases rest.len() - k,
    {
        let sp = Span { text: rest[k].text.clone(), style: rest[k].style };
        let ghost prev = out@;
        out.push(sp);
        proof {
            assert(rv.take(k as int + 1) =~= rv.take(k as int).push(rv[k as int]));
            assert(out@.map_values(|s: Span| span_view(s)) =~= prev.map_values(|s: Span| span_view(s)).push(span_view(sp)));
        }
        k += 1;
    }
    proof {
        assert(rv.take(rv.len() as int) =~= rv);
        assert(sv == segs(cs@, w as int));
    }
    out
}

/// The spans of each row, as plain values.
pub open spec fn rows_view(rs: Seq<Vec<Span>>) -> Seq<Seq<(Seq<char>, Style)>> {
    rs.map_values(|r: Vec<Span>| r@.map_values(|s: Span| span_view(s)))
}

/// What the editor pane shows inside its border: for each display row in
/// view (see `editor_rows`), its spans (see `row_spans_of`), and where the
/// cursor goes (see `editor_cursor`).
#[verifier::rlimit(100)]
#[verifier::spinoff_prover]
pub fn editor_view(app: &App, inner: Area) -> (r: (Vec<Vec<Span>>, Option<(u16, u16)>))
    requires
        app.ok(),
        inner.y + inner.height <= u16::MAX,
    ensures
        rows_view(r.0@) == editor_rows(*app, inner).map_values(|rc: (int, int)| row_spans_of(*app, inner, rc)),
        r.1 == editor_cursor(*app, inner),
{
    let ghost ls = app.buf@.lines;
    let w = text_width(app, inner);
    let (all, lsr) = all_rows(app, w);
    let ghost av = all@.map_values(|p: (usize, usize)| (p.0 as int, p.1 as int));
    proof {
        lemma_rows_upto(ls, w as int, app.wrap, ls.len() as int);
    }
    let lo = if app.editor_scroll < all.len() { app.editor_scroll } else { all.len() };
    let hi = if app.editor_scroll + (inner.height as usize) < all.len() { app.editor_scroll + inner.height as usize } else { all.len() };
    let ghost want = editor_rows(*app, inner).map_values(|rc: (int, int)| row_spans_of(*app, inner, rc));
    assert(editor_rows(*app, inner) =~= av.subrange(lo as int, hi as int));
    let mut rows: Vec<Vec<Span>> = Vec::new();
    let mut p = lo;
    while p < hi
        invariant
            lo <= p <= hi <= all@.len(),
            app.ok(),
            w == app_text_w(*app, inner),
            av == all@.map_values(|q: (usize, usize)| (q.0 as int, q.1 as int)),
            av == rows_upto(ls, w as int, app.wrap, ls.len() as int),
            ls == app.buf@.lines,
            forall|q: int| 0 <= q < av.len() ==> {
                let rc = #[trigger] av[q];
                0 <= rc.0 < ls.len() && 0 <= rc.1 < rows_of(ls, rc.0, w as int, app.wrap)
            },
            editor_rows(*app, inner) == av.subrange(lo as int, hi as int),
            want == editor_rows(*app, inner).map_values(|rc: (int, int)| row_spans_of(*app, inner, rc)),
            rows_view(rows@) == want.take(p - lo),
        decreases hi - p,
    {
        let (li, si) = all[p];
        assert(av[p as int] == (li as int, si as int));
        let r = row_spans_exec(app, inner, w, li, si);
        let ghost prev = rows@;
        rows.push(r);
        proof {
            assert(want[p - lo] == row_spans_of(*app, inner, (li as int, si as int)));
            assert(want.take(p - lo + 1) =~= want.take(p - lo).push(want[p - lo]));
            assert(rows_view(rows@) =~= rows_view(prev).push(r@.map_values(|s: Span| span_view(s))));
        }
        p += 1;
    }
    assert(want.take(hi - lo) =~= want);
    let mut cursor: Option<(u16, u16)> = None;
    if app.focus == Focus::Editor {
        let (crow, _cx) = app.editor_cursor_display_row();
        let line = app.buf.cursor_line;
        let cs = app.buf.line_chars(line);
        proof {
            crate::wrap::lemma_size_mono(ls, line as int, ls.len() as int);
        }
        let nrows = if app.wrap { rows_for_line(cs.as_slice(), w) } else { 1 };
        if crow >= lsr && crow - lsr < nrows && lo <= crow && crow < hi {
            let sg = segments(cs.as_slice(), w);
            let ghost sv = sg@.map_values(|q: (usize, usize)| (q.0 as int, q.1 as int));
            let within = crow - lsr;
            let seg = if within < sg.len() { sg[within] } else { (0, 0) };
            assert(seg == (sv[within as int].0 as usize, sv[within as int].1 as usize));
            let c = if app.buf.cursor_col < cs.len() { app.buf.cursor_col } else { cs.len() };
            let end = if c > seg.0 { c } else { seg.0 };
            let x = cells_between0(&cs, seg.0, end);
            let g = app.gutter_width();
            let xs = inner.x as usize + g + x;
            let xc: u16 = if xs > u16::MAX as usize { u16::MAX } else { xs as u16 };
            let yc: u16 = inner.y + (crow - lo) as u16;
            cursor = Some((xc, yc));
        }
    }
    proof {
        lemma_rows_upto(ls, w as int, app.wrap, ls.len() as int);
    }
    (rows, cursor)
}


/// The text of spans, joined.
pub open spec fn texts(ss: Seq<(Seq<char>, Style)>) -> Seq<char>
    decreases ss.len(),
{
    if ss.len() == 0 {
        Seq::empty()
    } else {
        texts(ss.drop_last()) + ss.last().0
    }
}

proof fn lemma_texts_add(a: Seq<(Seq<char>, Style)>, b: Seq<(Seq<char>, Style)>)
    ensures
        texts(a + b) == texts(a) + texts(b),
    decreases b.len(),
{
    if b.len() == 0 {
        assert(a + b =~= a);
        assert(texts(a) + texts(b) =~= texts(a));
    } else {
        lemma_texts_add(a, b.drop_last());
        assert((a + b).drop_last() =~= a + b.drop_last());
        assert(texts(a + b) =~= texts(a) + texts(b));
    }
}

proof fn lemma_texts_one(x: (Seq<char>, Style))
    ensures
        texts(seq![x]) == x.0,
{
    let s1 = seq![x];
    assert(s1.len() == 1);
    assert(s1.drop_last() =~= Seq::<(Seq<char>, Style)>::empty());
    assert(texts(s1.drop_last()) == Seq::<char>::empty());
    assert(s1.last() == x);
    assert(Seq::<char>::empty() + x.0 =~= x.0);
}

proof fn lemma_utf8_add(a: Seq<char>, b: Seq<char>)
    ensures
        utf8_len(a + b) == utf8_len(a) + utf8_len(b),
    decreases b.len(),
{
    if b.len() == 0 {
        assert(a + b =~= a);
    } else {
        lemma_utf8_add(a, b.drop_last());
        assert((a + b).drop_last() =~= a + b.drop_last());
    }
}

/// Longer prefixes take more bytes.
proof fn lemma_utf8_prefix_lt(s: Seq<char>, i: int, j: int)
    requires
        0 <= i < j <= s.len(),
    ensures
        utf8_len(s.take(i)) < utf8_len(s.take(j)),
    decreases j - i,
{
    assert(s.take(j).drop_last() =~= s.take(j - 1));
    crate::app::lemma_utf8_len_nonneg(s.take(j - 1));
    if i < j - 1 {
        lemma_utf8_prefix_lt(s, i, j - 1);
    }
}

proof fn lemma_char_at_byte(s: Seq<char>, b: int, k: int)
    ensures
        char_at_byte(s, b, k) matches Some(i) ==> k <= i <= s.len() && utf8_len(s.take(i)) == b,
    decreases s.len() + 1 - k,
{
    if 0 <= k <= s.len() && utf8_len(s.take(k)) < b {
        lemma_char_at_byte(s, b, k + 1);
    }
}

/// The spans of a marked text, from character `cl` of the lowercase text
/// on, spell the rest of the text.
proof fn lemma_match_spans_text(t: Seq<char>, lt: Seq<char>, lq: Seq<char>, cl: int, base: Style, ms: Style, tc0: int)
    requires
        0 <= cl <= lt.len(),
        char_at_byte(t, utf8_len(lt.take(cl)), 0) == Some(tc0),
    ensures
        match_spans(t, lt, lq, cl, base, ms) matches Some(r) ==> texts(r) == t.subrange(tc0, t.len() as int),
    decreases lt.len() + 1 - cl,
{
    let cb = utf8_len(lt.take(cl));
    lemma_char_at_byte(t, cb, 0);
    crate::text::lemma_find_sub(lt, lq, cl);
    match find_sub(lt, lq, cl) {
        Some(j) => {
            if lq.len() > 0 && 0 <= cl <= j && j + lq.len() <= lt.len() {
                let ab = utf8_len(lt.take(j));
                let eb = ab + utf8_len(lq);
                lemma_char_at_byte(t, ab, 0);
                lemma_char_at_byte(t, eb, 0);
                if let (Some(tc), Some(ta), Some(te)) = (char_at_byte(t, cb, 0), char_at_byte(t, ab, 0), char_at_byte(t, eb, 0)) {
                    // the next search starts at the end of this match
                    assert(lt.take(j + lq.len()) =~= lt.take(j) + lt.subrange(j, j + lq.len()));
                    lemma_utf8_add(lt.take(j), lt.subrange(j, j + lq.len()));
                    assert(utf8_len(lt.take(j + lq.len())) == eb);
                    lemma_match_spans_text(t, lt, lq, j + lq.len(), base, ms, te);
                    if cl < j {
                        lemma_utf8_prefix_lt(lt, cl, j);
                    }
                    assert(tc <= ta) by {
                        if ta < tc {
                            lemma_utf8_prefix_lt(t, ta, tc);
                        }
                    }
                    assert(ta <= te) by {
                        crate::app::lemma_utf8_len_nonneg(lq);
                        if te < ta {
                            lemma_utf8_prefix_lt(t, te, ta);
                        }
                    }
                    if ab == cb {
                        assert(ta == tc);
                    }
                    let pre: Seq<(Seq<char>, Style)> = if ab > cb { seq![(t.subrange(tc, ta), base)] } else { Seq::empty() };
                    match match_spans(t, lt, lq, j + lq.len(), base, ms) {
                        Some(rest) => {
                            let mid = seq![(t.subrange(ta, te), ms)];
                            lemma_texts_add(pre + mid, rest);
                            lemma_texts_add(pre, mid);
                            lemma_texts_one((t.subrange(ta, te), ms));
                            if ab > cb {
                                lemma_texts_one((t.subrange(tc, ta), base));
                            } else {
                                assert(texts(pre) =~= Seq::<char>::empty());
                            }
                            assert(texts(pre + mid + rest) =~= t.subrange(tc0, t.len() as int));
                        },
                        None => {},
                    }
                }
            }
        },
        None => {
            if cb < utf8_len(t) {
                if let Some(tc) = char_at_byte(t, cb, 0) {
                    lemma_texts_one((t.subrange(tc, t.len() as int), base));
                }
            } else {
                assert(tc0 == t.len()) by {
                    assert(t.take(t.len() as int) =~= t);
                    if tc0 < t.len() {
                        lemma_utf8_prefix_lt(t, tc0, t.len() as int);
                    }
                }
                assert(t.subrange(tc0, t.len() as int) =~= Seq::<char>::empty());
                assert(texts(Seq::<(Seq<char>, Style)>::empty()) =~= Seq::<char>::empty());
            }
        },
    }
}

/// Law: marking search matches never changes the text shown: the spans of
/// a row's text spell exactly that text, whatever the query.
pub proof fn law_marks_keep_text(t: Seq<char>, query: Seq<char>, base: Style)
    ensures
        texts(text_spans(t, query, base)) == t,
{
    lemma_texts_one((t, base));
    if query.len() > 0 {
        let lq = lower(query);
        if lq.len() == 0 {
            let a = seq![(Seq::<char>::empty(), match_style())];
            lemma_texts_one((Seq::<char>::empty(), match_style()));
            if t.len() > 0 {
                lemma_texts_add(a, seq![(t, base)]);
                assert(Seq::<char>::empty() + t =~= t);
            } else {
                assert(a + Seq::<(Seq<char>, Style)>::empty() =~= a);
                assert(t =~= Seq::<char>::empty());
            }
        } else {
            let lt = lower(t);
            assert(lt.take(0) =~= Seq::<char>::empty());
            assert(t.take(0) =~= Seq::<char>::empty());
            assert(char_at_byte(t, 0, 0) == Some(0int));
            lemma_match_spans_text(t, lt, lq, 0, base, match_style(), 0);
            assert(t.subrange(0, t.len() as int) =~= t);
        }
    }
}


/// Law: the editor shows at most as many rows as its pane is tall, each a
/// row of one of the buffer's lines, in document order from the scroll.
pub proof fn law_editor_rows_fit(a: App, inner: Area)
    requires
        a.buf@.wf(),
    ensures
        editor_rows(a, inner).len() <= inner.height,
        forall|p: int| 0 <= p < editor_rows(a, inner).len() ==> {
            let rc = #[trigger] editor_rows(a, inner)[p];
            0 <= rc.0 < a.buf@.lines.len() && 0 <= rc.1 < rows_of(a.buf@.lines, rc.0, app_text_w(a, inner), a.wrap)
        },
        forall|p: int, q: int| 0 <= p < q < editor_rows(a, inner).len() ==> editor_rows(a, inner)[p].0 <= editor_rows(a, inner)[q].0,
{
    let ls = a.buf@.lines;
    let w = app_text_w(a, inner);
    lemma_rows_upto(ls, w, a.wrap, ls.len() as int);
    lemma_rows_upto_ordered(ls, w, a.wrap, ls.len() as int);
    let all = rows_upto(ls, w, a.wrap, ls.len() as int);
    let lo = if a.editor_scroll < all.len() { a.editor_scroll as int } else { all.len() as int };
    let hi = if a.editor_scroll + inner.height < all.len() { a.editor_scroll + inner.height } else { all.len() as int };
    let v = editor_rows(a, inner);
    assert(v == all.subrange(lo, hi));
    assert forall|p: int| 0 <= p < v.len() implies {
        let rc = #[trigger] v[p];
        0 <= rc.0 < ls.len() && 0 <= rc.1 < rows_of(ls, rc.0, w, a.wrap)
    } by {
        assert(v[p] == all[lo + p]);
    }
    assert forall|p: int, q: int| 0 <= p < q < v.len() implies v[p].0 <= v[q].0 by {
        assert(v[p] == all[lo + p]);
        assert(v[q] == all[lo + q]);
    }
}

/// The rows of the first `k` lines come in line order.
proof fn lemma_rows_upto_ordered(ls: Seq<Seq<char>>, w: int, wrap: bool, k: int)
    requires
        0 <= k <= ls.len(),
    ensures
        forall|p: int, q: int| 0 <= p < q < rows_upto(ls, w, wrap, k).len() ==> rows_upto(ls, w, wrap, k)[p].0 <= rows_upto(ls, w, wrap, k)[q].0,
    decreases k,
{
    if k > 0 {
        lemma_rows_upto_ordered(ls, w, wrap, k - 1);
        lemma_rows_upto(ls, w, wrap, k - 1);
        let prev = rows_upto(ls, w, wrap, k - 1);
        let cur = rows_upto(ls, w, wrap, k);
        assert forall|p: int, q: int| 0 <= p < q < cur.len() implies cur[p].0 <= cur[q].0 by {
            if q < prev.len() {
                assert(cur[p] == prev[p]);
                assert(cur[q] == prev[q]);
            } else if p < prev.len() {
                assert(cur[p] == prev[p]);
                assert(cur[q].0 == k - 1);
            } else {
                assert(cur[p].0 == k - 1);
                assert(cur[q].0 == k - 1);
            }
        }
    }
}

} // verus!
