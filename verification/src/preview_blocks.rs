//! The block painters of the preview: headings with rules, ornament rules,
//! paragraphs (with quote bars), list items and footnotes.

use vstd::prelude::*;
use crate::style::{fg_only, Color, Style};
use crate::preview_style::{
    heading_color, heading_color_of, style_for, text_style, tokens_view, wrap_tokens, wrapped,
    CellSpec, Fmt, Pal, Token,
};
use crate::preview_paint::{
    advance, cells_upto, char_run, fill_line, fill_line_ops, lemma_then, paint_row, put, put_op,
    put_run, sadd, text_ops, write_chars, write_str, Painter, RawOp,
};
use crate::num::decimal;
use crate::text::chars_of;

verus! {

/// Tokens written one after the other from column `x` on row `ly`, the
/// first `j` of them: the operations and the column after them.
pub open spec fn toks_text(x: int, ly: int, toks: Seq<(Seq<char>, Fmt)>, j: int, hc: Option<Color>, p: Pal) -> (Seq<RawOp>, int)
    decreases j,
{
    if j <= 0 {
        (Seq::empty(), x)
    } else {
        let (o, cx) = toks_text(x, ly, toks, j - 1, hc, p);
        let t = toks[j - 1];
        let (o2, cx2) = text_ops(cx, ly, t.0, text_style(t.1, hc, p));
        (o + o2, cx2)
    }
}

/// Write tokens one after the other; returns the column after them.
fn write_tokens(pt: &mut Painter, x: u64, ly: u64, toks: &Vec<Token>, hc: Option<Color>) -> (cx: u64)
    requires
        old(pt).ok(),
    ensures
        old(pt).leads_to(
            *final(pt),
            toks_text(x as int, ly as int, tokens_view(toks@), toks@.len() as int, hc, old(pt).p).0,
            old(pt).y as int,
        ),
        cx == toks_text(x as int, ly as int, tokens_view(toks@), toks@.len() as int, hc, old(pt).p).1,
{
    let ghost a = *pt;
    let ghost tv = tokens_view(toks@);
    let mut cx = x;
    let mut j: usize = 0;
    proof {
        assert(pt.out@ =~= a.out@ + crate::preview_paint::clip_ops(Seq::empty(), a.area, a.scroll as int));
    }
    while j < toks.len()
        invariant
            j <= toks@.len(),
            pt.ok(),
            tv == tokens_view(toks@),
            pt.p == a.p,
            a.leads_to(*pt, toks_text(x as int, ly as int, tv, j as int, hc, a.p).0, a.y as int),
            cx == toks_text(x as int, ly as int, tv, j as int, hc, a.p).1,
        decreases toks.len() - j,
    {
        let t = &toks[j];
        assert(tv[j as int] == (t.s@, t.f));
        let st = style_for(t.f, hc, pt.p);
        let ghost b = *pt;
        cx = write_str(pt, cx, ly, t.s.as_str(), st);
        proof {
            lemma_then(a, b, *pt, toks_text(x as int, ly as int, tv, j as int, hc, a.p).0, a.y as int, text_ops(toks_text(x as int, ly as int, tv, j as int, hc, a.p).1, ly as int, t.s@, st).0, a.y as int);
        }
        j += 1;
    }
    cx
}

/// A full-width rule under a heading: heavy for the first level.
pub open spec fn hrule_ops(pt: Painter, y: int, thick: bool, color: Color) -> (Seq<RawOp>, int) {
    let ch = if thick { '━' } else { '─' };
    (char_run(y, pt.x0 as int, pt.x0 + pt.inner_w, ch, fg_only(color)), sadd(y, 1))
}

fn hrule_raw(pt: &mut Painter, thick: bool, color: Color)
    requires
        old(pt).ok(),
    ensures
        old(pt).leads_to(*final(pt), hrule_ops(*old(pt), old(pt).y as int, thick, color).0, hrule_ops(*old(pt), old(pt).y as int, thick, color).1),
{
    let ch = if thick { '━' } else { '─' };
    let st = Style::plain().with_fg(color);
    let ghost a = *pt;
    let y = pt.y;
    put_run(pt, y, pt.x0, pt.x0 + pt.inner_w, ch, st);
    let ghost b = *pt;
    advance(pt);
    proof {
        lemma_then(a, b, *pt, char_run(y as int, a.x0 as int, a.x0 + a.inner_w, ch, st), a.y as int, Seq::empty(), sadd(a.y as int, 1));
        assert(char_run(y as int, a.x0 as int, a.x0 + a.inner_w, ch, st) + Seq::<RawOp>::empty() =~= char_run(y as int, a.x0 as int, a.x0 + a.inner_w, ch, st));
    }
}

/// A heading: a blank row, the text in the level's color (the first level
/// marked with `▍`), a rule under the first two levels, and a blank row.
pub open spec fn heading_ops(pt: Painter, y: int, toks: Seq<(Seq<char>, Fmt)>, level: int) -> (Seq<RawOp>, int) {
    let y1 = sadd(y, 1);
    let color = heading_color_of(pt.p, level);
    let prefix = if level == 1 { "▍ "@ } else { ""@ };
    let (o1, cx) = text_ops(pt.x0 as int, y1, prefix, fg_only(color));
    let (o2, cx2) = toks_text(cx, y1, toks, toks.len() as int, Some(color), pt.p);
    let y2 = sadd(y1, 1);
    let (o3, y3) = if level == 1 || level == 2 {
        hrule_ops(pt, y2, level == 1, color)
    } else {
        (Seq::empty(), y2)
    };
    (o1 + o2 + o3, sadd(y3, 1))
}

/// Paint a heading (see `heading_ops`).
pub fn heading(pt: &mut Painter, toks: &Vec<Token>, level: u8)
    requires
        old(pt).ok(),
    ensures
        old(pt).leads_to(
            *final(pt),
            heading_ops(*old(pt), old(pt).y as int, tokens_view(toks@), level as int).0,
            heading_ops(*old(pt), old(pt).y as int, tokens_view(toks@), level as int).1,
        ),
{
    let ghost a = *pt;
    let ghost tv = tokens_view(toks@);
    advance(pt);
    let ghost b1 = *pt;
    let color = heading_color(pt.p, level);
    let prefix = if level == 1 { "▍ " } else { "" };
    let y1 = pt.y;
    let cx = write_str(pt, pt.x0, y1, prefix, Style::plain().with_fg(color));
    let ghost b2 = *pt;
    let _ = write_tokens(pt, cx, y1, toks, Some(color));
    let ghost b3 = *pt;
    advance(pt);
    let ghost b4 = *pt;
    if level == 1 || level == 2 {
        hrule_raw(pt, level == 1, color);
    }
    let ghost b5 = *pt;
    advance(pt);
    proof {
        let (o1, cx1) = text_ops(a.x0 as int, y1 as int, prefix@, fg_only(color));
        let (o2, cx2) = toks_text(cx1, y1 as int, tv, tv.len() as int, Some(color), a.p);
        let y2 = sadd(y1 as int, 1);
        let (o3, y3) = if level == 1 || level == 2 {
            hrule_ops(a, y2, level == 1, color)
        } else {
            (Seq::<RawOp>::empty(), y2)
        };
        lemma_then(a, b1, b2, Seq::empty(), y1 as int, o1, y1 as int);
        lemma_then(a, b2, b3, Seq::empty() + o1, y1 as int, o2, y1 as int);
        lemma_then(a, b3, b4, Seq::empty() + o1 + o2, y1 as int, Seq::empty(), y2);
        if level == 1 || level == 2 {
            assert(hrule_ops(b4, y2, level == 1, color) == hrule_ops(a, y2, level == 1, color));
        } else {
            assert(b5.out@ =~= b4.out@ + crate::preview_paint::clip_ops(Seq::empty(), b4.area, b4.scroll as int));
        }
        lemma_then(a, b4, b5, Seq::empty() + o1 + o2 + Seq::empty(), y2, o3, y3);
        lemma_then(a, b5, *pt, Seq::empty() + o1 + o2 + Seq::empty() + o3, y3, Seq::empty(), sadd(y3, 1));
        assert(Seq::empty() + o1 + o2 + Seq::empty() + o3 + Seq::empty() =~= o1 + o2 + o3);
    }
}


/// An ornament rule `──── ✦ ────` across the width, with blank rows around.
pub open spec fn rule_ops(pt: Painter, y: int) -> (Seq<RawOp>, int) {
    let y1 = sadd(y, 1);
    let x0 = pt.x0 as int;
    let w = pt.inner_w as int;
    let side = if w >= 5 { (w - 3) / 2 } else { 1 };
    let st = fg_only(pt.p.rule);
    let orn = fg_only(pt.p.ornament);
    let o = char_run(y1, x0, x0 + side, '─', st) + put_op(x0 + side, y1, ' ', orn) + put_op(
        x0 + side + 1,
        y1,
        '✦',
        orn,
    ) + put_op(x0 + side + 2, y1, ' ', orn) + char_run(y1, x0 + side + 3, x0 + w, '─', st);
    (o, sadd(sadd(y1, 1), 1))
}

/// Paint an ornament rule (see `rule_ops`).
pub fn rule(pt: &mut Painter)
    requires
        old(pt).ok(),
    ensures
        old(pt).leads_to(*final(pt), rule_ops(*old(pt), old(pt).y as int).0, rule_ops(*old(pt), old(pt).y as int).1),
{
    let ghost a = *pt;
    advance(pt);
    let y1 = pt.y;
    let x0 = pt.x0;
    let w = pt.inner_w;
    let side: u64 = if w >= 5 { (w - 3) / 2 } else { 1 };
    let st = Style::plain().with_fg(pt.p.rule);
    let orn = Style::plain().with_fg(pt.p.ornament);
    let ghost b1 = *pt;
    put_run(pt, y1, x0, x0 + side, '─', st);
    let ghost b2 = *pt;
    put(pt, x0 + side, y1, ' ', orn);
    let ghost b3 = *pt;
    put(pt, x0 + side + 1, y1, '✦', orn);
    let ghost b4 = *pt;
    put(pt, x0 + side + 2, y1, ' ', orn);
    let ghost b5 = *pt;
    put_run(pt, y1, x0 + side + 3, x0 + w, '─', st);
    let ghost b6 = *pt;
    advance(pt);
    let ghost b7 = *pt;
    advance(pt);
    proof {
        let yi = y1 as int;
        let o1 = char_run(yi, x0 as int, x0 + side, '─', st);
        let o2 = put_op(x0 + side, yi, ' ', orn);
        let o3 = put_op(x0 + side + 1, yi, '✦', orn);
        let o4 = put_op(x0 + side + 2, yi, ' ', orn);
        let o5 = char_run(yi, x0 + side + 3, x0 + w, '─', st);
        lemma_then(a, b1, b2, Seq::empty(), yi, o1, yi);
        lemma_then(a, b2, b3, Seq::empty() + o1, yi, o2, yi);
        lemma_then(a, b3, b4, Seq::empty() + o1 + o2, yi, o3, yi);
        lemma_then(a, b4, b5, Seq::empty() + o1 + o2 + o3, yi, o4, yi);
        lemma_then(a, b5, b6, Seq::empty() + o1 + o2 + o3 + o4, yi, o5, yi);
        lemma_then(a, b6, b7, Seq::empty() + o1 + o2 + o3 + o4 + o5, yi, Seq::empty(), sadd(yi, 1));
        lemma_then(a, b7, *pt, Seq::empty() + o1 + o2 + o3 + o4 + o5 + Seq::empty(), sadd(yi, 1), Seq::empty(), sadd(sadd(yi, 1), 1));
        assert(Seq::empty() + o1 + o2 + o3 + o4 + o5 + Seq::empty() + Seq::empty() =~= o1 + o2 + o3 + o4 + o5);
    }
}

/// The quote bars of the first `d` levels on row `ly`.
pub open spec fn bars_upto(x0: int, bar: Color, ly: int, d: int) -> Seq<RawOp>
    decreases d,
{
    if d <= 0 {
        Seq::empty()
    } else {
        bars_upto(x0, bar, ly, d - 1) + put_op(sadd(x0, 3 * (d - 1)), ly, '┃', fg_only(bar))
    }
}

/// Paint the quote bars of `depth` levels on row `ly`.
fn paint_quote_bars(pt: &mut Painter, ly: u64, depth: usize)
    requires
        old(pt).ok(),
    ensures
        old(pt).leads_to(*final(pt), bars_upto(old(pt).x0 as int, old(pt).p.quote_bar, ly as int, depth as int), old(pt).y as int),
{
    let ghost a = *pt;
    let st = Style::plain().with_fg(pt.p.quote_bar);
    let mut d: usize = 0;
    proof {
        assert(pt.out@ =~= a.out@ + crate::preview_paint::clip_ops(Seq::empty(), a.area, a.scroll as int));
    }
    while d < depth
        invariant
            d <= depth,
            pt.ok(),
            pt.x0 == a.x0 && pt.p == a.p,
            st == fg_only(a.p.quote_bar),
            a.leads_to(*pt, bars_upto(a.x0 as int, a.p.quote_bar, ly as int, d as int), a.y as int),
        decreases depth - d,
    {
        let dd = d as u64;
        let x = if dd <= (u64::MAX - pt.x0) / 3 { pt.x0 + 3 * dd } else { u64::MAX };
        assert(x == sadd(a.x0 as int, 3 * d)) by (nonlinear_arith)
            requires
                x == (if dd <= (u64::MAX - a.x0) / 3 { a.x0 + 3 * dd } else { u64::MAX as int }),
                dd == d,
                a.x0 <= u16::MAX,
        ;
        let ghost b = *pt;
        put(pt, x, ly, '┃', st);
        proof {
            lemma_then(a, b, *pt, bars_upto(a.x0 as int, a.p.quote_bar, ly as int, d as int), a.y as int, put_op(x as int, ly as int, '┃', st), a.y as int);
        }
        d += 1;
    }
}

/// The background and bars of a quoted row.
pub open spec fn quote_row(pt: Painter, ly: int, qd: int) -> Seq<RawOp> {
    if qd > 0 {
        fill_line_ops(pt.area, ly, pt.x0 as int, pt.x0 + pt.inner_w, pt.p.quote_bg) + bars_upto(pt.x0 as int, pt.p.quote_bar, ly, qd)
    } else {
        Seq::empty()
    }
}

fn quote_row_paint(pt: &mut Painter, ly: u64, qd: usize)
    requires
        old(pt).ok(),
    ensures
        old(pt).leads_to(*final(pt), quote_row(*old(pt), ly as int, qd as int), old(pt).y as int),
{
    let ghost a = *pt;
    if qd > 0 {
        let bg = pt.p.quote_bg;
        fill_line(pt, ly, pt.x0, pt.x0 + pt.inner_w, bg);
        let ghost b = *pt;
        paint_quote_bars(pt, ly, qd);
        proof {
            lemma_then(a, b, *pt, fill_line_ops(a.area, ly as int, a.x0 as int, a.x0 + a.inner_w, bg), a.y as int, bars_upto(a.x0 as int, a.p.quote_bar, ly as int, qd as int), a.y as int);
        }
    } else {
        assert(pt.out@ =~= a.out@ + crate::preview_paint::clip_ops(Seq::empty(), a.area, a.scroll as int));
    }
}

/// Rows of wrapped cells from column `x`, each on its own document row and
/// (when quoted) over the quote background and bars; the first `k` rows.
pub open spec fn rows_upto(pt: Painter, y: int, rows: Seq<Seq<CellSpec>>, k: int, x: int, qd: int) -> (Seq<RawOp>, int)
    decreases k,
{
    if k <= 0 {
        (Seq::empty(), y)
    } else {
        let (o, yk) = rows_upto(pt, y, rows, k - 1, x, qd);
        let row = rows[k - 1];
        (o + quote_row(pt, yk, qd) + cells_upto(x, yk, row, row.len() as int).0, sadd(yk, 1))
    }
}

/// A paragraph, indented three columns per quote level: its wrapped rows
/// (quoted rows with background and bars) and a blank row; nothing when
/// fewer than four columns are left.
pub open spec fn paragraph_ops(pt: Painter, y: int, toks: Seq<(Seq<char>, Fmt)>, qd: int) -> (Seq<RawOp>, int) {
    let indent = 3 * qd;
    let width = if pt.inner_w > indent { pt.inner_w - indent } else { 0 };
    if width < 4 {
        (Seq::empty(), y)
    } else {
        let rows = wrapped(toks, width, pt.p);
        let (o, y2) = rows_upto(pt, y, rows, rows.len() as int, pt.x0 + indent, qd);
        (quote_row(pt, y, qd) + o, sadd(y2, 1))
    }
}

/// Paint a paragraph (see `paragraph_ops`).
pub fn paragraph(pt: &mut Painter, toks: &Vec<Token>, qd: usize)
    requires
        old(pt).ok(),
    ensures
        old(pt).leads_to(
            *final(pt),
            paragraph_ops(*old(pt), old(pt).y as int, tokens_view(toks@), qd as int).0,
            paragraph_ops(*old(pt), old(pt).y as int, tokens_view(toks@), qd as int).1,
        ),
{
    let ghost a = *pt;
    let ghost tv = tokens_view(toks@);
    if qd > 21845 || pt.inner_w <= (qd as u64) * 3 || pt.inner_w - (qd as u64) * 3 < 4 {
        assert(pt.out@ =~= a.out@ + crate::preview_paint::clip_ops(Seq::empty(), a.area, a.scroll as int));
        return;
    }
    let indent = (qd as u64) * 3;
    let width = pt.inner_w - indent;
    let wx = pt.x0 + indent;
    let y0 = pt.y;
    quote_row_paint(pt, y0, qd);
    let ghost b0 = *pt;
    let rows = wrap_tokens(toks, width as usize, pt.p);
    let ghost rv = rows@.map_values(|r: Vec<CellSpec>| r@);
    let mut k: usize = 0;
    proof {
        assert(rv == wrapped(tv, width as int, a.p));
    }
    while k < rows.len()
        invariant
            k <= rows@.len(),
            pt.ok(),
            pt.x0 == a.x0 && pt.inner_w == a.inner_w && pt.p == a.p && pt.area == a.area,
            rv == rows@.map_values(|r: Vec<CellSpec>| r@),
            b0.leads_to(*pt, rows_upto(a, y0 as int, rv, k as int, wx as int, qd as int).0, rows_upto(a, y0 as int, rv, k as int, wx as int, qd as int).1),
            a.leads_to(b0, quote_row(a, y0 as int, qd as int), y0 as int),
        decreases rows.len() - k,
    {
        let ghost c0 = *pt;
        let ly = pt.y;
        quote_row_paint(pt, ly, qd);
        let ghost c1 = *pt;
        assert(rv[k as int] == rows@[k as int]@);
        paint_row(pt, wx, ly, &rows[k]);
        let ghost c2 = *pt;
        advance(pt);
        proof {
            let prev = rows_upto(a, y0 as int, rv, k as int, wx as int, qd as int);
            assert(quote_row(c0, ly as int, qd as int) == quote_row(a, ly as int, qd as int));
            lemma_then(b0, c0, c1, prev.0, prev.1, quote_row(a, ly as int, qd as int), prev.1);
            lemma_then(b0, c1, c2, prev.0 + quote_row(a, ly as int, qd as int), prev.1, cells_upto(wx as int, ly as int, rv[k as int], rv[k as int].len() as int).0, prev.1);
            lemma_then(b0, c2, *pt, prev.0 + quote_row(a, ly as int, qd as int) + cells_upto(wx as int, ly as int, rv[k as int], rv[k as int].len() as int).0, prev.1, Seq::empty(), sadd(prev.1, 1));
            assert(prev.0 + quote_row(a, ly as int, qd as int) + cells_upto(wx as int, ly as int, rv[k as int], rv[k as int].len() as int).0 + Seq::<RawOp>::empty() =~= rows_upto(a, y0 as int, rv, k + 1, wx as int, qd as int).0);
        }
        k += 1;
    }
    let ghost b1 = *pt;
    advance(pt);
    proof {
        let r = rows_upto(a, y0 as int, rv, rv.len() as int, wx as int, qd as int);
        lemma_then(a, b0, b1, quote_row(a, y0 as int, qd as int), y0 as int, r.0, r.1);
        lemma_then(a, b1, *pt, quote_row(a, y0 as int, qd as int) + r.0, r.1, Seq::empty(), sadd(r.1, 1));
        assert(quote_row(a, y0 as int, qd as int) + r.0 + Seq::<RawOp>::empty() =~= quote_row(a, y0 as int, qd as int) + r.0);
    }
}


/// A list level: ordered or not, and the number of its next item.
#[derive(Clone, Copy, PartialEq, Eq, Structural, Debug)]
pub struct ListInfo {
    pub ordered: bool,
    pub counter: u64,
}

/// The marker of a list item and its style: a check mark or box for tasks,
/// the number for ordered lists, else a bullet that changes with depth.
pub open spec fn marker_of(p: Pal, li: Option<ListInfo>, depth: int, task: Option<bool>) -> (Seq<char>, Style) {
    match task {
        Some(t) => if t {
            ("✔ "@, fg_only(p.checkbox_on))
        } else {
            ("□ "@, fg_only(p.checkbox_off))
        },
        None => match li {
            Some(l) => if l.ordered {
                (decimal(l.counter as nat) + ". "@, fg_only(p.muted))
            } else {
                (
                    if depth % 3 == 1 {
                        "◦ "@
                    } else if depth % 3 == 2 {
                        "▪ "@
                    } else {
                        "• "@
                    },
                    fg_only(p.ornament),
                )
            },
            None => ("• "@, fg_only(p.ornament)),
        },
    }
}

fn marker(p: Pal, li: Option<ListInfo>, depth: usize, task: Option<bool>) -> (r: (Vec<char>, Style))
    ensures
        (r.0@, r.1) == marker_of(p, li, depth as int, task),
{
    match task {
        Some(t) => if t {
            (chars_of("✔ "), Style::plain().with_fg(p.checkbox_on))
        } else {
            (chars_of("□ "), Style::plain().with_fg(p.checkbox_off))
        },
        None => match li {
            Some(l) => if l.ordered {
                let mut m = crate::num::decimal_chars(l.counter);
                let ghost d = m@;
                m.push('.');
                m.push(' ');
                proof {
                    reveal_strlit(". ");
                    assert(m@ =~= d + ". "@);
                }
                (m, Style::plain().with_fg(p.muted))
            } else {
                let b = if depth % 3 == 1 {
                    chars_of("◦ ")
                } else if depth % 3 == 2 {
                    chars_of("▪ ")
                } else {
                    chars_of("• ")
                };
                (b, Style::plain().with_fg(p.ornament))
            },
            None => (chars_of("• "), Style::plain().with_fg(p.ornament)),
        },
    }
}

/// Rows of a list item: the marker at `bx` on the first row, the wrapped
/// text from `tx`; the first `k` rows.
pub open spec fn item_rows_upto(y: int, rows: Seq<Seq<CellSpec>>, k: int, bx: int, tx: int, m: (Seq<char>, Style)) -> (Seq<RawOp>, int)
    decreases k,
{
    if k <= 0 {
        (Seq::empty(), y)
    } else {
        let (o, yk) = item_rows_upto(y, rows, k - 1, bx, tx, m);
        let row = rows[k - 1];
        let mk = if k == 1 { text_ops(bx, yk, m.0, m.1).0 } else { Seq::empty() };
        (o + mk + cells_upto(tx, yk, row, row.len() as int).0, sadd(yk, 1))
    }
}

/// A list item indented two columns per level: the marker, then the text
/// wrapped three columns further in.
pub open spec fn list_item_ops(pt: Painter, y: int, toks: Seq<(Seq<char>, Fmt)>, li: Option<ListInfo>, depth: int, task: Option<bool>) -> (Seq<RawOp>, int) {
    let indent = 2 * depth;
    let bx = sadd(pt.x0 as int, indent);
    let tx = sadd(bx, 3);
    let width = if pt.inner_w > indent + 3 { pt.inner_w - indent - 3 } else { 0 };
    let rows = wrapped(toks, if width >= 2 { width } else { 2 }, pt.p);
    item_rows_upto(y, rows, rows.len() as int, bx, tx, marker_of(pt.p, li, depth, task))
}

/// Paint a list item (see `list_item_ops`).
pub fn list_item(pt: &mut Painter, toks: &Vec<Token>, li: Option<ListInfo>, depth: usize, task: Option<bool>)
    requires
        old(pt).ok(),
    ensures
        old(pt).leads_to(
            *final(pt),
            list_item_ops(*old(pt), old(pt).y as int, tokens_view(toks@), li, depth as int, task).0,
            list_item_ops(*old(pt), old(pt).y as int, tokens_view(toks@), li, depth as int, task).1,
        ),
{
    let ghost a = *pt;
    let ghost tv = tokens_view(toks@);
    let d = depth as u64;
    let indent: u64 = if d <= u64::MAX / 2 { 2 * d } else { u64::MAX };
    let bx = if indent <= u64::MAX - pt.x0 { pt.x0 + indent } else { u64::MAX };
    let tx = bx.saturating_add(3);
    let width: u64 = if indent <= u64::MAX - 3 && pt.inner_w > indent + 3 { pt.inner_w - indent - 3 } else { 0 };
    proof {
        if d > u64::MAX / 2 {
            assert(2 * depth > u64::MAX);
        }
        assert(bx == sadd(a.x0 as int, 2 * depth));
    }
    let (m, mst) = marker(pt.p, li, depth, task);
    let rows = wrap_tokens(toks, if width >= 2 { width as usize } else { 2 }, pt.p);
    let ghost rv = rows@.map_values(|r: Vec<CellSpec>| r@);
    let ghost mk = marker_of(a.p, li, depth as int, task);
    proof {
        assert(rv == wrapped(tv, if width >= 2 { width as int } else { 2 }, a.p));
        assert(pt.out@ =~= a.out@ + crate::preview_paint::clip_ops(Seq::empty(), a.area, a.scroll as int));
    }
    let mut k: usize = 0;
    while k < rows.len()
        invariant
            k <= rows@.len(),
            pt.ok(),
            pt.x0 == a.x0 && pt.inner_w == a.inner_w && pt.p == a.p && pt.area == a.area,
            rv == rows@.map_values(|r: Vec<CellSpec>| r@),
            (m@, mst) == mk,
            a.leads_to(*pt, item_rows_upto(a.y as int, rv, k as int, bx as int, tx as int, mk).0, item_rows_upto(a.y as int, rv, k as int, bx as int, tx as int, mk).1),
        decreases rows.len() - k,
    {
        let ghost c0 = *pt;
        let ly = pt.y;
        let ghost prev = item_rows_upto(a.y as int, rv, k as int, bx as int, tx as int, mk);
        let ghost mk_ops = if k == 0 { text_ops(bx as int, ly as int, m@, mst).0 } else { Seq::<RawOp>::empty() };
        if k == 0 {
            let _ = write_chars(pt, bx, ly, &m, mst);
        } else {
            assert(pt.out@ =~= c0.out@ + crate::preview_paint::clip_ops(Seq::empty(), c0.area, c0.scroll as int));
        }
        let ghost c1 = *pt;
        assert(rv[k as int] == rows@[k as int]@);
        paint_row(pt, tx, ly, &rows[k]);
        let ghost c2 = *pt;
        advance(pt);
        proof {
            lemma_then(a, c0, c1, prev.0, prev.1, mk_ops, prev.1);
            lemma_then(a, c1, c2, prev.0 + mk_ops, prev.1, cells_upto(tx as int, ly as int, rv[k as int], rv[k as int].len() as int).0, prev.1);
            lemma_then(a, c2, *pt, prev.0 + mk_ops + cells_upto(tx as int, ly as int, rv[k as int], rv[k as int].len() as int).0, prev.1, Seq::empty(), sadd(prev.1, 1));
            assert(prev.0 + mk_ops + cells_upto(tx as int, ly as int, rv[k as int], rv[k as int].len() as int).0 + Seq::<RawOp>::empty() =~= item_rows_upto(a.y as int, rv, k + 1, bx as int, tx as int, mk).0);
        }
        k += 1;
    }
}

/// A footnote definition: `↳ ` and its text on one row, then a blank row.
pub open spec fn footnote_ops(pt: Painter, y: int, toks: Seq<(Seq<char>, Fmt)>) -> (Seq<RawOp>, int) {
    let (o1, cx) = text_ops(pt.x0 as int, y, "↳ "@, fg_only(pt.p.ornament));
    let (o2, _) = toks_text(cx, y, toks, toks.len() as int, None, pt.p);
    (o1 + o2, sadd(sadd(y, 1), 1))
}

/// Paint a footnote definition (see `footnote_ops`).
pub fn footnote(pt: &mut Painter, toks: &Vec<Token>)
    requires
        old(pt).ok(),
    ensures
        old(pt).leads_to(
            *final(pt),
            footnote_ops(*old(pt), old(pt).y as int, tokens_view(toks@)).0,
            footnote_ops(*old(pt), old(pt).y as int, tokens_view(toks@)).1,
        ),
{
    let ghost a = *pt;
    let ghost tv = tokens_view(toks@);
    let y = pt.y;
    let cx = write_str(pt, pt.x0, y, "↳ ", Style::plain().with_fg(pt.p.ornament));
    let ghost b1 = *pt;
    let _ = write_tokens(pt, cx, y, toks, None);
    let ghost b2 = *pt;
    advance(pt);
    let ghost b3 = *pt;
    advance(pt);
    proof {
        let (o1, cx1) = text_ops(a.x0 as int, y as int, "↳ "@, fg_only(a.p.ornament));
        let (o2, _) = toks_text(cx1, y as int, tv, tv.len() as int, None, a.p);
        lemma_then(a, b1, b2, o1, y as int, o2, y as int);
        lemma_then(a, b2, b3, o1 + o2, y as int, Seq::empty(), sadd(y as int, 1));
        lemma_then(a, b3, *pt, o1 + o2 + Seq::empty(), sadd(y as int, 1), Seq::empty(), sadd(sadd(y as int, 1), 1));
        assert(o1 + o2 + Seq::<RawOp>::empty() + Seq::<RawOp>::empty() =~= o1 + o2);
    }
}

} // verus!
