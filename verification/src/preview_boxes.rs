//! The boxed blocks of the preview: code cards and tables.

use vstd::prelude::*;
use crate::style::{fg_bg, fg_only, Area, Color, Style};
use crate::preview_style::{cell_w, cell_width, Pal};
use crate::preview_paint::{
    advance, char_run, clip_op, clip_ops, fill_line, fill_line_ops, lemma_clip_ops_add, lemma_clip_put,
    lemma_then, put, put_op, put_run, sadd, text_ops, write_chars, Painter, PaintOp, RawOp,
};
use crate::text::{chars_of, lines_of, text_lines, trail_char, trim_end_char};

verus! {

/// A highlighted piece of a code line: its color (red, green, blue, alpha)
/// and its text.
pub type Region = ((u8, u8, u8, u8), String);

pub open spec fn regions_view(rs: Seq<Region>) -> Seq<((u8, u8, u8, u8), Seq<char>)> {
    rs.map_values(|r: Region| (r.0, r.1@))
}

pub open spec fn hl_view(h: Option<Vec<Vec<Region>>>) -> Option<Seq<Seq<((u8, u8, u8, u8), Seq<char>)>>> {
    match h {
        Some(ls) => Some(ls@.map_values(|l: Vec<Region>| regions_view(l@))),
        None => None,
    }
}

/// The color of a highlighted piece: its own, or the text color when it is
/// fully transparent.
pub open spec fn region_color(c: (u8, u8, u8, u8), p: Pal) -> Color {
    if c.3 == 0 {
        p.text
    } else {
        Color::Rgb(c.0, c.1, c.2)
    }
}

/// Highlighted characters from a column, each painted only while the column
/// is left of `limit`; the first `k` characters of one piece.
pub open spec fn hl_chars(x: int, ly: int, cs: Seq<char>, k: int, st: Style, limit: int) -> (Seq<RawOp>, int)
    decreases k,
{
    if k <= 0 {
        (Seq::empty(), x)
    } else {
        let (o, cx) = hl_chars(x, ly, cs, k - 1, st, limit);
        if cx < limit {
            (o + put_op(cx, ly, cs[k - 1], st), sadd(cx, cell_width(cs[k - 1])))
        } else {
            (o, cx)
        }
    }
}

/// The first `j` highlighted pieces of a line.
pub open spec fn hl_upto(x: int, ly: int, rs: Seq<((u8, u8, u8, u8), Seq<char>)>, j: int, limit: int, p: Pal) -> (Seq<RawOp>, int)
    decreases j,
{
    if j <= 0 {
        (Seq::empty(), x)
    } else {
        let (o, cx) = hl_upto(x, ly, rs, j - 1, limit, p);
        let r = rs[j - 1];
        let (o2, cx2) = hl_chars(cx, ly, r.1, r.1.len() as int, fg_bg(region_color(r.0, p), p.code_bg), limit);
        (o + o2, cx2)
    }
}

/// The body of a code line on row `ly`: background, side bars, and the
/// text (highlighted and cut at the right bar, or plain).
pub open spec fn code_line_ops(pt: Painter, ly: int, line: Seq<char>, i: int, hl: Option<Seq<Seq<((u8, u8, u8, u8), Seq<char>)>>>) -> Seq<RawOp> {
    let x0 = pt.x0 as int;
    let w = pt.inner_w as int;
    let border = fg_only(pt.p.code_border);
    fill_line_ops(pt.area, ly, x0, x0 + w, pt.p.code_bg) + put_op(x0, ly, '│', border) + put_op(
        x0 + w - 1,
        ly,
        '│',
        border,
    ) + match hl {
        Some(h) => {
            let rs = if i < h.len() { h[i] } else { Seq::empty() };
            hl_upto(x0 + 2, ly, rs, rs.len() as int, x0 + w - 1, pt.p).0
        },
        None => text_ops(x0 + 2, ly, line, fg_bg(pt.p.text, pt.p.code_bg)).0,
    }
}

/// The first `k` lines of a code card body.
pub open spec fn code_lines_upto(pt: Painter, y: int, ls: Seq<Seq<char>>, k: int, hl: Option<Seq<Seq<((u8, u8, u8, u8), Seq<char>)>>>) -> (Seq<RawOp>, int)
    decreases k,
{
    if k <= 0 {
        (Seq::empty(), y)
    } else {
        let (o, yk) = code_lines_upto(pt, y, ls, k - 1, hl);
        (o + code_line_ops(pt, yk, ls[k - 1], k - 1, hl), sadd(yk, 1))
    }
}

/// Characters one column apart from `x` on row `ly` (the first `k`).
pub open spec fn label_upto(x: int, ly: int, cs: Seq<char>, k: int, st: Style) -> Seq<RawOp>
    decreases k,
{
    if k <= 0 {
        Seq::empty()
    } else {
        label_upto(x, ly, cs, k - 1, st) + put_op(x + k - 1, ly, cs[k - 1], st)
    }
}

/// Label characters from a column right of the area add nothing visible.
proof fn lemma_label_tail(x: int, ly: int, cs: Seq<char>, k: int, n: int, st: Style, area: Area, scroll: int)
    requires
        0 <= k <= n,
        k < n ==> x + k >= area.x + area.width,
    ensures
        clip_ops(label_upto(x, ly, cs, n, st), area, scroll) == clip_ops(label_upto(x, ly, cs, k, st), area, scroll),
    decreases n - k,
{
    if k < n {
        lemma_label_tail(x, ly, cs, k, n - 1, st, area, scroll);
        lemma_clip_ops_add(label_upto(x, ly, cs, n - 1, st), put_op(x + n - 1, ly, cs[n - 1], st), area, scroll);
        lemma_clip_put(x + n - 1, ly, cs[n - 1], st, area, scroll);
        assert(clip_op(RawOp::Put(x + n - 1, ly, cs[n - 1], st), area, scroll) == Seq::<PaintOp>::empty());
        assert(clip_ops(label_upto(x, ly, cs, n - 1, st), area, scroll) + Seq::<PaintOp>::empty() =~= clip_ops(label_upto(x, ly, cs, n - 1, st), area, scroll));
    }
}

/// A run of characters from a column right of the area adds nothing visible.
proof fn lemma_run_invisible(ly: int, lo: int, hi: int, ch: char, st: Style, area: Area, scroll: int)
    requires
        lo >= area.x + area.width,
    ensures
        clip_ops(char_run(ly, lo, hi, ch, st), area, scroll) == Seq::<PaintOp>::empty(),
    decreases hi - lo,
{
    if hi > lo {
        lemma_run_invisible(ly, lo, hi - 1, ch, st, area, scroll);
        lemma_clip_ops_add(char_run(ly, lo, hi - 1, ch, st), put_op(hi - 1, ly, ch, st), area, scroll);
        lemma_clip_put(hi - 1, ly, ch, st, area, scroll);
        assert(Seq::<PaintOp>::empty() + Seq::<PaintOp>::empty() =~= Seq::<PaintOp>::empty());
    }
}

/// A code card: a blank row, a rounded top border with the language (or
/// `code`), one row per line of code (trailing newlines dropped), the bottom
/// border and a blank row.
pub open spec fn code_card_ops(pt: Painter, y: int, lang: Seq<char>, code: Seq<char>, hl: Option<Seq<Seq<((u8, u8, u8, u8), Seq<char>)>>>) -> (Seq<RawOp>, int) {
    let x0 = pt.x0 as int;
    let w = pt.inner_w as int;
    let y1 = sadd(y, 1);
    let border = fg_only(pt.p.code_border);
    let ls = Style { fg: Some(pt.p.muted), dim: true, ..Style::none() };
    let label = " "@ + (if lang.len() == 0 { "code"@ } else { lang }) + " "@;
    let top = put_op(x0, y1, '╭', border) + label_upto(x0 + 1, y1, label, label.len() as int, ls) + char_run(
        y1,
        x0 + 1 + label.len(),
        x0 + w - 1,
        '─',
        border,
    ) + put_op(x0 + w - 1, y1, '╮', border);
    let lines = text_lines(code.take(trail_char(code, code.len() as int, '\n')));
    let (body, yb) = code_lines_upto(pt, sadd(y1, 1), lines, lines.len() as int, hl);
    let bottom = put_op(x0, yb, '╰', border) + char_run(yb, x0 + 1, x0 + w - 1, '─', border) + put_op(
        x0 + w - 1,
        yb,
        '╯',
        border,
    );
    (top + body + bottom, sadd(sadd(yb, 1), 1))
}

/// Paint highlighted characters while left of `limit`.
fn paint_hl_chars(pt: &mut Painter, x: u64, ly: u64, cs: &Vec<char>, st: Style, limit: u64) -> (cx: u64)
    requires
        old(pt).ok(),
    ensures
        old(pt).leads_to(*final(pt), hl_chars(x as int, ly as int, cs@, cs@.len() as int, st, limit as int).0, old(pt).y as int),
        cx == hl_chars(x as int, ly as int, cs@, cs@.len() as int, st, limit as int).1,
{
    let ghost a = *pt;
    let mut cx = x;
    let mut k: usize = 0;
    proof {
        assert(pt.out@ =~= a.out@ + clip_ops(Seq::empty(), a.area, a.scroll as int));
    }
    while k < cs.len()
        invariant
            k <= cs@.len(),
            pt.ok(),
            a.leads_to(*pt, hl_chars(x as int, ly as int, cs@, k as int, st, limit as int).0, a.y as int),
            cx == hl_chars(x as int, ly as int, cs@, k as int, st, limit as int).1,
        decreases cs.len() - k,
    {
        let c = cs[k];
        if cx < limit {
            let ghost b = *pt;
            let ghost acc = hl_chars(x as int, ly as int, cs@, k as int, st, limit as int).0;
            put(pt, cx, ly, c, st);
            proof {
                lemma_then(a, b, *pt, acc, a.y as int, put_op(cx as int, ly as int, c, st), a.y as int);
            }
            cx = cx.saturating_add(cell_w(c) as u64);
        }
        k += 1;
    }
    cx
}

/// Paint the highlighted pieces of a line while left of `limit`.
fn paint_hl_line(pt: &mut Painter, x: u64, ly: u64, rs: &Vec<Region>, limit: u64)
    requires
        old(pt).ok(),
    ensures
        old(pt).leads_to(*final(pt), hl_upto(x as int, ly as int, regions_view(rs@), rs@.len() as int, limit as int, old(pt).p).0, old(pt).y as int),
{
    let ghost a = *pt;
    let ghost rv = regions_view(rs@);
    let mut cx = x;
    let mut j: usize = 0;
    proof {
        assert(pt.out@ =~= a.out@ + clip_ops(Seq::empty(), a.area, a.scroll as int));
    }
    while j < rs.len()
        invariant
            j <= rs@.len(),
            pt.ok(),
            pt.p == a.p,
            rv == regions_view(rs@),
            a.leads_to(*pt, hl_upto(x as int, ly as int, rv, j as int, limit as int, a.p).0, a.y as int),
            cx == hl_upto(x as int, ly as int, rv, j as int, limit as int, a.p).1,
        decreases rs.len() - j,
    {
        let r = &rs[j];
        let (red, green, blue, alpha) = r.0;
        let color = if alpha == 0 { pt.p.text } else { Color::Rgb(red, green, blue) };
        let st = Style::plain().with_fg(color).with_bg(pt.p.code_bg);
        let cs = chars_of(r.1.as_str());
        assert(rv[j as int] == (r.0, cs@));
        let ghost b = *pt;
        let ghost acc = hl_upto(x as int, ly as int, rv, j as int, limit as int, a.p).0;
        cx = paint_hl_chars(pt, cx, ly, &cs, st, limit);
        proof {
            lemma_then(a, b, *pt, acc, a.y as int, hl_chars(hl_upto(x as int, ly as int, rv, j as int, limit as int, a.p).1, ly as int, cs@, cs@.len() as int, st, limit as int).0, a.y as int);
        }
        j += 1;
    }
}

/// Paint one line of a code card body (see `code_line_ops`).
fn code_line(pt: &mut Painter, line: &Vec<char>, i: usize, hl: &Option<Vec<Vec<Region>>>)
    requires
        old(pt).ok(),
    ensures
        old(pt).leads_to(*final(pt), code_line_ops(*old(pt), old(pt).y as int, line@, i as int, hl_view(*hl)), old(pt).y as int),
{
    let ghost a = *pt;
    let ly = pt.y;
    let x0 = pt.x0;
    let w = pt.inner_w;
    let border = Style::plain().with_fg(pt.p.code_border);
    let bg = pt.p.code_bg;
    fill_line(pt, ly, x0, x0 + w, bg);
    let ghost b1 = *pt;
    put(pt, x0, ly, '│', border);
    let ghost b2 = *pt;
    put(pt, x0 + w - 1, ly, '│', border);
    let ghost b3 = *pt;
    let ghost o1 = fill_line_ops(a.area, ly as int, x0 as int, x0 + w, bg);
    let ghost o2 = put_op(x0 as int, ly as int, '│', border);
    let ghost o3 = put_op(x0 + w - 1, ly as int, '│', border);
    proof {
        lemma_then(a, b1, b2, o1, ly as int, o2, ly as int);
        lemma_then(a, b2, b3, o1 + o2, ly as int, o3, ly as int);
    }
    match hl {
        Some(h) => {
            let ghost hv = h@.map_values(|l: Vec<Region>| regions_view(l@));
            if i < h.len() {
                assert(hv[i as int] == regions_view(h@[i as int]@));
                paint_hl_line(pt, x0 + 2, ly, &h[i], x0 + w - 1);
                proof {
                    lemma_then(a, b3, *pt, o1 + o2 + o3, ly as int, hl_upto((x0 + 2) as int, ly as int, hv[i as int], hv[i as int].len() as int, (x0 + w - 1) as int, a.p).0, ly as int);
                }
            } else {
                let empty: Vec<Region> = Vec::new();
                paint_hl_line(pt, x0 + 2, ly, &empty, x0 + w - 1);
                proof {
                    assert(regions_view(empty@) =~= Seq::empty());
                    lemma_then(a, b3, *pt, o1 + o2 + o3, ly as int, hl_upto((x0 + 2) as int, ly as int, Seq::empty(), 0, (x0 + w - 1) as int, a.p).0, ly as int);
                }
            }
        },
        None => {
            let st = Style::plain().with_fg(pt.p.text).with_bg(bg);
            let _ = write_chars(pt, x0 + 2, ly, line, st);
            proof {
                lemma_then(a, b3, *pt, o1 + o2 + o3, ly as int, text_ops((x0 + 2) as int, ly as int, line@, st).0, ly as int);
            }
        },
    }
}

/// Paint a code card (see `code_card_ops`). `hl` holds the highlighted
/// pieces of each line, when a highlighting theme was found.
pub fn code_card(pt: &mut Painter, lang: &str, code: &str, hl: &Option<Vec<Vec<Region>>>)
    requires
        old(pt).ok(),
    ensures
        old(pt).leads_to(
            *final(pt),
            code_card_ops(*old(pt), old(pt).y as int, lang@, code@, hl_view(*hl)).0,
            code_card_ops(*old(pt), old(pt).y as int, lang@, code@, hl_view(*hl)).1,
        ),
{
    let ghost a = *pt;
    advance(pt);
    let ghost b0 = *pt;
    let y1 = pt.y;
    let x0 = pt.x0;
    let w = pt.inner_w;
    let border = Style::plain().with_fg(pt.p.code_border);
    let mut ls = Style::plain().with_fg(pt.p.muted);
    ls.dim = true;
    // top border with the language
    put(pt, x0, y1, '╭', border);
    let ghost b1 = *pt;
    let lc = chars_of(lang);
    let mut label = chars_of(" ");
    let name = if lc.len() == 0 { chars_of("code") } else { lc };
    let ghost l0 = label@;
    let mut q: usize = 0;
    while q < name.len()
        invariant
            q <= name@.len(),
            label@ == l0 + name@.take(q as int),
        decreases name.len() - q,
    {
        label.push(name[q]);
        q += 1;
        assert(label@ =~= l0 + name@.take(q as int));
    }
    label.push(' ');
    proof {
        reveal_strlit(" ");
        reveal_strlit("code");
        assert(name@.take(name@.len() as int) =~= name@);
        assert(label@ =~= " "@ + (if lang@.len() == 0 { "code"@ } else { lang@ }) + " "@);
    }
    let mut cx = x0 + 1;
    let mut k: usize = 0;
    proof {
        assert(pt.out@ =~= b1.out@ + clip_ops(Seq::empty(), b1.area, b1.scroll as int));
    }
    let right = pt.area.x as u64 + pt.area.width as u64;
    while k < label.len() && cx < right
        invariant
            k <= label@.len(),
            x0 <= u16::MAX,
            pt.ok(),
            right == pt.area.x + pt.area.width,
            cx == x0 + 1 + k,
            x0 == b1.x0,
            b1.leads_to(*pt, label_upto((x0 + 1) as int, y1 as int, label@, k as int, ls), y1 as int),
        decreases label.len() - k,
    {
        let ghost c = *pt;
        put(pt, cx, y1, label[k], ls);
        proof {
            lemma_then(b1, c, *pt, label_upto((x0 + 1) as int, y1 as int, label@, k as int, ls), y1 as int, put_op(cx as int, y1 as int, label@[k as int], ls), y1 as int);
        }
        cx = cx + 1;
        k += 1;
    }
    proof {
        lemma_label_tail((x0 + 1) as int, y1 as int, label@, k as int, label@.len() as int, ls, pt.area, pt.scroll as int);
        assert(b1.leads_to(*pt, label_upto((x0 + 1) as int, y1 as int, label@, label@.len() as int, ls), y1 as int));
    }
    let lo: u64 = if k == label.len() { cx } else { u64::MAX };
    let ghost b2 = *pt;
    put_run(pt, y1, lo, x0 + w - 1, '─', border);
    proof {
        if k < label.len() {
            lemma_run_invisible(y1 as int, lo as int, x0 + w - 1, '─', border, b2.area, b2.scroll as int);
            lemma_run_invisible(y1 as int, x0 + 1 + label@.len(), x0 + w - 1, '─', border, b2.area, b2.scroll as int);
        }
        assert(b2.leads_to(*pt, char_run(y1 as int, x0 + 1 + label@.len(), x0 + w - 1, '─', border), y1 as int));
    }
    let ghost b3 = *pt;
    put(pt, x0 + w - 1, y1, '╮', border);
    let ghost b4 = *pt;
    advance(pt);
    let ghost b5 = *pt;
    let ghost top = put_op(x0 as int, y1 as int, '╭', border) + label_upto((x0 + 1) as int, y1 as int, label@, label@.len() as int, ls) + char_run(y1 as int, x0 + 1 + label@.len(), x0 + w - 1, '─', border) + put_op(x0 + w - 1, y1 as int, '╮', border);
    proof {
        lemma_then(b0, b1, b2, put_op(x0 as int, y1 as int, '╭', border), y1 as int, label_upto((x0 + 1) as int, y1 as int, label@, label@.len() as int, ls), y1 as int);
        lemma_then(b0, b2, b3, put_op(x0 as int, y1 as int, '╭', border) + label_upto((x0 + 1) as int, y1 as int, label@, label@.len() as int, ls), y1 as int, char_run(y1 as int, x0 + 1 + label@.len(), x0 + w - 1, '─', border), y1 as int);
        lemma_then(b0, b3, b4, put_op(x0 as int, y1 as int, '╭', border) + label_upto((x0 + 1) as int, y1 as int, label@, label@.len() as int, ls) + char_run(y1 as int, x0 + 1 + label@.len(), x0 + w - 1, '─', border), y1 as int, put_op(x0 + w - 1, y1 as int, '╮', border), y1 as int);
        lemma_then(b0, b4, b5, top, y1 as int, Seq::empty(), sadd(y1 as int, 1));
        assert(top + Seq::<RawOp>::empty() =~= top);
    }
    // body
    let trimmed = trim_end_char(chars_of(code).as_slice(), '\n');
    let ts = crate::text::string_of(trimmed.as_slice(), 0, trimmed.len());
    proof {
        assert(trimmed@.subrange(0, trimmed@.len() as int) =~= trimmed@);
    }
    let lines = lines_of(ts.as_str());
    let ghost lv = lines@.map_values(|l: Vec<char>| l@);
    let mut i: usize = 0;
    proof {
        assert(pt.out@ =~= b5.out@ + clip_ops(Seq::empty(), b5.area, b5.scroll as int));
    }
    while i < lines.len()
        invariant
            i <= lines@.len(),
            pt.ok(),
            pt.x0 == a.x0 && pt.inner_w == a.inner_w && pt.p == a.p && pt.area == a.area && pt.scroll == a.scroll,
            lv == lines@.map_values(|l: Vec<char>| l@),
            b5.leads_to(*pt, code_lines_upto(a, b5.y as int, lv, i as int, hl_view(*hl)).0, code_lines_upto(a, b5.y as int, lv, i as int, hl_view(*hl)).1),
        decreases lines.len() - i,
    {
        let ghost c = *pt;
        assert(lv[i as int] == lines@[i as int]@);
        code_line(pt, &lines[i], i, hl);
        let ghost c1 = *pt;
        advance(pt);
        proof {
            let prev = code_lines_upto(a, b5.y as int, lv, i as int, hl_view(*hl));
            assert(code_line_ops(c, prev.1, lv[i as int], i as int, hl_view(*hl)) == code_line_ops(a, prev.1, lv[i as int], i as int, hl_view(*hl)));
            lemma_then(b5, c, c1, prev.0, prev.1, code_line_ops(a, prev.1, lv[i as int], i as int, hl_view(*hl)), prev.1);
            lemma_then(b5, c1, *pt, prev.0 + code_line_ops(a, prev.1, lv[i as int], i as int, hl_view(*hl)), prev.1, Seq::empty(), sadd(prev.1, 1));
            assert(prev.0 + code_line_ops(a, prev.1, lv[i as int], i as int, hl_view(*hl)) + Seq::<RawOp>::empty() =~= code_lines_upto(a, b5.y as int, lv, i + 1, hl_view(*hl)).0);
        }
        i += 1;
    }
    let ghost b6 = *pt;
    // bottom border
    let yb = pt.y;
    put(pt, x0, yb, '╰', border);
    let ghost b7 = *pt;
    put_run(pt, yb, x0 + 1, x0 + w - 1, '─', border);
    let ghost b8 = *pt;
    put(pt, x0 + w - 1, yb, '╯', border);
    let ghost b9 = *pt;
    advance(pt);
    let ghost b10 = *pt;
    advance(pt);
    proof {
        let body = code_lines_upto(a, b5.y as int, lv, lv.len() as int, hl_view(*hl));
        let bo1 = put_op(x0 as int, yb as int, '╰', border);
        let bo2 = char_run(yb as int, x0 + 1, x0 + w - 1, '─', border);
        let bo3 = put_op(x0 + w - 1, yb as int, '╯', border);
        assert(lv == text_lines(code@.take(trail_char(code@, code@.len() as int, '\n'))));
        lemma_then(a, b0, b5, Seq::empty(), y1 as int, top, sadd(y1 as int, 1));
        lemma_then(a, b5, b6, Seq::empty() + top, sadd(y1 as int, 1), body.0, body.1);
        lemma_then(a, b6, b7, Seq::empty() + top + body.0, body.1, bo1, body.1);
        lemma_then(a, b7, b8, Seq::empty() + top + body.0 + bo1, body.1, bo2, body.1);
        lemma_then(a, b8, b9, Seq::empty() + top + body.0 + bo1 + bo2, body.1, bo3, body.1);
        lemma_then(a, b9, b10, Seq::empty() + top + body.0 + bo1 + bo2 + bo3, body.1, Seq::empty(), sadd(body.1, 1));
        lemma_then(a, b10, *pt, Seq::empty() + top + body.0 + bo1 + bo2 + bo3 + Seq::empty(), sadd(body.1, 1), Seq::empty(), sadd(sadd(body.1, 1), 1));
        assert(Seq::empty() + top + body.0 + bo1 + bo2 + bo3 + Seq::empty() + Seq::empty() =~= top + body.0 + (bo1 + bo2 + bo3));
    }
}


pub open spec fn cells_view(rows: Seq<Vec<String>>) -> Seq<Seq<Seq<char>>> {
    rows.map_values(|r: Vec<String>| crate::text::views(r@))
}

/// The most cells in one of the first `k` rows.
pub open spec fn max_cols_upto(rows: Seq<Seq<Seq<char>>>, k: int) -> int
    decreases k,
{
    if k <= 0 {
        0
    } else {
        let m = max_cols_upto(rows, k - 1);
        if rows[k - 1].len() > m { rows[k - 1].len() as int } else { m }
    }
}

/// The width of column `c`: its longest cell among the first `k` rows.
pub open spec fn col_w_upto(rows: Seq<Seq<Seq<char>>>, c: int, k: int) -> int
    decreases k,
{
    if k <= 0 {
        0
    } else {
        let m = col_w_upto(rows, c, k - 1);
        let l = if c < rows[k - 1].len() { rows[k - 1][c].len() as int } else { 0 };
        if l > m { l } else { m }
    }
}

/// The widths of the first `cols` columns.
pub open spec fn col_widths(rows: Seq<Seq<Seq<char>>>, cols: int) -> Seq<int> {
    Seq::new(cols as nat, |c: int| col_w_upto(rows, c, rows.len() as int))
}

/// The segments of a border row from column `x`: `─` over each column and
/// its padding, joined by `m`; the first `i` columns.
pub open spec fn segs_upto(x: int, ly: int, ws: Seq<int>, i: int, m: char, st: Style) -> (Seq<RawOp>, int)
    decreases i,
{
    if i <= 0 {
        (Seq::empty(), x)
    } else {
        let (o, cx) = segs_upto(x, ly, ws, i - 1, m, st);
        let cx2 = sadd(cx, ws[i - 1] + 2);
        let o2 = o + char_run(ly, cx, cx2, '─', st);
        if i < ws.len() {
            (o2 + put_op(cx2, ly, m, st), sadd(cx2, 1))
        } else {
            (o2, cx2)
        }
    }
}

/// A border row of a table: `l`, the segments joined by `m`, then `r`.
pub open spec fn border_row(x0: int, ly: int, ws: Seq<int>, l: char, m: char, r: char, st: Style) -> Seq<RawOp> {
    let (o, cx) = segs_upto(x0 + 1, ly, ws, ws.len() as int, m, st);
    put_op(x0, ly, l, st) + o + put_op(cx, ly, r, st)
}

/// The cells of a table row from column `x`, the first `ci` of them: a
/// space, the text, spaces up to the column width, a space and a bar.
pub open spec fn row_cells_upto(x: int, ly: int, row: Seq<Seq<char>>, ws: Seq<int>, ci: int, st: Style, border: Style) -> (Seq<RawOp>, int)
    decreases ci,
{
    if ci <= 0 {
        (Seq::empty(), x)
    } else {
        let (o, cx) = row_cells_upto(x, ly, row, ws, ci - 1, st, border);
        let cell = if ci - 1 < row.len() { row[ci - 1] } else { Seq::empty() };
        let cx1 = sadd(cx, 1);
        let (ot, cx2) = text_ops(cx1, ly, cell, st);
        let rem = ws[ci - 1] - cell.len();
        let cx3 = sadd(cx2, rem);
        (
            o + put_op(cx, ly, ' ', Style::none()) + ot + char_run(ly, cx2, cx3, ' ', Style::none()) + put_op(
                cx3,
                ly,
                ' ',
                Style::none(),
            ) + put_op(sadd(cx3, 1), ly, '│', border),
            sadd(cx3, 2),
        )
    }
}

/// One table row on row `ly`: the header background (first row) or the
/// alternate background (other even rows), the left bar, and the cells.
pub open spec fn table_row_ops(pt: Painter, ly: int, row: Seq<Seq<char>>, ws: Seq<int>, ri: int) -> Seq<RawOp> {
    let x0 = pt.x0 as int;
    let border = fg_only(pt.p.table_border);
    let bg = if ri == 0 {
        fill_line_ops(pt.area, ly, x0, x0 + pt.inner_w, pt.p.table_head_bg)
    } else if ri % 2 == 0 {
        fill_line_ops(pt.area, ly, x0, x0 + pt.inner_w, pt.p.table_alt_bg)
    } else {
        Seq::empty()
    };
    let st = if ri == 0 {
        Style { fg: Some(pt.p.strong), bold: true, ..Style::none() }
    } else {
        fg_only(pt.p.text)
    };
    bg + put_op(x0, ly, '│', border) + row_cells_upto(x0 + 1, ly, row, ws, ws.len() as int, st, border).0
}

/// The first `k` rows of a table; a separator follows the header row.
pub open spec fn table_rows_upto(pt: Painter, y: int, rows: Seq<Seq<Seq<char>>>, ws: Seq<int>, k: int) -> (Seq<RawOp>, int)
    decreases k,
{
    if k <= 0 {
        (Seq::empty(), y)
    } else {
        let (o, yk) = table_rows_upto(pt, y, rows, ws, k - 1);
        let o2 = o + table_row_ops(pt, yk, rows[k - 1], ws, k - 1);
        let y2 = sadd(yk, 1);
        if k == 1 {
            (o2 + border_row(pt.x0 as int, y2, ws, '├', '┼', '┤', fg_only(pt.p.table_border)), sadd(y2, 1))
        } else {
            (o2, y2)
        }
    }
}

/// A boxed table: a blank row, the top border, the rows (header first, then
/// a separator), the bottom border and a blank row; nothing for a table
/// without cells.
pub open spec fn table_ops(pt: Painter, y: int, rows: Seq<Seq<Seq<char>>>) -> (Seq<RawOp>, int) {
    let cols = max_cols_upto(rows, rows.len() as int);
    if rows.len() == 0 || cols == 0 {
        (Seq::empty(), y)
    } else {
        let ws = col_widths(rows, cols);
        let border = fg_only(pt.p.table_border);
        let x0 = pt.x0 as int;
        let y1 = sadd(y, 1);
        let top = border_row(x0, y1, ws, '┌', '┬', '┐', border);
        let (body, yb) = table_rows_upto(pt, sadd(y1, 1), rows, ws, rows.len() as int);
        (top + body + border_row(x0, yb, ws, '└', '┴', '┘', border), sadd(sadd(yb, 1), 1))
    }
}

/// Paint a border row of a table (see `border_row`).
fn paint_border(pt: &mut Painter, ly: u64, ws: &Vec<u64>, l: char, m: char, r: char, st: Style)
    requires
        old(pt).ok(),
    ensures
        old(pt).leads_to(*final(pt), border_row(old(pt).x0 as int, ly as int, ws@.map_values(|w: u64| w as int), l, m, r, st), old(pt).y as int),
{
    let ghost a = *pt;
    let ghost wv = ws@.map_values(|w: u64| w as int);
    let x0 = pt.x0;
    put(pt, x0, ly, l, st);
    let ghost b = *pt;
    let mut cx = x0 + 1;
    let mut i: usize = 0;
    proof {
        assert(pt.out@ =~= b.out@ + clip_ops(Seq::empty(), b.area, b.scroll as int));
    }
    while i < ws.len()
        invariant
            i <= ws@.len(),
            pt.ok(),
            wv == ws@.map_values(|w: u64| w as int),
            b.leads_to(*pt, segs_upto(x0 + 1, ly as int, wv, i as int, m, st).0, a.y as int),
            cx == segs_upto(x0 + 1, ly as int, wv, i as int, m, st).1,
        decreases ws.len() - i,
    {
        let ghost c0 = *pt;
        let ghost prev = segs_upto(x0 + 1, ly as int, wv, i as int, m, st);
        let cx2 = cx.saturating_add(ws[i].saturating_add(2));
        assert(cx2 == sadd(cx as int, wv[i as int] + 2));
        put_run(pt, ly, cx, cx2, '─', st);
        let ghost c1 = *pt;
        proof {
            lemma_then(b, c0, c1, prev.0, a.y as int, char_run(ly as int, cx as int, cx2 as int, '─', st), a.y as int);
        }
        if i + 1 < ws.len() {
            put(pt, cx2, ly, m, st);
            proof {
                lemma_then(b, c1, *pt, prev.0 + char_run(ly as int, cx as int, cx2 as int, '─', st), a.y as int, put_op(cx2 as int, ly as int, m, st), a.y as int);
            }
            cx = cx2.saturating_add(1);
        } else {
            cx = cx2;
        }
        i += 1;
    }
    let ghost c2 = *pt;
    put(pt, cx, ly, r, st);
    proof {
        let sg = segs_upto(x0 + 1, ly as int, wv, wv.len() as int, m, st);
        lemma_then(a, b, c2, put_op(x0 as int, ly as int, l, st), a.y as int, sg.0, a.y as int);
        lemma_then(a, c2, *pt, put_op(x0 as int, ly as int, l, st) + sg.0, a.y as int, put_op(cx as int, ly as int, r, st), a.y as int);
    }
}

/// Paint the cells of a table row (see `row_cells_upto`).
fn paint_row_cells(pt: &mut Painter, ly: u64, row: &Vec<String>, ws: &Vec<u64>, st: Style, border: Style)
    requires
        old(pt).ok(),
        ws@.len() >= row@.len(),
        forall|c: int| 0 <= c < row@.len() ==> row@[c]@.len() <= #[trigger] ws@[c],
    ensures
        old(pt).leads_to(*final(pt), row_cells_upto(old(pt).x0 + 1, ly as int, crate::text::views(row@), ws@.map_values(|w: u64| w as int), ws@.len() as int, st, border).0, old(pt).y as int),
{
    let ghost a = *pt;
    let ghost wv = ws@.map_values(|w: u64| w as int);
    let ghost rv = crate::text::views(row@);
    let mut cx = pt.x0 + 1;
    let mut ci: usize = 0;
    proof {
        assert(pt.out@ =~= a.out@ + clip_ops(Seq::empty(), a.area, a.scroll as int));
    }
    while ci < ws.len()
        invariant
            ci <= ws@.len(),
            ws@.len() >= row@.len(),
            forall|c: int| 0 <= c < row@.len() ==> row@[c]@.len() <= #[trigger] ws@[c],
            pt.ok(),
            pt.x0 == a.x0,
            wv == ws@.map_values(|w: u64| w as int),
            rv == crate::text::views(row@),
            a.leads_to(*pt, row_cells_upto(a.x0 + 1, ly as int, rv, wv, ci as int, st, border).0, a.y as int),
            cx == row_cells_upto(a.x0 + 1, ly as int, rv, wv, ci as int, st, border).1,
        decreases ws.len() - ci,
    {
        let ghost prev = row_cells_upto(a.x0 + 1, ly as int, rv, wv, ci as int, st, border);
        let cell = if ci < row.len() { chars_of(row[ci].as_str()) } else { Vec::new() };
        let ghost cellv = if ci < rv.len() { rv[ci as int] } else { Seq::<char>::empty() };
        assert(cell@ == cellv);
        let ghost c0 = *pt;
        put(pt, cx, ly, ' ', Style::plain());
        let ghost c1 = *pt;
        let cx1 = cx.saturating_add(1);
        let cx2 = write_chars(pt, cx1, ly, &cell, st);
        let ghost c2 = *pt;
        let rem = ws[ci] - cell.len() as u64;
        let cx3 = cx2.saturating_add(rem);
        put_run(pt, ly, cx2, cx3, ' ', Style::plain());
        let ghost c3 = *pt;
        put(pt, cx3, ly, ' ', Style::plain());
        let ghost c4 = *pt;
        put(pt, cx3.saturating_add(1), ly, '│', border);
        proof {
            let o1 = put_op(cx as int, ly as int, ' ', Style::none());
            let o2 = text_ops(cx1 as int, ly as int, cellv, st).0;
            let o3 = char_run(ly as int, cx2 as int, cx3 as int, ' ', Style::none());
            let o4 = put_op(cx3 as int, ly as int, ' ', Style::none());
            let o5 = put_op(sadd(cx3 as int, 1), ly as int, '│', border);
            lemma_then(a, c0, c1, prev.0, a.y as int, o1, a.y as int);
            lemma_then(a, c1, c2, prev.0 + o1, a.y as int, o2, a.y as int);
            lemma_then(a, c2, c3, prev.0 + o1 + o2, a.y as int, o3, a.y as int);
            lemma_then(a, c3, c4, prev.0 + o1 + o2 + o3, a.y as int, o4, a.y as int);
            lemma_then(a, c4, *pt, prev.0 + o1 + o2 + o3 + o4, a.y as int, o5, a.y as int);
        }
        cx = cx3.saturating_add(2);
        ci += 1;
    }
}

/// Paint a boxed table of cell texts (see `table_ops`).
pub fn table(pt: &mut Painter, rows: &Vec<Vec<String>>)
    requires
        old(pt).ok(),
    ensures
        old(pt).leads_to(
            *final(pt),
            table_ops(*old(pt), old(pt).y as int, cells_view(rows@)).0,
            table_ops(*old(pt), old(pt).y as int, cells_view(rows@)).1,
        ),
{
    let ghost a = *pt;
    let ghost rv = cells_view(rows@);
    proof {
        assert(pt.out@ =~= a.out@ + clip_ops(Seq::empty(), a.area, a.scroll as int));
    }
    if rows.len() == 0 {
        return;
    }
    // column count and widths
    let mut cols: usize = 0;
    let mut k: usize = 0;
    while k < rows.len()
        invariant
            k <= rows@.len(),
            rv == cells_view(rows@),
            cols == max_cols_upto(rv, k as int),
        decreases rows.len() - k,
    {
        assert(rv[k as int].len() == rows@[k as int]@.len());
        if rows[k].len() > cols {
            cols = rows[k].len();
        }
        k += 1;
    }
    if cols == 0 {
        return;
    }
    let mut ws: Vec<u64> = Vec::new();
    let mut c: usize = 0;
    while c < cols
        invariant
            c <= cols,
            ws@.len() == c,
            rv == cells_view(rows@),
            forall|j: int| 0 <= j < c ==> #[trigger] ws@[j] == col_w_upto(rv, j, rv.len() as int),
        decreases cols - c,
    {
        let mut m: u64 = 0;
        let mut k: usize = 0;
        while k < rows.len()
            invariant
                k <= rows@.len(),
                rv == cells_view(rows@),
                m == col_w_upto(rv, c as int, k as int),
            decreases rows.len() - k,
        {
            if c < rows[k].len() {
                assert(rv[k as int][c as int] == rows@[k as int]@[c as int]@);
                let l = rows[k][c].as_str().unicode_len() as u64;
                if l > m {
                    m = l;
                }
            }
            k += 1;
        }
        ws.push(m);
        c += 1;
    }
    let ghost wv = ws@.map_values(|w: u64| w as int);
    proof {
        assert(wv =~= col_widths(rv, cols as int));
    }
    let border = Style::plain().with_fg(pt.p.table_border);
    let x0 = pt.x0;
    advance(pt);
    let ghost b1 = *pt;
    let y1 = pt.y;
    paint_border(pt, y1, &ws, '┌', '┬', '┐', border);
    let ghost b2 = *pt;
    advance(pt);
    let ghost b3 = *pt;
    let head = Style { fg: Some(pt.p.strong), bold: true, ..Style::plain() };
    let body_st = Style::plain().with_fg(pt.p.text);
    let mut ri: usize = 0;
    proof {
        assert(pt.out@ =~= b3.out@ + clip_ops(Seq::empty(), b3.area, b3.scroll as int));
    }
    while ri < rows.len()
        invariant
            ri <= rows@.len(),
            pt.ok(),
            pt.x0 == a.x0 && pt.inner_w == a.inner_w && pt.p == a.p && pt.area == a.area && pt.scroll == a.scroll,
            x0 == a.x0,
            rv == cells_view(rows@),
            wv == ws@.map_values(|w: u64| w as int),
            wv == col_widths(rv, cols as int),
            ws@.len() == cols,
            cols == max_cols_upto(rv, rv.len() as int),
            border == fg_only(a.p.table_border),
            head == (Style { fg: Some(a.p.strong), bold: true, ..Style::none() }),
            body_st == fg_only(a.p.text),
            b3.leads_to(*pt, table_rows_upto(a, b3.y as int, rv, wv, ri as int).0, table_rows_upto(a, b3.y as int, rv, wv, ri as int).1),
        decreases rows.len() - ri,
    {
        let ghost prev = table_rows_upto(a, b3.y as int, rv, wv, ri as int);
        let ly = pt.y;
        let ghost c0 = *pt;
        if ri == 0 {
            let bg = pt.p.table_head_bg;
            fill_line(pt, ly, x0, x0 + pt.inner_w, bg);
        } else if ri % 2 == 0 {
            let bg = pt.p.table_alt_bg;
            fill_line(pt, ly, x0, x0 + pt.inner_w, bg);
        } else {
            assert(pt.out@ =~= c0.out@ + clip_ops(Seq::empty(), c0.area, c0.scroll as int));
        }
        let ghost c1 = *pt;
        put(pt, x0, ly, '│', border);
        let ghost c2 = *pt;
        let st = if ri == 0 { head } else { body_st };
        proof {
            lemma_max_cols_ge(rv, ri as int, rv.len() as int);
            assert forall|cc: int| 0 <= cc < rows@[ri as int]@.len() implies rows@[ri as int]@[cc]@.len() <= #[trigger] ws@[cc] by {
                lemma_col_w_ge(rv, cc, ri as int, rv.len() as int);
                assert(rv[ri as int][cc] == rows@[ri as int]@[cc]@);
                assert(wv[cc] == ws@[cc] as int);
            }
        }
        paint_row_cells(pt, ly, &rows[ri], &ws, st, border);
        let ghost c3 = *pt;
        advance(pt);
        let ghost c4 = *pt;
        proof {
            assert(rv[ri as int] == crate::text::views(rows@[ri as int]@));
            let bgo = if ri == 0 {
                fill_line_ops(a.area, ly as int, x0 as int, x0 + a.inner_w, a.p.table_head_bg)
            } else if ri % 2 == 0 {
                fill_line_ops(a.area, ly as int, x0 as int, x0 + a.inner_w, a.p.table_alt_bg)
            } else {
                Seq::<RawOp>::empty()
            };
            let cells = row_cells_upto(x0 + 1, ly as int, rv[ri as int], wv, wv.len() as int, st, border).0;
            lemma_then(b3, c0, c1, prev.0, prev.1, bgo, prev.1);
            lemma_then(b3, c1, c2, prev.0 + bgo, prev.1, put_op(x0 as int, ly as int, '│', border), prev.1);
            lemma_then(b3, c2, c3, prev.0 + bgo + put_op(x0 as int, ly as int, '│', border), prev.1, cells, prev.1);
            lemma_then(b3, c3, c4, prev.0 + bgo + put_op(x0 as int, ly as int, '│', border) + cells, prev.1, Seq::empty(), sadd(prev.1, 1));
            assert(prev.0 + bgo + put_op(x0 as int, ly as int, '│', border) + cells + Seq::<RawOp>::empty() =~= prev.0 + table_row_ops(a, prev.1, rv[ri as int], wv, ri as int));
        }
        if ri == 0 {
            let ly2 = pt.y;
            paint_border(pt, ly2, &ws, '├', '┼', '┤', border);
            let ghost c5 = *pt;
            advance(pt);
            proof {
                let o2 = prev.0 + table_row_ops(a, prev.1, rv[ri as int], wv, ri as int);
                let sep = border_row(x0 as int, sadd(prev.1, 1), wv, '├', '┼', '┤', border);
                lemma_then(b3, c4, c5, o2, sadd(prev.1, 1), sep, sadd(prev.1, 1));
                lemma_then(b3, c5, *pt, o2 + sep, sadd(prev.1, 1), Seq::empty(), sadd(sadd(prev.1, 1), 1));
                assert(o2 + sep + Seq::<RawOp>::empty() =~= o2 + sep);
            }
        }
        ri += 1;
    }
    let ghost b4 = *pt;
    let yb = pt.y;
    paint_border(pt, yb, &ws, '└', '┴', '┘', border);
    let ghost b5 = *pt;
    advance(pt);
    let ghost b6 = *pt;
    advance(pt);
    proof {
        let top = border_row(x0 as int, y1 as int, wv, '┌', '┬', '┐', border);
        let body = table_rows_upto(a, b3.y as int, rv, wv, rv.len() as int);
        let bot = border_row(x0 as int, yb as int, wv, '└', '┴', '┘', border);
        lemma_then(a, b1, b2, Seq::empty(), y1 as int, top, y1 as int);
        lemma_then(a, b2, b3, Seq::empty() + top, y1 as int, Seq::empty(), sadd(y1 as int, 1));
        lemma_then(a, b3, b4, Seq::empty() + top + Seq::empty(), sadd(y1 as int, 1), body.0, body.1);
        lemma_then(a, b4, b5, Seq::empty() + top + Seq::empty() + body.0, body.1, bot, body.1);
        lemma_then(a, b5, b6, Seq::empty() + top + Seq::empty() + body.0 + bot, body.1, Seq::empty(), sadd(body.1, 1));
        lemma_then(a, b6, *pt, Seq::empty() + top + Seq::empty() + body.0 + bot + Seq::empty(), sadd(body.1, 1), Seq::empty(), sadd(sadd(body.1, 1), 1));
        assert(Seq::empty() + top + Seq::empty() + body.0 + bot + Seq::empty() + Seq::empty() =~= top + body.0 + bot);
    }
}

proof fn lemma_max_cols_ge(rows: Seq<Seq<Seq<char>>>, i: int, k: int)
    requires
        0 <= i < k <= rows.len(),
    ensures
        rows[i].len() <= max_cols_upto(rows, k),
    decreases k,
{
    if i < k - 1 {
        lemma_max_cols_ge(rows, i, k - 1);
    }
}

proof fn lemma_col_w_ge(rows: Seq<Seq<Seq<char>>>, c: int, i: int, k: int)
    requires
        0 <= i < k <= rows.len(),
        0 <= c < rows[i].len(),
    ensures
        rows[i][c].len() <= col_w_upto(rows, c, k),
    decreases k,
{
    if i < k - 1 {
        lemma_col_w_ge(rows, c, i, k - 1);
    }
}

} // verus!
