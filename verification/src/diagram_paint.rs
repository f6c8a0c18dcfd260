//! Painting a laid-out diagram: boxes for nodes and orthogonal edges with
//! Unicode box-drawing glyphs, as a list of cells for the terminal.

use vstd::prelude::*;
use crate::diagram::{extent, ints, layers_of, fits, graph_ok, laid_out, layout, nodes_view, parse_mermaid, parse_plantuml, placed_ok, Diagram, DNode, DEdge, Dir, EdgeV, NodeV, Shape, edges_view};
use crate::style::{clip, fg_bg, fg_only, lemma_clip_add, lemma_clip_push, put, Area, Cell, Color, Paint, Style};
use crate::text::chars_of;

verus! {

pub open spec fn accent() -> Color {
    Color::Rgb(255, 166, 87)
}

pub open spec fn node_fg() -> Color {
    Color::Rgb(220, 225, 235)
}

pub open spec fn node_bg() -> Color {
    Color::Rgb(28, 34, 47)
}

pub open spec fn edge_col() -> Color {
    Color::Rgb(139, 148, 158)
}

pub open spec fn label_col() -> Color {
    Color::Rgb(200, 210, 225)
}

/// One cell.
pub open spec fn at(x: int, y: int, ch: char, st: Style) -> Seq<Cell> {
    seq![(x, y, ch, st)]
}

/// The column `x` from row `lo` up to (not including) row `hi`.
pub open spec fn vrun(x: int, lo: int, hi: int, ch: char, st: Style) -> Seq<Cell>
    decreases hi - lo,
{
    if hi <= lo {
        Seq::empty()
    } else {
        vrun(x, lo, hi - 1, ch, st).push((x, hi - 1, ch, st))
    }
}

/// The row `y` from column `lo` up to (not including) column `hi`.
pub open spec fn hrun(y: int, lo: int, hi: int, ch: char, st: Style) -> Seq<Cell>
    decreases hi - lo,
{
    if hi <= lo {
        Seq::empty()
    } else {
        hrun(y, lo, hi - 1, ch, st).push((hi - 1, y, ch, st))
    }
}

/// Rows `y1` and `y2` together, column by column from `lo` up to `hi`.
pub open spec fn hpair(y1: int, y2: int, lo: int, hi: int, ch: char, st: Style) -> Seq<Cell>
    decreases hi - lo,
{
    if hi <= lo {
        Seq::empty()
    } else {
        hpair(y1, y2, lo, hi - 1, ch, st).push((hi - 1, y1, ch, st)).push((hi - 1, y2, ch, st))
    }
}

/// The first `k` characters of `cs`, left to right from (`x`, `y`).
pub open spec fn text_run(x: int, y: int, cs: Seq<char>, k: int, st: Style) -> Seq<Cell>
    decreases k,
{
    if k <= 0 {
        Seq::empty()
    } else {
        text_run(x, y, cs, k - 1, st).push((x + k - 1, y, cs[k - 1], st))
    }
}

/// A label centred in `inner` cells from (`x`, `y`), cut to fit.
pub open spec fn label_cells(x: int, y: int, label: Seq<char>, inner: int, st: Style) -> Seq<Cell> {
    let room = if inner >= 0 { inner } else { 0 };
    let m = if room <= label.len() { room } else { label.len() as int };
    let pad = if inner - m >= 0 { (inner - m) / 2 } else { 0 };
    text_run(x + pad, y, label, m, st)
}

/// The border color of a node: its fill color, else the accent.
pub open spec fn border_col(nd: NodeV) -> Color {
    match nd.fill {
        Some((r, g, b)) => Color::Rgb(r, g, b),
        None => accent(),
    }
}

/// The cells of a node box whose top left corner is (`x`, `y`); the border
/// takes the node's fill color.
pub open spec fn node_cells(x: int, y: int, nd: NodeV) -> Seq<Cell> {
    let w = nd.w;
    let inner = if w - 2 >= 1 { w - 2 } else { 1 };
    let st = fg_bg(node_fg(), node_bg());
    let bd = fg_bg(border_col(nd), node_bg());
    match nd.shape {
        Shape::Rect | Shape::Cylinder => at(x, y, '┌', bd) + at(x + w - 1, y, '┐', bd) + at(
            x,
            y + 2,
            '└',
            bd,
        ) + at(x + w - 1, y + 2, '┘', bd) + hpair(y, y + 2, x + 1, x + w - 1, '─', bd) + at(
            x,
            y + 1,
            '│',
            bd,
        ) + at(x + w - 1, y + 1, '│', bd) + label_cells(x + 1, y + 1, nd.label, inner, st) + if nd.shape
            == Shape::Cylinder {
            at(x, y, '╭', bd) + at(x + w - 1, y, '╮', bd)
        } else {
            Seq::empty()
        },
        Shape::Round | Shape::Stadium | Shape::Circle => at(x, y, '╭', bd) + at(x + w - 1, y, '╮', bd)
            + at(x, y + 2, '╰', bd) + at(x + w - 1, y + 2, '╯', bd) + hpair(
            y,
            y + 2,
            x + 1,
            x + w - 1,
            '─',
            bd,
        ) + at(x, y + 1, '│', bd) + at(x + w - 1, y + 1, '│', bd) + label_cells(
            x + 1,
            y + 1,
            nd.label,
            inner,
            st,
        ),
        Shape::Diamond => at(x + 1, y, '╱', bd) + at(x + w - 2, y, '╲', bd) + hrun(
            y,
            x + 2,
            x + w - 2,
            '─',
            bd,
        ) + at(x, y + 1, '│', bd) + at(x + w - 1, y + 1, '│', bd) + label_cells(
            x + 1,
            y + 1,
            nd.label,
            inner,
            st,
        ) + at(x + 1, y + 2, '╲', bd) + at(x + w - 2, y + 2, '╱', bd) + hrun(
            y + 2,
            x + 2,
            x + w - 2,
            '─',
            bd,
        ),
    }
}

pub open spec fn min_i(a: int, b: int) -> int {
    if a <= b { a } else { b }
}

pub open spec fn max_i(a: int, b: int) -> int {
    if a >= b { a } else { b }
}

/// The glyph of a dashed or dotted edge, if it is one.
pub open spec fn dash_of(e: EdgeV) -> Option<char> {
    if e.dotted {
        Some('.')
    } else if e.dashed {
        Some('-')
    } else {
        None
    }
}

/// The endpoints of a line from box `a` to box `b`: the middle of the bottom
/// of `a` and the top of `b` (vertical), or of the right side of `a` and the
/// left side of `b` (horizontal); and the middle line between them.
pub open spec fn ends_of(a: NodeV, b: NodeV, vert: bool) -> (int, int, int, int, int) {
    if vert {
        let sx = a.x + a.w / 2;
        let sy = a.y + a.h;
        let tx = b.x + b.w / 2;
        let ty = b.y;
        (sx, sy, tx, ty, (sy + ty) / 2)
    } else {
        let sx = a.x + a.w;
        let sy = a.y + a.h / 2;
        let tx = b.x;
        let ty = b.y + b.h / 2;
        (sx, sy, tx, ty, (sx + tx) / 2)
    }
}

/// Whether a direction lays layers out in rows.
pub open spec fn vertical(dir: Dir) -> bool {
    dir is TD || dir is BT
}

/// The endpoints of the line of an edge from `a` to `b`: drawn from the
/// upper (or left) box of the two, which is `b` when the diagram runs
/// bottom-up (or right-to-left).
pub open spec fn ends(a: NodeV, b: NodeV, dir: Dir) -> (int, int, int, int, int) {
    match dir {
        Dir::TD => ends_of(a, b, true),
        Dir::BT => ends_of(b, a, true),
        Dir::LR | Dir::Sequence => ends_of(a, b, false),
        Dir::RL => ends_of(b, a, false),
    }
}

/// The line of a vertical edge between upper box `a` and lower box `b`,
/// offset by (`x0`, `y0`): down out of `a`, across at the middle line with
/// corners, into `b`; the arrow head just above `b` (pointing down) when
/// `fwd`, else just below `a` (pointing up).
pub open spec fn td_line(a: NodeV, b: NodeV, e: EdgeV, x0: int, y0: int, fwd: bool) -> Seq<Cell> {
    let st = fg_only(if e.thick { accent() } else { edge_col() });
    let hch = match dash_of(e) {
        Some(c) => c,
        None => '─',
    };
    let vch = match dash_of(e) {
        Some(c) => c,
        None => '│',
    };
    let (sx, sy, tx, ty, mid) = ends_of(a, b, true);
    let head = Style { fg: Some(accent()), ..st };
    vrun(x0 + sx, y0 + sy + 1, y0 + mid + 1, vch, st) + (if sx != tx {
        hrun(y0 + mid, x0 + min_i(sx, tx), x0 + max_i(sx, tx) + 1, hch, st) + at(
            x0 + sx,
            y0 + mid,
            if sx < tx { '┐' } else { '┌' },
            st,
        ) + at(x0 + tx, y0 + mid, if sx < tx { '└' } else { '┘' }, st) + vrun(
            x0 + tx,
            y0 + mid + 1,
            y0 + ty,
            vch,
            st,
        )
    } else {
        vrun(x0 + tx, y0 + mid + 1, y0 + ty, vch, st)
    }) + (if fwd { at(x0 + tx, y0 + ty - 1, '▼', head) } else { at(x0 + sx, y0 + sy, '▲', head) })
}

/// The line of a horizontal edge between left box `a` and right box `b`,
/// offset by (`x0`, `y0`): out of `a`'s right side, up or down at the middle
/// line with corners, into `b`; the arrow head just left of `b` (pointing
/// right) when `fwd`, else just right of `a` (pointing left).
pub open spec fn lr_line(a: NodeV, b: NodeV, e: EdgeV, x0: int, y0: int, fwd: bool) -> Seq<Cell> {
    let st = fg_only(if e.thick { accent() } else { edge_col() });
    let hch = match dash_of(e) {
        Some(c) => c,
        None => '─',
    };
    let vch = match dash_of(e) {
        Some(c) => c,
        None => '│',
    };
    let (sx, sy, tx, ty, mid) = ends_of(a, b, false);
    let head = Style { fg: Some(accent()), ..st };
    hrun(y0 + sy, x0 + sx + 1, x0 + mid + 1, hch, st) + (if sy != ty {
        vrun(x0 + mid, y0 + min_i(sy, ty), y0 + max_i(sy, ty) + 1, vch, st) + at(
            x0 + mid,
            y0 + sy,
            if sy < ty { '┘' } else { '┐' },
            st,
        ) + at(x0 + mid, y0 + ty, if sy < ty { '┌' } else { '┘' }, st) + hrun(
            y0 + ty,
            x0 + mid + 1,
            x0 + tx,
            hch,
            st,
        )
    } else {
        hrun(y0 + ty, x0 + mid + 1, x0 + tx, hch, st)
    }) + (if fwd { at(x0 + tx - 1, y0 + ty, '▶', head) } else { at(x0 + sx, y0 + sy, '◀', head) })
}

/// The line of an edge from `a` to `b`, offset by (`x0`, `y0`), with its
/// arrow head next to `b`, pointing the way the diagram runs.
pub open spec fn edge_line(a: NodeV, b: NodeV, e: EdgeV, dir: Dir, x0: int, y0: int) -> Seq<Cell> {
    match dir {
        Dir::TD => td_line(a, b, e, x0, y0, true),
        Dir::BT => td_line(b, a, e, x0, y0, false),
        Dir::LR | Dir::Sequence => lr_line(a, b, e, x0, y0, true),
        Dir::RL => lr_line(b, a, e, x0, y0, false),
    }
}

/// The label of an edge: centred above the middle line (vertical), or just
/// right of it at mid height (horizontal).
pub open spec fn edge_label(a: NodeV, b: NodeV, e: EdgeV, dir: Dir, x0: int, y0: int) -> Seq<Cell> {
    let (sx, sy, tx, ty, mid) = ends(a, b, dir);
    match e.label {
        Some(lab) => {
            let lx = if vertical(dir) { x0 + (sx + tx) / 2 - lab.len() / 2 } else { x0 + mid + 1 };
            let ly = if vertical(dir) { y0 + mid - 1 } else { y0 + (sy + ty) / 2 };
            text_run(lx, ly, lab, lab.len() as int, fg_only(label_col()))
        },
        None => Seq::empty(),
    }
}

/// The line of an edge, or its label when `labels` holds.
pub open spec fn edge_part(a: NodeV, b: NodeV, e: EdgeV, dir: Dir, x0: int, y0: int, labels: bool) -> Seq<Cell> {
    if labels { edge_label(a, b, e, dir, x0, y0) } else { edge_line(a, b, e, dir, x0, y0) }
}

/// The lines (or, when `labels` holds, the labels) of the first `k` edges.
pub open spec fn edges_cells(ns: Seq<NodeV>, es: Seq<EdgeV>, dir: Dir, x0: int, y0: int, k: int, labels: bool) -> Seq<Cell>
    decreases k,
{
    if k <= 0 {
        Seq::empty()
    } else {
        let e = es[k - 1];
        edges_cells(ns, es, dir, x0, y0, k - 1, labels) + edge_part(ns[e.from], ns[e.to], e, dir, x0, y0, labels)
    }
}

/// All cells of the first `k` node boxes.
pub open spec fn nodes_cells(ns: Seq<NodeV>, x0: int, y0: int, k: int) -> Seq<Cell>
    decreases k,
{
    if k <= 0 {
        Seq::empty()
    } else {
        nodes_cells(ns, x0, y0, k - 1) + node_cells(x0 + ns[k - 1].x, y0 + ns[k - 1].y, ns[k - 1])
    }
}

/// The lowest box bottom among the first `k` nodes (at least 0).
pub open spec fn bottom(ns: Seq<NodeV>, k: int) -> int
    decreases k,
{
    if k <= 0 {
        0
    } else {
        max_i(bottom(ns, k - 1), ns[k - 1].y + ns[k - 1].h)
    }
}

/// The column of a participant's lifeline: the middle of its box.
pub open spec fn life_x(nd: NodeV) -> int {
    nd.x + nd.w / 2
}

/// The lifelines of the first `k` participants, dotted from under their
/// boxes down to row `bot` (not included).
pub open spec fn lifelines(ns: Seq<NodeV>, x0: int, y0: int, bot: int, k: int) -> Seq<Cell>
    decreases k,
{
    if k <= 0 {
        Seq::empty()
    } else {
        lifelines(ns, x0, y0, bot, k - 1) + vrun(x0 + life_x(ns[k - 1]), y0 + 3, y0 + bot, '┊', fg_only(edge_col()))
    }
}

/// A message from `a` to `b` on row `row`: a line between their lifelines
/// with its head next to the receiver's, or a loop mark for a message to
/// oneself; its label just above, from two columns right of the leftmost
/// lifeline.
pub open spec fn msg_cells(a: NodeV, b: NodeV, e: EdgeV, row: int, x0: int, y0: int) -> Seq<Cell> {
    let st = fg_only(if e.thick { accent() } else { edge_col() });
    let ch = match dash_of(e) {
        Some(c) => c,
        None => '─',
    };
    let head = Style { fg: Some(accent()), ..st };
    let ca = life_x(a);
    let cb = life_x(b);
    (if ca < cb {
        hrun(y0 + row, x0 + ca + 1, x0 + cb - 1, ch, st) + at(x0 + cb - 1, y0 + row, '▶', head)
    } else if cb < ca {
        hrun(y0 + row, x0 + cb + 2, x0 + ca, ch, st) + at(x0 + cb + 1, y0 + row, '◀', head)
    } else {
        at(x0 + ca + 1, y0 + row, '↺', head)
    }) + match e.label {
        Some(l) => text_run(x0 + min_i(ca, cb) + 2, y0 + row - 1, l, l.len() as int, fg_only(label_col())),
        None => Seq::empty(),
    }
}

/// The first `k` messages, one every second row from row 4.
pub open spec fn msgs_cells(ns: Seq<NodeV>, es: Seq<EdgeV>, x0: int, y0: int, k: int) -> Seq<Cell>
    decreases k,
{
    if k <= 0 {
        Seq::empty()
    } else {
        let e = es[k - 1];
        msgs_cells(ns, es, x0, y0, k - 1) + msg_cells(ns[e.from], ns[e.to], e, 4 + 2 * (k - 1), x0, y0)
    }
}

/// A sequence diagram drawn at (`x0`, `y0`): the rows it takes, and the
/// lifelines, then the participant boxes, then the messages.
pub open spec fn seq_drawn(ns: Seq<NodeV>, es: Seq<EdgeV>, x0: int, y0: int) -> (int, Seq<Cell>) {
    let bot: int = 4 + 2 * (es.len() as int);
    (
        bot + 1,
        lifelines(ns, x0, y0, bot, ns.len() as int) + nodes_cells(ns, x0, y0, ns.len() as int) + msgs_cells(
            ns,
            es,
            x0,
            y0,
            es.len() as int,
        ),
    )
}

/// The layout width available in `area`: two columns of margin on each side,
/// at least 20.
pub open spec fn avail_w(area: Area) -> int {
    max_i(area.width - 4, 20)
}

/// What drawing a diagram in `area` gives: the rows it takes, and the cells
/// painted in order: the edge lines, then the edge labels over them, then the
/// boxes, which cover the lines' ends (for a sequence diagram, see
/// `seq_drawn`).
pub open spec fn drawn(v: (Seq<NodeV>, Seq<EdgeV>, Dir), area: Area) -> (int, Seq<Cell>) {
    let ns = laid_out(v, avail_w(area));
    let x0 = area.x + 2;
    let y0 = area.y + 1;
    if v.2 is Sequence {
        seq_drawn(ns, v.1, x0, y0)
    } else {
    (
        bottom(ns, ns.len() as int) + 2,
        edges_cells(ns, v.1, v.2, x0, y0, v.1.len() as int, false) + edges_cells(ns, v.1, v.2, x0, y0, v.1.len() as int, true) + nodes_cells(
            ns,
            x0,
            y0,
            ns.len() as int,
        ),
    )
    }
}

proof fn lemma_vrun_push(x: int, lo: int, y: int, ch: char, st: Style)
    requires
        lo <= y,
    ensures
        vrun(x, lo, y + 1, ch, st) == vrun(x, lo, y, ch, st).push((x, y, ch, st)),
{
}

/// Paint column `x` from row `lo` up to row `hi`.
fn vline(out: &mut Vec<Paint>, bw: u16, bh: u16, x: i32, lo: i32, hi: i32, ch: char, st: Style)
    ensures
        final(out)@ == old(out)@ + clip(vrun(x as int, lo as int, hi as int, ch, st), bw as int, bh as int),
{
    if hi <= lo {
        assert(old(out)@ + clip(Seq::<Cell>::empty(), bw as int, bh as int) =~= old(out)@);
        return;
    }
    let mut y = lo;
    assert(old(out)@ + clip(vrun(x as int, lo as int, lo as int, ch, st), bw as int, bh as int) =~= old(out)@);
    while y < hi
        invariant
            lo <= y <= hi,
            out@ == old(out)@ + clip(vrun(x as int, lo as int, y as int, ch, st), bw as int, bh as int),
        decreases hi - y,
    {
        put(out, bw, bh, x, y, ch, st);
        proof {
            lemma_vrun_push(x as int, lo as int, y as int, ch, st);
            lemma_clip_push(vrun(x as int, lo as int, y as int, ch, st), (x as int, y as int, ch, st), bw as int, bh as int);
            lemma_clip_push(Seq::empty(), (x as int, y as int, ch, st), bw as int, bh as int);
            assert(Seq::<Cell>::empty().push((x as int, y as int, ch, st)) =~= seq![(x as int, y as int, ch, st)]);
            assert(clip(Seq::<Cell>::empty(), bw as int, bh as int) =~= Seq::<Paint>::empty());
        }
        y += 1;
    }
}

/// Paint row `y` from column `lo` up to column `hi`.
fn hline(out: &mut Vec<Paint>, bw: u16, bh: u16, y: i32, lo: i32, hi: i32, ch: char, st: Style)
    ensures
        final(out)@ == old(out)@ + clip(hrun(y as int, lo as int, hi as int, ch, st), bw as int, bh as int),
{
    if hi <= lo {
        assert(old(out)@ + clip(Seq::<Cell>::empty(), bw as int, bh as int) =~= old(out)@);
        return;
    }
    let mut x = lo;
    assert(old(out)@ + clip(hrun(y as int, lo as int, lo as int, ch, st), bw as int, bh as int) =~= old(out)@);
    while x < hi
        invariant
            lo <= x <= hi,
            out@ == old(out)@ + clip(hrun(y as int, lo as int, x as int, ch, st), bw as int, bh as int),
        decreases hi - x,
    {
        put(out, bw, bh, x, y, ch, st);
        proof {
            assert(hrun(y as int, lo as int, x + 1, ch, st) == hrun(y as int, lo as int, x as int, ch, st).push((x as int, y as int, ch, st)));
            lemma_clip_push(hrun(y as int, lo as int, x as int, ch, st), (x as int, y as int, ch, st), bw as int, bh as int);
            lemma_clip_push(Seq::empty(), (x as int, y as int, ch, st), bw as int, bh as int);
            assert(Seq::<Cell>::empty().push((x as int, y as int, ch, st)) =~= seq![(x as int, y as int, ch, st)]);
            assert(clip(Seq::<Cell>::empty(), bw as int, bh as int) =~= Seq::<Paint>::empty());
        }
        x += 1;
    }
}

/// Appending the paints of one more piece of cells.
proof fn lemma_step(o: Seq<Paint>, acc: Seq<Cell>, piece: Seq<Cell>, bw: int, bh: int)
    ensures
        o + clip(acc, bw, bh) + clip(piece, bw, bh) == o + clip(acc + piece, bw, bh),
{
    lemma_clip_add(acc, piece, bw, bh);
    assert(o + clip(acc, bw, bh) + clip(piece, bw, bh) =~= o + (clip(acc, bw, bh) + clip(piece, bw, bh)));
}

proof fn lemma_clip_empty(o: Seq<Paint>, bw: int, bh: int)
    ensures
        o + clip(Seq::<Cell>::empty(), bw, bh) == o,
{
    assert(o + clip(Seq::<Cell>::empty(), bw, bh) =~= o);
}

/// Paint rows `y1` and `y2` together, column by column from `lo` up to `hi`.
fn hpairs(out: &mut Vec<Paint>, bw: u16, bh: u16, y1: i32, y2: i32, lo: i32, hi: i32, ch: char, st: Style)
    ensures
        final(out)@ == old(out)@ + clip(hpair(y1 as int, y2 as int, lo as int, hi as int, ch, st), bw as int, bh as int),
{
    if hi <= lo {
        proof {
            lemma_clip_empty(old(out)@, bw as int, bh as int);
        }
        return;
    }
    let mut x = lo;
    proof {
        lemma_clip_empty(old(out)@, bw as int, bh as int);
    }
    while x < hi
        invariant
            lo <= x <= hi,
            out@ == old(out)@ + clip(hpair(y1 as int, y2 as int, lo as int, x as int, ch, st), bw as int, bh as int),
        decreases hi - x,
    {
        let ghost acc = hpair(y1 as int, y2 as int, lo as int, x as int, ch, st);
        put(out, bw, bh, x, y1, ch, st);
        proof {
            lemma_step(old(out)@, acc, seq![(x as int, y1 as int, ch, st)], bw as int, bh as int);
        }
        put(out, bw, bh, x, y2, ch, st);
        proof {
            lemma_step(old(out)@, acc + seq![(x as int, y1 as int, ch, st)], seq![(x as int, y2 as int, ch, st)], bw as int, bh as int);
            assert(acc + seq![(x as int, y1 as int, ch, st)] + seq![(x as int, y2 as int, ch, st)] =~= hpair(
                y1 as int,
                y2 as int,
                lo as int,
                x + 1,
                ch,
                st,
            ));
        }
        x += 1;
    }
}

/// Paint the first `k` characters of `cs` left to right from (`x`, `y`).
fn text(out: &mut Vec<Paint>, bw: u16, bh: u16, x: i32, y: i32, cs: &Vec<char>, k: usize, st: Style)
    requires
        k <= cs@.len(),
        k <= 1073741824,
        -1073741824 <= x <= 1073741824,
    ensures
        final(out)@ == old(out)@ + clip(text_run(x as int, y as int, cs@, k as int, st), bw as int, bh as int),
{
    let mut j: usize = 0;
    proof {
        lemma_clip_empty(old(out)@, bw as int, bh as int);
    }
    while j < k
        invariant
            j <= k <= cs@.len(),
            k <= 1073741824,
            -1073741824 <= x <= 1073741824,
            out@ == old(out)@ + clip(text_run(x as int, y as int, cs@, j as int, st), bw as int, bh as int),
        decreases k - j,
    {
        let ghost acc = text_run(x as int, y as int, cs@, j as int, st);
        let xx = x + (j as i32);
        let c = cs[j];
        put(out, bw, bh, xx, y, c, st);
        proof {
            lemma_step(old(out)@, acc, seq![((x + j) as int, y as int, cs@[j as int], st)], bw as int, bh as int);
            assert(acc + seq![((x + j) as int, y as int, cs@[j as int], st)] =~= text_run(
                x as int,
                y as int,
                cs@,
                j + 1,
                st,
            ));
        }
        j += 1;
    }
}

/// Write a label centred in `inner` cells from (`x`, `y`), cut to fit.
fn write_label(out: &mut Vec<Paint>, bw: u16, bh: u16, x: i32, y: i32, label: &String, inner: i32, st: Style)
    requires
        0 <= x,
        -1 <= inner,
        x + inner <= 1073741823,
    ensures
        final(out)@ == old(out)@ + clip(label_cells(x as int, y as int, label@, inner as int, st), bw as int, bh as int),
{
    let cs = chars_of(label.as_str());
    let room: usize = if inner >= 0 { inner as usize } else { 0 };
    let m = if room <= cs.len() { room } else { cs.len() };
    let pad = if inner - (m as i32) >= 0 { (inner - (m as i32)) / 2 } else { 0 };
    text(out, bw, bh, x + pad, y, &cs, m, st);
}

/// Paint a node box with its top left corner at (`x`, `y`).
fn draw_node(out: &mut Vec<Paint>, bw: u16, bh: u16, x: i32, y: i32, node: &DNode)
    requires
        0 <= x,
        0 <= y <= 1073741820,
        5 <= node.w,
        x + node.w <= 1073741823,
    ensures
        final(out)@ == old(out)@ + clip(node_cells(x as int, y as int, node.view()), bw as int, bh as int),
{
    let w = node.w;
    let inner = if w - 2 >= 1 { w - 2 } else { 1 };
    let style = Style::plain().with_fg(Color::Rgb(220, 225, 235)).with_bg(Color::Rgb(28, 34, 47));
    let bc = match node.fill {
        Some((r, g, b)) => Color::Rgb(r, g, b),
        None => Color::Rgb(255, 166, 87),
    };
    let border = Style::plain().with_fg(bc).with_bg(Color::Rgb(28, 34, 47));
    let ghost o = old(out)@;
    let ghost bwi = bw as int;
    let ghost bhi = bh as int;
    let ghost xi = x as int;
    let ghost yi = y as int;
    let ghost wi = w as int;
    assert(style == fg_bg(node_fg(), node_bg()));
    assert(border == fg_bg(border_col(node.view()), node_bg()));
    match node.shape {
        Shape::Rect | Shape::Cylinder => {
            put(out, bw, bh, x, y, '┌', border);
            let ghost a1 = at(xi, yi, '┌', border);
            put(out, bw, bh, x + w - 1, y, '┐', border);
            proof { lemma_step(o, a1, at(xi + wi - 1, yi, '┐', border), bwi, bhi); }
            let ghost a2 = a1 + at(xi + wi - 1, yi, '┐', border);
            put(out, bw, bh, x, y + 2, '└', border);
            proof { lemma_step(o, a2, at(xi, yi + 2, '└', border), bwi, bhi); }
            let ghost a3 = a2 + at(xi, yi + 2, '└', border);
            put(out, bw, bh, x + w - 1, y + 2, '┘', border);
            proof { lemma_step(o, a3, at(xi + wi - 1, yi + 2, '┘', border), bwi, bhi); }
            let ghost a4 = a3 + at(xi + wi - 1, yi + 2, '┘', border);
            hpairs(out, bw, bh, y, y + 2, x + 1, x + w - 1, '─', border);
            proof { lemma_step(o, a4, hpair(yi, yi + 2, xi + 1, xi + wi - 1, '─', border), bwi, bhi); }
            let ghost a5 = a4 + hpair(yi, yi + 2, xi + 1, xi + wi - 1, '─', border);
            put(out, bw, bh, x, y + 1, '│', border);
            proof { lemma_step(o, a5, at(xi, yi + 1, '│', border), bwi, bhi); }
            let ghost a6 = a5 + at(xi, yi + 1, '│', border);
            put(out, bw, bh, x + w - 1, y + 1, '│', border);
            proof { lemma_step(o, a6, at(xi + wi - 1, yi + 1, '│', border), bwi, bhi); }
            let ghost a7 = a6 + at(xi + wi - 1, yi + 1, '│', border);
            write_label(out, bw, bh, x + 1, y + 1, &node.label, inner, style);
            proof { lemma_step(o, a7, label_cells(xi + 1, yi + 1, node.label@, inner as int, style), bwi, bhi); }
            let ghost a8 = a7 + label_cells(xi + 1, yi + 1, node.label@, inner as int, style);
            if node.shape == Shape::Cylinder {
                put(out, bw, bh, x, y, '╭', border);
                proof { lemma_step(o, a8, at(xi, yi, '╭', border), bwi, bhi); }
                let ghost a9 = a8 + at(xi, yi, '╭', border);
                put(out, bw, bh, x + w - 1, y, '╮', border);
                proof {
                    lemma_step(o, a9, at(xi + wi - 1, yi, '╮', border), bwi, bhi);
                    assert(a9 + at(xi + wi - 1, yi, '╮', border) =~= node_cells(xi, yi, node.view()));
                }
            } else {
                proof {
                    assert(a8 =~= node_cells(xi, yi, node.view()));
                }
            }
        },
        Shape::Round | Shape::Stadium | Shape::Circle => {
            put(out, bw, bh, x, y, '╭', border);
            let ghost a1 = at(xi, yi, '╭', border);
            put(out, bw, bh, x + w - 1, y, '╮', border);
            proof { lemma_step(o, a1, at(xi + wi - 1, yi, '╮', border), bwi, bhi); }
            let ghost a2 = a1 + at(xi + wi - 1, yi, '╮', border);
            put(out, bw, bh, x, y + 2, '╰', border);
            proof { lemma_step(o, a2, at(xi, yi + 2, '╰', border), bwi, bhi); }
            let ghost a3 = a2 + at(xi, yi + 2, '╰', border);
            put(out, bw, bh, x + w - 1, y + 2, '╯', border);
            proof { lemma_step(o, a3, at(xi + wi - 1, yi + 2, '╯', border), bwi, bhi); }
            let ghost a4 = a3 + at(xi + wi - 1, yi + 2, '╯', border);
            hpairs(out, bw, bh, y, y + 2, x + 1, x + w - 1, '─', border);
            proof { lemma_step(o, a4, hpair(yi, yi + 2, xi + 1, xi + wi - 1, '─', border), bwi, bhi); }
            let ghost a5 = a4 + hpair(yi, yi + 2, xi + 1, xi + wi - 1, '─', border);
            put(out, bw, bh, x, y + 1, '│', border);
            proof { lemma_step(o, a5, at(xi, yi + 1, '│', border), bwi, bhi); }
            let ghost a6 = a5 + at(xi, yi + 1, '│', border);
            put(out, bw, bh, x + w - 1, y + 1, '│', border);
            proof { lemma_step(o, a6, at(xi + wi - 1, yi + 1, '│', border), bwi, bhi); }
            let ghost a7 = a6 + at(xi + wi - 1, yi + 1, '│', border);
            write_label(out, bw, bh, x + 1, y + 1, &node.label, inner, style);
            proof {
                lemma_step(o, a7, label_cells(xi + 1, yi + 1, node.label@, inner as int, style), bwi, bhi);
                assert(a7 + label_cells(xi + 1, yi + 1, node.label@, inner as int, style) =~= node_cells(xi, yi, node.view()));
            }
        },
        Shape::Diamond => {
            put(out, bw, bh, x + 1, y, '╱', border);
            let ghost a1 = at(xi + 1, yi, '╱', border);
            put(out, bw, bh, x + w - 2, y, '╲', border);
            proof { lemma_step(o, a1, at(xi + wi - 2, yi, '╲', border), bwi, bhi); }
            let ghost a2 = a1 + at(xi + wi - 2, yi, '╲', border);
            hline(out, bw, bh, y, x + 2, x + w - 2, '─', border);
            proof { lemma_step(o, a2, hrun(yi, xi + 2, xi + wi - 2, '─', border), bwi, bhi); }
            let ghost a3 = a2 + hrun(yi, xi + 2, xi + wi - 2, '─', border);
            put(out, bw, bh, x, y + 1, '│', border);
            proof { lemma_step(o, a3, at(xi, yi + 1, '│', border), bwi, bhi); }
            let ghost a4 = a3 + at(xi, yi + 1, '│', border);
            put(out, bw, bh, x + w - 1, y + 1, '│', border);
            proof { lemma_step(o, a4, at(xi + wi - 1, yi + 1, '│', border), bwi, bhi); }
            let ghost a5 = a4 + at(xi + wi - 1, yi + 1, '│', border);
            write_label(out, bw, bh, x + 1, y + 1, &node.label, inner, style);
            proof { lemma_step(o, a5, label_cells(xi + 1, yi + 1, node.label@, inner as int, style), bwi, bhi); }
            let ghost a6 = a5 + label_cells(xi + 1, yi + 1, node.label@, inner as int, style);
            put(out, bw, bh, x + 1, y + 2, '╲', border);
            proof { lemma_step(o, a6, at(xi + 1, yi + 2, '╲', border), bwi, bhi); }
            let ghost a7 = a6 + at(xi + 1, yi + 2, '╲', border);
            put(out, bw, bh, x + w - 2, y + 2, '╱', border);
            proof { lemma_step(o, a7, at(xi + wi - 2, yi + 2, '╱', border), bwi, bhi); }
            let ghost a8 = a7 + at(xi + wi - 2, yi + 2, '╱', border);
            hline(out, bw, bh, y + 2, x + 2, x + w - 2, '─', border);
            proof {
                lemma_step(o, a8, hrun(yi + 2, xi + 2, xi + wi - 2, '─', border), bwi, bhi);
                assert(a8 + hrun(yi + 2, xi + 2, xi + wi - 2, '─', border) =~= node_cells(xi, yi, node.view()));
            }
        },
    }
}

/// Boxes placed by the layout in an area of at most 65535 columns.
pub open spec fn box_ok(n: NodeV) -> bool {
    0 <= n.x && 0 <= n.y && 5 <= n.w && n.x + n.w <= crate::diagram::place_max() && n.y + n.h
        <= crate::diagram::place_max() && n.h == 3
}

/// The style of an edge's line.
fn edge_style(e: &DEdge) -> (st: Style)
    ensures
        st == fg_only(if e.thick { accent() } else { edge_col() }),
{
    Style::plain().with_fg(
        if e.thick {
            Color::Rgb(255, 166, 87)
        } else {
            Color::Rgb(139, 148, 158)
        },
    )
}

/// The horizontal and vertical glyphs of an edge's line.
fn edge_glyphs(e: &DEdge) -> (r: (char, char))
    ensures
        r.0 == match dash_of(e.view()) {
            Some(c) => c,
            None => '─',
        },
        r.1 == match dash_of(e.view()) {
            Some(c) => c,
            None => '│',
        },
{
    let dash = if e.dotted {
        Some('.')
    } else if e.dashed {
        Some('-')
    } else {
        None
    };
    let hch = match dash {
        Some(c) => c,
        None => '─',
    };
    let vch = match dash {
        Some(c) => c,
        None => '│',
    };
    (hch, vch)
}

/// The endpoints of a line from box `a` to box `b` (see `ends_of`).
fn ends_exec(a: &DNode, b: &DNode, vert: bool) -> (r: (i32, i32, i32, i32, i32))
    requires
        box_ok(a.view()),
        box_ok(b.view()),
    ensures
        (r.0 as int, r.1 as int, r.2 as int, r.3 as int, r.4 as int) == ends_of(a.view(), b.view(), vert),
        0 <= r.0 <= 1073512448 && 0 <= r.1 <= 1073512448 && 0 <= r.2 <= 1073512448 && 0 <= r.3 <= 1073512448,
        0 <= r.4 <= 1073512448,
{
    if vert {
        let hw = a.w / 2;
        let hv = b.w / 2;
        assert(0 <= hw <= a.w && 0 <= hv <= b.w);
        let sx = a.x + hw;
        let sy = a.y + a.h;
        let tx = b.x + hv;
        let ty = b.y;
        let mid = (sy + ty) / 2;
        assert(mid <= sy || mid <= ty);
        (sx, sy, tx, ty, mid)
    } else {
        let sx = a.x + a.w;
        let sy = a.y + a.h / 2;
        let tx = b.x;
        let ty = b.y + b.h / 2;
        let mid = (sx + tx) / 2;
        assert(mid <= sx || mid <= tx);
        (sx, sy, tx, ty, mid)
    }
}

/// The endpoints of the line of an edge (see `ends`).
fn edge_ends(a: &DNode, b: &DNode, dir: Dir) -> (r: (i32, i32, i32, i32, i32))
    requires
        box_ok(a.view()),
        box_ok(b.view()),
    ensures
        (r.0 as int, r.1 as int, r.2 as int, r.3 as int, r.4 as int) == ends(a.view(), b.view(), dir),
        0 <= r.0 <= 1073512448 && 0 <= r.1 <= 1073512448 && 0 <= r.2 <= 1073512448 && 0 <= r.3 <= 1073512448,
        0 <= r.4 <= 1073512448,
{
    match dir {
        Dir::TD => ends_exec(a, b, true),
        Dir::BT => ends_exec(b, a, true),
        Dir::LR | Dir::Sequence => ends_exec(a, b, false),
        Dir::RL => ends_exec(b, a, false),
    }
}

/// Paint the line of a vertical edge (see `td_line`).
fn line_td(out: &mut Vec<Paint>, bw: u16, bh: u16, a: &DNode, b: &DNode, e: &DEdge, x0: i32, y0: i32, fwd: bool)
    requires
        box_ok(a.view()),
        box_ok(b.view()),
        0 <= x0 <= 65537,
        0 <= y0 <= 65537,
    ensures
        final(out)@ == old(out)@ + clip(td_line(a.view(), b.view(), e.view(), x0 as int, y0 as int, fwd), bw as int, bh as int),
{
    let ghost o = old(out)@;
    let ghost bwi = bw as int;
    let ghost bhi = bh as int;
    let ghost x0i = x0 as int;
    let ghost y0i = y0 as int;
    let st = edge_style(e);
    let head = st.with_fg(Color::Rgb(255, 166, 87));
    let (hch, vch) = edge_glyphs(e);
    let (sx, sy, tx, ty, mid) = edge_ends(a, b, Dir::TD);
    vline(out, bw, bh, x0 + sx, y0 + sy + 1, y0 + mid + 1, vch, st);
    let ghost a1 = vrun(x0i + sx, y0i + sy + 1, y0i + mid + 1, vch, st);
    let ghost a2;
    if sx != tx {
        let (lo, hi) = if sx < tx { (sx, tx) } else { (tx, sx) };
        hline(out, bw, bh, y0 + mid, x0 + lo, x0 + hi + 1, hch, st);
        proof { lemma_step(o, a1, hrun(y0i + mid, x0i + lo, x0i + hi + 1, hch, st), bwi, bhi); }
        let ghost b1 = a1 + hrun(y0i + mid, x0i + lo, x0i + hi + 1, hch, st);
        let c1 = if sx < tx { '┐' } else { '┌' };
        put(out, bw, bh, x0 + sx, y0 + mid, c1, st);
        proof { lemma_step(o, b1, at(x0i + sx, y0i + mid, c1, st), bwi, bhi); }
        let ghost b2 = b1 + at(x0i + sx, y0i + mid, c1, st);
        let c2 = if sx < tx { '└' } else { '┘' };
        put(out, bw, bh, x0 + tx, y0 + mid, c2, st);
        proof { lemma_step(o, b2, at(x0i + tx, y0i + mid, c2, st), bwi, bhi); }
        let ghost b3 = b2 + at(x0i + tx, y0i + mid, c2, st);
        vline(out, bw, bh, x0 + tx, y0 + mid + 1, y0 + ty, vch, st);
        proof {
            lemma_step(o, b3, vrun(x0i + tx, y0i + mid + 1, y0i + ty, vch, st), bwi, bhi);
            a2 = b3 + vrun(x0i + tx, y0i + mid + 1, y0i + ty, vch, st);
        }
    } else {
        vline(out, bw, bh, x0 + tx, y0 + mid + 1, y0 + ty, vch, st);
        proof {
            lemma_step(o, a1, vrun(x0i + tx, y0i + mid + 1, y0i + ty, vch, st), bwi, bhi);
            a2 = a1 + vrun(x0i + tx, y0i + mid + 1, y0i + ty, vch, st);
        }
    }
    let (hx, hy, hc) = if fwd { (x0 + tx, y0 + ty - 1, '▼') } else { (x0 + sx, y0 + sy, '▲') };
    put(out, bw, bh, hx, hy, hc, head);
    proof {
        lemma_step(o, a2, at(hx as int, hy as int, hc, head), bwi, bhi);
        assert(a2 + at(hx as int, hy as int, hc, head) =~= td_line(a.view(), b.view(), e.view(), x0i, y0i, fwd));
    }
}

/// Paint the line of a horizontal edge (see `lr_line`).
fn line_lr(out: &mut Vec<Paint>, bw: u16, bh: u16, a: &DNode, b: &DNode, e: &DEdge, x0: i32, y0: i32, fwd: bool)
    requires
        box_ok(a.view()),
        box_ok(b.view()),
        0 <= x0 <= 65537,
        0 <= y0 <= 65537,
    ensures
        final(out)@ == old(out)@ + clip(lr_line(a.view(), b.view(), e.view(), x0 as int, y0 as int, fwd), bw as int, bh as int),
{
    let ghost o = old(out)@;
    let ghost bwi = bw as int;
    let ghost bhi = bh as int;
    let ghost x0i = x0 as int;
    let ghost y0i = y0 as int;
    let st = edge_style(e);
    let head = st.with_fg(Color::Rgb(255, 166, 87));
    let (hch, vch) = edge_glyphs(e);
    let (sx, sy, tx, ty, mid) = edge_ends(a, b, Dir::LR);
    hline(out, bw, bh, y0 + sy, x0 + sx + 1, x0 + mid + 1, hch, st);
    let ghost a1 = hrun(y0i + sy, x0i + sx + 1, x0i + mid + 1, hch, st);
    let ghost a2;
    if sy != ty {
        let (lo, hi) = if sy < ty { (sy, ty) } else { (ty, sy) };
        vline(out, bw, bh, x0 + mid, y0 + lo, y0 + hi + 1, vch, st);
        proof { lemma_step(o, a1, vrun(x0i + mid, y0i + lo, y0i + hi + 1, vch, st), bwi, bhi); }
        let ghost b1 = a1 + vrun(x0i + mid, y0i + lo, y0i + hi + 1, vch, st);
        let c1 = if sy < ty { '┘' } else { '┐' };
        put(out, bw, bh, x0 + mid, y0 + sy, c1, st);
        proof { lemma_step(o, b1, at(x0i + mid, y0i + sy, c1, st), bwi, bhi); }
        let ghost b2 = b1 + at(x0i + mid, y0i + sy, c1, st);
        let c2 = if sy < ty { '┌' } else { '┘' };
        put(out, bw, bh, x0 + mid, y0 + ty, c2, st);
        proof { lemma_step(o, b2, at(x0i + mid, y0i + ty, c2, st), bwi, bhi); }
        let ghost b3 = b2 + at(x0i + mid, y0i + ty, c2, st);
        hline(out, bw, bh, y0 + ty, x0 + mid + 1, x0 + tx, hch, st);
        proof {
            lemma_step(o, b3, hrun(y0i + ty, x0i + mid + 1, x0i + tx, hch, st), bwi, bhi);
            a2 = b3 + hrun(y0i + ty, x0i + mid + 1, x0i + tx, hch, st);
        }
    } else {
        hline(out, bw, bh, y0 + ty, x0 + mid + 1, x0 + tx, hch, st);
        proof {
            lemma_step(o, a1, hrun(y0i + ty, x0i + mid + 1, x0i + tx, hch, st), bwi, bhi);
            a2 = a1 + hrun(y0i + ty, x0i + mid + 1, x0i + tx, hch, st);
        }
    }
    let (hx, hy, hc) = if fwd { (x0 + tx - 1, y0 + ty, '▶') } else { (x0 + sx, y0 + sy, '◀') };
    put(out, bw, bh, hx, hy, hc, head);
    proof {
        lemma_step(o, a2, at(hx as int, hy as int, hc, head), bwi, bhi);
        assert(a2 + at(hx as int, hy as int, hc, head) =~= lr_line(a.view(), b.view(), e.view(), x0i, y0i, fwd));
    }
}

/// Paint the label of an edge, if it has one.
fn label_of_edge(out: &mut Vec<Paint>, bw: u16, bh: u16, a: &DNode, b: &DNode, e: &DEdge, dir: Dir, x0: i32, y0: i32)
    requires
        box_ok(a.view()),
        box_ok(b.view()),
        0 <= x0 <= 65537,
        0 <= y0 <= 65537,
        e.view().label matches Some(l) ==> l.len() <= 1073479680,
    ensures
        final(out)@ == old(out)@ + clip(edge_label(a.view(), b.view(), e.view(), dir, x0 as int, y0 as int), bw as int, bh as int),
{
    let (sx, sy, tx, ty, mid) = edge_ends(a, b, dir);
    match &e.label {
        Some(lab) => {
            let cs = chars_of(lab.as_str());
            let n = cs.len();
            let vert = match dir {
                Dir::TD | Dir::BT => true,
                Dir::LR | Dir::RL | Dir::Sequence => false,
            };
            let lx = if vert { x0 + (sx + tx) / 2 - (n as i32) / 2 } else { x0 + mid + 1 };
            let ly = if vert { y0 + mid - 1 } else { y0 + (sy + ty) / 2 };
            let ls = Style::plain().with_fg(Color::Rgb(200, 210, 225));
            text(out, bw, bh, lx, ly, &cs, n, ls);
        },
        None => {
            proof {
                lemma_clip_empty(old(out)@, bw as int, bh as int);
            }
        },
    }
}

proof fn lemma_placed(ns: Seq<NodeV>, i: int)
    requires
        placed_ok(ns),
        0 <= i < ns.len(),
    ensures
        box_ok(ns[i]),
{
    assert(0 <= ns[i].x);
}

/// Paint the line of an edge from box `a` to box `b`, or its label when
/// `labels` holds, offset by (`x0`, `y0`).
fn draw_edge(out: &mut Vec<Paint>, bw: u16, bh: u16, a: &DNode, b: &DNode, e: &DEdge, dir: Dir, x0: i32, y0: i32, labels: bool)
    requires
        box_ok(a.view()),
        box_ok(b.view()),
        0 <= x0 <= 65537,
        0 <= y0 <= 65537,
        e.view().label matches Some(l) ==> l.len() <= 1073479680,
    ensures
        final(out)@ == old(out)@ + clip(edge_part(a.view(), b.view(), e.view(), dir, x0 as int, y0 as int, labels), bw as int, bh as int),
{
    if labels {
        label_of_edge(out, bw, bh, a, b, e, dir, x0, y0);
    } else {
        match dir {
            Dir::TD => line_td(out, bw, bh, a, b, e, x0, y0, true),
            Dir::BT => line_td(out, bw, bh, b, a, e, x0, y0, false),
            Dir::LR | Dir::Sequence => line_lr(out, bw, bh, a, b, e, x0, y0, true),
            Dir::RL => line_lr(out, bw, bh, b, a, e, x0, y0, false),
        }
    }
}

/// A copy of a node.
fn copy_node(n: &DNode) -> (r: DNode)
    ensures
        r.view() == n.view(),
{
    DNode { id: n.id.clone(), label: n.label.clone(), shape: n.shape, x: n.x, y: n.y, w: n.w, h: n.h, fill: n.fill }
}

/// A copy of an edge.
fn copy_edge(e: &DEdge) -> (r: DEdge)
    ensures
        r.view() == e.view(),
{
    let label = match &e.label {
        Some(l) => Some(l.clone()),
        None => None,
    };
    DEdge { from: e.from, to: e.to, label, dashed: e.dashed, dotted: e.dotted, thick: e.thick }
}

/// A copy of a diagram.
pub fn copy_diagram(d: &Diagram) -> (r: Diagram)
    ensures
        r.view() == d.view(),
{
    let mut nodes: Vec<DNode> = Vec::new();
    let mut i: usize = 0;
    while i < d.nodes.len()
        invariant
            i <= d.nodes@.len(),
            nodes_view(nodes@) == nodes_view(d.nodes@).take(i as int),
        decreases d.nodes.len() - i,
    {
        let c = copy_node(&d.nodes[i]);
        let ghost prev = nodes@;
        nodes.push(c);
        assert(nodes_view(nodes@) =~= nodes_view(prev).push(c.view()));
        assert(nodes_view(d.nodes@)[i as int] == d.nodes@[i as int].view());
        i += 1;
        assert(nodes_view(nodes@) =~= nodes_view(d.nodes@).take(i as int));
    }
    let mut edges: Vec<DEdge> = Vec::new();
    let mut k: usize = 0;
    while k < d.edges.len()
        invariant
            k <= d.edges@.len(),
            edges_view(edges@) == edges_view(d.edges@).take(k as int),
        decreases d.edges.len() - k,
    {
        let c = copy_edge(&d.edges[k]);
        let ghost prev = edges@;
        edges.push(c);
        assert(edges_view(edges@) =~= edges_view(prev).push(c.view()));
        assert(edges_view(d.edges@)[k as int] == d.edges@[k as int].view());
        k += 1;
        assert(edges_view(edges@) =~= edges_view(d.edges@).take(k as int));
    }
    assert(nodes_view(d.nodes@).take(d.nodes@.len() as int) =~= nodes_view(d.nodes@));
    assert(edges_view(d.edges@).take(d.edges@.len() as int) =~= edges_view(d.edges@));
    Diagram { nodes, edges, dir: d.dir }
}

/// Paint one message of a sequence diagram (see `msg_cells`).
fn draw_msg(out: &mut Vec<Paint>, bw: u16, bh: u16, a: &DNode, b: &DNode, e: &DEdge, row: i32, x0: i32, y0: i32)
    requires
        box_ok(a.view()),
        box_ok(b.view()),
        0 <= x0 <= 65537,
        0 <= y0 <= 65537,
        4 <= row <= 1073479680,
        e.view().label matches Some(l) ==> l.len() <= 1073479680,
    ensures
        final(out)@ == old(out)@ + clip(msg_cells(a.view(), b.view(), e.view(), row as int, x0 as int, y0 as int), bw as int, bh as int),
{
    let ghost o = old(out)@;
    let ghost bwi = bw as int;
    let ghost bhi = bh as int;
    let st = edge_style(e);
    let (hch, _) = edge_glyphs(e);
    let head = st.with_fg(Color::Rgb(255, 166, 87));
    let hw = a.w / 2;
    let hv = b.w / 2;
    let ca = a.x + hw;
    let cb = b.x + hv;
    let y = y0 + row;
    let ghost line: Seq<Cell>;
    if ca < cb {
        hline(out, bw, bh, y, x0 + ca + 1, x0 + cb - 1, hch, st);
        let ghost h = hrun(y as int, x0 + ca + 1, x0 + cb - 1, hch, st);
        put(out, bw, bh, x0 + cb - 1, y, '▶', head);
        proof {
            lemma_step(o, h, at(x0 + cb - 1, y as int, '▶', head), bwi, bhi);
            line = h + at(x0 + cb - 1, y as int, '▶', head);
        }
    } else if cb < ca {
        hline(out, bw, bh, y, x0 + cb + 2, x0 + ca, hch, st);
        let ghost h = hrun(y as int, x0 + cb + 2, x0 + ca, hch, st);
        put(out, bw, bh, x0 + cb + 1, y, '◀', head);
        proof {
            lemma_step(o, h, at(x0 + cb + 1, y as int, '◀', head), bwi, bhi);
            line = h + at(x0 + cb + 1, y as int, '◀', head);
        }
    } else {
        put(out, bw, bh, x0 + ca + 1, y, '↺', head);
        proof {
            line = at(x0 + ca + 1, y as int, '↺', head);
        }
    }
    let lo = if ca < cb { ca } else { cb };
    match &e.label {
        Some(lab) => {
            let cs = chars_of(lab.as_str());
            let ls = Style::plain().with_fg(Color::Rgb(200, 210, 225));
            text(out, bw, bh, x0 + lo + 2, y - 1, &cs, cs.len(), ls);
            proof {
                let t = text_run(x0 + lo + 2, y - 1, cs@, cs@.len() as int, fg_only(label_col()));
                lemma_step(o, line, t, bwi, bhi);
                assert(line + t =~= msg_cells(a.view(), b.view(), e.view(), row as int, x0 as int, y0 as int));
            }
        },
        None => {
            proof {
                assert(line + Seq::<Cell>::empty() =~= line);
                assert(line =~= msg_cells(a.view(), b.view(), e.view(), row as int, x0 as int, y0 as int));
            }
        },
    }
}

/// Draw a laid-out sequence diagram (see `seq_drawn`).
fn draw_seq(area: Area, bw: u16, bh: u16, d: &Diagram) -> (r: (usize, Vec<Paint>))
    requires
        placed_ok(nodes_view(d.nodes@)),
        4 + 2 * d.edges@.len() <= 1073479680,
        forall|k: int| 0 <= k < d.edges@.len() ==> 0 <= #[trigger] edges_view(d.edges@)[k].from < d.nodes@.len()
            && 0 <= edges_view(d.edges@)[k].to < d.nodes@.len(),
        forall|k: int| 0 <= k < d.edges@.len() ==> (#[trigger] edges_view(d.edges@)[k].label matches Some(l) ==> l.len() <= 1073479680),
    ensures
        r.0 == seq_drawn(nodes_view(d.nodes@), edges_view(d.edges@), area.x + 2, area.y + 1).0,
        r.1@ == clip(seq_drawn(nodes_view(d.nodes@), edges_view(d.edges@), area.x + 2, area.y + 1).1, bw as int, bh as int),
{
    let ghost ns = nodes_view(d.nodes@);
    let ghost es = edges_view(d.edges@);
    let ghost bwi = bw as int;
    let ghost bhi = bh as int;
    let n = d.nodes.len();
    let m = d.edges.len();
    let x0 = area.x as i32 + 2;
    let y0 = area.y as i32 + 1;
    let ghost x0i = x0 as int;
    let ghost y0i = y0 as int;
    let bot: i32 = 4 + 2 * (m as i32);
    let lst = Style::plain().with_fg(Color::Rgb(139, 148, 158));
    assert(lst == fg_only(edge_col()));
    let mut out: Vec<Paint> = Vec::new();
    assert(out@ == clip(lifelines(ns, x0i, y0i, bot as int, 0), bwi, bhi));
    let mut i: usize = 0;
    while i < n
        invariant
            i <= n == d.nodes@.len() == ns.len(),
            ns == nodes_view(d.nodes@),
            placed_ok(ns),
            0 <= x0 <= 65537,
            0 <= y0 <= 65537,
            x0i == x0,
            y0i == y0,
            bwi == bw,
            bhi == bh,
            lst == fg_only(edge_col()),
            0 <= bot <= 1073479680,
            out@ == clip(lifelines(ns, x0i, y0i, bot as int, i as int), bwi, bhi),
        decreases n - i,
    {
        let nd = &d.nodes[i];
        assert(ns[i as int] == nd.view());
        proof {
            lemma_placed(ns, i as int);
        }
        let hw = nd.w / 2;
        let cx = nd.x + hw;
        vline(&mut out, bw, bh, x0 + cx, y0 + 3, y0 + bot, '┊', lst);
        proof {
            let piece = vrun(x0i + life_x(ns[i as int]), y0i + 3, y0i + bot, '┊', fg_only(edge_col()));
            lemma_clip_add(lifelines(ns, x0i, y0i, bot as int, i as int), piece, bwi, bhi);
        }
        i += 1;
    }
    let ghost lcs = lifelines(ns, x0i, y0i, bot as int, n as int);
    proof {
        assert(lcs + nodes_cells(ns, x0i, y0i, 0) =~= lcs);
    }
    let mut i: usize = 0;
    while i < n
        invariant
            i <= n == d.nodes@.len() == ns.len(),
            ns == nodes_view(d.nodes@),
            placed_ok(ns),
            0 <= x0 <= 65537,
            0 <= y0 <= 65537,
            x0i == x0,
            y0i == y0,
            bwi == bw,
            bhi == bh,
            out@ == clip(lcs + nodes_cells(ns, x0i, y0i, i as int), bwi, bhi),
        decreases n - i,
    {
        let node = &d.nodes[i];
        assert(ns[i as int] == node.view());
        proof {
            lemma_placed(ns, i as int);
        }
        draw_node(&mut out, bw, bh, x0 + node.x, y0 + node.y, node);
        proof {
            let piece = node_cells(x0i + ns[i as int].x, y0i + ns[i as int].y, ns[i as int]);
            lemma_clip_add(lcs + nodes_cells(ns, x0i, y0i, i as int), piece, bwi, bhi);
            assert(lcs + nodes_cells(ns, x0i, y0i, i + 1) =~= lcs + nodes_cells(ns, x0i, y0i, i as int) + piece);
        }
        i += 1;
    }
    let ghost base = lcs + nodes_cells(ns, x0i, y0i, n as int);
    proof {
        assert(base + msgs_cells(ns, es, x0i, y0i, 0) =~= base);
    }
    let mut k: usize = 0;
    while k < m
        invariant
            k <= m == d.edges@.len() == es.len(),
            4 + 2 * m <= 1073479680,
            n == d.nodes@.len() == ns.len(),
            ns == nodes_view(d.nodes@),
            es == edges_view(d.edges@),
            placed_ok(ns),
            forall|j: int| 0 <= j < m ==> 0 <= #[trigger] es[j].from < n && 0 <= es[j].to < n,
            forall|j: int| 0 <= j < m ==> (#[trigger] es[j].label matches Some(l) ==> l.len() <= 1073479680),
            0 <= x0 <= 65537,
            0 <= y0 <= 65537,
            x0i == x0,
            y0i == y0,
            bwi == bw,
            bhi == bh,
            out@ == clip(base + msgs_cells(ns, es, x0i, y0i, k as int), bwi, bhi),
        decreases m - k,
    {
        let ghost ev = es[k as int];
        assert(ev == d.edges@[k as int].view());
        let e = &d.edges[k];
        assert(0 <= ev.from < n && 0 <= ev.to < n);
        let a = &d.nodes[e.from];
        let b = &d.nodes[e.to];
        assert(ns[ev.from] == a.view());
        assert(ns[ev.to] == b.view());
        proof {
            lemma_placed(ns, ev.from);
            lemma_placed(ns, ev.to);
        }
        let row: i32 = 4 + 2 * (k as i32);
        draw_msg(&mut out, bw, bh, a, b, e, row, x0, y0);
        proof {
            let piece = msg_cells(ns[ev.from], ns[ev.to], ev, row as int, x0i, y0i);
            lemma_clip_add(base + msgs_cells(ns, es, x0i, y0i, k as int), piece, bwi, bhi);
            assert(base + msgs_cells(ns, es, x0i, y0i, k + 1) =~= base + msgs_cells(ns, es, x0i, y0i, k as int) + piece);
        }
        k += 1;
    }
    ((bot + 1) as usize, out)
}

/// Draw a diagram in `area` of a `bw` x `bh` screen: lay it out, then paint
/// edges and boxes. Gives the rows the drawing takes and the paints that land
/// on the screen, in order.
pub fn draw(area: Area, bw: u16, bh: u16, d: &Diagram) -> (r: (usize, Vec<Paint>))
    requires
        graph_ok(d.view()),
        fits(d.view()),
    ensures
        r.0 == drawn(d.view(), area).0,
        r.1@ == clip(drawn(d.view(), area).1, bw as int, bh as int),
{
    let ghost v = d.view();
    let mut dd = copy_diagram(d);
    let area_w = area.width as i32 - 4;
    let aw = if area_w >= 20 { area_w } else { 20 };
    layout(&mut dd, aw);
    let ghost ns = laid_out(v, aw as int);
    assert(dd.view().0 == ns);
    assert(placed_ok(ns));
    if let Dir::Sequence = dd.dir {
        proof {
            assert forall|k: int| 0 <= k < dd.edges@.len() implies 0 <= #[trigger] edges_view(dd.edges@)[k].from
                < dd.nodes@.len() && 0 <= edges_view(dd.edges@)[k].to < dd.nodes@.len() by {
                assert(edges_view(dd.edges@)[k] == v.1[k]);
            }
            assert forall|k: int| 0 <= k < dd.edges@.len() implies (#[trigger] edges_view(dd.edges@)[k].label matches Some(
                l,
            ) ==> l.len() <= 1073479680) by {
                assert(edges_view(dd.edges@)[k] == v.1[k]);
            }
        }
        return draw_seq(area, bw, bh, &dd);
    }
    let n = dd.nodes.len();
    // compute bounds
    let mut max_y: i32 = 0;
    let mut i: usize = 0;
    while i < n
        invariant
            i <= n == dd.nodes@.len() == ns.len(),
            nodes_view(dd.nodes@) == ns,
            placed_ok(ns),
            max_y == bottom(ns, i as int),
            0 <= max_y <= 1073512448,
        decreases n - i,
    {
        assert(ns[i as int] == dd.nodes@[i as int].view());
        proof {
            lemma_placed(ns, i as int);
        }
        let b = dd.nodes[i].y + dd.nodes[i].h;
        if b > max_y {
            max_y = b;
        }
        i += 1;
    }
    let height = (max_y + 2) as usize;
    let x0 = area.x as i32 + 2;
    let y0 = area.y as i32 + 1;
    let ghost x0i = x0 as int;
    let ghost y0i = y0 as int;
    let ghost es = v.1;
    let ghost bwi = bw as int;
    let ghost bhi = bh as int;
    let mut out: Vec<Paint> = Vec::new();
    // edge lines, then edge labels, so that boxes cover the lines' ends
    let m = dd.edges.len();
    let mut pass: usize = 0;
    let ghost lines = edges_cells(ns, es, dd.dir, x0i, y0i, m as int, false);
    assert(out@ == clip(Seq::<Cell>::empty(), bwi, bhi));
    while pass < 2
        invariant
            pass <= 2,
            m == dd.edges@.len() == es.len(),
            n == dd.nodes@.len() == ns.len(),
            nodes_view(dd.nodes@) == ns,
            edges_view(dd.edges@) == es,
            dd.dir == v.2,
            v.1 == es,
            v.0.len() == n,
            graph_ok(v),
            fits(v),
            placed_ok(ns),
            0 <= x0 <= 65537,
            0 <= y0 <= 65537,
            x0i == x0,
            y0i == y0,
            bwi == bw,
            bhi == bh,
            lines == edges_cells(ns, es, dd.dir, x0i, y0i, m as int, false),
            pass == 0 ==> out@ == clip(Seq::<Cell>::empty(), bwi, bhi),
            pass == 1 ==> out@ == clip(lines, bwi, bhi),
            pass == 2 ==> out@ == clip(lines + edges_cells(ns, es, dd.dir, x0i, y0i, m as int, true), bwi, bhi),
        decreases 2 - pass,
    {
        let labels = pass == 1;
        let ghost base: Seq<Cell> = if labels { lines } else { Seq::empty() };
        assert(out@ == clip(base, bwi, bhi));
        let mut k: usize = 0;
        proof {
            assert(base + edges_cells(ns, es, dd.dir, x0i, y0i, 0, labels) =~= base);
        }
        while k < m
            invariant
                k <= m == dd.edges@.len() == es.len(),
                n == dd.nodes@.len() == ns.len(),
                nodes_view(dd.nodes@) == ns,
                edges_view(dd.edges@) == es,
                dd.dir == v.2,
                v.1 == es,
                v.0.len() == n,
                graph_ok(v),
                fits(v),
                placed_ok(ns),
                0 <= x0 <= 65537,
                0 <= y0 <= 65537,
                x0i == x0,
                y0i == y0,
                bwi == bw,
                bhi == bh,
                out@ == clip(base + edges_cells(ns, es, dd.dir, x0i, y0i, k as int, labels), bwi, bhi),
            decreases m - k,
        {
            let ghost ev = es[k as int];
            assert(ev == dd.edges@[k as int].view());
            assert(0 <= ev.from < n && 0 <= ev.to < n);
            let e = &dd.edges[k];
            let a = &dd.nodes[e.from];
            let b = &dd.nodes[e.to];
            assert(ns[ev.from] == a.view());
            assert(ns[ev.to] == b.view());
            proof {
                lemma_placed(ns, ev.from);
                lemma_placed(ns, ev.to);
            }
            assert(ev.label matches Some(l) ==> l.len() <= 1073479680);
            draw_edge(&mut out, bw, bh, a, b, e, dd.dir, x0, y0, labels);
            assert(e.view() == ev);
            proof {
                let piece = edge_part(ns[ev.from], ns[ev.to], ev, dd.dir, x0i, y0i, labels);
                lemma_clip_add(base + edges_cells(ns, es, dd.dir, x0i, y0i, k as int, labels), piece, bwi, bhi);
                assert(base + edges_cells(ns, es, dd.dir, x0i, y0i, k + 1, labels) =~= base + edges_cells(
                    ns,
                    es,
                    dd.dir,
                    x0i,
                    y0i,
                    k as int,
                    labels,
                ) + piece);
            }
            k += 1;
        }
        proof {
            if !labels {
                assert(Seq::<Cell>::empty() + lines =~= lines);
            }
        }
        pass += 1;
    }
    let ghost ecs = lines + edges_cells(ns, es, dd.dir, x0i, y0i, m as int, true);
    // then the boxes
    let mut i: usize = 0;
    proof {
        lemma_clip_add(ecs, Seq::empty(), bwi, bhi);
        assert(ecs + Seq::<Cell>::empty() =~= ecs);
    }
    while i < n
        invariant
            i <= n == dd.nodes@.len() == ns.len(),
            nodes_view(dd.nodes@) == ns,
            placed_ok(ns),
            0 <= x0 <= 65537,
            0 <= y0 <= 65537,
            x0i == x0,
            y0i == y0,
            bwi == bw,
            bhi == bh,
            out@ == clip(ecs + nodes_cells(ns, x0i, y0i, i as int), bwi, bhi),
        decreases n - i,
    {
        let node = &dd.nodes[i];
        assert(ns[i as int] == node.view());
        proof {
            lemma_placed(ns, i as int);
        }
        draw_node(&mut out, bw, bh, x0 + node.x, y0 + node.y, node);
        proof {
            let piece = node_cells(x0i + ns[i as int].x, y0i + ns[i as int].y, ns[i as int]);
            lemma_clip_add(ecs + nodes_cells(ns, x0i, y0i, i as int), piece, bwi, bhi);
            assert(ecs + nodes_cells(ns, x0i, y0i, i + 1) =~= ecs + nodes_cells(ns, x0i, y0i, i as int) + piece);
        }
        i += 1;
    }
    (height, out)
}

/// Whether a diagram can be drawn: its edges join existing nodes and it
/// fits 32-bit cell coordinates (see `graph_ok`, `fits`).
pub fn drawable(d: &Diagram) -> (b: bool)
    ensures
        b == (graph_ok(d.view()) && fits(d.view())),
{
    let ghost v = d.view();
    let n = d.nodes.len();
    if n > 2147483647 {
        return false;
    }
    let m = d.edges.len();
    let mut k: usize = 0;
    while k < m
        invariant
            k <= m == d.edges@.len(),
            n == d.nodes@.len(),
            forall|j: int| 0 <= j < k ==> 0 <= #[trigger] edges_view(d.edges@)[j].from < n
                && edges_view(d.edges@)[j].to < n,
            forall|j: int| 0 <= j < k ==> (#[trigger] edges_view(d.edges@)[j].label matches Some(l) ==> l.len() <= 1073479680),
        decreases m - k,
    {
        let e = &d.edges[k];
        assert(edges_view(d.edges@)[k as int] == e.view());
        if e.from >= n || e.to >= n {
            assert(!(0 <= d.view().1[k as int].from < d.view().0.len() && 0 <= d.view().1[k as int].to < d.view().0.len()));
            return false;
        }
        match &e.label {
            Some(l) => {
                if l.as_str().unicode_len() > 1073479680 {
                    assert(!(d.view().1[k as int].label matches Some(l) ==> l.len() <= 1073479680));
                    return false;
                }
            },
            None => {},
        }
        k += 1;
    }
    let seq_rows: u128 = 4 + 2 * (m as u128);
    let is_seq = match d.dir {
        Dir::Sequence => true,
        _ => false,
    };
    if is_seq && seq_rows > 1073479680 {
        return false;
    }
    assert(graph_ok(v));
    if n == 0 {
        proof {
            let lay = layers_of(0, v.1);
            assert(crate::diagram::top_layer(lay, 0) == 0);
            assert(crate::diagram::max_cols(lay, 0) == 1);
            assert(v.0.len() == 0);
            assert(crate::diagram::max_w(v.0, 0) == 1);
            assert(0 * 5 == 0 && 5 * 1 == 5 && (0 + 1) * 5 == 5 && (0 + 1) * 6 == 6 && 1 * 6 == 6) by (nonlinear_arith);
            assert(extent(v).0 <= 5 && extent(v).1 == 6);
        }
        return true;
    }
    proof {
        assert forall|j: int| 0 <= j < d.edges@.len() implies #[trigger] d.edges@[j].from < n && d.edges@[j].to < n by {
            assert(edges_view(d.edges@)[j] == d.edges@[j].view());
            assert(0 <= edges_view(d.edges@)[j].from < n && edges_view(d.edges@)[j].to < n);
        }
    }
    let layer = crate::diagram::compute_layers(&d.edges, n);
    let ghost lay = layers_of(n as int, v.1);
    let mut cnt: Vec<usize> = Vec::new();
    let mut z: usize = 0;
    while z < n
        invariant
            z <= n,
            cnt@.len() == z,
            forall|j: int| 0 <= j < z ==> cnt@[j] == 0,
        decreases n - z,
    {
        cnt.push(0);
        z += 1;
    }
    let mut q: usize = 0;
    while q < n
        invariant
            q <= n == layer@.len() == cnt@.len(),
            ints(layer@) == lay,
            forall|j: int| 0 <= j < n ==> 0 <= #[trigger] layer@[j] < n,
            forall|l: int| 0 <= l < n ==> #[trigger] cnt@[l] == crate::diagram::count_eq(lay, l, q as int),
        decreases n - q,
    {
        let l = layer[q] as usize;
        proof {
            crate::diagram::lemma_count_eq_bound(lay, l as int, q as int);
        }
        cnt.set(l, cnt[l] + 1);
        q += 1;
    }
    let mut cols: usize = 1;
    let mut top: usize = 0;
    let mut q: usize = 0;
    while q < n
        invariant
            q <= n == layer@.len() == cnt@.len() == lay.len(),
            ints(layer@) == lay,
            forall|j: int| 0 <= j < n ==> 0 <= #[trigger] layer@[j] < n,
            forall|l: int| 0 <= l < n ==> #[trigger] cnt@[l] == crate::diagram::count_eq(lay, l, n as int),
            cols == crate::diagram::max_cols(lay, q as int),
            top == crate::diagram::top_layer(lay, q as int),
        decreases n - q,
    {
        let l = layer[q] as usize;
        assert(lay[q as int] == layer@[q as int]);
        let c = cnt[l];
        if c > cols {
            cols = c;
        }
        if l > top {
            top = l;
        }
        q += 1;
    }
    let mut mw: u128 = 1;
    let mut q: usize = 0;
    while q < n
        invariant
            q <= n == d.nodes@.len(),
            v == d.view(),
            mw == crate::diagram::max_w(v.0, q as int),
            mw <= usize::MAX + 4,
        decreases n - q,
    {
        assert(v.0[q as int] == d.nodes@[q as int].view());
        let len = d.nodes[q].label.as_str().unicode_len() as u128;
        let w: u128 = if len + 4 >= 5 { len + 4 } else { 5 };
        if w > mw {
            mw = w;
        }
        q += 1;
    }
    let col_w: u128 = mw + 4;
    proof {
        crate::diagram::lemma_max_cols_bound(lay, n as int);
        assert forall|j: int| 0 <= j < lay.len() implies 0 <= #[trigger] lay[j] < n by {
            assert(lay[j] == layer@[j]);
        }
        crate::diagram::lemma_top_layer(lay, n as int, n as int);
        assert(col_w * (cols as u128) <= (usize::MAX + 8) * 2147483647) by (nonlinear_arith)
            requires
                col_w <= usize::MAX + 8,
                cols <= 2147483647,
        ;
        assert(((top as u128) + 1) * col_w <= 2147483647 * (usize::MAX + 8)) by (nonlinear_arith)
            requires
                col_w <= usize::MAX + 8,
                top + 1 <= 2147483647,
        ;
        assert((n as u128) * col_w <= 2147483647 * (usize::MAX + 8)) by (nonlinear_arith)
            requires
                col_w <= usize::MAX + 8,
                n <= 2147483647,
        ;
    }
    let (ex, ey): (u128, u128) = match d.dir {
        Dir::TD | Dir::BT => (col_w * (cols as u128), ((top as u128) + 1) * 6),
        Dir::LR | Dir::RL => (((top as u128) + 1) * col_w, (cols as u128) * 6),
        Dir::Sequence => ((n as u128) * col_w, 6),
    };
    proof {
        assert(ex as int == extent(v).0 && ey as int == extent(v).1);
    }
    ex <= 1073479680 && ey <= 1073479680
}

/// The diagram that a fenced block describes: PlantUML for `plantuml` and
/// `puml`, else a Mermaid flowchart.
pub open spec fn diagram_of(lang: Seq<char>, src: Seq<char>) -> Option<(Seq<NodeV>, Seq<EdgeV>, Dir)> {
    if lang == "plantuml"@ || lang == "puml"@ {
        crate::diagram::plantuml_of(src)
    } else {
        Some(crate::diagram::mermaid_of(src))
    }
}

/// A paint lands inside `area`.
pub open spec fn in_area(p: Paint, a: Area) -> bool {
    &&& a.x <= p.x < a.x + a.width
    &&& a.y <= p.y < a.y + a.height
}

/// The paints of `ps` that land inside `area`, in order.
pub open spec fn inside(ps: Seq<Paint>, area: Area) -> Seq<Paint>
    decreases ps.len(),
{
    if ps.len() == 0 {
        Seq::empty()
    } else {
        inside(ps.drop_last(), area) + (if in_area(ps.last(), area) {
            seq![ps.last()]
        } else {
            Seq::empty()
        })
    }
}

/// Keep the paints that land inside `area`.
fn keep_inside(ps: &Vec<Paint>, area: Area) -> (r: Vec<Paint>)
    ensures
        r@ == inside(ps@, area),
{
    let mut r: Vec<Paint> = Vec::new();
    let mut i: usize = 0;
    while i < ps.len()
        invariant
            i <= ps@.len(),
            r@ == inside(ps@.take(i as int), area),
        decreases ps.len() - i,
    {
        let p = ps[i];
        proof {
            assert(ps@.take(i + 1).drop_last() =~= ps@.take(i as int));
            assert(ps@.take(i + 1).last() == p);
        }
        if area.x <= p.x && (p.x as u32) < area.x as u32 + area.width as u32 && area.y <= p.y && (p.y as u32)
            < area.y as u32 + area.height as u32 {
            r.push(p);
            proof {
                assert(r@ =~= inside(ps@.take(i as int), area) + seq![p]);
            }
        } else {
            proof {
                assert(inside(ps@.take(i as int), area) + Seq::<Paint>::empty() =~= inside(ps@.take(i as int), area));
            }
        }
        i += 1;
    }
    assert(ps@.take(ps@.len() as int) =~= ps@);
    r
}

/// Paint a diagram block in `area` of a `bw` x `bh` screen. Gives the rows it
/// takes and the paints that land inside `area`; nothing when the source gives no diagram, or one
/// that cannot be drawn (see `drawable`).
pub fn render_block(area: Area, bw: u16, bh: u16, lang: &str, src: &str) -> (r: (usize, Vec<Paint>))
    ensures
        match diagram_of(lang@, src@) {
            Some(v) => if graph_ok(v) && fits(v) {
                r.0 == drawn(v, area).0 && r.1@ == inside(clip(drawn(v, area).1, bw as int, bh as int), area)
            } else {
                r.0 == 0 && r.1@.len() == 0
            },
            None => r.0 == 0 && r.1@.len() == 0,
        },
{
    let lc = chars_of(lang);
    let diag = if crate::text::eq_str(lc.as_slice(), "plantuml") || crate::text::eq_str(lc.as_slice(), "puml") {
        parse_plantuml(src)
    } else {
        parse_mermaid(src)
    };
    let d = match diag {
        Some(d) => d,
        None => return (0, Vec::new()),
    };
    if !drawable(&d) {
        return (0, Vec::new());
    }
    let (h, ps) = draw(area, bw, bh, &d);
    (h, keep_inside(&ps, area))
}


/// An edge drawn from an operator with both `-` and `.` (such as `-.->`)
/// is drawn with `.` cells; one from an operator without `.` is drawn solid.
pub proof fn law_dotted_edge_glyph(e: EdgeV, op: Seq<char>)
    requires
        e.dashed == crate::diagram::op_flags(op).0,
        e.dotted == crate::diagram::op_flags(op).1,
    ensures
        op.contains('-') && op.contains('.') ==> dash_of(e) == Some('.'),
        !op.contains('.') ==> dash_of(e) is None,
{
    crate::diagram::law_edge_op_kind(op);
}

} // verus!
