//! Painting Markdown blocks into the preview pane: full-width fills, rounded
//! code cards, quote bars, hanging list items, boxed tables and headings with
//! rules, as a list of cell operations for the terminal.

use vstd::prelude::*;
use crate::style::{Area, Color, Paint, Style};
use crate::preview_style::{cell_w, cell_width, wrapped, CellSpec, Pal};
use crate::text::chars_of;

verus! {

/// A cell operation on the screen: paint a character with a style, or set
/// the background of a cell and keep what it shows.
#[derive(Clone, Copy, PartialEq, Eq, Structural, Debug)]
pub enum PaintOp {
    Draw(Paint),
    Bg(u16, u16, Color),
}

/// A cell operation at a column and a document row, before scrolling.
pub enum RawOp {
    Put(int, int, char, Style),
    Fill(int, int, Color),
}

/// Painting `ch` at column `x` of document row `ly`.
pub open spec fn put_op(x: int, ly: int, ch: char, st: Style) -> Seq<RawOp> {
    seq![RawOp::Put(x, ly, ch, st)]
}

/// Setting the background of column `x` of document row `ly`.
pub open spec fn fill_op(x: int, ly: int, bg: Color) -> Seq<RawOp> {
    seq![RawOp::Fill(x, ly, bg)]
}

/// Saturating addition in 64 bits.
pub open spec fn sadd(a: int, b: int) -> int {
    if a + b > u64::MAX { u64::MAX as int } else { a + b }
}

/// The screen operation for a raw one, when its cell is visible: left of the
/// area's right edge, and on a document row shown in the area scrolled by
/// `scroll`.
pub open spec fn clip_op(o: RawOp, area: Area, scroll: int) -> Seq<PaintOp> {
    let (x, ly) = match o {
        RawOp::Put(x, ly, _, _) => (x, ly),
        RawOp::Fill(x, ly, _) => (x, ly),
    };
    if 0 <= x < area.x + area.width && scroll <= ly && ly - scroll < area.height {
        let sx = x as u16;
        let sy = (area.y + ly - scroll) as u16;
        match o {
            RawOp::Put(_, _, ch, st) => seq![PaintOp::Draw(Paint { x: sx, y: sy, ch, style: st })],
            RawOp::Fill(_, _, bg) => seq![PaintOp::Bg(sx, sy, bg)],
        }
    } else {
        Seq::empty()
    }
}

/// The visible operations, in order.
pub open spec fn clip_ops(os: Seq<RawOp>, area: Area, scroll: int) -> Seq<PaintOp>
    decreases os.len(),
{
    if os.len() == 0 {
        Seq::empty()
    } else {
        clip_ops(os.drop_last(), area, scroll) + clip_op(os.last(), area, scroll)
    }
}

pub proof fn lemma_clip_ops_add(a: Seq<RawOp>, b: Seq<RawOp>, area: Area, scroll: int)
    ensures
        clip_ops(a + b, area, scroll) == clip_ops(a, area, scroll) + clip_ops(b, area, scroll),
    decreases b.len(),
{
    if b.len() == 0 {
        assert(a + b =~= a);
        assert(clip_ops(a, area, scroll) + clip_ops(b, area, scroll) =~= clip_ops(a, area, scroll));
    } else {
        lemma_clip_ops_add(a, b.drop_last(), area, scroll);
        assert((a + b).drop_last() =~= a + b.drop_last());
        assert((a + b).last() == b.last());
        assert(clip_ops(a + b, area, scroll) =~= clip_ops(a, area, scroll) + clip_ops(b, area, scroll));
    }
}

pub proof fn lemma_clip_ops_one(o: RawOp, area: Area, scroll: int)
    ensures
        clip_ops(seq![o], area, scroll) == clip_op(o, area, scroll),
{
    let s = seq![o];
    assert(s.len() == 1);
    assert(s.last() == o);
    assert(s.drop_last() =~= Seq::<RawOp>::empty());
    assert(clip_ops(s.drop_last(), area, scroll) == Seq::<PaintOp>::empty());
    assert(Seq::<PaintOp>::empty() + clip_op(o, area, scroll) =~= clip_op(o, area, scroll));
}

/// What a single painted character shows.
pub proof fn lemma_clip_put(x: int, ly: int, ch: char, st: Style, area: Area, scroll: int)
    ensures
        clip_ops(put_op(x, ly, ch, st), area, scroll) == clip_op(RawOp::Put(x, ly, ch, st), area, scroll),
{
    lemma_clip_ops_one(RawOp::Put(x, ly, ch, st), area, scroll);
}

/// The painter: where blocks go, the next document row, and the operations
/// so far.
pub struct Painter {
    pub area: Area,
    pub x0: u64,
    pub inner_w: u64,
    pub scroll: u64,
    pub y: u64,
    pub p: Pal,
    pub out: Vec<PaintOp>,
}

impl Painter {
    /// The area fits `u16` coordinates; blocks start two columns in and are
    /// at least one column wide.
    pub open spec fn ok(&self) -> bool {
        &&& self.area.x + self.area.width <= u16::MAX
        &&& self.area.y + self.area.height <= u16::MAX
        &&& self.x0 <= u16::MAX
        &&& 1 <= self.inner_w <= u16::MAX
    }

    /// `b` is `self` with `ops` painted and the row counter at `y`.
    pub open spec fn leads_to(&self, b: Painter, ops: Seq<RawOp>, y: int) -> bool {
        &&& b.out@ == self.out@ + clip_ops(ops, self.area, self.scroll as int)
        &&& b.y == y
        &&& b.area == self.area
        &&& b.x0 == self.x0
        &&& b.inner_w == self.inner_w
        &&& b.scroll == self.scroll
        &&& b.p == self.p
    }
}

/// Appending the operations of one more piece.
pub proof fn lemma_then(a: Painter, b: Painter, c: Painter, o1: Seq<RawOp>, y1: int, o2: Seq<RawOp>, y2: int)
    requires
        a.leads_to(b, o1, y1),
        b.leads_to(c, o2, y2),
    ensures
        a.leads_to(c, o1 + o2, y2),
{
    lemma_clip_ops_add(o1, o2, a.area, a.scroll as int);
    assert(c.out@ =~= a.out@ + clip_ops(o1 + o2, a.area, a.scroll as int));
}

/// Paint `ch` at column `x` of document row `ly`.
pub fn put(pt: &mut Painter, x: u64, ly: u64, ch: char, st: Style)
    requires
        old(pt).ok(),
    ensures
        old(pt).leads_to(*final(pt), put_op(x as int, ly as int, ch, st), old(pt).y as int),
{
    proof {
        lemma_clip_ops_one(RawOp::Put(x as int, ly as int, ch, st), pt.area, pt.scroll as int);
    }
    let right = pt.area.x as u64 + pt.area.width as u64;
    let ghost o = RawOp::Put(x as int, ly as int, ch, st);
    if x < right && ly >= pt.scroll && ly - pt.scroll < pt.area.height as u64 {
        let sy = pt.area.y + (ly - pt.scroll) as u16;
        let op = PaintOp::Draw(Paint { x: x as u16, y: sy, ch, style: st });
        assert(clip_op(o, pt.area, pt.scroll as int) == seq![op]);
        pt.out.push(op);
        assert(pt.out@ =~= old(pt).out@ + seq![op]);
    } else {
        assert(clip_op(o, pt.area, pt.scroll as int) == Seq::<PaintOp>::empty());
        assert(pt.out@ + Seq::<PaintOp>::empty() =~= pt.out@);
    }
}

/// Set the background of column `x` of document row `ly`.
fn fill_cell(pt: &mut Painter, x: u64, ly: u64, bg: Color)
    requires
        old(pt).ok(),
    ensures
        old(pt).leads_to(*final(pt), fill_op(x as int, ly as int, bg), old(pt).y as int),
{
    proof {
        lemma_clip_ops_one(RawOp::Fill(x as int, ly as int, bg), pt.area, pt.scroll as int);
    }
    let right = pt.area.x as u64 + pt.area.width as u64;
    let ghost o = RawOp::Fill(x as int, ly as int, bg);
    if x < right && ly >= pt.scroll && ly - pt.scroll < pt.area.height as u64 {
        let sy = pt.area.y + (ly - pt.scroll) as u16;
        let op = PaintOp::Bg(x as u16, sy, bg);
        assert(clip_op(o, pt.area, pt.scroll as int) == seq![op]);
        pt.out.push(op);
        assert(pt.out@ =~= old(pt).out@ + seq![op]);
    } else {
        assert(clip_op(o, pt.area, pt.scroll as int) == Seq::<PaintOp>::empty());
        assert(pt.out@ + Seq::<PaintOp>::empty() =~= pt.out@);
    }
}

/// Move to the next document row.
pub fn advance(pt: &mut Painter)
    ensures
        old(pt).leads_to(*final(pt), Seq::empty(), sadd(old(pt).y as int, 1)),
{
    pt.y = pt.y.saturating_add(1);
    assert(pt.out@ =~= old(pt).out@ + clip_ops(Seq::empty(), pt.area, pt.scroll as int));
}

/// Fills of document row `ly`, columns `lo` up to `hi`.
pub open spec fn fill_run(ly: int, lo: int, hi: int, bg: Color) -> Seq<RawOp>
    decreases hi - lo,
{
    if hi <= lo {
        Seq::empty()
    } else {
        fill_run(ly, lo, hi - 1, bg) + fill_op(hi - 1, ly, bg)
    }
}

/// The background of row `ly` between columns `xs` and `xe`, within the area.
pub open spec fn fill_line_ops(area: Area, ly: int, xs: int, xe: int, bg: Color) -> Seq<RawOp> {
    let lo = if xs >= area.x { xs } else { area.x as int };
    let hi = if xe <= area.x + area.width { xe } else { (area.x + area.width) as int };
    fill_run(ly, lo, hi, bg)
}

/// Set the background of row `ly` between columns `xs` and `xe`.
pub fn fill_line(pt: &mut Painter, ly: u64, xs: u64, xe: u64, bg: Color)
    requires
        old(pt).ok(),
    ensures
        old(pt).leads_to(*final(pt), fill_line_ops(old(pt).area, ly as int, xs as int, xe as int, bg), old(pt).y as int),
{
    let ax = pt.area.x as u64;
    let right = pt.area.x as u64 + pt.area.width as u64;
    let lo = if xs >= ax { xs } else { ax };
    let hi = if xe <= right { xe } else { right };
    let ghost a = *pt;
    let mut x = lo;
    proof {
        assert(pt.out@ =~= a.out@ + clip_ops(Seq::empty(), a.area, a.scroll as int));
    }
    if hi <= lo {
        return;
    }
    while x < hi
        invariant
            lo <= x <= hi,
            pt.ok(),
            a.leads_to(*pt, fill_run(ly as int, lo as int, x as int, bg), a.y as int),
        decreases hi - x,
    {
        let ghost b = *pt;
        fill_cell(pt, x, ly, bg);
        proof {
            lemma_then(a, b, *pt, fill_run(ly as int, lo as int, x as int, bg), a.y as int, fill_op(x as int, ly as int, bg), a.y as int);
        }
        x += 1;
    }
}

/// A string written from column `x` on row `ly`, its first `k` characters:
/// the operations and the column after them. Newlines are skipped; each
/// character advances by its cell width.
pub open spec fn text_upto(x: int, ly: int, cs: Seq<char>, k: int, st: Style) -> (Seq<RawOp>, int)
    decreases k,
{
    if k <= 0 {
        (Seq::empty(), x)
    } else {
        let (os, cx) = text_upto(x, ly, cs, k - 1, st);
        let c = cs[k - 1];
        if c == '\n' {
            (os, cx)
        } else {
            (os + put_op(cx, ly, c, st), sadd(cx, cell_width(c)))
        }
    }
}

pub open spec fn text_ops(x: int, ly: int, cs: Seq<char>, st: Style) -> (Seq<RawOp>, int) {
    text_upto(x, ly, cs, cs.len() as int, st)
}

/// Write a string from column `x` on row `ly`; returns the column after it.
pub fn write_chars(pt: &mut Painter, x: u64, ly: u64, cs: &Vec<char>, st: Style) -> (cx: u64)
    requires
        old(pt).ok(),
    ensures
        old(pt).leads_to(*final(pt), text_ops(x as int, ly as int, cs@, st).0, old(pt).y as int),
        cx == text_ops(x as int, ly as int, cs@, st).1,
{
    let ghost a = *pt;
    let mut cx = x;
    let mut k: usize = 0;
    proof {
        assert(pt.out@ =~= a.out@ + clip_ops(Seq::empty(), a.area, a.scroll as int));
    }
    while k < cs.len()
        invariant
            k <= cs@.len(),
            pt.ok(),
            a.leads_to(*pt, text_upto(x as int, ly as int, cs@, k as int, st).0, a.y as int),
            cx == text_upto(x as int, ly as int, cs@, k as int, st).1,
        decreases cs.len() - k,
    {
        let ch = cs[k];
        if ch == '\n' {
            k += 1;
            continue;
        }
        let w = cell_w(ch);
        let ghost b = *pt;
        let ghost acc = text_upto(x as int, ly as int, cs@, k as int, st).0;
        put(pt, cx, ly, ch, st);
        proof {
            lemma_then(a, b, *pt, acc, a.y as int, put_op(cx as int, ly as int, ch, st), a.y as int);
        }
        cx = cx.saturating_add(w as u64);
        k += 1;
    }
    cx
}

/// Write a string (see `write_chars`).
pub fn write_str(pt: &mut Painter, x: u64, ly: u64, s: &str, st: Style) -> (cx: u64)
    requires
        old(pt).ok(),
    ensures
        old(pt).leads_to(*final(pt), text_ops(x as int, ly as int, s@, st).0, old(pt).y as int),
        cx == text_ops(x as int, ly as int, s@, st).1,
{
    let cs = chars_of(s);
    write_chars(pt, x, ly, &cs, st)
}

/// A wrapped row of cells from column `x` on row `ly`.
pub open spec fn cells_upto(x: int, ly: int, row: Seq<CellSpec>, k: int) -> (Seq<RawOp>, int)
    decreases k,
{
    if k <= 0 {
        (Seq::empty(), x)
    } else {
        let (os, cx) = cells_upto(x, ly, row, k - 1);
        let c = row[k - 1];
        (os + put_op(cx, ly, c.ch, c.style), sadd(cx, cell_width(c.ch)))
    }
}

/// Paint a wrapped row of cells from column `x` on row `ly`.
pub fn paint_row(pt: &mut Painter, x: u64, ly: u64, row: &Vec<CellSpec>)
    requires
        old(pt).ok(),
    ensures
        old(pt).leads_to(*final(pt), cells_upto(x as int, ly as int, row@, row@.len() as int).0, old(pt).y as int),
{
    let ghost a = *pt;
    let mut cx = x;
    let mut k: usize = 0;
    proof {
        assert(pt.out@ =~= a.out@ + clip_ops(Seq::empty(), a.area, a.scroll as int));
    }
    while k < row.len()
        invariant
            k <= row@.len(),
            pt.ok(),
            a.leads_to(*pt, cells_upto(x as int, ly as int, row@, k as int).0, a.y as int),
            cx == cells_upto(x as int, ly as int, row@, k as int).1,
        decreases row.len() - k,
    {
        let c = row[k];
        let ghost b = *pt;
        put(pt, cx, ly, c.ch, c.style);
        proof {
            lemma_then(a, b, *pt, cells_upto(x as int, ly as int, row@, k as int).0, a.y as int, put_op(cx as int, ly as int, c.ch, c.style), a.y as int);
        }
        cx = cx.saturating_add(cell_w(c.ch) as u64);
        k += 1;
    }
}


/// The same character on row `ly`, columns `lo` up to `hi`.
pub open spec fn char_run(ly: int, lo: int, hi: int, ch: char, st: Style) -> Seq<RawOp>
    decreases hi - lo,
{
    if hi <= lo {
        Seq::empty()
    } else {
        char_run(ly, lo, hi - 1, ch, st) + put_op(hi - 1, ly, ch, st)
    }
}

/// Paint `ch` on row `ly` from column `lo` up to `hi`.
pub fn put_run(pt: &mut Painter, ly: u64, lo: u64, hi: u64, ch: char, st: Style)
    requires
        old(pt).ok(),
    ensures
        old(pt).leads_to(*final(pt), char_run(ly as int, lo as int, hi as int, ch, st), old(pt).y as int),
{
    let ghost a = *pt;
    proof {
        assert(pt.out@ =~= a.out@ + clip_ops(Seq::empty(), a.area, a.scroll as int));
    }
    if hi <= lo {
        return;
    }
    let mut x = lo;
    while x < hi
        invariant
            lo <= x <= hi,
            pt.ok(),
            a.leads_to(*pt, char_run(ly as int, lo as int, x as int, ch, st), a.y as int),
        decreases hi - x,
    {
        let ghost b = *pt;
        put(pt, x, ly, ch, st);
        proof {
            lemma_then(a, b, *pt, char_run(ly as int, lo as int, x as int, ch, st), a.y as int, put_op(x as int, ly as int, ch, st), a.y as int);
        }
        x += 1;
    }
}

} // verus!
