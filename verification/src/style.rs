//! Terminal colors and cell styles, as plain values that the terminal layer
//! turns into its own types.

use vstd::prelude::*;

verus! {

/// A terminal color: one of the named palette colors or a 24-bit RGB value.
#[derive(Clone, Copy, PartialEq, Eq, Structural, Debug)]
pub enum Color {
    Reset,
    Black,
    Red,
    Green,
    Yellow,
    Blue,
    Magenta,
    Cyan,
    Gray,
    DarkGray,
    LightRed,
    LightGreen,
    LightBlue,
    White,
    Rgb(u8, u8, u8),
}

/// A cell style: optional foreground and background, and text attributes.
#[derive(Clone, Copy, PartialEq, Eq, Structural, Debug)]
pub struct Style {
    pub fg: Option<Color>,
    pub bg: Option<Color>,
    pub bold: bool,
    pub italic: bool,
    pub underlined: bool,
    pub crossed_out: bool,
    pub dim: bool,
}

impl Style {
    /// The style that sets nothing.
    pub fn plain() -> (s: Style)
        ensures
            s == Style::none(),
    {
        Style { fg: None, bg: None, bold: false, italic: false, underlined: false, crossed_out: false, dim: false }
    }

    pub open spec fn none() -> Style {
        Style { fg: None, bg: None, bold: false, italic: false, underlined: false, crossed_out: false, dim: false }
    }

    /// This style with foreground `c`.
    pub fn with_fg(self, c: Color) -> (s: Style)
        ensures
            s == (Style { fg: Some(c), ..self }),
    {
        Style { fg: Some(c), ..self }
    }

    /// This style with background `c`.
    pub fn with_bg(self, c: Color) -> (s: Style)
        ensures
            s == (Style { bg: Some(c), ..self }),
    {
        Style { bg: Some(c), ..self }
    }
}

/// One character painted at a cell of the screen.
#[derive(Clone, Copy, PartialEq, Eq, Structural, Debug)]
pub struct Paint {
    pub x: u16,
    pub y: u16,
    pub ch: char,
    pub style: Style,
}

/// A rectangle of the screen.
#[derive(Clone, Copy, PartialEq, Eq, Structural, Debug)]
pub struct Area {
    pub x: u16,
    pub y: u16,
    pub width: u16,
    pub height: u16,
}

/// A character to paint at a cell given by (possibly off-screen) coordinates.
pub type Cell = (int, int, char, Style);

/// A style with foreground `fg` only.
pub open spec fn fg_only(fg: Color) -> Style {
    Style { fg: Some(fg), ..Style::none() }
}

/// A style with foreground `fg` and background `bg`.
pub open spec fn fg_bg(fg: Color, bg: Color) -> Style {
    Style { fg: Some(fg), bg: Some(bg), ..Style::none() }
}

/// The paint for cell `c` when it lies inside a `bw` x `bh` screen.
pub open spec fn clip1(c: Cell, bw: int, bh: int) -> Seq<Paint> {
    if 0 <= c.0 < bw && 0 <= c.1 < bh {
        seq![Paint { x: c.0 as u16, y: c.1 as u16, ch: c.2, style: c.3 }]
    } else {
        Seq::empty()
    }
}

/// The cells that fall inside a `bw` x `bh` screen, in order; the others are
/// dropped.
pub open spec fn clip(cs: Seq<Cell>, bw: int, bh: int) -> Seq<Paint>
    decreases cs.len(),
{
    if cs.len() == 0 {
        Seq::empty()
    } else {
        clip(cs.drop_last(), bw, bh) + clip1(cs.last(), bw, bh)
    }
}

pub proof fn lemma_clip_push(cs: Seq<Cell>, c: Cell, bw: int, bh: int)
    ensures
        clip(cs.push(c), bw, bh) == clip(cs, bw, bh) + clip1(c, bw, bh),
{
    assert(cs.push(c).drop_last() =~= cs);
}

pub proof fn lemma_clip_add(a: Seq<Cell>, b: Seq<Cell>, bw: int, bh: int)
    ensures
        clip(a + b, bw, bh) == clip(a, bw, bh) + clip(b, bw, bh),
    decreases b.len(),
{
    if b.len() == 0 {
        assert(a + b =~= a);
        assert(clip(a, bw, bh) + clip(b, bw, bh) =~= clip(a, bw, bh));
    } else {
        lemma_clip_add(a, b.drop_last(), bw, bh);
        assert((a + b).drop_last() =~= a + b.drop_last());
        assert((a + b).last() == b.last());
        assert(clip(a + b, bw, bh) =~= clip(a, bw, bh) + clip(b, bw, bh));
    }
}

/// Paint `ch` at (`x`, `y`) when that lies on a `bw` x `bh` screen.
pub fn put(out: &mut Vec<Paint>, bw: u16, bh: u16, x: i32, y: i32, ch: char, st: Style)
    ensures
        final(out)@ == old(out)@ + clip(seq![(x as int, y as int, ch, st)], bw as int, bh as int),
{
    proof {
        lemma_clip_push(Seq::empty(), (x as int, y as int, ch, st), bw as int, bh as int);
        assert(Seq::<Cell>::empty().push((x as int, y as int, ch, st)) =~= seq![(x as int, y as int, ch, st)]);
    }
    if x < 0 || y < 0 || x >= bw as i32 || y >= bh as i32 {
        assert(old(out)@ + Seq::<Paint>::empty() =~= old(out)@);
        return;
    }
    out.push(Paint { x: x as u16, y: y as u16, ch, style: st });
}

} // verus!
