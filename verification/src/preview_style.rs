//! The preview's palettes, text formats and their cell styles, and the
//! splitting and wrapping of styled text into rows of cells.

use vstd::prelude::*;
use crate::chars::{char_width, uwidth};
use crate::style::{Color, Style};
use crate::text::{chars_of, push_char};

verus! {

/// The colors of the Markdown preview.
#[derive(Clone, Copy, PartialEq, Eq, Structural, Debug)]
pub struct Pal {
    pub bg: Color,
    pub text: Color,
    pub strong: Color,
    pub muted: Color,
    pub h1: Color,
    pub h2: Color,
    pub h3: Color,
    pub h4: Color,
    pub h5: Color,
    pub h6: Color,
    pub rule: Color,
    pub code_bg: Color,
    pub code_border: Color,
    pub inline_code_bg: Color,
    pub inline_code_fg: Color,
    pub quote_bar: Color,
    pub quote_bg: Color,
    pub link: Color,
    pub table_head_bg: Color,
    pub table_alt_bg: Color,
    pub table_border: Color,
    pub ornament: Color,
    pub checkbox_on: Color,
    pub checkbox_off: Color,
}

/// The dark palette, or the light one.
pub open spec fn pal_of(dark: bool) -> Pal {
    if dark {
        Pal {
            bg: Color::Rgb(13, 17, 23),
            text: Color::Rgb(201, 209, 217),
            strong: Color::Rgb(245, 247, 250),
            muted: Color::Rgb(139, 148, 158),
            h1: Color::Rgb(255, 166, 87),
            h2: Color::Rgb(121, 192, 255),
            h3: Color::Rgb(210, 168, 255),
            h4: Color::Rgb(115, 201, 144),
            h5: Color::Rgb(255, 176, 176),
            h6: Color::Rgb(139, 148, 158),
            rule: Color::Rgb(48, 54, 61),
            code_bg: Color::Rgb(22, 27, 34),
            code_border: Color::Rgb(48, 54, 61),
            inline_code_bg: Color::Rgb(40, 46, 60),
            inline_code_fg: Color::Rgb(121, 192, 255),
            quote_bar: Color::Rgb(255, 138, 92),
            quote_bg: Color::Rgb(22, 27, 34),
            link: Color::Rgb(88, 166, 255),
            table_head_bg: Color::Rgb(28, 34, 47),
            table_alt_bg: Color::Rgb(18, 22, 30),
            table_border: Color::Rgb(48, 54, 61),
            ornament: Color::Rgb(255, 166, 87),
            checkbox_on: Color::Rgb(115, 201, 144),
            checkbox_off: Color::Rgb(110, 118, 129),
        }
    } else {
        Pal {
            bg: Color::Rgb(250, 250, 246),
            text: Color::Rgb(36, 41, 47),
            strong: Color::Rgb(15, 20, 25),
            muted: Color::Rgb(108, 113, 122),
            h1: Color::Rgb(190, 63, 25),
            h2: Color::Rgb(5, 80, 174),
            h3: Color::Rgb(95, 50, 155),
            h4: Color::Rgb(26, 99, 52),
            h5: Color::Rgb(200, 85, 85),
            h6: Color::Rgb(108, 113, 122),
            rule: Color::Rgb(208, 215, 222),
            code_bg: Color::Rgb(243, 244, 246),
            code_border: Color::Rgb(208, 215, 222),
            inline_code_bg: Color::Rgb(230, 232, 238),
            inline_code_fg: Color::Rgb(5, 80, 174),
            quote_bar: Color::Rgb(234, 117, 70),
            quote_bg: Color::Rgb(243, 244, 246),
            link: Color::Rgb(9, 105, 218),
            table_head_bg: Color::Rgb(238, 240, 243),
            table_alt_bg: Color::Rgb(247, 248, 250),
            table_border: Color::Rgb(208, 215, 222),
            ornament: Color::Rgb(190, 63, 25),
            checkbox_on: Color::Rgb(26, 99, 52),
            checkbox_off: Color::Rgb(150, 156, 166),
        }
    }
}

/// The palette of the preview (dark or light).
pub fn pal(dark: bool) -> (p: Pal)
    ensures
        p == pal_of(dark),
{
    if dark {
        Pal {
            bg: Color::Rgb(13, 17, 23),
            text: Color::Rgb(201, 209, 217),
            strong: Color::Rgb(245, 247, 250),
            muted: Color::Rgb(139, 148, 158),
            h1: Color::Rgb(255, 166, 87),
            h2: Color::Rgb(121, 192, 255),
            h3: Color::Rgb(210, 168, 255),
            h4: Color::Rgb(115, 201, 144),
            h5: Color::Rgb(255, 176, 176),
            h6: Color::Rgb(139, 148, 158),
            rule: Color::Rgb(48, 54, 61),
            code_bg: Color::Rgb(22, 27, 34),
            code_border: Color::Rgb(48, 54, 61),
            inline_code_bg: Color::Rgb(40, 46, 60),
            inline_code_fg: Color::Rgb(121, 192, 255),
            quote_bar: Color::Rgb(255, 138, 92),
            quote_bg: Color::Rgb(22, 27, 34),
            link: Color::Rgb(88, 166, 255),
            table_head_bg: Color::Rgb(28, 34, 47),
            table_alt_bg: Color::Rgb(18, 22, 30),
            table_border: Color::Rgb(48, 54, 61),
            ornament: Color::Rgb(255, 166, 87),
            checkbox_on: Color::Rgb(115, 201, 144),
            checkbox_off: Color::Rgb(110, 118, 129),
        }
    } else {
        Pal {
            bg: Color::Rgb(250, 250, 246),
            text: Color::Rgb(36, 41, 47),
            strong: Color::Rgb(15, 20, 25),
            muted: Color::Rgb(108, 113, 122),
            h1: Color::Rgb(190, 63, 25),
            h2: Color::Rgb(5, 80, 174),
            h3: Color::Rgb(95, 50, 155),
            h4: Color::Rgb(26, 99, 52),
            h5: Color::Rgb(200, 85, 85),
            h6: Color::Rgb(108, 113, 122),
            rule: Color::Rgb(208, 215, 222),
            code_bg: Color::Rgb(243, 244, 246),
            code_border: Color::Rgb(208, 215, 222),
            inline_code_bg: Color::Rgb(230, 232, 238),
            inline_code_fg: Color::Rgb(5, 80, 174),
            quote_bar: Color::Rgb(234, 117, 70),
            quote_bg: Color::Rgb(243, 244, 246),
            link: Color::Rgb(9, 105, 218),
            table_head_bg: Color::Rgb(238, 240, 243),
            table_alt_bg: Color::Rgb(247, 248, 250),
            table_border: Color::Rgb(208, 215, 222),
            ornament: Color::Rgb(190, 63, 25),
            checkbox_on: Color::Rgb(26, 99, 52),
            checkbox_off: Color::Rgb(150, 156, 166),
        }
    }
}

/// The color of a heading of `level` (1 to 6; deeper levels use the sixth).
pub open spec fn heading_color_of(p: Pal, level: int) -> Color {
    if level <= 1 {
        p.h1
    } else if level == 2 {
        p.h2
    } else if level == 3 {
        p.h3
    } else if level == 4 {
        p.h4
    } else if level == 5 {
        p.h5
    } else {
        p.h6
    }
}

pub fn heading_color(p: Pal, level: u8) -> (c: Color)
    ensures
        c == heading_color_of(p, level as int),
{
    if level <= 1 {
        p.h1
    } else if level == 2 {
        p.h2
    } else if level == 3 {
        p.h3
    } else if level == 4 {
        p.h4
    } else if level == 5 {
        p.h5
    } else {
        p.h6
    }
}

/// Inline formatting in effect for a piece of text.
#[derive(Clone, Copy, PartialEq, Eq, Structural, Debug)]
pub struct Fmt {
    pub bold: bool,
    pub italic: bool,
    pub strike: bool,
    pub code: bool,
    pub link: bool,
}

impl Fmt {
    pub open spec fn plain_spec() -> Fmt {
        Fmt { bold: false, italic: false, strike: false, code: false, link: false }
    }

    /// No formatting.
    pub fn plain() -> (f: Fmt)
        ensures
            f == Fmt::plain_spec(),
    {
        Fmt { bold: false, italic: false, strike: false, code: false, link: false }
    }
}

/// A piece of text with its formatting.
pub struct Token {
    pub s: String,
    pub f: Fmt,
}

impl Token {
    pub open spec fn view(&self) -> (Seq<char>, Fmt) {
        (self.s@, self.f)
    }
}

pub open spec fn tokens_view(ts: Seq<Token>) -> Seq<(Seq<char>, Fmt)> {
    ts.map_values(|t: Token| t.view())
}

/// The style of text with format `f`, in a heading of color `hc` if any:
/// links are underlined link-colored text; otherwise bold text is strong,
/// code has its own colors, and italic and struck-through text are marked.
pub open spec fn text_style(f: Fmt, hc: Option<Color>, p: Pal) -> Style {
    if f.link {
        Style { fg: Some(p.link), underlined: true, ..Style::none() }
    } else {
        let fg = if f.bold {
            p.strong
        } else if f.code {
            p.inline_code_fg
        } else {
            match hc {
                Some(c) => c,
                None => p.text,
            }
        };
        let bg = if f.code { p.inline_code_bg } else { p.bg };
        Style {
            fg: Some(fg),
            bg: Some(bg),
            bold: f.bold,
            italic: f.italic,
            crossed_out: f.strike,
            ..Style::none()
        }
    }
}

/// The style of text with format `f` (see `text_style`).
pub fn style_for(f: Fmt, hc: Option<Color>, p: Pal) -> (st: Style)
    ensures
        st == text_style(f, hc, p),
{
    let mut fg = if f.code {
        p.inline_code_fg
    } else {
        match hc {
            Some(c) => c,
            None => p.text,
        }
    };
    let bg = if f.code { p.inline_code_bg } else { p.bg };
    if f.bold {
        fg = p.strong;
    }
    let mut st = Style::plain().with_fg(fg).with_bg(bg);
    if f.bold {
        st.bold = true;
    }
    if f.italic {
        st.italic = true;
    }
    if f.strike {
        st.crossed_out = true;
    }
    if f.link {
        st = Style::plain().with_fg(p.link);
        st.underlined = true;
    }
    st
}

/// The style of body text with format `f`.
pub fn style_for_fmt(f: Fmt, p: Pal) -> (st: Style)
    ensures
        st == text_style(f, None, p),
{
    style_for(f, None, p)
}

/// Terminal cells of a character (one when it has no width).
pub open spec fn cell_width(c: char) -> int {
    match uwidth(c) {
        Some(w) => w as int,
        None => 1,
    }
}

pub fn cell_w(c: char) -> (w: usize)
    ensures
        w == cell_width(c),
        1 <= w <= 3 || w == 0,
{
    match char_width(c) {
        Some(w) => w,
        None => 1,
    }
}

/// Splitting after each space, over the first `k` characters: the pieces
/// done and the piece in progress.
pub open spec fn split_upto(s: Seq<char>, k: int) -> (Seq<Seq<char>>, Seq<char>)
    decreases k,
{
    if k <= 0 {
        (Seq::empty(), Seq::empty())
    } else {
        let (out, cur) = split_upto(s, k - 1);
        let cur2 = cur.push(s[k - 1]);
        if s[k - 1] == ' ' {
            (out.push(cur2), Seq::empty())
        } else {
            (out, cur2)
        }
    }
}

/// Words with their trailing space: `s` cut after each space.
pub open spec fn space_split(s: Seq<char>) -> Seq<Seq<char>> {
    let (out, cur) = split_upto(s, s.len() as int);
    if cur.len() > 0 {
        out.push(cur)
    } else {
        out
    }
}

/// Cut text after each space, so that words keep their trailing space.
pub fn split_tokens(s: &str) -> (out: Vec<String>)
    ensures
        crate::text::views(out@) == space_split(s@),
{
    let cs = chars_of(s);
    let mut out: Vec<String> = Vec::new();
    let mut cur = String::new();
    let mut i: usize = 0;
    while i < cs.len()
        invariant
            i <= cs@.len(),
            cs@ == s@,
            (crate::text::views(out@), cur@) == split_upto(s@, i as int),
        decreases cs.len() - i,
    {
        let c = cs[i];
        push_char(&mut cur, c);
        if c == ' ' {
            let ghost prev = out@;
            let done = cur;
            out.push(done);
            cur = String::new();
            proof {
                assert(crate::text::views(out@) =~= crate::text::views(prev).push(done@));
            }
        }
        i += 1;
    }
    if cur.as_str().unicode_len() > 0 {
        let ghost prev = out@;
        let last = cur;
        out.push(last);
        proof {
            assert(crate::text::views(out@) =~= crate::text::views(prev).push(last@));
        }
    }
    out
}

/// All pieces, joined.
pub open spec fn flatten(ps: Seq<Seq<char>>) -> Seq<char>
    decreases ps.len(),
{
    if ps.len() == 0 {
        Seq::empty()
    } else {
        flatten(ps.drop_last()) + ps.last()
    }
}

proof fn lemma_split_upto_flat(s: Seq<char>, k: int)
    requires
        0 <= k <= s.len(),
    ensures
        flatten(split_upto(s, k).0) + split_upto(s, k).1 == s.take(k),
    decreases k,
{
    if k > 0 {
        lemma_split_upto_flat(s, k - 1);
        let (out, cur) = split_upto(s, k - 1);
        assert(s.take(k) =~= s.take(k - 1).push(s[k - 1]));
        if s[k - 1] == ' ' {
            assert(out.push(cur.push(s[k - 1])).drop_last() =~= out);
            assert(flatten(out.push(cur.push(s[k - 1]))) + Seq::<char>::empty() =~= flatten(out) + cur.push(
                s[k - 1],
            ));
        }
        assert(flatten(out) + cur.push(s[k - 1]) =~= (flatten(out) + cur).push(s[k - 1]));
    }
}

/// Splitting text into words keeps every character, in order: the pieces
/// joined give the text back.
pub proof fn law_split_keeps_text(s: Seq<char>)
    ensures
        flatten(space_split(s)) == s,
{
    lemma_split_upto_flat(s, s.len() as int);
    let (out, cur) = split_upto(s, s.len() as int);
    assert(s.take(s.len() as int) =~= s);
    if cur.len() > 0 {
        assert(out.push(cur).drop_last() =~= out);
    } else {
        assert(flatten(out) + cur =~= flatten(out));
    }
}

/// One styled cell of a wrapped row.
#[derive(Clone, Copy, PartialEq, Eq, Structural, Debug)]
pub struct CellSpec {
    pub ch: char,
    pub style: Style,
}

/// Wrapping state: the rows so far (the last one open) and the cells used
/// in the open row.
pub type WrapState = (Seq<Seq<CellSpec>>, int);

/// Place one character: a newline opens a row; a character that would pass
/// `w` cells opens a row first, unless the row is empty.
pub open spec fn wrap_char(st: WrapState, c: char, style: Style, w: int) -> WrapState {
    let (rows, cur) = st;
    if c == '\n' {
        (rows.push(Seq::empty()), 0)
    } else {
        let cw = cell_width(c);
        let (rows2, cur2) = if cur + cw > w && cur > 0 {
            (rows.push(Seq::empty()), 0)
        } else {
            (rows, cur)
        };
        (rows2.update(rows2.len() - 1, rows2.last().push(CellSpec { ch: c, style })), cur2 + cw)
    }
}

/// Place the first `k` characters of `cs`.
pub open spec fn wrap_chars(st: WrapState, cs: Seq<char>, k: int, style: Style, w: int) -> WrapState
    decreases k,
{
    if k <= 0 {
        st
    } else {
        wrap_char(wrap_chars(st, cs, k - 1, style, w), cs[k - 1], style, w)
    }
}

/// Place the first `j` tokens, each in its format's style.
pub open spec fn wrap_upto(toks: Seq<(Seq<char>, Fmt)>, j: int, w: int, p: Pal) -> WrapState
    decreases j,
{
    if j <= 0 {
        (seq![Seq::empty()], 0)
    } else {
        let t = toks[j - 1];
        wrap_chars(wrap_upto(toks, j - 1, w, p), t.0, t.0.len() as int, text_style(t.1, None, p), w)
    }
}

/// Rows of styled cells that a token list fills at `width` cells per row
/// (at least one).
pub open spec fn wrapped(toks: Seq<(Seq<char>, Fmt)>, width: int, p: Pal) -> Seq<Seq<CellSpec>> {
    let w = if width < 1 { 1 } else { width };
    wrap_upto(toks, toks.len() as int, w, p).0
}

/// Wrap a token list into rows of styled cells fitting `width`.
pub fn wrap_tokens(tokens: &Vec<Token>, width: usize, p: Pal) -> (rows: Vec<Vec<CellSpec>>)
    requires
        width <= 65535,
    ensures
        rows@.map_values(|r: Vec<CellSpec>| r@) == wrapped(tokens_view(tokens@), width as int, p),
        rows@.len() >= 1,
{
    let w = if width < 1 { 1 } else { width };
    let ghost toks = tokens_view(tokens@);
    let mut rows: Vec<Vec<CellSpec>> = Vec::new();
    rows.push(Vec::new());
    let mut cur: usize = 0;
    let mut j: usize = 0;
    proof {
        assert(rows@.map_values(|r: Vec<CellSpec>| r@) =~= seq![Seq::<CellSpec>::empty()]);
    }
    while j < tokens.len()
        invariant
            j <= tokens@.len(),
            1 <= w <= 65535,
            toks == tokens_view(tokens@),
            rows@.len() >= 1,
            cur <= w + 3,
            (rows@.map_values(|r: Vec<CellSpec>| r@), cur as int) == wrap_upto(toks, j as int, w as int, p),
        decreases tokens.len() - j,
    {
        let tok = &tokens[j];
        let base = style_for_fmt(tok.f, p);
        let cs = chars_of(tok.s.as_str());
        assert(toks[j as int] == (cs@, tok.f));
        let mut k: usize = 0;
        let ghost st0 = wrap_upto(toks, j as int, w as int, p);
        while k < cs.len()
            invariant
                k <= cs@.len(),
                1 <= w <= 65535,
                rows@.len() >= 1,
                cur <= w + 3,
                (rows@.map_values(|r: Vec<CellSpec>| r@), cur as int) == wrap_chars(st0, cs@, k as int, base, w as int),
            decreases cs.len() - k,
        {
            let c = cs[k];
            let ghost before = rows@.map_values(|r: Vec<CellSpec>| r@);
            if c == '\n' {
                rows.push(Vec::new());
                cur = 0;
                proof {
                    assert(rows@.map_values(|r: Vec<CellSpec>| r@) =~= before.push(Seq::empty()));
                }
            } else {
                let cw = cell_w(c);
                let ghost mid;
                if cur + cw > w && cur > 0 {
                    rows.push(Vec::new());
                    cur = 0;
                    proof {
                        mid = before.push(Seq::empty());
                        assert(rows@.map_values(|r: Vec<CellSpec>| r@) =~= mid);
                    }
                } else {
                    proof {
                        mid = before;
                    }
                }
                let last = rows.len() - 1;
                let ghost rv = rows@.map_values(|r: Vec<CellSpec>| r@);
                rows[last].push(CellSpec { ch: c, style: base });
                proof {
                    assert(rows@.map_values(|r: Vec<CellSpec>| r@) =~= rv.update(
                        rv.len() - 1,
                        rv.last().push(CellSpec { ch: c, style: base }),
                    ));
                }
                cur = cur + cw;
            }
            k += 1;
        }
        j += 1;
    }
    rows
}

} // verus!
