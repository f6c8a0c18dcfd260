//! A rendered frame as text with ANSI color codes, for the headless dump.

use vstd::prelude::*;
use crate::style::{Color, Style};
use crate::num::{decimal, decimal_chars};
use crate::markdown::concat;
use crate::text::string_of;

verus! {

/// The decimal digits of a color component.
pub open spec fn num(n: u8) -> Seq<char> {
    decimal(n as nat)
}

/// The code that sets the foreground (the terminal's default when none).
pub open spec fn fg_code(c: Option<Color>) -> Seq<char> {
    match c {
        None | Some(Color::Reset) => "\x1b[39m"@,
        Some(Color::Rgb(r, g, b)) => "\x1b[38;2;"@ + num(r) + ";"@ + num(g) + ";"@ + num(b) + "m"@,
        Some(Color::Red) | Some(Color::LightRed) => "\x1b[31m"@,
        Some(Color::Green) | Some(Color::LightGreen) => "\x1b[32m"@,
        Some(Color::Yellow) => "\x1b[33m"@,
        Some(Color::Blue) | Some(Color::LightBlue) => "\x1b[34m"@,
        Some(Color::Magenta) => "\x1b[35m"@,
        Some(Color::Cyan) => "\x1b[36m"@,
        _ => "\x1b[37m"@,
    }
}

/// The code that sets the background (the terminal's default when none).
pub open spec fn bg_code(c: Option<Color>) -> Seq<char> {
    match c {
        Some(Color::Rgb(r, g, b)) => "\x1b[48;2;"@ + num(r) + ";"@ + num(g) + ";"@ + num(b) + "m"@,
        Some(Color::Yellow) => "\x1b[43m"@,
        Some(Color::Green) | Some(Color::LightGreen) => "\x1b[42m"@,
        Some(Color::Red) | Some(Color::LightRed) => "\x1b[41m"@,
        Some(Color::Blue) | Some(Color::LightBlue) => "\x1b[44m"@,
        _ => "\x1b[49m"@,
    }
}

/// The first `k` cells of a row (symbol and style): where the style
/// changes, a reset and the colors' codes, then the symbol; and the style in
/// effect.
pub open spec fn row_upto(cells: Seq<(Seq<char>, Style)>, k: int) -> (Seq<char>, Option<Style>)
    decreases k,
{
    if k <= 0 {
        (Seq::empty(), None)
    } else {
        let (s, last) = row_upto(cells, k - 1);
        let (sym, st) = cells[k - 1];
        if last == Some(st) {
            (s + sym, last)
        } else {
            (s + "\x1b[0m"@ + fg_code(st.fg) + bg_code(st.bg) + sym, Some(st))
        }
    }
}

/// A row of cells as text with color codes, ending with a reset (so that
/// trimming trailing blanks leaves it as it is).
pub open spec fn dump_row_of(cells: Seq<(Seq<char>, Style)>) -> Seq<char> {
    row_upto(cells, cells.len() as int).0 + "\x1b[0m"@
}

fn num_string(n: u8) -> (s: String)
    ensures
        s@ == num(n),
{
    let ds = decimal_chars(n as u64);
    assert(ds@.subrange(0, ds@.len() as int) =~= ds@);
    string_of(ds.as_slice(), 0, ds.len())
}

fn rgb_code(prefix: &str, r: u8, g: u8, b: u8) -> (s: String)
    ensures
        s@ == prefix@ + num(r) + ";"@ + num(g) + ";"@ + num(b) + "m"@,
{
    let a = concat(prefix, num_string(r).as_str());
    let a = concat(a.as_str(), ";");
    let a = concat(a.as_str(), num_string(g).as_str());
    let a = concat(a.as_str(), ";");
    let a = concat(a.as_str(), num_string(b).as_str());
    concat(a.as_str(), "m")
}

fn fg_string(c: Option<Color>) -> (s: String)
    ensures
        s@ == fg_code(c),
{
    match c {
        None | Some(Color::Reset) => String::from_str("\x1b[39m"),
        Some(Color::Rgb(r, g, b)) => rgb_code("\x1b[38;2;", r, g, b),
        Some(Color::Red) | Some(Color::LightRed) => String::from_str("\x1b[31m"),
        Some(Color::Green) | Some(Color::LightGreen) => String::from_str("\x1b[32m"),
        Some(Color::Yellow) => String::from_str("\x1b[33m"),
        Some(Color::Blue) | Some(Color::LightBlue) => String::from_str("\x1b[34m"),
        Some(Color::Magenta) => String::from_str("\x1b[35m"),
        Some(Color::Cyan) => String::from_str("\x1b[36m"),
        _ => String::from_str("\x1b[37m"),
    }
}

fn bg_string(c: Option<Color>) -> (s: String)
    ensures
        s@ == bg_code(c),
{
    match c {
        Some(Color::Rgb(r, g, b)) => rgb_code("\x1b[48;2;", r, g, b),
        Some(Color::Yellow) => String::from_str("\x1b[43m"),
        Some(Color::Green) | Some(Color::LightGreen) => String::from_str("\x1b[42m"),
        Some(Color::Red) | Some(Color::LightRed) => String::from_str("\x1b[41m"),
        Some(Color::Blue) | Some(Color::LightBlue) => String::from_str("\x1b[44m"),
        _ => String::from_str("\x1b[49m"),
    }
}

/// A row of cells as text with color codes (see `dump_row_of`).
pub fn dump_row(cells: &Vec<(String, Style)>) -> (s: String)
    ensures
        s@ == dump_row_of(cells@.map_values(|c: (String, Style)| (c.0@, c.1))),
{
    let ghost cv = cells@.map_values(|c: (String, Style)| (c.0@, c.1));
    let mut out = String::new();
    let mut last: Option<Style> = None;
    let mut k: usize = 0;
    while k < cells.len()
        invariant
            k <= cells@.len(),
            cv == cells@.map_values(|c: (String, Style)| (c.0@, c.1)),
            (out@, last) == row_upto(cv, k as int),
        decreases cells.len() - k,
    {
        let st = cells[k].1;
        assert(cv[k as int] == (cells@[k as int].0@, st));
        let same = match last {
            Some(l) => l == st,
            None => false,
        };
        if !same {
            let a = concat(out.as_str(), "\x1b[0m");
            let b = concat(a.as_str(), fg_string(st.fg).as_str());
            out = concat(b.as_str(), bg_string(st.bg).as_str());
            last = Some(st);
        }
        out = concat(out.as_str(), cells[k].0.as_str());
        k += 1;
    }
    concat(out.as_str(), "\x1b[0m")
}

} // verus!
