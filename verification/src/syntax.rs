//! Code highlighting with syntect's bundled syntaxes and themes. The sets are
//! loaded once by the caller and lent to the preview; each call asks syntect
//! for the colored pieces of one line.

use vstd::prelude::*;
use syntect::easy::HighlightLines;
use syntect::highlighting::{Style as SyntectStyle, ThemeSet};
use syntect::parsing::SyntaxSet;
use crate::preview_boxes::{hl_view, regions_view, Region};
use crate::text::{chars_of, lines_of, string_of, text_lines, trail_char, trim_end_char};

verus! {

#[verifier::external_type_specification]
#[verifier::external_body]
pub struct ExSyntaxSet(SyntaxSet);

#[verifier::external_type_specification]
#[verifier::external_body]
pub struct ExThemeSet(ThemeSet);

#[verifier::external_type_specification]
#[verifier::external_body]
pub struct ExSyntectStyle(SyntectStyle);

/// syntect's bundled syntaxes (with newlines) and themes. The fields are
/// private and only `Syntaxes::load` fills them, so every value holds the
/// bundled sets.
pub struct Syntaxes {
    ss: SyntaxSet,
    ts: ThemeSet,
}

/// syntect `SyntaxSet::load_defaults_newlines`: the bundled syntaxes.
/// Nothing is claimed of the value.
#[verifier::external_body]
fn default_syntaxes() -> SyntaxSet {
    SyntaxSet::load_defaults_newlines()
}

/// syntect `ThemeSet::load_defaults`: the bundled themes. Nothing is
/// claimed of the value.
#[verifier::external_body]
fn default_themes() -> ThemeSet {
    ThemeSet::load_defaults()
}

impl Syntaxes {
    /// Load the bundled syntaxes and themes.
    pub fn load() -> Syntaxes {
        Syntaxes { ss: default_syntaxes(), ts: default_themes() }
    }
}

/// Whether syntect's bundled themes have one of this name: the seven keys
/// that `ThemeSet::load_defaults` documents.
pub open spec fn theme_known(name: Seq<char>) -> bool {
    ||| name == "base16-ocean.dark"@
    ||| name == "base16-eighties.dark"@
    ||| name == "base16-mocha.dark"@
    ||| name == "base16-ocean.light"@
    ||| name == "InspiredGitHub"@
    ||| name == "Solarized (dark)"@
    ||| name == "Solarized (light)"@
}

/// Whether the bundled themes (a `BTreeMap` by name, `ThemeSet::themes`)
/// contain `name`: `BTreeMap::contains_key`. The keys are the seven that
/// syntect documents (see `theme_known`).
#[verifier::external_body]
pub fn has_theme(sx: &Syntaxes, name: &str) -> (b: bool)
    ensures
        b == theme_known(name@),
{
    sx.ts.themes.contains_key(name)
}

/// The foreground colors and texts of the pieces of a line highlighted on
/// its own (the first line of the pieces of a one-line block).
pub open spec fn line_colors(ps: Seq<Seq<((u8, u8, u8, u8), (u8, u8, u8, u8), u8, Seq<char>)>>) -> Seq<((u8, u8, u8, u8), Seq<char>)> {
    if ps.len() > 0 {
        ps[0].map_values(|p: ((u8, u8, u8, u8), (u8, u8, u8, u8), u8, Seq<char>)| (p.0, p.3))
    } else {
        Seq::empty()
    }
}

/// A line highlighted on its own by a fresh highlighter: as plain text when
/// no language is named.
pub open spec fn line_highlight(lang: Seq<char>, theme: Seq<char>, l: Seq<char>) -> Seq<((u8, u8, u8, u8), Seq<char>)> {
    line_colors(if lang.len() == 0 { plain_block_pieces(theme, seq![l]) } else { lang_block_pieces(lang, theme, seq![l]) })
}

/// The highlight of a code block under a theme: none when no bundled theme
/// has that name; else, for each line of the block (trailing newlines
/// dropped), the colored pieces of that line highlighted on its own.
pub open spec fn block_highlight(lang: Seq<char>, theme: Seq<char>, code: Seq<char>) -> Option<Seq<Seq<((u8, u8, u8, u8), Seq<char>)>>> {
    if !theme_known(theme) {
        None
    } else {
        let lines = text_lines(code.take(trail_char(code, code.len() as int, '\n')));
        Some(lines.map_values(|l: Seq<char>| line_highlight(lang, theme, l)))
    }
}

/// Highlight one line on its own (see `line_highlight`).
fn highlight_line(sx: &Syntaxes, lang: &str, theme: &str, line: String) -> (r: Vec<Region>)
    requires
        theme_known(theme@),
    ensures
        regions_view(r@) == line_highlight(lang@, theme@, line@),
{
    let ghost l = line@;
    let mut one: Vec<String> = Vec::new();
    one.push(line);
    assert(crate::text::views(one@) =~= seq![l]);
    let pieces = if lang.unicode_len() == 0 {
        highlight_plain_block(sx, theme, &one)
    } else {
        highlight_lang_block(sx, lang, theme, &one)
    };
    let ghost pv = pieces@.map_values(|x: Vec<StyledPiece>| pieces_view(x@));
    let mut out: Vec<Region> = Vec::new();
    if pieces.len() > 0 {
        let ghost want = pv[0].map_values(|p: ((u8, u8, u8, u8), (u8, u8, u8, u8), u8, Seq<char>)| (p.0, p.3));
        let mut k: usize = 0;
        while k < pieces[0].len()
            invariant
                pieces@.len() > 0,
                k <= pieces@[0]@.len(),
                pv == pieces@.map_values(|x: Vec<StyledPiece>| pieces_view(x@)),
                want == pv[0].map_values(|p: ((u8, u8, u8, u8), (u8, u8, u8, u8), u8, Seq<char>)| (p.0, p.3)),
                regions_view(out@) == want.take(k as int),
            decreases pieces@[0]@.len() - k,
        {
            let p = &pieces[0][k];
            let ghost prev = out@;
            out.push((p.0, p.3.clone()));
            proof {
                assert(want.take(k as int + 1) =~= want.take(k as int).push(want[k as int]));
                assert(regions_view(out@) =~= regions_view(prev).push((p.0, p.3@)));
            }
            k += 1;
        }
        assert(want.take(want.len() as int) =~= want);
    } else {
        assert(regions_view(out@) =~= Seq::<((u8, u8, u8, u8), Seq<char>)>::empty());
    }
    out
}

/// Highlight a code block (see `block_highlight`).
pub fn highlight_block(sx: &Syntaxes, lang: &str, theme: &str, code: &str) -> (r: Option<Vec<Vec<Region>>>)
    ensures
        hl_view(r) == block_highlight(lang@, theme@, code@),
{
    if !has_theme(sx, theme) {
        return None;
    }
    let trimmed = trim_end_char(chars_of(code).as_slice(), '\n');
    let ts = string_of(trimmed.as_slice(), 0, trimmed.len());
    proof {
        assert(trimmed@.subrange(0, trimmed@.len() as int) =~= trimmed@);
    }
    let lines = lines_of(ts.as_str());
    let ghost lv = lines@.map_values(|l: Vec<char>| l@);
    let ghost want = lv.map_values(|l: Seq<char>| line_highlight(lang@, theme@, l));
    let mut out: Vec<Vec<Region>> = Vec::new();
    let mut i: usize = 0;
    while i < lines.len()
        invariant
            i <= lines@.len(),
            theme_known(theme@),
            lv == lines@.map_values(|l: Vec<char>| l@),
            want == lv.map_values(|l: Seq<char>| line_highlight(lang@, theme@, l)),
            out@.map_values(|l: Vec<Region>| regions_view(l@)) == want.take(i as int),
        decreases lines.len() - i,
    {
        let line = string_of(lines[i].as_slice(), 0, lines[i].len());
        proof {
            assert(lines@[i as int]@.subrange(0, lines@[i as int]@.len() as int) =~= lv[i as int]);
        }
        let pieces = highlight_line(sx, lang, theme, line);
        let ghost prev = out@;
        out.push(pieces);
        proof {
            assert(want.take(i as int + 1) =~= want.take(i as int).push(want[i as int]));
            assert(out@.map_values(|l: Vec<Region>| regions_view(l@)) =~= prev.map_values(|l: Vec<Region>| regions_view(l@)).push(regions_view(pieces@)));
        }
        i += 1;
    }
    proof {
        assert(want.take(want.len() as int) =~= want);
        assert(lv == text_lines(code@.take(trail_char(code@, code@.len() as int, '\n'))));
    }
    Some(out)
}

/// A highlighted piece with its whole style: foreground and background
/// (red, green, blue, alpha), the font style's bits (bold 1, underline 2,
/// italic 4), and its text.
pub type StyledPiece = ((u8, u8, u8, u8), (u8, u8, u8, u8), u8, String);

pub open spec fn pieces_view(ps: Seq<StyledPiece>) -> Seq<((u8, u8, u8, u8), (u8, u8, u8, u8), u8, Seq<char>)> {
    ps.map_values(|p: StyledPiece| (p.0, p.1, p.2, p.3@))
}

/// The styled pieces of the lines of a plain-text block highlighted in one
/// pass (state carried from line to line) under a bundled theme.
pub uninterp spec fn plain_block_pieces(theme: Seq<char>, lines: Seq<Seq<char>>) -> Seq<Seq<((u8, u8, u8, u8), (u8, u8, u8, u8), u8, Seq<char>)>>;

/// Whether `ix` is the position of a syntax in syntect's bundled set.
pub uninterp spec fn syntax_ok(ix: nat) -> bool;

/// The position in the bundled set of the syntax that syntect's
/// `find_syntax_by_token` finds for a token (by file extension, then by
/// name, ignoring case).
pub uninterp spec fn token_syntax(token: Seq<char>) -> Option<nat>;

/// The position in the bundled set of the syntax that syntect's
/// `find_syntax_by_extension` finds for an extension (ignoring case).
pub uninterp spec fn extension_syntax(ext: Seq<char>) -> Option<nat>;

/// The styled pieces of the lines of a block highlighted in one pass (state
/// carried from line to line) with the bundled syntax at position `ix`,
/// under a bundled theme.
pub uninterp spec fn syntax_block_pieces(ix: nat, theme: Seq<char>, lines: Seq<Seq<char>>) -> Seq<Seq<((u8, u8, u8, u8), (u8, u8, u8, u8), u8, Seq<char>)>>;

/// The styled pieces of the lines of a code block in a language: with the
/// syntax found by token, else by extension, else as plain text.
pub open spec fn lang_block_pieces(lang: Seq<char>, theme: Seq<char>, lines: Seq<Seq<char>>) -> Seq<Seq<((u8, u8, u8, u8), (u8, u8, u8, u8), u8, Seq<char>)>> {
    match token_syntax(lang) {
        Some(ix) => syntax_block_pieces(ix, theme, lines),
        None => match extension_syntax(lang) {
            Some(ix) => syntax_block_pieces(ix, theme, lines),
            None => plain_block_pieces(theme, lines),
        },
    }
}

/// A syntect style and text as a `StyledPiece`, field for field. Nothing is
/// claimed of the result.
#[verifier::external_body]
fn piece_of(st: SyntectStyle, s: &str) -> StyledPiece {
    let (f, b) = (st.foreground, st.background);
    ((f.r, f.g, f.b, f.a), (b.r, b.g, b.b, b.a), st.font_style.bits(), s.to_string())
}

/// The lines of a plain-text block highlighted in order by one syntect
/// `HighlightLines` with the named theme (`highlight_line` for each, an
/// error giving no pieces), one list of styled pieces per line. The result
/// is named `plain_block_pieces`, a function of the theme's name and the
/// lines.
#[verifier::external_body]
pub fn highlight_plain_block(sx: &Syntaxes, theme: &str, lines: &Vec<String>) -> (r: Vec<Vec<StyledPiece>>)
    requires
        theme_known(theme@),
    ensures
        r@.map_values(|l: Vec<StyledPiece>| pieces_view(l@)) == plain_block_pieces(theme@, crate::text::views(lines@)),
{
    let mut h = HighlightLines::new(sx.ss.find_syntax_plain_text(), &sx.ts.themes[theme]);
    let hl = |l: &String| h.highlight_line(l, &sx.ss).unwrap_or_default().into_iter().map(|(st, p)| piece_of(st, p)).collect();
    lines.iter().map(hl).collect()
}

/// syntect `SyntaxSet::find_syntax_by_token`: the position, in the bundled
/// set's `syntaxes()`, of the syntax found for a token, if any. The answer
/// is named `token_syntax`, a function of the token alone, and names a
/// syntax of the set.
#[verifier::external_body]
fn syntax_by_token(sx: &Syntaxes, token: &str) -> (r: Option<usize>)
    ensures
        r is None <==> token_syntax(token@) is None,
        r matches Some(ix) ==> syntax_ok(ix as nat) && token_syntax(token@) == Some(ix as nat),
{
    let found = sx.ss.find_syntax_by_token(token)?;
    sx.ss.syntaxes().iter().position(|s| std::ptr::eq(s, found))
}

/// syntect `SyntaxSet::find_syntax_by_extension`: the position, in the
/// bundled set's `syntaxes()`, of the syntax found for an extension, if any.
/// The answer is named `extension_syntax`, a function of the extension
/// alone, and names a syntax of the set.
#[verifier::external_body]
fn syntax_by_extension(sx: &Syntaxes, ext: &str) -> (r: Option<usize>)
    ensures
        r is None <==> extension_syntax(ext@) is None,
        r matches Some(ix) ==> syntax_ok(ix as nat) && extension_syntax(ext@) == Some(ix as nat),
{
    let found = sx.ss.find_syntax_by_extension(ext)?;
    sx.ss.syntaxes().iter().position(|s| std::ptr::eq(s, found))
}

/// The lines of a block highlighted in order by one syntect `HighlightLines`
/// for the bundled syntax at position `ix` with the named theme
/// (`highlight_line` for each, an error giving no pieces), one list of
/// styled pieces per line. The result is named `syntax_block_pieces`, a
/// function of the position, the theme's name and the lines.
#[verifier::external_body]
fn highlight_syntax_block(sx: &Syntaxes, ix: usize, theme: &str, lines: &Vec<String>) -> (r: Vec<Vec<StyledPiece>>)
    requires
        syntax_ok(ix as nat),
        theme_known(theme@),
    ensures
        r@.map_values(|l: Vec<StyledPiece>| pieces_view(l@)) == syntax_block_pieces(ix as nat, theme@, crate::text::views(lines@)),
{
    let mut h = HighlightLines::new(&sx.ss.syntaxes()[ix], &sx.ts.themes[theme]);
    let hl = |l: &String| h.highlight_line(l, &sx.ss).unwrap_or_default().into_iter().map(|(st, p)| piece_of(st, p)).collect();
    lines.iter().map(hl).collect()
}

/// Highlight the lines of a code block in a language: with the syntax that
/// syntect finds for the language as a token, else as an extension, else as
/// plain text (see `lang_block_pieces`).
pub fn highlight_lang_block(sx: &Syntaxes, lang: &str, theme: &str, lines: &Vec<String>) -> (r: Vec<Vec<StyledPiece>>)
    requires
        theme_known(theme@),
    ensures
        r@.map_values(|l: Vec<StyledPiece>| pieces_view(l@)) == lang_block_pieces(lang@, theme@, crate::text::views(lines@)),
{
    match syntax_by_token(sx, lang) {
        Some(ix) => highlight_syntax_block(sx, ix, theme, lines),
        None => match syntax_by_extension(sx, lang) {
            Some(ix) => highlight_syntax_block(sx, ix, theme, lines),
            None => highlight_plain_block(sx, theme, lines),
        },
    }
}

} // verus!
