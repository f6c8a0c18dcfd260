//! Character classification and display width, as given by std and by the
//! `unicode-width` crate.

use vstd::prelude::*;

verus! {

/// What `char::is_alphanumeric` answers for a character.
pub uninterp spec fn alnum(c: char) -> bool;

/// What `char::is_whitespace` answers for a character: the Unicode
/// White_Space property, which holds of 25 code points.
pub open spec fn white(c: char) -> bool {
    let v = c as u32;
    ||| 0x09 <= v <= 0x0D
    ||| v == 0x20
    ||| v == 0x85
    ||| v == 0xA0
    ||| v == 0x1680
    ||| 0x2000 <= v <= 0x200A
    ||| v == 0x2028
    ||| v == 0x2029
    ||| v == 0x202F
    ||| v == 0x205F
    ||| v == 0x3000
}

/// What `UnicodeWidthChar::width` answers for a character.
pub uninterp spec fn uwidth(c: char) -> Option<usize>;

/// `char::is_alphanumeric` (std): the Unicode Alphabetic or Numeric property.
/// The contract names the answer and states the ASCII case, where exactly the
/// letters and digits qualify; the Unicode tables beyond ASCII are left unsaid.
#[verifier::external_body]
pub fn is_alphanumeric(c: char) -> (r: bool)
    ensures
        r == alnum(c),
        (c as u32) < 128 ==> (r <==> (('a' <= c && c <= 'z') || ('A' <= c && c <= 'Z') || ('0'
            <= c && c <= '9'))),
{
    c.is_alphanumeric()
}

/// Whether a character is whitespace, as `char::is_whitespace` (std)
/// answers: the Unicode White_Space property (see `white`); on ASCII, space,
/// tab, line feed, vertical tab, form feed and carriage return.
pub fn is_whitespace(c: char) -> (r: bool)
    ensures
        r == white(c),
        (c as u32) < 128 ==> (r <==> (c == ' ' || ('\t' <= c && c <= '\r'))),
{
    let v = c as u32;
    (0x09 <= v && v <= 0x0D) || v == 0x20 || v == 0x85 || v == 0xA0 || v == 0x1680 || (0x2000 <= v && v
        <= 0x200A) || v == 0x2028 || v == 0x2029 || v == 0x202F || v == 0x205F || v == 0x3000
}

/// `UnicodeWidthChar::width` (unicode-width): `None` for control characters,
/// else the number of terminal columns. As its source shows, printable ASCII
/// is one column, the control ranges `..0x20` and `0x7F..0xA0` give `None`, and
/// no character is wider than three columns; the table lookup for other
/// characters is left unsaid.
#[verifier::external_body]
pub fn char_width(c: char) -> (r: Option<usize>)
    ensures
        r == uwidth(c),
        0x20 <= (c as u32) < 0x7F ==> r == Some(1usize),
        (c as u32) < 0x20 || (0x7F <= (c as u32) < 0xA0) ==> r is None,
        r matches Some(w) ==> w <= 3,
{
    unicode_width::UnicodeWidthChar::width(c)
}

/// What `str::to_lowercase` answers for a string.
pub uninterp spec fn lower(s: Seq<char>) -> Seq<char>;

/// ASCII lowercase of one character: `A`..`Z` to `a`..`z`, others kept.
pub open spec fn ascii_lower(c: char) -> char {
    if 'A' <= c <= 'Z' { ((c as u32) + 32) as char } else { c }
}

/// `str::to_lowercase` (std): the Unicode lowercase mapping of every
/// character. The contract names the answer and states the ASCII case, where
/// each letter `A`..`Z` becomes its lowercase letter and every other
/// character stays; the Unicode mappings beyond ASCII are left unsaid.
#[verifier::external_body]
pub fn to_lowercase(s: &str) -> (r: String)
    ensures
        r@ == lower(s@),
        (forall|i: int| 0 <= i < s@.len() ==> (#[trigger] s@[i] as u32) < 128) ==> r@ == s@.map_values(
            |c: char| ascii_lower(c),
        ),
{
    s.to_lowercase()
}

/// Bytes that a character takes in UTF-8.
pub open spec fn utf8_width(c: char) -> int {
    if (c as u32) < 0x80 {
        1
    } else if (c as u32) < 0x800 {
        2
    } else if (c as u32) < 0x10000 {
        3
    } else {
        4
    }
}

/// Bytes that `s` takes in UTF-8.
pub open spec fn utf8_len(s: Seq<char>) -> int
    decreases s.len(),
{
    if s.len() == 0 { 0 } else { utf8_len(s.drop_last()) + utf8_width(s.last()) }
}

/// Bytes that a character takes in UTF-8 (as `char::len_utf8`).
pub fn len_utf8(c: char) -> (n: usize)
    ensures
        n == utf8_width(c),
{
    let v = c as u32;
    if v < 0x80 {
        1
    } else if v < 0x800 {
        2
    } else if v < 0x10000 {
        3
    } else {
        4
    }
}

} // verus!
