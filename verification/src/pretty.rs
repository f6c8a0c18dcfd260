//! The Markdown preview of a source text: parsed, its code blocks
//! highlighted, and painted block by block into the pane.

use vstd::prelude::*;
use crate::style::Area;
use crate::preview::{code_blocks, code_blocks_of, preview_of, render_events, hls_view};
use crate::preview_boxes::Region;
use crate::preview_paint::PaintOp;
use crate::md_events::{markdown_events, parse_markdown};
use crate::syntax::{block_highlight, highlight_block, Syntaxes};

verus! {

/// The highlights of code blocks (language and text) under a theme, in
/// order.
pub open spec fn highlights_of(bs: Seq<(Seq<char>, Seq<char>)>, theme: Seq<char>) -> Seq<Option<Seq<Seq<((u8, u8, u8, u8), Seq<char>)>>>> {
    bs.map_values(|b: (Seq<char>, Seq<char>)| block_highlight(b.0, theme, b.1))
}

/// The preview of a Markdown source: its parser events painted (see
/// `preview_of`), each code block highlighted with the code theme.
pub open spec fn rendered(src: Seq<char>, area: Area, scroll: int, dark: bool, code_theme: Seq<char>) -> (int, Seq<PaintOp>) {
    let evs = markdown_events(src, true, true, true, true);
    preview_of(evs, highlights_of(code_blocks_of(evs), code_theme), area, scroll, dark)
}

/// Paint the preview of a Markdown source into `area`, scrolled down by
/// `scroll` rows, in the dark or light palette, code highlighted with the
/// syntect theme `code_theme` (plain when there is no such theme). Returns
/// the document's height in rows and the cell operations.
pub fn render_buf(sx: &Syntaxes, area: Area, src: &str, scroll: usize, dark: bool, code_theme: &str) -> (r: (usize, Vec<PaintOp>))
    requires
        area.x + area.width <= u16::MAX,
        area.y + area.height <= u16::MAX,
        area.x + 2 <= u16::MAX,
    ensures
        r.0 == (if rendered(src@, area, scroll as int, dark, code_theme@).0 > usize::MAX {
            usize::MAX as int
        } else {
            rendered(src@, area, scroll as int, dark, code_theme@).0
        }),
        r.1@ == rendered(src@, area, scroll as int, dark, code_theme@).1,
{
    let evs = parse_markdown(src);
    let blocks = code_blocks(&evs);
    let ghost bv = blocks@.map_values(|b: (String, String)| (b.0@, b.1@));
    let mut hls: Vec<Option<Vec<Vec<Region>>>> = Vec::new();
    let mut i: usize = 0;
    while i < blocks.len()
        invariant
            i <= blocks@.len(),
            bv == blocks@.map_values(|b: (String, String)| (b.0@, b.1@)),
            hls_view(hls@) == highlights_of(bv, code_theme@).take(i as int),
        decreases blocks.len() - i,
    {
        let h = highlight_block(sx, blocks[i].0.as_str(), code_theme, blocks[i].1.as_str());
        let ghost prev = hls@;
        hls.push(h);
        proof {
            assert(highlights_of(bv, code_theme@).take(i as int + 1) =~= highlights_of(bv, code_theme@).take(i as int).push(
                block_highlight(bv[i as int].0, code_theme@, bv[i as int].1),
            ));
            assert(hls_view(hls@) =~= hls_view(prev).push(crate::preview_boxes::hl_view(h)));
        }
        i += 1;
    }
    proof {
        assert(highlights_of(bv, code_theme@).take(bv.len() as int) =~= highlights_of(bv, code_theme@));
    }
    render_events(&evs, &hls, area, scroll, dark)
}

} // verus!
