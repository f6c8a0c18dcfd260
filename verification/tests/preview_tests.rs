//! The preview pipeline: parser events, code blocks, highlighting, and the
//! painted pane.

use terra::md_events::parse_markdown;
use terra::preview::{code_blocks, render_events, MdEvent, Tag, TagEnd};
use terra::preview_paint::PaintOp;
use terra::pretty::render_buf;
use terra::style::Area;
use terra::syntax::{has_theme, highlight_block, Syntaxes};

fn grid(ops: &[PaintOp], w: usize, h: usize) -> Vec<String> {
    let mut g: Vec<Vec<String>> = vec![vec![" ".to_string(); w]; h];
    for op in ops {
        if let PaintOp::Draw(p) = op {
            g[p.y as usize][p.x as usize] = p.ch.to_string();
        }
    }
    g.into_iter().map(|r| r.concat().trim_end().to_string()).collect()
}

fn rows_of(md: &str) -> (usize, Vec<String>) {
    let sx = Syntaxes::load();
    let area = Area { x: 0, y: 0, width: 60, height: 40 };
    let (h, ops) = render_buf(&sx, area, md, 0, true, "base16-ocean.dark");
    (h, grid(&ops, 60, 40))
}

#[test]
fn heading_events() {
    let evs = parse_markdown("# Hi");
    assert_eq!(evs.len(), 3);
    assert!(matches!(evs[0], MdEvent::Start(Tag::Heading(1))));
    assert!(matches!(&evs[1], MdEvent::Text(t) if t == "Hi"));
    assert!(matches!(evs[2], MdEvent::End(TagEnd::Heading(1))));
}

#[test]
fn code_blocks_in_order() {
    let evs = parse_markdown("```rust\nfn a() {}\n```\n\ntext\n\n```\nplain\n```\n");
    let bs = code_blocks(&evs);
    assert_eq!(bs.len(), 2);
    assert_eq!(bs[0], ("rust".to_string(), "fn a() {}\n".to_string()));
    assert_eq!(bs[1], ("".to_string(), "plain\n".to_string()));
}

#[test]
fn themes_are_known_by_name() {
    let sx = Syntaxes::load();
    assert!(has_theme(&sx, "base16-ocean.dark"));
    assert!(!has_theme(&sx, "no such theme"));
}

#[test]
fn highlighting_cuts_lines_into_colored_pieces() {
    let sx = Syntaxes::load();
    let hl = highlight_block(&sx, "rust", "base16-ocean.dark", "fn main() {}\nlet x = 1;\n\n").unwrap();
    assert_eq!(hl.len(), 2);
    let joined: String = hl[0].iter().map(|r| r.1.as_str()).collect();
    assert_eq!(joined, "fn main() {}");
    assert!(hl[0].len() > 1);
    assert!(highlight_block(&sx, "rust", "no such theme", "x").is_none());
}

#[test]
fn heading_paints_text_and_rule() {
    let (h, rows) = rows_of("# Title");
    assert!(h >= 4);
    assert!(rows[1].contains("▍ Title"));
    assert!(rows[2].contains("━━━━"));
}

#[test]
fn table_is_boxed() {
    let (_, rows) = rows_of("| a | bb |\n|---|---|\n| 1 | 2 |");
    let all = rows.join("\n");
    assert!(all.contains("┌───┬────┐"));
    assert!(all.contains("│ a │ bb │"));
    assert!(all.contains("└───┴────┘"));
}

#[test]
fn task_items_are_checked_or_not() {
    let (_, rows) = rows_of("- [x] done\n- [ ] todo");
    let all = rows.join("\n");
    assert!(all.contains("done"));
    assert!(all.contains("todo"));
    assert!(all.contains("✔  done"));
    assert!(all.contains("□  todo"));
}

#[test]
fn code_card_labels_unnamed_code() {
    let (_, rows) = rows_of("```\nx = 1\n```");
    let all = rows.join("\n");
    assert!(all.contains("╭ code "));
    assert!(all.contains("x = 1"));
    assert!(all.contains("╰"));
}

#[test]
fn scrolled_past_the_end_shows_only_background() {
    let sx = Syntaxes::load();
    let area = Area { x: 0, y: 0, width: 30, height: 10 };
    let (h, ops) = render_buf(&sx, area, "one\n\ntwo", 1000, true, "base16-ocean.dark");
    assert!(h < 1000);
    assert!(ops.iter().all(|op| match op {
        PaintOp::Draw(p) => p.ch == ' ',
        PaintOp::Bg(..) => true,
    }));
}

#[test]
fn events_paint_the_same_as_the_source() {
    let sx = Syntaxes::load();
    let area = Area { x: 0, y: 0, width: 40, height: 20 };
    let md = "para *one*\n\n> quoted";
    let (h1, ops1) = render_buf(&sx, area, md, 0, false, "no such theme");
    let evs = parse_markdown(md);
    let (h2, ops2) = render_events(&evs, &Vec::new(), area, 0, false);
    assert_eq!(h1, h2);
    assert_eq!(ops1, ops2);
}

#[test]
fn plain_text_blocks_are_highlighted_as_plain_text() {
    let sx = Syntaxes::load();
    let hl = highlight_block(&sx, "", "base16-ocean.dark", "just words\n").unwrap();
    assert_eq!(hl.len(), 1);
    let joined: String = hl[0].iter().map(|r| r.1.as_str()).collect();
    assert_eq!(joined, "just words");
    assert!(hl[0].iter().all(|r| (r.0).3 != 0));
}

#[test]
fn split_words_keep_the_text() {
    let parts = terra::preview_style::split_tokens("a b  c ");
    assert_eq!(parts, vec!["a ".to_string(), "b ".to_string(), " ".to_string(), "c ".to_string()]);
    assert_eq!(parts.concat(), "a b  c ");
}

#[test]
fn preview_stays_in_its_pane() {
    let sx = Syntaxes::load();
    let area = Area { x: 10, y: 5, width: 30, height: 8 };
    let md = "# A long title that will not fit\n\n| a | b | c | d | e | f | g |\n|---|---|---|---|---|---|---|\n| 1 | 2 | 3 | 4 | 5 | 6 | 7 |\n\n```\nfn long_function_name_that_runs_past_the_edge() {}\n```\n\n- one\n- two\n- three";
    for scroll in [0usize, 3, 9] {
        let (_, ops) = render_buf(&sx, area, md, scroll, true, "base16-ocean.dark");
        for op in ops {
            let (x, y) = match op {
                PaintOp::Draw(p) => (p.x, p.y),
                PaintOp::Bg(x, y, _) => (x, y),
            };
            assert!(x < 40 && (5..13).contains(&y), "({x},{y}) outside the pane");
        }
    }
}

#[test]
fn scrolling_keeps_the_height() {
    let sx = Syntaxes::load();
    let area = Area { x: 0, y: 0, width: 40, height: 10 };
    let md = "# One\n\ntext\n\n- a\n- b\n\n> quote\n\n---\n\nend";
    let (h0, _) = render_buf(&sx, area, md, 0, true, "base16-ocean.dark");
    let (h5, _) = render_buf(&sx, area, md, 5, true, "base16-ocean.dark");
    assert_eq!(h0, h5);
    assert!(h0 > 10);
}
