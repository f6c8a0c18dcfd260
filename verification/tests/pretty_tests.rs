use terra::preview_paint::PaintOp;
use terra::pretty::render_buf;
use terra::style::Area;
use terra::syntax::Syntaxes;

/// Paint a Markdown source into a 100 x 60 pane and read its rows back,
/// each without trailing blanks.
fn render(md: &str) -> String {
    let area = Area { x: 0, y: 0, width: 100, height: 60 };
    let sx = Syntaxes::load();
    let (_, ops) = render_buf(&sx, area, md, 0, true, "base16-ocean.dark");
    let mut grid: Vec<Vec<String>> = vec![vec![" ".to_string(); 100]; 60];
    for op in ops {
        if let PaintOp::Draw(p) = op {
            grid[p.y as usize][p.x as usize] = p.ch.to_string();
        }
    }
    let mut s = String::new();
    for row in grid {
        let line: String = row.concat();
        s.push_str(line.trim_end());
        s.push('\n');
    }
    s
}

/// Collapse runs of whitespace into single spaces, for robust matching.
fn flat(md: &str) -> String {
    render(md).split_whitespace().collect::<Vec<_>>().join(" ")
}

// ---- Overview: inline HTML is preserved ----
#[test]
fn inline_html_preserved() {
    assert!(flat("a <b>bold</b> word").contains("bold"));
}

// ---- Paragraphs & line breaks ----
#[test]
fn paragraph_joins_lines() {
    // soft line breaks join into one paragraph
    assert!(flat("line one\nline two").contains("line one line two"));
}
#[test]
fn blank_line_separates_paragraphs() {
    let f = flat("first paragraph\n\nsecond paragraph");
    assert!(f.contains("first paragraph"));
    assert!(f.contains("second paragraph"));
}

// ---- Atx headers (all six levels) ----
#[test]
fn atx_headers() {
    let md = "# H1\n## H2\n### H3\n#### H4\n##### H5\n###### H6";
    let f = flat(md);
    for lvl in 1..=6 {
        let word = format!("H{}", lvl);
        assert!(f.contains(&word), "missing {}", word);
        let raw = format!("# {}", word);
        assert!(!f.contains(&raw), "raw syntax leaked: {}", raw);
    }
}

// ---- Setext headers ----
#[test]
fn setext_h1() {
    let f = flat("Title One\n===");
    assert!(f.contains("Title One"));
    assert!(!f.contains("===")); // underline consumed
}
#[test]
fn setext_h2() {
    // use '***' rule guard so '---' is unambiguously a setext underline
    let f = flat("Section\n---");
    assert!(f.contains("Section"));
}

// ---- Blockquotes (incl. nested) ----
#[test]
fn blockquote() {
    assert!(flat("> a quoted line").contains("a quoted line"));
}
#[test]
fn nested_blockquote() {
    assert!(flat("> > deeply nested").contains("deeply nested"));
}

// ---- Lists ----
#[test]
fn unordered_lists_all_markers() {
    for m in ["*", "+", "-"] {
        let md = format!("{} alpha\n{} beta", m, m);
        let f = flat(&md);
        assert!(f.contains("alpha"), "marker {} alpha", m);
        assert!(f.contains("beta"), "marker {} beta", m);
    }
}
#[test]
fn ordered_list() {
    let f = flat("1. first\n2. second\n3. third");
    assert!(f.contains("first"));
    assert!(f.contains("second"));
    assert!(f.contains("third"));
    assert!(f.contains("1."));
    assert!(f.contains("3."));
}
#[test]
fn nested_list() {
    let f = flat("- top\n  - child");
    assert!(f.contains("top"));
    assert!(f.contains("child"));
}

// ---- Indented code block ----
#[test]
fn indented_code_block() {
    let f = flat("    let x = 1;");
    assert!(f.contains("let x = 1;"));
}

// ---- Horizontal rules ----
#[test]
fn horizontal_rules_all() {
    for r in ["***", "---", "___", "* * *", "- - -"] {
        assert!(flat(r).contains("✦"), "rule {:?} not ornamented", r);
    }
}

// ---- Links ----
#[test]
fn inline_link() {
    let f = flat("see [the docs](https://example.com/docs)");
    assert!(f.contains("the docs"));
    assert!(!f.contains("[the docs]"));
    assert!(!f.contains("(https://example.com/docs)"));
}
#[test]
fn reference_link() {
    let md = "go [home][1]\n\n[1]: https://example.com";
    let f = flat(md);
    assert!(f.contains("home"));
    assert!(!f.contains("[home]"));
}
#[test]
fn implicit_reference_link() {
    let md = "visit [Example][]\n\n[Example]: https://example.com";
    assert!(flat(md).contains("Example"));
}
#[test]
fn automatic_link() {
    let f = flat("<https://example.com>");
    assert!(f.contains("example.com"));
}

// ---- Emphasis ----
#[test]
fn italic_star() {
    let f = flat("this is *italic* text");
    assert!(f.contains("italic"));
    assert!(!f.contains("*italic*"));
}
#[test]
fn italic_underscore() {
    let f = flat("this is _italic_ text");
    assert!(f.contains("italic"));
    assert!(!f.contains("_italic_"));
}
#[test]
fn bold_star() {
    let f = flat("this is **bold** text");
    assert!(f.contains("bold"));
    assert!(!f.contains("**bold**"));
}
#[test]
fn bold_underscore() {
    let f = flat("this is __bold__ text");
    assert!(f.contains("bold"));
    assert!(!f.contains("__bold__"));
}
#[test]
fn bold_italic_combined() {
    let f = flat("***both***");
    assert!(f.contains("both"));
    assert!(!f.contains("***"));
}

// ---- Inline code ----
#[test]
fn inline_code() {
    let f = flat("use `cargo run` now");
    assert!(f.contains("cargo run"));
    assert!(!f.contains("`cargo run`"));
}
#[test]
fn inline_code_multibacktick() {
    let f = flat("a ``literal ` backtick`` b");
    assert!(f.contains("literal ` backtick"));
}

// ---- Images ----
#[test]
fn image_alt_text() {
    let f = flat("![a cute cat](cat.png)");
    assert!(f.contains("a cute cat"));
    assert!(!f.contains("![a cute cat]"));
}

// ---- Backslash escapes ----
#[test]
fn backslash_escape() {
    let f = flat(r"\*not italic\*");
    assert!(f.contains("*not italic*"));
}

// ---- Automatic email link ----
#[test]
fn autolink_email() {
    let f = flat("<user@example.com>");
    assert!(f.contains("user@example.com"));
}

// ---- Fenced code block (GFM, widely expected alongside the spec) ----
#[test]
fn fenced_code_block() {
    let f = flat("```rust\nfn main() {}\n```");
    assert!(f.contains("fn main()"));
    assert!(f.contains("rust")); // language label in card
}

// ===== Examples taken from the project's other pages =====
// The "Basics" page (daringfireball.net/projects/markdown/basics) shows the
// same constructs as Syntax, but with specific before/after examples. These
// tests mirror those examples verbatim.

// Basics: a heading rendered inside a blockquote.
#[test]
fn basics_heading_inside_blockquote() {
    let f = flat("> ## This is an H2 in a blockquote");
    assert!(f.contains("This is an H2 in a blockquote"));
}

// Basics: multiple paragraphs inside one blockquote.
#[test]
fn basics_multiparagraph_blockquote() {
    let md = "> This is a blockquote.\n>\n> This is the second paragraph in the blockquote.";
    let f = flat(md);
    assert!(f.contains("This is a blockquote."));
    assert!(f.contains("second paragraph in the blockquote"));
}

// Basics: a list item with multiple paragraphs (loose list).
#[test]
fn basics_multiparagraph_list_item() {
    let md = "* A list item.\n\n  With multiple paragraphs.\n* Another item in the list.";
    let f = flat(md);
    assert!(f.contains("A list item."));
    assert!(f.contains("With multiple paragraphs."));
    assert!(f.contains("Another item in the list."));
}

// Basics: full-width setext underline (many '=' signs) is still an H1.
#[test]
fn basics_setext_full_width_underline() {
    let md = "A First Level Header\n====================";
    let f = flat(md);
    assert!(f.contains("A First Level Header"));
    assert!(!f.contains("===================="));
}

// Basics: emphasized phrase examples (asterisks + underscores, single + double).
#[test]
fn basics_phrase_emphasis_examples() {
    let md = "Some of *these* words. And _these_ too. **Strong** and __strong__.";
    let f = flat(md);
    assert!(f.contains("these"));
    assert!(f.contains("Strong"));
    assert!(f.contains("strong"));
    assert!(!f.contains("**Strong**"));
    assert!(!f.contains("__strong__"));
}

// Basics: the three unordered markers are interchangeable (same output).
#[test]
fn basics_unordered_markers_interchangeable() {
    let a = flat("* Candy.\n* Gum.\n* Booze.");
    for w in ["Candy", "Gum", "Booze"] {
        assert!(a.contains(w));
    }
}

// Basics: inline link example.
#[test]
fn basics_inline_link_example() {
    let f = flat("This is an [example link](http://example.com/).");
    assert!(f.contains("example link"));
    assert!(!f.contains("[example link]"));
}
