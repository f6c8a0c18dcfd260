use ratatui::buffer::Buffer;
use ratatui::layout::Rect;
use terra::diagram::{parse_mermaid, parse_plantuml};
use terra::diagram_paint::render_block as paint_block;
use terra::style::{Area, Paint};

/// Apply paints to a ratatui buffer, as the terminal layer does.
fn apply(buf: &mut Buffer, paints: &[Paint]) {
    for p in paints {
        if let Some(cell) = buf.cell_mut((p.x, p.y)) {
            cell.set_char(p.ch);
            if let Some(terra::style::Color::Rgb(r, g, b)) = p.style.fg {
                cell.set_fg(ratatui::style::Color::Rgb(r, g, b));
            }
        }
    }
}

fn render_block(buf: &mut Buffer, area: Rect, lang: &str, src: &str) -> usize {
    let a = Area { x: area.x, y: area.y, width: area.width, height: area.height };
    let (h, paints) = paint_block(a, buf.area.width, buf.area.height, lang, src);
    apply(buf, &paints);
    h
}

#[test]
fn mermaid_chain_parses_all_edges() {
    let d = parse_mermaid("graph LR\nA[Start] --> B[Process] --> C[End]").unwrap();
    assert_eq!(d.nodes.len(), 3, "3 nodes");
    assert_eq!(d.edges.len(), 2, "2 edges (chain)");
    assert_eq!(d.nodes[0].label, "Start");
    assert_eq!(d.nodes[2].label, "End");
}

#[test]
fn mermaid_shapes_and_labels() {
    let d = parse_mermaid("graph TD\nA[Box] --> B{Choice}\nB --> C(Round)\nB --> D((Circle))").unwrap();
    let labels: Vec<&str> = d.nodes.iter().map(|n| n.label.as_str()).collect();
    assert!(labels.contains(&"Box"));
    assert!(labels.contains(&"Choice"));
    assert!(labels.contains(&"Circle"));
    assert_eq!(d.edges.len(), 3);
}

#[test]
fn mermaid_edge_label() {
    let d = parse_mermaid("graph TD\nA -->|yes| B").unwrap();
    assert_eq!(d.edges.len(), 1);
    assert_eq!(d.edges[0].label.as_deref(), Some("yes"));
}

#[test]
fn plantuml_sequence_parses() {
    let d = parse_plantuml("@startuml\nBob -> Alice : hello\nAlice -> Bob : hi\n@enduml").unwrap();
    assert_eq!(d.nodes.len(), 2, "Bob and Alice");
    assert_eq!(d.edges.len(), 2, "two messages");
    assert_eq!(d.edges[0].label.as_deref(), Some("hello"));
}

#[test]
fn plantuml_activity_parses() {
    let d = parse_plantuml(":first step;\n:second step;").unwrap();
    assert_eq!(d.nodes.len(), 2);
    assert_eq!(d.edges.len(), 1);
}

#[test]
fn render_block_smoke_mermaid() {
    let area = Rect::new(0, 0, 80, 20);
    let mut buf = Buffer::empty(area);
    let h = render_block(&mut buf, area, "mermaid", "graph LR\nA --> B --> C");
    assert!(h > 0, "diagram should occupy rows");
    let mut found = false;
    for y in 0..area.height {
        for x in 0..area.width {
            let s = buf[(x, y)].symbol();
            if s == "┌" || s == "─" || s == "│" {
                found = true;
            }
        }
    }
    assert!(found, "box drawing should appear");
}

#[test]
fn render_block_smoke_plantuml() {
    let area = Rect::new(0, 0, 80, 20);
    let mut buf = Buffer::empty(area);
    let h = render_block(&mut buf, area, "plantuml", "Bob -> Alice : hello");
    assert!(h > 0, "plantuml diagram should occupy rows");
    let mut found = false;
    for y in 0..area.height {
        for x in 0..area.width {
            let s = buf[(x, y)].symbol();
            if s == "╭" || s == "│" || s == "─" {
                found = true;
            }
        }
    }
    assert!(found, "plantuml nodes should render as boxes");
    // node text should be present
    let mut has_bob = false;
    for y in 0..area.height {
        for x in 0..area.width {
            if buf[(x, y)].symbol() == "B" {
                has_bob = true;
            }
        }
    }
    assert!(has_bob, "'Bob' label char should appear");
}

fn render(md: &str, lang: &str) -> (Buffer, usize) {
    let area = Rect::new(0, 0, 80, 30);
    let mut buf = Buffer::empty(area);
    let h = render_block(&mut buf, area, lang, md);
    (buf, h)
}

fn buf_text(buf: &Buffer, area: Rect) -> String {
    let mut s = String::new();
    for y in 0..area.height {
        for x in 0..area.width {
            let sym = buf[(x, y)].symbol();
            if sym != " " {
                s.push_str(sym);
            }
        }
        s.push('\n');
    }
    s
}

#[test]
fn flowchart_shapes() {
    let (buf, _) = render("graph TD\nA[Rect] --> B{Diamond}\nB --> C(Round)\nB --> D((Circle))", "mermaid");
    let text = buf_text(&buf, Rect::new(0, 0, 80, 20));
    for lbl in ["Rect", "Diamond", "Round", "Circle"] {
        assert!(text.contains(lbl), "{} missing", lbl);
    }
    assert!(text.contains('╱') || text.contains('╲'), "diamond diagonals");
}

#[test]
fn flowchart_dashed() {
    let (buf, _) = render("graph TD\nA -.-> B[Dashed]\nA --> C[Solid]", "mermaid");
    let text = buf_text(&buf, Rect::new(0, 0, 80, 20));
    assert!(text.contains("Dashed"));
    assert!(text.contains("Solid"));
}

#[test]
fn cjk_labels() {
    let (buf, _) = render("graph TD\n開始 --> 終了", "mermaid");
    let text = buf_text(&buf, Rect::new(0, 0, 80, 10));
    assert!(text.contains("開始"));
    assert!(text.contains("終了"));
}

#[test]
fn empty_mermaid() {
    let _ = render("graph TD\n", "mermaid");
}

#[test]
fn garbage_input() {
    let _ = render("blah blah not mermaid", "mermaid");
}

#[test]
fn flowchart_linear_chain() {
    let (buf, h) = render("graph LR\nA[Start] --> B[Middle] --> C[End]", "mermaid");
    assert!(h > 0);
    let text = buf_text(&buf, Rect::new(0, 0, 80, 10));
    assert!(text.contains("Start"));
    assert!(text.contains("Middle"));
    assert!(text.contains("End"));
    assert!(text.contains('─'), "horizontal edge missing");
    assert!(text.contains('▶'), "arrowhead missing");
}

#[test]
fn flowchart_branch() {
    let (buf, _) = render("graph TD\nA[Root] --> B[Left]\nA --> C[Right]", "mermaid");
    let text = buf_text(&buf, Rect::new(0, 0, 80, 15));
    assert!(text.contains("Root"));
    assert!(text.contains("Left"));
    assert!(text.contains("Right"));
    assert!(text.contains('▼'), "downward arrowhead");
}

#[test]
fn flowchart_edge_labels() {
    let (buf, _) = render("graph TD\nA -->|yes| B[Yes]\nA -->|no| C[No]", "mermaid");
    let text = buf_text(&buf, Rect::new(0, 0, 80, 20));
    assert!(text.contains("yes"));
    assert!(text.contains("no"));
}

#[test]
fn flowchart_colors() {
    let (buf, _) = render("graph TD\nA[Red] --> B[Blue]\nstyle A fill:#ff5252\nstyle B fill:#2196f3", "mermaid");
    let (mut red, mut blue) = (false, false);
    for y in 0..30 {
        for x in 0..80 {
            if let Some(ratatui::style::Color::Rgb(r, g, b)) = buf[(x, y)].style().fg {
                if r == 255 && g == 82 && b == 82 { red = true; }
                if r == 33 && g == 150 && b == 243 { blue = true; }
            }
        }
    }
    assert!(red, "red node");
    assert!(blue, "blue node");
}

#[test]
fn flowchart_rl() {
    let (buf, _) = render("graph RL\nA[First] --> B[Second]", "mermaid");
    let text = buf_text(&buf, Rect::new(0, 0, 80, 10));
    assert!(text.contains("First"));
    assert!(text.contains('◀'), "left arrow for RL");
}

#[test]
fn flowchart_bt() {
    let (buf, _) = render("graph BT\nA[Bottom] --> B[Top]", "mermaid");
    let text = buf_text(&buf, Rect::new(0, 0, 80, 10));
    assert!(text.contains('▲'), "up arrow for BT");
}

#[test]
fn sequence_basic() {
    let (buf, _) = render("sequenceDiagram\nparticipant Alice\nparticipant Bob\nAlice->>Bob: Hello\nBob-->>Alice: Hi", "mermaid");
    let text = buf_text(&buf, Rect::new(0, 0, 80, 25));
    for lbl in ["Alice", "Bob", "Hello", "Hi"] {
        assert!(text.contains(lbl), "{} missing", lbl);
    }
    assert!(text.contains('┊'), "lifeline");
}

#[test]
fn state_basic() {
    let (buf, _) = render("stateDiagram-v2\n[*] --> Idle\nIdle --> Running : start\nRunning --> Done\nDone --> [*]", "mermaid");
    let text = buf_text(&buf, Rect::new(0, 0, 80, 25));
    for lbl in ["Idle", "Running", "Done", "start"] {
        assert!(text.contains(lbl), "{} missing", lbl);
    }
}

#[test]
fn class_basic() {
    let (buf, _) = render("classDiagram\nclass Animal {\n+String name\n+eat()\n}\nclass Dog {\n+bark()\n}\nAnimal <|-- Dog", "mermaid");
    let text = buf_text(&buf, Rect::new(0, 0, 80, 25));
    for lbl in ["Animal", "Dog", "name", "eat", "bark"] {
        assert!(text.contains(lbl), "{} missing", lbl);
    }
}

#[test]
fn clipped_to_area() {
    let area = Rect::new(10, 5, 20, 8);
    let mut buf = Buffer::empty(Rect::new(0, 0, 80, 30));
    let _ = render_block(&mut buf, area, "mermaid", "graph TD\nA[Start] --> B[End]");
    for y in 0..30 {
        for x in 0..80 {
            if x >= 10 && x < 30 && y >= 5 && y < 13 { continue; }
            assert_eq!(buf[(x, y)].symbol(), " ", "leaked at ({},{})", x, y);
        }
    }
}

#[test]
fn complex_flowchart() {
    let src = "\
graph TD
    A[Request] --> B{Auth?}
    B -->|valid| C[Process]
    B -->|invalid| D[Reject]
    C --> E[(Database)]
    E --> F[Response]
    D --> F
    style A fill:#4caf50
    style D fill:#f44336
    style E fill:#ff9800";
    let (buf, h) = render(src, "mermaid");
    assert!(h > 5, "complex diagram should be tall enough");
    let text = buf_text(&buf, Rect::new(0, 0, 80, 30));
    for lbl in ["Request", "Auth?", "Process", "Reject", "Database", "Response", "valid", "invalid"] {
        assert!(text.contains(lbl), "complex: {} missing", lbl);
    }
}

#[test]
fn shape_brackets_consume_their_closers() {
    let d = parse_mermaid("graph TD\nA((ab))-->B([st])-->C[(db)]").unwrap();
    assert_eq!(d.nodes.len(), 3);
    assert_eq!(d.edges.len(), 2);
    assert_eq!(d.nodes[0].label, "ab");
    assert_eq!(d.nodes[1].label, "st");
    assert_eq!(d.nodes[2].label, "db");
}

#[test]
fn laid_out_boxes_do_not_overlap() {
    let area = Rect::new(0, 0, 120, 60);
    let mut buf = Buffer::empty(area);
    let h = render_block(&mut buf, area, "mermaid", "graph TD\nA --> B\nA --> C\nA --> D\nB --> E");
    assert!(h > 0);
    let text = buf_text(&buf, area);
    for lbl in ["A", "B", "C", "D", "E"] {
        assert!(text.contains(lbl));
    }
}

#[test]
fn very_long_label_is_still_drawn() {
    let label = "x".repeat(20000);
    let src = format!("graph TD\nA[{}] --> B[End]", label);
    let area = Rect::new(0, 0, 80, 30);
    let mut buf = Buffer::empty(area);
    let h = render_block(&mut buf, area, "mermaid", &src);
    assert!(h > 0);
    let text = buf_text(&buf, area);
    assert!(text.contains('┌'));
    assert!(text.contains("End"));
}

#[test]
fn layout_follows_edges_and_keeps_boxes_apart() {
    let mut d = parse_mermaid("graph TD\nA --> B\nB --> C\nA --> D").unwrap();
    terra::diagram::layout(&mut d, 80);
    let n = &d.nodes;
    assert!(n[0].y + n[0].h < n[1].y);
    assert!(n[1].y + n[1].h < n[2].y);
    assert!(n[0].y + n[0].h < n[3].y);
    assert!(n[1].x + n[1].w <= n[3].x || n[3].x + n[3].w <= n[1].x);
    let mut r = parse_mermaid("graph RL\nA --> B").unwrap();
    terra::diagram::layout(&mut r, 80);
    assert!(r.nodes[1].x + r.nodes[1].w < r.nodes[0].x);
}

#[test]
fn layout_sizes_a_very_long_label() {
    let label = "y".repeat(20000);
    let mut d = parse_mermaid(&format!("graph LR\nA[{}] --> B", label)).unwrap();
    terra::diagram::layout(&mut d, 80);
    assert_eq!(d.nodes[0].w, 20004);
    assert!(d.nodes[0].x + d.nodes[0].w < d.nodes[1].x);
}
