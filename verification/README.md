# terra

A terminal Markdown editor with a live, side-by-side preview. The editing
core, the preview renderer, the diagram renderer and the window's text are a
library verified with Verus; `app/` holds the terminal loop, file I/O, the
clipboard and the ratatui drawing around it.

## Layout

- `src/buffer.rs`, `src/buffer_laws.rs` — the text buffer: editing, motion,
  smart lists, undo/redo, and the laws that relate them.
- `src/app.rs`, `src/wrap.rs`, `src/keys.rs` — the editor state, soft wrapping,
  and what each key press or mouse event does (and what the terminal must do
  after it).
- `src/editor_view.rs`, `src/ui_text.rs`, `src/layout.rs`, `src/dump.rs` —
  what the editor pane, title bar, status bar and outline show; the window
  layout; the headless frame dump.
- `src/md_events.rs`, `src/preview*.rs`, `src/pretty.rs`, `src/syntax.rs` —
  Markdown parsing (pulldown-cmark), code highlighting (syntect) and the
  painted preview.
- `src/markdown.rs` — Markdown as a list of styled lines.
- `src/diagram.rs`, `src/diagram_paint.rs` — Mermaid flowcharts (any
  direction, with styles), state, class and sequence diagrams, and PlantUML:
  parsing, layout and drawing.
- `src/text.rs`, `src/num.rs`, `src/chars.rs`, `src/style.rs` — shared text,
  number, character and style helpers.

Calls into outside crates stand behind small trusted functions whose
contracts name what the call returns; everything around them is verified.
