//! terra: the editing core, layout rules, diagram parsing and rendering
//! decisions of a terminal Markdown editor, with their contracts.

pub mod text;
pub mod num;
pub mod chars;
pub mod buffer;
pub mod buffer_laws;
pub mod style;
pub mod wrap;
pub mod app;
pub mod diagram;
pub mod diagram_paint;
pub mod keys;
pub mod preview_style;
pub mod preview_paint;
pub mod preview_blocks;
pub mod preview_boxes;
pub mod preview;
pub mod syntax;
pub mod md_events;
pub mod pretty;
pub mod markdown;
pub mod editor_view;
pub mod ui_text;
pub mod layout;
pub mod dump;
