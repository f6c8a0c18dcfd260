//! Markdown parsing with pulldown-cmark: the parser's events, one for one,
//! as the plain values that the preview reads.

use vstd::prelude::*;
use pulldown_cmark::{CodeBlockKind, Event, Options, Parser, Tag as PTag, TagEnd as PTagEnd};
use crate::preview::{MdEvent, Tag, TagEnd};

verus! {

#[verifier::external_type_specification]
#[verifier::external_body]
pub struct ExEvent<'a>(Event<'a>);

#[verifier::external_type_specification]
#[verifier::external_body]
pub struct ExTag<'a>(PTag<'a>);

#[verifier::external_type_specification]
#[verifier::external_body]
pub struct ExTagEnd(PTagEnd);

/// The events that pulldown-cmark gives for a Markdown source, with the
/// extensions for tables, strikethrough, task lists and footnotes enabled or
/// not as the flags say.
pub uninterp spec fn markdown_events(src: Seq<char>, tables: bool, strikethrough: bool, tasklists: bool, footnotes: bool) -> Seq<MdEvent>;

/// pulldown-cmark `Parser::new_ext` with tables, strikethrough, task lists
/// and footnotes enabled (and no other option), its events taken in order,
/// each converted one for one. The result is named `markdown_events`, a
/// function of the source and those options.
#[verifier::external_body]
pub fn parse_markdown(src: &str) -> (evs: Vec<MdEvent>)
    ensures
        evs@ == markdown_events(src@, true, true, true, true),
{
    let opts = Options::ENABLE_TABLES | Options::ENABLE_STRIKETHROUGH | Options::ENABLE_TASKLISTS | Options::ENABLE_FOOTNOTES;
    let mut out = Vec::new();
    for e in Parser::new_ext(src, opts) {
        out.push(event_of(e));
    }
    out
}

/// A pulldown-cmark event as an `MdEvent`, variant for variant; math
/// events (not enabled) become `Other`. Nothing is claimed of the result.
#[verifier::external_body]
fn event_of(e: Event<'_>) -> MdEvent {
    match e {
        Event::Start(t) => MdEvent::Start(tag_of(t)),
        Event::End(t) => MdEvent::End(tag_end_of(t)),
        Event::Text(t) => MdEvent::Text(t.into_string()),
        Event::Code(t) => MdEvent::Code(t.into_string()),
        Event::Html(t) => MdEvent::Html(t.into_string()),
        Event::InlineHtml(t) => MdEvent::InlineHtml(t.into_string()),
        Event::FootnoteReference(t) => MdEvent::FootnoteReference(t.into_string()),
        Event::SoftBreak => MdEvent::SoftBreak,
        Event::HardBreak => MdEvent::HardBreak,
        Event::Rule => MdEvent::Rule,
        Event::TaskListMarker(b) => MdEvent::TaskListMarker(b),
        _ => MdEvent::Other,
    }
}

/// A pulldown-cmark block tag as a `Tag`: the heading level as its number,
/// a fenced code block with its language (an indented one with none); inline
/// tags go to `inline_tag_of`. Nothing is claimed of the result.
#[verifier::external_body]
fn tag_of(t: PTag<'_>) -> Tag {
    match t {
        PTag::Paragraph => Tag::Paragraph,
        PTag::Heading { level, .. } => Tag::Heading(level as u8),
        PTag::BlockQuote(_) => Tag::BlockQuote,
        PTag::CodeBlock(CodeBlockKind::Fenced(l)) => Tag::CodeBlock(l.into_string()),
        PTag::CodeBlock(CodeBlockKind::Indented) => Tag::CodeBlock(String::new()),
        PTag::List(start) => Tag::List(start),
        PTag::Item => Tag::Item,
        PTag::FootnoteDefinition(l) => Tag::FootnoteDefinition(l.into_string()),
        PTag::Table(_) => Tag::Table,
        PTag::TableHead => Tag::TableHead,
        PTag::TableRow => Tag::TableRow,
        PTag::TableCell => Tag::TableCell,
        other => inline_tag_of(other),
    }
}

/// A pulldown-cmark inline tag as a `Tag`; the rest (HTML blocks,
/// definition lists, metadata) become `Other`. Nothing is claimed of the
/// result.
#[verifier::external_body]
fn inline_tag_of(t: PTag<'_>) -> Tag {
    match t {
        PTag::Emphasis => Tag::Emphasis,
        PTag::Strong => Tag::Strong,
        PTag::Strikethrough => Tag::Strikethrough,
        PTag::Link { .. } => Tag::Link,
        PTag::Image { .. } => Tag::Image,
        _ => Tag::Other,
    }
}

/// A pulldown-cmark block end as a `TagEnd`, the heading level as its
/// number; inline ends go to `inline_end_of`. Nothing is claimed of the
/// result.
#[verifier::external_body]
fn tag_end_of(t: PTagEnd) -> TagEnd {
    match t {
        PTagEnd::Paragraph => TagEnd::Paragraph,
        PTagEnd::Heading(level) => TagEnd::Heading(level as u8),
        PTagEnd::BlockQuote(_) => TagEnd::BlockQuote,
        PTagEnd::CodeBlock => TagEnd::CodeBlock,
        PTagEnd::List(_) => TagEnd::List,
        PTagEnd::Item => TagEnd::Item,
        PTagEnd::FootnoteDefinition => TagEnd::FootnoteDefinition,
        PTagEnd::Table => TagEnd::Table,
        PTagEnd::TableHead => TagEnd::TableHead,
        PTagEnd::TableRow => TagEnd::TableRow,
        PTagEnd::TableCell => TagEnd::TableCell,
        other => inline_end_of(other),
    }
}

/// A pulldown-cmark inline end as a `TagEnd`; the rest become `Other`.
/// Nothing is claimed of the result.
#[verifier::external_body]
fn inline_end_of(t: PTagEnd) -> TagEnd {
    match t {
        PTagEnd::Emphasis => TagEnd::Emphasis,
        PTagEnd::Strong => TagEnd::Strong,
        PTagEnd::Strikethrough => TagEnd::Strikethrough,
        PTagEnd::Link => TagEnd::Link,
        PTagEnd::Image => TagEnd::Image,
        _ => TagEnd::Other,
    }
}

} // verus!
