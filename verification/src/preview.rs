//! The Markdown preview: from parser events to painted blocks. The parser's
//! events come in as plain values; blocks are collected with their inline
//! formatting and painted as they close.

use vstd::prelude::*;
use crate::style::{Area, Color, Paint, Style};
use crate::preview_style::{pal, pal_of, space_split, split_tokens, tokens_view, wrapped, CellSpec, Fmt, Token};
use crate::preview_paint::{advance, clip_op, clip_ops, sadd, Painter, PaintOp, RawOp};
use crate::preview_blocks::{marker_of, footnote, footnote_ops, heading, heading_ops, list_item, list_item_ops, paragraph, paragraph_ops, rows_upto, rule, rule_ops, ListInfo};
use crate::preview_boxes::{cells_view, code_card, code_card_ops, code_lines_upto, col_widths, hl_view, max_cols_upto, table, table_ops, table_rows_upto, Region};
use crate::text::{chars_of, push_char, text_lines, trail_char, views};
use crate::num::decimal;

verus! {

/// The start of a Markdown element, as the parser reports it.
#[derive(Debug)]
pub enum Tag {
    Paragraph,
    Heading(u8),
    /// A code block and its language (empty when it has none).
    CodeBlock(String),
    /// A list and the number of its first item, if ordered.
    List(Option<u64>),
    Item,
    Emphasis,
    Strong,
    Strikethrough,
    Link,
    Image,
    BlockQuote,
    Table,
    TableHead,
    TableRow,
    TableCell,
    /// A footnote definition and its label.
    FootnoteDefinition(String),
    Other,
}

/// The end of a Markdown element.
#[derive(Clone, Copy, PartialEq, Eq, Structural, Debug)]
pub enum TagEnd {
    Paragraph,
    Heading(u8),
    CodeBlock,
    List,
    Item,
    Emphasis,
    Strong,
    Strikethrough,
    Link,
    Image,
    BlockQuote,
    Table,
    TableHead,
    TableRow,
    TableCell,
    FootnoteDefinition,
    Other,
}

/// A Markdown parser event.
#[derive(Debug)]
pub enum MdEvent {
    Start(Tag),
    End(TagEnd),
    Text(String),
    Code(String),
    SoftBreak,
    HardBreak,
    Rule,
    TaskListMarker(bool),
    FootnoteReference(String),
    Html(String),
    InlineHtml(String),
    Other,
}

/// A block whose text is being collected.
#[derive(Clone, Copy, PartialEq, Eq, Structural, Debug)]
pub enum Block {
    Paragraph,
    Heading(u8),
    Item,
    FootnoteDef,
}

/// The collecting state: inline formats in effect, open lists, the tokens
/// of open blocks, a pending task marker, the table being read, and the code
/// block being read.
pub struct Ctx {
    pub styles: Vec<Fmt>,
    pub list_stack: Vec<ListInfo>,
    pub tok_stack: Vec<Vec<Token>>,
    pub block_stack: Vec<Block>,
    pub quote_depth: usize,
    pub task_pending: Option<bool>,
    pub table: Vec<Vec<String>>,
    pub pending_code: String,
    pub code_lang: String,
    pub in_code: bool,
    pub code_ix: usize,
}

/// The abstract collecting state.
#[verifier::ext_equal]
pub struct CtxV {
    pub styles: Seq<Fmt>,
    pub lists: Seq<ListInfo>,
    pub toks: Seq<Seq<(Seq<char>, Fmt)>>,
    pub blocks: Seq<Block>,
    pub qd: int,
    pub task: Option<bool>,
    pub table: Seq<Seq<Seq<char>>>,
    pub code: Seq<char>,
    pub lang: Seq<char>,
    pub in_code: bool,
    pub code_ix: int,
}

impl Ctx {
    pub open spec fn view(&self) -> CtxV {
        CtxV {
            styles: self.styles@,
            lists: self.list_stack@,
            toks: self.tok_stack@.map_values(|t: Vec<Token>| tokens_view(t@)),
            blocks: self.block_stack@,
            qd: self.quote_depth as int,
            task: self.task_pending,
            table: cells_view(self.table@),
            code: self.pending_code@,
            lang: self.code_lang@,
            in_code: self.in_code,
            code_ix: self.code_ix as int,
        }
    }
}

/// The formats in effect, combined.
pub open spec fn cur_fmt(styles: Seq<Fmt>) -> Fmt
    decreases styles.len(),
{
    if styles.len() == 0 {
        Fmt::plain_spec()
    } else {
        let f = cur_fmt(styles.drop_last());
        let s = styles.last();
        Fmt {
            bold: f.bold || s.bold,
            italic: f.italic || s.italic,
            strike: f.strike || s.strike,
            code: f.code || s.code,
            link: f.link || s.link,
        }
    }
}

/// Text goes into the open table cell when a table row has a cell and no
/// paragraph or item is open.
pub open spec fn into_cell(c: CtxV) -> bool {
    &&& c.table.len() > 0
    &&& (c.blocks.len() == 0 || !(c.blocks.last() == Block::Paragraph || c.blocks.last() == Block::Item))
    &&& c.table.last().len() > 0
}

/// Text arrives: into the open table cell, or as words in the current format
/// onto the innermost open block.
pub open spec fn push_text_spec(c: CtxV, s: Seq<char>) -> CtxV {
    if into_cell(c) {
        let row = c.table.last();
        CtxV {
            table: c.table.update(c.table.len() - 1, row.update(row.len() - 1, row.last() + s)),
            ..c
        }
    } else if c.toks.len() > 0 {
        let f = cur_fmt(c.styles);
        let words = space_split(s).map_values(|p: Seq<char>| (p, f));
        CtxV { toks: c.toks.update(c.toks.len() - 1, c.toks.last() + words), ..c }
    } else {
        c
    }
}

/// A line break inside a block.
pub open spec fn soft_break_spec(c: CtxV) -> CtxV {
    if c.toks.len() > 0 {
        CtxV {
            toks: c.toks.update(c.toks.len() - 1, c.toks.last().push((seq!['\n'], Fmt::plain_spec()))),
            ..c
        }
    } else {
        c
    }
}

/// Open a block.
pub open spec fn begin_spec(c: CtxV, b: Block) -> CtxV {
    CtxV { toks: c.toks.push(Seq::empty()), blocks: c.blocks.push(b), ..c }
}

pub open spec fn with_style(c: CtxV, f: Fmt) -> CtxV {
    CtxV { styles: c.styles.push(f), ..c }
}

pub open spec fn fmt_of(bold: bool, italic: bool, strike: bool, code: bool, link: bool) -> Fmt {
    Fmt { bold, italic, strike, code, link }
}

/// The saturating difference.
pub open spec fn sat_sub(a: int, b: int) -> int {
    if a >= b { a - b } else { 0 }
}

/// The list level around an item, if any.
pub open spec fn last_list(c: CtxV) -> Option<ListInfo> {
    if c.lists.len() > 0 { Some(c.lists.last()) } else { None }
}

/// An element starts: open its block or format, or start reading a code
/// block, list, quote or table. A list that starts inside an item first
/// paints the item's text so far.
pub open spec fn start_spec(c: CtxV, tag: Tag, pt: Painter, y: int) -> (CtxV, Seq<RawOp>, int) {
    match tag {
        Tag::Paragraph => (begin_spec(c, Block::Paragraph), Seq::empty(), y),
        Tag::Heading(l) => (begin_spec(c, Block::Heading(l)), Seq::empty(), y),
        Tag::CodeBlock(lang) => (CtxV { code: Seq::empty(), lang: lang@, in_code: true, ..c }, Seq::empty(), y),
        Tag::List(start) => {
            let flush = c.blocks.len() > 0 && c.blocks.last() == Block::Item && c.toks.len() > 0
                && c.toks.last().len() > 0;
            let info = ListInfo {
                ordered: start is Some,
                counter: match start {
                    Some(n) => n,
                    None => 1,
                },
            };
            if flush {
                let (o, y2) = list_item_ops(pt, y, c.toks.last(), last_list(c), sat_sub(c.lists.len() as int, 1), None);
                (
                    CtxV { toks: c.toks.update(c.toks.len() - 1, Seq::empty()), lists: c.lists.push(info), ..c },
                    o,
                    y2,
                )
            } else {
                (CtxV { lists: c.lists.push(info), ..c }, Seq::empty(), y)
            }
        },
        Tag::Item => (begin_spec(c, Block::Item), Seq::empty(), y),
        Tag::Emphasis => (with_style(c, fmt_of(false, true, false, false, false)), Seq::empty(), y),
        Tag::Strong => (with_style(c, fmt_of(true, false, false, false, false)), Seq::empty(), y),
        Tag::Strikethrough => (with_style(c, fmt_of(false, false, true, false, false)), Seq::empty(), y),
        Tag::Link | Tag::Image => (with_style(c, fmt_of(false, false, false, false, true)), Seq::empty(), y),
        Tag::BlockQuote => (CtxV { qd: if c.qd < usize::MAX { c.qd + 1 } else { c.qd }, ..c }, Seq::empty(), y),
        Tag::Table => (CtxV { table: Seq::empty(), ..c }, Seq::empty(), y),
        Tag::TableHead | Tag::TableRow => (CtxV { table: c.table.push(Seq::empty()), ..c }, Seq::empty(), y),
        Tag::TableCell => if c.table.len() > 0 {
            (CtxV { table: c.table.update(c.table.len() - 1, c.table.last().push(Seq::empty())), ..c }, Seq::empty(), y)
        } else {
            (c, Seq::empty(), y)
        },
        Tag::FootnoteDefinition(_) => (begin_spec(c, Block::FootnoteDef), Seq::empty(), y),
        Tag::Other => (c, Seq::empty(), y),
    }
}

/// The tokens of the innermost block, taken off the stack (none when no
/// block is open), and the state without that block.
pub open spec fn pop_block(c: CtxV) -> (CtxV, Seq<(Seq<char>, Fmt)>) {
    let toks = if c.toks.len() > 0 { c.toks.last() } else { Seq::empty() };
    (
        CtxV {
            toks: if c.toks.len() > 0 { c.toks.drop_last() } else { c.toks },
            blocks: if c.blocks.len() > 0 { c.blocks.drop_last() } else { c.blocks },
            ..c
        },
        toks,
    )
}

/// An element ends: paint the block it closes (paragraph, heading, code
/// card, list item, table, footnote), close its format, list or quote; a
/// list or quote that ends at the outermost level leaves a blank row.
pub open spec fn end_spec(c: CtxV, tag: TagEnd, pt: Painter, y: int, hls: Seq<Option<Seq<Seq<((u8, u8, u8, u8), Seq<char>)>>>>) -> (CtxV, Seq<RawOp>, int) {
    match tag {
        TagEnd::Paragraph => if c.blocks.len() > 0 && c.blocks.last() == Block::Paragraph {
            let (c2, toks) = pop_block(c);
            let (o, y2) = paragraph_ops(pt, y, toks, c.qd);
            (c2, o, y2)
        } else {
            (c, Seq::empty(), y)
        },
        TagEnd::Heading(level) => if c.blocks.len() > 0 && c.blocks.last() is Heading {
            let (c2, toks) = pop_block(c);
            let (o, y2) = heading_ops(pt, y, toks, level as int);
            (c2, o, y2)
        } else {
            (c, Seq::empty(), y)
        },
        TagEnd::CodeBlock => {
            let hl = if c.code_ix < hls.len() { hls[c.code_ix] } else { None };
            let (o, y2) = code_card_ops(pt, y, c.lang, c.code, hl);
            (CtxV { code: Seq::empty(), in_code: false, code_ix: if c.code_ix < usize::MAX { c.code_ix + 1 } else { c.code_ix }, ..c }, o, y2)
        },
        TagEnd::List => {
            let c2 = CtxV { lists: if c.lists.len() > 0 { c.lists.drop_last() } else { c.lists }, ..c };
            if c2.lists.len() == 0 {
                (c2, Seq::empty(), sadd(y, 1))
            } else {
                (c2, Seq::empty(), y)
            }
        },
        TagEnd::Item => {
            let (c2, toks) = pop_block(c);
            let (o, y2) = if toks.len() > 0 {
                list_item_ops(pt, y, toks, last_list(c2), sat_sub(c2.lists.len() as int, 1), c2.task)
            } else {
                (Seq::empty(), y)
            };
            let lists = if c2.lists.len() > 0 {
                let l = c2.lists.last();
                c2.lists.update(c2.lists.len() - 1, ListInfo { counter: if l.counter < u64::MAX { (l.counter + 1) as u64 } else { l.counter }, ..l })
            } else {
                c2.lists
            };
            (CtxV { task: None, lists, ..c2 }, o, y2)
        },
        TagEnd::Emphasis | TagEnd::Strong | TagEnd::Strikethrough | TagEnd::Link | TagEnd::Image => (
            CtxV { styles: if c.styles.len() > 0 { c.styles.drop_last() } else { c.styles }, ..c },
            Seq::empty(),
            y,
        ),
        TagEnd::BlockQuote => {
            let qd = if c.qd > 0 { c.qd - 1 } else { 0 };
            (CtxV { qd, ..c }, Seq::empty(), if qd == 0 { sadd(y, 1) } else { y })
        },
        TagEnd::Table => {
            let (o, y2) = table_ops(pt, y, c.table);
            (CtxV { table: Seq::empty(), ..c }, o, y2)
        },
        TagEnd::FootnoteDefinition => {
            let (c2, toks) = pop_block(c);
            let (o, y2) = footnote_ops(pt, y, toks);
            (c2, o, y2)
        },
        TagEnd::TableHead | TagEnd::TableRow | TagEnd::TableCell | TagEnd::Other => (c, Seq::empty(), y),
    }
}

/// One event: elements start and end; text goes into the code block being
/// read or onto the open block; inline code and footnote references are
/// text in their own format; a break is a newline token; a rule is painted;
/// a task marker waits for its item.
pub open spec fn event_spec(c: CtxV, ev: MdEvent, pt: Painter, y: int, hls: Seq<Option<Seq<Seq<((u8, u8, u8, u8), Seq<char>)>>>>) -> (CtxV, Seq<RawOp>, int) {
    match ev {
        MdEvent::Start(tag) => start_spec(c, tag, pt, y),
        MdEvent::End(tag) => end_spec(c, tag, pt, y, hls),
        MdEvent::Text(t) => if c.in_code {
            (CtxV { code: c.code + t@, ..c }, Seq::empty(), y)
        } else {
            (push_text_spec(c, t@), Seq::empty(), y)
        },
        MdEvent::Code(t) => {
            let c2 = push_text_spec(with_style(c, fmt_of(false, false, false, true, false)), t@);
            (CtxV { styles: c2.styles.drop_last(), ..c2 }, Seq::empty(), y)
        },
        MdEvent::SoftBreak | MdEvent::HardBreak => (soft_break_spec(c), Seq::empty(), y),
        MdEvent::Rule => {
            let (o, y2) = rule_ops(pt, y);
            (c, o, y2)
        },
        MdEvent::TaskListMarker(b) => (CtxV { task: Some(b), ..c }, Seq::empty(), y),
        MdEvent::FootnoteReference(t) => {
            let c2 = push_text_spec(with_style(c, fmt_of(false, false, false, false, true)), "[¹"@ + t@ + "]"@);
            (CtxV { styles: c2.styles.drop_last(), ..c2 }, Seq::empty(), y)
        },
        MdEvent::Html(t) | MdEvent::InlineHtml(t) => (push_text_spec(c, t@), Seq::empty(), y),
        MdEvent::Other => (c, Seq::empty(), y),
    }
}


/// The state before the first event.
pub open spec fn ctx_init() -> CtxV {
    CtxV {
        styles: Seq::empty(),
        lists: Seq::empty(),
        toks: Seq::empty(),
        blocks: Seq::empty(),
        qd: 0,
        task: None,
        table: Seq::empty(),
        code: Seq::empty(),
        lang: Seq::empty(),
        in_code: false,
        code_ix: 0,
    }
}

/// Append the characters of `s` to `dst`.
fn append(dst: &mut String, s: &str)
    ensures
        final(dst)@ == old(dst)@ + s@,
{
    let cs = chars_of(s);
    let mut i: usize = 0;
    while i < cs.len()
        invariant
            i <= cs@.len(),
            cs@ == s@,
            dst@ == old(dst)@ + s@.take(i as int),
        decreases cs.len() - i,
    {
        push_char(dst, cs[i]);
        proof {
            assert(s@.take(i as int + 1) =~= s@.take(i as int).push(cs@[i as int]));
        }
        i += 1;
    }
    assert(s@.take(s@.len() as int) =~= s@);
}

/// Nothing painted: the painter leads to itself.
proof fn lemma_stay(a: Painter)
    ensures
        a.leads_to(a, Seq::empty(), a.y as int),
{
    assert(a.out@ =~= a.out@ + clip_ops(Seq::empty(), a.area, a.scroll as int));
}

impl Ctx {
    /// The empty state.
    pub fn new() -> (c: Ctx)
        ensures
            c@ == ctx_init(),
    {
        let c = Ctx {
            styles: Vec::new(),
            list_stack: Vec::new(),
            tok_stack: Vec::new(),
            block_stack: Vec::new(),
            quote_depth: 0,
            task_pending: None,
            table: Vec::new(),
            pending_code: String::new(),
            code_lang: String::new(),
            in_code: false,
            code_ix: 0,
        };
        assert(c@.toks =~= Seq::<Seq<(Seq<char>, Fmt)>>::empty());
        assert(c@.table =~= Seq::<Seq<Seq<char>>>::empty());
        assert(c@ =~= ctx_init());
        c
    }

    /// The formats in effect, combined.
    fn current_fmt(&self) -> (f: Fmt)
        ensures
            f == cur_fmt(self.styles@),
    {
        let mut f = Fmt::plain();
        let mut i: usize = 0;
        assert(self.styles@.take(0) =~= Seq::<Fmt>::empty());
        while i < self.styles.len()
            invariant
                i <= self.styles@.len(),
                f == cur_fmt(self.styles@.take(i as int)),
            decreases self.styles.len() - i,
        {
            let s = self.styles[i];
            f = Fmt {
                bold: f.bold || s.bold,
                italic: f.italic || s.italic,
                strike: f.strike || s.strike,
                code: f.code || s.code,
                link: f.link || s.link,
            };
            proof {
                let t = self.styles@.take(i as int + 1);
                assert(t.drop_last() =~= self.styles@.take(i as int));
                assert(t.last() == s);
            }
            i += 1;
        }
        assert(self.styles@.take(self.styles@.len() as int) =~= self.styles@);
        f
    }

    /// Text arrives (see `push_text_spec`).
    fn push_text(&mut self, s: &str)
        ensures
            final(self)@ == push_text_spec(old(self)@, s@),
    {
        let ghost c = self@;
        let nt = self.table.len();
        let nb = self.block_stack.len();
        let free = nb == 0 || !(self.block_stack[nb - 1] == Block::Paragraph || self.block_stack[nb - 1] == Block::Item);
        if nt > 0 && free && self.table[nt - 1].len() > 0 {
            let mut row = self.table.pop().unwrap();
            let mut cell = row.pop().unwrap();
            append(&mut cell, s);
            row.push(cell);
            self.table.push(row);
            proof {
                let r0 = c.table.last();
                assert(crate::text::views(row@) =~= r0.update(r0.len() - 1, r0.last() + s@));
                assert(self@.table =~= c.table.update(c.table.len() - 1, r0.update(r0.len() - 1, r0.last() + s@)));
                assert(self@ =~= push_text_spec(c, s@));
            }
            return;
        }
        let nk = self.tok_stack.len();
        if nk > 0 {
            let f = self.current_fmt();
            let words = split_tokens(s);
            let mut top = self.tok_stack.pop().unwrap();
            let ghost t0 = tokens_view(top@);
            let ghost ws = space_split(s@).map_values(|p: Seq<char>| (p, f));
            let mut i: usize = 0;
            while i < words.len()
                invariant
                    i <= words@.len(),
                    views(words@) == space_split(s@),
                    ws == space_split(s@).map_values(|p: Seq<char>| (p, f)),
                    tokens_view(top@) == t0 + ws.take(i as int),
                decreases words.len() - i,
            {
                let w = words[i].clone();
                let ghost prev = top@;
                top.push(Token { s: w, f });
                proof {
                    assert(views(words@)[i as int] == words@[i as int]@);
                    assert(ws[i as int] == (w@, f));
                    assert(tokens_view(top@) =~= tokens_view(prev).push((w@, f)));
                    assert(ws.take(i as int + 1) =~= ws.take(i as int).push(ws[i as int]));
                    assert(tokens_view(top@) =~= t0 + ws.take(i as int + 1));
                }
                i += 1;
            }
            self.tok_stack.push(top);
            proof {
                assert(ws.take(ws.len() as int) =~= ws);
                assert(self@.toks =~= c.toks.update(c.toks.len() - 1, c.toks.last() + ws));
                assert(self@ =~= push_text_spec(c, s@));
            }
        } else {
            assert(self@ =~= push_text_spec(c, s@));
        }
    }

    /// A line break inside a block (see `soft_break_spec`).
    fn soft_break(&mut self)
        ensures
            final(self)@ == soft_break_spec(old(self)@),
    {
        let ghost c = self@;
        if self.tok_stack.len() > 0 {
            let mut top = self.tok_stack.pop().unwrap();
            proof {
                reveal_strlit("\n");
            }
            let nl = String::from_str("\n");
            let ghost prev = top@;
            assert(tokens_view(prev) == c.toks.last());
            assert(nl@ =~= seq!['\n']);
            top.push(Token { s: nl, f: Fmt::plain() });
            self.tok_stack.push(top);
            proof {
                assert(tokens_view(top@) =~= c.toks.last().push((seq!['\n'], Fmt::plain_spec())));
                assert(self@.toks =~= c.toks.update(c.toks.len() - 1, c.toks.last().push((seq!['\n'], Fmt::plain_spec()))));
            }
        }
        assert(self@ =~= soft_break_spec(c));
    }

    /// Open a block (see `begin_spec`).
    fn begin(&mut self, b: Block)
        ensures
            final(self)@ == begin_spec(old(self)@, b),
    {
        let ghost c = self@;
        self.tok_stack.push(Vec::new());
        self.block_stack.push(b);
        proof {
            assert(tokens_view(Seq::<Token>::empty()) =~= Seq::<(Seq<char>, Fmt)>::empty());
            assert(self@.toks =~= c.toks.push(Seq::empty()));
            assert(self@ =~= begin_spec(c, b));
        }
    }
}


/// The highlighted lines handed in for each code block, as plain values.
pub open spec fn hls_view(h: Seq<Option<Vec<Vec<Region>>>>) -> Seq<Option<Seq<Seq<((u8, u8, u8, u8), Seq<char>)>>>> {
    h.map_values(|x: Option<Vec<Vec<Region>>>| hl_view(x))
}

impl Ctx {
    /// An element starts (see `start_spec`).
    fn start(&mut self, tag: &Tag, pt: &mut Painter)
        requires
            old(pt).ok(),
        ensures
            final(self)@ == start_spec(old(self)@, *tag, *old(pt), old(pt).y as int).0,
            old(pt).leads_to(
                *final(pt),
                start_spec(old(self)@, *tag, *old(pt), old(pt).y as int).1,
                start_spec(old(self)@, *tag, *old(pt), old(pt).y as int).2,
            ),
    {
        let ghost c = self@;
        let ghost a = *pt;
        proof {
            lemma_stay(a);
        }
        match tag {
            Tag::Paragraph => self.begin(Block::Paragraph),
            Tag::Heading(l) => self.begin(Block::Heading(*l)),
            Tag::CodeBlock(lang) => {
                self.pending_code = String::new();
                self.code_lang = lang.clone();
                self.in_code = true;
                assert(self@ =~= start_spec(c, *tag, a, a.y as int).0);
            },
            Tag::List(start) => {
                let nb = self.block_stack.len();
                let nk = self.tok_stack.len();
                let flush = nb > 0 && self.block_stack[nb - 1] == Block::Item && nk > 0
                    && self.tok_stack[nk - 1].len() > 0;
                let info = ListInfo {
                    ordered: start.is_some(),
                    counter: match start {
                        Some(n) => *n,
                        None => 1,
                    },
                };
                if flush {
                    let toks = self.tok_stack.pop().unwrap();
                    self.tok_stack.push(Vec::new());
                    let nl = self.list_stack.len();
                    let li = if nl > 0 { Some(self.list_stack[nl - 1]) } else { None };
                    let depth = if nl > 0 { nl - 1 } else { 0 };
                    assert(tokens_view(toks@) == c.toks.last());
                    list_item(pt, &toks, li, depth, None);
                    self.list_stack.push(info);
                    proof {
                        assert(tokens_view(Seq::<Token>::empty()) =~= Seq::<(Seq<char>, Fmt)>::empty());
                        assert(self@.toks =~= c.toks.update(c.toks.len() - 1, Seq::empty()));
                        assert(self@ =~= start_spec(c, *tag, a, a.y as int).0);
                    }
                } else {
                    self.list_stack.push(info);
                    assert(self@ =~= start_spec(c, *tag, a, a.y as int).0);
                }
            },
            Tag::Item => self.begin(Block::Item),
            Tag::Emphasis => {
                self.styles.push(Fmt { bold: false, italic: true, strike: false, code: false, link: false });
                assert(self@ =~= start_spec(c, *tag, a, a.y as int).0);
            },
            Tag::Strong => {
                self.styles.push(Fmt { bold: true, italic: false, strike: false, code: false, link: false });
                assert(self@ =~= start_spec(c, *tag, a, a.y as int).0);
            },
            Tag::Strikethrough => {
                self.styles.push(Fmt { bold: false, italic: false, strike: true, code: false, link: false });
                assert(self@ =~= start_spec(c, *tag, a, a.y as int).0);
            },
            Tag::Link | Tag::Image => {
                self.styles.push(Fmt { bold: false, italic: false, strike: false, code: false, link: true });
                assert(self@ =~= start_spec(c, *tag, a, a.y as int).0);
            },
            Tag::BlockQuote => {
                if self.quote_depth < usize::MAX {
                    self.quote_depth = self.quote_depth + 1;
                }
                assert(self@ =~= start_spec(c, *tag, a, a.y as int).0);
            },
            Tag::Table => {
                self.table = Vec::new();
                assert(self@ =~= start_spec(c, *tag, a, a.y as int).0);
            },
            Tag::TableHead | Tag::TableRow => {
                self.table.push(Vec::new());
                proof {
                    assert(crate::text::views(Seq::<String>::empty()) =~= Seq::<Seq<char>>::empty());
                    assert(self@.table =~= c.table.push(Seq::empty()));
                }
                assert(self@ =~= start_spec(c, *tag, a, a.y as int).0);
            },
            Tag::TableCell => {
                if self.table.len() > 0 {
                    let mut r = self.table.pop().unwrap();
                    let ghost r0 = r@;
                    r.push(String::new());
                    self.table.push(r);
                    proof {
                        assert(crate::text::views(r@) =~= crate::text::views(r0).push(Seq::empty()));
                        assert(self@.table =~= c.table.update(c.table.len() - 1, c.table.last().push(Seq::empty())));
                    }
                }
                assert(self@ =~= start_spec(c, *tag, a, a.y as int).0);
            },
            Tag::FootnoteDefinition(_) => self.begin(Block::FootnoteDef),
            Tag::Other => {},
        }
    }

    /// Take the innermost block off the stacks, with its tokens.
    fn pop_toks(&mut self) -> (toks: Vec<Token>)
        ensures
            (final(self)@, tokens_view(toks@)) == pop_block(old(self)@),
    {
        let ghost c = self@;
        let toks = if self.tok_stack.len() > 0 { self.tok_stack.pop().unwrap() } else { Vec::new() };
        if self.block_stack.len() > 0 {
            let _ = self.block_stack.pop();
        }
        proof {
            assert(tokens_view(Seq::<Token>::empty()) =~= Seq::<(Seq<char>, Fmt)>::empty());
            assert(self@.toks =~= pop_block(c).0.toks);
            assert(self@ =~= pop_block(c).0);
        }
        toks
    }
}


impl Ctx {
    /// An element ends (see `end_spec`).
    fn end(&mut self, tag: TagEnd, pt: &mut Painter, hls: &Vec<Option<Vec<Vec<Region>>>>)
        requires
            old(pt).ok(),
        ensures
            final(self)@ == end_spec(old(self)@, tag, *old(pt), old(pt).y as int, hls_view(hls@)).0,
            old(pt).leads_to(
                *final(pt),
                end_spec(old(self)@, tag, *old(pt), old(pt).y as int, hls_view(hls@)).1,
                end_spec(old(self)@, tag, *old(pt), old(pt).y as int, hls_view(hls@)).2,
            ),
    {
        let ghost c = self@;
        let ghost a = *pt;
        proof {
            lemma_stay(a);
        }
        let nb = self.block_stack.len();
        match tag {
            TagEnd::Paragraph => {
                if nb > 0 && self.block_stack[nb - 1] == Block::Paragraph {
                    let toks = self.pop_toks();
                    paragraph(pt, &toks, self.quote_depth);
                }
            },
            TagEnd::Heading(level) => {
                if nb > 0 && matches!(self.block_stack[nb - 1], Block::Heading(_)) {
                    let toks = self.pop_toks();
                    heading(pt, &toks, level);
                }
            },
            TagEnd::CodeBlock => {
                let none: Option<Vec<Vec<Region>>> = None;
                let hl = if self.code_ix < hls.len() { &hls[self.code_ix] } else { &none };
                assert(hl_view(*hl) == (if c.code_ix < hls@.len() { hls_view(hls@)[c.code_ix] } else { None }));
                code_card(pt, self.code_lang.as_str(), self.pending_code.as_str(), hl);
                self.pending_code = String::new();
                self.in_code = false;
                if self.code_ix < usize::MAX {
                    self.code_ix = self.code_ix + 1;
                }
                assert(self@ =~= end_spec(c, tag, a, a.y as int, hls_view(hls@)).0);
            },
            TagEnd::List => {
                if self.list_stack.len() > 0 {
                    let _ = self.list_stack.pop();
                }
                if self.list_stack.len() == 0 {
                    advance(pt);
                }
                assert(self@ =~= end_spec(c, tag, a, a.y as int, hls_view(hls@)).0);
            },
            TagEnd::Item => {
                let toks = self.pop_toks();
                let ghost c2 = self@;
                if toks.len() > 0 {
                    let nl = self.list_stack.len();
                    let li = if nl > 0 { Some(self.list_stack[nl - 1]) } else { None };
                    let depth = if nl > 0 { nl - 1 } else { 0 };
                    list_item(pt, &toks, li, depth, self.task_pending);
                }
                self.task_pending = None;
                if self.list_stack.len() > 0 {
                    let mut l = self.list_stack.pop().unwrap();
                    if l.counter < u64::MAX {
                        l.counter = l.counter + 1;
                    }
                    self.list_stack.push(l);
                }
                assert(self@ =~= end_spec(c, tag, a, a.y as int, hls_view(hls@)).0);
            },
            TagEnd::Emphasis | TagEnd::Strong | TagEnd::Strikethrough | TagEnd::Link | TagEnd::Image => {
                if self.styles.len() > 0 {
                    let _ = self.styles.pop();
                }
                assert(self@ =~= end_spec(c, tag, a, a.y as int, hls_view(hls@)).0);
            },
            TagEnd::BlockQuote => {
                if self.quote_depth > 0 {
                    self.quote_depth = self.quote_depth - 1;
                }
                if self.quote_depth == 0 {
                    advance(pt);
                }
                assert(self@ =~= end_spec(c, tag, a, a.y as int, hls_view(hls@)).0);
            },
            TagEnd::Table => {
                table(pt, &self.table);
                self.table = Vec::new();
                assert(self@ =~= end_spec(c, tag, a, a.y as int, hls_view(hls@)).0);
            },
            TagEnd::FootnoteDefinition => {
                let toks = self.pop_toks();
                footnote(pt, &toks);
            },
            TagEnd::TableHead | TagEnd::TableRow | TagEnd::TableCell | TagEnd::Other => {},
        }
    }

    /// One parser event (see `event_spec`).
    pub fn event(&mut self, ev: &MdEvent, pt: &mut Painter, hls: &Vec<Option<Vec<Vec<Region>>>>)
        requires
            old(pt).ok(),
        ensures
            final(self)@ == event_spec(old(self)@, *ev, *old(pt), old(pt).y as int, hls_view(hls@)).0,
            old(pt).leads_to(
                *final(pt),
                event_spec(old(self)@, *ev, *old(pt), old(pt).y as int, hls_view(hls@)).1,
                event_spec(old(self)@, *ev, *old(pt), old(pt).y as int, hls_view(hls@)).2,
            ),
    {
        let ghost c = self@;
        let ghost a = *pt;
        proof {
            lemma_stay(a);
        }
        match ev {
            MdEvent::Start(tag) => self.start(tag, pt),
            MdEvent::End(tag) => self.end(*tag, pt, hls),
            MdEvent::Text(t) => {
                if self.in_code {
                    let mut code = String::new();
                    std::mem::swap(&mut code, &mut self.pending_code);
                    append(&mut code, t.as_str());
                    self.pending_code = code;
                    assert(self@ =~= event_spec(c, *ev, a, a.y as int, hls_view(hls@)).0);
                } else {
                    self.push_text(t.as_str());
                }
            },
            MdEvent::Code(t) => {
                self.styles.push(Fmt { bold: false, italic: false, strike: false, code: true, link: false });
                self.push_text(t.as_str());
                let _ = self.styles.pop();
                assert(self@ =~= event_spec(c, *ev, a, a.y as int, hls_view(hls@)).0);
            },
            MdEvent::SoftBreak | MdEvent::HardBreak => self.soft_break(),
            MdEvent::Rule => rule(pt),
            MdEvent::TaskListMarker(b) => {
                self.task_pending = Some(*b);
                assert(self@ =~= event_spec(c, *ev, a, a.y as int, hls_view(hls@)).0);
            },
            MdEvent::FootnoteReference(t) => {
                let mut s = String::from_str("[¹");
                append(&mut s, t.as_str());
                append(&mut s, "]");
                self.styles.push(Fmt { bold: false, italic: false, strike: false, code: false, link: true });
                self.push_text(s.as_str());
                let _ = self.styles.pop();
                assert(self@ =~= event_spec(c, *ev, a, a.y as int, hls_view(hls@)).0);
            },
            MdEvent::Html(t) | MdEvent::InlineHtml(t) => self.push_text(t.as_str()),
            MdEvent::Other => {},
        }
    }
}


/// Two painters that place blocks alike: same area, start column, width and
/// palette.
pub open spec fn same_frame(a: Painter, b: Painter) -> bool {
    &&& a.area == b.area
    &&& a.x0 == b.x0
    &&& a.inner_w == b.inner_w
    &&& a.p == b.p
}

proof fn lemma_rows_frame(a: Painter, b: Painter, y: int, rows: Seq<Seq<CellSpec>>, k: int, x: int, qd: int)
    requires
        same_frame(a, b),
    ensures
        rows_upto(a, y, rows, k, x, qd) == rows_upto(b, y, rows, k, x, qd),
    decreases k,
{
    if k > 0 {
        lemma_rows_frame(a, b, y, rows, k - 1, x, qd);
    }
}

proof fn lemma_code_lines_frame(a: Painter, b: Painter, y: int, ls: Seq<Seq<char>>, k: int, hl: Option<Seq<Seq<((u8, u8, u8, u8), Seq<char>)>>>)
    requires
        same_frame(a, b),
    ensures
        code_lines_upto(a, y, ls, k, hl) == code_lines_upto(b, y, ls, k, hl),
    decreases k,
{
    if k > 0 {
        lemma_code_lines_frame(a, b, y, ls, k - 1, hl);
    }
}

proof fn lemma_table_rows_frame(a: Painter, b: Painter, y: int, rows: Seq<Seq<Seq<char>>>, ws: Seq<int>, k: int)
    requires
        same_frame(a, b),
    ensures
        table_rows_upto(a, y, rows, ws, k) == table_rows_upto(b, y, rows, ws, k),
    decreases k,
{
    if k > 0 {
        lemma_table_rows_frame(a, b, y, rows, ws, k - 1);
    }
}

/// What an event paints depends on the painter only through its frame.
proof fn lemma_event_frame(a: Painter, b: Painter, c: CtxV, ev: MdEvent, y: int, hls: Seq<Option<Seq<Seq<((u8, u8, u8, u8), Seq<char>)>>>>)
    requires
        same_frame(a, b),
    ensures
        event_spec(c, ev, a, y, hls) == event_spec(c, ev, b, y, hls),
{
    match ev {
        MdEvent::End(t) => match t {
            TagEnd::Paragraph => {
                let toks = pop_block(c).1;
                let indent = 3 * c.qd;
                let width = if a.inner_w > indent { a.inner_w - indent } else { 0 };
                let rows = wrapped(toks, width, a.p);
                lemma_rows_frame(a, b, y, rows, rows.len() as int, a.x0 + indent, c.qd);
            },
            TagEnd::CodeBlock => {
                let hl = if c.code_ix < hls.len() { hls[c.code_ix] } else { None };
                let code = c.code;
                let lines = text_lines(code.take(trail_char(code, code.len() as int, '\n')));
                lemma_code_lines_frame(a, b, sadd(sadd(y, 1), 1), lines, lines.len() as int, hl);
            },
            TagEnd::Table => {
                let rows = c.table;
                let cols = max_cols_upto(rows, rows.len() as int);
                lemma_table_rows_frame(a, b, sadd(sadd(y, 1), 1), rows, col_widths(rows, cols), rows.len() as int);
            },
            _ => {},
        },
        _ => {},
    }
}


/// Blank cells over the background `bg`, in the first `k` columns of the
/// area on screen row `sy`.
pub open spec fn clear_row(area: Area, sy: int, k: int, bg: Color) -> Seq<PaintOp>
    decreases k,
{
    if k <= 0 {
        Seq::empty()
    } else {
        clear_row(area, sy, k - 1, bg).push(
            PaintOp::Draw(Paint { x: (area.x + k - 1) as u16, y: sy as u16, ch: ' ', style: Style { bg: Some(bg), ..Style::none() } }),
        )
    }
}

/// The first `k` rows of the area cleared to `bg`.
pub open spec fn clear_upto(area: Area, k: int, bg: Color) -> Seq<PaintOp>
    decreases k,
{
    if k <= 0 {
        Seq::empty()
    } else {
        clear_upto(area, k - 1, bg) + clear_row(area, area.y + k - 1, area.width as int, bg)
    }
}

/// Where the preview places blocks: two columns in from the area's left
/// edge, four columns narrower than the area (at least one).
pub open spec fn frame_of(area: Area, scroll: int, dark: bool) -> Painter {
    Painter {
        area,
        x0: (area.x + 2) as u64,
        inner_w: (if area.width >= 5 { area.width - 4 } else { 1 }) as u64,
        scroll: scroll as u64,
        y: 0,
        p: pal_of(dark),
        out: vstd::pervasive::arbitrary(),
    }
}

/// The first `k` events, from the empty state at document row 0: the state,
/// the operations painted, and the next document row.
pub open spec fn run_upto(evs: Seq<MdEvent>, k: int, pt: Painter, hls: Seq<Option<Seq<Seq<((u8, u8, u8, u8), Seq<char>)>>>>) -> (CtxV, Seq<RawOp>, int)
    decreases k,
{
    if k <= 0 {
        (ctx_init(), Seq::empty(), 0)
    } else {
        let (c, o, y) = run_upto(evs, k - 1, pt, hls);
        let (c2, o2, y2) = event_spec(c, evs[k - 1], pt, y, hls);
        (c2, o + o2, y2)
    }
}

/// The preview of a document given by its parser events: the document's
/// height in rows, and the area cleared to the background followed by the
/// visible part of every block.
pub open spec fn preview_of(evs: Seq<MdEvent>, hls: Seq<Option<Seq<Seq<((u8, u8, u8, u8), Seq<char>)>>>>, area: Area, scroll: int, dark: bool) -> (int, Seq<PaintOp>) {
    let r = run_upto(evs, evs.len() as int, frame_of(area, scroll, dark), hls);
    (r.2, clear_upto(area, area.height as int, pal_of(dark).bg) + clip_ops(r.1, area, scroll))
}

/// Paint the preview of a document from its parser events, scrolled down by
/// `scroll` rows; `hls` holds, for the code blocks in order, their
/// highlighted lines (or `None` for plain text). Returns the document's
/// height in rows and the cell operations.
pub fn render_events(events: &Vec<MdEvent>, hls: &Vec<Option<Vec<Vec<Region>>>>, area: Area, scroll: usize, dark: bool) -> (r: (usize, Vec<PaintOp>))
    requires
        area.x + area.width <= u16::MAX,
        area.y + area.height <= u16::MAX,
        area.x + 2 <= u16::MAX,
    ensures
        r.0 == (if preview_of(events@, hls_view(hls@), area, scroll as int, dark).0 > usize::MAX {
            usize::MAX as int
        } else {
            preview_of(events@, hls_view(hls@), area, scroll as int, dark).0
        }),
        r.1@ == preview_of(events@, hls_view(hls@), area, scroll as int, dark).1,
{
    let p = pal(dark);
    let st = Style::plain().with_bg(p.bg);
    let mut out: Vec<PaintOp> = Vec::new();
    let mut j: u16 = 0;
    while j < area.height
        invariant
            j <= area.height,
            area.x + area.width <= u16::MAX,
            area.y + area.height <= u16::MAX,
            st == (Style { bg: Some(p.bg), ..Style::none() }),
            out@ == clear_upto(area, j as int, p.bg),
        decreases area.height - j,
    {
        let ghost before = out@;
        let mut k: u16 = 0;
        while k < area.width
            invariant
                k <= area.width,
                j < area.height,
                area.x + area.width <= u16::MAX,
                area.y + area.height <= u16::MAX,
                st == (Style { bg: Some(p.bg), ..Style::none() }),
                out@ == before + clear_row(area, area.y + j, k as int, p.bg),
            decreases area.width - k,
        {
            out.push(PaintOp::Draw(Paint { x: area.x + k, y: area.y + j, ch: ' ', style: st }));
            k += 1;
        }
        j += 1;
    }
    let ghost fr = frame_of(area, scroll as int, dark);
    let ghost hv = hls_view(hls@);
    let ghost clear = out@;
    let inner_w: u64 = if area.width >= 5 { area.width as u64 - 4 } else { 1 };
    let mut pt = Painter { area, x0: area.x as u64 + 2, inner_w, scroll: scroll as u64, y: 0, p, out };
    let mut ctx = Ctx::new();
    let mut i: usize = 0;
    assert(pt.out@ =~= clear + clip_ops(Seq::empty(), area, scroll as int));
    while i < events.len()
        invariant
            i <= events@.len(),
            pt.ok(),
            same_frame(pt, fr),
            pt.scroll == scroll as u64,
            fr == frame_of(area, scroll as int, dark),
            hv == hls_view(hls@),
            ctx@ == run_upto(events@, i as int, fr, hv).0,
            pt.y == run_upto(events@, i as int, fr, hv).2,
            pt.out@ == clear + clip_ops(run_upto(events@, i as int, fr, hv).1, area, scroll as int),
        decreases events.len() - i,
    {
        let ghost c0 = ctx@;
        let ghost p0 = pt;
        let ghost ev = events@[i as int];
        ctx.event(&events[i], &mut pt, hls);
        proof {
            lemma_event_frame(p0, fr, c0, ev, p0.y as int, hv);
            let prev = run_upto(events@, i as int, fr, hv);
            let step = event_spec(c0, ev, fr, p0.y as int, hv);
            crate::preview_paint::lemma_clip_ops_add(prev.1, step.1, area, scroll as int);
            assert(pt.out@ =~= clear + clip_ops(prev.1 + step.1, area, scroll as int));
        }
        i += 1;
    }
    let h: usize = if pt.y > usize::MAX as u64 { usize::MAX } else { pt.y as usize };
    (h, pt.out)
}


/// Reading the code blocks over the first `k` events: the blocks done
/// (language and text, in order), and the language, text and state of the
/// block being read.
pub open spec fn code_scan(evs: Seq<MdEvent>, k: int) -> (Seq<(Seq<char>, Seq<char>)>, Seq<char>, Seq<char>, bool)
    decreases k,
{
    if k <= 0 {
        (Seq::empty(), Seq::empty(), Seq::empty(), false)
    } else {
        let (bs, lang, code, inc) = code_scan(evs, k - 1);
        match evs[k - 1] {
            MdEvent::Start(Tag::CodeBlock(l)) => (bs, l@, Seq::empty(), true),
            MdEvent::End(TagEnd::CodeBlock) => (bs.push((lang, code)), lang, Seq::empty(), false),
            MdEvent::Text(t) => if inc { (bs, lang, code + t@, inc) } else { (bs, lang, code, inc) },
            _ => (bs, lang, code, inc),
        }
    }
}

/// The code blocks of a document, in order: each one's language and text.
pub open spec fn code_blocks_of(evs: Seq<MdEvent>) -> Seq<(Seq<char>, Seq<char>)> {
    code_scan(evs, evs.len() as int).0
}

/// The code blocks of a document given by its parser events, in order:
/// each one's language and text.
pub fn code_blocks(events: &Vec<MdEvent>) -> (r: Vec<(String, String)>)
    ensures
        r@.map_values(|b: (String, String)| (b.0@, b.1@)) == code_blocks_of(events@),
{
    let mut out: Vec<(String, String)> = Vec::new();
    let mut lang = String::new();
    let mut code = String::new();
    let mut inc = false;
    let mut i: usize = 0;
    while i < events.len()
        invariant
            i <= events@.len(),
            (out@.map_values(|b: (String, String)| (b.0@, b.1@)), lang@, code@, inc) == code_scan(events@, i as int),
        decreases events.len() - i,
    {
        let ghost prev = out@;
        match &events[i] {
            MdEvent::Start(Tag::CodeBlock(l)) => {
                lang = l.clone();
                code = String::new();
                inc = true;
            },
            MdEvent::End(TagEnd::CodeBlock) => {
                let done = (lang.clone(), code);
                out.push(done);
                code = String::new();
                inc = false;
                proof {
                    assert(out@.map_values(|b: (String, String)| (b.0@, b.1@)) =~= prev.map_values(|b: (String, String)| (b.0@, b.1@)).push((done.0@, done.1@)));
                }
            },
            MdEvent::Text(t) => {
                if inc {
                    append(&mut code, t.as_str());
                }
            },
            _ => {},
        }
        i += 1;
    }
    out
}


/// What one event does to the code block being read and to the count of
/// code blocks painted.
proof fn lemma_event_code(c: CtxV, ev: MdEvent, pt: Painter, y: int, hls: Seq<Option<Seq<Seq<((u8, u8, u8, u8), Seq<char>)>>>>)
    ensures
        ({
            let c2 = event_spec(c, ev, pt, y, hls).0;
            match ev {
                MdEvent::Start(Tag::CodeBlock(l)) => c2.lang == l@ && c2.code == Seq::<char>::empty() && c2.in_code && c2.code_ix == c.code_ix,
                MdEvent::End(TagEnd::CodeBlock) => c2.lang == c.lang && c2.code == Seq::<char>::empty() && !c2.in_code
                    && c2.code_ix == (if c.code_ix < usize::MAX { c.code_ix + 1 } else { c.code_ix }),
                MdEvent::Text(t) => c2.lang == c.lang && c2.in_code == c.in_code && c2.code_ix == c.code_ix
                    && c2.code == (if c.in_code { c.code + t@ } else { c.code }),
                _ => c2.lang == c.lang && c2.code == c.code && c2.in_code == c.in_code && c2.code_ix == c.code_ix,
            }
        }),
{
}

/// The preview's reading of code blocks agrees with `code_scan`, and it
/// counts the blocks it has painted.
proof fn lemma_run_code(evs: Seq<MdEvent>, k: int, pt: Painter, hls: Seq<Option<Seq<Seq<((u8, u8, u8, u8), Seq<char>)>>>>)
    requires
        0 <= k <= evs.len(),
    ensures
        run_upto(evs, k, pt, hls).0.lang == code_scan(evs, k).1,
        run_upto(evs, k, pt, hls).0.code == code_scan(evs, k).2,
        run_upto(evs, k, pt, hls).0.in_code == code_scan(evs, k).3,
        run_upto(evs, k, pt, hls).0.code_ix == (if code_scan(evs, k).0.len() < usize::MAX {
            code_scan(evs, k).0.len() as int
        } else {
            usize::MAX as int
        }),
    decreases k,
{
    if k > 0 {
        lemma_run_code(evs, k - 1, pt, hls);
        let r = run_upto(evs, k - 1, pt, hls);
        lemma_event_code(r.0, evs[k - 1], pt, r.2, hls);
    }
}

/// The blocks read over the first `m` events start the blocks read over the
/// first `n`.
proof fn lemma_code_scan_prefix(evs: Seq<MdEvent>, m: int, n: int)
    requires
        0 <= m <= n,
    ensures
        code_scan(evs, m).0.len() <= code_scan(evs, n).0.len(),
        forall|j: int| 0 <= j < code_scan(evs, m).0.len() ==> code_scan(evs, n).0[j] == #[trigger] code_scan(evs, m).0[j],
    decreases n - m,
{
    if m < n {
        lemma_code_scan_prefix(evs, m, n - 1);
    }
}

/// Law: the j-th code block that the preview paints is the j-th entry of
/// `code_blocks` (its language and text), and is painted with the j-th
/// highlight handed in.
pub proof fn law_code_block_order(evs: Seq<MdEvent>, k: int, pt: Painter, hls: Seq<Option<Seq<Seq<((u8, u8, u8, u8), Seq<char>)>>>>)
    requires
        0 <= k < evs.len(),
        evs[k] == MdEvent::End(TagEnd::CodeBlock),
        code_blocks_of(evs).len() < usize::MAX,
    ensures
        ({
            let c = run_upto(evs, k, pt, hls).0;
            &&& 0 <= c.code_ix < code_blocks_of(evs).len()
            &&& code_blocks_of(evs)[c.code_ix] == (c.lang, c.code)
            &&& event_spec(c, evs[k], pt, run_upto(evs, k, pt, hls).2, hls) == end_spec(c, TagEnd::CodeBlock, pt, run_upto(evs, k, pt, hls).2, hls)
            &&& end_spec(c, TagEnd::CodeBlock, pt, run_upto(evs, k, pt, hls).2, hls).1 == code_card_ops(
                pt,
                run_upto(evs, k, pt, hls).2,
                code_blocks_of(evs)[c.code_ix].0,
                code_blocks_of(evs)[c.code_ix].1,
                if c.code_ix < hls.len() { hls[c.code_ix] } else { None },
            ).0
        }),
{
    lemma_run_code(evs, k, pt, hls);
    lemma_code_scan_prefix(evs, k + 1, evs.len() as int);
    lemma_code_scan_prefix(evs, k, k + 1);
    let bs = code_scan(evs, k).0;
    assert(code_scan(evs, k + 1).0 == bs.push((code_scan(evs, k).1, code_scan(evs, k).2)));
    assert(code_scan(evs, k + 1).0[bs.len() as int] == (code_scan(evs, k).1, code_scan(evs, k).2));
}


/// An operation lands in the pane: on one of its rows, left of its right
/// edge.
pub open spec fn in_pane(op: PaintOp, area: Area) -> bool {
    let (x, y) = match op {
        PaintOp::Draw(p) => (p.x, p.y),
        PaintOp::Bg(x, y, _) => (x, y),
    };
    x < area.x + area.width && area.y <= y < area.y + area.height
}

proof fn lemma_clip_in_pane(os: Seq<RawOp>, area: Area, scroll: int)
    requires
        area.x + area.width <= u16::MAX,
        area.y + area.height <= u16::MAX,
    ensures
        forall|i: int| 0 <= i < clip_ops(os, area, scroll).len() ==> in_pane(#[trigger] clip_ops(os, area, scroll)[i], area),
    decreases os.len(),
{
    if os.len() > 0 {
        lemma_clip_in_pane(os.drop_last(), area, scroll);
        let prev = clip_ops(os.drop_last(), area, scroll);
        let last = clip_op(os.last(), area, scroll);
        assert forall|i: int| 0 <= i < last.len() implies in_pane(#[trigger] last[i], area) by {
            let o = os.last();
            let (x, ly) = match o {
                RawOp::Put(x, ly, _, _) => (x, ly),
                RawOp::Fill(x, ly, _) => (x, ly),
            };
            assert(0 <= x < area.x + area.width);
            assert(0 <= area.y + ly - scroll < area.y + area.height);
        }
        let all = clip_ops(os, area, scroll);
        assert(all == prev + last);
        assert forall|i: int| 0 <= i < all.len() implies in_pane(#[trigger] all[i], area) by {
            if i < prev.len() {
                assert(all[i] == prev[i]);
            } else {
                assert(all[i] == last[i - prev.len()]);
            }
        }
    }
}

proof fn lemma_clear_row_in_pane(area: Area, sy: int, k: int, bg: Color)
    requires
        area.x + area.width <= u16::MAX,
        area.y <= sy < area.y + area.height,
        area.y + area.height <= u16::MAX,
        k <= area.width,
    ensures
        forall|i: int| 0 <= i < clear_row(area, sy, k, bg).len() ==> in_pane(#[trigger] clear_row(area, sy, k, bg)[i], area),
    decreases k,
{
    if k > 0 {
        lemma_clear_row_in_pane(area, sy, k - 1, bg);
        let r = clear_row(area, sy, k, bg);
        assert forall|i: int| 0 <= i < r.len() implies in_pane(#[trigger] r[i], area) by {
            if i < r.len() - 1 {
                assert(r[i] == clear_row(area, sy, k - 1, bg)[i]);
            }
        }
    }
}

proof fn lemma_clear_in_pane(area: Area, k: int, bg: Color)
    requires
        area.x + area.width <= u16::MAX,
        area.y + area.height <= u16::MAX,
        k <= area.height,
    ensures
        forall|i: int| 0 <= i < clear_upto(area, k, bg).len() ==> in_pane(#[trigger] clear_upto(area, k, bg)[i], area),
    decreases k,
{
    if k > 0 {
        lemma_clear_in_pane(area, k - 1, bg);
        lemma_clear_row_in_pane(area, area.y + k - 1, area.width as int, bg);
        let prev = clear_upto(area, k - 1, bg);
        let row = clear_row(area, area.y + k - 1, area.width as int, bg);
        let all = clear_upto(area, k, bg);
        assert forall|i: int| 0 <= i < all.len() implies in_pane(#[trigger] all[i], area) by {
            if i < prev.len() {
                assert(all[i] == prev[i]);
            } else {
                assert(all[i] == row[i - prev.len()]);
            }
        }
    }
}

/// Law: the preview paints only cells of its pane, on the pane's rows and
/// left of its right edge, whatever the document and the scroll.
pub proof fn law_preview_in_pane(evs: Seq<MdEvent>, hls: Seq<Option<Seq<Seq<((u8, u8, u8, u8), Seq<char>)>>>>, area: Area, scroll: int, dark: bool)
    requires
        area.x + area.width <= u16::MAX,
        area.y + area.height <= u16::MAX,
    ensures
        forall|i: int| 0 <= i < preview_of(evs, hls, area, scroll, dark).1.len() ==> in_pane(
            #[trigger] preview_of(evs, hls, area, scroll, dark).1[i],
            area,
        ),
{
    let r = run_upto(evs, evs.len() as int, frame_of(area, scroll, dark), hls);
    let c = clear_upto(area, area.height as int, pal_of(dark).bg);
    let o = clip_ops(r.1, area, scroll);
    lemma_clear_in_pane(area, area.height as int, pal_of(dark).bg);
    lemma_clip_in_pane(r.1, area, scroll);
    let all = preview_of(evs, hls, area, scroll, dark).1;
    assert(all == c + o);
    assert forall|i: int| 0 <= i < all.len() implies in_pane(#[trigger] all[i], area) by {
        if i < c.len() {
            assert(all[i] == c[i]);
        } else {
            assert(all[i] == o[i - c.len()]);
        }
    }
}


/// Painters that place blocks alike give the same run of events.
proof fn lemma_run_frame(evs: Seq<MdEvent>, k: int, a: Painter, b: Painter, hls: Seq<Option<Seq<Seq<((u8, u8, u8, u8), Seq<char>)>>>>)
    requires
        same_frame(a, b),
    ensures
        run_upto(evs, k, a, hls) == run_upto(evs, k, b, hls),
    decreases k,
{
    if k > 0 {
        lemma_run_frame(evs, k - 1, a, b, hls);
        let r = run_upto(evs, k - 1, a, hls);
        lemma_event_frame(a, b, r.0, evs[k - 1], r.2, hls);
    }
}

/// Law: scrolling only chooses what is visible. At every scroll the preview
/// is the area cleared, then the visible part of one picture of the
/// document (the one at scroll 0), and the document's height is the same.
pub proof fn law_scroll_shows_one_picture(evs: Seq<MdEvent>, hls: Seq<Option<Seq<Seq<((u8, u8, u8, u8), Seq<char>)>>>>, area: Area, scroll: int, dark: bool)
    ensures
        preview_of(evs, hls, area, scroll, dark).1 == clear_upto(area, area.height as int, pal_of(dark).bg) + clip_ops(
            run_upto(evs, evs.len() as int, frame_of(area, 0, dark), hls).1,
            area,
            scroll,
        ),
        preview_of(evs, hls, area, scroll, dark).0 == preview_of(evs, hls, area, 0, dark).0,
{
    lemma_run_frame(evs, evs.len() as int, frame_of(area, scroll, dark), frame_of(area, 0, dark), hls);
}


/// The state after `k` list items (each opened and closed) from `c`.
pub open spec fn after_items(c: CtxV, k: nat, pt: Painter, y: int, hls: Seq<Option<Seq<Seq<((u8, u8, u8, u8), Seq<char>)>>>>) -> CtxV
    decreases k,
{
    if k == 0 {
        c
    } else {
        let prev = after_items(c, (k - 1) as nat, pt, y, hls);
        end_spec(start_spec(prev, Tag::Item, pt, y).0, TagEnd::Item, pt, y, hls).0
    }
}

/// An ordered list that starts at `n` numbers its items from `n`: when the
/// `k`-th item after the list opens (counting from 0) is closed and painted,
/// the innermost list is ordered and its marker is `n + k` and a dot; the
/// enclosing lists are left as they were.
pub proof fn law_ordered_list_numbers(c: CtxV, n: u64, k: nat, pt: Painter, y: int, hls: Seq<Option<Seq<Seq<((u8, u8, u8, u8), Seq<char>)>>>>, depth: int)
    requires
        n + k <= u64::MAX,
    ensures
        ({
            let c1 = start_spec(c, Tag::List(Some(n)), pt, y).0;
            let ck = after_items(c1, k, pt, y, hls);
            let item = pop_block(start_spec(ck, Tag::Item, pt, y).0).0;
            &&& marker_of(pt.p, last_list(item), depth, None).0 == decimal((n + k) as nat) + ". "@
            &&& last_list(item) matches Some(l) && l.ordered
            &&& last_list(ck) == Some(ListInfo { ordered: true, counter: (n + k) as u64 })
            &&& ck.lists.len() == c.lists.len() + 1
            &&& ck.lists.take(c.lists.len() as int) == c.lists
        }),
    decreases k,
{
    let c1 = start_spec(c, Tag::List(Some(n)), pt, y).0;
    assert(c1.lists == c.lists.push(ListInfo { ordered: true, counter: n }));
    if k > 0 {
        law_ordered_list_numbers(c, n, (k - 1) as nat, pt, y, hls, depth);
        let prev = after_items(c1, (k - 1) as nat, pt, y, hls);
        let a = start_spec(prev, Tag::Item, pt, y).0;
        assert(a.lists == prev.lists);
        let (c2, toks) = pop_block(a);
        assert(c2.lists == prev.lists);
        let ck = after_items(c1, k, pt, y, hls);
        assert(prev.lists.last() == ListInfo { ordered: true, counter: (n + k - 1) as u64 });
        assert(ck.lists == prev.lists.update(prev.lists.len() - 1, ListInfo { counter: (n + k) as u64, ordered: true }));
        assert(ck.lists.take(c.lists.len() as int) =~= prev.lists.take(c.lists.len() as int));
    }
}

} // verus!
