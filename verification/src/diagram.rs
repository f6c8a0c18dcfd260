//! Mermaid flowcharts and a PlantUML subset: parsing into a node/edge graph
//! and a layered layout.

use vstd::prelude::*;
use crate::chars::{alnum, is_alphanumeric, is_whitespace, lower, to_lowercase, white};
use crate::num::{decimal, decimal_chars};
use crate::text::{
    chars_of, copy_chars, eq_str, has_prefix, lead_ws, lines_of, split_by, split_chars,
    split_once, split_once_chars, starts_with, string_of, strip_prefix, strip_prefix_chars,
    text_lines, trail_char, trim, trim_chars, trim_end_char, push_char,
};

verus! {

#[derive(Clone, Copy, PartialEq, Eq, Structural, Debug)]
pub enum Shape {
    Rect,
    Round,
    Diamond,
    Stadium,
    Circle,
    Cylinder,
}

/// A node: its id, label, shape, and (after layout) its box.
pub struct DNode {
    pub id: String,
    pub label: String,
    pub shape: Shape,
    pub x: i32,
    pub y: i32,
    pub w: i32,
    pub h: i32,
    /// The fill color that a `style` statement gives the node, if any.
    pub fill: Option<(u8, u8, u8)>,
}

#[derive(Clone, Copy, PartialEq, Eq, Structural, Debug)]
pub enum Dir {
    TD,
    LR,
    BT,
    RL,
    /// A sequence diagram: participants side by side, messages down their
    /// lifelines in order.
    Sequence,
}

/// An edge between two nodes (indices into the node list).
pub struct DEdge {
    pub from: usize,
    pub to: usize,
    pub label: Option<String>,
    pub dashed: bool,
    pub dotted: bool,
    pub thick: bool,
}

pub struct Diagram {
    pub nodes: Vec<DNode>,
    pub edges: Vec<DEdge>,
    pub dir: Dir,
}

/// The abstract value of a node.
#[verifier::ext_equal]
pub struct NodeV {
    pub id: Seq<char>,
    pub label: Seq<char>,
    pub shape: Shape,
    pub x: int,
    pub y: int,
    pub w: int,
    pub h: int,
    pub fill: Option<(u8, u8, u8)>,
}

/// The abstract value of an edge.
#[verifier::ext_equal]
pub struct EdgeV {
    pub from: int,
    pub to: int,
    pub label: Option<Seq<char>>,
    pub dashed: bool,
    pub dotted: bool,
    pub thick: bool,
}

impl DNode {
    pub open spec fn view(&self) -> NodeV {
        NodeV {
            id: self.id@,
            label: self.label@,
            shape: self.shape,
            x: self.x as int,
            y: self.y as int,
            w: self.w as int,
            h: self.h as int,
            fill: self.fill,
        }
    }
}

pub open spec fn opt_view(o: Option<String>) -> Option<Seq<char>> {
    match o {
        Some(s) => Some(s@),
        None => None,
    }
}

impl DEdge {
    pub open spec fn view(&self) -> EdgeV {
        EdgeV {
            from: self.from as int,
            to: self.to as int,
            label: opt_view(self.label),
            dashed: self.dashed,
            dotted: self.dotted,
            thick: self.thick,
        }
    }
}

pub open spec fn opt_chars(o: Option<Vec<char>>) -> Option<Seq<char>> {
    match o {
        Some(v) => Some(v@),
        None => None,
    }
}

pub open spec fn nodes_view(v: Seq<DNode>) -> Seq<NodeV> {
    v.map_values(|n: DNode| n.view())
}

pub open spec fn edges_view(v: Seq<DEdge>) -> Seq<EdgeV> {
    v.map_values(|e: DEdge| e.view())
}

/// A graph under construction: its nodes and edges.
pub type GraphV = (Seq<NodeV>, Seq<EdgeV>);

/// A node's first appearance: its id is also its label.
pub open spec fn fresh_node(id: Seq<char>, shape: Shape) -> NodeV {
    NodeV { id, label: id, shape, x: 0, y: 0, w: 0, h: 0, fill: None }
}

/// Index of the first node with id `id`, searching from `k`.
pub open spec fn find_id(ns: Seq<NodeV>, id: Seq<char>, k: int) -> Option<int>
    decreases ns.len() - k,
{
    if k < 0 || k >= ns.len() {
        None
    } else if ns[k].id == id {
        Some(k)
    } else {
        find_id(ns, id, k + 1)
    }
}

/// The node with id `id`, added (with `shape`) when there is none yet.
pub open spec fn find_or(ns: Seq<NodeV>, id: Seq<char>, shape: Shape) -> (Seq<NodeV>, int) {
    match find_id(ns, id, 0) {
        Some(i) => (ns, i),
        None => (ns.push(fresh_node(id, shape)), ns.len() as int),
    }
}

pub proof fn lemma_find_id(ns: Seq<NodeV>, id: Seq<char>, k: int)
    ensures
        find_id(ns, id, k) matches Some(i) ==> 0 <= k <= i < ns.len() && ns[i].id == id,
    decreases ns.len() - k,
{
    if 0 <= k < ns.len() && ns[k].id != id {
        lemma_find_id(ns, id, k + 1);
    }
}

/// The node with id `id`, added when absent; returns its index.
fn find_or_add(nodes: &mut Vec<DNode>, id: &Vec<char>, shape: Shape) -> (i: usize)
    ensures
        (nodes_view(final(nodes)@), i as int) == find_or(nodes_view(old(nodes)@), id@, shape),
        (i as int) < final(nodes)@.len(),
{
    let ghost ns = nodes_view(nodes@);
    let n = nodes.len();
    let mut k: usize = 0;
    while k < n
        invariant
            k <= n == nodes@.len(),
            ns == nodes_view(nodes@),
            find_id(ns, id@, k as int) == find_id(ns, id@, 0),
        decreases n - k,
    {
        if chars_eq_string(id, &nodes[k].id) {
            proof {
                assert(ns[k as int].id == id@);
            }
            return k;
        }
        k += 1;
    }
    let s = string_of(id.as_slice(), 0, id.len());
    let l = string_of(id.as_slice(), 0, id.len());
    proof {
        assert(id@.subrange(0, id@.len() as int) =~= id@);
    }
    nodes.push(DNode { id: s, label: l, shape, x: 0, y: 0, w: 0, h: 0, fill: None });
    proof {
        assert(nodes_view(nodes@) =~= ns.push(fresh_node(id@, shape)));
    }
    n
}

/// Whether the characters `a` spell the string `b`.
fn chars_eq_string(a: &Vec<char>, b: &String) -> (r: bool)
    ensures
        r == (a@ == b@),
{
    let bc = chars_of(b.as_str());
    if a.len() != bc.len() {
        return false;
    }
    let mut i: usize = 0;
    while i < a.len()
        invariant
            i <= a@.len() == bc@.len(),
            bc@ == b@,
            forall|j: int| 0 <= j < i ==> a@[j] == bc@[j],
        decreases a.len() - i,
    {
        if a[i] != bc[i] {
            return false;
        }
        i += 1;
    }
    assert(a@ =~= bc@);
    true
}

// ---------------- Mermaid flowchart parser ----------------

pub open spec fn is_id_char(c: char) -> bool {
    alnum(c) || c == '_' || c == '-'
}

/// End of the run of id characters starting at `i`.
pub open spec fn id_end(cs: Seq<char>, i: int) -> int
    decreases cs.len() - i,
{
    if 0 <= i < cs.len() && is_id_char(cs[i]) { id_end(cs, i + 1) } else { i }
}

pub open spec fn is_op_char(c: char) -> bool {
    c == '-' || c == '>' || c == '<' || c == '=' || c == '.'
}

/// End of the run of edge-operator characters starting at `i`.
pub open spec fn op_end(cs: Seq<char>, i: int) -> int
    decreases cs.len() - i,
{
    if 0 <= i < cs.len() && is_op_char(cs[i]) { op_end(cs, i + 1) } else { i }
}

/// End of an edge label: the next `|` at or after `i` (or the end).
pub open spec fn bar_end(cs: Seq<char>, i: int) -> int
    decreases cs.len() - i,
{
    if 0 <= i < cs.len() && cs[i] != '|' { bar_end(cs, i + 1) } else { i }
}

/// (dashed, dotted, thick) of an edge operator.
pub open spec fn op_flags(op: Seq<char>) -> (bool, bool, bool) {
    let dotted = op.contains('.') && op.contains('-');
    (op.contains('.') && !dotted, dotted, op.contains('='))
}

/// The shape and closing bracket for an opening bracket.
pub open spec fn shape_open(c: char) -> Option<(Shape, char)> {
    if c == '[' {
        Some((Shape::Rect, ']'))
    } else if c == '(' {
        Some((Shape::Round, ')'))
    } else if c == '{' {
        Some((Shape::Diamond, '}'))
    } else {
        None
    }
}

/// Scanning from `j`, the first position where `a` is followed by `b`
/// (stopping at the last character).
pub open spec fn pair_end(cs: Seq<char>, j: int, a: char, b: char) -> int
    decreases cs.len() - j,
{
    if 0 <= j && j + 1 < cs.len() && !(cs[j] == a && cs[j + 1] == b) { pair_end(cs, j + 1, a, b) } else { j }
}

/// End of a simple bracket label: the next `close` at or after `j` (or the end).
pub open spec fn close_end(cs: Seq<char>, j: int, close: char) -> int
    decreases cs.len() - j,
{
    if 0 <= j < cs.len() && cs[j] != close { close_end(cs, j + 1, close) } else { j }
}

pub open spec fn min_i(a: int, b: int) -> int {
    if a <= b { a } else { b }
}

/// A shape bracket at `i` (the opener): resolved shape, label, and the
/// characters consumed, closers included. `((..))` is a circle, `([..])` a
/// stadium, `[(..)]` a cylinder; otherwise the label runs to the closing
/// bracket.
pub open spec fn read_shape_of(cs: Seq<char>, i: int, shape: Shape, close: char) -> (Shape, Seq<char>, int) {
    let n = cs.len() as int;
    let o = cs[i];
    if o == '(' && i + 1 < n && cs[i + 1] == '(' {
        let j = pair_end(cs, i + 2, ')', ')');
        (Shape::Circle, cs.subrange(i + 2, j), min_i(j + 2 - i, n - i))
    } else if o == '(' && i + 1 < n && cs[i + 1] == '[' {
        let j = pair_end(cs, i + 2, ']', ')');
        (Shape::Stadium, cs.subrange(i + 2, j), min_i(j + 2 - i, n - i))
    } else if o == '[' && i + 1 < n && cs[i + 1] == '(' {
        let j = pair_end(cs, i + 2, ')', ']');
        (Shape::Cylinder, cs.subrange(i + 2, j), min_i(j + 2 - i, n - i))
    } else {
        let j = close_end(cs, i + 1, close);
        (shape, cs.subrange(i + 1, j), min_i(if j < n { j + 1 - i } else { j - i }, n - i))
    }
}

/// A node at `i`: after whitespace, an id and an optional shape bracket.
/// Gives the node's index, the position after it, and the updated nodes.
pub open spec fn node_at(cs: Seq<char>, i: int, ns: Seq<NodeV>) -> Option<(int, int, Seq<NodeV>)> {
    let s = lead_ws(cs, i);
    let e = id_end(cs, s);
    if e == s {
        if s + 3 <= cs.len() && cs[s] == '[' && cs[s + 1] == '*' && cs[s + 2] == ']' {
            let (ns1, idx) = find_or(ns, cs.subrange(s, s + 3), Shape::Circle);
            Some((idx, s + 3, ns1))
        } else {
            None
        }
    } else {
        let id = cs.subrange(s, e);
        let (ns1, idx) = find_or(ns, id, Shape::Rect);
        if e < cs.len() && shape_open(cs[e]) is Some {
            let (sh, close) = shape_open(cs[e]).unwrap();
            let (shape, label, consumed) = read_shape_of(cs, e, sh, close);
            Some((idx, e + consumed, ns1.update(idx, NodeV { label, shape, ..ns1[idx] })))
        } else {
            Some((idx, e, ns1))
        }
    }
}

pub proof fn lemma_lead_ws(cs: Seq<char>, i: int)
    requires
        0 <= i <= cs.len(),
    ensures
        i <= lead_ws(cs, i) <= cs.len(),
    decreases cs.len() - i,
{
    if i < cs.len() && white(cs[i]) {
        lemma_lead_ws(cs, i + 1);
    }
}

pub proof fn lemma_id_end(cs: Seq<char>, i: int)
    requires
        0 <= i <= cs.len(),
    ensures
        i <= id_end(cs, i) <= cs.len(),
    decreases cs.len() - i,
{
    if i < cs.len() && is_id_char(cs[i]) {
        lemma_id_end(cs, i + 1);
    }
}

pub proof fn lemma_pair_end(cs: Seq<char>, j: int, a: char, b: char)
    requires
        0 <= j <= cs.len(),
    ensures
        j <= pair_end(cs, j, a, b) <= cs.len(),
    decreases cs.len() - j,
{
    if j + 1 < cs.len() && !(cs[j] == a && cs[j + 1] == b) {
        lemma_pair_end(cs, j + 1, a, b);
    }
}

pub proof fn lemma_close_end(cs: Seq<char>, j: int, c: char)
    requires
        0 <= j <= cs.len(),
    ensures
        j <= close_end(cs, j, c) <= cs.len(),
    decreases cs.len() - j,
{
    if j < cs.len() && cs[j] != c {
        lemma_close_end(cs, j + 1, c);
    }
}

pub proof fn lemma_node_at(cs: Seq<char>, i: int, ns: Seq<NodeV>)
    requires
        0 <= i <= cs.len(),
    ensures
        node_at(cs, i, ns) matches Some((idx, j, ns2)) ==> i < j <= cs.len() && 0 <= idx
            < ns2.len() && ns2.len() >= ns.len(),
{
    lemma_lead_ws(cs, i);
    let s = lead_ws(cs, i);
    lemma_id_end(cs, s);
    let e = id_end(cs, s);
    if e == s {
        lemma_find_id(ns, cs.subrange(s, s + 3), 0);
    }
    if e > s {
        let id = cs.subrange(s, e);
        lemma_find_id(ns, id, 0);
        if e < cs.len() && shape_open(cs[e]) is Some {
            let (sh, close) = shape_open(cs[e]).unwrap();
            if e + 1 < cs.len() {
                lemma_pair_end(cs, e + 2, ')', ')');
                lemma_pair_end(cs, e + 2, ']', ')');
                lemma_pair_end(cs, e + 2, ')', ']');
            }
            lemma_close_end(cs, e + 1, close);
        }
    }
}

/// Follow a chain `A -->|label| B --> C` from position `i`, where the node
/// before is `cur`: each edge operator, optional `|label|` and target node
/// adds an edge; parsing stops at the first piece that does not fit. A
/// target followed by `: text` ends the chain, its edge labelled with the
/// text (trimmed).
pub open spec fn chain_from(cs: Seq<char>, i: int, cur: int, g: GraphV) -> GraphV
    decreases cs.len() - i,
{
    if i < 0 || i > cs.len() {
        g
    } else {
        let a = lead_ws(cs, i);
        let b = op_end(cs, a);
        if b == a {
            g
        } else {
            let flags = op_flags(cs.subrange(a, b));
            let c = lead_ws(cs, b);
            let (label, d) = if c < cs.len() && cs[c] == '|' {
                let e = bar_end(cs, c + 1);
                (Some(cs.subrange(c + 1, e)), lead_ws(cs, if e < cs.len() { e + 1 } else { e }))
            } else {
                (None, c)
            };
            match node_at(cs, d, g.0) {
                None => g,
                Some((t, j, ns2)) => {
                    if j <= i || j > cs.len() {
                        g
                    } else {
                        let k = lead_ws(cs, j);
                        let note = k < cs.len() && cs[k] == ':';
                        let lab = if note { Some(trim(cs.subrange(k + 1, cs.len() as int))) } else { label };
                        let g2 = (
                            ns2,
                            g.1.push(
                                EdgeV {
                                    from: cur,
                                    to: t,
                                    label: lab,
                                    dashed: flags.0,
                                    dotted: flags.1,
                                    thick: flags.2,
                                },
                            ),
                        );
                        if note { g2 } else { chain_from(cs, j, t, g2) }
                    }
                },
            }
        }
    }
}

/// Parse one statement (a chain of nodes and edges) into the graph.
pub open spec fn chain_of(cs: Seq<char>, g: GraphV) -> GraphV {
    if cs.len() == 0 {
        g
    } else {
        match node_at(cs, 0, g.0) {
            None => g,
            Some((idx, j, ns)) => chain_from(cs, j, idx, (ns, g.1)),
        }
    }
}

impl Shape {
    /// The shape and closing bracket for an opening bracket.
    pub fn from_open(c: char) -> (r: Option<(Shape, char)>)
        ensures
            r == shape_open(c),
    {
        // returns (shape, closing char) for the opening bracket
        match c {
            '[' => Some((Shape::Rect, ']')),
            '(' => Some((Shape::Round, ')')),
            '{' => Some((Shape::Diamond, '}')),
            _ => None,
        }
    }
}

impl Diagram {
    /// The node with id `id`, added (as a rectangle labelled with its id) when absent.
    #[allow(dead_code)]
    pub fn find_or(&mut self, id: &str) -> (i: usize)
        ensures
            (nodes_view(final(self).nodes@), i as int) == find_or(
                nodes_view(old(self).nodes@),
                id@,
                Shape::Rect,
            ),
            final(self).edges == old(self).edges,
            final(self).dir == old(self).dir,
    {
        let cs = chars_of(id);
        find_or_add(&mut self.nodes, &cs, Shape::Rect)
    }
}

/// Skip whitespace from `i`.
fn skip_ws(cs: &Vec<char>, i: usize) -> (j: usize)
    requires
        i <= cs@.len(),
    ensures
        j == lead_ws(cs@, i as int),
        i <= j <= cs@.len(),
{
    let mut j = i;
    while j < cs.len() && is_whitespace(cs[j])
        invariant
            i <= j <= cs@.len(),
            lead_ws(cs@, j as int) == lead_ws(cs@, i as int),
        decreases cs.len() - j,
    {
        j += 1;
    }
    j
}

/// Read a shape bracket starting at bytes[i] (which is the opener). Returns
/// (resolved_shape, label, chars_consumed_including_closers).
fn read_shape(bytes: &Vec<char>, i: usize, shape: Shape, close: char) -> (r: (Shape, Vec<char>, usize))
    requires
        i < bytes@.len(),
    ensures
        (r.0, r.1@, r.2 as int) == read_shape_of(bytes@, i as int, shape, close),
{
    let n = bytes.len();
    let o = bytes[i];
    if o == '(' && i + 1 < n && bytes[i + 1] == '(' {
        // circle ((...))
        let j = pair_scan(bytes, i + 2, ')', ')');
        let label = copy_chars(bytes.as_slice(), i + 2, j);
        let consumed = if n >= 2 && j <= n - 2 { j + 2 - i } else { n - i };
        return (Shape::Circle, label, consumed);
    }
    if o == '(' && i + 1 < n && bytes[i + 1] == '[' {
        // stadium ([...])
        let j = pair_scan(bytes, i + 2, ']', ')');
        let label = copy_chars(bytes.as_slice(), i + 2, j);
        let consumed = if n >= 2 && j <= n - 2 { j + 2 - i } else { n - i };
        return (Shape::Stadium, label, consumed);
    }
    if o == '[' && i + 1 < n && bytes[i + 1] == '(' {
        // cylinder [(...)]
        let j = pair_scan(bytes, i + 2, ')', ']');
        let label = copy_chars(bytes.as_slice(), i + 2, j);
        let consumed = if n >= 2 && j <= n - 2 { j + 2 - i } else { n - i };
        return (Shape::Cylinder, label, consumed);
    }
    // simple single bracket
    let mut j = i + 1;
    while j < n && bytes[j] != close
        invariant
            i + 1 <= j <= n == bytes@.len(),
            close_end(bytes@, j as int, close) == close_end(bytes@, i + 1, close),
        decreases n - j,
    {
        j += 1;
    }
    let label = copy_chars(bytes.as_slice(), i + 1, j);
    let consumed = if j < n { (j + 1) - i } else { j - i };
    let consumed = if consumed <= n - i { consumed } else { n - i };
    (shape, label, consumed)
}

/// Scan from `j` to where `a` is followed by `b` (see `pair_end`).
fn pair_scan(bytes: &Vec<char>, j0: usize, a: char, b: char) -> (j: usize)
    requires
        j0 <= bytes@.len(),
    ensures
        j == pair_end(bytes@, j0 as int, a, b),
        j0 <= j <= bytes@.len(),
{
    let n = bytes.len();
    let mut j = j0;
    while j < n && j + 1 < n && !(bytes[j] == a && bytes[j + 1] == b)
        invariant
            j0 <= j <= n == bytes@.len(),
            pair_end(bytes@, j as int, a, b) == pair_end(bytes@, j0 as int, a, b),
        decreases n - j,
    {
        j += 1;
    }
    j
}

/// Parse a node (ident + optional shape bracket) at bytes[*i..], register it,
/// and return its index. Advances *i past the node.
fn parse_node_at(bytes: &Vec<char>, i: &mut usize, n: usize, nodes: &mut Vec<DNode>) -> (r: Option<usize>)
    requires
        n == bytes@.len(),
        *old(i) <= n,
    ensures
        match node_at(bytes@, *old(i) as int, nodes_view(old(nodes)@)) {
            Some((idx, j, ns)) => r is Some && r.unwrap() as int == idx && idx < final(nodes)@.len()
                && *final(i) == j && nodes_view(final(nodes)@) == ns,
            None => r is None && *final(i) == lead_ws(bytes@, *old(i) as int) && final(nodes)@
                == old(nodes)@,
        },
{
    proof {
        lemma_node_at(bytes@, *i as int, nodes_view(nodes@));
    }
    *i = skip_ws(bytes, *i);
    let id_start = *i;
    while *i < n && (is_alphanumeric(bytes[*i]) || bytes[*i] == '_' || bytes[*i] == '-')
        invariant
            id_start <= *i <= n == bytes@.len(),
            id_end(bytes@, *i as int) == id_end(bytes@, id_start as int),
        decreases n - *i,
    {
        *i += 1;
    }
    if *i == id_start {
        if n >= 3 && *i <= n - 3 && bytes[*i] == '[' && bytes[*i + 1] == '*' && bytes[*i + 2] == ']' {
            // the start or end state `[*]`
            let id = copy_chars(bytes.as_slice(), id_start, id_start + 3);
            let idx = find_or_add(nodes, &id, Shape::Circle);
            *i = id_start + 3;
            return Some(idx);
        }
        return None;
    }
    let id = copy_chars(bytes.as_slice(), id_start, *i);
    let had_shape = *i < n && (bytes[*i] == '[' || bytes[*i] == '(' || bytes[*i] == '{');
    let idx = find_or_add(nodes, &id, Shape::Rect);
    if had_shape {
        let (shape, close) = Shape::from_open(bytes[*i]).unwrap();
        let (shape, label, consumed) = read_shape(bytes, *i, shape, close);
        proof {
            crate::diagram::lemma_node_at(bytes@, *old(i) as int, nodes_view(old(nodes)@));
        }
        *i += consumed;
        let ghost ns = nodes@;
        let lab = string_of(label.as_slice(), 0, label.len());
        proof {
            assert(label@.subrange(0, label@.len() as int) =~= label@);
        }
        let old_node = nodes.remove(idx);
        nodes.insert(idx, DNode { label: lab, shape, ..old_node });
        proof {
            assert(nodes_view(nodes@) =~= nodes_view(ns).update(
                idx as int,
                NodeV { label: label@, shape, ..nodes_view(ns)[idx as int] },
            ));
        }
    }
    Some(idx)
}

/// (dashed, dotted, thick) of an edge operator.
struct EdgeOp {
    dashed: bool,
    dotted: bool,
    thick: bool,
}

fn parse_edge_op(bytes: &Vec<char>, i: &mut usize) -> (r: Option<EdgeOp>)
    requires
        *old(i) <= bytes@.len(),
    ensures
        *final(i) == op_end(bytes@, *old(i) as int),
        *final(i) <= bytes@.len(),
        match r {
            Some(op) => *final(i) > *old(i) && (op.dashed, op.dotted, op.thick) == op_flags(
                bytes@.subrange(*old(i) as int, *final(i) as int),
            ),
            None => *final(i) == *old(i),
        },
{
    let start = *i;
    let n = bytes.len();
    // gather the operator run: chars in {- > < = .}
    let mut dot = false;
    let mut dash = false;
    let mut eq = false;
    while *i < n && (bytes[*i] == '-' || bytes[*i] == '>' || bytes[*i] == '<' || bytes[*i] == '='
        || bytes[*i] == '.')
        invariant
            start <= *i <= n == bytes@.len(),
            op_end(bytes@, *i as int) == op_end(bytes@, start as int),
            dot == bytes@.subrange(start as int, *i as int).contains('.'),
            dash == bytes@.subrange(start as int, *i as int).contains('-'),
            eq == bytes@.subrange(start as int, *i as int).contains('='),
        decreases n - *i,
    {
        let c = bytes[*i];
        let ghost prev = bytes@.subrange(start as int, *i as int);
        let ghost next = bytes@.subrange(start as int, *i + 1);
        assert(next =~= prev.push(c));
        proof {
            assert forall|x: char| next.contains(x) == (prev.contains(x) || x == c) by {
                if next.contains(x) {
                    let k = choose|k: int| 0 <= k < next.len() && next[k] == x;
                    if k < prev.len() {
                        assert(prev[k] == x);
                    }
                }
                if prev.contains(x) {
                    let k = choose|k: int| 0 <= k < prev.len() && prev[k] == x;
                    assert(next[k] == x);
                }
                if x == c {
                    assert(next[next.len() - 1] == x);
                }
            }
        }
        if c == '.' {
            dot = true;
        }
        if c == '-' {
            dash = true;
        }
        if c == '=' {
            eq = true;
        }
        *i += 1;
    }
    if *i == start {
        return None;
    }
    let dotted = dot && dash;
    let dashed = dot && !dotted;
    let thick = eq;
    Some(EdgeOp { dashed, dotted, thick })
}

/// Parse a chain like `A[Alpha] -->|yes| B --> C{Cond}`.
fn parse_chain(s: &Vec<char>, nodes: &mut Vec<DNode>, edges: &mut Vec<DEdge>)
    ensures
        (nodes_view(final(nodes)@), edges_view(final(edges)@)) == chain_of(
            s@,
            (nodes_view(old(nodes)@), edges_view(old(edges)@)),
        ),
{
    if s.len() == 0 {
        return;
    }
    let n = s.len();
    let mut i: usize = 0;
    proof {
        lemma_node_at(s@, 0, nodes_view(nodes@));
    }
    // first node
    let mut cur = match parse_node_at(s, &mut i, n, nodes) {
        Some(x) => x,
        None => return,
    };
    let ghost goal = chain_of(s@, (nodes_view(old(nodes)@), edges_view(old(edges)@)));
    proof {
        assert(nodes_view(nodes@).len() == nodes@.len());
    }
    loop
        invariant
            n == s@.len(),
            i <= n,
            (cur as int) < nodes@.len(),
            chain_from(s@, i as int, cur as int, (nodes_view(nodes@), edges_view(edges@))) == goal,
            goal == chain_of(s@, (nodes_view(old(nodes)@), edges_view(old(edges)@))),
        decreases n - i,
    {
        let ghost g = (nodes_view(nodes@), edges_view(edges@));
        let i0 = i;
        i = skip_ws(s, i);
        let a = i;
        let op = match parse_edge_op(s, &mut i) {
            Some(o) => o,
            None => return,
        };
        let b = i;
        i = skip_ws(s, i);
        let c = i;
        // optional edge label |text|
        let mut label: Option<String> = None;
        if i < n && s[i] == '|' {
            i += 1;
            let ls = i;
            while i < n && s[i] != '|'
                invariant
                    ls <= i <= n == s@.len(),
                    bar_end(s@, i as int) == bar_end(s@, ls as int),
                decreases n - i,
            {
                i += 1;
            }
            label = Some(string_of(s.as_slice(), ls, i));
            if i < n {
                i += 1;
            }
            i = skip_ws(s, i);
            proof {
                assert(i == lead_ws(s@, if bar_end(s@, ls as int) < s@.len() { bar_end(s@, ls as int) + 1 } else { bar_end(s@, ls as int) }));
                assert(opt_view(label) == Some(s@.subrange(ls as int, bar_end(s@, ls as int))));
            }
        }
        let ghost lab_v = opt_view(label);
        proof {
            lemma_node_at(s@, i as int, nodes_view(nodes@));
            assert(c == lead_ws(s@, b as int));
            assert(b == op_end(s@, a as int));
            assert(a == lead_ws(s@, i0 as int));
        }
        let d = i;
        let target = match parse_node_at(s, &mut i, n, nodes) {
            Some(x) => x,
            None => return,
        };
        let ghost es0 = edges_view(edges@);
        proof {
            assert(node_at(s@, d as int, g.0) == Some((target as int, i as int, nodes_view(nodes@))));
            assert(i0 < i);
        }
        let k = skip_ws(s, i);
        let note = k < n && s[k] == ':';
        let label = if note {
            let t = trim_chars(&s.as_slice()[k + 1..n]);
            proof {
                assert(s@.subrange(k + 1, n as int) =~= s@.subrange(k + 1, n as int));
            }
            Some(string_of(t.as_slice(), 0, t.len()))
        } else {
            label
        };
        proof {
            if note {
                assert(opt_view(label) == Some(trim(s@.subrange(k + 1, n as int))));
            }
        }
        let ghost lab_v = opt_view(label);
        let e = DEdge {
            from: cur,
            to: target,
            label,
            dashed: op.dashed,
            dotted: op.dotted,
            thick: op.thick,
        };
        edges.push(e);
        proof {
            assert(edges_view(edges@) =~= es0.push(e.view()));
            assert(e.view() == EdgeV {
                from: cur as int,
                to: target as int,
                label: lab_v,
                dashed: op_flags(s@.subrange(a as int, b as int)).0,
                dotted: op_flags(s@.subrange(a as int, b as int)).1,
                thick: op_flags(s@.subrange(a as int, b as int)).2,
            });
            if !note {
                assert(chain_from(s@, i0 as int, cur as int, g) == chain_from(
                    s@,
                    i as int,
                    target as int,
                    (nodes_view(nodes@), edges_view(edges@)),
                ));
            }
        }
        if note {
            return;
        }
        cur = target;
    }
}

impl Diagram {
    /// The abstract value: nodes, edges and direction.
    pub open spec fn view(&self) -> (Seq<NodeV>, Seq<EdgeV>, Dir) {
        (nodes_view(self.nodes@), edges_view(self.edges@), self.dir)
    }
}

/// The text after a `flowchart`/`graph`/`stateDiagram`/`classDiagram`
/// header keyword (of a lowercased line).
pub open spec fn header_rest(lw: Seq<char>) -> Option<Seq<char>> {
    match strip_prefix(lw, "flowchart"@) {
        Some(r) => Some(r),
        None => match strip_prefix(lw, "graph"@) {
            Some(r) => Some(r),
            None => match strip_prefix(lw, "statediagram"@) {
                Some(r) => Some(r),
                None => strip_prefix(lw, "classdiagram"@),
            },
        },
    }
}

/// The direction named after the header keyword.
pub open spec fn dir_of(d: Seq<char>) -> Dir {
    if d == "lr"@ {
        Dir::LR
    } else if d == "rl"@ {
        Dir::RL
    } else if d == "bt"@ {
        Dir::BT
    } else {
        Dir::TD
    }
}

/// The value of a hexadecimal digit, or -1.
pub open spec fn hex_val(c: char) -> int {
    if '0' <= c <= '9' {
        c as int - '0' as int
    } else if 'a' <= c <= 'f' {
        c as int - 'a' as int + 10
    } else if 'A' <= c <= 'F' {
        c as int - 'A' as int + 10
    } else {
        -1
    }
}

/// The byte written by the two hex digits at `k`.
pub open spec fn hex_byte(cs: Seq<char>, k: int) -> u8 {
    (hex_val(cs[k]) * 16 + hex_val(cs[k + 1])) as u8
}

/// The color `rrggbb` written at `k`, if six hex digits stand there.
pub open spec fn rgb_at(cs: Seq<char>, k: int) -> Option<(u8, u8, u8)> {
    if 0 <= k && k + 6 <= cs.len() && hex_val(cs[k]) >= 0 && hex_val(cs[k + 1]) >= 0 && hex_val(cs[k + 2])
        >= 0 && hex_val(cs[k + 3]) >= 0 && hex_val(cs[k + 4]) >= 0 && hex_val(cs[k + 5]) >= 0 {
        Some((hex_byte(cs, k), hex_byte(cs, k + 2), hex_byte(cs, k + 4)))
    } else {
        None
    }
}

/// The color after the first `fill:#` of a style statement.
pub open spec fn fill_of(cs: Seq<char>) -> Option<(u8, u8, u8)> {
    match crate::app::match_from(cs, "fill:#"@, 0) {
        Some(k) => rgb_at(cs, k + 6),
        None => None,
    }
}

/// The nodes after a `style <id> ...fill:#rrggbb...` statement: the node
/// with that id (added when absent) takes the fill color; a statement
/// without an id or a fill color changes nothing.
pub open spec fn style_nodes(line: Seq<char>, ns: Seq<NodeV>) -> Seq<NodeV> {
    let s = lead_ws(line, 5);
    let e = id_end(line, s);
    if e == s {
        ns
    } else {
        match fill_of(line) {
            None => ns,
            Some(c) => {
                let (ns1, idx) = find_or(ns, line.subrange(s, e), Shape::Rect);
                ns1.update(idx, NodeV { fill: Some(c), ..ns1[idx] })
            },
        }
    }
}

/// Lines (lowercased) that the flowchart parser ignores.
pub open spec fn ignored_stmt(lw: Seq<char>) -> bool {
    has_prefix(lw, "classdef"@) || has_prefix(lw, "style"@) || has_prefix(lw, "class "@)
        || has_prefix(lw, "linkstyle"@) || has_prefix(lw, "subgraph"@) || has_prefix(lw, "end"@)
}

/// The graph after the first `k` `;`-separated statements of a line.
pub open spec fn stmts_upto(ps: Seq<Seq<char>>, k: int, g: GraphV) -> GraphV
    decreases k,
{
    if k <= 0 {
        g
    } else {
        chain_of(trim(ps[k - 1]), stmts_upto(ps, k - 1, g))
    }
}

/// Flowchart parser state: direction, whether the header position has
/// passed, the graph so far, and the node whose class body is open.
pub type FlowState = (Dir, bool, GraphV, Option<int>);

/// An optional index as an optional integer.
pub open spec fn opt_int(o: Option<usize>) -> Option<int> {
    match o {
        Some(c) => Some(c as int),
        None => None,
    }
}

/// The nodes with a class member line added to the label of node `c`,
/// after a space.
pub open spec fn add_member(ns: Seq<NodeV>, c: int, m: Seq<char>) -> Seq<NodeV> {
    if 0 <= c < ns.len() {
        ns.update(c, NodeV { label: ns[c].label + seq![' '] + m, ..ns[c] })
    } else {
        ns
    }
}

/// Where the name starts in a `participant Name` or `actor Name` line
/// (lowercased), or 0 for other lines.
pub open spec fn participant_at(lw: Seq<char>) -> int {
    if has_prefix(lw, "participant "@) {
        12
    } else if has_prefix(lw, "actor "@) {
        6
    } else {
        0
    }
}

/// A `class Name {` line (lowercased `lw`, original `line`) opening a class
/// body.
pub open spec fn opens_class(lw: Seq<char>, line: Seq<char>) -> bool {
    has_prefix(lw, "class "@) && line.len() > 0 && line.last() == '{'
}

/// One source line's effect on the flowchart parser. Inside a class body,
/// each line up to `}` is a member, shown in the class's box.
pub open spec fn mermaid_step(st: FlowState, raw: Seq<char>) -> FlowState {
    let line = trim(raw);
    if line.len() == 0 || has_prefix(line, "%%"@) {
        st
    } else if st.3 is Some {
        if line == seq!['}'] {
            (st.0, st.1, st.2, None)
        } else {
            (st.0, st.1, (add_member(st.2.0, st.3.unwrap(), line), st.2.1), st.3)
        }
    } else {
        let lw = lower(line);
        if !st.1 && has_prefix(lw, "sequencediagram"@) {
            (Dir::Sequence, true, st.2, None)
        } else if !st.1 && header_rest(lw) is Some {
            (dir_of(trim(header_rest(lw).unwrap())), true, st.2, None)
        } else if participant_at(lw) > 0 {
            let name = if participant_at(lw) <= line.len() {
                trim(line.subrange(participant_at(lw), line.len() as int))
            } else {
                Seq::empty()
            };
            if name.len() == 0 {
                (st.0, true, st.2, None)
            } else {
                (st.0, true, (find_or(st.2.0, name, Shape::Rect).0, st.2.1), None)
            }
        } else if has_prefix(lw, "style "@) {
            (st.0, true, (style_nodes(line, st.2.0), st.2.1), None)
        } else if opens_class(lw, line) {
            let s = lead_ws(line, 6);
            let e = id_end(line, s);
            if e == s {
                (st.0, true, st.2, None)
            } else {
                let (ns1, idx) = find_or(st.2.0, line.subrange(s, e), Shape::Rect);
                (st.0, true, (ns1, st.2.1), Some(idx))
            }
        } else if ignored_stmt(lw) {
            (st.0, true, st.2, None)
        } else {
            let ps = split_by(line, ';');
            (st.0, true, stmts_upto(ps, ps.len() as int, st.2), None)
        }
    }
}

/// The parser state after the first `k` lines.
pub open spec fn mermaid_upto(ls: Seq<Seq<char>>, k: int) -> FlowState
    decreases k,
{
    if k <= 0 {
        (Dir::TD, false, (Seq::empty(), Seq::empty()), None)
    } else {
        mermaid_step(mermaid_upto(ls, k - 1), ls[k - 1])
    }
}

/// The flowchart that a Mermaid source describes.
pub open spec fn mermaid_of(src: Seq<char>) -> (Seq<NodeV>, Seq<EdgeV>, Dir) {
    let ls = text_lines(src);
    let st = mermaid_upto(ls, ls.len() as int);
    (st.2.0, st.2.1, st.0)
}

/// The value of a hexadecimal digit, or -1 (see `hex_val`).
fn hex_digit(c: char) -> (v: i32)
    ensures
        v == hex_val(c),
{
    if '0' <= c && c <= '9' {
        (c as u32 - '0' as u32) as i32
    } else if 'a' <= c && c <= 'f' {
        (c as u32 - 'a' as u32 + 10) as i32
    } else if 'A' <= c && c <= 'F' {
        (c as u32 - 'A' as u32 + 10) as i32
    } else {
        -1
    }
}

/// Apply a `style` statement to the nodes (see `style_nodes`).
fn style_line(line: &Vec<char>, nodes: &mut Vec<DNode>)
    ensures
        nodes_view(final(nodes)@) == style_nodes(line@, nodes_view(old(nodes)@)),
{
    let n = line.len();
    let s = if n >= 5 { skip_ws(line, 5) } else { n };
    proof {
        if n < 5 {
            assert(lead_ws(line@, 5) == 5);
        }
    }
    if n < 5 {
        return;
    }
    let mut e = s;
    while e < n && (is_alphanumeric(line[e]) || line[e] == '_' || line[e] == '-')
        invariant
            s <= e <= n == line@.len(),
            id_end(line@, e as int) == id_end(line@, s as int),
        decreases n - e,
    {
        e += 1;
    }
    if e == s {
        return;
    }
    let pat: Vec<char> = vec!['f', 'i', 'l', 'l', ':', '#'];
    proof {
        reveal_strlit("fill:#");
        assert(pat@ =~= "fill:#"@);
    }
    let k = match crate::app::find_chars(line, &pat) {
        Some(k) => k + 6,
        None => return,
    };
    if k > n || n - k < 6 {
        return;
    }
    let d0 = hex_digit(line[k]);
    let d1 = hex_digit(line[k + 1]);
    let d2 = hex_digit(line[k + 2]);
    let d3 = hex_digit(line[k + 3]);
    let d4 = hex_digit(line[k + 4]);
    let d5 = hex_digit(line[k + 5]);
    if d0 < 0 || d1 < 0 || d2 < 0 || d3 < 0 || d4 < 0 || d5 < 0 {
        return;
    }
    let c = ((d0 * 16 + d1) as u8, (d2 * 16 + d3) as u8, (d4 * 16 + d5) as u8);
    let id = copy_chars(line.as_slice(), s, e);
    let idx = find_or_add(nodes, &id, Shape::Rect);
    let ghost ns = nodes@;
    let old_node = nodes.remove(idx);
    nodes.insert(idx, DNode { fill: Some(c), ..old_node });
    proof {
        assert(nodes_view(nodes@) =~= nodes_view(ns).update(idx as int, NodeV { fill: Some(c), ..nodes_view(ns)[idx as int] }));
    }
}

/// Parse a Mermaid flowchart (`graph`/`flowchart` header optional). Every
/// source gives a diagram; statements that do not parse add nothing.
pub fn parse_mermaid(src: &str) -> (r: Option<Diagram>)
    ensures
        r is Some,
        r.unwrap().view() == mermaid_of(src@),
{
    let mut dir = Dir::TD;
    let mut nodes: Vec<DNode> = Vec::new();
    let mut edges: Vec<DEdge> = Vec::new();
    let mut started = false;
    let mut open: Option<usize> = None;
    let lines = lines_of(src);
    let ghost ls = text_lines(src@);
    let mut k: usize = 0;
    while k < lines.len()
        invariant
            k <= lines@.len(),
            lines@.map_values(|l: Vec<char>| l@) == ls,
            (dir, started, (nodes_view(nodes@), edges_view(edges@)), opt_int(open)) == mermaid_upto(ls, k as int),
            open matches Some(c) ==> c < nodes@.len(),
        decreases lines.len() - k,
    {
        let ghost st0 = (dir, started, (nodes_view(nodes@), edges_view(edges@)), opt_int(open));
        assert(lines@[k as int]@ == ls[k as int]);
        let line = trim_chars(lines[k].as_slice());
        k += 1;
        if line.len() == 0 || starts_with(line.as_slice(), "%%") {
            continue;
        }
        if let Some(c) = open {
            if line.len() == 1 && line[0] == '}' {
                proof {
                    assert(line@ =~= seq!['}']);
                }
                open = None;
            } else {
                proof {
                    assert(line@ != seq!['}']);
                }
                let ghost ns = nodes@;
                let old_node = nodes.remove(c);
                let mut lab = old_node.label;
                push_char(&mut lab, ' ');
                let ms = string_of(line.as_slice(), 0, line.len());
                proof {
                    assert(line@.subrange(0, line@.len() as int) =~= line@);
                }
                lab.append(ms.as_str());
                proof {
                    assert(ns[c as int] == old_node);
                    assert(nodes_view(ns)[c as int] == old_node.view());
                    assert(lab@ =~= old_node.label@ + seq![' '] + line@);
                }
                nodes.insert(c, DNode { label: lab, ..old_node });
                proof {
                    assert(nodes_view(nodes@) =~= add_member(nodes_view(ns), c as int, line@));
                }
            }
            continue;
        }
        assert(open is None);
        assert(st0.3 is None);
        let line_s = string_of(line.as_slice(), 0, line.len());
        proof {
            assert(line@.subrange(0, line@.len() as int) =~= line@);
        }
        let lw_s = to_lowercase(line_s.as_str());
        let lw = chars_of(lw_s.as_str());
        if !started && starts_with(lw.as_slice(), "sequencediagram") {
            dir = Dir::Sequence;
            started = true;
            continue;
        }
        if !started {
            let r1 = strip_prefix_chars(lw.as_slice(), "flowchart");
            let r2 = strip_prefix_chars(lw.as_slice(), "graph");
            let r3 = strip_prefix_chars(lw.as_slice(), "statediagram");
            let r4 = strip_prefix_chars(lw.as_slice(), "classdiagram");
            let rest = if r1.is_some() {
                r1
            } else if r2.is_some() {
                r2
            } else if r3.is_some() {
                r3
            } else {
                r4
            };
            if let Some(rest) = rest {
                let d = trim_chars(rest.as_slice());
                dir = if eq_str(d.as_slice(), "lr") {
                    Dir::LR
                } else if eq_str(d.as_slice(), "rl") {
                    Dir::RL
                } else if eq_str(d.as_slice(), "bt") {
                    Dir::BT
                } else {
                    Dir::TD
                };
                started = true;
                continue;
            }
            started = true;
        }
        let pk: usize = if starts_with(lw.as_slice(), "participant ") {
            12
        } else if starts_with(lw.as_slice(), "actor ") {
            6
        } else {
            0
        };
        if pk > 0 {
            if pk <= line.len() {
                let name = trim_chars(&line.as_slice()[pk..line.len()]);
                if name.len() > 0 {
                    find_or_add(&mut nodes, &name, Shape::Rect);
                }
            }
            continue;
        }
        if starts_with(lw.as_slice(), "style ") {
            style_line(&line, &mut nodes);
            continue;
        }
        if starts_with(lw.as_slice(), "class ") && line.len() > 0 && line[line.len() - 1] == '{' {
            let n = line.len();
            if n < 6 {
                continue;
            }
            let s = skip_ws(&line, 6);
            let mut e = s;
            while e < n && (is_alphanumeric(line[e]) || line[e] == '_' || line[e] == '-')
                invariant
                    s <= e <= n == line@.len(),
                    id_end(line@, e as int) == id_end(line@, s as int),
                decreases n - e,
            {
                e += 1;
            }
            if e > s {
                let id = copy_chars(line.as_slice(), s, e);
                open = Some(find_or_add(&mut nodes, &id, Shape::Rect));
            }
            continue;
        }
        if starts_with(lw.as_slice(), "classdef") || starts_with(lw.as_slice(), "style")
            || starts_with(lw.as_slice(), "class ") || starts_with(lw.as_slice(), "linkstyle")
            || starts_with(lw.as_slice(), "subgraph") || starts_with(lw.as_slice(), "end") {
            continue;
        }
        let pieces = split_chars(line.as_slice(), ';');
        let ghost ps = split_by(line@, ';');
        let mut j: usize = 0;
        while j < pieces.len()
            invariant
                j <= pieces@.len(),
                pieces@.map_values(|l: Vec<char>| l@) == ps,
                (nodes_view(nodes@), edges_view(edges@)) == stmts_upto(ps, j as int, st0.2),
            decreases pieces.len() - j,
        {
            assert(pieces@[j as int]@ == ps[j as int]);
            let stmt = trim_chars(pieces[j].as_slice());
            parse_chain(&stmt, &mut nodes, &mut edges);
            j += 1;
        }
    }
    proof {
        assert(lines@.map_values(|l: Vec<char>| l@).len() == lines@.len());
    }
    Some(Diagram { nodes, edges, dir })
}

// ---------------- PlantUML (subset) parser ----------------

/// A PlantUML participant or activity node: a rounded box.
pub open spec fn puml_node(id: Seq<char>, label: Seq<char>) -> NodeV {
    NodeV { id, label, shape: Shape::Round, x: 0, y: 0, w: 0, h: 0, fill: None }
}

/// The node with id `id` (its label replaced when one is given), added when
/// absent with the label, or else its id, as label.
pub open spec fn puml_find(ns: Seq<NodeV>, id: Seq<char>, label: Option<Seq<char>>) -> (Seq<NodeV>, int) {
    match find_id(ns, id, 0) {
        Some(i) => (
            match label {
                Some(l) => ns.update(i, NodeV { label: l, ..ns[i] }),
                None => ns,
            },
            i,
        ),
        None => (
            ns.push(
                puml_node(
                    id,
                    match label {
                        Some(l) => l,
                        None => id,
                    },
                ),
            ),
            ns.len() as int,
        ),
    }
}

/// A plain edge from `a` to `b`.
pub open spec fn plain_edge(a: int, b: int, label: Option<Seq<char>>) -> EdgeV {
    EdgeV { from: a, to: b, label, dashed: false, dotted: false, thick: false }
}

/// A message line `A -> B : text`: sender, receiver and message.
pub open spec fn message_of(line: Seq<char>) -> Option<(Seq<char>, Seq<char>, Option<Seq<char>>)> {
    match split_once(line, "->"@) {
        None => None,
        Some((a, b)) => {
            let lhs = trim(a);
            let (rhs, msg) = match split_once(b, ":"@) {
                Some((x, m)) => (trim(x), Some(trim(m))),
                None => (trim(b), None),
            };
            if lhs.len() > 0 && rhs.len() > 0 && alnum(lhs[0]) {
                Some((lhs, rhs, msg))
            } else {
                None
            }
        },
    }
}

/// PlantUML parser state: the graph, the node last added to the flow, and the
/// number of activities so far.
pub type PumlState = (GraphV, Option<int>, nat);

/// Link `idx` after the previous node of the flow and make it the previous one.
pub open spec fn puml_link(st: PumlState, ns: Seq<NodeV>, idx: int, auto: nat) -> PumlState {
    let es = match st.1 {
        Some(p) => st.0.1.push(plain_edge(p, idx, None)),
        None => st.0.1,
    };
    ((ns, es), Some(idx), auto)
}

/// One source line's effect on the PlantUML parser.
pub open spec fn puml_step(st: PumlState, raw: Seq<char>) -> PumlState {
    let line = trim(raw);
    if line.len() == 0 || has_prefix(line, "'"@) || line == "@startuml"@ || line == "@enduml"@ {
        st
    } else {
        match message_of(line) {
            Some((lhs, rhs, msg)) => {
                let (ns1, f) = puml_find(st.0.0, lhs, None);
                let (ns2, t) = puml_find(ns1, rhs, None);
                ((ns2, st.0.1.push(plain_edge(f, t, msg))), Some(t), st.2)
            },
            None => match strip_prefix(line, ":"@) {
                Some(rest) => {
                    let label = trim(rest.take(trail_char(rest, rest.len() as int, ';')));
                    let (ns1, idx) = puml_find(st.0.0, "act"@ + decimal(st.2), Some(label));
                    puml_link(st, ns1, idx, st.2 + 1)
                },
                None => if line == "start"@ || line == "stop"@ || line == "end"@ {
                    let (ns1, idx) = puml_find(st.0.0, line, Some(line));
                    puml_link(st, ns1, idx, st.2)
                } else {
                    st
                },
            },
        }
    }
}

/// The parser state after the first `k` lines.
pub open spec fn puml_upto(ls: Seq<Seq<char>>, k: int) -> PumlState
    decreases k,
{
    if k <= 0 {
        ((Seq::empty(), Seq::empty()), None, 0)
    } else {
        puml_step(puml_upto(ls, k - 1), ls[k - 1])
    }
}

/// The diagram that a PlantUML source describes: none when it has no node.
pub open spec fn plantuml_of(src: Seq<char>) -> Option<(Seq<NodeV>, Seq<EdgeV>, Dir)> {
    let ls = text_lines(src);
    let st = puml_upto(ls, ls.len() as int);
    if st.0.0.len() == 0 {
        None
    } else {
        Some((st.0.0, st.0.1, Dir::TD))
    }
}

/// The PlantUML node with id `id` (see `puml_find`); returns its index.
fn puml_find_or(nodes: &mut Vec<DNode>, id: &Vec<char>, label: Option<Vec<char>>) -> (i: usize)
    ensures
        (nodes_view(final(nodes)@), i as int) == puml_find(
            nodes_view(old(nodes)@),
            id@,
            opt_chars(label),
        ),
        (i as int) < final(nodes)@.len(),
{
    let ghost ns = nodes_view(nodes@);
    let ghost lv = opt_chars(label);
    let n = nodes.len();
    let mut k: usize = 0;
    while k < n
        invariant
            k <= n == nodes@.len(),
            ns == nodes_view(nodes@),
            ns == nodes_view(old(nodes)@),
            find_id(ns, id@, k as int) == find_id(ns, id@, 0),
            lv == opt_chars(label),
        decreases n - k,
    {
        if chars_eq_string(id, &nodes[k].id) {
            proof {
                assert(ns[k as int].id == id@);
                assert(find_id(ns, id@, 0) == Some(k as int));
            }
            if let Some(l) = label {
                let lab = string_of(l.as_slice(), 0, l.len());
                proof {
                    assert(l@.subrange(0, l@.len() as int) =~= l@);
                }
                let old_node = nodes.remove(k);
                nodes.insert(k, DNode { label: lab, ..old_node });
                proof {
                    assert(nodes_view(nodes@) =~= ns.update(k as int, NodeV { label: l@, ..ns[k as int] }));
                }
            }
            proof {
                assert((nodes_view(nodes@), k as int) == puml_find(ns, id@, lv));
            }
            return k;
        }
        k += 1;
    }
    let s = string_of(id.as_slice(), 0, id.len());
    let l = match label {
        Some(l) => l,
        None => copy_chars(id.as_slice(), 0, id.len()),
    };
    let lab = string_of(l.as_slice(), 0, l.len());
    proof {
        assert(id@.subrange(0, id@.len() as int) =~= id@);
        assert(l@.subrange(0, l@.len() as int) =~= l@);
    }
    nodes.push(DNode { id: s, label: lab, shape: Shape::Round, x: 0, y: 0, w: 0, h: 0, fill: None });
    proof {
        assert(nodes_view(nodes@) =~= ns.push(puml_node(id@, l@)));
    }
    n
}

/// A plain edge (no label, solid line).
fn plain(from: usize, to: usize, label: Option<String>) -> (e: DEdge)
    ensures
        e.view() == plain_edge(from as int, to as int, opt_view(label)),
{
    DEdge { from, to, label, dashed: false, dotted: false, thick: false }
}

/// The message parts of a `A -> B : text` line (see `message_of`).
fn parse_message(line: &Vec<char>) -> (r: Option<(Vec<char>, Vec<char>, Option<Vec<char>>)>)
    ensures
        match r {
            Some((a, b, m)) => message_of(line@) == Some(
                (
                    a@,
                    b@,
                    match m {
                        Some(x) => Some(x@),
                        None => None,
                    },
                ),
            ),
            None => message_of(line@) is None,
        },
{
    let (a, b) = match split_once_chars(line.as_slice(), "->") {
        Some(p) => p,
        None => return None,
    };
    let lhs = trim_chars(a.as_slice());
    let (rhs, msg) = match split_once_chars(b.as_slice(), ":") {
        Some((x, m)) => (trim_chars(x.as_slice()), Some(trim_chars(m.as_slice()))),
        None => (trim_chars(b.as_slice()), None),
    };
    if lhs.len() > 0 && rhs.len() > 0 && is_alphanumeric(lhs[0]) {
        Some((lhs, rhs, msg))
    } else {
        None
    }
}

/// Parse the PlantUML subset: `A -> B : message` lines, `:activity;` steps
/// and `start`/`stop`/`end`, each step linked after the previous one. No
/// diagram when no node was found.
pub fn parse_plantuml(src: &str) -> (r: Option<Diagram>)
    ensures
        match r {
            Some(d) => plantuml_of(src@) == Some(d.view()),
            None => plantuml_of(src@) is None,
        },
{
    let mut nodes: Vec<DNode> = Vec::new();
    let mut edges: Vec<DEdge> = Vec::new();
    let mut prev: Option<usize> = None;
    let mut auto: usize = 0;
    let lines = lines_of(src);
    let ghost ls = text_lines(src@);
    let mut k: usize = 0;
    while k < lines.len()
        invariant
            k <= lines@.len(),
            auto <= k,
            lines@.map_values(|l: Vec<char>| l@) == ls,
            ((nodes_view(nodes@), edges_view(edges@)), match prev {
                Some(p) => Some(p as int),
                None => None,
            }, auto as nat) == puml_upto(ls, k as int),
            prev matches Some(p) ==> (p as int) < nodes@.len(),
        decreases lines.len() - k,
    {
        let ghost st0 = puml_upto(ls, k as int);
        assert(lines@[k as int]@ == ls[k as int]);
        let line = trim_chars(lines[k].as_slice());
        k += 1;
        if line.len() == 0 || starts_with(line.as_slice(), "'") || eq_str(line.as_slice(), "@startuml")
            || eq_str(line.as_slice(), "@enduml") {
            continue;
        }
        if let Some((lhs, rhs, msg)) = parse_message(&line) {
            let f = puml_find_or(&mut nodes, &lhs, None);
            let t = puml_find_or(&mut nodes, &rhs, None);
            let label = match &msg {
                Some(m) => {
                    let s = string_of(m.as_slice(), 0, m.len());
                    proof {
                        assert(m@.subrange(0, m@.len() as int) =~= m@);
                    }
                    Some(s)
                },
                None => None,
            };
            let ghost es0 = edges_view(edges@);
            let e = plain(f, t, label);
            edges.push(e);
            proof {
                assert(edges_view(edges@) =~= es0.push(e.view()));
            }
            prev = Some(t);
            continue;
        }
        if let Some(rest) = strip_prefix_chars(line.as_slice(), ":") {
            let body = trim_end_char(rest.as_slice(), ';');
            let label = trim_chars(body.as_slice());
            let digits = decimal_chars(auto as u64);
            let mut id = chars_of("act");
            let ghost pre = id@;
            let mut q: usize = 0;
            while q < digits.len()
                invariant
                    q <= digits@.len(),
                    id@ == pre + digits@.take(q as int),
                decreases digits.len() - q,
            {
                id.push(digits[q]);
                q += 1;
                assert(id@ =~= pre + digits@.take(q as int));
            }
            proof {
                assert(digits@.take(digits@.len() as int) =~= digits@);
            }
            let idx = puml_find_or(&mut nodes, &id, Some(label));
            if let Some(p) = prev {
                let ghost es0 = edges_view(edges@);
                let e = plain(p, idx, None);
                edges.push(e);
                proof {
                    assert(edges_view(edges@) =~= es0.push(e.view()));
                }
            }
            prev = Some(idx);
            auto += 1;
            continue;
        }
        if eq_str(line.as_slice(), "start") || eq_str(line.as_slice(), "stop") || eq_str(
            line.as_slice(),
            "end",
        ) {
            let lab = copy_chars(line.as_slice(), 0, line.len());
            proof {
                assert(lab@ =~= line@);
            }
            let idx = puml_find_or(&mut nodes, &line, Some(lab));
            if let Some(p) = prev {
                let ghost es0 = edges_view(edges@);
                let e = plain(p, idx, None);
                edges.push(e);
                proof {
                    assert(edges_view(edges@) =~= es0.push(e.view()));
                }
            }
            prev = Some(idx);
            continue;
        }
    }
    if nodes.len() == 0 {
        return None;
    }
    Some(Diagram { nodes, edges, dir: Dir::TD })
}

// ---------------- Layout ----------------

/// Every edge joins two existing nodes.
pub open spec fn graph_ok(v: (Seq<NodeV>, Seq<EdgeV>, Dir)) -> bool {
    forall|k: int|
        0 <= k < v.1.len() ==> 0 <= #[trigger] v.1[k].from < v.0.len() && 0 <= v.1[k].to < v.0.len()
}

/// The widest span, in cells, that a laid-out diagram may take either way:
/// with the drawing offsets added, every coordinate, and the sum of two
/// (the middle of an edge), stays within 32-bit arithmetic.
pub open spec fn coord_max() -> int {
    1073479680
}

/// The columns and rows that the grid of a laid-out diagram spans (before
/// centring): layers times the widest box plus its gap one way, and the
/// fullest layer the other way; a sequence diagram's participants in one row.
pub open spec fn extent(v: (Seq<NodeV>, Seq<EdgeV>, Dir)) -> (int, int) {
    let n = v.0.len() as int;
    let lay = layers_of(n, v.1);
    let top = top_layer(lay, n);
    let col_w = max_w(v.0, n) + 4;
    let cols = max_cols(lay, n);
    match v.2 {
        Dir::TD | Dir::BT => (col_w * cols, (top + 1) * 6),
        Dir::LR | Dir::RL => ((top + 1) * col_w, cols * 6),
        Dir::Sequence => (n * col_w, 6),
    }
}

/// Small enough for 32-bit arithmetic: layer numbers fit an `i32`, the grid
/// spans at most `coord_max` cells either way, edge labels are no longer
/// than that, and a sequence diagram's messages fit as many rows.
pub open spec fn fits(v: (Seq<NodeV>, Seq<EdgeV>, Dir)) -> bool {
    &&& v.0.len() <= 2147483647
    &&& extent(v).0 <= coord_max()
    &&& extent(v).1 <= coord_max()
    &&& v.2 is Sequence ==> 4 + 2 * v.1.len() <= coord_max()
    &&& forall|k: int| 0 <= k < v.1.len() ==> (#[trigger] v.1[k].label matches Some(l) ==> l.len() <= coord_max())
}

/// Width of a node box: the label plus two cells of border and padding on
/// each side, at least five.
pub open spec fn node_w(label: Seq<char>) -> int {
    if label.len() + 4 >= 5 { label.len() + 4int } else { 5 }
}

/// `x + 1`, saturating at `i32::MAX`.
pub open spec fn sat_inc(x: int) -> int {
    if x + 1 > i32::MAX { i32::MAX as int } else { x + 1 }
}

/// One relaxation pass over the first `k` edges: each edge pushes its target
/// to at least one layer below its source. Also tells whether anything moved.
pub open spec fn relax_edges(layer: Seq<int>, es: Seq<EdgeV>, k: int) -> (Seq<int>, bool)
    decreases k,
{
    if k <= 0 {
        (layer, false)
    } else {
        let (l, ch) = relax_edges(layer, es, k - 1);
        let e = es[k - 1];
        if l[e.to] < sat_inc(l[e.from]) {
            (l.update(e.to, sat_inc(l[e.from])), true)
        } else {
            (l, ch)
        }
    }
}

/// Repeat relaxation passes until nothing moves, at most `n + 2` passes in
/// all (`passes` done so far).
pub open spec fn relax(layer: Seq<int>, es: Seq<EdgeV>, n: int, passes: int) -> Seq<int>
    decreases n + 2 - passes,
{
    if passes > n + 1 {
        layer
    } else {
        let (l, ch) = relax_edges(layer, es, es.len() as int);
        if ch {
            relax(l, es, n, passes + 1)
        } else {
            l
        }
    }
}

/// Layer of each node: its longest-path depth from the roots, capped at
/// `n - 1` so that cycles stay compact.
pub open spec fn layers_of(n: int, es: Seq<EdgeV>) -> Seq<int> {
    let l = relax(Seq::new(n as nat, |i: int| 0int), es, n, 0);
    Seq::new(n as nat, |i: int| if l[i] <= n - 1 { l[i] } else { n - 1 })
}

/// Number of positions before `k` holding `v`.
pub open spec fn count_eq(s: Seq<int>, v: int, k: int) -> int
    decreases k,
{
    if k <= 0 {
        0
    } else {
        count_eq(s, v, k - 1) + if s[k - 1] == v { 1int } else { 0int }
    }
}

/// The most nodes in one layer (at least one), over the first `k` nodes.
pub open spec fn max_cols(s: Seq<int>, k: int) -> int
    decreases k,
{
    if k <= 0 {
        1
    } else {
        let c = count_eq(s, s[k - 1], s.len() as int);
        let m = max_cols(s, k - 1);
        if c > m { c } else { m }
    }
}

/// The widest node box among the first `k` nodes (at least 1).
pub open spec fn max_w(ns: Seq<NodeV>, k: int) -> int
    decreases k,
{
    if k <= 0 {
        1
    } else {
        let w = node_w(ns[k - 1].label);
        let m = max_w(ns, k - 1);
        if w > m { w } else { m }
    }
}

/// The deepest layer among the first `k` nodes (at least 0).
pub open spec fn top_layer(s: Seq<int>, k: int) -> int
    decreases k,
{
    if k <= 0 {
        0
    } else {
        let m = top_layer(s, k - 1);
        if s[k - 1] > m { s[k - 1] } else { m }
    }
}

pub proof fn lemma_top_layer(s: Seq<int>, k: int, n: int)
    requires
        0 <= k <= s.len(),
        forall|j: int| 0 <= j < s.len() ==> 0 <= #[trigger] s[j] < n,
    ensures
        0 <= top_layer(s, k),
        k > 0 ==> top_layer(s, k) < n,
        forall|j: int| 0 <= j < k ==> #[trigger] s[j] <= top_layer(s, k),
    decreases k,
{
    if k > 0 {
        lemma_top_layer(s, k - 1, n);
    }
}

/// The laid-out nodes: sized boxes on a grid of layers (rows when vertical,
/// columns when horizontal, counted from the far side when bottom-up or
/// right-to-left), in node order within a layer; vertical grids are centred
/// in `area_w` columns. A sequence diagram puts its participants in one row,
/// in order.
pub open spec fn laid_out(v: (Seq<NodeV>, Seq<EdgeV>, Dir), area_w: int) -> Seq<NodeV> {
    let ns = v.0;
    let n = ns.len() as int;
    let layer = layers_of(n, v.1);
    let top = top_layer(layer, n);
    let col_w = max_w(ns, n) + 4;
    let row_h = 3 + 3;
    let total_w = grid_w(v);
    let x_off = if area_w - total_w > 0 { (area_w - total_w) / 2 } else { 0 };
    Seq::new(
        n as nat,
        |i: int|
            {
                let li = layer[i];
                let ci = count_eq(layer, li, i);
                NodeV {
                    w: node_w(ns[i].label),
                    h: 3,
                    x: match v.2 {
                        Dir::TD | Dir::BT => x_off + ci * col_w,
                        Dir::LR => li * col_w,
                        Dir::RL => (top - li) * col_w,
                        Dir::Sequence => i * col_w,
                    },
                    y: match v.2 {
                        Dir::TD => li * row_h,
                        Dir::BT => (top - li) * row_h,
                        Dir::LR | Dir::RL => ci * row_h,
                        Dir::Sequence => 0,
                    },
                    ..ns[i]
                }
            },
    )
}

/// Width of the top-down grid: the widest box plus a gap, times the most
/// nodes in one layer.
pub open spec fn grid_w(v: (Seq<NodeV>, Seq<EdgeV>, Dir)) -> int {
    let n = v.0.len() as int;
    (max_w(v.0, n) + 4) * max_cols(layers_of(n, v.1), n)
}

/// A sequence of machine integers as mathematical integers.
pub open spec fn ints(s: Seq<i32>) -> Seq<int> {
    s.map_values(|x: i32| x as int)
}

pub proof fn lemma_count_eq_bound(s: Seq<int>, v: int, k: int)
    requires
        0 <= k,
    ensures
        0 <= count_eq(s, v, k) <= k,
    decreases k,
{
    if k > 0 {
        lemma_count_eq_bound(s, v, k - 1);
    }
}

pub proof fn lemma_max_cols_bound(s: Seq<int>, k: int)
    requires
        0 <= k <= s.len(),
    ensures
        1 <= max_cols(s, k) <= if s.len() >= 1 { s.len() as int } else { 1 },
    decreases k,
{
    if k > 0 {
        lemma_max_cols_bound(s, k - 1);
        lemma_count_eq_bound(s, s[k - 1], s.len() as int);
    }
}

pub proof fn lemma_max_w_pos(ns: Seq<NodeV>, k: int)
    ensures
        1 <= max_w(ns, k),
    decreases k,
{
    if k > 0 {
        lemma_max_w_pos(ns, k - 1);
    }
}

pub proof fn lemma_max_cols_ge(s: Seq<int>, k: int, j: int)
    requires
        0 <= j < k <= s.len(),
    ensures
        count_eq(s, s[j], s.len() as int) <= max_cols(s, k),
    decreases k,
{
    if k > j + 1 {
        lemma_max_cols_ge(s, k - 1, j);
    }
}

pub proof fn lemma_below(a: int, b: int, c: int)
    by (nonlinear_arith)
    requires
        0 <= a < b,
        0 < c,
    ensures
        0 <= a * c,
        a * c + c <= b * c,
        c <= b * c,
{
}

pub proof fn lemma_relax_edges_nonneg(l: Seq<int>, es: Seq<EdgeV>, k: int, n: int)
    requires
        l.len() == n,
        forall|j: int| 0 <= j < n ==> #[trigger] l[j] >= 0,
        0 <= k <= es.len(),
        forall|q: int| 0 <= q < es.len() ==> 0 <= #[trigger] es[q].from < n && 0 <= es[q].to < n,
    ensures
        relax_edges(l, es, k).0.len() == n,
        forall|j: int| 0 <= j < n ==> #[trigger] relax_edges(l, es, k).0[j] >= 0,
    decreases k,
{
    if k > 0 {
        lemma_relax_edges_nonneg(l, es, k - 1, n);
        let e = es[k - 1];
        assert(0 <= e.from < n && 0 <= e.to < n);
    }
}

pub proof fn lemma_relax_nonneg(l: Seq<int>, es: Seq<EdgeV>, n: int, passes: int)
    requires
        l.len() == n,
        forall|j: int| 0 <= j < n ==> #[trigger] l[j] >= 0,
        forall|q: int| 0 <= q < es.len() ==> 0 <= #[trigger] es[q].from < n && 0 <= es[q].to < n,
    ensures
        relax(l, es, n, passes).len() == n,
        forall|j: int| 0 <= j < n ==> #[trigger] relax(l, es, n, passes)[j] >= 0,
    decreases n + 2 - passes,
{
    if passes <= n + 1 {
        lemma_relax_edges_nonneg(l, es, es.len() as int, n);
        let (l2, ch) = relax_edges(l, es, es.len() as int);
        if ch {
            lemma_relax_nonneg(l2, es, n, passes + 1);
        }
    }
}

/// The layer of every node lies in `0..n`.
pub proof fn lemma_layers_range(n: int, es: Seq<EdgeV>)
    requires
        0 <= n,
        forall|q: int| 0 <= q < es.len() ==> 0 <= #[trigger] es[q].from < n && 0 <= es[q].to < n,
    ensures
        layers_of(n, es).len() == n,
        forall|j: int| 0 <= j < n ==> 0 <= #[trigger] layers_of(n, es)[j] < n,
{
    lemma_relax_nonneg(Seq::new(n as nat, |i: int| 0int), es, n, 0);
}

/// What `fits` gives the layout: every box is at most `coord_max` wide, the
/// grid's factors are positive, and the layer numbers stay below `n`.
pub proof fn lemma_fits(v: (Seq<NodeV>, Seq<EdgeV>, Dir))
    requires
        fits(v),
        graph_ok(v),
        v.0.len() > 0,
    ensures
        ({
            let n = v.0.len() as int;
            let lay = layers_of(n, v.1);
            let col_w = max_w(v.0, n) + 4;
            &&& 5 <= col_w <= coord_max()
            &&& 1 <= max_cols(lay, n) <= n
            &&& 0 <= top_layer(lay, n) < n
            &&& forall|i: int| 0 <= i < n ==> #[trigger] node_w(v.0[i].label) <= col_w - 4
            &&& (v.2 is TD || v.2 is BT) ==> 0 <= grid_w(v) <= coord_max()
        }),
{
    let n = v.0.len() as int;
    let lay = layers_of(n, v.1);
    let col_w = max_w(v.0, n) + 4;
    let cols = max_cols(lay, n);
    let top = top_layer(lay, n);
    lemma_max_w_pos(v.0, n);
    lemma_max_cols_bound(lay, n);
    assert forall|q: int| 0 <= q < v.1.len() implies 0 <= #[trigger] v.1[q].from < n && 0 <= v.1[q].to < n by {
        assert(0 <= v.1[q].from < v.0.len());
    }
    lemma_layers_range(n, v.1);
    lemma_top_layer(lay, n, n);
    assert forall|i: int| 0 <= i < n implies #[trigger] node_w(v.0[i].label) <= col_w - 4 by {
        lemma_max_w_ge(v.0, n, i);
    }
    lemma_below(0, cols, col_w);
    lemma_below(0, top + 1, col_w);
    lemma_below(0, n, col_w);
}

/// A node with its box sized for its label.
pub open spec fn sized(nd: NodeV) -> NodeV {
    NodeV { w: node_w(nd.label), h: 3, ..nd }
}

/// Set the size of node `i`.
fn set_size(nodes: &mut Vec<DNode>, i: usize, w: i32, h: i32)
    requires
        i < old(nodes)@.len(),
    ensures
        final(nodes)@.len() == old(nodes)@.len(),
        nodes_view(final(nodes)@) == nodes_view(old(nodes)@).update(
            i as int,
            NodeV { w: w as int, h: h as int, ..nodes_view(old(nodes)@)[i as int] },
        ),
{
    let ghost before = nodes@;
    nodes[i].w = w;
    nodes[i].h = h;
    proof {
        assert(nodes_view(nodes@) =~= nodes_view(before).update(
            i as int,
            NodeV { w: w as int, h: h as int, ..nodes_view(before)[i as int] },
        ));
    }
}

/// Set the position of node `i`.
fn set_pos(nodes: &mut Vec<DNode>, i: usize, x: i32, y: i32)
    requires
        i < old(nodes)@.len(),
    ensures
        final(nodes)@.len() == old(nodes)@.len(),
        nodes_view(final(nodes)@) == nodes_view(old(nodes)@).update(
            i as int,
            NodeV { x: x as int, y: y as int, ..nodes_view(old(nodes)@)[i as int] },
        ),
{
    let ghost before = nodes@;
    nodes[i].x = x;
    nodes[i].y = y;
    proof {
        assert(nodes_view(nodes@) =~= nodes_view(before).update(
            i as int,
            NodeV { x: x as int, y: y as int, ..nodes_view(before)[i as int] },
        ));
    }
}

/// A vector of `n` copies of `v`.
fn filled_i32(n: usize, v: i32) -> (r: Vec<i32>)
    ensures
        r@.len() == n,
        forall|j: int| 0 <= j < n ==> r@[j] == v,
{
    let mut r: Vec<i32> = Vec::new();
    let mut z: usize = 0;
    while z < n
        invariant
            z <= n,
            r@.len() == z,
            forall|j: int| 0 <= j < z ==> r@[j] == v,
        decreases n - z,
    {
        r.push(v);
        z += 1;
    }
    r
}

/// A vector of `n` zeros.
fn zeros(n: usize) -> (r: Vec<usize>)
    ensures
        r@.len() == n,
        forall|j: int| 0 <= j < n ==> r@[j] == 0,
{
    let mut r: Vec<usize> = Vec::new();
    let mut z: usize = 0;
    while z < n
        invariant
            z <= n,
            r@.len() == z,
            forall|j: int| 0 <= j < z ==> r@[j] == 0,
        decreases n - z,
    {
        r.push(0);
        z += 1;
    }
    r
}

/// The layer of each node (see `layers_of`).
pub(crate) fn compute_layers(edges: &Vec<DEdge>, n: usize) -> (layer: Vec<i32>)
    requires
        0 < n <= 2147483647,
        forall|k: int| 0 <= k < edges@.len() ==> #[trigger] edges@[k].from < n && edges@[k].to < n,
    ensures
        ints(layer@) == layers_of(n as int, edges_view(edges@)),
        forall|j: int| 0 <= j < n ==> 0 <= #[trigger] layer@[j] < n,
        layer@.len() == n,
{
    let ghost es = edges_view(edges@);
    let mut layer = filled_i32(n, 0);
    proof {
        assert(ints(layer@) =~= Seq::new(n as nat, |i: int| 0int));
    }
    let ghost goal = relax(ints(layer@), es, n as int, 0);
    let m = edges.len();
    let mut changed = true;
    let mut passes: usize = 0;
    while changed && passes <= n + 1
        invariant
            n <= 2147483647,
            m == edges@.len() == es.len(),
            es == edges_view(edges@),
            forall|k: int| 0 <= k < edges@.len() ==> #[trigger] edges@[k].from < n && edges@[k].to < n,
            layer@.len() == n,
            passes <= n + 2,
            forall|j: int| 0 <= j < n ==> #[trigger] layer@[j] >= 0,
            changed ==> relax(ints(layer@), es, n as int, passes as int) == goal,
            !changed ==> ints(layer@) == goal,
        decreases n + 2 - passes,
    {
        let ghost start = ints(layer@);
        changed = false;
        passes += 1;
        let mut k: usize = 0;
        while k < m
            invariant
                k <= m == edges@.len() == es.len(),
                es == edges_view(edges@),
                forall|k: int| 0 <= k < edges@.len() ==> #[trigger] edges@[k].from < n && edges@[k].to < n,
                layer@.len() == n,
                forall|j: int| 0 <= j < n ==> #[trigger] layer@[j] >= 0,
                (ints(layer@), changed) == relax_edges(start, es, k as int),
            decreases m - k,
        {
            let from = edges[k].from;
            let to = edges[k].to;
            assert(es[k as int] == edges@[k as int].view());
            let lf = layer[from];
            let cand = if lf == i32::MAX { lf } else { lf + 1 };
            if layer[to] < cand {
                layer.set(to, cand);
                changed = true;
                proof {
                    assert(ints(layer@) =~= relax_edges(start, es, k as int).0.update(to as int, cand as int));
                }
            }
            k += 1;
        }
    }
    proof {
        assert(ints(layer@) == goal);
    }
    let ghost relaxed = ints(layer@);
    // cap layers (handles cycles so the layout stays compact)
    let cap = (n - 1) as i32;
    let mut q: usize = 0;
    while q < n
        invariant
            q <= n == layer@.len() == relaxed.len(),
            n <= 2147483647,
            cap == n - 1,
            forall|j: int| 0 <= j < q ==> #[trigger] layer@[j] == (if relaxed[j] <= n - 1 { relaxed[j] } else { n - 1 }),
            forall|j: int| q <= j < n ==> #[trigger] layer@[j] == relaxed[j],
            forall|j: int| 0 <= j < n ==> #[trigger] relaxed[j] >= 0,
        decreases n - q,
    {
        if layer[q] > cap {
            layer.set(q, cap);
        }
        q += 1;
    }
    proof {
        assert(ints(layer@) =~= layers_of(n as int, es));
    }
    layer
}

/// The farthest a laid-out box reaches either way: the grid's span plus the
/// centring offset in an area of at most 65535 columns.
pub open spec fn place_max() -> int {
    coord_max() + 32768
}

/// Boxes that lie in the first quadrant, within `place_max` cells, sized as
/// laid out.
pub open spec fn placed_ok(ns: Seq<NodeV>) -> bool {
    forall|i: int|
        0 <= i < ns.len() ==> 0 <= #[trigger] ns[i].x && 0 <= ns[i].y && 5 <= ns[i].w && ns[i].x + ns[i].w
            <= place_max() && ns[i].y + ns[i].h <= place_max() && ns[i].h == 3
}

/// Place every node of the diagram (see `laid_out`); edges and direction
/// stay as they are.
pub fn layout(d: &mut Diagram, area_w: i32)
    requires
        graph_ok(old(d).view()),
        fits(old(d).view()),
        area_w >= 0,
    ensures
        final(d).view() == (laid_out(old(d).view(), area_w as int), old(d).view().1, old(d).view().2),
        area_w <= 65535 ==> placed_ok(final(d).view().0),
        forall|i: int, j: int|
            0 <= i < j < final(d).view().0.len() ==> #[trigger] boxes_apart(final(d).view().0[i], #[trigger] final(d).view().0[j]),
{
    let ghost v0 = d.view();
    proof {
        assert forall|i: int, j: int| 0 <= i < j < v0.0.len() implies #[trigger] boxes_apart(laid_out(v0, area_w as int)[i], #[trigger] laid_out(v0, area_w as int)[j]) by {
            law_layout_no_overlap(v0, area_w as int, i, j);
        }
    }
    let n = d.nodes.len();
    if n == 0 {
        proof {
            assert(laid_out(v0, area_w as int) =~= v0.0);
        }
        return;
    }
    proof {
        lemma_fits(v0);
    }
    // size each node
    let mut i: usize = 0;
    while i < n
        invariant
            i <= n == d.nodes@.len() == v0.0.len(),
            d.view().1 == v0.1,
            d.view().2 == v0.2,
            fits(v0),
            forall|j: int| 0 <= j < n ==> #[trigger] node_w(v0.0[j].label) <= max_w(v0.0, n as int),
            max_w(v0.0, n as int) + 4 <= coord_max(),
            forall|j: int| 0 <= j < i ==> #[trigger] nodes_view(d.nodes@)[j] == sized(v0.0[j]),
            forall|j: int| i <= j < n ==> #[trigger] nodes_view(d.nodes@)[j] == v0.0[j],
        decreases n - i,
    {
        assert(nodes_view(d.nodes@)[i as int] == v0.0[i as int]);
        assert(node_w(v0.0[i as int].label) <= max_w(v0.0, n as int));
        let len = d.nodes[i].label.as_str().unicode_len();
        let lw = len as i32;
        let w = if lw + 4 >= 5 { lw + 4 } else { 5 };
        set_size(&mut d.nodes, i, w, 3);
        i += 1;
    }
    let ghost sz = nodes_view(d.nodes@);
    proof {
        assert(sz =~= v0.0.map_values(|nd: NodeV| sized(nd)));
    }
    // layering via longest path from the roots
    proof {
        assert forall|k: int| 0 <= k < d.edges@.len() implies #[trigger] d.edges@[k].from < n
            && d.edges@[k].to < n by {
            assert(edges_view(d.edges@)[k] == d.edges@[k].view());
            assert(0 <= v0.1[k].from < v0.0.len() && 0 <= v0.1[k].to < v0.0.len());
        }
    }
    let layer = compute_layers(&d.edges, n);
    let ghost lay = layers_of(n as int, v0.1);
    // per-layer counts, the fullest layer, the widest box
    let mut cnt = zeros(n);
    let mut q: usize = 0;
    while q < n
        invariant
            q <= n == layer@.len() == cnt@.len(),
            ints(layer@) == lay,
            forall|j: int| 0 <= j < n ==> 0 <= #[trigger] layer@[j] < n,
            forall|l: int| 0 <= l < n ==> #[trigger] cnt@[l] == count_eq(lay, l, q as int),
        decreases n - q,
    {
        let l = layer[q] as usize;
        proof {
            lemma_count_eq_bound(lay, l as int, q as int);
        }
        cnt.set(l, cnt[l] + 1);
        q += 1;
    }
    let mut cols: usize = 1;
    let mut q: usize = 0;
    while q < n
        invariant
            q <= n == layer@.len() == cnt@.len() == lay.len(),
            ints(layer@) == lay,
            forall|j: int| 0 <= j < n ==> 0 <= #[trigger] layer@[j] < n,
            forall|l: int| 0 <= l < n ==> #[trigger] cnt@[l] == count_eq(lay, l, n as int),
            cols == max_cols(lay, q as int),
        decreases n - q,
    {
        let c = cnt[layer[q] as usize];
        assert(lay[q as int] == layer@[q as int]);
        if c > cols {
            cols = c;
        }
        q += 1;
    }
    let mut top: usize = 0;
    let mut q: usize = 0;
    while q < n
        invariant
            q <= n == layer@.len() == lay.len(),
            ints(layer@) == lay,
            forall|j: int| 0 <= j < n ==> 0 <= #[trigger] layer@[j] < n,
            top == top_layer(lay, q as int),
        decreases n - q,
    {
        assert(lay[q as int] == layer@[q as int]);
        if layer[q] as usize > top {
            top = layer[q] as usize;
        }
        q += 1;
    }
    proof {
        assert forall|j: int| 0 <= j < lay.len() implies 0 <= #[trigger] lay[j] < n by {
            assert(lay[j] == layer@[j]);
        }
        lemma_top_layer(lay, n as int, n as int);
    }
    let mut maxw: i32 = 1;
    let mut maxh: i32 = 1;
    let mut q: usize = 0;
    while q < n
        invariant
            q <= n == d.nodes@.len() == v0.0.len(),
            nodes_view(d.nodes@) == sz,
            forall|j: int| 0 <= j < n ==> #[trigger] sz[j] == sized(v0.0[j]),
            maxw == max_w(v0.0, q as int),
            maxh == if q == 0 { 1int } else { 3int },
        decreases n - q,
    {
        assert(sz[q as int] == sized(v0.0[q as int]));
        assert(d.nodes@[q as int].view() == sz[q as int]);
        if d.nodes[q].w > maxw {
            maxw = d.nodes[q].w;
        }
        if d.nodes[q].h > maxh {
            maxh = d.nodes[q].h;
        }
        q += 1;
    }
    let col_w = maxw + 4;
    let row_h = maxh + 3;
    let dir = d.dir;
    let ghost ext = extent(v0);
    let vert = match dir {
        Dir::TD | Dir::BT => true,
        _ => false,
    };
    proof {
        assert(maxw == max_w(v0.0, n as int));
        lemma_max_cols_bound(lay, n as int);
        assert(cols == max_cols(lay, n as int));
        assert(top == top_layer(lay, n as int));
        if vert {
            assert(grid_w(v0) == col_w * cols);
            assert(col_w * cols <= coord_max());
        }
    }
    let total_w = if vert { col_w * (cols as i32) } else { 0 };
    let x_off = if vert && area_w - total_w > 0 { (area_w - total_w) / 2 } else { 0 };
    // positions: a grid with one layer per row (top-down) or column (left-right)
    let mut cur = zeros(n);
    let ghost target = laid_out(v0, area_w as int);
    let mut q: usize = 0;
    while q < n
        invariant
            q <= n == layer@.len() == cur@.len() == d.nodes@.len() == sz.len() == v0.0.len(),
            0 < n <= 2147483647,
            ints(layer@) == lay,
            lay == layers_of(n as int, v0.1),
            forall|j: int| 0 <= j < n ==> 0 <= #[trigger] layer@[j] < n,
            forall|l: int| 0 <= l < n ==> #[trigger] cur@[l] == count_eq(lay, l, q as int),
            col_w == max_w(v0.0, n as int) + 4,
            5 <= col_w <= coord_max(),
            cols == max_cols(lay, n as int),
            row_h == 6,
            top == top_layer(lay, n as int),
            top < n,
            forall|j: int| 0 <= j < n ==> #[trigger] lay[j] <= top,
            vert == (dir is TD || dir is BT),
            vert ==> x_off == (if area_w - grid_w(v0) > 0 { (area_w - grid_w(v0)) / 2 } else { 0 }),
            !vert ==> x_off == 0,
            0 <= area_w <= 2147483647,
            0 <= x_off,
            vert ==> grid_w(v0) == col_w * cols,
            vert ==> 0 <= col_w * cols <= coord_max(),
            vert ==> x_off + col_w * cols <= 2147483647,
            vert ==> (top + 1) * 6 <= coord_max(),
            (dir is LR || dir is RL) ==> (top + 1) * col_w <= coord_max() && cols * 6 <= coord_max(),
            dir is Sequence ==> n * col_w <= coord_max(),
            1 <= cols <= n,
            ext == extent(v0),
            dir == v0.2,
            d.view().1 == v0.1,
            d.view().2 == v0.2,
            target == laid_out(v0, area_w as int),
            forall|j: int| 0 <= j < n ==> #[trigger] sz[j] == sized(v0.0[j]),
            forall|j: int| 0 <= j < n ==> #[trigger] node_w(v0.0[j].label) <= col_w - 4,
            forall|j: int| 0 <= j < q ==> #[trigger] nodes_view(d.nodes@)[j] == target[j],
            forall|j: int| q <= j < n ==> #[trigger] nodes_view(d.nodes@)[j] == sz[j],
            area_w <= 65535 ==> placed_ok(nodes_view(d.nodes@).take(q as int)),
            fits(v0),
        decreases n - q,
    {
        let l = layer[q] as usize;
        let ci = cur[l];
        proof {
            assert(lay[q as int] == l);
            assert(l <= top);
        }
        let r = top - l;
        proof {
            lemma_count_eq_lt(lay, l as int, q as int, n as int);
            lemma_max_cols_ge(lay, n as int, q as int);
            lemma_below(ci as int, cols as int, col_w as int);
            lemma_below(ci as int, cols as int, 6);
            lemma_below(l as int, top + 1, col_w as int);
            lemma_below(r as int, top + 1, col_w as int);
            lemma_below(l as int, top + 1, 6);
            lemma_below(r as int, top + 1, 6);
            lemma_below(q as int, n as int, col_w as int);
        }
        let (x, y) = match dir {
            Dir::TD => (x_off + (ci as i32) * col_w, (l as i32) * row_h),
            Dir::BT => (x_off + (ci as i32) * col_w, (r as i32) * row_h),
            Dir::LR => ((l as i32) * col_w, (ci as i32) * row_h),
            Dir::RL => ((r as i32) * col_w, (ci as i32) * row_h),
            Dir::Sequence => ((q as i32) * col_w, 0),
        };
        assert(nodes_view(d.nodes@)[q as int] == sz[q as int]);
        let ghost prev = nodes_view(d.nodes@);
        set_pos(&mut d.nodes, q, x, y);
        proof {
            assert(nodes_view(d.nodes@)[q as int] == target[q as int]);
            if area_w <= 65535 {
                assert(x_off <= 32767);
                let nq = nodes_view(d.nodes@)[q as int];
                assert(nq.w == node_w(v0.0[q as int].label));
                assert(0 <= x && 0 <= y && 5 <= nq.w && x + nq.w <= place_max() && y + 3 <= place_max());
                assert forall|j: int| 0 <= j < q + 1 implies 0 <= #[trigger] nodes_view(d.nodes@).take(q + 1)[j].x
                    && 0 <= nodes_view(d.nodes@).take(q + 1)[j].y && 5 <= nodes_view(d.nodes@).take(q + 1)[j].w
                    && nodes_view(d.nodes@).take(q + 1)[j].x + nodes_view(d.nodes@).take(q + 1)[j].w <= place_max()
                    && nodes_view(d.nodes@).take(q + 1)[j].y + nodes_view(d.nodes@).take(q + 1)[j].h <= place_max()
                    && nodes_view(d.nodes@).take(q + 1)[j].h == 3 by {
                    if j < q {
                        assert(prev.take(q as int)[j] == prev[j]);
                    }
                }
            }
        }
        cur.set(l, ci + 1);
        q += 1;
    }
    proof {
        assert(nodes_view(d.nodes@) =~= target);
        assert(nodes_view(d.nodes@).take(n as int) =~= nodes_view(d.nodes@));
    }
}


pub proof fn lemma_count_eq_lt(s: Seq<int>, v: int, i: int, j: int)
    requires
        0 <= i < j <= s.len(),
        s[i] == v,
    ensures
        count_eq(s, v, i) < count_eq(s, v, j),
    decreases j,
{
    if j > i + 1 {
        lemma_count_eq_lt(s, v, i, j - 1);
    }
}

pub proof fn lemma_max_w_ge(ns: Seq<NodeV>, k: int, i: int)
    requires
        0 <= i < k <= ns.len(),
    ensures
        node_w(ns[i].label) <= max_w(ns, k),
    decreases k,
{
    if k > i + 1 {
        lemma_max_w_ge(ns, k - 1, i);
    }
}

proof fn lemma_apart(a: int, b: int, c: int, w: int)
    by (nonlinear_arith)
    requires
        a != b,
        0 < w < c,
    ensures
        a * c + w <= b * c || b * c + w <= a * c,
{
}

/// Two boxes share no cell.
pub open spec fn boxes_apart(a: NodeV, b: NodeV) -> bool {
    ||| a.x + a.w <= b.x
    ||| b.x + b.w <= a.x
    ||| a.y + a.h <= b.y
    ||| b.y + b.h <= a.y
}

/// Laid out, no two node boxes overlap: boxes in different layers lie in
/// different rows (or columns) of the grid, and boxes in one layer in
/// different places along it; the participants of a sequence diagram stand
/// side by side.
pub proof fn law_layout_no_overlap(v: (Seq<NodeV>, Seq<EdgeV>, Dir), area_w: int, i: int, j: int)
    requires
        0 <= i < j < v.0.len(),
    ensures
        boxes_apart(laid_out(v, area_w)[i], laid_out(v, area_w)[j]),
{
    let ns0 = v.0;
    let n = ns0.len() as int;
    let layer = layers_of(n, v.1);
    let top = top_layer(layer, n);
    let col_w = max_w(ns0, n) + 4;
    let ns = laid_out(v, area_w);
    lemma_max_w_ge(ns0, n, i);
    lemma_max_w_ge(ns0, n, j);
    let li = layer[i];
    let lj = layer[j];
    let ci = count_eq(layer, li, i);
    let cj = count_eq(layer, lj, j);
    assert(ns[i].w < col_w && ns[j].w < col_w && ns[i].h == 3 && ns[j].h == 3);
    if v.2 is Sequence {
        lemma_apart(i, j, col_w, ns[i].w);
        lemma_apart(i, j, col_w, ns[j].w);
    } else if li != lj {
        lemma_apart(li, lj, 6, 3);
        lemma_apart(top - li, top - lj, 6, 3);
        lemma_apart(li, lj, col_w, ns[i].w);
        lemma_apart(li, lj, col_w, ns[j].w);
        lemma_apart(top - li, top - lj, col_w, ns[i].w);
        lemma_apart(top - li, top - lj, col_w, ns[j].w);
    } else {
        lemma_count_eq_lt(layer, li, i, j);
        assert(ci != cj);
        lemma_apart(ci, cj, 6, 3);
        lemma_apart(ci, cj, col_w, ns[i].w);
        lemma_apart(ci, cj, col_w, ns[j].w);
    }
}


/// A numbering of the `n` nodes in `0..n` that every edge climbs: the edges
/// form no cycle.
pub open spec fn ranked(r: Seq<int>, n: int, es: Seq<EdgeV>) -> bool {
    &&& r.len() == n
    &&& forall|v: int| 0 <= v < n ==> 0 <= #[trigger] r[v] < n
    &&& forall|k: int|
        0 <= k < es.len() ==> 0 <= #[trigger] es[k].from < n && 0 <= es[k].to < n && r[es[k].from] < r[es[k].to]
}

/// The most edges on a path of at most `k` edges that ends at `v`.
pub open spec fn lp(es: Seq<EdgeV>, v: int, k: nat) -> int
    decreases k, 0int, 0int,
{
    if k == 0 {
        0
    } else {
        lp_over(es, v, (k - 1) as nat, es.len() as int)
    }
}

/// The most, over the first `j` edges into `v`, of one more than `lp` of
/// the edge's source with at most `k` edges (0 when there is none).
pub open spec fn lp_over(es: Seq<EdgeV>, v: int, k: nat, j: int) -> int
    decreases k, 1int, j,
{
    if j <= 0 {
        0
    } else {
        let rest = lp_over(es, v, k, j - 1);
        if es[j - 1].to == v {
            let c = lp(es, es[j - 1].from, k) + 1;
            if c > rest { c } else { rest }
        } else {
            rest
        }
    }
}

proof fn lemma_lp_over_ge(es: Seq<EdgeV>, v: int, k: nat, j: int, i: int)
    requires
        0 <= i < j <= es.len(),
        es[i].to == v,
    ensures
        lp_over(es, v, k, j) >= lp(es, es[i].from, k) + 1,
    decreases j,
{
    if j > i + 1 {
        lemma_lp_over_ge(es, v, k, j - 1, i);
    }
}

proof fn lemma_lp_over_le(es: Seq<EdgeV>, v: int, k: nat, j: int, x: int)
    requires
        0 <= j <= es.len(),
        0 <= x,
        forall|i: int| 0 <= i < j && #[trigger] es[i].to == v ==> lp(es, es[i].from, k) + 1 <= x,
    ensures
        0 <= lp_over(es, v, k, j) <= x,
    decreases j,
{
    if j > 0 {
        lemma_lp_over_le(es, v, k, j - 1, x);
    }
}

/// Under a ranking, a path ending at `v` has at most `r[v]` edges.
proof fn lemma_lp_rank(es: Seq<EdgeV>, r: Seq<int>, n: int, v: int, k: nat)
    requires
        ranked(r, n, es),
        0 <= v < n,
    ensures
        0 <= lp(es, v, k) <= r[v],
    decreases k,
{
    if k > 0 {
        assert forall|i: int| 0 <= i < es.len() && #[trigger] es[i].to == v implies lp(es, es[i].from, (k - 1) as nat) + 1
            <= r[v] by {
            lemma_lp_rank(es, r, n, es[i].from, (k - 1) as nat);
        }
        lemma_lp_over_le(es, v, (k - 1) as nat, es.len() as int, r[v]);
    }
}

proof fn lemma_lp_over_same(es: Seq<EdgeV>, r: Seq<int>, n: int, v: int, k1: nat, k2: nat, j: int)
    requires
        ranked(r, n, es),
        0 <= v < n,
        0 <= j <= es.len(),
        forall|i: int|
            0 <= i < j && #[trigger] es[i].to == v ==> lp(es, es[i].from, k1) == lp(es, es[i].from, k2),
    ensures
        lp_over(es, v, k1, j) == lp_over(es, v, k2, j),
    decreases j,
{
    if j > 0 {
        lemma_lp_over_same(es, r, n, v, k1, k2, j - 1);
    }
}

/// Under a ranking, paths ending at `v` have at most `r[v]` edges, so
/// allowing more changes nothing.
proof fn lemma_lp_stable(es: Seq<EdgeV>, r: Seq<int>, n: int, v: int, k1: nat, k2: nat)
    requires
        ranked(r, n, es),
        0 <= v < n,
        k1 >= r[v],
        k2 >= r[v],
    ensures
        lp(es, v, k1) == lp(es, v, k2),
    decreases r[v],
{
    if r[v] == 0 {
        assert forall|i: int| 0 <= i < es.len() implies #[trigger] es[i].to != v by {
            assert(r[es[i].from] < r[es[i].to]);
            assert(0 <= r[es[i].from]);
        }
        if k1 > 0 {
            lemma_lp_over_le(es, v, (k1 - 1) as nat, es.len() as int, 0);
        }
        if k2 > 0 {
            lemma_lp_over_le(es, v, (k2 - 1) as nat, es.len() as int, 0);
        }
    } else {
        assert forall|i: int| 0 <= i < es.len() && #[trigger] es[i].to == v implies lp(es, es[i].from, (k1 - 1) as nat)
            == lp(es, es[i].from, (k2 - 1) as nat) by {
            let u = es[i].from;
            assert(r[u] < r[v]);
            assert(0 <= r[u]);
            lemma_lp_stable(es, r, n, u, (k1 - 1) as nat, (k2 - 1) as nat);
        }
        lemma_lp_over_same(es, r, n, v, (k1 - 1) as nat, (k2 - 1) as nat, es.len() as int);
    }
}

/// The settled depth of every node: the longest path into it.
pub open spec fn depth(es: Seq<EdgeV>, n: int) -> Seq<int> {
    Seq::new(n as nat, |v: int| lp(es, v, n as nat))
}

/// Under a ranking, the settled depths are in `0..n` and every edge climbs
/// at least one.
proof fn lemma_depth(es: Seq<EdgeV>, r: Seq<int>, n: int)
    requires
        ranked(r, n, es),
    ensures
        forall|v: int| 0 <= v < n ==> 0 <= #[trigger] depth(es, n)[v] < n,
        forall|k: int|
            0 <= k < es.len() ==> #[trigger] depth(es, n)[es[k].to] >= depth(es, n)[es[k].from] + 1,
{
    let h = depth(es, n);
    assert forall|v: int| 0 <= v < n implies 0 <= #[trigger] h[v] < n by {
        lemma_lp_rank(es, r, n, v, n as nat);
    }
    assert forall|k: int| 0 <= k < es.len() implies #[trigger] h[es[k].to] >= h[es[k].from] + 1 by {
        let e = es[k];
        assert(0 <= e.from < n && 0 <= e.to < n);
        assert(n >= 1);
        lemma_lp_over_ge(es, e.to, (n - 1) as nat, es.len() as int, k);
        lemma_lp_stable(es, r, n, e.from, (n - 1) as nat, n as nat);
    }
}

/// Layers that satisfy every edge dominate every `lp`.
proof fn lemma_fixed_ge_lp(es: Seq<EdgeV>, l: Seq<int>, n: int, v: int, k: nat)
    requires
        l.len() == n,
        0 <= v < n,
        forall|j: int| 0 <= j < n ==> #[trigger] l[j] >= 0,
        forall|q: int| 0 <= q < es.len() ==> 0 <= #[trigger] es[q].from < n && 0 <= es[q].to < n,
        forall|q: int| 0 <= q < es.len() ==> #[trigger] l[es[q].to] >= l[es[q].from] + 1,
    ensures
        lp(es, v, k) <= l[v],
    decreases k,
{
    if k > 0 {
        assert forall|i: int| 0 <= i < es.len() && #[trigger] es[i].to == v implies lp(es, es[i].from, (k - 1) as nat) + 1
            <= l[v] by {
            lemma_fixed_ge_lp(es, l, n, es[i].from, (k - 1) as nat);
            assert(l[es[i].to] >= l[es[i].from] + 1);
        }
        lemma_lp_over_le(es, v, (k - 1) as nat, es.len() as int, l[v]);
    }
}

/// One pass over the first `k` edges, from layers between `lp(.., p)` and
/// the settled depths: values only rise and stay below the depths, each
/// edge passed lifts its target above `lp` of its source, and a pass that
/// changes nothing found every edge satisfied.
proof fn lemma_pass(es: Seq<EdgeV>, r: Seq<int>, n: int, l: Seq<int>, p: nat, k: int)
    requires
        ranked(r, n, es),
        n <= 2147483647,
        l.len() == n,
        0 <= k <= es.len(),
        forall|v: int| 0 <= v < n ==> lp(es, v, p) <= #[trigger] l[v] <= depth(es, n)[v],
    ensures
        ({
            let (l2, ch) = relax_edges(l, es, k);
            &&& l2.len() == n
            &&& forall|v: int| 0 <= v < n ==> l[v] <= #[trigger] l2[v] <= depth(es, n)[v]
            &&& forall|i: int| 0 <= i < k ==> #[trigger] l2[es[i].to] >= lp(es, es[i].from, p) + 1
            &&& !ch ==> l2 == l
            &&& !ch ==> forall|i: int| 0 <= i < k ==> #[trigger] l[es[i].to] >= l[es[i].from] + 1
        }),
    decreases k,
{
    lemma_depth(es, r, n);
    if k > 0 {
        lemma_pass(es, r, n, l, p, k - 1);
        let (l1, ch1) = relax_edges(l, es, k - 1);
        let e = es[k - 1];
        assert(0 <= e.from < n && 0 <= e.to < n);
        let h = depth(es, n);
        assert(h[e.to] >= h[e.from] + 1);
        assert(l1[e.from] < n);
        assert(sat_inc(l1[e.from]) == l1[e.from] + 1);
        let (l2, ch) = relax_edges(l, es, k);
        assert forall|v: int| 0 <= v < n implies l[v] <= #[trigger] l2[v] <= h[v] by {
            if l1[e.to] < sat_inc(l1[e.from]) && v == e.to {
                assert(l1[e.from] + 1 <= h[e.from] + 1);
            }
        }
        assert forall|i: int| 0 <= i < k implies #[trigger] l2[es[i].to] >= lp(es, es[i].from, p) + 1 by {
            if i < k - 1 {
                assert(l1[es[i].to] >= lp(es, es[i].from, p) + 1);
            } else {
                assert(l[e.from] <= l1[e.from]);
            }
        }
        if !ch {
            assert(!ch1);
            assert forall|i: int| 0 <= i < k implies #[trigger] l[es[i].to] >= l[es[i].from] + 1 by {
                if i == k - 1 {
                    assert(l1 == l);
                }
            }
        }
    }
}

/// Relaxation from layers between `lp(.., passes)` and the settled depths
/// ends at the settled depths.
proof fn lemma_relax_depth(es: Seq<EdgeV>, r: Seq<int>, n: int, l: Seq<int>, passes: int)
    requires
        ranked(r, n, es),
        n <= 2147483647,
        l.len() == n,
        0 <= passes,
        forall|v: int| 0 <= v < n ==> lp(es, v, passes as nat) <= #[trigger] l[v] <= depth(es, n)[v],
    ensures
        relax(l, es, n, passes) == depth(es, n),
    decreases n + 2 - passes,
{
    let h = depth(es, n);
    lemma_depth(es, r, n);
    if passes > n + 1 {
        assert forall|v: int| 0 <= v < n implies #[trigger] l[v] == h[v] by {
            lemma_lp_stable(es, r, n, v, passes as nat, n as nat);
        }
        assert(l =~= h);
    } else {
        lemma_pass(es, r, n, l, passes as nat, es.len() as int);
        let (l2, ch) = relax_edges(l, es, es.len() as int);
        if ch {
            assert forall|v: int| 0 <= v < n implies lp(es, v, (passes + 1) as nat) <= #[trigger] l2[v] by {
                assert forall|i: int| 0 <= i < es.len() && #[trigger] es[i].to == v implies lp(
                    es,
                    es[i].from,
                    passes as nat,
                ) + 1 <= l2[v] by {
                    assert(l2[es[i].to] >= lp(es, es[i].from, passes as nat) + 1);
                }
                lemma_lp_rank(es, r, n, v, passes as nat);
                lemma_lp_over_le(es, v, passes as nat, es.len() as int, l2[v]);
            }
            lemma_relax_depth(es, r, n, l2, passes + 1);
        } else {
            assert forall|v: int| 0 <= v < n implies #[trigger] l[v] == h[v] by {
                assert forall|j: int| 0 <= j < n implies #[trigger] l[j] >= 0 by {
                    lemma_lp_rank(es, r, n, j, passes as nat);
                }
                lemma_fixed_ge_lp(es, l, n, v, n as nat);
            }
            assert(l2 =~= h);
        }
    }
}

/// When the edges form no cycle, every edge leads to a later layer.
pub proof fn lemma_layers_follow_edges(n: int, es: Seq<EdgeV>, r: Seq<int>)
    requires
        ranked(r, n, es),
        n <= 2147483647,
    ensures
        forall|k: int| 0 <= k < es.len() ==> #[trigger] layers_of(n, es)[es[k].to] > layers_of(n, es)[es[k].from],
{
    let z = Seq::new(n as nat, |i: int| 0int);
    lemma_depth(es, r, n);
    assert forall|v: int| 0 <= v < n implies lp(es, v, 0) <= #[trigger] z[v] <= depth(es, n)[v] by {}
    lemma_relax_depth(es, r, n, z, 0);
    let lay = layers_of(n, es);
    assert forall|k: int| 0 <= k < es.len() implies #[trigger] lay[es[k].to] > lay[es[k].from] by {
        let e = es[k];
        assert(0 <= e.from < n && 0 <= e.to < n);
    }
}

/// Laid out, when the edges form no cycle, every edge leads forward in the
/// diagram's direction: down (top-down), up (bottom-up), right
/// (left-right) or left (right-to-left), by at least a whole box.
pub proof fn law_layout_follows_edges(v: (Seq<NodeV>, Seq<EdgeV>, Dir), area_w: int, r: Seq<int>)
    requires
        ranked(r, v.0.len() as int, v.1),
        v.0.len() <= 2147483647,
    ensures
        forall|k: int| 0 <= k < v.1.len() ==> {
            let a = #[trigger] laid_out(v, area_w)[v.1[k].from];
            let b = laid_out(v, area_w)[v.1[k].to];
            &&& v.2 is TD ==> a.y + a.h < b.y
            &&& v.2 is BT ==> b.y + b.h < a.y
            &&& v.2 is LR ==> a.x + a.w < b.x
            &&& v.2 is RL ==> b.x + b.w < a.x
        },
{
    let n = v.0.len() as int;
    lemma_layers_follow_edges(n, v.1, r);
    let lay = layers_of(n, v.1);
    let top = top_layer(lay, n);
    let col_w = max_w(v.0, n) + 4;
    lemma_max_w_pos(v.0, n);
    assert forall|k: int| 0 <= k < v.1.len() implies {
        let a = #[trigger] laid_out(v, area_w)[v.1[k].from];
        let b = laid_out(v, area_w)[v.1[k].to];
        &&& v.2 is TD ==> a.y + a.h < b.y
        &&& v.2 is BT ==> b.y + b.h < a.y
        &&& v.2 is LR ==> a.x + a.w < b.x
        &&& v.2 is RL ==> b.x + b.w < a.x
    } by {
        let e = v.1[k];
        assert(0 <= e.from < n && 0 <= e.to < n);
        lemma_layers_range(n, v.1);
        lemma_top_layer(lay, n, n);
        let lf = lay[e.from];
        let lt = lay[e.to];
        assert(lt > lf);
        assert(0 <= lf && lt <= top);
        lemma_max_w_ge(v.0, n, e.from);
        lemma_below(lf, lt, 6);
        lemma_below(lf, lt, col_w);
        lemma_below(top - lt, top - lf, 6);
        lemma_below(top - lt, top - lf, col_w);
        lemma_max_w_ge(v.0, n, e.to);
        lemma_layers_range(n, v.1);
        lemma_top_layer(lay, n, n);
    }
}


/// An edge operator's kind: one with both `-` and `.` (such as `-.->`) is
/// dotted and not dashed; one without `.` is neither dotted nor dashed; one
/// with `.` but no `-` is dashed; and it is thick exactly when it holds `=`.
pub proof fn law_edge_op_kind(op: Seq<char>)
    ensures
        op.contains('-') && op.contains('.') ==> op_flags(op).1 && !op_flags(op).0,
        !op.contains('.') ==> !op_flags(op).1 && !op_flags(op).0,
        op.contains('.') && !op.contains('-') ==> op_flags(op).0 && !op_flags(op).1,
        op_flags(op).2 <==> op.contains('='),
        !(op_flags(op).0 && op_flags(op).1),
{
}

} // verus!
