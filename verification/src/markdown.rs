//! The markdown tree: what the CommonMark parser reports, as plain values.

use vstd::prelude::*;
use vstd::string::*;

use comrak::arena_tree::NodeEdge;
use comrak::nodes::{ListType, NodeValue};

verus! {

/// What a node of the markdown tree is.
#[derive(Debug)]
pub enum MdKind {
    Quote,
    List { ordered: bool, start: usize, tight: bool },
    Item { ordered: bool, start: usize, tight: bool, marker_offset: usize, padding: usize },
    TaskItem { checked: bool, symbol_column: usize },
    Heading { level: u8, setext: bool },
    Paragraph,
    CodeBlock { fenced: bool, info: String },
    HtmlBlock,
    ThematicBreak,
    Table,
    Text(String),
    Code(String),
    HtmlInline,
    SoftBreak,
    LineBreak,
    Link(String),
    Image,
    Other,
}

/// A node's kind and its 1-based position, last line and column included.
#[derive(Debug)]
pub struct MdInfo {
    pub kind: MdKind,
    pub start_line: usize,
    pub start_column: usize,
    pub end_line: usize,
    pub end_column: usize,
}

/// A step of the walk through the markdown tree.
#[derive(Debug)]
pub enum MdEvent {
    Open(MdInfo),
    Close,
}

/// What a node of the markdown tree is, as text.
pub ghost enum KindView {
    Quote,
    List { ordered: bool, start: usize, tight: bool },
    Item { ordered: bool, start: usize, tight: bool, marker_offset: usize, padding: usize },
    TaskItem { checked: bool, symbol_column: usize },
    Heading { level: u8, setext: bool },
    Paragraph,
    CodeBlock { fenced: bool, info: Seq<char> },
    HtmlBlock,
    ThematicBreak,
    Table,
    Text(Seq<char>),
    Code(Seq<char>),
    HtmlInline,
    SoftBreak,
    LineBreak,
    Link(Seq<char>),
    Image,
    Other,
}

/// A node's kind and its position.
pub ghost struct InfoView {
    pub kind: KindView,
    pub start_line: usize,
    pub start_column: usize,
    pub end_line: usize,
    pub end_column: usize,
}

/// A step of the walk.
pub ghost enum EventView {
    Open(InfoView),
    Close,
}

impl DeepView for MdKind {
    type V = KindView;

    open spec fn deep_view(&self) -> KindView {
        match *self {
            MdKind::Quote => KindView::Quote,
            MdKind::List { ordered, start, tight } => KindView::List { ordered, start, tight },
            MdKind::Item { ordered, start, tight, marker_offset, padding } => KindView::Item {
                ordered,
                start,
                tight,
                marker_offset,
                padding,
            },
            MdKind::TaskItem { checked, symbol_column } => KindView::TaskItem {
                checked,
                symbol_column,
            },
            MdKind::Heading { level, setext } => KindView::Heading { level, setext },
            MdKind::Paragraph => KindView::Paragraph,
            MdKind::CodeBlock { fenced, info } => KindView::CodeBlock { fenced, info: info@ },
            MdKind::HtmlBlock => KindView::HtmlBlock,
            MdKind::ThematicBreak => KindView::ThematicBreak,
            MdKind::Table => KindView::Table,
            MdKind::Text(t) => KindView::Text(t@),
            MdKind::Code(t) => KindView::Code(t@),
            MdKind::HtmlInline => KindView::HtmlInline,
            MdKind::SoftBreak => KindView::SoftBreak,
            MdKind::LineBreak => KindView::LineBreak,
            MdKind::Link(u) => KindView::Link(u@),
            MdKind::Image => KindView::Image,
            MdKind::Other => KindView::Other,
        }
    }
}

impl DeepView for MdInfo {
    type V = InfoView;

    open spec fn deep_view(&self) -> InfoView {
        InfoView {
            kind: self.kind.deep_view(),
            start_line: self.start_line,
            start_column: self.start_column,
            end_line: self.end_line,
            end_column: self.end_column,
        }
    }
}

impl DeepView for MdEvent {
    type V = EventView;

    open spec fn deep_view(&self) -> EventView {
        match *self {
            MdEvent::Open(info) => EventView::Open(info.deep_view()),
            MdEvent::Close => EventView::Close,
        }
    }
}

/// `comrak::nodes::NodeValue`, carried from the parser to its conversion.
#[verifier::external_type_specification]
#[verifier::external_body]
pub struct ExNodeValue(comrak::nodes::NodeValue);

/// `comrak::nodes::Ast`, carried from the parser to its conversion.
#[verifier::external_type_specification]
#[verifier::external_body]
pub struct ExAst(comrak::nodes::Ast);

/// Converts an inline `comrak::nodes::NodeValue`, variant for variant. Nothing
/// is claimed of it by itself: see `parse_events`.
#[verifier::external_body]
fn convert_inline(v: &comrak::nodes::NodeValue) -> MdKind {
    match v {
        NodeValue::Text(t) => MdKind::Text(t.to_string()),
        NodeValue::Code(c) => MdKind::Code(c.literal.clone()),
        NodeValue::HtmlInline(_) => MdKind::HtmlInline,
        NodeValue::SoftBreak => MdKind::SoftBreak,
        NodeValue::LineBreak => MdKind::LineBreak,
        NodeValue::Link(l) => MdKind::Link(l.url.clone()),
        NodeValue::Image(_) => MdKind::Image,
        _ => MdKind::Other,
    }
}

/// Converts a leaf block of `comrak::nodes::NodeValue`, variant for variant;
/// an inline goes on to `convert_inline`. Nothing is claimed of it by itself:
/// see `parse_events`.
#[verifier::external_body]
fn convert_leaf(v: &comrak::nodes::NodeValue) -> MdKind {
    match v {
        NodeValue::Heading(h) => MdKind::Heading { level: h.level, setext: h.setext },
        NodeValue::Paragraph => MdKind::Paragraph,
        NodeValue::CodeBlock(c) => MdKind::CodeBlock { fenced: c.fenced, info: c.info.clone() },
        NodeValue::HtmlBlock(_) => MdKind::HtmlBlock,
        NodeValue::ThematicBreak => MdKind::ThematicBreak,
        NodeValue::Table(_) => MdKind::Table,
        _ => convert_inline(v),
    }
}

/// Converts a container of `comrak::nodes::NodeValue`, variant for variant; any
/// other node goes on to `convert_leaf`. Nothing is claimed of it by itself:
/// see `parse_events`.
#[verifier::external_body]
fn convert_value(v: &comrak::nodes::NodeValue) -> MdKind {
    match v {
        NodeValue::BlockQuote => MdKind::Quote,
        NodeValue::List(l) => MdKind::List { ordered: l.list_type == ListType::Ordered, start: l.start, tight: l.tight },
        NodeValue::Item(l) => MdKind::Item {
            ordered: l.list_type == ListType::Ordered, start: l.start, tight: l.tight,
            marker_offset: l.marker_offset, padding: l.padding,
        },
        NodeValue::TaskItem(t) => MdKind::TaskItem {
            checked: t.symbol.is_some(), symbol_column: t.symbol_sourcepos.start.column,
        },
        _ => convert_leaf(v),
    }
}

/// Converts a `comrak::nodes::Ast`: its value and its position. Nothing is
/// claimed of it by itself: see `parse_events`.
#[verifier::external_body]
fn convert_node(ast: &comrak::nodes::Ast) -> MdInfo {
    MdInfo {
        kind: convert_value(&ast.value),
        start_line: ast.sourcepos.start.line,
        start_column: ast.sourcepos.start.column,
        end_line: ast.sourcepos.end.line,
        end_column: ast.sourcepos.end.column,
    }
}

/// The steps of the walk through the tree of a markdown text.
pub uninterp spec fn markdown_events(
    md: Seq<char>,
    table: bool,
    tasklist: bool,
    strikethrough: bool,
) -> Seq<EventView>;

/// `comrak::parse_document` with default options but for the three extensions,
/// then a walk through the tree: the steps depend on the text and the flags
/// alone; the markdown grammar is left unsaid.
#[verifier::external_body]
fn parse_events(md: &str, table: bool, tasklist: bool, strikethrough: bool) -> (r: Vec<MdEvent>)
    ensures
        r.deep_view() == markdown_events(md@, table, tasklist, strikethrough),
{
    let arena = comrak::Arena::new();
    let mut options = comrak::Options::default();
    options.extension.table = table;
    options.extension.tasklist = tasklist;
    options.extension.strikethrough = strikethrough;
    let edges = comrak::parse_document(&arena, md, &options).traverse();
    let steps = edges.map(|edge| match edge {
        NodeEdge::Start(n) => MdEvent::Open(convert_node(&n.data())),
        NodeEdge::End(_) => MdEvent::Close,
    });
    steps.collect()
}

/// A node of the markdown tree.
#[derive(Debug)]
pub struct MdNode {
    pub info: MdInfo,
    pub children: Vec<MdNode>,
}

/// What a node of the markdown tree is.
pub ghost struct MdTree {
    pub info: InfoView,
    pub children: Seq<MdTree>,
}

/// Views of the first `n` nodes.
pub open spec fn nodes_view(v: Vec<MdNode>, n: int) -> Seq<MdTree>
    decreases v, n,
{
    if n <= 0 || n > v.len() {
        Seq::empty()
    } else {
        nodes_view(v, n - 1).push(node_view(v[n - 1]))
    }
}

pub open spec fn node_view(node: MdNode) -> MdTree
    decreases node, 0int,
{
    MdTree {
        info: node.info.deep_view(),
        children: nodes_view(node.children, node.children.len() as int),
    }
}

/// What the nodes of a list are.
pub open spec fn forest_view(v: Vec<MdNode>) -> Seq<MdTree> {
    nodes_view(v, v.len() as int)
}

pub proof fn nodes_view_index(v: Vec<MdNode>, n: int)
    requires
        0 <= n <= v.len(),
    ensures
        nodes_view(v, n).len() == n,
        forall|i: int| 0 <= i < n ==> #[trigger] nodes_view(v, n)[i] == node_view(v[i]),
    decreases n,
{
    if n > 0 {
        nodes_view_index(v, n - 1);
    }
}

/// The sibling nodes that the steps from `i` on describe, up to the step that
/// closes their parent, and the index of that step.
pub open spec fn forest(events: Seq<EventView>, i: int) -> (Seq<MdTree>, int)
    decreases events.len() - i,
{
    if i < 0 || i >= events.len() {
        (Seq::empty(), events.len() as int)
    } else {
        match events[i] {
            EventView::Close => (Seq::empty(), i),
            EventView::Open(info) => {
                let (children, close) = forest(events, i + 1);
                let next = close + 1;
                let node = MdTree { info, children };
                if i < next < events.len() {
                    let (rest, end) = forest(events, next);
                    (seq![node] + rest, end)
                } else {
                    (seq![node], events.len() as int)
                }
            },
        }
    }
}

proof fn forest_bounds(events: Seq<EventView>, i: int)
    requires
        0 <= i <= events.len(),
    ensures
        i <= forest(events, i).1 <= events.len(),
        forest(events, i).1 < events.len() ==> events[forest(events, i).1] is Close,
    decreases events.len() - i,
{
    if i < events.len() {
        if let EventView::Open(info) = events[i] {
            forest_bounds(events, i + 1);
            let next = forest(events, i + 1).1 + 1;
            if i < next < events.len() {
                forest_bounds(events, next);
            }
        }
    }
}

fn copy_info(info: &MdInfo) -> (r: MdInfo)
    ensures
        r.deep_view() == info.deep_view(),
{
    let kind = match &info.kind {
        MdKind::Quote => MdKind::Quote,
        MdKind::List { ordered, start, tight } => MdKind::List {
            ordered: *ordered,
            start: *start,
            tight: *tight,
        },
        MdKind::Item { ordered, start, tight, marker_offset, padding } => MdKind::Item {
            ordered: *ordered,
            start: *start,
            tight: *tight,
            marker_offset: *marker_offset,
            padding: *padding,
        },
        MdKind::TaskItem { checked, symbol_column } => MdKind::TaskItem {
            checked: *checked,
            symbol_column: *symbol_column,
        },
        MdKind::Heading { level, setext } => MdKind::Heading { level: *level, setext: *setext },
        MdKind::Paragraph => MdKind::Paragraph,
        MdKind::CodeBlock { fenced, info } => MdKind::CodeBlock {
            fenced: *fenced,
            info: info.clone(),
        },
        MdKind::HtmlBlock => MdKind::HtmlBlock,
        MdKind::ThematicBreak => MdKind::ThematicBreak,
        MdKind::Table => MdKind::Table,
        MdKind::Text(t) => MdKind::Text(t.clone()),
        MdKind::Code(t) => MdKind::Code(t.clone()),
        MdKind::HtmlInline => MdKind::HtmlInline,
        MdKind::SoftBreak => MdKind::SoftBreak,
        MdKind::LineBreak => MdKind::LineBreak,
        MdKind::Link(u) => MdKind::Link(u.clone()),
        MdKind::Image => MdKind::Image,
        MdKind::Other => MdKind::Other,
    };
    MdInfo {
        kind,
        start_line: info.start_line,
        start_column: info.start_column,
        end_line: info.end_line,
        end_column: info.end_column,
    }
}

/// Builds the sibling nodes that the steps from `from` on describe, and tells
/// the index of the step that closes their parent.
pub fn build_forest(events: &Vec<MdEvent>, from: usize) -> (r: (Vec<MdNode>, usize))
    requires
        from <= events.len(),
    ensures
        forest_view(r.0) == forest(events.deep_view(), from as int).0,
        r.1 == forest(events.deep_view(), from as int).1,
    decreases events.len() - from,
{
    let mut out: Vec<MdNode> = Vec::new();
    let mut i: usize = from;
    let ghost goal = forest(events.deep_view(), from as int);
    proof {
        assert(forest_view(out) + forest(events.deep_view(), i as int).0 =~= goal.0);
    }
    while i < events.len()
        invariant
            from <= i <= events.len(),
            goal == forest(events.deep_view(), from as int),
            goal.0 == forest_view(out) + forest(events.deep_view(), i as int).0,
            goal.1 == forest(events.deep_view(), i as int).1,
        decreases events.len() - i,
    {
        assert(events.deep_view()[i as int] == events[i as int].deep_view());
        match &events[i] {
            MdEvent::Close => {
                assert(forest_view(out) + Seq::<MdTree>::empty() =~= forest_view(out));
                return (out, i);
            },
            MdEvent::Open(info) => {
                proof {
                    forest_bounds(events.deep_view(), i + 1);
                }
                let (children, close) = build_forest(events, i + 1);
                let ghost before = out;
                let node = MdNode { info: copy_info(info), children };
                out.push(node);
                proof {
                    nodes_view_index(before, before.len() as int);
                    nodes_view_index(out, out.len() as int);
                    assert(forest_view(out) =~= forest_view(before).push(node_view(node)));
                    let rest = if close + 1 < events.len() {
                        forest(events.deep_view(), close + 1).0
                    } else {
                        Seq::empty()
                    };
                    assert(forest_view(before) + (seq![node_view(node)] + rest) =~= forest_view(out)
                        + rest);
                    assert(seq![node_view(node)] + Seq::<MdTree>::empty() =~= seq![node_view(node)]);
                }
                i = if close < events.len() {
                    close + 1
                } else {
                    close
                };
            },
        }
    }
    proof {
        assert(forest_view(out) + Seq::<MdTree>::empty() =~= forest_view(out));
    }
    (out, i)
}

/// The top-level nodes of a walk that starts with the document's root.
pub open spec fn top_nodes(events: Seq<EventView>) -> Seq<MdTree> {
    forest(events, 1).0
}

/// The top-level nodes of a walk that starts with the document's root.
pub fn build_tree(events: &Vec<MdEvent>) -> (r: Vec<MdNode>)
    ensures
        forest_view(r) == top_nodes(events.deep_view()),
{
    if events.len() == 0 {
        Vec::new()
    } else {
        build_forest(events, 1).0
    }
}

/// The top-level nodes of a document: tables, task lists and strikethrough are
/// on, every other extension is off.
pub open spec fn document_nodes(md: Seq<char>) -> Seq<MdTree> {
    top_nodes(markdown_events(md, true, true, true))
}

/// Parses a document into its top-level nodes.
pub fn parse_markdown(md: &str) -> (r: Vec<MdNode>)
    ensures
        forest_view(r) == document_nodes(md@),
{
    build_tree(&parse_events(md, true, true, true))
}

} // verus!
