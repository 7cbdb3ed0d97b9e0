//! The block walk: from the markdown tree to addressable blocks, their
//! positions, their container decoration, and the text that vault syntax is
//! looked for in.

use vstd::prelude::*;
use vstd::string::*;
use vstd::utf8::*;

use crate::content::{column_cut, strip_containers, stripped, stripped_is_suffix, Strip};
use crate::document::{BlockKind, LinkRef, LinkView, TextUnit, UnitView};
use crate::json::{members_view, members_view_index, merge_json, merged, Json, JsonView};
use crate::markdown::{
    node_view, nodes_view_index, InfoView, KindView, MdInfo, MdKind, MdNode, MdTree,
};
use crate::span::{line_start_at, LineOffsets, Span};
use crate::text::{
    encode_concat, nfc, slice, sub_text, to_nfc, trim, trim_end, trimmed, trimmed_end, CharSet,
};
use crate::vault::{
    displayed, mdlink, record_mdlink, replace_wikilinks_with_display, strip_ref_marker_text,
    units_within, without_marker,
};

verus! {

/// What the walk reads positions against: the markdown body, the number of
/// bytes before it in the source, and its line table.
pub struct Body<'a> {
    pub md: &'a str,
    pub base: usize,
    pub lo: LineOffsets,
}

impl<'a> Body<'a> {
    /// The body ends the source, and the line table is its own.
    pub open spec fn of(&self, source: Seq<char>) -> bool {
        &&& self.lo.of(self.md@)
        &&& self.base + encode_utf8(self.md@).len() == encode_utf8(source).len()
        &&& encode_utf8(source).len() <= usize::MAX
        &&& is_char_boundary(encode_utf8(source), self.base as int)
        &&& encode_utf8(source).subrange(
            self.base as int,
            encode_utf8(source).len() as int,
        ) == encode_utf8(self.md@)
    }
}

/// What the walk reads positions against.
pub ghost struct BodyView {
    pub md: Seq<char>,
    pub base: usize,
}

impl<'a> DeepView for Body<'a> {
    type V = BodyView;

    open spec fn deep_view(&self) -> BodyView {
        BodyView { md: self.md@, base: self.base }
    }
}

/// A boundary of the body is a boundary of the source.
pub proof fn boundary_shifts(source: Seq<u8>, base: int, at: int)
    requires
        valid_utf8(source),
        0 <= base <= source.len(),
        is_char_boundary(source, base),
        0 <= at <= source.len() - base,
        is_char_boundary(source.subrange(base, source.len() as int), at),
    ensures
        is_char_boundary(source, base + at),
{
    let tail = source.subrange(base, source.len() as int);
    valid_utf8_split(source, base);
    if at < tail.len() {
        is_char_boundary_iff_not_is_continuation_byte(tail, at);
        is_char_boundary_iff_not_is_continuation_byte(source, base + at);
        assert(tail[at] == source[base + at]);
    } else {
        is_char_boundary_start_end_of_seq(source);
    }
}

/// A block as the walk finds it.
pub struct RawBlock {
    pub kind: BlockKind,
    pub parent: Option<u32>,
    pub heading_path: Vec<String>,
    pub span: Span,
    pub attrs: Json,
    pub line_prefix: String,
    pub cont_prefix: String,
    /// Plain text of the block's own inlines.
    pub units: Vec<TextUnit>,
    /// Lines of the block's own content, both ends included.
    pub own_lines: Vec<(usize, usize)>,
    /// Container decoration, outermost first.
    pub strips: Vec<Strip>,
    pub first_line: usize,
}

/// What a block is when the walk finds it.
pub ghost struct RawView {
    pub kind: BlockKind,
    pub parent: Option<u32>,
    pub heading_path: Seq<Seq<char>>,
    pub span: Span,
    pub attrs: JsonView,
    pub line_prefix: Seq<char>,
    pub cont_prefix: Seq<char>,
    pub units: Seq<UnitView>,
    pub own_lines: Seq<(usize, usize)>,
    pub strips: Seq<Strip>,
    pub first_line: usize,
}

impl DeepView for RawBlock {
    type V = RawView;

    open spec fn deep_view(&self) -> RawView {
        RawView {
            kind: self.kind,
            parent: self.parent,
            heading_path: self.heading_path.deep_view(),
            span: self.span,
            attrs: self.attrs@,
            line_prefix: self.line_prefix@,
            cont_prefix: self.cont_prefix@,
            units: self.units.deep_view(),
            own_lines: self.own_lines@,
            strips: self.strips@,
            first_line: self.first_line,
        }
    }
}

/// A heading that is open: its level and its text.
pub struct OpenHeading {
    pub level: u8,
    pub text: String,
}

impl DeepView for OpenHeading {
    type V = (u8, Seq<char>);

    open spec fn deep_view(&self) -> (u8, Seq<char>) {
        (self.level, self.text@)
    }
}

/// What the walk has gathered.
pub struct Walk {
    pub blocks: Vec<RawBlock>,
    pub headings: Vec<OpenHeading>,
    pub links: Vec<LinkRef>,
}

/// What the walk has gathered.
pub ghost struct WalkView {
    pub blocks: Seq<RawView>,
    pub headings: Seq<(u8, Seq<char>)>,
    pub links: Seq<LinkView>,
}

impl DeepView for Walk {
    type V = WalkView;

    open spec fn deep_view(&self) -> WalkView {
        WalkView {
            blocks: self.blocks.deep_view(),
            headings: self.headings.deep_view(),
            links: self.links.deep_view(),
        }
    }
}

pub open spec fn minus(a: int, b: int) -> int {
    if a > b {
        a - b
    } else {
        0
    }
}

/// `a`, or the largest index there is if `a` is larger.
pub open spec fn capped(a: int) -> usize {
    if a > usize::MAX {
        usize::MAX
    } else {
        a as usize
    }
}

fn less(a: usize, b: usize) -> (r: usize)
    ensures
        r == minus(a as int, b as int),
{
    if a > b {
        a - b
    } else {
        0
    }
}

fn plus(a: usize, b: usize) -> (r: usize)
    ensures
        r == capped(a + b),
{
    if a > usize::MAX - b {
        usize::MAX
    } else {
        a + b
    }
}

/// The first character boundary at `at` or after it, or `at` past the end.
pub open spec fn snapped_up(b: Seq<u8>, at: int) -> int
    decreases b.len() - at,
{
    if at < b.len() && !is_char_boundary(b, at) {
        snapped_up(b, at + 1)
    } else {
        at
    }
}

/// The last character boundary at `at` or before it.
pub open spec fn snapped_down(b: Seq<u8>, at: int) -> int
    decreases at,
{
    if at > 0 && !is_char_boundary(b, at) {
        snapped_down(b, at - 1)
    } else {
        at
    }
}

/// Where the text of a text node stands in the source: its columns count
/// bytes, snapped to character boundaries. None if nothing is left.
pub open spec fn text_range(body: BodyView, info: InfoView) -> Option<Span> {
    let b = encode_utf8(body.md);
    let from = snapped_up(
        b,
        line_start_at(body.md, info.start_line as int) + minus(info.start_column as int, 1),
    );
    let to = line_start_at(body.md, info.end_line as int) + info.end_column;
    let end = snapped_down(
        b,
        if to < b.len() {
            to
        } else {
            b.len() as int
        },
    );
    if from < end {
        Some(Span { start: (from + body.base) as usize, end: (end + body.base) as usize })
    } else {
        None
    }
}

fn find_text_range(body: &Body, info: &MdInfo, Ghost(source): Ghost<Seq<char>>) -> (r: Option<Span>)
    requires
        body.of(source),
    ensures
        r == text_range(body.deep_view(), info.deep_view()),
        r matches Some(s) ==> s.within(source),
{
    let md = body.md;
    let size: usize = md.as_bytes().len();
    let ghost b = encode_utf8(md@);
    proof {
        encode_utf8_valid_utf8(md@);
        encode_utf8_valid_utf8(source);
        is_char_boundary_start_end_of_seq(b);
        body.lo.start_facts(md@, info.start_line as int);
        body.lo.start_facts(md@, info.end_line as int);
    }
    let ghost from0 = body.lo.start_of(info.start_line as int) + minus(info.start_column as int, 1);
    let mut from: usize = plus(body.lo.line_start(info.start_line), less(info.start_column, 1));
    while from < size && !md.is_char_boundary(from)
        invariant
            b == encode_utf8(md@),
            size == b.len(),
            from0 <= usize::MAX ==> snapped_up(b, from as int) == snapped_up(b, from0),
            from0 > usize::MAX ==> from == usize::MAX,
        decreases size - from,
    {
        from += 1;
    }
    let reach: usize = plus(body.lo.line_start(info.end_line), info.end_column);
    let ghost to0 = body.lo.start_of(info.end_line as int) + info.end_column;
    let mut end: usize = if reach < size {
        reach
    } else {
        size
    };
    let ghost end0 = if to0 < b.len() {
        to0
    } else {
        b.len() as int
    };
    assert(end == end0);
    while end > 0 && !md.is_char_boundary(end)
        invariant
            b == encode_utf8(md@),
            size == b.len(),
            end <= size,
            snapped_down(b, end as int) == snapped_down(b, end0),
        decreases end,
    {
        end -= 1;
    }
    assert(from0 > usize::MAX ==> snapped_up(b, from0) == from0);
    if from < end {
        proof {
            assert(is_char_boundary(b, from as int));
            boundary_shifts(encode_utf8(source), body.base as int, from as int);
            boundary_shifts(encode_utf8(source), body.base as int, end as int);
        }
        Some(Span { start: from + body.base, end: end + body.base })
    } else {
        None
    }
}

/// What an inline collection has gathered.
pub ghost struct Gathered {
    pub units: Seq<UnitView>,
    pub links: Seq<LinkView>,
}

/// Adds the reference of a markdown link.
pub open spec fn with_mdlink(g: Gathered, url: Seq<char>, block: u32) -> Gathered {
    match mdlink(url, block) {
        Some(l) => Gathered { links: g.links.push(l), ..g },
        None => g,
    }
}

/// Plain text and links of one inline node: links, images, code and raw HTML
/// are not descended into. In table cells (`cell`) the literal text counts.
pub open spec fn gathered(body: BodyView, tree: MdTree, block: u32, cell: bool, g: Gathered) -> Gathered
    decreases tree, 0int,
{
    match tree.info.kind {
        KindView::Text(t) => if cell {
            Gathered { units: g.units.push(UnitView::Literal(t)), ..g }
        } else {
            match text_range(body, tree.info) {
                Some(r) => Gathered { units: g.units.push(UnitView::Range(r)), ..g },
                None => g,
            }
        },
        KindView::Link(url) => with_mdlink(g, url, block),
        KindView::Image => g,
        KindView::Code(_) => g,
        KindView::HtmlInline => g,
        _ => gathered_all(body, tree.children, tree.children.len() as int, block, cell, g),
    }
}

/// Plain text and links of the first `n` nodes.
pub open spec fn gathered_all(
    body: BodyView,
    trees: Seq<MdTree>,
    n: int,
    block: u32,
    cell: bool,
    g: Gathered,
) -> Gathered
    decreases trees, n,
{
    if n <= 0 || n > trees.len() {
        g
    } else {
        gathered(body, trees[n - 1], block, cell, gathered_all(body, trees, n - 1, block, cell, g))
    }
}

fn gather_children(
    body: &Body,
    node: &MdNode,
    block: u32,
    cell: bool,
    units: &mut Vec<TextUnit>,
    links: &mut Vec<LinkRef>,
    Ghost(source): Ghost<Seq<char>>,
)
    requires
        body.of(source),
        units_within(old(units).deep_view(), source),
    ensures
        (Gathered { units: final(units).deep_view(), links: final(links).deep_view() })
            == gathered_all(
            body.deep_view(),
            node_view(*node).children,
            node.children.len() as int,
            block,
            cell,
            (Gathered { units: old(units).deep_view(), links: old(links).deep_view() }),
        ),
        units_within(final(units).deep_view(), source),
    decreases node,
{
    let ghost trees = node_view(*node).children;
    let ghost g0 = Gathered { units: units.deep_view(), links: links.deep_view() };
    proof {
        nodes_view_index(node.children, node.children.len() as int);
    }
    let mut i: usize = 0;
    while i < node.children.len()
        invariant
            i <= node.children.len(),
            body.of(source),
            trees == node_view(*node).children,
            trees.len() == node.children.len(),
            forall|k: int|
                0 <= k < node.children.len() ==> #[trigger] trees[k] == node_view(node.children[k]),
            (Gathered { units: units.deep_view(), links: links.deep_view() }) == gathered_all(
                body.deep_view(),
                trees,
                i as int,
                block,
                cell,
                g0,
            ),
            units_within(units.deep_view(), source),
        decreases node.children.len() - i,
    {
        let child = &node.children[i];
        let ghost before = units.deep_view();
        assert(trees[i as int] == node_view(*child));
        proof {
            assert(decreases_to!(*node => node.children));
            assert(decreases_to!(node.children => node.children[i as int]));
            nodes_view_index(child.children, child.children.len() as int);
            assert(gathered_all(body.deep_view(), trees, i + 1, block, cell, g0) == gathered(
                body.deep_view(),
                trees[i as int],
                block,
                cell,
                gathered_all(body.deep_view(), trees, i as int, block, cell, g0),
            ));
        }
        match &child.info.kind {
            MdKind::Text(t) => {
                if cell {
                    units.push(TextUnit::Literal(t.clone()));
                    assert(units.deep_view() =~= before.push(UnitView::Literal(t@)));
                } else if let Some(r) = find_text_range(body, &child.info, Ghost(source)) {
                    units.push(TextUnit::Range(r));
                    assert(units.deep_view() =~= before.push(UnitView::Range(r)));
                }
            },
            MdKind::Link(url) => {
                record_mdlink(url.as_str(), block, links);
            },
            MdKind::Image => {},
            MdKind::Code(_) => {},
            MdKind::HtmlInline => {},
            _ => {
                gather_children(body, child, block, cell, units, links, Ghost(source));
            },
        }
        i += 1;
    }
}

/// The plain text of one inline node, and whether text (rather than code) came
/// last.
pub open spec fn plain(tree: MdTree, st: (Seq<char>, bool)) -> (Seq<char>, bool)
    decreases tree, 0int,
{
    match tree.info.kind {
        KindView::Text(t) => (st.0 + t, true),
        KindView::Code(t) => (st.0 + t, false),
        KindView::SoftBreak => (st.0.push(' '), st.1),
        KindView::LineBreak => (st.0.push(' '), st.1),
        KindView::HtmlInline => st,
        _ => plain_all(tree.children, tree.children.len() as int, st),
    }
}

/// The plain text of the first `n` nodes.
pub open spec fn plain_all(trees: Seq<MdTree>, n: int, st: (Seq<char>, bool)) -> (Seq<char>, bool)
    decreases trees, n,
{
    if n <= 0 || n > trees.len() {
        st
    } else {
        plain(trees[n - 1], plain_all(trees, n - 1, st))
    }
}

/// The text of a heading: formatting dropped, links as they display, a
/// trailing ID marker stripped if it is plain text, NFC, trimmed.
pub open spec fn heading_text_of(tree: MdTree) -> Seq<char> {
    let (raw, from_text) = plain_all(
        tree.children,
        tree.children.len() as int,
        (Seq::empty(), false),
    );
    let shown = displayed(raw, 0);
    trimmed(
        nfc(
            if from_text {
                without_marker(shown)
            } else {
                shown
            },
        ),
    )
}

fn collect_plain_text(node: &MdNode, out: &mut String, last_from_text: &mut bool)
    ensures
        (final(out)@, *final(last_from_text)) == plain_all(
            node_view(*node).children,
            node.children.len() as int,
            (old(out)@, *old(last_from_text)),
        ),
    decreases node,
{
    let ghost trees = node_view(*node).children;
    let ghost st0 = (out@, *last_from_text);
    proof {
        nodes_view_index(node.children, node.children.len() as int);
    }
    let mut i: usize = 0;
    while i < node.children.len()
        invariant
            i <= node.children.len(),
            trees == node_view(*node).children,
            trees.len() == node.children.len(),
            forall|k: int|
                0 <= k < node.children.len() ==> #[trigger] trees[k] == node_view(node.children[k]),
            (out@, *last_from_text) == plain_all(trees, i as int, st0),
        decreases node.children.len() - i,
    {
        let child = &node.children[i];
        proof {
            assert(trees[i as int] == node_view(*child));
            assert(decreases_to!(*node => node.children));
            assert(decreases_to!(node.children => node.children[i as int]));
            nodes_view_index(child.children, child.children.len() as int);
            assert(plain_all(trees, i + 1, st0) == plain(
                trees[i as int],
                plain_all(trees, i as int, st0),
            ));
        }
        match &child.info.kind {
            MdKind::Text(t) => {
                out.append(t.as_str());
                *last_from_text = true;
            },
            MdKind::Code(t) => {
                out.append(t.as_str());
                *last_from_text = false;
            },
            MdKind::SoftBreak => {
                out.push(' ');
            },
            MdKind::LineBreak => {
                out.push(' ');
            },
            MdKind::HtmlInline => {},
            _ => {
                collect_plain_text(child, out, last_from_text);
            },
        }
        i += 1;
    }
}

/// The text of a heading.
pub fn heading_text(node: &MdNode) -> (r: String)
    ensures
        r@ == heading_text_of(node_view(*node)),
{
    proof {
        nodes_view_index(node.children, node.children.len() as int);
    }
    let mut raw = String::new();
    let mut last_from_text = false;
    collect_plain_text(node, &mut raw, &mut last_from_text);
    let shown = replace_wikilinks_with_display(raw.as_str());
    let text = if last_from_text {
        strip_ref_marker_text(shown.as_str())
    } else {
        shown
    };
    let composed = to_nfc(text.as_str());
    trim(composed.as_str()).to_owned()
}

/// Attributes of a list, and of an item of it.
pub open spec fn list_attrs(ordered: bool, start: usize, tight: bool) -> JsonView {
    JsonView::Object(
        seq![
            ("ordered"@, JsonView::Bool(ordered)),
            ("start"@, JsonView::Int(start as int)),
            ("tight"@, JsonView::Bool(tight)),
        ],
    )
}

fn object2(k1: &str, v1: Json, k2: &str, v2: Json) -> (r: Json)
    ensures
        r@ == JsonView::Object(seq![(k1@, v1@), (k2@, v2@)]),
{
    let mut m: Vec<(String, Json)> = Vec::new();
    m.push((k1.to_owned(), v1));
    m.push((k2.to_owned(), v2));
    proof {
        members_view_index(m, 2);
        assert(members_view(m, 2) =~= seq![(k1@, v1@), (k2@, v2@)]);
    }
    Json::Object(m)
}

fn object3(k1: &str, v1: Json, k2: &str, v2: Json, k3: &str, v3: Json) -> (r: Json)
    ensures
        r@ == JsonView::Object(seq![(k1@, v1@), (k2@, v2@), (k3@, v3@)]),
{
    let mut m: Vec<(String, Json)> = Vec::new();
    m.push((k1.to_owned(), v1));
    m.push((k2.to_owned(), v2));
    m.push((k3.to_owned(), v3));
    proof {
        members_view_index(m, 3);
        assert(members_view(m, 3) =~= seq![(k1@, v1@), (k2@, v2@), (k3@, v3@)]);
    }
    Json::Object(m)
}

fn make_list_attrs(ordered: bool, start: usize, tight: bool) -> (r: Json)
    ensures
        r@ == list_attrs(ordered, start, tight),
{
    object3(
        "ordered",
        Json::Bool(ordered),
        "start",
        Json::Int(start as i128),
        "tight",
        Json::Bool(tight),
    )
}

/// `attrs` with the members of the enclosing list that it does not have.
pub open spec fn with_list(attrs: JsonView, list: Option<JsonView>) -> JsonView {
    match (attrs, list) {
        (JsonView::Object(_), Some(JsonView::Object(m))) => merged(attrs, m),
        _ => attrs,
    }
}

/// The stripping geometry of an item.
pub ghost struct Geometry {
    pub first_width: usize,
    pub cont_width: usize,
    pub attrs: JsonView,
}

/// Bytes of the enclosing containers' decoration on a line.
pub open spec fn decoration(body: BodyView, line_no: int, strips: Seq<Strip>) -> int {
    let raw = trimmed_end(
        CharSet::LineEnd,
        sub_text(body.md, line_start_at(body.md, line_no), line_start_at(body.md, line_no + 1)),
    );
    encode_utf8(raw).len() - encode_utf8(stripped(raw, line_no, strips)).len()
}

/// The stripping geometry of an item. The widths count columns after the
/// enclosing containers' decoration. A plain item's marker takes its offset
/// and its padding. A task item's checkbox symbol stands at `symbol_column`
/// and its content starts three columns later.
pub open spec fn geometry(
    body: BodyView,
    info: InfoView,
    strips: Seq<Strip>,
    list: Option<JsonView>,
) -> Geometry {
    match info.kind {
        KindView::Item { ordered, start, tight, marker_offset, padding } => Geometry {
            first_width: capped(marker_offset + padding),
            cont_width: capped(marker_offset + padding),
            attrs: with_list(list_attrs(ordered, start, tight), list),
        },
        KindView::TaskItem { checked, symbol_column } => {
            let item = info.start_column as int;
            let offset = minus(
                minus(item, 1),
                decoration(body, info.start_line as int, strips),
            );
            Geometry {
                first_width: capped(capped(offset + minus(symbol_column as int, item)) + 3),
                cont_width: capped(offset + minus(minus(symbol_column as int, 1), item)),
                attrs: with_list(
                    JsonView::Object(
                        seq![
                            ("checked"@, JsonView::Bool(checked)),
                            ("task"@, JsonView::Bool(true)),
                        ],
                    ),
                    list,
                ),
            }
        },
        _ => Geometry { first_width: 0, cont_width: 0, attrs: JsonView::Object(Seq::empty()) },
    }
}

fn measure_decoration(body: &Body, line_no: usize, strips: &Vec<Strip>) -> (r: usize)
    requires
        body.lo.of(body.md@),
    ensures
        r == decoration(body.deep_view(), line_no as int, strips@),
{
    let span = body.lo.line_span(line_no, line_no);
    proof {
        body.lo.start_facts(body.md@, line_no as int);
        body.lo.start_facts(body.md@, line_no + 1);
        assert(body.lo.start_of(line_no as int) <= body.lo.start_of(line_no + 1));
    }
    let raw = trim_end(slice(body.md, span.start, span.end), CharSet::LineEnd);
    let rest = strip_containers(raw, line_no, strips, strips.len());
    proof {
        assert(strips@.take(strips.len() as int) =~= strips@);
        suffix_bytes(raw@, line_no as int, strips@);
    }
    raw.as_bytes().len() - rest.as_bytes().len()
}

/// What stripping leaves is no longer than the line.
pub proof fn suffix_bytes(line: Seq<char>, line_no: int, strips: Seq<Strip>)
    ensures
        encode_utf8(stripped(line, line_no, strips)).len() <= encode_utf8(line).len(),
{
    stripped_is_suffix(line, line_no, strips);
    let k = choose|k: int|
        0 <= k <= line.len() && stripped(line, line_no, strips) == #[trigger] line.skip(k);
    assert(line =~= line.take(k) + line.skip(k));
    encode_concat(line.take(k), line.skip(k));
}

/// The stripping geometry of an item: first line, later lines, attributes.
pub fn item_geometry(
    body: &Body,
    info: &MdInfo,
    strips: &Vec<Strip>,
    list: Option<&Json>,
) -> (r: (usize, usize, Json))
    requires
        body.lo.of(body.md@),
    ensures
        (Geometry { first_width: r.0, cont_width: r.1, attrs: r.2@ }) == geometry(
            body.deep_view(),
            info.deep_view(),
            strips@,
            match list {
                Some(j) => Some(j@),
                None => None,
            },
        ),
{
    match &info.kind {
        MdKind::Item { ordered, start, tight, marker_offset, padding } => {
            let width = plus(*marker_offset, *padding);
            let mut attrs = make_list_attrs(*ordered, *start, *tight);
            if let Some(l) = list {
                merge_json(&mut attrs, l);
            }
            (width, width, attrs)
        },
        MdKind::TaskItem { checked, symbol_column } => {
            let consumed = measure_decoration(body, info.start_line, strips);
            let offset = less(less(info.start_column, 1), consumed);
            let first = plus(plus(offset, less(*symbol_column, info.start_column)), 3);
            let cont = plus(offset, less(less(*symbol_column, 1), info.start_column));
            let mut attrs = object2("checked", Json::Bool(*checked), "task", Json::Bool(true));
            if let Some(l) = list {
                merge_json(&mut attrs, l);
            }
            (first, cont, attrs)
        },
        _ => {
            let empty: Vec<(String, Json)> = Vec::new();
            (0, 0, Json::Object(empty))
        },
    }
}

/// `n` spaces.
pub open spec fn spaces(n: nat) -> Seq<char> {
    Seq::new(n, |i: int| ' ')
}

/// The decoration of a continuation line in these containers.
pub open spec fn rendered(strips: Seq<Strip>) -> Seq<char>
    decreases strips.len(),
{
    if strips.len() == 0 {
        Seq::empty()
    } else {
        rendered(strips.drop_last()) + (match strips.last() {
            Strip::Quote => seq!['>', ' '],
            Strip::Item { cont_width, .. } => spaces(cont_width as nat),
        })
    }
}

fn render(strips: &Vec<Strip>, depth: usize) -> (r: String)
    requires
        depth <= strips.len(),
    ensures
        r@ == rendered(strips@.take(depth as int)),
{
    let mut out = String::new();
    let mut i: usize = 0;
    while i < depth
        invariant
            i <= depth <= strips.len(),
            out@ == rendered(strips@.take(i as int)),
        decreases depth - i,
    {
        let ghost before = out@;
        proof {
            let t = strips@.take(i + 1);
            assert(t.drop_last() =~= strips@.take(i as int));
            assert(t.last() == strips@[i as int]);
        }
        match &strips[i] {
            Strip::Quote => {
                out.push('>');
                out.push(' ');
                assert(out@ =~= before + seq!['>', ' ']);
            },
            Strip::Item { cont_width, .. } => {
                let mut k: usize = 0;
                assert(before + spaces(0) =~= before);
                while k < *cont_width
                    invariant
                        k <= *cont_width,
                        out@ == before + spaces(k as nat),
                    decreases *cont_width - k,
                {
                    out.push(' ');
                    k += 1;
                    assert(out@ =~= before + spaces(k as nat));
                }
            },
        }
        i += 1;
    }
    out
}

/// A block at the walk's current place, without text.
pub open spec fn block_at(
    body: BodyView,
    st: WalkView,
    kind: BlockKind,
    info: InfoView,
    parent: Option<u32>,
    strips: Seq<Strip>,
    attrs: JsonView,
    own_lines: Seq<(usize, usize)>,
) -> RawView {
    RawView {
        kind,
        parent,
        heading_path: Seq::new(st.headings.len(), |i: int| st.headings[i].1),
        span: Span {
            start: (line_start_at(body.md, info.start_line as int) + body.base) as usize,
            end: (line_start_at(body.md, info.end_line + 1) + body.base) as usize,
        },
        attrs,
        line_prefix: rendered(
            if kind == BlockKind::ListItem && strips.len() > 0 {
                strips.drop_last()
            } else {
                strips
            },
        ),
        cont_prefix: rendered(strips),
        units: Seq::empty(),
        own_lines,
        strips,
        first_line: info.start_line,
    }
}

fn make_block(
    body: &Body,
    st: &Walk,
    kind: BlockKind,
    info: &MdInfo,
    parent: Option<u32>,
    strips: &Vec<Strip>,
    attrs: Json,
    own_lines: Vec<(usize, usize)>,
    Ghost(source): Ghost<Seq<char>>,
) -> (r: RawBlock)
    requires
        body.of(source),
    ensures
        r.deep_view() == block_at(
            body.deep_view(),
            st.deep_view(),
            kind,
            info.deep_view(),
            parent,
            strips@,
            attrs@,
            own_lines@,
        ),
        r.units.len() == 0,
{
    let mut path: Vec<String> = Vec::new();
    let mut i: usize = 0;
    while i < st.headings.len()
        invariant
            i <= st.headings.len(),
            path.len() == i,
            forall|k: int| 0 <= k < i ==> (#[trigger] path[k])@ == st.headings[k].text@,
        decreases st.headings.len() - i,
    {
        path.push(st.headings[i].text.clone());
        i += 1;
    }
    let lines = body.lo.line_span(info.start_line, info.end_line);
    proof {
        body.lo.start_facts(body.md@, info.start_line as int);
        body.lo.start_facts(body.md@, info.end_line + 1);
        assert(strips@.take(strips.len() as int) =~= strips@);
    }
    let cont_prefix = render(strips, strips.len());
    let line_prefix = if kind == BlockKind::ListItem && strips.len() > 0 {
        assert(strips@.take(strips.len() - 1) =~= strips@.drop_last());
        render(strips, strips.len() - 1)
    } else {
        cont_prefix.clone()
    };
    let mut own_strips: Vec<Strip> = Vec::new();
    let mut k: usize = 0;
    while k < strips.len()
        invariant
            k <= strips.len(),
            own_strips@ == strips@.take(k as int),
        decreases strips.len() - k,
    {
        own_strips.push(strips[k]);
        k += 1;
    }
    let r = RawBlock {
        kind,
        parent,
        heading_path: path,
        span: Span { start: lines.start + body.base, end: lines.end + body.base },
        attrs,
        line_prefix,
        cont_prefix,
        units: Vec::new(),
        own_lines,
        strips: own_strips,
        first_line: info.start_line,
    };
    proof {
        let h = st.deep_view().headings;
        assert(r.heading_path.deep_view() =~= Seq::new(h.len(), |i: int| h[i].1));
        assert(r.units.deep_view() =~= Seq::empty());
    }
    r
}

/// Whether a node is a container: a list or a block quote.
pub open spec fn container(kind: KindView) -> bool {
    kind is List || kind is Quote
}

/// Whether a node is a container: a list or a block quote.
pub fn is_container(node: &MdNode) -> (r: bool)
    ensures
        r == container(node.info.deep_view().kind),
{
    matches!(&node.info.kind, MdKind::List { .. } | MdKind::Quote)
}

/// The lines of the first `n` children that are no containers.
pub open spec fn content_lines(trees: Seq<MdTree>, n: int) -> Seq<(usize, usize)>
    decreases n,
{
    if n <= 0 {
        Seq::empty()
    } else if container(trees[n - 1].info.kind) {
        content_lines(trees, n - 1)
    } else {
        content_lines(trees, n - 1).push((trees[n - 1].info.start_line, trees[n - 1].info.end_line))
    }
}

/// An item's own lines: those of its direct content, else its first line.
pub open spec fn item_lines(tree: MdTree) -> Seq<(usize, usize)> {
    let own = content_lines(tree.children, tree.children.len() as int);
    if own.len() == 0 {
        seq![(tree.info.start_line, tree.info.start_line)]
    } else {
        own
    }
}

fn collect_item_lines(node: &MdNode) -> (r: Vec<(usize, usize)>)
    ensures
        r@ == item_lines(node_view(*node)),
{
    let ghost trees = node_view(*node).children;
    proof {
        nodes_view_index(node.children, node.children.len() as int);
    }
    let mut own: Vec<(usize, usize)> = Vec::new();
    let mut i: usize = 0;
    while i < node.children.len()
        invariant
            i <= node.children.len(),
            trees == node_view(*node).children,
            trees.len() == node.children.len(),
            forall|k: int|
                0 <= k < node.children.len() ==> #[trigger] trees[k] == node_view(node.children[k]),
            own@ == content_lines(trees, i as int),
        decreases node.children.len() - i,
    {
        let child = &node.children[i];
        assert(trees[i as int] == node_view(*child));
        if !is_container(child) {
            own.push((child.info.start_line, child.info.end_line));
        }
        i += 1;
    }
    if own.len() == 0 {
        own.push((node.info.start_line, node.info.start_line));
        assert(own@ =~= seq![(node.info.start_line, node.info.start_line)]);
    }
    own
}

/// The open headings without those of level `level` or deeper at the end.
pub open spec fn outer_headings(h: Seq<(u8, Seq<char>)>, level: u8) -> Seq<(u8, Seq<char>)>
    decreases h.len(),
{
    if h.len() > 0 && h.last().0 >= level {
        outer_headings(h.drop_last(), level)
    } else {
        h
    }
}

/// The walk with a block added, and the text and links found in it.
pub open spec fn with_text_block(
    body: BodyView,
    st: WalkView,
    block: RawView,
    tree: MdTree,
    cell: bool,
) -> WalkView {
    let g = gathered_all(
        body,
        tree.children,
        tree.children.len() as int,
        st.blocks.len() as u32,
        cell,
        Gathered { units: Seq::empty(), links: st.links },
    );
    WalkView {
        blocks: st.blocks.push(RawView { units: g.units, ..block }),
        headings: st.headings,
        links: g.links,
    }
}

pub open spec fn whole_lines(info: InfoView) -> Seq<(usize, usize)> {
    seq![(info.start_line, info.end_line)]
}

pub open spec fn empty_object() -> JsonView {
    JsonView::Object(Seq::empty())
}

/// What walking one node adds. `strips` are the enclosing containers, `list`
/// the attributes of the enclosing list, `parent` the enclosing item.
pub open spec fn walked(
    body: BodyView,
    tree: MdTree,
    strips: Seq<Strip>,
    list: Option<JsonView>,
    parent: Option<u32>,
    st: WalkView,
) -> WalkView
    decreases tree, 1int,
{
    let info = tree.info;
    let n = tree.children.len() as int;
    match info.kind {
        KindView::Quote => walked_all(
            body,
            tree.children,
            n,
            strips.push(Strip::Quote),
            list,
            parent,
            st,
        ),
        KindView::List { ordered, start, tight } => walked_all(
            body,
            tree.children,
            n,
            strips,
            Some(list_attrs(ordered, start, tight)),
            parent,
            st,
        ),
        KindView::Item { .. } => walked_item(body, tree, strips, list, parent, st),
        KindView::TaskItem { .. } => walked_item(body, tree, strips, list, parent, st),
        KindView::Heading { level, setext } => {
            let outer = WalkView { headings: outer_headings(st.headings, level), ..st };
            let text = heading_text_of(tree);
            let attrs = JsonView::Object(
                seq![
                    ("level"@, JsonView::Int(level as int)),
                    ("setext"@, JsonView::Bool(setext)),
                    ("text"@, JsonView::Str(text)),
                ],
            );
            let block = block_at(
                body,
                outer,
                BlockKind::Heading,
                info,
                parent,
                strips,
                attrs,
                whole_lines(info),
            );
            let next = with_text_block(body, outer, block, tree, false);
            WalkView { headings: next.headings.push((level, text)), ..next }
        },
        KindView::Paragraph => with_text_block(
            body,
            st,
            block_at(
                body,
                st,
                BlockKind::Paragraph,
                info,
                parent,
                strips,
                empty_object(),
                whole_lines(info),
            ),
            tree,
            false,
        ),
        KindView::CodeBlock { fenced, info: words } => WalkView {
            blocks: st.blocks.push(
                block_at(
                    body,
                    st,
                    BlockKind::CodeBlock,
                    info,
                    parent,
                    strips,
                    JsonView::Object(
                        seq![
                            ("fenced"@, JsonView::Bool(fenced)),
                            ("info"@, JsonView::Str(words)),
                        ],
                    ),
                    whole_lines(info),
                ),
            ),
            ..st
        },
        KindView::HtmlBlock => WalkView {
            blocks: st.blocks.push(
                block_at(
                    body,
                    st,
                    BlockKind::HtmlBlock,
                    info,
                    parent,
                    strips,
                    empty_object(),
                    whole_lines(info),
                ),
            ),
            ..st
        },
        KindView::ThematicBreak => WalkView {
            blocks: st.blocks.push(
                block_at(
                    body,
                    st,
                    BlockKind::ThematicBreak,
                    info,
                    parent,
                    strips,
                    empty_object(),
                    whole_lines(info),
                ),
            ),
            ..st
        },
        KindView::Table => with_text_block(
            body,
            st,
            block_at(
                body,
                st,
                BlockKind::Table,
                info,
                parent,
                strips,
                empty_object(),
                whole_lines(info),
            ),
            tree,
            true,
        ),
        _ => walked_all(body, tree.children, n, strips, list, parent, st),
    }
}

/// What walking an item adds: its block, then its children inside it.
pub open spec fn walked_item(
    body: BodyView,
    tree: MdTree,
    strips: Seq<Strip>,
    list: Option<JsonView>,
    parent: Option<u32>,
    st: WalkView,
) -> WalkView
    decreases tree, 0int,
{
    let g = geometry(body, tree.info, strips, list);
    let inner = strips.push(
        Strip::Item {
            first_line: tree.info.start_line,
            first_width: g.first_width,
            cont_width: g.cont_width,
        },
    );
    let block = block_at(
        body,
        st,
        BlockKind::ListItem,
        tree.info,
        parent,
        inner,
        g.attrs,
        item_lines(tree),
    );
    walked_all(
        body,
        tree.children,
        tree.children.len() as int,
        inner,
        list,
        Some(st.blocks.len() as u32),
        WalkView { blocks: st.blocks.push(block), ..st },
    )
}

/// What walking the first `n` nodes adds.
pub open spec fn walked_all(
    body: BodyView,
    trees: Seq<MdTree>,
    n: int,
    strips: Seq<Strip>,
    list: Option<JsonView>,
    parent: Option<u32>,
    st: WalkView,
) -> WalkView
    decreases trees, n,
{
    if n <= 0 || n > trees.len() {
        st
    } else {
        walked(
            body,
            trees[n - 1],
            strips,
            list,
            parent,
            walked_all(body, trees, n - 1, strips, list, parent, st),
        )
    }
}

/// Every block's text lies in the source, and its parent comes before it.
pub open spec fn walk_ok(st: WalkView, source: Seq<char>) -> bool {
    forall|i: int|
        0 <= i < st.blocks.len() ==> {
            &&& units_within((#[trigger] st.blocks[i]).units, source)
            &&& (st.blocks[i].parent matches Some(p) ==> p < i)
        }
}

fn empty_attrs() -> (r: Json)
    ensures
        r@ == empty_object(),
{
    let none: Vec<(String, Json)> = Vec::new();
    Json::Object(none)
}

fn one_range(info: &MdInfo) -> (r: Vec<(usize, usize)>)
    ensures
        r@ == whole_lines(info.deep_view()),
{
    let mut r: Vec<(usize, usize)> = Vec::new();
    r.push((info.start_line, info.end_line));
    assert(r@ =~= whole_lines(info.deep_view()));
    r
}

/// Adds a block and returns its ord.
fn push_block(st: &mut Walk, block: RawBlock, Ghost(source): Ghost<Seq<char>>) -> (ord: u32)
    requires
        walk_ok(old(st).deep_view(), source),
        units_within(block.units.deep_view(), source),
        block.parent matches Some(p) ==> p < old(st).blocks.len(),
    ensures
        ord == old(st).blocks.len() as u32,
        final(st).deep_view() == (WalkView {
            blocks: old(st).deep_view().blocks.push(block.deep_view()),
            ..old(st).deep_view()
        }),
        walk_ok(final(st).deep_view(), source),
        final(st).blocks.len() == old(st).blocks.len() + 1,
{
    let ord: u32 = st.blocks.len() as u32;
    let ghost before = st.deep_view();
    st.blocks.push(block);
    proof {
        assert(st.deep_view().blocks =~= before.blocks.push(block.deep_view()));
    }
    ord
}

/// Adds a block with the text and links of its inlines.
fn push_text_block(
    body: &Body,
    st: &mut Walk,
    block: RawBlock,
    node: &MdNode,
    cell: bool,
    Ghost(source): Ghost<Seq<char>>,
)
    requires
        body.of(source),
        walk_ok(old(st).deep_view(), source),
        block.units.len() == 0,
        block.parent matches Some(p) ==> p < old(st).blocks.len(),
    ensures
        final(st).deep_view() == with_text_block(
            body.deep_view(),
            old(st).deep_view(),
            block.deep_view(),
            node_view(*node),
            cell,
        ),
        walk_ok(final(st).deep_view(), source),
        final(st).blocks.len() == old(st).blocks.len() + 1,
{
    proof {
        nodes_view_index(node.children, node.children.len() as int);
    }
    let mut units: Vec<TextUnit> = Vec::new();
    proof {
        assert(units.deep_view() =~= Seq::empty());
    }
    let ord: u32 = st.blocks.len() as u32;
    gather_children(body, node, ord, cell, &mut units, &mut st.links, Ghost(source));
    let whole = RawBlock { units, ..block };
    push_block(st, whole, Ghost(source));
}

/// Walks the children of a node.
fn walk_children(
    body: &Body,
    node: &MdNode,
    strips: &mut Vec<Strip>,
    list: Option<&Json>,
    parent: Option<u32>,
    st: &mut Walk,
    Ghost(source): Ghost<Seq<char>>,
)
    requires
        body.of(source),
        walk_ok(old(st).deep_view(), source),
        parent matches Some(p) ==> p < old(st).blocks.len(),
    ensures
        final(strips)@ == old(strips)@,
        final(st).deep_view() == walked_all(
            body.deep_view(),
            node_view(*node).children,
            node.children.len() as int,
            old(strips)@,
            match list {
                Some(j) => Some(j@),
                None => None,
            },
            parent,
            old(st).deep_view(),
        ),
        walk_ok(final(st).deep_view(), source),
        final(st).blocks.len() >= old(st).blocks.len(),
    decreases node, 0int,
{
    let ghost trees = node_view(*node).children;
    let ghost st0 = st.deep_view();
    let ghost n0 = st.blocks.len();
    let ghost strips0 = strips@;
    let ghost list0 = match list {
        Some(j) => Some(j@),
        None => None,
    };
    proof {
        nodes_view_index(node.children, node.children.len() as int);
    }
    let mut i: usize = 0;
    while i < node.children.len()
        invariant
            i <= node.children.len(),
            body.of(source),
            trees == node_view(*node).children,
            trees.len() == node.children.len(),
            forall|k: int|
                0 <= k < node.children.len() ==> #[trigger] trees[k] == node_view(node.children[k]),
            strips@ == strips0,
            list0 == (match list {
                Some(j) => Some(j@),
                None => None,
            }),
            st.deep_view() == walked_all(body.deep_view(), trees, i as int, strips0, list0, parent, st0),
            walk_ok(st.deep_view(), source),
            st.blocks.len() >= n0,
            parent matches Some(p) ==> p < n0,
        decreases node.children.len() - i,
    {
        let child = &node.children[i];
        proof {
            assert(trees[i as int] == node_view(*child));
            assert(decreases_to!(*node => node.children));
            assert(decreases_to!(node.children => node.children[i as int]));
            assert(walked_all(body.deep_view(), trees, i + 1, strips0, list0, parent, st0) == walked(
                body.deep_view(),
                trees[i as int],
                strips0,
                list0,
                parent,
                walked_all(body.deep_view(), trees, i as int, strips0, list0, parent, st0),
            ));
        }
        walk_block(body, child, strips, list, parent, st, Ghost(source));
        i += 1;
    }
}

/// Walks one node. `strips` are the enclosing containers' stripping rules.
pub(crate) fn walk_block(
    body: &Body,
    node: &MdNode,
    strips: &mut Vec<Strip>,
    list: Option<&Json>,
    parent: Option<u32>,
    st: &mut Walk,
    Ghost(source): Ghost<Seq<char>>,
)
    requires
        body.of(source),
        walk_ok(old(st).deep_view(), source),
        parent matches Some(p) ==> p < old(st).blocks.len(),
    ensures
        final(strips)@ == old(strips)@,
        final(st).deep_view() == walked(
            body.deep_view(),
            node_view(*node),
            old(strips)@,
            match list {
                Some(j) => Some(j@),
                None => None,
            },
            parent,
            old(st).deep_view(),
        ),
        walk_ok(final(st).deep_view(), source),
        final(st).blocks.len() >= old(st).blocks.len(),
    decreases node, 1int,
{
    let ghost tree = node_view(*node);
    let ghost st0 = st.deep_view();
    let ghost strips0 = strips@;
    proof {
        nodes_view_index(node.children, node.children.len() as int);
    }
    match &node.info.kind {
        MdKind::Quote => {
            strips.push(Strip::Quote);
            walk_children(body, node, strips, list, parent, st, Ghost(source));
            strips.pop();
            assert(strips@ =~= strips0);
        },
        MdKind::List { ordered, start, tight } => {
            let attrs = make_list_attrs(*ordered, *start, *tight);
            walk_children(body, node, strips, Some(&attrs), parent, st, Ghost(source));
        },
        MdKind::Item { .. } | MdKind::TaskItem { .. } => {
            let (first_width, cont_width, attrs) = item_geometry(body, &node.info, strips, list);
            strips.push(
                Strip::Item { first_line: node.info.start_line, first_width, cont_width },
            );
            let own = collect_item_lines(node);
            let block = make_block(
                body,
                st,
                BlockKind::ListItem,
                &node.info,
                parent,
                strips,
                attrs,
                own,
                Ghost(source),
            );
            let ord = push_block(st, block, Ghost(source));
            walk_children(body, node, strips, list, Some(ord), st, Ghost(source));
            strips.pop();
            assert(strips@ =~= strips0);
            assert(st.deep_view() == walked_item(
                body.deep_view(),
                tree,
                strips0,
                match list {
                    Some(j) => Some(j@),
                    None => None,
                },
                parent,
                st0,
            ));
        },
        MdKind::Heading { level, setext } => {
            while st.headings.len() > 0 && st.headings[st.headings.len() - 1].level >= *level
                invariant
                    outer_headings(st.headings.deep_view(), *level) == outer_headings(
                        st0.headings,
                        *level,
                    ),
                    st.blocks.deep_view() == st0.blocks,
                    st.links.deep_view() == st0.links,
                decreases st.headings.len(),
            {
                let ghost h = st.headings.deep_view();
                st.headings.pop();
                assert(st.headings.deep_view() =~= h.drop_last());
            }
            let ghost outer = WalkView { headings: outer_headings(st0.headings, *level), ..st0 };
            assert(st.deep_view() == outer);
            let text = heading_text(node);
            let attrs = object3(
                "level",
                Json::Int(*level as i128),
                "setext",
                Json::Bool(*setext),
                "text",
                Json::Str(text.clone()),
            );
            let block = make_block(
                body,
                st,
                BlockKind::Heading,
                &node.info,
                parent,
                strips,
                attrs,
                one_range(&node.info),
                Ghost(source),
            );
            push_text_block(body, st, block, node, false, Ghost(source));
            let ghost h = st.headings.deep_view();
            st.headings.push(OpenHeading { level: *level, text });
            assert(st.headings.deep_view() =~= h.push((*level, text@)));
        },
        MdKind::Paragraph => {
            let block = make_block(
                body,
                st,
                BlockKind::Paragraph,
                &node.info,
                parent,
                strips,
                empty_attrs(),
                one_range(&node.info),
                Ghost(source),
            );
            push_text_block(body, st, block, node, false, Ghost(source));
        },
        MdKind::CodeBlock { fenced, info } => {
            let attrs = object2(
                "fenced",
                Json::Bool(*fenced),
                "info",
                Json::Str(info.clone()),
            );
            let block = make_block(
                body,
                st,
                BlockKind::CodeBlock,
                &node.info,
                parent,
                strips,
                attrs,
                one_range(&node.info),
                Ghost(source),
            );
            push_block(st, block, Ghost(source));
        },
        MdKind::HtmlBlock => {
            let block = make_block(
                body,
                st,
                BlockKind::HtmlBlock,
                &node.info,
                parent,
                strips,
                empty_attrs(),
                one_range(&node.info),
                Ghost(source),
            );
            push_block(st, block, Ghost(source));
        },
        MdKind::ThematicBreak => {
            let block = make_block(
                body,
                st,
                BlockKind::ThematicBreak,
                &node.info,
                parent,
                strips,
                empty_attrs(),
                one_range(&node.info),
                Ghost(source),
            );
            push_block(st, block, Ghost(source));
        },
        MdKind::Table => {
            let block = make_block(
                body,
                st,
                BlockKind::Table,
                &node.info,
                parent,
                strips,
                empty_attrs(),
                one_range(&node.info),
                Ghost(source),
            );
            push_text_block(body, st, block, node, true, Ghost(source));
        },
        _ => {
            walk_children(body, node, strips, list, parent, st, Ghost(source));
        },
    }
}

proof fn spaces_come_off(w: int, s: Seq<char>, i: int)
    requires
        0 <= i <= w,
    ensures
        column_cut(spaces(w as nat) + s, i, i, w, true) == w,
    decreases w - i,
{
    let line = spaces(w as nat) + s;
    if i < w {
        assert(line[i] == ' ');
        spaces_come_off(w, s, i + 1);
    } else if i >= line.len() {
        assert(line.len() == w);
    }
}

/// The decoration of containers comes off as it was put on: a continuation line with
/// their prefix before it is read, inside them, as the line.
pub proof fn what_is_prefixed_is_stripped(strips: Seq<Strip>, line: Seq<char>, line_no: int)
    requires
        forall|k: int|
            0 <= k < strips.len() ==> (#[trigger] strips[k] matches Strip::Item {
                first_line,
                ..
            } ==> first_line != line_no),
    ensures
        stripped(rendered(strips) + line, line_no, strips) == line,
    decreases strips.len(),
{
    if strips.len() == 0 {
        assert(rendered(strips) + line =~= line);
    } else {
        let outer = strips.drop_last();
        assert forall|k: int| 0 <= k < outer.len() implies (#[trigger] outer[k] matches Strip::Item {
            first_line,
            ..
        } ==> first_line != line_no) by {
            assert(outer[k] == strips[k]);
        }
        let last = strips[strips.len() - 1];
        let own = match last {
            Strip::Quote => seq!['>', ' '],
            Strip::Item { cont_width, .. } => spaces(cont_width as nat),
        };
        assert(rendered(strips) + line =~= rendered(outer) + (own + line));
        what_is_prefixed_is_stripped(outer, own + line, line_no);
        match last {
            Strip::Quote => {
                let l = own + line;
                assert(l[0] == '>' && l[1] == ' ');
                assert(l.skip(2) =~= line);
            },
            Strip::Item { cont_width, .. } => {
                spaces_come_off(cont_width as int, line, 0);
                assert((own + line).skip(cont_width as int) =~= line);
            },
        }
    }
}

} // verus!
