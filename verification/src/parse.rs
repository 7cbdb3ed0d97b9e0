//! Document parsing: frontmatter, block walk, top-level tiling, vault syntax,
//! block IDs, normalized content and hashes.

use vstd::prelude::*;
use vstd::string::*;
use vstd::utf8::*;

use crate::content::{
    ends_with, get_line, line_text, normalized, normalized_content, strip_containers, stripped,
    Strip,
};
use crate::document::{
    opt_text, tiles, Block, BlockKind, BlockView, Document, DocumentView, LinkRef, TagRef, TagView,
    TextUnit, UnitView,
};
use crate::frontmatter::{extract, frontmatter, section, Frontmatter, FrontmatterView};
use crate::hash::{blake3_hash, content_hash, hashed_bytes};
use crate::json::{get, put, Json, JsonView};
use crate::markdown::{
    document_nodes, forest_view, node_view, nodes_view_index, parse_markdown, MdNode, MdTree,
};
use crate::refs::{references_name_blocks, refs_fit};
use crate::span::{line_start_at, line_start_at_facts, LineOffsets, Span};
use crate::text::{
    char_offset_boundary, encode_concat, slice, slice_is_text, sub_text, trim_end, trimmed_end,
    CharSet,
};
use crate::vault::{
    ref_marker, scan_units, scanned_blocks, trailing_ref_marker, units_within, Found,
};
use crate::walk::{
    boundary_shifts, container, is_container, suffix_bytes, walk_block, walk_ok, walked, walked_all,
    Body, BodyView, RawBlock, RawView, Walk, WalkView,
};

verus! {

/// The tiles of the top-level nodes: each runs from the start of its first line
/// to the start of the next one's, the last to the end of the source.
pub open spec fn top_spans(body: BodyView, nodes: Seq<MdTree>) -> Seq<Span> {
    Seq::new(
        nodes.len(),
        |i: int|
            Span {
                start: (line_start_at(body.md, nodes[i].info.start_line as int) + body.base) as usize,
                end: ((if i + 1 < nodes.len() {
                    line_start_at(body.md, nodes[i + 1].info.start_line as int)
                } else {
                    encode_utf8(body.md).len() as int
                }) + body.base) as usize,
            },
    )
}

/// What comes before the first tile.
pub open spec fn preamble_of(spans: Seq<Span>, len: int) -> Span {
    Span {
        start: 0,
        end: if spans.len() > 0 {
            spans[0].start
        } else {
            len as usize
        },
    }
}

/// Index of the first block from `c` on that starts at `at` or after it.
pub open spec fn first_from(spans: Seq<Span>, c: int, at: int) -> int
    decreases spans.len() - c,
{
    if 0 <= c < spans.len() && spans[c].start < at {
        first_from(spans, c + 1, at)
    } else {
        c
    }
}

/// The block spans after the first `n` top-level nodes have been matched to
/// their blocks, and the index of the next block to match. The block of a
/// top-level node that is no container takes the whole tile, so trailing
/// trivia belongs to it.
pub open spec fn adopted(
    spans: Seq<Span>,
    parents: Seq<Option<u32>>,
    nodes: Seq<MdTree>,
    tiles: Seq<Span>,
    n: int,
) -> (Seq<Span>, int)
    decreases n,
{
    if n <= 0 {
        (spans, 0)
    } else {
        let (before, c) = adopted(spans, parents, nodes, tiles, n - 1);
        if container(nodes[n - 1].info.kind) {
            (before, c)
        } else {
            let k = first_from(before, c, tiles[n - 1].start as int);
            if k < before.len() && parents[k] is None && before[k].start == tiles[n - 1].start {
                (before.update(k, tiles[n - 1]), k + 1)
            } else {
                (before, k)
            }
        }
    }
}

/// Some block has block `i` as its parent.
pub open spec fn has_child(blocks: Seq<RawView>, i: int) -> bool {
    exists|j: int| 0 <= j < blocks.len() && (#[trigger] blocks[j]).parent == Some(i as u32) && i <= u32::MAX
}

/// The line that a block's ID marker may end: the last line of its own
/// content; a setext heading's underline does not count.
pub open spec fn marker_line(b: RawView) -> int {
    let (first, last) = b.own_lines.last();
    if b.attrs.get("setext"@) == Some(JsonView::Bool(true)) && last > first {
        last - 1
    } else {
        last as int
    }
}

/// Byte `at` of the source lies in a range among the units.
pub open spec fn in_ranges(units: Seq<UnitView>, at: int) -> bool {
    exists|k: int|
        0 <= k < units.len() && (#[trigger] units[k] matches UnitView::Range(r) && r.start <= at < r.end)
}

/// A block ID marker on a line: it ends the stripped line, and it stands in
/// plain text.
pub open spec fn marker_on(body: BodyView, b: RawView, line_no: int) -> Option<Seq<char>> {
    match line_text(body.md, line_no) {
        Some(raw) => {
            let logical = trimmed_end(CharSet::Blank, stripped(raw, line_no, b.strips));
            let bare = trimmed_end(CharSet::Blank, raw);
            match ref_marker(logical) {
                Some(id) => {
                    let marker = seq![' ', '^'] + id;
                    let at = line_start_at(body.md, line_no) + body.base + encode_utf8(bare).len()
                        - encode_utf8(marker).len() + 1;
                    if marker.is_suffix_of(bare) && in_ranges(b.units, at) {
                        Some(id)
                    } else {
                        None
                    }
                },
                None => None,
            }
        },
        None => None,
    }
}

/// The block's own ID: headings, paragraphs and items without blocks inside
/// can have one.
pub open spec fn own_id(body: BodyView, blocks: Seq<RawView>, i: int) -> Option<Seq<char>> {
    let b = blocks[i];
    if (b.kind == BlockKind::Heading || b.kind == BlockKind::Paragraph || (b.kind
        == BlockKind::ListItem && !has_child(blocks, i))) && b.own_lines.len() > 0 {
        marker_on(body, b, marker_line(b))
    } else {
        None
    }
}

/// Block `i` encloses block `j`.
pub open spec fn encloses(parents: Seq<Option<u32>>, i: int, j: int) -> bool
    decreases j,
{
    match parents[j] {
        Some(p) => p < j && (p == i || encloses(parents, i, p as int)),
        None => false,
    }
}

/// The ID that is stripped from the content of block `i`: its own, else that
/// of the first of the blocks `0..n` inside it that has one.
pub open spec fn stripped_id(
    ids: Seq<Option<Seq<char>>>,
    parents: Seq<Option<u32>>,
    i: int,
    n: int,
) -> Option<Seq<char>>
    decreases n,
{
    if n <= 0 {
        ids[i]
    } else {
        let before = stripped_id(ids, parents, i, n - 1);
        if before is None && ids[n - 1] is Some && encloses(parents, i, n - 1) {
            ids[n - 1]
        } else {
            before
        }
    }
}

/// Bytes of decoration on a block's first line, for these containers.
pub open spec fn first_line_strip(body: BodyView, line_no: int, strips: Seq<Strip>) -> usize {
    match line_text(body.md, line_no) {
        Some(line) => (encode_utf8(line).len() - encode_utf8(
            stripped(line, line_no, strips),
        ).len()) as usize,
        None => 0,
    }
}

/// A finished block.
pub open spec fn finished(
    body: BodyView,
    b: RawView,
    ord: int,
    span: Span,
    id: Option<Seq<char>>,
    strip_id: Option<Seq<char>>,
) -> BlockView {
    let content = normalized(body.md, b.own_lines, b.strips, strip_id);
    BlockView {
        ord: ord as u32,
        kind: b.kind,
        parent: b.parent,
        heading_path: b.heading_path,
        span,
        content_hash: blake3_hash(hashed_bytes(b.kind, content)),
        normalized_content: content,
        block_ref_id: id,
        attrs: match id {
            Some(s) => b.attrs.put("block_ref_id"@, JsonView::Str(s)),
            None => b.attrs,
        },
        line_prefix: b.line_prefix,
        cont_prefix: b.cont_prefix,
        first_line_strip_full: first_line_strip(body, b.first_line as int, b.strips),
        first_line_strip_outer: first_line_strip(
            body,
            b.first_line as int,
            if b.kind == BlockKind::ListItem && b.strips.len() > 0 {
                b.strips.drop_last()
            } else {
                b.strips
            },
        ),
    }
}

/// The walk over the top-level nodes.
pub open spec fn walk_of(body: BodyView, nodes: Seq<MdTree>) -> WalkView {
    walked_all(
        body,
        nodes,
        nodes.len() as int,
        Seq::empty(),
        None,
        None,
        WalkView { blocks: Seq::empty(), headings: Seq::empty(), links: Seq::empty() },
    )
}

pub open spec fn spans_of(blocks: Seq<RawView>) -> Seq<Span> {
    Seq::new(blocks.len(), |i: int| blocks[i].span)
}

pub open spec fn parents_of(blocks: Seq<RawView>) -> Seq<Option<u32>> {
    Seq::new(blocks.len(), |i: int| blocks[i].parent)
}

pub open spec fn units_of(blocks: Seq<RawView>) -> Seq<Seq<UnitView>> {
    Seq::new(blocks.len(), |i: int| blocks[i].units)
}

pub open spec fn ids_of(body: BodyView, blocks: Seq<RawView>) -> Seq<Option<Seq<char>>> {
    Seq::new(blocks.len(), |i: int| own_id(body, blocks, i))
}

/// The blocks of a document.
pub open spec fn blocks_of(body: BodyView, nodes: Seq<MdTree>) -> Seq<BlockView> {
    let raw = walk_of(body, nodes).blocks;
    let spans = adopted(
        spans_of(raw),
        parents_of(raw),
        nodes,
        top_spans(body, nodes),
        nodes.len() as int,
    ).0;
    let ids = ids_of(body, raw);
    Seq::new(
        raw.len(),
        |i: int|
            finished(
                body,
                raw[i],
                i,
                spans[i],
                ids[i],
                stripped_id(ids, parents_of(raw), i, raw.len() as int),
            ),
    )
}

/// Frontmatter tags, which belong to the note.
pub open spec fn note_tags(tags: Seq<Seq<char>>) -> Seq<TagView> {
    Seq::new(tags.len(), |i: int| TagView { tag: tags[i], block: None })
}

/// The document that a source with this frontmatter and these top-level nodes
/// is.
pub open spec fn document_of(
    source: Seq<char>,
    fm: FrontmatterView,
    nodes: Seq<MdTree>,
) -> DocumentView {
    let body = BodyView {
        md: sub_text(source, fm.len, encode_utf8(source).len() as int),
        base: fm.len as usize,
    };
    let st = walk_of(body, nodes);
    let spans = top_spans(body, nodes);
    let found = scanned_blocks(
        source,
        units_of(st.blocks),
        st.blocks.len() as int,
        Found { links: st.links, tags: Seq::empty() },
    );
    DocumentView {
        preamble: preamble_of(spans, encode_utf8(source).len() as int),
        properties: fm.properties,
        pinned: fm.pin,
        blocks: blocks_of(body, nodes),
        top_level: spans,
        links: found.links,
        tags: found.tags + note_tags(fm.tags),
    }
}

/// The document that a source is.
pub open spec fn document(source: Seq<char>) -> DocumentView {
    let fm = frontmatter(source);
    document_of(
        source,
        fm,
        document_nodes(sub_text(source, fm.len, encode_utf8(source).len() as int)),
    )
}

/// Frontmatter ends at a character boundary inside the source.
pub proof fn frontmatter_fits(source: Seq<char>)
    ensures
        0 <= frontmatter(source).len <= encode_utf8(source).len(),
        is_char_boundary(encode_utf8(source), frontmatter(source).len),
{
    encode_utf8_valid_utf8(source);
    is_char_boundary_start_end_of_seq(encode_utf8(source));
    if let Some((from, to, end)) = section(source) {
        closing_bounds(source, from);
        char_offset_boundary(source, end);
    }
}

proof fn closing_bounds(s: Seq<char>, from: int)
    requires
        0 <= from <= s.len(),
    ensures
        crate::frontmatter::closing(s, from) matches Some((a, e)) ==> 0 <= a <= e <= s.len(),
    decreases s.len() - from,
{
    let end = crate::frontmatter::line_end(s, from);
    crate::text::find_first(s.skip(from), '\n');
    if end > from && end < s.len() {
        closing_bounds(s, end);
    }
}

/// Preamble and top-level spans cover the source exactly, whatever the nodes.
pub proof fn document_tiles(source: Seq<char>, fm: FrontmatterView, nodes: Seq<MdTree>)
    requires
        0 <= fm.len <= encode_utf8(source).len() <= usize::MAX,
        is_char_boundary(encode_utf8(source), fm.len),
    ensures
        tiles(
            document_of(source, fm, nodes).preamble,
            document_of(source, fm, nodes).top_level,
            encode_utf8(source).len() as int,
        ),
{
    encode_utf8_valid_utf8(source);
    is_char_boundary_start_end_of_seq(encode_utf8(source));
    slice_is_text(encode_utf8(source), fm.len, encode_utf8(source).len() as int);
}

/// The tiles lie in the source and cut no character.
pub open spec fn spans_inside(source: Seq<char>, spans: Seq<Span>) -> bool {
    forall|i: int|
        0 <= i < spans.len() ==> {
            &&& (#[trigger] spans[i]).start <= encode_utf8(source).len()
            &&& spans[i].end <= encode_utf8(source).len()
            &&& is_char_boundary(encode_utf8(source), spans[i].start as int)
            &&& is_char_boundary(encode_utf8(source), spans[i].end as int)
        }
}

/// The tiles of a document lie in its source and cut no character.
pub proof fn document_spans_inside(source: Seq<char>)
    requires
        encode_utf8(source).len() <= usize::MAX,
    ensures
        spans_inside(source, document(source).top_level),
        spans_inside(source, seq![document(source).preamble]),
        tiles(
            document(source).preamble,
            document(source).top_level,
            encode_utf8(source).len() as int,
        ),
{
    let fm = frontmatter(source);
    let b = encode_utf8(source);
    let n = b.len() as int;
    frontmatter_fits(source);
    encode_utf8_valid_utf8(source);
    is_char_boundary_start_end_of_seq(b);
    let md = sub_text(source, fm.len, n);
    slice_is_text(b, fm.len, n);
    let nodes = document_nodes(md);
    let body = BodyView { md, base: fm.len as usize };
    let spans = top_spans(body, nodes);
    document_tiles(source, fm, nodes);
    assert forall|i: int| 0 <= i < spans.len() implies {
        &&& (#[trigger] spans[i]).start <= n
        &&& spans[i].end <= n
        &&& is_char_boundary(b, spans[i].start as int)
        &&& is_char_boundary(b, spans[i].end as int)
    } by {
        line_start_at_facts(md, nodes[i].info.start_line as int);
        boundary_shifts(b, fm.len, line_start_at(md, nodes[i].info.start_line as int));
        if i + 1 < nodes.len() {
            line_start_at_facts(md, nodes[i + 1].info.start_line as int);
            boundary_shifts(b, fm.len, line_start_at(md, nodes[i + 1].info.start_line as int));
        }
    }
    assert(document(source).top_level == spans);
    if spans.len() > 0 {
        assert(spans[0].start <= n);
    }
}

fn tile_nodes(body: &Body, nodes: &Vec<MdNode>, Ghost(source): Ghost<Seq<char>>) -> (r: Vec<Span>)
    requires
        body.of(source),
    ensures
        r@ == top_spans(body.deep_view(), forest_view(*nodes)),
{
    let ghost trees = forest_view(*nodes);
    let size: usize = body.md.as_bytes().len();
    proof {
        nodes_view_index(*nodes, nodes.len() as int);
    }
    let mut out: Vec<Span> = Vec::new();
    let mut i: usize = 0;
    while i < nodes.len()
        invariant
            i <= nodes.len(),
            body.of(source),
            size == encode_utf8(body.md@).len(),
            trees == forest_view(*nodes),
            trees.len() == nodes.len(),
            forall|k: int| 0 <= k < nodes.len() ==> #[trigger] trees[k] == node_view(nodes[k]),
            out@ == top_spans(body.deep_view(), trees).take(i as int),
        decreases nodes.len() - i,
    {
        assert(trees[i as int] == node_view(nodes[i as int]));
        let start = body.lo.line_start(nodes[i].info.start_line);
        proof {
            body.lo.start_facts(body.md@, nodes[i as int].info.start_line as int);
        }
        let end = if i + 1 < nodes.len() {
            assert(trees[i + 1] == node_view(nodes[i + 1]));
            proof {
                body.lo.start_facts(body.md@, nodes[i + 1].info.start_line as int);
            }
            body.lo.line_start(nodes[i + 1].info.start_line)
        } else {
            size
        };
        out.push(Span { start: start + body.base, end: end + body.base });
        assert(out@ =~= top_spans(body.deep_view(), trees).take(i + 1));
        i += 1;
    }
    assert(out@ =~= top_spans(body.deep_view(), trees));
    out
}

/// The block spans with the tiles of the top-level nodes adopted.
fn adopt_tiles(blocks: &Vec<RawBlock>, nodes: &Vec<MdNode>, tiles: &Vec<Span>) -> (r: Vec<Span>)
    requires
        tiles.len() == nodes.len(),
    ensures
        r@ == adopted(
            spans_of(blocks.deep_view()),
            parents_of(blocks.deep_view()),
            forest_view(*nodes),
            tiles@,
            nodes.len() as int,
        ).0,
        r.len() == blocks.len(),
{
    let ghost raw = blocks.deep_view();
    let ghost trees = forest_view(*nodes);
    proof {
        nodes_view_index(*nodes, nodes.len() as int);
    }
    let mut spans: Vec<Span> = Vec::new();
    let mut i: usize = 0;
    while i < blocks.len()
        invariant
            i <= blocks.len(),
            raw == blocks.deep_view(),
            spans@ == spans_of(raw).take(i as int),
        decreases blocks.len() - i,
    {
        spans.push(blocks[i].span);
        assert(spans@ =~= spans_of(raw).take(i + 1));
        i += 1;
    }
    assert(spans@ =~= spans_of(raw));
    let ghost spans0 = spans@;
    let ghost parents = parents_of(raw);
    let mut cursor: usize = 0;
    let mut n: usize = 0;
    while n < nodes.len()
        invariant
            n <= nodes.len() == tiles.len(),
            raw == blocks.deep_view(),
            raw.len() == blocks.len() == spans.len(),
            parents == parents_of(raw),
            trees == forest_view(*nodes),
            trees.len() == nodes.len(),
            forall|k: int| 0 <= k < nodes.len() ==> #[trigger] trees[k] == node_view(nodes[k]),
            cursor <= spans.len(),
            (spans@, cursor as int) == adopted(spans0, parents, trees, tiles@, n as int),
        decreases nodes.len() - n,
    {
        assert(trees[n as int] == node_view(nodes[n as int]));
        if !is_container(&nodes[n]) {
            let at = tiles[n].start;
            let ghost c0 = cursor as int;
            while cursor < spans.len() && spans[cursor].start < at
                invariant
                    cursor <= spans.len(),
                    first_from(spans@, cursor as int, at as int) == first_from(
                        spans@,
                        c0,
                        at as int,
                    ),
                decreases spans.len() - cursor,
            {
                cursor += 1;
            }
            if cursor < spans.len() {
                assert(raw[cursor as int] == blocks[cursor as int].deep_view());
                if blocks[cursor].parent.is_none() && spans[cursor].start == at {
                    spans.set(cursor, tiles[n]);
                    cursor += 1;
                }
            }
        }
        n += 1;
    }
    spans
}

/// For each block, whether it has another inside it.
fn mark_parents(blocks: &Vec<RawBlock>) -> (r: Vec<bool>)
    requires
        forall|i: int|
            0 <= i < blocks.len() ==> ((#[trigger] blocks.deep_view()[i]).parent matches Some(p)
                ==> p < i),
    ensures
        r.len() == blocks.len(),
        forall|i: int| 0 <= i < r.len() ==> #[trigger] r[i] == has_child(blocks.deep_view(), i),
{
    let ghost raw = blocks.deep_view();
    let mut out: Vec<bool> = Vec::new();
    let mut i: usize = 0;
    while i < blocks.len()
        invariant
            i <= blocks.len(),
            out.len() == i,
            forall|k: int| 0 <= k < i ==> !(#[trigger] out[k]),
        decreases blocks.len() - i,
    {
        out.push(false);
        i += 1;
    }
    let mut j: usize = 0;
    while j < blocks.len()
        invariant
            j <= blocks.len() == out.len(),
            raw == blocks.deep_view(),
            forall|i: int|
                0 <= i < blocks.len() ==> ((#[trigger] raw[i]).parent matches Some(p) ==> p < i),
            forall|i: int|
                0 <= i < out.len() ==> (#[trigger] out[i] <==> exists|k: int|
                    0 <= k < j && (#[trigger] raw[k]).parent == Some(i as u32) && i <= u32::MAX),
        decreases blocks.len() - j,
    {
        assert(raw[j as int] == blocks[j as int].deep_view());
        if let Some(p) = blocks[j].parent {
            let ghost before = out@;
            out.set(p as usize, true);
            proof {
                assert forall|i: int| 0 <= i < out.len() implies (#[trigger] out[i] <==> exists|
                    k: int,
                |
                    0 <= k < j + 1 && (#[trigger] raw[k]).parent == Some(i as u32) && i
                        <= u32::MAX) by {
                    if i == p {
                        assert(raw[j as int].parent == Some(i as u32));
                    } else {
                        assert(out[i] == before[i]);
                        if exists|k: int|
                            0 <= k < j + 1 && (#[trigger] raw[k]).parent == Some(i as u32) && i
                                <= u32::MAX {
                            let k = choose|k: int|
                                0 <= k < j + 1 && (#[trigger] raw[k]).parent == Some(i as u32) && i
                                    <= u32::MAX;
                            assert(k < j);
                        }
                    }
                }
            }
        }
        j += 1;
    }
    out
}

fn in_text(units: &Vec<TextUnit>, at: usize) -> (r: bool)
    ensures
        r == in_ranges(units.deep_view(), at as int),
{
    let ghost v = units.deep_view();
    let mut i: usize = 0;
    while i < units.len()
        invariant
            i <= units.len(),
            v == units.deep_view(),
            forall|k: int|
                0 <= k < i ==> !(#[trigger] v[k] matches UnitView::Range(r) && r.start <= at
                    < r.end),
        decreases units.len() - i,
    {
        assert(v[i as int] == units[i as int].deep_view());
        if let TextUnit::Range(r) = &units[i] {
            if r.start <= at && at < r.end {
                return true;
            }
        }
        i += 1;
    }
    false
}

/// The block's own ID.
fn find_own_id(
    body: &Body,
    b: &RawBlock,
    has_child_i: bool,
    Ghost(source): Ghost<Seq<char>>,
    Ghost(raw): Ghost<Seq<RawView>>,
    Ghost(i): Ghost<int>,
) -> (r: Option<String>)
    requires
        body.of(source),
        0 <= i < raw.len(),
        b.deep_view() == raw[i],
        has_child_i == has_child(raw, i),
    ensures
        opt_text(r) == own_id(body.deep_view(), raw, i),
{
    let eligible = b.kind == BlockKind::Heading || b.kind == BlockKind::Paragraph || (b.kind
        == BlockKind::ListItem && !has_child_i);
    if !eligible || b.own_lines.len() == 0 {
        return None;
    }
    let (first, last) = b.own_lines[b.own_lines.len() - 1];
    let setext = matches!(get(&b.attrs, "setext"), Some(Json::Bool(true)));
    let line_no = if setext && last > first {
        last - 1
    } else {
        last
    };
    assert(line_no == marker_line(raw[i]));
    let raw_line = match get_line(body.md, &body.lo, line_no) {
        Some(t) => t,
        None => {
            return None;
        },
    };
    let bare = trim_end(raw_line, CharSet::Blank);
    let logical = trim_end(
        strip_containers(raw_line, line_no, &b.strips, b.strips.len()),
        CharSet::Blank,
    );
    assert(b.strips@.take(b.strips.len() as int) =~= b.strips@);
    let id = match trailing_ref_marker(logical) {
        Some(id) => id,
        None => {
            return None;
        },
    };
    let mut marker = String::new();
    marker.push(' ');
    marker.push('^');
    assert(marker@ =~= seq![' ', '^']);
    marker.append(id);
    if !ends_with(bare, marker.as_str()) {
        return None;
    }
    let start = body.lo.line_start(line_no);
    let bare_len: usize = bare.as_bytes().len();
    let marker_len: usize = marker.as_str().as_bytes().len();
    proof {
        marker_fits(body.md@, body.lo, line_no as int, bare@, marker@);
    }
    let at: usize = start + body.base + (bare_len - marker_len) + 1;
    if in_text(&b.units, at) {
        Some(id.to_owned())
    } else {
        None
    }
}

/// The marker lies inside the source.
proof fn marker_fits(md: Seq<char>, lo: LineOffsets, line_no: int, bare: Seq<char>, marker: Seq<char>)
    requires
        lo.of(md),
        lo.start_of(line_no) < encode_utf8(md).len(),
        bare == trimmed_end(
            CharSet::Blank,
            trimmed_end(
                CharSet::LineEnd,
                sub_text(md, lo.start_of(line_no), lo.start_of(line_no + 1)),
            ),
        ),
        marker.is_suffix_of(bare),
        marker.len() >= 1,
    ensures
        1 <= encode_utf8(marker).len() <= encode_utf8(bare).len(),
        lo.start_of(line_no) + encode_utf8(bare).len() <= encode_utf8(md).len(),
{
    let b = encode_utf8(md);
    let line = sub_text(md, lo.start_of(line_no), lo.start_of(line_no + 1));
    let cut = trimmed_end(CharSet::LineEnd, line);
    lo.start_facts(md, line_no);
    lo.start_facts(md, line_no + 1);
    encode_utf8_valid_utf8(md);
    assert(lo.start_of(line_no) <= lo.start_of(line_no + 1));
    slice_is_text(b, lo.start_of(line_no), lo.start_of(line_no + 1));
    crate::text::trail_run(CharSet::LineEnd, line);
    crate::text::trail_run(CharSet::Blank, cut);
    let k1 = cut.len() as int;
    assert(line =~= line.take(k1) + line.skip(k1));
    encode_concat(line.take(k1), line.skip(k1));
    let k2 = bare.len() as int;
    assert(cut =~= cut.take(k2) + cut.skip(k2));
    encode_concat(cut.take(k2), cut.skip(k2));
    let head = bare.take(bare.len() - marker.len());
    assert(bare =~= head + marker);
    encode_concat(head, marker);
    crate::text::encode_len_bounds(marker);
}

spec fn opt_texts(v: Seq<Option<String>>) -> Seq<Option<Seq<char>>> {
    Seq::new(v.len(), |i: int| opt_text(v[i]))
}

fn copy_opt(o: &Option<String>) -> (r: Option<String>)
    ensures
        opt_text(r) == opt_text(*o),
{
    match o {
        Some(s) => Some(s.clone()),
        None => None,
    }
}

/// For each block the ID that is stripped from its content.
fn spread_ids(blocks: &Vec<RawBlock>, ids: &Vec<Option<String>>) -> (r: Vec<Option<String>>)
    requires
        ids.len() == blocks.len(),
        forall|i: int|
            0 <= i < blocks.len() ==> ((#[trigger] blocks.deep_view()[i]).parent matches Some(p)
                ==> p < i),
    ensures
        r.len() == blocks.len(),
        forall|i: int|
            0 <= i < r.len() ==> opt_text(#[trigger] r[i]) == stripped_id(
                opt_texts(ids@),
                parents_of(blocks.deep_view()),
                i,
                blocks.len() as int,
            ),
{
    let ghost texts = opt_texts(ids@);
    let ghost parents = parents_of(blocks.deep_view());
    let mut out: Vec<Option<String>> = Vec::new();
    let mut i: usize = 0;
    while i < ids.len()
        invariant
            i <= ids.len(),
            out.len() == i,
            texts == opt_texts(ids@),
            forall|k: int|
                0 <= k < i ==> opt_text(#[trigger] out[k]) == stripped_id(texts, parents, k, 0),
        decreases ids.len() - i,
    {
        out.push(copy_opt(&ids[i]));
        i += 1;
    }
    let mut n: usize = 0;
    while n < blocks.len()
        invariant
            n <= blocks.len() == ids.len() == out.len(),
            texts == opt_texts(ids@),
            parents == parents_of(blocks.deep_view()),
            forall|i: int|
                0 <= i < blocks.len() ==> ((#[trigger] blocks.deep_view()[i]).parent matches Some(p)
                    ==> p < i),
            forall|k: int|
                0 <= k < out.len() ==> opt_text(#[trigger] out[k]) == stripped_id(
                    texts,
                    parents,
                    k,
                    n as int,
                ),
        decreases blocks.len() - n,
    {
        if let Some(id) = &ids[n] {
            let ghost before = out@;
            let mut p = blocks[n].parent;
            let ghost mut at: int = n as int;
            assert(blocks.deep_view()[n as int] == blocks[n as int].deep_view());
            proof {
                assert forall|k: int| n <= k < out.len() implies opt_text(#[trigger] out[k])
                    == stripped_id(texts, parents, k, n + 1) by {
                    encloses_lower(parents, k, n as int);
                }
            }
            while p.is_some()
                invariant
                    n < blocks.len() == ids.len() == out.len(),
                    texts == opt_texts(ids@),
                    ids[n as int] == Some(*id),
                    parents == parents_of(blocks.deep_view()),
                    forall|i: int|
                        0 <= i < blocks.len() ==> ((#[trigger] blocks.deep_view()[i]).parent
                            matches Some(p) ==> p < i),
                    before.len() == out.len(),
                    0 <= at <= n,
                    p == parents[at],
                    forall|k: int|
                        0 <= k < out.len() ==> opt_text(#[trigger] before[k]) == stripped_id(
                            texts,
                            parents,
                            k,
                            n as int,
                        ),
                    forall|k: int|
                        at <= k < out.len() ==> opt_text(#[trigger] out[k]) == stripped_id(
                            texts,
                            parents,
                            k,
                            n + 1,
                        ),
                    forall|k: int| 0 <= k < at ==> #[trigger] out[k] == before[k],
                    forall|k: int|
                        0 <= k < at ==> (#[trigger] encloses(parents, k, n as int) <==> encloses(
                            parents,
                            k,
                            at,
                        )),
                decreases at,
            {
                let pi = p.unwrap() as usize;
                assert(blocks.deep_view()[at].parent == Some(pi as u32));
                assert(out[pi as int] == before[pi as int]);
                assert(encloses(parents, pi as int, at));
                assert(encloses(parents, pi as int, n as int));
                if out[pi].is_none() {
                    out.set(pi, Some(id.clone()));
                }
                proof {
                    assert forall|k: int| pi <= k < out.len() implies opt_text(#[trigger] out[k])
                        == stripped_id(texts, parents, k, n + 1) by {
                        if k < at && k > pi {
                            encloses_lower(parents, k, pi as int);
                            assert(!encloses(parents, k, at));
                            assert(encloses(parents, k, n as int) <==> encloses(parents, k, at));
                            assert(out[k] == before[k]);
                        }
                    }
                    assert forall|k: int| 0 <= k < pi implies (#[trigger] encloses(
                        parents,
                        k,
                        n as int,
                    ) <==> encloses(parents, k, pi as int)) by {
                        assert(encloses(parents, k, n as int) <==> encloses(parents, k, at));
                    }
                    at = pi as int;
                }
                assert(blocks.deep_view()[pi as int] == blocks[pi as int].deep_view());
                p = blocks[pi].parent;
            }
            proof {
                assert forall|k: int| 0 <= k < out.len() implies opt_text(#[trigger] out[k])
                    == stripped_id(texts, parents, k, n + 1) by {
                    if k < at {
                        assert(!encloses(parents, k, at));
                        assert(!encloses(parents, k, n as int));
                        assert(out[k] == before[k]);
                    }
                }
            }
        }
        n += 1;
    }
    out
}

/// A block is enclosed by earlier ones only.
proof fn encloses_lower(parents: Seq<Option<u32>>, i: int, j: int)
    requires
        i >= j,
    ensures
        !encloses(parents, i, j),
    decreases j,
{
    if let Some(p) = parents[j] {
        if p < j {
            encloses_lower(parents, i, p as int);
        }
    }
}

fn measure_strip(body: &Body, line_no: usize, strips: &Vec<Strip>, depth: usize) -> (r: usize)
    requires
        body.lo.of(body.md@),
        depth <= strips.len(),
    ensures
        r == first_line_strip(body.deep_view(), line_no as int, strips@.take(depth as int)),
{
    match get_line(body.md, &body.lo, line_no) {
        Some(line) => {
            let rest = strip_containers(line, line_no, strips, depth);
            proof {
                suffix_bytes(line@, line_no as int, strips@.take(depth as int));
            }
            line.as_bytes().len() - rest.as_bytes().len()
        },
        None => 0,
    }
}

/// Finishes a block: content, hash, ID, decoration widths.
fn finish_block(
    body: &Body,
    b: RawBlock,
    ord: usize,
    span: Span,
    id: Option<String>,
    strip_id: &Option<String>,
) -> (r: Block)
    requires
        body.lo.of(body.md@),
    ensures
        r.deep_view() == finished(
            body.deep_view(),
            b.deep_view(),
            ord as int,
            span,
            opt_text(id),
            opt_text(*strip_id),
        ),
{
    let marker = match strip_id {
        Some(s) => Some(s.as_str()),
        None => None,
    };
    let content = normalized_content(body.md, &body.lo, &b.own_lines, &b.strips, marker);
    let hash = content_hash(b.kind, content.as_str());
    let depth: usize = if b.kind == BlockKind::ListItem && b.strips.len() > 0 {
        b.strips.len() - 1
    } else {
        b.strips.len()
    };
    proof {
        assert(b.strips@.take(b.strips.len() as int) =~= b.strips@);
        if depth < b.strips.len() {
            assert(b.strips@.take(depth as int) =~= b.strips@.drop_last());
        }
    }
    let full = measure_strip(body, b.first_line, &b.strips, b.strips.len());
    let outer = measure_strip(body, b.first_line, &b.strips, depth);
    let mut attrs = b.attrs;
    if let Some(s) = &id {
        put(&mut attrs, "block_ref_id".to_owned(), Json::Str(s.clone()));
    }
    Block {
        ord: ord as u32,
        kind: b.kind,
        parent: b.parent,
        heading_path: b.heading_path,
        span,
        content_hash: hash,
        normalized_content: content,
        block_ref_id: id,
        attrs,
        line_prefix: b.line_prefix,
        cont_prefix: b.cont_prefix,
        first_line_strip_full: full,
        first_line_strip_outer: outer,
    }
}

/// Parents come before their children.
pub open spec fn parents_first(blocks: Seq<BlockView>) -> bool {
    forall|i: int| 0 <= i < blocks.len() ==> ((#[trigger] blocks[i]).parent matches Some(p) ==> p < i)
}

/// The document that a source with this frontmatter and these top-level nodes
/// is.
pub fn parse_nodes(source: &str, fm: Frontmatter, nodes: &Vec<MdNode>) -> (r: Document)
    requires
        fm.len <= source.spec_bytes().len(),
        is_char_boundary(source.spec_bytes(), fm.len as int),
    ensures
        r.deep_view() == document_of(source@, fm.deep_view(), forest_view(*nodes)),
        parents_first(r.deep_view().blocks),
{
    let size: usize = source.as_bytes().len();
    let ghost bytes = source.spec_bytes();
    proof {
        encode_utf8_valid_utf8(source@);
        is_char_boundary_start_end_of_seq(bytes);
    }
    let md = slice(source, fm.len, size);
    let body = Body { md, base: fm.len, lo: LineOffsets::new(md) };
    let ghost trees = forest_view(*nodes);
    let ghost view = body.deep_view();
    proof {
        assert(body.of(source@));
        nodes_view_index(*nodes, nodes.len() as int);
    }

    let mut st = Walk { blocks: Vec::new(), headings: Vec::new(), links: Vec::new() };
    let mut strips: Vec<Strip> = Vec::new();
    let ghost st0 = WalkView { blocks: Seq::empty(), headings: Seq::empty(), links: Seq::empty() };
    proof {
        assert(st.blocks.deep_view() =~= Seq::empty());
        assert(st.headings.deep_view() =~= Seq::empty());
        assert(st.links.deep_view() =~= Seq::empty());
        assert(strips@ =~= Seq::<Strip>::empty());
    }
    let mut i: usize = 0;
    while i < nodes.len()
        invariant
            i <= nodes.len(),
            body.of(source@),
            view == body.deep_view(),
            trees == forest_view(*nodes),
            trees.len() == nodes.len(),
            forall|k: int| 0 <= k < nodes.len() ==> #[trigger] trees[k] == node_view(nodes[k]),
            strips@ == Seq::<Strip>::empty(),
            st.deep_view() == walked_all(view, trees, i as int, Seq::empty(), None, None, st0),
            walk_ok(st.deep_view(), source@),
        decreases nodes.len() - i,
    {
        assert(trees[i as int] == node_view(nodes[i as int]));
        assert(walked_all(view, trees, i + 1, Seq::empty(), None, None, st0) == walked(
            view,
            trees[i as int],
            Seq::empty(),
            None,
            None,
            walked_all(view, trees, i as int, Seq::empty(), None, None, st0),
        ));
        walk_block(&body, &nodes[i], &mut strips, None, None, &mut st, Ghost(source@));
        i += 1;
    }
    let Walk { blocks, headings: _, links } = st;
    let mut blocks = blocks;
    let mut links = links;
    let ghost raw = blocks.deep_view();
    assert(raw == walk_of(view, trees).blocks);

    let top_level = tile_nodes(&body, nodes, Ghost(source@));
    let preamble = Span {
        start: 0,
        end: if top_level.len() > 0 {
            top_level[0].start
        } else {
            size
        },
    };
    let spans = adopt_tiles(&blocks, nodes, &top_level);

    let mut tags: Vec<TagRef> = Vec::new();
    proof {
        assert(tags.deep_view() =~= Seq::empty());
    }
    scan(&blocks, source, &mut links, &mut tags);

    let nested = mark_parents(&blocks);
    let mut ids: Vec<Option<String>> = Vec::new();
    let mut k: usize = 0;
    while k < blocks.len()
        invariant
            k <= blocks.len() == nested.len(),
            body.of(source@),
            view == body.deep_view(),
            raw == blocks.deep_view(),
            ids.len() == k,
            forall|j: int| 0 <= j < nested.len() ==> #[trigger] nested[j] == has_child(raw, j),
            forall|j: int| 0 <= j < k ==> opt_text(#[trigger] ids[j]) == own_id(view, raw, j),
        decreases blocks.len() - k,
    {
        assert(raw[k as int] == blocks[k as int].deep_view());
        let id = find_own_id(
            &body,
            &blocks[k],
            nested[k],
            Ghost(source@),
            Ghost(raw),
            Ghost(k as int),
        );
        ids.push(id);
        k += 1;
    }
    let strip_ids = spread_ids(&blocks, &ids);
    let ghost texts = ids_of(view, raw);
    proof {
        assert(opt_texts(ids@) =~= texts);
    }

    let mut done: Vec<Block> = Vec::new();
    let total: usize = blocks.len();
    while blocks.len() > 0
        invariant
            body.of(source@),
            view == body.deep_view(),
            total == raw.len() == spans.len() == strip_ids.len(),
            ids.len() == blocks.len(),
            blocks.len() + done.len() == total,
            blocks.deep_view() == raw.take(blocks.len() as int),
            texts == ids_of(view, raw),
            forall|j: int| 0 <= j < ids.len() ==> opt_text(#[trigger] ids[j]) == texts[j],
            forall|j: int|
                0 <= j < total ==> opt_text(#[trigger] strip_ids[j]) == stripped_id(
                    texts,
                    parents_of(raw),
                    j,
                    total as int,
                ),
            forall|j: int|
                0 <= j < done.len() ==> (#[trigger] done[j]).deep_view() == finished(
                    view,
                    raw[total - 1 - j],
                    total - 1 - j,
                    spans[total - 1 - j],
                    texts[total - 1 - j],
                    stripped_id(texts, parents_of(raw), total - 1 - j, total as int),
                ),
        decreases blocks.len(),
    {
        let ghost before = blocks.deep_view();
        let ord: usize = blocks.len() - 1;
        assert(opt_text(ids[ord as int]) == texts[ord as int]);
        let b = blocks.pop().unwrap();
        let id = ids.pop().unwrap();
        proof {
            assert(b.deep_view() == before[ord as int]);
            assert(blocks.deep_view() =~= before.drop_last());
            assert(before.drop_last() =~= raw.take(ord as int));
            assert(opt_text(id) == texts[ord as int]);
        }
        let f = finish_block(&body, b, ord, spans[ord], id, &strip_ids[ord]);
        done.push(f);
    }
    let finished_blocks = reversed(done);
    proof {
        let want = blocks_of(view, trees);
        let got = finished_blocks.deep_view();
        assert forall|j: int| 0 <= j < want.len() implies got[j] == want[j] by {
            assert(got[j] == finished_blocks[j].deep_view());
        }
        assert(got =~= want);
    }

    let found = tags;
    let tags = append_note_tags(found, fm.tags);
    Document {
        preamble,
        properties: fm.properties,
        pinned: fm.pin,
        blocks: finished_blocks,
        top_level,
        links,
        tags,
    }
}

/// The blocks in the opposite order.
fn reversed(v: Vec<Block>) -> (r: Vec<Block>)
    ensures
        r.len() == v.len(),
        forall|i: int| 0 <= i < r.len() ==> #[trigger] r[i] == v[v.len() - 1 - i],
{
    let mut v = v;
    let ghost all = v@;
    let mut out: Vec<Block> = Vec::new();
    while v.len() > 0
        invariant
            v.len() + out.len() == all.len(),
            v@ == all.take(v.len() as int),
            forall|i: int| 0 <= i < out.len() ==> #[trigger] out[i] == all[all.len() - 1 - i],
        decreases v.len(),
    {
        let b = v.pop().unwrap();
        out.push(b);
    }
    out
}

/// Adds the frontmatter's tags.
fn append_note_tags(found: Vec<TagRef>, tags: Vec<String>) -> (r: Vec<TagRef>)
    ensures
        r.deep_view() == found.deep_view() + note_tags(tags.deep_view()),
{
    let mut out = found;
    let mut i: usize = 0;
    proof {
        assert(out.deep_view() + note_tags(tags.deep_view()).take(0) =~= out.deep_view());
    }
    while i < tags.len()
        invariant
            i <= tags.len(),
            out.deep_view() == found.deep_view() + note_tags(tags.deep_view()).take(i as int),
        decreases tags.len() - i,
    {
        let ghost before = out.deep_view();
        out.push(TagRef { tag: tags[i].clone(), block: None });
        proof {
            let t = note_tags(tags.deep_view());
            assert(out.deep_view() =~= before.push(t[i as int]));
            assert(found.deep_view() + t.take(i + 1) =~= before.push(t[i as int]));
        }
        i += 1;
    }
    proof {
        let t = note_tags(tags.deep_view());
        assert(t.take(i as int) =~= t);
    }
    out
}

/// Scans the text of every block for vault syntax.
fn scan(
    blocks: &Vec<RawBlock>,
    source: &str,
    links: &mut Vec<LinkRef>,
    tags: &mut Vec<TagRef>,
)
    requires
        forall|i: int|
            0 <= i < blocks.len() ==> units_within(
                (#[trigger] blocks.deep_view()[i]).units,
                source@,
            ),
    ensures
        (Found { links: final(links).deep_view(), tags: final(tags).deep_view() })
            == scanned_blocks(
            source@,
            units_of(blocks.deep_view()),
            blocks.len() as int,
            (Found { links: old(links).deep_view(), tags: old(tags).deep_view() }),
        ),
{
    let ghost raw = blocks.deep_view();
    let ghost acc = Found { links: links.deep_view(), tags: tags.deep_view() };
    let mut b: usize = 0;
    while b < blocks.len()
        invariant
            b <= blocks.len(),
            raw == blocks.deep_view(),
            forall|i: int|
                0 <= i < blocks.len() ==> units_within((#[trigger] raw[i]).units, source@),
            (Found { links: links.deep_view(), tags: tags.deep_view() }) == scanned_blocks(
                source@,
                units_of(raw),
                b as int,
                acc,
            ),
        decreases blocks.len() - b,
    {
        assert(raw[b as int] == blocks[b as int].deep_view());
        scan_units(&blocks[b].units, b as u32, source, links, tags);
        b += 1;
    }
}

/// Parses a document.
pub fn parse(source: &str) -> (r: Document)
    ensures
        r.deep_view() == document(source@),
        tiles(r.preamble, r.top_level@, source.spec_bytes().len() as int),
        parents_first(r.deep_view().blocks),
        refs_fit(r.deep_view()),
{
    let size: usize = source.as_bytes().len();
    let fm = extract(source);
    proof {
        frontmatter_fits(source@);
        encode_utf8_valid_utf8(source@);
        is_char_boundary_start_end_of_seq(source.spec_bytes());
    }
    let nodes = parse_markdown(slice(source, fm.len, size));
    proof {
        document_tiles(source@, fm.deep_view(), forest_view(nodes));
        references_name_blocks(source@, fm.deep_view(), forest_view(nodes));
    }
    parse_nodes(source, fm, &nodes)
}

} // verus!
