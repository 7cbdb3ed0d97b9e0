//! What holds of the blocks of every document: they are numbered in order, only list
//! items hold blocks, and a block's identity is that of its content.

use vstd::prelude::*;
use vstd::utf8::encode_utf8;

use crate::content::Strip;
use crate::document::{BlockKind, BlockView};
use crate::frontmatter::frontmatter;
use crate::hash::{blake3_hash, hashed_bytes};
use crate::json::JsonView;
use crate::markdown::{document_nodes, KindView, MdTree};
use crate::parse::{document, walk_of};
use crate::text::{nfc, sub_text, trail_run, CharSet};
use crate::walk::{
    block_at, geometry, item_lines, list_attrs, walked, walked_all, walked_item, BodyView, RawView,
    WalkView,
};

verus! {

/// A block's parent is a list item that comes before it.
pub open spec fn parents_are_items(blocks: Seq<BlockView>) -> bool {
    forall|i: int|
        0 <= i < blocks.len() ==> ((#[trigger] blocks[i]).parent matches Some(p) ==> p < i
            && blocks[p as int].kind == BlockKind::ListItem)
}

/// Blocks are numbered in the order in which they stand.
pub open spec fn numbered(blocks: Seq<BlockView>) -> bool {
    forall|i: int| 0 <= i < blocks.len() ==> (#[trigger] blocks[i]).ord == i
}

/// A block's hash is that of its kind and content, and its content does not end in a
/// line feed.
pub open spec fn content_ok(b: BlockView) -> bool {
    &&& b.content_hash == blake3_hash(hashed_bytes(b.kind, b.normalized_content))
    &&& b.normalized_content.len() > 0 ==> b.normalized_content.last() != '\n'
}

/// The item at `parent` is a list item of the walk.
spec fn parent_ok(parent: Option<u32>, st: WalkView) -> bool {
    parent matches Some(p) ==> p < st.blocks.len() && st.blocks[p as int].kind
        == BlockKind::ListItem
}

/// Every parent in the walk is a list item before its child.
spec fn items_ok(st: WalkView) -> bool {
    forall|i: int|
        0 <= i < st.blocks.len() ==> ((#[trigger] st.blocks[i]).parent matches Some(p) ==> p < i
            && st.blocks[p as int].kind == BlockKind::ListItem)
}

/// A walk only adds blocks; while they can be numbered, every parent is a list item.
spec fn goes_on(parent: Option<u32>, st: WalkView, next: WalkView) -> bool {
    &&& st.blocks.len() <= next.blocks.len()
    &&& forall|i: int|
        0 <= i < st.blocks.len() ==> (#[trigger] next.blocks[i]).kind == st.blocks[i].kind
    &&& next.blocks.len() <= u32::MAX && items_ok(st) && parent_ok(parent, st) ==> items_ok(next)
}

/// A walk that adds a block to what is there.
proof fn one_more(parent: Option<u32>, st: WalkView, b: RawView, next: WalkView)
    requires
        next.blocks == st.blocks.push(b),
        b.parent == parent,
    ensures
        goes_on(parent, st, next),
{
    if items_ok(st) && parent_ok(parent, st) {
        assert forall|i: int| 0 <= i < next.blocks.len() implies ((
        #[trigger] next.blocks[i]).parent matches Some(p) ==> p < i && next.blocks[p as int].kind
            == BlockKind::ListItem) by {
            if i < st.blocks.len() {
                assert(next.blocks[i] == st.blocks[i]);
                if let Some(p) = st.blocks[i].parent {
                    assert(next.blocks[p as int] == st.blocks[p as int]);
                }
            } else if let Some(p) = parent {
                assert(next.blocks[p as int] == st.blocks[p as int]);
            }
        }
    }
}

proof fn walked_goes_on(
    body: BodyView,
    tree: MdTree,
    strips: Seq<Strip>,
    list: Option<JsonView>,
    parent: Option<u32>,
    st: WalkView,
)
    ensures
        goes_on(parent, st, walked(body, tree, strips, list, parent, st)),
    decreases tree, 1int,
{
    let n = tree.children.len() as int;
    let next = walked(body, tree, strips, list, parent, st);
    assert(decreases_to!(tree => tree.children));
    match tree.info.kind {
        KindView::Quote => {
            walked_all_goes_on(body, tree.children, n, strips.push(Strip::Quote), list, parent, st);
        },
        KindView::List { ordered, start, tight } => {
            let attrs = Some(list_attrs(ordered, start, tight));
            walked_all_goes_on(body, tree.children, n, strips, attrs, parent, st);
        },
        KindView::Item { .. } => {
            walked_item_goes_on(body, tree, strips, list, parent, st);
        },
        KindView::TaskItem { .. } => {
            walked_item_goes_on(body, tree, strips, list, parent, st);
        },
        KindView::Heading { .. } => {
            one_more(parent, st, next.blocks.last(), next);
        },
        KindView::Paragraph => {
            one_more(parent, st, next.blocks.last(), next);
        },
        KindView::CodeBlock { .. } => {
            one_more(parent, st, next.blocks.last(), next);
        },
        KindView::HtmlBlock => {
            one_more(parent, st, next.blocks.last(), next);
        },
        KindView::ThematicBreak => {
            one_more(parent, st, next.blocks.last(), next);
        },
        KindView::Table => {
            one_more(parent, st, next.blocks.last(), next);
        },
        _ => {
            walked_all_goes_on(body, tree.children, n, strips, list, parent, st);
        },
    }
}

proof fn walked_item_goes_on(
    body: BodyView,
    tree: MdTree,
    strips: Seq<Strip>,
    list: Option<JsonView>,
    parent: Option<u32>,
    st: WalkView,
)
    ensures
        goes_on(parent, st, walked_item(body, tree, strips, list, parent, st)),
    decreases tree, 0int,
{
    let g = geometry(body, tree.info, strips, list);
    let inner = strips.push(
        Strip::Item {
            first_line: tree.info.start_line,
            first_width: g.first_width,
            cont_width: g.cont_width,
        },
    );
    let block = block_at(
        body,
        st,
        BlockKind::ListItem,
        tree.info,
        parent,
        inner,
        g.attrs,
        item_lines(tree),
    );
    let inside = WalkView { blocks: st.blocks.push(block), ..st };
    let at = Some(st.blocks.len() as u32);
    let n = tree.children.len() as int;
    one_more(parent, st, block, inside);
    assert(decreases_to!(tree => tree.children));
    walked_all_goes_on(body, tree.children, n, inner, list, at, inside);
    let next = walked_item(body, tree, strips, list, parent, st);
    assert forall|i: int| 0 <= i < st.blocks.len() implies (#[trigger] next.blocks[i]).kind
        == st.blocks[i].kind by {
        assert(inside.blocks[i] == st.blocks[i]);
    }
    if next.blocks.len() <= u32::MAX {
        assert(inside.blocks[st.blocks.len() as int].kind == BlockKind::ListItem);
        assert(parent_ok(at, inside));
    }
}

proof fn walked_all_goes_on(
    body: BodyView,
    trees: Seq<MdTree>,
    n: int,
    strips: Seq<Strip>,
    list: Option<JsonView>,
    parent: Option<u32>,
    st: WalkView,
)
    ensures
        goes_on(parent, st, walked_all(body, trees, n, strips, list, parent, st)),
    decreases trees, n,
{
    if n > 0 && n <= trees.len() {
        walked_all_goes_on(body, trees, n - 1, strips, list, parent, st);
        let before = walked_all(body, trees, n - 1, strips, list, parent, st);
        assert(decreases_to!(trees => trees[n - 1]));
        walked_goes_on(body, trees[n - 1], strips, list, parent, before);
        let next = walked_all(body, trees, n, strips, list, parent, st);
        assert(goes_on(parent, before, next));
        assert forall|i: int| 0 <= i < st.blocks.len() implies (#[trigger] next.blocks[i]).kind
            == st.blocks[i].kind by {
            assert(before.blocks[i].kind == st.blocks[i].kind);
        }
        if let Some(p) = parent {
            if p < st.blocks.len() {
                assert(before.blocks[p as int].kind == st.blocks[p as int].kind);
            }
        }
    }
}

/// The blocks of a document are numbered in order, and a block's parent is always a
/// list item before it. (Numbers have 32 bits.)
pub proof fn only_items_hold_blocks(source: Seq<char>)
    requires
        document(source).blocks.len() <= u32::MAX,
    ensures
        numbered(document(source).blocks),
        parents_are_items(document(source).blocks),
{
    let fm = frontmatter(source);
    let md = sub_text(source, fm.len, encode_utf8(source).len() as int);
    let body = BodyView { md, base: fm.len as usize };
    let nodes = document_nodes(md);
    let none = WalkView { blocks: Seq::empty(), headings: Seq::empty(), links: Seq::empty() };
    walked_all_goes_on(body, nodes, nodes.len() as int, Seq::empty(), None, None, none);
    let raw = walk_of(body, nodes).blocks;
    let blocks = document(source).blocks;
    assert(blocks.len() == raw.len());
    assert(items_ok(walk_of(body, nodes)));
    assert forall|i: int| 0 <= i < blocks.len() implies ((#[trigger] blocks[i]).parent matches Some(
        p,
    ) ==> p < i && blocks[p as int].kind == BlockKind::ListItem) by {
        assert(blocks[i].parent == raw[i].parent);
        if let Some(p) = raw[i].parent {
            assert(blocks[p as int].kind == raw[p as int].kind);
        }
    }
}

/// The hash of every block of a document is that of its kind and content, and no
/// content ends in a line feed.
pub proof fn contents_are_hashed(source: Seq<char>)
    ensures
        forall|i: int|
            0 <= i < document(source).blocks.len() ==> content_ok(
                #[trigger] document(source).blocks[i],
            ),
{
    let fm = frontmatter(source);
    let md = sub_text(source, fm.len, encode_utf8(source).len() as int);
    let body = BodyView { md, base: fm.len as usize };
    let raw = walk_of(body, document_nodes(md)).blocks;
    let ids = crate::parse::ids_of(body, raw);
    let parents = crate::parse::parents_of(raw);
    assert forall|i: int| 0 <= i < document(source).blocks.len() implies content_ok(
        #[trigger] document(source).blocks[i],
    ) by {
        let b = raw[i];
        let strip_id = crate::parse::stripped_id(ids, parents, i, raw.len() as int);
        let text = nfc(
            crate::content::plain_text(md, b.own_lines, b.strips, strip_id),
        );
        trail_run(CharSet::Newline, text);
        let content = document(source).blocks[i].normalized_content;
        assert(content == crate::content::normalized(md, b.own_lines, b.strips, strip_id));
        if content.len() > 0 {
            assert(content.last() == text[content.len() - 1]);
            assert(!CharSet::Newline.has(content.last()));
        }
    }
}

/// Two blocks of the same kind and with the same content have the same hash, in
/// whatever documents and at whatever places they stand.
pub proof fn identity_is_content(source: Seq<char>, i: int, other: Seq<char>, j: int)
    requires
        0 <= i < document(source).blocks.len(),
        0 <= j < document(other).blocks.len(),
        document(source).blocks[i].kind == document(other).blocks[j].kind,
        document(source).blocks[i].normalized_content
            == document(other).blocks[j].normalized_content,
    ensures
        document(source).blocks[i].content_hash == document(other).blocks[j].content_hash,
{
    contents_are_hashed(source);
    contents_are_hashed(other);
    assert(content_ok(document(source).blocks[i]));
    assert(content_ok(document(other).blocks[j]));
}

} // verus!
