//! References stay inside the document: every link and every block tag names a
//! block that the document has, and the tags of the note come last.

use vstd::prelude::*;
use vstd::utf8::encode_utf8;

use crate::document::{DocumentView, LinkView, TagView, UnitView};
use crate::frontmatter::{frontmatter, FrontmatterView};
use crate::markdown::{document_nodes, KindView, MdTree};
use crate::parse::{document, document_of, note_tags, units_of, walk_of};
use crate::content::Strip;
use crate::json::JsonView;
use crate::text::{find, sub_text};
use crate::vault::{
    opens_link, scanned, scanned_blocks, scanned_units, tag_at, wiki, Found, Place, WikiView,
};
use crate::walk::{
    gathered, gathered_all, list_attrs, walked, walked_all, walked_item, BodyView, Gathered,
    WalkView,
};

verus! {

/// Every link names a block below `limit`.
pub open spec fn links_below(links: Seq<LinkView>, limit: int) -> bool {
    forall|i: int| 0 <= i < links.len() ==> (#[trigger] links[i]).block < limit
}

/// Every tag that names a block names one below `limit`.
pub open spec fn tags_below(tags: Seq<TagView>, limit: int) -> bool {
    forall|i: int| 0 <= i < tags.len() ==> ((#[trigger] tags[i]).block matches Some(b) ==> b < limit)
}

/// Every tag names a block.
pub open spec fn tags_named(tags: Seq<TagView>) -> bool {
    forall|i: int| 0 <= i < tags.len() ==> (#[trigger] tags[i]).block is Some
}

/// Every reference of the document names one of its blocks.
pub open spec fn refs_fit(doc: DocumentView) -> bool {
    &&& links_below(doc.links, doc.blocks.len() as int)
    &&& tags_below(doc.tags, doc.blocks.len() as int)
}

proof fn gathered_below(body: BodyView, tree: MdTree, block: u32, cell: bool, g: Gathered, limit: int)
    requires
        block < limit,
        links_below(g.links, limit),
    ensures
        links_below(gathered(body, tree, block, cell, g).links, limit),
    decreases tree, 0int,
{
    match tree.info.kind {
        KindView::Text(_) => {},
        KindView::Link(_) => {},
        KindView::Image => {},
        KindView::Code(_) => {},
        KindView::HtmlInline => {},
        _ => {
            assert(decreases_to!(tree => tree.children));
            gathered_all_below(
                body,
                tree.children,
                tree.children.len() as int,
                block,
                cell,
                g,
                limit,
            );
        },
    }
}

proof fn gathered_all_below(
    body: BodyView,
    trees: Seq<MdTree>,
    n: int,
    block: u32,
    cell: bool,
    g: Gathered,
    limit: int,
)
    requires
        block < limit,
        links_below(g.links, limit),
    ensures
        links_below(gathered_all(body, trees, n, block, cell, g).links, limit),
    decreases trees, n,
{
    if n > 0 && n <= trees.len() {
        gathered_all_below(body, trees, n - 1, block, cell, g, limit);
        let before = gathered_all(body, trees, n - 1, block, cell, g);
        assert(decreases_to!(trees => trees[n - 1]));
        gathered_below(body, trees[n - 1], block, cell, before, limit);
    }
}

/// The links of a walk name blocks of the walk.
spec fn links_ok(st: WalkView) -> bool {
    links_below(st.links, st.blocks.len() as int)
}

proof fn walked_links(
    body: BodyView,
    tree: MdTree,
    strips: Seq<Strip>,
    list: Option<JsonView>,
    parent: Option<u32>,
    st: WalkView,
)
    requires
        links_ok(st),
    ensures
        links_ok(walked(body, tree, strips, list, parent, st)),
    decreases tree, 1int,
{
    let info = tree.info;
    let n = tree.children.len() as int;
    let limit = st.blocks.len() as int + 1;
    let block = st.blocks.len() as u32;
    let g = Gathered { units: Seq::empty(), links: st.links };
    assert(decreases_to!(tree => tree.children));
    match info.kind {
        KindView::Quote => {
            walked_all_links(body, tree.children, n, strips.push(Strip::Quote), list, parent, st);
        },
        KindView::List { ordered, start, tight } => {
            walked_all_links(
                body,
                tree.children,
                n,
                strips,
                Some(list_attrs(ordered, start, tight)),
                parent,
                st,
            );
        },
        KindView::Item { .. } => {
            walked_item_links(body, tree, strips, list, parent, st);
        },
        KindView::TaskItem { .. } => {
            walked_item_links(body, tree, strips, list, parent, st);
        },
        KindView::Heading { level, setext } => {
            gathered_all_below(body, tree.children, n, block, false, g, limit);
        },
        KindView::Paragraph => {
            gathered_all_below(body, tree.children, n, block, false, g, limit);
        },
        KindView::CodeBlock { .. } => {},
        KindView::HtmlBlock => {},
        KindView::ThematicBreak => {},
        KindView::Table => {
            gathered_all_below(body, tree.children, n, block, true, g, limit);
        },
        _ => {
            walked_all_links(body, tree.children, n, strips, list, parent, st);
        },
    }
}

proof fn walked_item_links(
    body: BodyView,
    tree: MdTree,
    strips: Seq<Strip>,
    list: Option<JsonView>,
    parent: Option<u32>,
    st: WalkView,
)
    requires
        links_ok(st),
    ensures
        links_ok(walked_item(body, tree, strips, list, parent, st)),
    decreases tree, 0int,
{
    let g = crate::walk::geometry(body, tree.info, strips, list);
    let inner = strips.push(
        Strip::Item {
            first_line: tree.info.start_line,
            first_width: g.first_width,
            cont_width: g.cont_width,
        },
    );
    let block = crate::walk::block_at(
        body,
        st,
        crate::document::BlockKind::ListItem,
        tree.info,
        parent,
        inner,
        g.attrs,
        crate::walk::item_lines(tree),
    );
    assert(decreases_to!(tree => tree.children));
    walked_all_links(
        body,
        tree.children,
        tree.children.len() as int,
        inner,
        list,
        Some(st.blocks.len() as u32),
        WalkView { blocks: st.blocks.push(block), ..st },
    );
}

proof fn walked_all_links(
    body: BodyView,
    trees: Seq<MdTree>,
    n: int,
    strips: Seq<Strip>,
    list: Option<JsonView>,
    parent: Option<u32>,
    st: WalkView,
)
    requires
        links_ok(st),
    ensures
        links_ok(walked_all(body, trees, n, strips, list, parent, st)),
    decreases trees, n,
{
    if n > 0 && n <= trees.len() {
        walked_all_links(body, trees, n - 1, strips, list, parent, st);
        let before = walked_all(body, trees, n - 1, strips, list, parent, st);
        assert(decreases_to!(trees => trees[n - 1]));
        walked_links(body, trees[n - 1], strips, list, parent, before);
    }
}

spec fn found_below(f: Found, limit: int) -> bool {
    links_below(f.links, limit) && tags_below(f.tags, limit) && tags_named(f.tags)
}

proof fn scanned_below(text: Seq<char>, place: Place, block: u32, i: int, acc: Found, limit: int)
    requires
        block < limit,
        found_below(acc, limit),
    ensures
        found_below(scanned(text, place, block, i, acc), limit),
    decreases
            (if 0 <= i < text.len() {
                text.len() - i
            } else {
                0
            }),
{
    if 0 <= i < text.len() {
        if opens_link(text, i) {
            match wiki(text.skip(i + 2)) {
                WikiView::Found(target, anchor, alias, n) => {
                    let link = LinkView {
                        kind: crate::vault::link_kind(text, i, anchor),
                        target,
                        anchor,
                        alias,
                        block,
                    };
                    if n > 0 {
                        scanned_below(
                            text,
                            place,
                            block,
                            i + 2 + n,
                            Found { links: acc.links.push(link), ..acc },
                            limit,
                        );
                    }
                },
                WikiView::Invalid(n) => {
                    if n > 0 {
                        scanned_below(text, place, block, i + 2 + n, acc, limit);
                    }
                },
                WikiView::NoTerminator => {
                    scanned_below(
                        text,
                        place,
                        block,
                        i + find(text.skip(i), '\n') + 1,
                        acc,
                        limit,
                    );
                },
            }
        } else if let Some(tag) = tag_at(text, place, i) {
            scanned_below(
                text,
                place,
                block,
                i + 1 + tag.len(),
                Found { tags: acc.tags.push(TagView { tag, block: Some(block) }), ..acc },
                limit,
            );
        } else {
            scanned_below(text, place, block, i + 1, acc, limit);
        }
    }
}

proof fn scanned_units_below(
    source: Seq<char>,
    units: Seq<UnitView>,
    n: int,
    block: u32,
    acc: Found,
    limit: int,
)
    requires
        block < limit,
        found_below(acc, limit),
    ensures
        found_below(scanned_units(source, units, n, block, acc), limit),
    decreases n,
{
    if n > 0 {
        scanned_units_below(source, units, n - 1, block, acc, limit);
        let before = scanned_units(source, units, n - 1, block, acc);
        let block_start = crate::vault::first_range(units);
        match units[n - 1] {
            UnitView::Range(r) => {
                let place = Place {
                    offset: Some(r.start as int),
                    before: crate::vault::char_before(source, r.start as int),
                    block_start,
                };
                let text = sub_text(source, r.start as int, r.end as int);
                scanned_below(text, place, block, 0, before, limit);
            },
            UnitView::Literal(t) => {
                let place = Place { offset: None, before: None, block_start };
                scanned_below(t, place, block, 0, before, limit);
            },
        }
    }
}

proof fn scanned_blocks_below(
    source: Seq<char>,
    blocks: Seq<Seq<UnitView>>,
    n: int,
    acc: Found,
    limit: int,
)
    requires
        n <= limit,
        found_below(acc, limit),
    ensures
        found_below(scanned_blocks(source, blocks, n, acc), limit),
    decreases n,
{
    if n > 0 {
        scanned_blocks_below(source, blocks, n - 1, acc, limit);
        scanned_units_below(
            source,
            blocks[n - 1],
            blocks[n - 1].len() as int,
            (n - 1) as u32,
            scanned_blocks(source, blocks, n - 1, acc),
            limit,
        );
    }
}

/// What a scan of all blocks finds names blocks of the document.
proof fn found_names_blocks(source: Seq<char>, body: BodyView, nodes: Seq<MdTree>)
    ensures
        ({
            let st = walk_of(body, nodes);
            found_below(
                scanned_blocks(
                    source,
                    units_of(st.blocks),
                    st.blocks.len() as int,
                    Found { links: st.links, tags: Seq::empty() },
                ),
                st.blocks.len() as int,
            )
        }),
{
    let st = walk_of(body, nodes);
    walked_all_links(
        body,
        nodes,
        nodes.len() as int,
        Seq::empty(),
        None,
        None,
        WalkView { blocks: Seq::empty(), headings: Seq::empty(), links: Seq::empty() },
    );
    let n = st.blocks.len() as int;
    scanned_blocks_below(
        source,
        units_of(st.blocks),
        n,
        Found { links: st.links, tags: Seq::empty() },
        n,
    );
}

/// Every link and every block tag of a document names a block that it has.
pub proof fn references_name_blocks(source: Seq<char>, fm: FrontmatterView, nodes: Seq<MdTree>)
    ensures
        refs_fit(document_of(source, fm, nodes)),
{
    let body = BodyView {
        md: sub_text(source, fm.len, encode_utf8(source).len() as int),
        base: fm.len as usize,
    };
    found_names_blocks(source, body, nodes);
    let doc = document_of(source, fm, nodes);
    assert(doc.blocks.len() == walk_of(body, nodes).blocks.len());
}

/// The tags of a document are those in its blocks, each with its block, then those of
/// the frontmatter, which have none.
pub proof fn note_tags_come_last(source: Seq<char>)
    ensures
        ({
            let tags = document(source).tags;
            let last = note_tags(frontmatter(source).tags);
            &&& last.len() <= tags.len()
            &&& tags_named(tags.take(tags.len() - last.len()))
            &&& tags.skip(tags.len() - last.len()) == last
        }),
{
    let fm = frontmatter(source);
    let body = BodyView {
        md: sub_text(source, fm.len, encode_utf8(source).len() as int),
        base: fm.len as usize,
    };
    let nodes = document_nodes(body.md);
    found_names_blocks(source, body, nodes);
    let st = walk_of(body, nodes);
    let found = scanned_blocks(
        source,
        units_of(st.blocks),
        st.blocks.len() as int,
        Found { links: st.links, tags: Seq::empty() },
    );
    let tags = document(source).tags;
    let last = note_tags(fm.tags);
    assert(tags == found.tags + last);
    assert(tags.take(tags.len() - last.len()) =~= found.tags);
    assert(tags.skip(tags.len() - last.len()) =~= last);
}

} // verus!
