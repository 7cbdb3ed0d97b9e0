//! What the walk over a markdown tree finds, told by where the nodes stand.

use vstd::prelude::*;
use vstd::utf8::*;

use crate::content::{logical_line, logical_lines, logical_text, Strip};
use crate::document::{BlockKind, BlockView, LinkView, TagView, UnitView};
use crate::frontmatter::frontmatter;
use crate::json::{a_put_reads_back, member, JsonView};
use crate::markdown::{document_nodes, KindView, MdTree};
use crate::parse::{
    adopted, blocks_of, document, finished, first_from, ids_of, note_tags, parents_of, spans_of,
    stripped_id, top_spans, units_of, walk_of,
};
use crate::read::{heading_level, heading_text};
use crate::span::{line_start_at, Span};
use crate::spelled::{every_unit_is_scanned, links_of_block, tags_of_block};
use crate::text::sub_text;
use crate::tree::{picks, picks_one_more};
use crate::vault::{mdlink, Found};
use crate::walk::{
    block_at, content_lines, empty_object, gathered, gathered_all, geometry, heading_text_of, item_lines,
    list_attrs, outer_headings, plain, plain_all, rendered, text_range, walked, walked_all,
    walked_item, whole_lines, with_text_block, BodyView, Gathered, RawView, WalkView,
};

verus! {

// ---- places ----

/// The node at a place: the first number picks a tree, each further one a child.
pub open spec fn node_at(trees: Seq<MdTree>, p: Seq<int>) -> Option<MdTree>
    decreases p.len(),
{
    if p.len() == 0 || !(0 <= p[0] < trees.len()) {
        None
    } else if p.len() == 1 {
        Some(trees[p[0]])
    } else {
        node_at(trees[p[0]].children, p.skip(1))
    }
}

/// In the order of the document: a node comes before those below it, and before
/// what follows.
pub open spec fn comes_before(p: Seq<int>, q: Seq<int>) -> bool
    decreases p.len(),
{
    if q.len() == 0 {
        false
    } else if p.len() == 0 {
        true
    } else {
        p[0] < q[0] || p[0] == q[0] && comes_before(p.skip(1), q.skip(1))
    }
}

/// There is a node at this place, and none above it is of a kind that `stop` holds of.
pub open spec fn reached(trees: Seq<MdTree>, p: Seq<int>, stop: spec_fn(KindView) -> bool) -> bool {
    &&& node_at(trees, p) is Some
    &&& forall|k: int|
        1 <= k < p.len() ==> !stop((#[trigger] node_at(trees, p.take(k)))->0.info.kind)
}

/// These are the places of the nodes that `want` holds of and that are reached, each
/// once, in the order of the document.
pub open spec fn all_places(
    trees: Seq<MdTree>,
    ps: Seq<Seq<int>>,
    stop: spec_fn(KindView) -> bool,
    want: spec_fn(MdTree) -> bool,
) -> bool {
    &&& forall|i: int, j: int|
        0 <= i < j < ps.len() ==> comes_before(#[trigger] ps[i], #[trigger] ps[j])
    &&& forall|p: Seq<int>| #[trigger]
        ps.contains(p) <==> reached(trees, p, stop) && want(node_at(trees, p)->0)
}

spec fn under(
    tree: MdTree,
    at: int,
    stop: spec_fn(KindView) -> bool,
    want: spec_fn(MdTree) -> bool,
) -> Seq<Seq<int>>
    decreases tree, 0int,
{
    let own = if want(tree) {
        seq![seq![at]]
    } else {
        Seq::empty()
    };
    if stop(tree.info.kind) {
        own
    } else {
        own + below(at, listing(tree.children, tree.children.len() as int, stop, want))
    }
}

spec fn below(at: int, ps: Seq<Seq<int>>) -> Seq<Seq<int>> {
    Seq::new(ps.len(), |i: int| seq![at] + ps[i])
}

spec fn listing(
    trees: Seq<MdTree>,
    n: int,
    stop: spec_fn(KindView) -> bool,
    want: spec_fn(MdTree) -> bool,
) -> Seq<Seq<int>>
    decreases trees, n,
{
    if n <= 0 || n > trees.len() {
        Seq::empty()
    } else {
        listing(trees, n - 1, stop, want) + under(trees[n - 1], n - 1, stop, want)
    }
}

proof fn node_below(trees: Seq<MdTree>, at: int, q: Seq<int>)
    requires
        0 <= at < trees.len(),
        q.len() > 0,
    ensures
        node_at(trees, seq![at] + q) == node_at(trees[at].children, q),
{
    let p = seq![at] + q;
    assert(p.skip(1) =~= q);
}

proof fn reached_below(trees: Seq<MdTree>, p: Seq<int>, stop: spec_fn(KindView) -> bool)
    requires
        p.len() >= 2,
    ensures
        reached(trees, p, stop) <==> 0 <= p[0] < trees.len() && !stop(trees[p[0]].info.kind)
            && reached(trees[p[0]].children, p.skip(1), stop),
{
    if 0 <= p[0] < trees.len() {
        let c = trees[p[0]].children;
        let q = p.skip(1);
        assert forall|k: int| 2 <= k < p.len() implies #[trigger] node_at(trees, p.take(k))
            == node_at(c, q.take(k - 1)) by {
            assert(p.take(k).skip(1) =~= q.take(k - 1));
        }
        assert(node_at(trees, p.take(1)) == Some(trees[p[0]]));
        assert(node_at(trees, p) == node_at(c, q));
        if reached(trees, p, stop) {
            assert forall|k: int| 1 <= k < q.len() implies !stop(
                (#[trigger] node_at(c, q.take(k)))->0.info.kind,
            ) by {
                assert(node_at(trees, p.take(k + 1)) == node_at(c, q.take(k + 1 - 1)));
            }
        }
        if reached(c, q, stop) && !stop(trees[p[0]].info.kind) {
            assert forall|k: int| 1 <= k < p.len() implies !stop(
                (#[trigger] node_at(trees, p.take(k)))->0.info.kind,
            ) by {
                if k > 1 {
                    assert(node_at(trees, p.take(k)) == node_at(c, q.take(k - 1)));
                }
            }
        }
    }
}

/// One of the first `n` trees holds this place, and what is there is wanted.
spec fn found(
    trees: Seq<MdTree>,
    n: int,
    p: Seq<int>,
    stop: spec_fn(KindView) -> bool,
    want: spec_fn(MdTree) -> bool,
) -> bool {
    &&& reached(trees, p, stop)
    &&& p[0] < n
    &&& want(node_at(trees, p)->0)
}

spec fn listed(
    trees: Seq<MdTree>,
    n: int,
    ps: Seq<Seq<int>>,
    stop: spec_fn(KindView) -> bool,
    want: spec_fn(MdTree) -> bool,
) -> bool {
    &&& forall|i: int, j: int|
        0 <= i < j < ps.len() ==> comes_before(#[trigger] ps[i], #[trigger] ps[j])
    &&& forall|i: int| 0 <= i < ps.len() ==> found(trees, n, #[trigger] ps[i], stop, want)
    &&& forall|p: Seq<int>| #[trigger] found(trees, n, p, stop, want) ==> ps.contains(p)
}

proof fn under_lists(
    trees: Seq<MdTree>,
    at: int,
    stop: spec_fn(KindView) -> bool,
    want: spec_fn(MdTree) -> bool,
)
    requires
        0 <= at < trees.len(),
    ensures
        ({
            let ps = under(trees[at], at, stop, want);
            &&& forall|i: int, j: int|
                0 <= i < j < ps.len() ==> comes_before(#[trigger] ps[i], #[trigger] ps[j])
            &&& forall|i: int|
                0 <= i < ps.len() ==> found(trees, at + 1, #[trigger] ps[i], stop, want)
                    && ps[i][0] == at
            &&& forall|p: Seq<int>| #[trigger]
                found(trees, at + 1, p, stop, want) && p[0] == at ==> ps.contains(p)
        }),
    decreases trees[at], 0int,
{
    let tree = trees[at];
    let c = tree.children;
    let m = c.len() as int;
    let own: Seq<Seq<int>> = if want(tree) {
        seq![seq![at]]
    } else {
        Seq::empty()
    };
    let ps = under(tree, at, stop, want);
    let top: Seq<int> = seq![at];
    assert(node_at(trees, top) == Some(tree));
    if !stop(tree.info.kind) {
        assert(decreases_to!(tree => tree.children));
        listing_lists(c, m, stop, want);
        let inner = listing(c, m, stop, want);
        assert(ps == own + below(at, inner));
        assert forall|i: int| 0 <= i < inner.len() implies ({
            let p = seq![at] + #[trigger] inner[i];
            found(trees, at + 1, p, stop, want) && p.len() >= 2 && p.skip(1) == inner[i]
        }) by {
            let p = seq![at] + inner[i];
            assert(p.skip(1) =~= inner[i]);
            assert(inner[i].len() > 0);
            reached_below(trees, p, stop);
            node_below(trees, at, inner[i]);
        }
        assert forall|i: int| 0 <= i < ps.len() implies found(
            trees,
            at + 1,
            #[trigger] ps[i],
            stop,
            want,
        ) && ps[i][0] == at by {
            if i >= own.len() {
                assert(ps[i] == seq![at] + inner[i - own.len()]);
            } else {
                assert(ps[i] == top);
            }
        }
        assert forall|i: int, j: int| 0 <= i < j < ps.len() implies comes_before(
            #[trigger] ps[i],
            #[trigger] ps[j],
        ) by {
            let q = inner[j - own.len()];
            assert(ps[j] == seq![at] + q);
            assert(ps[j].skip(1) == q && q.len() > 0);
            if i >= own.len() {
                let o = inner[i - own.len()];
                assert(ps[i] == seq![at] + o);
                assert(ps[i].skip(1) == o);
                assert(comes_before(o, q));
            } else {
                assert(ps[i] == top);
                assert(comes_before(top.skip(1), q));
            }
        }
        assert forall|p: Seq<int>| #[trigger]
            found(trees, at + 1, p, stop, want) && p[0] == at implies ps.contains(p) by {
            if p.len() == 1 {
                assert(p =~= top);
                assert(own[0] == p);
                assert(ps[0] == p);
            } else {
                reached_below(trees, p, stop);
                assert(p =~= seq![at] + p.skip(1));
                assert(found(c, m, p.skip(1), stop, want));
                let i = inner.index_of(p.skip(1));
                assert(inner[i] == p.skip(1));
                assert(ps[own.len() + i] == p);
            }
        }
    } else {
        assert(ps == own);
        assert forall|p: Seq<int>| #[trigger]
            found(trees, at + 1, p, stop, want) && p[0] == at implies ps.contains(p) by {
            if p.len() == 1 {
                assert(p =~= top);
                assert(own[0] == p);
            } else {
                reached_below(trees, p, stop);
            }
        }
    }
}

proof fn listing_lists(
    trees: Seq<MdTree>,
    n: int,
    stop: spec_fn(KindView) -> bool,
    want: spec_fn(MdTree) -> bool,
)
    requires
        0 <= n <= trees.len(),
    ensures
        listed(trees, n, listing(trees, n, stop, want), stop, want),
    decreases trees, n,
{
    if n > 0 {
        listing_lists(trees, n - 1, stop, want);
        assert(decreases_to!(trees => trees[n - 1]));
        under_lists(trees, n - 1, stop, want);
        let old = listing(trees, n - 1, stop, want);
        let more = under(trees[n - 1], n - 1, stop, want);
        let ps = listing(trees, n, stop, want);
        assert(ps == old + more);
        assert forall|i: int| 0 <= i < ps.len() implies found(
            trees,
            n,
            #[trigger] ps[i],
            stop,
            want,
        ) by {
            if i < old.len() {
                assert(ps[i] == old[i]);
            } else {
                assert(ps[i] == more[i - old.len()]);
            }
        }
        assert forall|i: int, j: int| 0 <= i < j < ps.len() implies comes_before(
            #[trigger] ps[i],
            #[trigger] ps[j],
        ) by {
            if j < old.len() {
                assert(ps[i] == old[i] && ps[j] == old[j]);
            } else if i >= old.len() {
                assert(ps[i] == more[i - old.len()] && ps[j] == more[j - old.len()]);
            } else {
                assert(ps[i] == old[i] && ps[j] == more[j - old.len()]);
                assert(found(trees, n - 1, old[i], stop, want));
            }
        }
        assert forall|p: Seq<int>| #[trigger] found(trees, n, p, stop, want) implies ps.contains(
            p,
        ) by {
            if p[0] < n - 1 {
                assert(found(trees, n - 1, p, stop, want));
                let i = old.index_of(p);
                assert(ps[i] == p);
            } else {
                assert(found(trees, n - 1 + 1, p, stop, want) && p[0] == n - 1);
                assert(more.contains(p));
                let i = more.index_of(p);
                assert(ps[old.len() + i] == p);
            }
        }
    }
}

proof fn listing_is_all(
    trees: Seq<MdTree>,
    stop: spec_fn(KindView) -> bool,
    want: spec_fn(MdTree) -> bool,
)
    ensures
        all_places(trees, listing(trees, trees.len() as int, stop, want), stop, want),
{
    let n = trees.len() as int;
    listing_lists(trees, n, stop, want);
    let ps = listing(trees, n, stop, want);
    assert forall|p: Seq<int>| #[trigger] ps.contains(p) <==> reached(trees, p, stop) && want(
        node_at(trees, p)->0,
    ) by {
        if ps.contains(p) {
            let i = ps.index_of(p);
            assert(found(trees, n, ps[i], stop, want));
        } else if reached(trees, p, stop) && want(node_at(trees, p)->0) {
            assert(found(trees, n, p, stop, want));
        }
    }
}

// ---- text and links ----

/// The kinds whose text is not the block's: links, images, code and raw HTML; and
/// text, which has nothing below it.
pub open spec fn opaque() -> spec_fn(KindView) -> bool {
    |k: KindView|
        k is Link || k is Image || k is Code || k is HtmlInline || k is Text
}

/// What a text node is to its block: its literal in a table cell, else its place in
/// the source, if it has one.
pub open spec fn unit_of(body: BodyView, cell: bool, tree: MdTree) -> Option<UnitView> {
    match tree.info.kind {
        KindView::Text(t) => if cell {
            Some(UnitView::Literal(t))
        } else {
            match text_range(body, tree.info) {
                Some(r) => Some(UnitView::Range(r)),
                None => None,
            }
        },
        _ => None,
    }
}

pub open spec fn has_unit(body: BodyView, cell: bool) -> spec_fn(MdTree) -> bool {
    |t: MdTree| unit_of(body, cell, t) is Some
}

/// The reference that a link node makes, if it makes one.
pub open spec fn link_of(block: u32, tree: MdTree) -> Option<LinkView> {
    match tree.info.kind {
        KindView::Link(url) => mdlink(url, block),
        _ => None,
    }
}

pub open spec fn has_link(block: u32) -> spec_fn(MdTree) -> bool {
    |t: MdTree| link_of(block, t) is Some
}

spec fn units_at(body: BodyView, cell: bool, trees: Seq<MdTree>, ps: Seq<Seq<int>>) -> Seq<
    UnitView,
> {
    Seq::new(ps.len(), |i: int| unit_of(body, cell, node_at(trees, ps[i])->0)->0)
}

spec fn links_at(block: u32, trees: Seq<MdTree>, ps: Seq<Seq<int>>) -> Seq<LinkView> {
    Seq::new(ps.len(), |i: int| link_of(block, node_at(trees, ps[i])->0)->0)
}

proof fn gathered_lists(
    body: BodyView,
    trees: Seq<MdTree>,
    at: int,
    block: u32,
    cell: bool,
    g: Gathered,
)
    requires
        0 <= at < trees.len(),
    ensures
        ({
            let next = gathered(body, trees[at], block, cell, g);
            let us = under(trees[at], at, opaque(), has_unit(body, cell));
            let ls = under(trees[at], at, opaque(), has_link(block));
            &&& next.units == g.units + units_at(body, cell, trees, us)
            &&& next.links == g.links + links_at(block, trees, ls)
        }),
    decreases trees[at], 0int,
{
    let tree = trees[at];
    let c = tree.children;
    let m = c.len() as int;
    let next = gathered(body, tree, block, cell, g);
    let us = under(tree, at, opaque(), has_unit(body, cell));
    let ls = under(tree, at, opaque(), has_link(block));
    let top: Seq<int> = seq![at];
    assert(node_at(trees, top) == Some(tree));
    if opaque()(tree.info.kind) {
        if has_unit(body, cell)(tree) {
            assert(us[0] == top);
        }
        if has_link(block)(tree) {
            assert(ls[0] == top);
        }
        assert(next.units =~= g.units + units_at(body, cell, trees, us));
        assert(next.links =~= g.links + links_at(block, trees, ls));
    } else {
        assert(decreases_to!(tree => tree.children));
        gathered_all_lists(body, c, m, block, cell, g);
        let iu = listing(c, m, opaque(), has_unit(body, cell));
        let il = listing(c, m, opaque(), has_link(block));
        listing_lists(c, m, opaque(), has_unit(body, cell));
        listing_lists(c, m, opaque(), has_link(block));
        assert(us =~= below(at, iu));
        assert(ls =~= below(at, il));
        assert forall|i: int| 0 <= i < iu.len() implies node_at(trees, #[trigger] us[i])
            == node_at(c, iu[i]) by {
            assert(found(c, m, iu[i], opaque(), has_unit(body, cell)));
            node_below(trees, at, iu[i]);
        }
        assert forall|i: int| 0 <= i < il.len() implies node_at(trees, #[trigger] ls[i])
            == node_at(c, il[i]) by {
            assert(found(c, m, il[i], opaque(), has_link(block)));
            node_below(trees, at, il[i]);
        }
        assert(units_at(body, cell, trees, us) =~= units_at(body, cell, c, iu));
        assert(links_at(block, trees, ls) =~= links_at(block, c, il));
    }
}

proof fn gathered_all_lists(
    body: BodyView,
    trees: Seq<MdTree>,
    n: int,
    block: u32,
    cell: bool,
    g: Gathered,
)
    requires
        0 <= n <= trees.len(),
    ensures
        ({
            let next = gathered_all(body, trees, n, block, cell, g);
            let us = listing(trees, n, opaque(), has_unit(body, cell));
            let ls = listing(trees, n, opaque(), has_link(block));
            &&& next.units == g.units + units_at(body, cell, trees, us)
            &&& next.links == g.links + links_at(block, trees, ls)
        }),
    decreases trees, n,
{
    let us = listing(trees, n, opaque(), has_unit(body, cell));
    let ls = listing(trees, n, opaque(), has_link(block));
    let next = gathered_all(body, trees, n, block, cell, g);
    if n > 0 {
        gathered_all_lists(body, trees, n - 1, block, cell, g);
        let before = gathered_all(body, trees, n - 1, block, cell, g);
        assert(decreases_to!(trees => trees[n - 1]));
        gathered_lists(body, trees, n - 1, block, cell, before);
    }
    assert(next.units =~= g.units + units_at(body, cell, trees, us));
    assert(next.links =~= g.links + links_at(block, trees, ls));
}

/// The text of a block is that of every text node below it, at any depth, with no
/// link, image, code or raw HTML above it inside the block: each once, in the order
/// of the document, and nothing else. Its references are those of every link node
/// with none of these above it.
pub proof fn every_text_is_gathered(
    body: BodyView,
    trees: Seq<MdTree>,
    block: u32,
    cell: bool,
    links: Seq<LinkView>,
)
    ensures
        ({
            let g = gathered_all(
                body,
                trees,
                trees.len() as int,
                block,
                cell,
                Gathered { units: Seq::empty(), links },
            );
            &&& exists|ps: Seq<Seq<int>>| #[trigger]
                all_places(trees, ps, opaque(), has_unit(body, cell)) && g.units.len() == ps.len()
                    && forall|i: int|
                    0 <= i < ps.len() ==> Some(#[trigger] g.units[i]) == unit_of(
                        body,
                        cell,
                        node_at(trees, ps[i])->0,
                    )
            &&& g.links.len() >= links.len() && g.links.take(links.len() as int) == links
            &&& exists|ps: Seq<Seq<int>>| #[trigger]
                all_places(trees, ps, opaque(), has_link(block)) && g.links.len() == links.len()
                    + ps.len() && forall|i: int|
                    0 <= i < ps.len() ==> Some(#[trigger] g.links[links.len() + i]) == link_of(
                        block,
                        node_at(trees, ps[i])->0,
                    )
        }),
{
    let n = trees.len() as int;
    let start = Gathered { units: Seq::empty(), links };
    let g = gathered_all(body, trees, n, block, cell, start);
    gathered_all_lists(body, trees, n, block, cell, start);
    let us = listing(trees, n, opaque(), has_unit(body, cell));
    let ls = listing(trees, n, opaque(), has_link(block));
    listing_is_all(trees, opaque(), has_unit(body, cell));
    listing_is_all(trees, opaque(), has_link(block));
    assert(g.units =~= units_at(body, cell, trees, us));
    assert(g.links.take(links.len() as int) =~= links);
    assert forall|i: int| 0 <= i < us.len() implies Some(#[trigger] g.units[i]) == unit_of(
        body,
        cell,
        node_at(trees, us[i])->0,
    ) by {
        assert(us.contains(us[i]));
    }
    assert forall|i: int| 0 <= i < ls.len() implies Some(#[trigger] g.links[links.len() + i])
        == link_of(block, node_at(trees, ls[i])->0) by {
        assert(ls.contains(ls[i]));
        assert(g.links[links.len() + i] == links_at(block, trees, ls)[i]);
    }
}

// ---- plain text ----

/// The kinds that a heading's text does not look into.
pub open spec fn plain_leaf() -> spec_fn(KindView) -> bool {
    |k: KindView|
        k is Text || k is Code || k is SoftBreak || k is LineBreak || k is HtmlInline
}

/// What a node gives to a heading's text: its own text, or a space for a line break.
pub open spec fn piece_of(tree: MdTree) -> Option<Seq<char>> {
    match tree.info.kind {
        KindView::Text(t) => Some(t),
        KindView::Code(t) => Some(t),
        KindView::SoftBreak => Some(seq![' ']),
        KindView::LineBreak => Some(seq![' ']),
        _ => None,
    }
}

pub open spec fn has_piece() -> spec_fn(MdTree) -> bool {
    |t: MdTree| piece_of(t) is Some
}

/// The texts of these nodes, one after the other.
pub open spec fn pieces(trees: Seq<MdTree>, ps: Seq<Seq<int>>) -> Seq<Seq<char>> {
    Seq::new(ps.len(), |i: int| piece_of(node_at(trees, ps[i])->0)->0)
}

/// Whether text, rather than code, is the last that these nodes hold.
pub open spec fn text_last(trees: Seq<MdTree>, ps: Seq<Seq<int>>, otherwise: bool) -> bool
    decreases ps.len(),
{
    if ps.len() == 0 {
        otherwise
    } else {
        match node_at(trees, ps.last())->0.info.kind {
            KindView::Text(_) => true,
            KindView::Code(_) => false,
            _ => text_last(trees, ps.drop_last(), otherwise),
        }
    }
}

proof fn text_last_joins(trees: Seq<MdTree>, a: Seq<Seq<int>>, b: Seq<Seq<int>>, otherwise: bool)
    ensures
        text_last(trees, a + b, otherwise) == text_last(trees, b, text_last(trees, a, otherwise)),
    decreases b.len(),
{
    if b.len() == 0 {
        assert(a + b =~= a);
    } else {
        assert((a + b).drop_last() =~= a + b.drop_last());
        text_last_joins(trees, a, b.drop_last(), otherwise);
    }
}

proof fn text_last_same(
    trees: Seq<MdTree>,
    ps: Seq<Seq<int>>,
    c: Seq<MdTree>,
    qs: Seq<Seq<int>>,
    otherwise: bool,
)
    requires
        ps.len() == qs.len(),
        forall|i: int|
            0 <= i < ps.len() ==> node_at(trees, #[trigger] ps[i]) == node_at(c, qs[i]),
    ensures
        text_last(trees, ps, otherwise) == text_last(c, qs, otherwise),
    decreases ps.len(),
{
    if ps.len() > 0 {
        assert forall|i: int| 0 <= i < ps.len() - 1 implies node_at(
            trees,
            #[trigger] ps.drop_last()[i],
        ) == node_at(c, qs.drop_last()[i]) by {
            assert(ps.drop_last()[i] == ps[i]);
        }
        text_last_same(trees, ps.drop_last(), c, qs.drop_last(), otherwise);
        assert(node_at(trees, ps[ps.len() - 1]) == node_at(c, qs[ps.len() - 1]));
    }
}

proof fn plain_lists(trees: Seq<MdTree>, at: int, st: (Seq<char>, bool))
    requires
        0 <= at < trees.len(),
    ensures
        ({
            let ps = under(trees[at], at, plain_leaf(), has_piece());
            plain(trees[at], st) == (st.0 + pieces(trees, ps).flatten(), text_last(trees, ps, st.1))
        }),
    decreases trees[at], 0int,
{
    let tree = trees[at];
    let c = tree.children;
    let m = c.len() as int;
    let ps = under(tree, at, plain_leaf(), has_piece());
    let top: Seq<int> = seq![at];
    assert(node_at(trees, top) == Some(tree));
    if plain_leaf()(tree.info.kind) {
        if has_piece()(tree) {
            reveal_with_fuel(text_last, 2);
            assert(ps =~= seq![top]);
            let one = pieces(trees, ps);
            assert(one =~= seq![piece_of(tree)->0]);
            one.lemma_flatten_one_element();
            assert(ps.drop_last() =~= Seq::<Seq<int>>::empty());
            assert(ps.last() == top);
            match tree.info.kind {
                KindView::SoftBreak => {
                    assert(st.0.push(' ') =~= st.0 + seq![' ']);
                },
                KindView::LineBreak => {
                    assert(st.0.push(' ') =~= st.0 + seq![' ']);
                },
                _ => {},
            }
        } else {
            assert(ps =~= Seq::<Seq<int>>::empty());
            assert(pieces(trees, ps) =~= Seq::<Seq<char>>::empty());
            assert(st.0 + pieces(trees, ps).flatten() =~= st.0);
        }
    } else {
        assert(decreases_to!(tree => tree.children));
        plain_all_lists(c, m, st);
        let inner = listing(c, m, plain_leaf(), has_piece());
        listing_lists(c, m, plain_leaf(), has_piece());
        assert(!has_piece()(tree));
        assert(ps =~= below(at, inner));
        assert forall|i: int| 0 <= i < inner.len() implies node_at(trees, #[trigger] ps[i])
            == node_at(c, inner[i]) by {
            assert(found(c, m, inner[i], plain_leaf(), has_piece()));
            node_below(trees, at, inner[i]);
        }
        assert(pieces(trees, ps) =~= pieces(c, inner));
        text_last_same(trees, ps, c, inner, st.1);
    }
}

proof fn plain_all_lists(trees: Seq<MdTree>, n: int, st: (Seq<char>, bool))
    requires
        0 <= n <= trees.len(),
    ensures
        ({
            let ps = listing(trees, n, plain_leaf(), has_piece());
            plain_all(trees, n, st) == (
                st.0 + pieces(trees, ps).flatten(),
                text_last(trees, ps, st.1),
            )
        }),
    decreases trees, n,
{
    let ps = listing(trees, n, plain_leaf(), has_piece());
    if n > 0 {
        plain_all_lists(trees, n - 1, st);
        assert(decreases_to!(trees => trees[n - 1]));
        plain_lists(trees, n - 1, plain_all(trees, n - 1, st));
        let old = listing(trees, n - 1, plain_leaf(), has_piece());
        let more = under(trees[n - 1], n - 1, plain_leaf(), has_piece());
        text_last_joins(trees, old, more, st.1);
        assert(pieces(trees, ps) =~= pieces(trees, old) + pieces(trees, more));
        vstd::seq_lib::lemma_flatten_concat(pieces(trees, old), pieces(trees, more));
        assert(st.0 + (pieces(trees, old).flatten() + pieces(trees, more).flatten()) =~= st.0
            + pieces(trees, old).flatten() + pieces(trees, more).flatten());
    } else {
        assert(pieces(trees, ps) =~= Seq::<Seq<char>>::empty());
        assert(st.0 + pieces(trees, ps).flatten() =~= st.0);
    }
}

/// The plain text of a heading is what every text and code node below it holds, with
/// a space for every line break, at any depth and in the order of the document; links
/// and images are looked into, raw HTML is not. With it comes whether text, rather
/// than code, came last.
pub proof fn every_text_is_shown(trees: Seq<MdTree>)
    ensures
        exists|ps: Seq<Seq<int>>| #[trigger]
            all_places(trees, ps, plain_leaf(), has_piece()) && plain_all(
                trees,
                trees.len() as int,
                (Seq::empty(), false),
            ) == (pieces(trees, ps).flatten(), text_last(trees, ps, false)),
{
    let n = trees.len() as int;
    let ps = listing(trees, n, plain_leaf(), has_piece());
    listing_is_all(trees, plain_leaf(), has_piece());
    plain_all_lists(trees, n, (Seq::empty(), false));
    assert(Seq::<char>::empty() + pieces(trees, ps).flatten() =~= pieces(trees, ps).flatten());
    assert(all_places(trees, ps, plain_leaf(), has_piece()));
}

// ---- blocks ----

/// What kind of block a node is, if it is one.
pub open spec fn block_kind(k: KindView) -> Option<BlockKind> {
    match k {
        KindView::Item { .. } => Some(BlockKind::ListItem),
        KindView::TaskItem { .. } => Some(BlockKind::ListItem),
        KindView::Heading { .. } => Some(BlockKind::Heading),
        KindView::Paragraph => Some(BlockKind::Paragraph),
        KindView::CodeBlock { .. } => Some(BlockKind::CodeBlock),
        KindView::HtmlBlock => Some(BlockKind::HtmlBlock),
        KindView::ThematicBreak => Some(BlockKind::ThematicBreak),
        KindView::Table => Some(BlockKind::Table),
        _ => None,
    }
}

pub open spec fn is_block() -> spec_fn(MdTree) -> bool {
    |t: MdTree| block_kind(t.info.kind) is Some
}

/// The kinds of blocks that hold no blocks: all but items.
pub open spec fn block_leaf() -> spec_fn(KindView) -> bool {
    |k: KindView| block_kind(k) is Some && block_kind(k) != Some(BlockKind::ListItem)
}

/// The containers around what stands directly in a node.
pub open spec fn strips_in(
    body: BodyView,
    tree: MdTree,
    strips: Seq<Strip>,
    list: Option<JsonView>,
) -> Seq<Strip> {
    if tree.info.kind is Quote {
        strips.push(Strip::Quote)
    } else if block_kind(tree.info.kind) == Some(BlockKind::ListItem) {
        let g = geometry(body, tree.info, strips, list);
        strips.push(
            Strip::Item {
                first_line: tree.info.start_line,
                first_width: g.first_width,
                cont_width: g.cont_width,
            },
        )
    } else {
        strips
    }
}

/// The attributes of the list around what stands directly in a node.
pub open spec fn list_in(tree: MdTree, list: Option<JsonView>) -> Option<JsonView> {
    match tree.info.kind {
        KindView::List { ordered, start, tight } => Some(list_attrs(ordered, start, tight)),
        _ => list,
    }
}

/// The containers around the node at a place.
pub open spec fn strips_over(
    body: BodyView,
    trees: Seq<MdTree>,
    p: Seq<int>,
    strips: Seq<Strip>,
    list: Option<JsonView>,
) -> Seq<Strip>
    decreases p.len(),
{
    if p.len() <= 1 {
        strips
    } else {
        let t = trees[p[0]];
        strips_over(body, t.children, p.skip(1), strips_in(body, t, strips, list), list_in(t, list))
    }
}

/// The attributes of the innermost list around the node at a place.
pub open spec fn list_over(trees: Seq<MdTree>, p: Seq<int>, list: Option<JsonView>) -> Option<
    JsonView,
>
    decreases p.len(),
{
    if p.len() <= 1 {
        list
    } else {
        list_over(trees[p[0]].children, p.skip(1), list_in(trees[p[0]], list))
    }
}

/// What a block is by its own node, the containers around it and its list.
pub open spec fn told(
    body: BodyView,
    tree: MdTree,
    strips: Seq<Strip>,
    list: Option<JsonView>,
    b: RawView,
) -> bool {
    let info = tree.info;
    let inner = strips_in(body, tree, strips, list);
    &&& Some(b.kind) == block_kind(info.kind)
    &&& b.span.start == (line_start_at(body.md, info.start_line as int) + body.base) as usize
    &&& b.span.end == (line_start_at(body.md, info.end_line + 1) + body.base) as usize
    &&& b.first_line == info.start_line
    &&& b.strips == inner
    &&& b.line_prefix == rendered(strips)
    &&& b.cont_prefix == rendered(inner)
    &&& b.own_lines == (if b.kind == BlockKind::ListItem {
        item_lines(tree)
    } else {
        seq![(info.start_line, info.end_line)]
    })
    &&& match info.kind {
        KindView::Heading { level, setext } => {
            &&& b.attrs.get("level"@) == Some(JsonView::Int(level as int))
            &&& b.attrs.get("setext"@) == Some(JsonView::Bool(setext))
            &&& b.attrs.get("text"@) == Some(JsonView::Str(heading_text_of(tree)))
        },
        KindView::CodeBlock { fenced, info: words } => {
            &&& b.attrs.get("fenced"@) == Some(JsonView::Bool(fenced))
            &&& b.attrs.get("info"@) == Some(JsonView::Str(words))
        },
        KindView::Item { .. } => b.attrs == geometry(body, info, strips, list).attrs,
        KindView::TaskItem { .. } => b.attrs == geometry(body, info, strips, list).attrs,
        _ => b.attrs == JsonView::Object(Seq::empty()),
    }
    &&& b.units == units_in(body, tree)
}

/// The text that belongs to a block: that of the nodes below a heading, a paragraph
/// or a table.
pub open spec fn units_in(body: BodyView, tree: MdTree) -> Seq<UnitView> {
    if tree.info.kind is Heading || tree.info.kind is Paragraph || tree.info.kind is Table {
        gathered_all(
            body,
            tree.children,
            tree.children.len() as int,
            0,
            tree.info.kind is Table,
            Gathered { units: Seq::empty(), links: Seq::empty() },
        ).units
    } else {
        Seq::empty()
    }
}

/// The markdown links of block number `at`.
pub open spec fn links_in(body: BodyView, tree: MdTree, at: int) -> Seq<LinkView> {
    if tree.info.kind is Heading || tree.info.kind is Paragraph || tree.info.kind is Table {
        gathered_all(
            body,
            tree.children,
            tree.children.len() as int,
            at as u32,
            tree.info.kind is Table,
            Gathered { units: Seq::empty(), links: Seq::empty() },
        ).links
    } else {
        Seq::empty()
    }
}

/// How many steps from the top the innermost item above a place lies; none if no
/// item is above it.
pub open spec fn item_above(trees: Seq<MdTree>, p: Seq<int>, k: int) -> int
    decreases k,
{
    if k <= 0 {
        0
    } else if block_kind(node_at(trees, p.take(k))->0.info.kind) == Some(BlockKind::ListItem) {
        k
    } else {
        item_above(trees, p, k - 1)
    }
}

/// A block's parent is the innermost item above it.
pub open spec fn parent_told(
    trees: Seq<MdTree>,
    ps: Seq<Seq<int>>,
    i: int,
    base: int,
    outer: Option<u32>,
    parent: Option<u32>,
) -> bool {
    let k = item_above(trees, ps[i], ps[i].len() - 1);
    if k == 0 {
        parent == outer
    } else {
        exists|j: int|
            0 <= j < i && #[trigger] ps[j] == ps[i].take(k) && parent == Some((base + j) as u32)
    }
}

spec fn all_links(body: BodyView, trees: Seq<MdTree>, ps: Seq<Seq<int>>, base: int) -> Seq<
    Seq<LinkView>,
> {
    Seq::new(ps.len(), |i: int| links_in(body, node_at(trees, ps[i])->0, base + i))
}

/// What the walk has added since `st` are the blocks at these places.
spec fn adds(
    body: BodyView,
    trees: Seq<MdTree>,
    ps: Seq<Seq<int>>,
    strips: Seq<Strip>,
    list: Option<JsonView>,
    parent: Option<u32>,
    st: WalkView,
    next: WalkView,
) -> bool {
    let base = st.blocks.len() as int;
    &&& next.blocks.len() == base + ps.len()
    &&& forall|i: int| 0 <= i < base ==> #[trigger] next.blocks[i] == st.blocks[i]
    &&& forall|i: int|
        0 <= i < ps.len() ==> {
            let b = #[trigger] next.blocks[base + i];
            &&& told(
                body,
                node_at(trees, ps[i])->0,
                strips_over(body, trees, ps[i], strips, list),
                list_over(trees, ps[i], list),
                b,
            )
            &&& parent_told(trees, ps, i, base, parent, b.parent)
        }
    &&& next.links == st.links + all_links(body, trees, ps, base).flatten()
}

proof fn item_above_below(trees: Seq<MdTree>, at: int, q: Seq<int>, k: int)
    requires
        0 <= at < trees.len(),
        1 <= k <= q.len(),
    ensures
        ({
            let inner = item_above(trees[at].children, q, k - 1);
            item_above(trees, seq![at] + q, k) == (if inner > 0 {
                inner + 1
            } else if block_kind(trees[at].info.kind) == Some(BlockKind::ListItem) {
                1
            } else {
                0
            })
        }),
        0 <= item_above(trees[at].children, q, k - 1) <= k - 1,
    decreases k,
{
    let p = seq![at] + q;
    if k == 1 {
        assert(p.take(1) =~= seq![at]);
        assert(node_at(trees, p.take(1)) == Some(trees[at]));
        assert(item_above(trees, p, 0) == 0);
    } else {
        item_above_below(trees, at, q, k - 1);
        assert(p.take(k).skip(1) =~= q.take(k - 1));
    }
}

proof fn links_lifted(body: BodyView, trees: Seq<MdTree>, at: int, base: int)
    requires
        0 <= at < trees.len(),
        !block_leaf()(trees[at].info.kind),
    ensures
        ({
            let tree = trees[at];
            let iq = listing(
                tree.children,
                tree.children.len() as int,
                block_leaf(),
                is_block(),
            );
            let o: int = if is_block()(tree) {
                1
            } else {
                0
            };
            all_links(body, trees, under(tree, at, block_leaf(), is_block()), base).flatten()
                == all_links(body, tree.children, iq, base + o).flatten()
        }),
{
    let tree = trees[at];
    let c = tree.children;
    let m = c.len() as int;
    let iq = listing(c, m, block_leaf(), is_block());
    listing_lists(c, m, block_leaf(), is_block());
    let ps = under(tree, at, block_leaf(), is_block());
    let top: Seq<int> = seq![at];
    assert(node_at(trees, top) == Some(tree));
    let o: int = if is_block()(tree) {
        1
    } else {
        0
    };
    assert forall|i: int| 0 <= i < iq.len() implies node_at(trees, #[trigger] ps[o + i])
        == node_at(c, iq[i]) by {
        assert(found(c, m, iq[i], block_leaf(), is_block()));
        node_below(trees, at, iq[i]);
    }
    let all = all_links(body, trees, ps, base);
    let inner = all_links(body, c, iq, base + o);
    if is_block()(tree) {
        let none: Seq<Seq<LinkView>> = seq![Seq::empty()];
        assert(links_in(body, tree, base) =~= Seq::empty());
        assert(ps[0] == top);
        assert(all =~= none + inner) by {
            assert forall|i: int| 0 <= i < all.len() implies all[i] == (none + inner)[i] by {
                if i > 0 {
                    assert(ps[o + (i - 1)] == ps[i]);
                }
            }
        }
        none.lemma_flatten_one_element();
        vstd::seq_lib::lemma_flatten_concat(none, inner);
        assert(all.flatten() =~= inner.flatten());
    } else {
        assert(all =~= inner) by {
            assert forall|i: int| 0 <= i < all.len() implies all[i] == inner[i] by {
                assert(ps[o + i] == ps[i]);
            }
        }
    }
}

#[verifier::rlimit(40)]
proof fn lifted(
    body: BodyView,
    trees: Seq<MdTree>,
    at: int,
    strips: Seq<Strip>,
    list: Option<JsonView>,
    parent: Option<u32>,
    st: WalkView,
    inside: WalkView,
    next: WalkView,
)
    requires
        0 <= at < trees.len(),
        !block_leaf()(trees[at].info.kind),
        inside.links == st.links,
        ({
            let tree = trees[at];
            let item = is_block()(tree);
            &&& if item {
                &&& inside.blocks == st.blocks.push(inside.blocks.last())
                &&& told(body, tree, strips, list, inside.blocks.last())
                &&& inside.blocks.last().parent == parent
            } else {
                inside.blocks == st.blocks
            }
            &&& adds(
                body,
                tree.children,
                listing(tree.children, tree.children.len() as int, block_leaf(), is_block()),
                strips_in(body, tree, strips, list),
                list_in(tree, list),
                if item {
                    Some(st.blocks.len() as u32)
                } else {
                    parent
                },
                inside,
                next,
            )
        }),
    ensures
        adds(
            body,
            trees,
            under(trees[at], at, block_leaf(), is_block()),
            strips,
            list,
            parent,
            st,
            next,
        ),
{
    let tree = trees[at];
    let c = tree.children;
    let m = c.len() as int;
    let item = is_block()(tree);
    let iq = listing(c, m, block_leaf(), is_block());
    listing_lists(c, m, block_leaf(), is_block());
    let ps = under(tree, at, block_leaf(), is_block());
    let own: Seq<Seq<int>> = if item {
        seq![seq![at]]
    } else {
        Seq::empty()
    };
    let top: Seq<int> = seq![at];
    assert(ps == own + below(at, iq));
    let o = own.len() as int;
    let base = st.blocks.len() as int;
    assert(node_at(trees, top) == Some(tree));
    assert forall|i: int| 0 <= i < base implies #[trigger] next.blocks[i] == st.blocks[i] by {
        assert(next.blocks[i] == inside.blocks[i]);
    }
    assert forall|i: int| 0 <= i < iq.len() implies #[trigger] ps[o + i] == seq![at] + iq[i]
        && iq[i].len() > 0 && node_at(trees, ps[o + i]) == node_at(c, iq[i]) by {
        assert(found(c, m, iq[i], block_leaf(), is_block()));
        node_below(trees, at, iq[i]);
    }
    assert forall|i: int| 0 <= i < ps.len() implies {
        let b = #[trigger] next.blocks[base + i];
        &&& told(
            body,
            node_at(trees, ps[i])->0,
            strips_over(body, trees, ps[i], strips, list),
            list_over(trees, ps[i], list),
            b,
        )
        &&& parent_told(trees, ps, i, base, parent, b.parent)
    } by {
        let b = next.blocks[base + i];
        if i < o {
            assert(ps[0] == top);
            assert(b == inside.blocks[base]);
            assert(item_above(trees, top, 0) == 0);
        } else {
            let e = i - o;
            let q = iq[e];
            let p = ps[o + e];
            assert(p == seq![at] + q);
            assert(p.skip(1) =~= q);
            assert(b == next.blocks[inside.blocks.len() + e]);
            item_above_below(trees, at, q, q.len() as int);
            let k = item_above(c, q, q.len() - 1);
            let outer = if item {
                Some(st.blocks.len() as u32)
            } else {
                parent
            };
            assert(parent_told(c, iq, e, inside.blocks.len() as int, outer, b.parent));
            if k > 0 {
                let j = choose|j: int|
                    0 <= j < e && #[trigger] iq[j] == q.take(k) && b.parent == Some(
                        (inside.blocks.len() + j) as u32,
                    );
                assert(ps[o + j] =~= p.take(k + 1));
                assert(b.parent == Some((base + (o + j)) as u32));
            } else if item {
                assert(ps[0] =~= p.take(1));
                assert(b.parent == Some((base + 0) as u32));
            }
        }
    }
    links_lifted(body, trees, at, base);
}

proof fn one_added(
    body: BodyView,
    trees: Seq<MdTree>,
    at: int,
    strips: Seq<Strip>,
    list: Option<JsonView>,
    parent: Option<u32>,
    st: WalkView,
    next: WalkView,
)
    requires
        0 <= at < trees.len(),
        block_leaf()(trees[at].info.kind),
        next.blocks == st.blocks.push(next.blocks.last()),
        told(body, trees[at], strips, list, next.blocks.last()),
        next.blocks.last().parent == parent,
        next.links == st.links + links_in(body, trees[at], st.blocks.len() as int),
    ensures
        adds(
            body,
            trees,
            under(trees[at], at, block_leaf(), is_block()),
            strips,
            list,
            parent,
            st,
            next,
        ),
{
    let tree = trees[at];
    let ps = under(tree, at, block_leaf(), is_block());
    let top: Seq<int> = seq![at];
    let base = st.blocks.len() as int;
    assert(ps =~= seq![top]);
    assert(node_at(trees, top) == Some(tree));
    assert(item_above(trees, top, 0) == 0);
    let all = all_links(body, trees, ps, base);
    assert(all =~= seq![links_in(body, tree, base)]);
    all.lemma_flatten_one_element();
    assert forall|i: int| 0 <= i < ps.len() implies {
        let b = #[trigger] next.blocks[base + i];
        &&& told(
            body,
            node_at(trees, ps[i])->0,
            strips_over(body, trees, ps[i], strips, list),
            list_over(trees, ps[i], list),
            b,
        )
        &&& parent_told(trees, ps, i, base, parent, b.parent)
    } by {
        assert(ps[i] == top);
        assert(next.blocks[base + i] == next.blocks.last());
    }
}

proof fn joined(
    body: BodyView,
    trees: Seq<MdTree>,
    a: Seq<Seq<int>>,
    b: Seq<Seq<int>>,
    strips: Seq<Strip>,
    list: Option<JsonView>,
    parent: Option<u32>,
    st: WalkView,
    mid: WalkView,
    next: WalkView,
)
    requires
        adds(body, trees, a, strips, list, parent, st, mid),
        adds(body, trees, b, strips, list, parent, mid, next),
    ensures
        adds(body, trees, a + b, strips, list, parent, st, next),
{
    let ps = a + b;
    let base = st.blocks.len() as int;
    let n = a.len() as int;
    assert forall|i: int| 0 <= i < base implies #[trigger] next.blocks[i] == st.blocks[i] by {
        assert(next.blocks[i] == mid.blocks[i]);
    }
    assert forall|i: int| 0 <= i < ps.len() implies {
        let x = #[trigger] next.blocks[base + i];
        &&& told(
            body,
            node_at(trees, ps[i])->0,
            strips_over(body, trees, ps[i], strips, list),
            list_over(trees, ps[i], list),
            x,
        )
        &&& parent_told(trees, ps, i, base, parent, x.parent)
    } by {
        let x = next.blocks[base + i];
        let k = item_above(trees, ps[i], ps[i].len() - 1);
        if i < n {
            assert(x == mid.blocks[base + i]);
            assert(ps[i] == a[i]);
            assert(parent_told(trees, a, i, base, parent, x.parent));
            if k != 0 {
                let j = choose|j: int|
                    0 <= j < i && #[trigger] a[j] == a[i].take(k) && x.parent == Some(
                        (base + j) as u32,
                    );
                assert(ps[j] == a[j]);
            }
        } else {
            let e = i - n;
            assert(x == next.blocks[mid.blocks.len() + e]);
            assert(ps[i] == b[e]);
            assert(parent_told(trees, b, e, mid.blocks.len() as int, parent, x.parent));
            if k != 0 {
                let j = choose|j: int|
                    0 <= j < e && #[trigger] b[j] == b[e].take(k) && x.parent == Some(
                        (mid.blocks.len() + j) as u32,
                    );
                assert(ps[n + j] == b[j]);
                assert(x.parent == Some((base + (n + j)) as u32));
            }
        }
    }
    let la = all_links(body, trees, a, base);
    let lb = all_links(body, trees, b, base + n);
    assert(all_links(body, trees, ps, base) =~= la + lb);
    vstd::seq_lib::lemma_flatten_concat(la, lb);
    assert(st.links + (la.flatten() + lb.flatten()) =~= st.links + la.flatten() + lb.flatten());
}

/// A block with text: what is gathered for it does not rest on what came before.
proof fn text_is_its_own(body: BodyView, st: WalkView, block: RawView, tree: MdTree, cell: bool)
    requires
        tree.info.kind is Heading || tree.info.kind is Paragraph || tree.info.kind is Table,
        cell == (tree.info.kind is Table),
    ensures
        ({
            let next = with_text_block(body, st, block, tree, cell);
            &&& next.blocks == st.blocks.push(RawView { units: units_in(body, tree), ..block })
            &&& next.links == st.links + links_in(body, tree, st.blocks.len() as int)
            &&& next.headings == st.headings
        }),
{
    let c = tree.children;
    let m = c.len() as int;
    let none = Gathered { units: Seq::empty(), links: Seq::empty() };
    let at = st.blocks.len() as u32;
    gathered_all_lists(body, c, m, at, cell, Gathered { units: Seq::empty(), links: st.links });
    gathered_all_lists(body, c, m, at, cell, none);
    gathered_all_lists(body, c, m, 0, cell, none);
    assert(links_in(body, tree, st.blocks.len() as int) =~= links_at(
        at,
        c,
        listing(c, m, opaque(), has_link(at)),
    ));
}

proof fn walked_adds(
    body: BodyView,
    trees: Seq<MdTree>,
    at: int,
    strips: Seq<Strip>,
    list: Option<JsonView>,
    parent: Option<u32>,
    st: WalkView,
)
    requires
        0 <= at < trees.len(),
    ensures
        adds(
            body,
            trees,
            under(trees[at], at, block_leaf(), is_block()),
            strips,
            list,
            parent,
            st,
            walked(body, trees[at], strips, list, parent, st),
        ),
    decreases trees[at], 1int,
{
    let tree = trees[at];
    let c = tree.children;
    let m = c.len() as int;
    let next = walked(body, tree, strips, list, parent, st);
    assert(decreases_to!(tree => tree.children));
    match tree.info.kind {
        KindView::Item { .. } => {
            item_adds(body, trees, at, strips, list, parent, st);
        },
        KindView::TaskItem { .. } => {
            item_adds(body, trees, at, strips, list, parent, st);
        },
        KindView::Heading { level, setext } => {
            let outer = WalkView { headings: outer_headings(st.headings, level), ..st };
            let text = heading_text_of(tree);
            let attrs = JsonView::Object(
                seq![
                    ("level"@, JsonView::Int(level as int)),
                    ("setext"@, JsonView::Bool(setext)),
                    ("text"@, JsonView::Str(text)),
                ],
            );
            heading_attrs_read(level, setext, text);
            let block = block_at(
                body,
                outer,
                BlockKind::Heading,
                tree.info,
                parent,
                strips,
                attrs,
                whole_lines(tree.info),
            );
            text_is_its_own(body, outer, block, tree, false);
            assert(next.blocks.last() == (RawView { units: units_in(body, tree), ..block }));
            one_added(body, trees, at, strips, list, parent, st, next);
        },
        KindView::Paragraph => {
            let block = block_at(
                body,
                st,
                BlockKind::Paragraph,
                tree.info,
                parent,
                strips,
                empty_object(),
                whole_lines(tree.info),
            );
            text_is_its_own(body, st, block, tree, false);
            assert(next.blocks.last() == (RawView { units: units_in(body, tree), ..block }));
            one_added(body, trees, at, strips, list, parent, st, next);
        },
        KindView::Table => {
            let block = block_at(
                body,
                st,
                BlockKind::Table,
                tree.info,
                parent,
                strips,
                empty_object(),
                whole_lines(tree.info),
            );
            text_is_its_own(body, st, block, tree, true);
            assert(next.blocks.last() == (RawView { units: units_in(body, tree), ..block }));
            one_added(body, trees, at, strips, list, parent, st, next);
        },
        KindView::CodeBlock { fenced, info } => {
            code_attrs_read(fenced, info);
            assert(next.links =~= st.links + links_in(body, tree, st.blocks.len() as int));
            one_added(body, trees, at, strips, list, parent, st, next);
        },
        KindView::HtmlBlock => {
            assert(next.links =~= st.links + links_in(body, tree, st.blocks.len() as int));
            one_added(body, trees, at, strips, list, parent, st, next);
        },
        KindView::ThematicBreak => {
            assert(next.links =~= st.links + links_in(body, tree, st.blocks.len() as int));
            one_added(body, trees, at, strips, list, parent, st, next);
        },
        _ => {
            walked_all_adds(
                body,
                c,
                m,
                strips_in(body, tree, strips, list),
                list_in(tree, list),
                parent,
                st,
            );
            lifted(body, trees, at, strips, list, parent, st, st, next);
        },
    }
}

proof fn item_adds(
    body: BodyView,
    trees: Seq<MdTree>,
    at: int,
    strips: Seq<Strip>,
    list: Option<JsonView>,
    parent: Option<u32>,
    st: WalkView,
)
    requires
        0 <= at < trees.len(),
        block_kind(trees[at].info.kind) == Some(BlockKind::ListItem),
    ensures
        adds(
            body,
            trees,
            under(trees[at], at, block_leaf(), is_block()),
            strips,
            list,
            parent,
            st,
            walked_item(body, trees[at], strips, list, parent, st),
        ),
    decreases trees[at], 0int,
{
    let tree = trees[at];
    let c = tree.children;
    let m = c.len() as int;
    let next = walked_item(body, tree, strips, list, parent, st);
    let inner = strips_in(body, tree, strips, list);
    let g = geometry(body, tree.info, strips, list);
    let block = block_at(
        body,
        st,
        BlockKind::ListItem,
        tree.info,
        parent,
        inner,
        g.attrs,
        item_lines(tree),
    );
    let inside = WalkView { blocks: st.blocks.push(block), ..st };
    assert(inner.drop_last() =~= strips);
    assert(decreases_to!(tree => tree.children));
    walked_all_adds(body, c, m, inner, list, Some(st.blocks.len() as u32), inside);
    assert(inside.blocks.last() == block);
    assert(list_in(tree, list) == list);
    lifted(body, trees, at, strips, list, parent, st, inside, next);
}

proof fn walked_all_adds(
    body: BodyView,
    trees: Seq<MdTree>,
    n: int,
    strips: Seq<Strip>,
    list: Option<JsonView>,
    parent: Option<u32>,
    st: WalkView,
)
    requires
        0 <= n <= trees.len(),
    ensures
        adds(
            body,
            trees,
            listing(trees, n, block_leaf(), is_block()),
            strips,
            list,
            parent,
            st,
            walked_all(body, trees, n, strips, list, parent, st),
        ),
    decreases trees, n,
{
    if n > 0 {
        walked_all_adds(body, trees, n - 1, strips, list, parent, st);
        let mid = walked_all(body, trees, n - 1, strips, list, parent, st);
        assert(decreases_to!(trees => trees[n - 1]));
        walked_adds(body, trees, n - 1, strips, list, parent, mid);
        let next = walked_all(body, trees, n, strips, list, parent, st);
        joined(
            body,
            trees,
            listing(trees, n - 1, block_leaf(), is_block()),
            under(trees[n - 1], n - 1, block_leaf(), is_block()),
            strips,
            list,
            parent,
            st,
            mid,
            next,
        );
    } else {
        let none = all_links(body, trees, Seq::empty(), st.blocks.len() as int);
        assert(none =~= Seq::empty());
        assert(st.links + none.flatten() =~= st.links);
    }
}

proof fn heading_attrs_read(level: u8, setext: bool, text: Seq<char>)
    ensures
        ({
            let attrs = JsonView::Object(
                seq![
                    ("level"@, JsonView::Int(level as int)),
                    ("setext"@, JsonView::Bool(setext)),
                    ("text"@, JsonView::Str(text)),
                ],
            );
            &&& attrs.get("level"@) == Some(JsonView::Int(level as int))
            &&& attrs.get("setext"@) == Some(JsonView::Bool(setext))
            &&& attrs.get("text"@) == Some(JsonView::Str(text))
        }),
{
    reveal_strlit("level");
    reveal_strlit("setext");
    reveal_strlit("text");
    reveal_with_fuel(member, 4);
    assert("level"@.len() == 5 && "setext"@.len() == 6 && "text"@.len() == 4);
}

proof fn code_attrs_read(fenced: bool, words: Seq<char>)
    ensures
        ({
            let attrs = JsonView::Object(
                seq![("fenced"@, JsonView::Bool(fenced)), ("info"@, JsonView::Str(words))],
            );
            &&& attrs.get("fenced"@) == Some(JsonView::Bool(fenced))
            &&& attrs.get("info"@) == Some(JsonView::Str(words))
        }),
{
    reveal_strlit("fenced");
    reveal_strlit("info");
    reveal_with_fuel(member, 3);
    assert("fenced"@.len() == 6 && "info"@.len() == 4);
}

/// The blocks of a walk are the nodes that are blocks, at any depth of lists, items
/// and quotes, each once and in the order of the document. Each has the kind and the
/// lines of its node, the containers around it, the text below it, and as its parent
/// the innermost item above it; their links follow one another in the same order.
pub proof fn every_block_is_found(body: BodyView, nodes: Seq<MdTree>)
    ensures
        exists|ps: Seq<Seq<int>>|
            {
                let st = walk_of(body, nodes);
                &&& #[trigger] all_places(nodes, ps, block_leaf(), is_block())
                &&& st.blocks.len() == ps.len()
                &&& forall|i: int|
                    0 <= i < ps.len() ==> told(
                        body,
                        node_at(nodes, ps[i])->0,
                        strips_over(body, nodes, ps[i], Seq::empty(), None),
                        list_over(nodes, ps[i], None),
                        #[trigger] st.blocks[i],
                    ) && parent_told(nodes, ps, i, 0, None, st.blocks[i].parent)
                &&& st.links == Seq::new(
                    ps.len(),
                    |i: int| links_in(body, node_at(nodes, ps[i])->0, i),
                ).flatten()
            },
{
    let n = nodes.len() as int;
    let none = WalkView { blocks: Seq::empty(), headings: Seq::empty(), links: Seq::empty() };
    let ps = listing(nodes, n, block_leaf(), is_block());
    walked_all_adds(body, nodes, n, Seq::empty(), None, None, none);
    listing_is_all(nodes, block_leaf(), is_block());
    let st = walk_of(body, nodes);
    let ls = Seq::new(ps.len(), |i: int| links_in(body, node_at(nodes, ps[i])->0, i));
    assert(all_links(body, nodes, ps, 0) =~= ls);
    assert(st.links =~= ls.flatten());
    assert forall|i: int| 0 <= i < ps.len() implies told(
        body,
        node_at(nodes, ps[i])->0,
        strips_over(body, nodes, ps[i], Seq::empty(), None),
        list_over(nodes, ps[i], None),
        #[trigger] st.blocks[i],
    ) && parent_told(nodes, ps, i, 0, None, st.blocks[i].parent) by {
        assert(st.blocks[0 + i] == st.blocks[i]);
    }
    assert(all_places(nodes, ps, block_leaf(), is_block()));
}

// ---- enclosing headings ----

/// What a block is to those that follow it.
pub ghost struct Mark {
    pub heading: bool,
    pub level: int,
    pub text: Seq<char>,
}

/// Heading `j` is over place `i`: no heading between them is of its level or above,
/// and neither is the block at `i` itself.
pub open spec fn is_over(ms: Seq<Mark>, j: int, i: int) -> bool {
    &&& 0 <= j < i <= ms.len()
    &&& ms[j].heading
    &&& forall|k: int|
        j < k <= i && k < ms.len() && (#[trigger] ms[k]).heading ==> ms[k].level > ms[j].level
}

/// These are the headings over place `i`, in order.
pub open spec fn all_over(ms: Seq<Mark>, i: int, hs: Seq<int>) -> bool {
    &&& forall|a: int, b: int| 0 <= a < b < hs.len() ==> #[trigger] hs[a] < #[trigger] hs[b]
    &&& forall|j: int| #[trigger] hs.contains(j) <==> is_over(ms, j, i)
}

/// A path names the headings over place `i`, outermost first.
pub open spec fn names_headings(ms: Seq<Mark>, i: int, path: Seq<Seq<char>>) -> bool {
    exists|hs: Seq<int>| #[trigger]
        all_over(ms, i, hs) && path.len() == hs.len() && forall|a: int|
            0 <= a < hs.len() ==> #[trigger] path[a] == ms[hs[a]].text
}

pub open spec fn raw_mark(b: RawView) -> Mark {
    Mark {
        heading: b.kind == BlockKind::Heading,
        level: match b.attrs.get("level"@) {
            Some(JsonView::Int(n)) => if i64::MIN <= n <= i64::MAX {
                n
            } else {
                1
            },
            _ => 1,
        },
        text: match b.attrs.get("text"@) {
            Some(JsonView::Str(t)) => t,
            _ => ""@,
        },
    }
}

pub open spec fn raw_marks(blocks: Seq<RawView>) -> Seq<Mark> {
    Seq::new(blocks.len(), |i: int| raw_mark(blocks[i]))
}

spec fn stacked(ms: Seq<Mark>, h: Seq<(u8, Seq<char>)>, hs: Seq<int>) -> bool {
    &&& all_over(ms, ms.len() as int, hs)
    &&& h.len() == hs.len()
    &&& forall|a: int|
        0 <= a < h.len() ==> (#[trigger] h[a]).0 == ms[hs[a]].level && h[a].1 == ms[hs[a]].text
}

spec fn paths_ok(st: WalkView) -> bool {
    &&& exists|hs: Seq<int>| stacked(raw_marks(st.blocks), st.headings, hs)
    &&& forall|i: int|
        0 <= i < st.blocks.len() ==> names_headings(
            raw_marks(st.blocks),
            i,
            (#[trigger] st.blocks[i]).heading_path,
        )
}

proof fn over_pushed(ms: Seq<Mark>, x: Mark, j: int, i: int)
    requires
        0 <= i <= ms.len() + 1,
    ensures
        is_over(ms.push(x), j, i) == (if i < ms.len() {
            is_over(ms, j, i)
        } else if j == ms.len() {
            i == ms.len() + 1 && x.heading
        } else {
            is_over(ms, j, ms.len() as int) && (x.heading ==> x.level > ms[j].level)
        }),
{
    let m = ms.push(x);
    assert forall|k: int| 0 <= k < ms.len() implies #[trigger] m[k] == ms[k] by {}
    if i < ms.len() {
        if is_over(ms, j, i) {
            assert forall|k: int|
                j < k <= i && k < m.len() && (#[trigger] m[k]).heading implies m[k].level
                > m[j].level by {
                assert(m[k] == ms[k]);
            }
        }
        if is_over(m, j, i) {
            assert forall|k: int|
                j < k <= i && k < ms.len() && (#[trigger] ms[k]).heading implies ms[k].level
                > ms[j].level by {
                assert(m[k] == ms[k]);
            }
        }
    } else if j == ms.len() {
    } else {
        if is_over(ms, j, ms.len() as int) && (x.heading ==> x.level > ms[j].level) {
            assert forall|k: int|
                j < k <= i && k < m.len() && (#[trigger] m[k]).heading implies m[k].level
                > m[j].level by {
                if k < ms.len() {
                    assert(m[k] == ms[k]);
                }
            }
        }
        if is_over(m, j, i) {
            assert forall|k: int|
                j < k <= ms.len() && k < ms.len() && (#[trigger] ms[k]).heading implies ms[k].level
                > ms[j].level by {
                assert(m[k] == ms[k]);
            }
            assert(m[ms.len() as int] == x);
        }
    }
}

proof fn older_paths(ms: Seq<Mark>, x: Mark, i: int, path: Seq<Seq<char>>)
    requires
        0 <= i < ms.len(),
        names_headings(ms, i, path),
    ensures
        names_headings(ms.push(x), i, path),
{
    let hs = choose|hs: Seq<int>| #[trigger]
        all_over(ms, i, hs) && path.len() == hs.len() && forall|a: int|
            0 <= a < hs.len() ==> #[trigger] path[a] == ms[hs[a]].text;
    let m = ms.push(x);
    assert forall|j: int| #[trigger] hs.contains(j) <==> is_over(m, j, i) by {
        over_pushed(ms, x, j, i);
    }
    assert(all_over(m, i, hs));
    assert forall|a: int| 0 <= a < hs.len() implies #[trigger] path[a] == m[hs[a]].text by {
        assert(hs.contains(hs[a]));
        assert(is_over(ms, hs[a], i));
    }
}

proof fn plain_pushed(st: WalkView, b: RawView, next: WalkView)
    requires
        paths_ok(st),
        b.kind != BlockKind::Heading,
        b.heading_path == Seq::new(st.headings.len(), |a: int| st.headings[a].1),
        next.blocks == st.blocks.push(b),
        next.headings == st.headings,
    ensures
        paths_ok(next),
{
    let ms = raw_marks(st.blocks);
    let x = raw_mark(b);
    let m = ms.push(x);
    let n = ms.len() as int;
    assert(raw_marks(next.blocks) =~= m);
    let hs = choose|hs: Seq<int>| stacked(ms, st.headings, hs);
    assert forall|j: int| #[trigger] hs.contains(j) <==> is_over(m, j, n) by {
        over_pushed(ms, x, j, n);
    }
    assert forall|j: int| #[trigger] hs.contains(j) <==> is_over(m, j, n + 1) by {
        over_pushed(ms, x, j, n + 1);
    }
    assert forall|a: int| 0 <= a < hs.len() implies m[#[trigger] hs[a]] == ms[hs[a]] by {
        assert(hs.contains(hs[a]));
        assert(is_over(ms, hs[a], n));
    }
    assert(all_over(m, n, hs));
    assert(all_over(m, n + 1, hs));
    assert(stacked(m, next.headings, hs)) by {
        assert forall|a: int| 0 <= a < next.headings.len() implies (
        #[trigger] next.headings[a]).0 == m[hs[a]].level && next.headings[a].1
            == m[hs[a]].text by {
            assert(m[hs[a]] == ms[hs[a]]);
        }
    }
    assert forall|i: int| 0 <= i < next.blocks.len() implies names_headings(
        m,
        i,
        (#[trigger] next.blocks[i]).heading_path,
    ) by {
        if i < n {
            assert(next.blocks[i] == st.blocks[i]);
            older_paths(ms, x, i, st.blocks[i].heading_path);
        } else {
            let path = b.heading_path;
            assert forall|a: int| 0 <= a < hs.len() implies #[trigger] path[a] == m[hs[a]].text by {
                assert(m[hs[a]] == ms[hs[a]]);
                assert(path[a] == st.headings[a].1);
            }
        }
    }
}

proof fn outer_is_cut(h: Seq<(u8, Seq<char>)>, level: u8) -> (c: int)
    requires
        forall|a: int, b: int| 0 <= a < b < h.len() ==> (#[trigger] h[a]).0 < (#[trigger] h[b]).0,
    ensures
        0 <= c <= h.len(),
        outer_headings(h, level) == h.take(c),
        forall|a: int| 0 <= a < h.len() ==> ((#[trigger] h[a]).0 < level <==> a < c),
    decreases h.len(),
{
    if h.len() > 0 && h.last().0 >= level {
        let rest = h.drop_last();
        assert forall|a: int, b: int| 0 <= a < b < rest.len() implies (#[trigger] rest[a]).0 < (
        #[trigger] rest[b]).0 by {
            assert(rest[a] == h[a] && rest[b] == h[b]);
        }
        let c = outer_is_cut(rest, level);
        assert(rest.take(c) =~= h.take(c));
        assert forall|a: int| 0 <= a < h.len() implies ((#[trigger] h[a]).0 < level <==> a < c) by {
            if a < rest.len() {
                assert(rest[a] == h[a]);
            }
        }
        c
    } else {
        assert(h.take(h.len() as int) =~= h);
        assert forall|a: int| 0 <= a < h.len() implies (#[trigger] h[a]).0 < level by {
            if a < h.len() - 1 {
                assert(h[a].0 < h[h.len() - 1].0);
            }
        }
        h.len() as int
    }
}

proof fn heading_pushed(st: WalkView, level: u8, text: Seq<char>, b: RawView, next: WalkView)
    requires
        paths_ok(st),
        ({
            let outer = outer_headings(st.headings, level);
            &&& raw_mark(b) == (Mark { heading: true, level: level as int, text })
            &&& b.heading_path == Seq::new(outer.len(), |a: int| outer[a].1)
            &&& next.blocks == st.blocks.push(b)
            &&& next.headings == outer.push((level, text))
        }),
    ensures
        paths_ok(next),
{
    let ms = raw_marks(st.blocks);
    let x = raw_mark(b);
    let m = ms.push(x);
    let n = ms.len() as int;
    assert(raw_marks(next.blocks) =~= m);
    let h = st.headings;
    let hs = choose|hs: Seq<int>| stacked(ms, h, hs);
    assert forall|a: int| 0 <= a < hs.len() implies is_over(ms, #[trigger] hs[a], n) by {
        assert(hs.contains(hs[a]));
    }
    assert forall|a: int, e: int| 0 <= a < e < h.len() implies (#[trigger] h[a]).0 < (
    #[trigger] h[e]).0 by {
        assert(is_over(ms, hs[a], n) && is_over(ms, hs[e], n));
        assert(hs[a] < hs[e]);
        assert(ms[hs[e]].heading);
    }
    let c = outer_is_cut(h, level);
    let outer = outer_headings(h, level);
    let up = hs.take(c);
    let all = up.push(n);
    assert forall|j: int| #[trigger] up.contains(j) <==> is_over(m, j, n) by {
        over_pushed(ms, x, j, n);
        if up.contains(j) {
            let a = up.index_of(j);
            assert(hs[a] == j);
            assert(h[a].0 < level);
        }
        if is_over(m, j, n) {
            assert(is_over(ms, j, n));
            assert(hs.contains(j));
            let a = hs.index_of(j);
            assert(h[a].0 == ms[hs[a]].level);
            assert(up[a] == j);
        }
    }
    assert forall|j: int| #[trigger] all.contains(j) <==> is_over(m, j, n + 1) by {
        over_pushed(ms, x, j, n + 1);
        over_pushed(ms, x, j, n);
        if all.contains(j) {
            let a = all.index_of(j);
            if a < c {
                assert(up[a] == j);
                assert(up.contains(j));
            }
        }
        if is_over(m, j, n + 1) {
            if j == n {
                assert(all[c] == n);
            } else {
                assert(is_over(m, j, n));
                assert(up.contains(j));
                let a = up.index_of(j);
                assert(all[a] == j);
            }
        }
    }
    assert forall|a: int| 0 <= a < c implies m[#[trigger] up[a]] == ms[hs[a]] && up[a] < n by {
        assert(is_over(ms, hs[a], n));
    }
    assert(all_over(m, n, up));
    assert(all_over(m, n + 1, all)) by {
        assert forall|a: int, e: int| 0 <= a < e < all.len() implies #[trigger] all[a]
            < #[trigger] all[e] by {
            assert(all[a] == up[a]);
            if e < c {
                assert(all[e] == hs[e] && all[a] == hs[a]);
            }
        }
    }
    assert(stacked(m, next.headings, all)) by {
        assert forall|a: int| 0 <= a < next.headings.len() implies (
        #[trigger] next.headings[a]).0 == m[all[a]].level && next.headings[a].1
            == m[all[a]].text by {
            if a < c {
                assert(all[a] == up[a]);
                assert(next.headings[a] == h[a]);
            }
        }
    }
    assert forall|i: int| 0 <= i < next.blocks.len() implies names_headings(
        m,
        i,
        (#[trigger] next.blocks[i]).heading_path,
    ) by {
        if i < n {
            assert(next.blocks[i] == st.blocks[i]);
            older_paths(ms, x, i, st.blocks[i].heading_path);
        } else {
            let path = b.heading_path;
            assert forall|a: int| 0 <= a < up.len() implies #[trigger] path[a] == m[up[a]].text by {
                assert(path[a] == outer[a].1);
                assert(outer[a] == h[a]);
            }
        }
    }
}

proof fn walked_keeps_paths(
    body: BodyView,
    tree: MdTree,
    strips: Seq<Strip>,
    list: Option<JsonView>,
    parent: Option<u32>,
    st: WalkView,
)
    requires
        paths_ok(st),
    ensures
        paths_ok(walked(body, tree, strips, list, parent, st)),
    decreases tree, 1int,
{
    let n = tree.children.len() as int;
    let next = walked(body, tree, strips, list, parent, st);
    assert(decreases_to!(tree => tree.children));
    match tree.info.kind {
        KindView::Quote => {
            walked_all_keeps_paths(
                body,
                tree.children,
                n,
                strips.push(Strip::Quote),
                list,
                parent,
                st,
            );
        },
        KindView::List { ordered, start, tight } => {
            let attrs = Some(list_attrs(ordered, start, tight));
            walked_all_keeps_paths(body, tree.children, n, strips, attrs, parent, st);
        },
        KindView::Item { .. } => {
            item_keeps_paths(body, tree, strips, list, parent, st);
        },
        KindView::TaskItem { .. } => {
            item_keeps_paths(body, tree, strips, list, parent, st);
        },
        KindView::Heading { level, setext } => {
            let text = heading_text_of(tree);
            heading_attrs_read(level, setext, text);
            heading_pushed(st, level, text, next.blocks.last(), next);
        },
        KindView::Paragraph => {
            plain_pushed(st, next.blocks.last(), next);
        },
        KindView::CodeBlock { .. } => {
            plain_pushed(st, next.blocks.last(), next);
        },
        KindView::HtmlBlock => {
            plain_pushed(st, next.blocks.last(), next);
        },
        KindView::ThematicBreak => {
            plain_pushed(st, next.blocks.last(), next);
        },
        KindView::Table => {
            plain_pushed(st, next.blocks.last(), next);
        },
        _ => {
            walked_all_keeps_paths(body, tree.children, n, strips, list, parent, st);
        },
    }
}

proof fn item_keeps_paths(
    body: BodyView,
    tree: MdTree,
    strips: Seq<Strip>,
    list: Option<JsonView>,
    parent: Option<u32>,
    st: WalkView,
)
    requires
        paths_ok(st),
    ensures
        paths_ok(walked_item(body, tree, strips, list, parent, st)),
    decreases tree, 0int,
{
    let g = geometry(body, tree.info, strips, list);
    let inner = strips.push(
        Strip::Item {
            first_line: tree.info.start_line,
            first_width: g.first_width,
            cont_width: g.cont_width,
        },
    );
    let block = block_at(
        body,
        st,
        BlockKind::ListItem,
        tree.info,
        parent,
        inner,
        g.attrs,
        item_lines(tree),
    );
    let inside = WalkView { blocks: st.blocks.push(block), ..st };
    plain_pushed(st, block, inside);
    assert(decreases_to!(tree => tree.children));
    walked_all_keeps_paths(
        body,
        tree.children,
        tree.children.len() as int,
        inner,
        list,
        Some(st.blocks.len() as u32),
        inside,
    );
}

proof fn walked_all_keeps_paths(
    body: BodyView,
    trees: Seq<MdTree>,
    n: int,
    strips: Seq<Strip>,
    list: Option<JsonView>,
    parent: Option<u32>,
    st: WalkView,
)
    requires
        paths_ok(st),
    ensures
        paths_ok(walked_all(body, trees, n, strips, list, parent, st)),
    decreases trees, n,
{
    if n > 0 && n <= trees.len() {
        walked_all_keeps_paths(body, trees, n - 1, strips, list, parent, st);
        let mid = walked_all(body, trees, n - 1, strips, list, parent, st);
        assert(decreases_to!(trees => trees[n - 1]));
        walked_keeps_paths(body, trees[n - 1], strips, list, parent, mid);
    }
}

/// The heading path of every block names the headings over it, outermost first:
/// those before it that no later heading of the same level or above, up to the block
/// itself, has ended.
pub proof fn a_heading_path_names_what_is_over(body: BodyView, nodes: Seq<MdTree>)
    ensures
        forall|i: int|
            0 <= i < walk_of(body, nodes).blocks.len() ==> names_headings(
                raw_marks(walk_of(body, nodes).blocks),
                i,
                (#[trigger] walk_of(body, nodes).blocks[i]).heading_path,
            ),
{
    let none = WalkView { blocks: Seq::empty(), headings: Seq::empty(), links: Seq::empty() };
    let hs = Seq::<int>::empty();
    assert(stacked(raw_marks(none.blocks), none.headings, hs));
    walked_all_keeps_paths(body, nodes, nodes.len() as int, Seq::empty(), None, None, none);
}

// ---- documents ----

/// The part of a source that is markdown.
pub open spec fn body_of(source: Seq<char>) -> BodyView {
    let len = frontmatter(source).len;
    BodyView { md: sub_text(source, len, encode_utf8(source).len() as int), base: len as usize }
}

pub open spec fn block_mark(b: BlockView) -> Mark {
    Mark {
        heading: b.kind == BlockKind::Heading,
        level: heading_level(b),
        text: heading_text(b),
    }
}

pub open spec fn block_marks(blocks: Seq<BlockView>) -> Seq<Mark> {
    Seq::new(blocks.len(), |i: int| block_mark(blocks[i]))
}

/// A block of a document as the walk found it: nothing that the walk knows of it is
/// lost or changed, but that its span may reach further, and that its own ID is added
/// to its attributes.
pub open spec fn carries(b: BlockView, raw: RawView) -> bool {
    &&& b.kind == raw.kind
    &&& b.parent == raw.parent
    &&& b.heading_path == raw.heading_path
    &&& b.line_prefix == raw.line_prefix
    &&& b.cont_prefix == raw.cont_prefix
    &&& b.span.start == raw.span.start
    &&& forall|key: Seq<char>|
        key != "block_ref_id"@ ==> #[trigger] b.attrs.get(key) == raw.attrs.get(key)
    &&& raw.attrs is Object ==> match b.block_ref_id {
        Some(id) => b.attrs.get("block_ref_id"@) == Some(JsonView::Str(id)),
        None => b.attrs == raw.attrs,
    }
}

proof fn adopting_moves_no_start(
    spans: Seq<Span>,
    parents: Seq<Option<u32>>,
    nodes: Seq<MdTree>,
    tiles: Seq<Span>,
    n: int,
)
    requires
        0 <= n,
    ensures
        adopted(spans, parents, nodes, tiles, n).0.len() == spans.len(),
        adopted(spans, parents, nodes, tiles, n).1 >= 0,
        forall|i: int|
            0 <= i < spans.len() ==> (#[trigger] adopted(spans, parents, nodes, tiles, n).0[i]).start
                == spans[i].start,
    decreases n,
{
    if n > 0 {
        adopting_moves_no_start(spans, parents, nodes, tiles, n - 1);
        let (before, c) = adopted(spans, parents, nodes, tiles, n - 1);
        first_from_bound(before, c, tiles[n - 1].start as int);
    }
}

proof fn first_from_bound(spans: Seq<Span>, c: int, at: int)
    requires
        0 <= c,
    ensures
        first_from(spans, c, at) >= c,
    decreases spans.len() - c,
{
    if c < spans.len() && spans[c].start < at {
        first_from_bound(spans, c + 1, at);
    }
}

proof fn finished_carries(
    body: BodyView,
    raw: RawView,
    ord: int,
    span: Span,
    id: Option<Seq<char>>,
    strip_id: Option<Seq<char>>,
)
    requires
        span.start == raw.span.start,
    ensures
        carries(finished(body, raw, ord, span, id, strip_id), raw),
{
    let b = finished(body, raw, ord, span, id, strip_id);
    if let Some(s) = id {
        if raw.attrs is Object {
            assert forall|key: Seq<char>| key != "block_ref_id"@ implies #[trigger] b.attrs.get(key)
                == raw.attrs.get(key) by {
                a_put_reads_back(raw.attrs, "block_ref_id"@, JsonView::Str(s), key);
            }
            a_put_reads_back(raw.attrs, "block_ref_id"@, JsonView::Str(s), "block_ref_id"@);
        }
    }
}

/// The blocks of a document are those of the walk over its nodes, one for one.
pub proof fn a_document_is_its_walk(source: Seq<char>)
    ensures
        ({
            let raw = walk_of(body_of(source), document_nodes(body_of(source).md)).blocks;
            &&& document(source).blocks.len() == raw.len()
            &&& forall|i: int|
                0 <= i < raw.len() ==> carries(#[trigger] document(source).blocks[i], raw[i])
        }),
{
    let body = body_of(source);
    let nodes = document_nodes(body.md);
    let raw = walk_of(body, nodes).blocks;
    let blocks = document(source).blocks;
    assert(blocks == blocks_of(body, nodes));
    let n = nodes.len() as int;
    let tiles = top_spans(body, nodes);
    adopting_moves_no_start(spans_of(raw), parents_of(raw), nodes, tiles, n);
    let spans = adopted(spans_of(raw), parents_of(raw), nodes, tiles, n).0;
    let ids = ids_of(body, raw);
    assert forall|i: int| 0 <= i < raw.len() implies carries(#[trigger] blocks[i], raw[i]) by {
        let strip_id = stripped_id(ids, parents_of(raw), i, raw.len() as int);
        assert(spans[i].start == spans_of(raw)[i].start);
        finished_carries(body, raw[i], i, spans[i], ids[i], strip_id);
    }
}

/// The heading path of every block of a document names the headings over it,
/// outermost first.
pub proof fn a_document_names_what_is_over(source: Seq<char>)
    ensures
        forall|i: int|
            0 <= i < document(source).blocks.len() ==> names_headings(
                block_marks(document(source).blocks),
                i,
                (#[trigger] document(source).blocks[i]).heading_path,
            ),
{
    let body = body_of(source);
    let nodes = document_nodes(body.md);
    let raw = walk_of(body, nodes).blocks;
    let blocks = document(source).blocks;
    a_document_is_its_walk(source);
    a_heading_path_names_what_is_over(body, nodes);
    every_block_is_found(body, nodes);
    marks_agree(body, nodes, blocks);
    assert forall|i: int| 0 <= i < blocks.len() implies names_headings(
        block_marks(blocks),
        i,
        (#[trigger] blocks[i]).heading_path,
    ) by {
        assert(carries(blocks[i], raw[i]));
        assert(names_headings(raw_marks(raw), i, raw[i].heading_path));
    }
}

proof fn marks_agree(body: BodyView, nodes: Seq<MdTree>, blocks: Seq<BlockView>)
    requires
        ({
            let raw = walk_of(body, nodes).blocks;
            &&& blocks.len() == raw.len()
            &&& forall|i: int| 0 <= i < raw.len() ==> carries(#[trigger] blocks[i], raw[i])
        }),
    ensures
        block_marks(blocks) == raw_marks(walk_of(body, nodes).blocks),
{
    let raw = walk_of(body, nodes).blocks;
    reveal_strlit("level");
    reveal_strlit("text");
    reveal_strlit("block_ref_id");
    assert("level"@.len() == 5 && "text"@.len() == 4 && "block_ref_id"@.len() == 12);
    assert forall|i: int| 0 <= i < raw.len() implies block_mark(#[trigger] blocks[i]) == raw_mark(
        raw[i],
    ) by {
        assert(carries(blocks[i], raw[i]));
        assert(blocks[i].attrs.get("level"@) == raw[i].attrs.get("level"@));
        assert(blocks[i].attrs.get("text"@) == raw[i].attrs.get("text"@));
    }
    assert(block_marks(blocks) =~= raw_marks(raw));
}

// ---- lines ----

/// Node `i` of these is no list and no quote.
pub open spec fn direct(trees: Seq<MdTree>) -> spec_fn(int) -> bool {
    |i: int| !(trees[i].info.kind is List || trees[i].info.kind is Quote)
}

proof fn content_lines_are(trees: Seq<MdTree>, n: int) -> (at: Seq<int>)
    requires
        0 <= n <= trees.len(),
    ensures
        picks(at, n, direct(trees)),
        content_lines(trees, n) == Seq::new(
            at.len(),
            |k: int| (trees[at[k]].info.start_line, trees[at[k]].info.end_line),
        ),
    decreases n,
{
    let want = direct(trees);
    if n > 0 {
        let old = content_lines_are(trees, n - 1);
        let at = if want(n - 1) {
            old.push(n - 1)
        } else {
            old
        };
        picks_one_more(old, at, n, want);
        assert(content_lines(trees, n) =~= Seq::new(
            at.len(),
            |k: int| (trees[at[k]].info.start_line, trees[at[k]].info.end_line),
        ));
        at
    } else {
        let at = Seq::<int>::empty();
        assert(content_lines(trees, n) =~= Seq::new(
            at.len(),
            |k: int| (trees[at[k]].info.start_line, trees[at[k]].info.end_line),
        ));
        at
    }
}

/// An item's own lines are those of everything directly in it but lists and quotes, in
/// order; of an item with nothing else in it, its first line.
pub proof fn an_item_owns_its_direct_lines(tree: MdTree)
    ensures
        exists|at: Seq<int>|
            {
                &&& #[trigger] picks(at, tree.children.len() as int, direct(tree.children))
                &&& item_lines(tree) == (if at.len() == 0 {
                    seq![(tree.info.start_line, tree.info.start_line)]
                } else {
                    Seq::new(
                        at.len(),
                        |k: int|
                            (
                                tree.children[at[k]].info.start_line,
                                tree.children[at[k]].info.end_line,
                            ),
                    )
                })
            },
{
    let c = tree.children;
    let at = content_lines_are(c, c.len() as int);
    assert(picks(at, c.len() as int, direct(c)));
    if at.len() > 0 {
        assert(Seq::new(at.len(), |k: int| (c[at[k]].info.start_line, c[at[k]].info.end_line))
            =~= Seq::new(
            at.len(),
            |k: int|
                (tree.children[at[k]].info.start_line, tree.children[at[k]].info.end_line),
        ));
    }
}

proof fn lines_follow(md: Seq<char>, strips: Seq<Strip>, from: int, to: int)
    requires
        from <= to + 1,
    ensures
        logical_lines(md, strips, from, to) == Seq::new(
            (to + 1 - from) as nat,
            |k: int| logical_line(md, strips, from + k),
        ).flatten(),
    decreases to - from + 1,
{
    let all = Seq::new((to + 1 - from) as nat, |k: int| logical_line(md, strips, from + k));
    if from > to {
        assert(all =~= Seq::empty());
    } else {
        lines_follow(md, strips, from, to - 1);
        let old = Seq::new((to - from) as nat, |k: int| logical_line(md, strips, from + k));
        let last = logical_line(md, strips, to);
        assert(all =~= old.push(last));
        old.lemma_flatten_push(last);
        if from == to {
            assert(old =~= Seq::empty());
            assert(old.flatten() + last =~= last);
        }
    }
}

/// A block's text is its own lines, one after the other: every line of every range, with
/// the decoration of the containers taken off and a line feed after it.
pub proof fn a_block_reads_all_its_lines(
    md: Seq<char>,
    strips: Seq<Strip>,
    own: Seq<(usize, usize)>,
    n: int,
)
    requires
        0 <= n <= own.len(),
        forall|i: int| 0 <= i < own.len() ==> (#[trigger] own[i]).0 <= own[i].1 + 1,
    ensures
        logical_text(md, strips, own, n) == Seq::new(
            n as nat,
            |i: int|
                Seq::new(
                    (own[i].1 + 1 - own[i].0) as nat,
                    |k: int| logical_line(md, strips, own[i].0 + k),
                ).flatten(),
        ).flatten(),
    decreases n,
{
    let part = |i: int|
        Seq::new(
            (own[i].1 + 1 - own[i].0) as nat,
            |k: int| logical_line(md, strips, own[i].0 + k),
        ).flatten();
    let all = Seq::new(n as nat, part);
    if n > 0 {
        a_block_reads_all_its_lines(md, strips, own, n - 1);
        let old = Seq::new((n - 1) as nat, part);
        let (a, b) = own[n - 1];
        lines_follow(md, strips, a as int, b as int);
        let last = part(n - 1);
        assert(all =~= old.push(last));
        old.lemma_flatten_push(last);
        assert(Seq::new((b + 1 - a) as nat, |k: int| logical_line(md, strips, a + k)) =~= Seq::new(
            (own[n - 1].1 + 1 - own[n - 1].0) as nat,
            |k: int| logical_line(md, strips, own[n - 1].0 + k),
        ));
        assert(old =~= Seq::new(
            (n - 1) as nat,
            |i: int|
                Seq::new(
                    (own[i].1 + 1 - own[i].0) as nat,
                    |k: int| logical_line(md, strips, own[i].0 + k),
                ).flatten(),
        ));
    } else {
        assert(all =~= Seq::empty());
    }
    assert(all =~= Seq::new(
        n as nat,
        |i: int|
            Seq::new(
                (own[i].1 + 1 - own[i].0) as nat,
                |k: int| logical_line(md, strips, own[i].0 + k),
            ).flatten(),
    ));
}

/// The references of a document are the markdown links of its nodes, then those in the
/// text of every block, in order; its tags are those in the text of every block, in
/// order, then those of its frontmatter.
pub proof fn a_document_lists_every_reference(source: Seq<char>)
    ensures
        ({
            let st = walk_of(body_of(source), document_nodes(body_of(source).md));
            &&& document(source).links == st.links + Seq::new(
                st.blocks.len(),
                |i: int| links_of_block(source, st.blocks[i].units, i as u32),
            ).flatten()
            &&& document(source).tags == Seq::new(
                st.blocks.len(),
                |i: int| tags_of_block(source, st.blocks[i].units, i as u32),
            ).flatten() + Seq::new(
                frontmatter(source).tags.len(),
                |i: int| TagView { tag: frontmatter(source).tags[i], block: None },
            )
        }),
{
    let st = walk_of(body_of(source), document_nodes(body_of(source).md));
    let units = units_of(st.blocks);
    let n = st.blocks.len() as int;
    every_unit_is_scanned(source, units, n, Found { links: st.links, tags: Seq::empty() });
    assert(Seq::new(n as nat, |i: int| links_of_block(source, units[i], i as u32)) =~= Seq::new(
        st.blocks.len(),
        |i: int| links_of_block(source, st.blocks[i].units, i as u32),
    ));
    let tags = Seq::new(
        st.blocks.len(),
        |i: int| tags_of_block(source, st.blocks[i].units, i as u32),
    );
    assert(Seq::new(n as nat, |i: int| tags_of_block(source, units[i], i as u32)) =~= tags);
    assert(Seq::<TagView>::empty() + tags.flatten() =~= tags.flatten());
    assert(note_tags(frontmatter(source).tags) =~= Seq::new(
        frontmatter(source).tags.len(),
        |i: int| TagView { tag: frontmatter(source).tags[i], block: None },
    ));
}

} // verus!
