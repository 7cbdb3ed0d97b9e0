//! The tree of a note's blocks: subtrees, containers, ancestors.

use vstd::prelude::*;
use vstd::string::*;

use crate::document::{Block, BlockKind, BlockView, Document, DocumentView};
use crate::parse::parents_first;
use crate::text::str_eq;

verus! {

/// Block `i` is inside block `idx`.
pub open spec fn inside(blocks: Seq<BlockView>, i: int, idx: int) -> bool
    decreases i,
{
    match blocks[i].parent {
        Some(p) => p == idx || (0 <= p < i && inside(blocks, p as int, idx)),
        None => false,
    }
}

/// The end of the run of blocks from `end` on that are inside block `idx`.
pub open spec fn run_end(blocks: Seq<BlockView>, idx: int, end: int) -> int
    decreases blocks.len() - end,
{
    if 0 <= end < blocks.len() && inside(blocks, end, idx) {
        run_end(blocks, idx, end + 1)
    } else {
        end
    }
}

/// The subtree of block `idx` is the blocks from it up to here.
pub open spec fn subtree_to(blocks: Seq<BlockView>, idx: int) -> int {
    run_end(blocks, idx, idx + 1)
}

proof fn run_end_bounds(blocks: Seq<BlockView>, idx: int, end: int)
    requires
        0 <= end <= blocks.len(),
    ensures
        end <= run_end(blocks, idx, end) <= blocks.len(),
        forall|i: int| end <= i < run_end(blocks, idx, end) ==> inside(blocks, i, idx),
    decreases blocks.len() - end,
{
    if end < blocks.len() && inside(blocks, end, idx) {
        run_end_bounds(blocks, idx, end + 1);
    }
}

/// A subtree is its block and blocks inside it.
pub proof fn subtree_bounds(blocks: Seq<BlockView>, idx: int)
    requires
        0 <= idx < blocks.len(),
    ensures
        idx < subtree_to(blocks, idx) <= blocks.len(),
        forall|i: int| idx < i < subtree_to(blocks, idx) ==> inside(blocks, i, idx),
{
    run_end_bounds(blocks, idx, idx + 1);
}

/// Whether a block is inside another.
pub fn is_inside(blocks: &Vec<Block>, i: usize, idx: usize) -> (r: bool)
    requires
        i < blocks.len(),
        parents_first(blocks.deep_view()),
    ensures
        r == inside(blocks.deep_view(), i as int, idx as int),
{
    let ghost v = blocks.deep_view();
    let mut at: usize = i;
    loop
        invariant
            at < blocks.len(),
            v == blocks.deep_view(),
            parents_first(v),
            inside(v, i as int, idx as int) == inside(v, at as int, idx as int),
        decreases at,
    {
        assert(v[at as int] == blocks[at as int].deep_view());
        match blocks[at].parent {
            Some(p) => {
                assert(v[at as int].parent == Some(p));
                if p as usize == idx {
                    return true;
                }
                at = p as usize;
            },
            None => {
                return false;
            },
        }
    }
}

/// The end of the subtree of block `idx`: a contiguous run, for blocks are in
/// document order.
pub fn subtree_end(blocks: &Vec<Block>, idx: usize) -> (r: usize)
    requires
        idx < blocks.len(),
        parents_first(blocks.deep_view()),
    ensures
        r == subtree_to(blocks.deep_view(), idx as int),
        idx < r <= blocks.len(),
{
    let ghost v = blocks.deep_view();
    let mut end: usize = idx + 1;
    while end < blocks.len() && is_inside(blocks, end, idx)
        invariant
            idx < end <= blocks.len(),
            v == blocks.deep_view(),
            parents_first(v),
            run_end(v, idx as int, idx + 1) == run_end(v, idx as int, end as int),
        decreases blocks.len() - end,
    {
        end += 1;
    }
    end
}

/// Block `i` is a container child of block `idx`: an item, or content nested
/// deeper than the block's own lines.
pub open spec fn container_child(blocks: Seq<BlockView>, idx: int, i: int) -> bool {
    blocks[i].parent == Some(idx as u32) && (blocks[i].kind == BlockKind::ListItem
        || blocks[i].cont_prefix != blocks[idx].cont_prefix)
}

fn is_container_child(blocks: &Vec<Block>, idx: usize, i: usize) -> (r: bool)
    requires
        i < blocks.len(),
        idx < blocks.len(),
    ensures
        r == container_child(blocks.deep_view(), idx as int, i as int),
{
    let ghost v = blocks.deep_view();
    assert(v[i as int] == blocks[i as int].deep_view());
    assert(v[idx as int] == blocks[idx as int].deep_view());
    let own = match blocks[i].parent {
        Some(p) => p == idx as u32,
        None => false,
    };
    own && (blocks[i].kind == BlockKind::ListItem || !str_eq(
        blocks[i].cont_prefix.as_str(),
        blocks[idx].cont_prefix.as_str(),
    ))
}

/// Block `idx` has a container child.
pub open spec fn has_containers(blocks: Seq<BlockView>, idx: int) -> bool {
    exists|i: int| 0 <= i < blocks.len() && #[trigger] container_child(blocks, idx, i)
}

/// Whether a block has a container child.
pub fn has_container_children(blocks: &Vec<Block>, idx: usize) -> (r: bool)
    requires
        idx < blocks.len(),
    ensures
        r == has_containers(blocks.deep_view(), idx as int),
{
    let ghost v = blocks.deep_view();
    let mut i: usize = 0;
    while i < blocks.len()
        invariant
            i <= blocks.len(),
            idx < blocks.len(),
            v == blocks.deep_view(),
            v.len() == blocks.len(),
            forall|k: int| 0 <= k < i ==> !#[trigger] container_child(v, idx as int, k),
        decreases blocks.len() - i,
    {
        if is_container_child(blocks, idx, i) {
            return true;
        }
        i += 1;
    }
    false
}

/// The lowest start of the container children among the first `n` blocks; the
/// end of the block where there is none.
pub open spec fn containers_from(blocks: Seq<BlockView>, idx: int, n: int) -> Option<int>
    decreases n,
{
    if n <= 0 {
        None
    } else {
        let before = containers_from(blocks, idx, n - 1);
        let at = blocks[n - 1].span.start as int;
        if container_child(blocks, idx, n - 1) && (before matches Some(b) ==> at < b) {
            Some(at)
        } else {
            before
        }
    }
}

/// Where a block's own content is cut short: at its first container child.
pub open spec fn own_cut(blocks: Seq<BlockView>, idx: int) -> int {
    match containers_from(blocks, idx, blocks.len() as int) {
        Some(at) => at,
        None => blocks[idx].span.end as int,
    }
}

/// Direct content of block `idx` stands after a nested container.
pub open spec fn late_content(blocks: Seq<BlockView>, idx: int, i: int) -> bool {
    blocks[i].parent == Some(idx as u32) && !container_child(blocks, idx, i)
        && blocks[i].span.start >= own_cut(blocks, idx)
}

/// A block's own content is in one piece.
pub open spec fn contiguous(blocks: Seq<BlockView>, idx: int) -> bool {
    forall|i: int| 0 <= i < blocks.len() ==> !#[trigger] late_content(blocks, idx, i)
}

/// The byte range of a block's own content: its span, cut short at its first
/// container child. None where its content is not in one piece.
pub fn own_range(blocks: &Vec<Block>, idx: usize) -> (r: Option<(usize, usize)>)
    requires
        idx < blocks.len(),
    ensures
        ({
            let v = blocks.deep_view();
            match r {
                Some((from, to)) => {
                    &&& contiguous(v, idx as int)
                    &&& from == v[idx as int].span.start
                    &&& to == (if own_cut(v, idx as int) <= v[idx as int].span.end {
                        own_cut(v, idx as int)
                    } else {
                        v[idx as int].span.end as int
                    })
                },
                None => !contiguous(v, idx as int),
            }
        }),
{
    let ghost v = blocks.deep_view();
    let mut first: Option<usize> = None;
    let mut i: usize = 0;
    while i < blocks.len()
        invariant
            i <= blocks.len(),
            idx < blocks.len(),
            v == blocks.deep_view(),
            containers_from(v, idx as int, i as int) == (match first {
                Some(a) => Some(a as int),
                None => None,
            }),
        decreases blocks.len() - i,
    {
        assert(v[i as int] == blocks[i as int].deep_view());
        let at = blocks[i].span.start;
        let lower = match first {
            Some(b) => at < b,
            None => true,
        };
        if is_container_child(blocks, idx, i) && lower {
            first = Some(at);
        }
        i += 1;
    }
    assert(v[idx as int] == blocks[idx as int].deep_view());
    let end = blocks[idx].span.end;
    let cut = match first {
        Some(a) => a,
        None => end,
    };
    let mut k: usize = 0;
    while k < blocks.len()
        invariant
            k <= blocks.len(),
            idx < blocks.len(),
            v == blocks.deep_view(),
            v.len() == blocks.len(),
            cut == own_cut(v, idx as int),
            forall|j: int| 0 <= j < k ==> !#[trigger] late_content(v, idx as int, j),
        decreases blocks.len() - k,
    {
        assert(v[k as int] == blocks[k as int].deep_view());
        let own = match blocks[k].parent {
            Some(p) => p == idx as u32,
            None => false,
        };
        if own && !is_container_child(blocks, idx, k) && blocks[k].span.start >= cut {
            assert(late_content(v, idx as int, k as int));
            return None;
        }
        k += 1;
    }
    Some(
        (
            blocks[idx].span.start,
            if cut <= end {
                cut
            } else {
                end
            },
        ),
    )
}

/// The highest end among the blocks from `from` up to `to`.
pub open spec fn spans_to(blocks: Seq<BlockView>, from: int, to: int) -> int
    decreases to - from,
{
    if to <= from + 1 {
        blocks[from].span.end as int
    } else {
        let before = spans_to(blocks, from, to - 1);
        let last = blocks[to - 1].span.end as int;
        if last > before {
            last
        } else {
            before
        }
    }
}

/// The last byte that a run of blocks covers.
pub fn span_end_of(blocks: &Vec<Block>, from: usize, to: usize) -> (r: usize)
    requires
        from < to <= blocks.len(),
    ensures
        r == spans_to(blocks.deep_view(), from as int, to as int),
{
    let ghost v = blocks.deep_view();
    assert(v[from as int] == blocks[from as int].deep_view());
    let mut end: usize = blocks[from].span.end;
    let mut i: usize = from + 1;
    while i < to
        invariant
            from < i <= to <= blocks.len(),
            v == blocks.deep_view(),
            end == spans_to(v, from as int, i as int),
        decreases to - i,
    {
        assert(v[i as int] == blocks[i as int].deep_view());
        if blocks[i].span.end > end {
            end = blocks[i].span.end;
        }
        i += 1;
    }
    end
}

/// The first `n` blocks that no block encloses.
pub open spec fn roots_upto(blocks: Seq<BlockView>, n: int) -> Seq<int>
    decreases n,
{
    if n <= 0 {
        Seq::empty()
    } else if blocks[n - 1].parent is None {
        roots_upto(blocks, n - 1).push(n - 1)
    } else {
        roots_upto(blocks, n - 1)
    }
}

/// The blocks that no block encloses.
pub open spec fn roots_of(blocks: Seq<BlockView>) -> Seq<int> {
    roots_upto(blocks, blocks.len() as int)
}

/// Machine indices as numbers.
pub open spec fn indices(v: Seq<usize>) -> Seq<int> {
    Seq::new(v.len(), |i: int| v[i] as int)
}

/// Every index is that of a block.
pub open spec fn all_below(v: Seq<int>, n: int) -> bool {
    forall|k: int| 0 <= k < v.len() ==> 0 <= #[trigger] v[k] < n
}

/// The blocks that no block encloses.
pub fn roots(blocks: &Vec<Block>) -> (r: Vec<usize>)
    ensures
        indices(r@) == roots_of(blocks.deep_view()),
        forall|k: int| 0 <= k < r.len() ==> #[trigger] r[k] < blocks.len(),
{
    let ghost v = blocks.deep_view();
    let mut out: Vec<usize> = Vec::new();
    let mut i: usize = 0;
    proof {
        assert(indices(out@) =~= Seq::<int>::empty());
    }
    while i < blocks.len()
        invariant
            i <= blocks.len(),
            v == blocks.deep_view(),
            indices(out@) == roots_upto(v, i as int),
            forall|k: int| 0 <= k < out.len() ==> #[trigger] out[k] < blocks.len(),
        decreases blocks.len() - i,
    {
        assert(v[i as int] == blocks[i as int].deep_view());
        if blocks[i].parent.is_none() {
            let ghost before = indices(out@);
            out.push(i);
            assert(indices(out@) =~= before.push(i as int));
        }
        i += 1;
    }
    out
}

/// The blocks that enclose block `i`, outermost first.
pub open spec fn ancestors_of(blocks: Seq<BlockView>, i: int) -> Seq<int>
    decreases i,
{
    match blocks[i].parent {
        Some(p) => if 0 <= p < i {
            ancestors_of(blocks, p as int).push(p as int)
        } else {
            Seq::empty()
        },
        None => Seq::empty(),
    }
}

/// Ancestors come before their block, each after the one that encloses it.
pub proof fn ancestors_ascend(blocks: Seq<BlockView>, i: int)
    requires
        0 <= i,
    ensures
        all_below(ancestors_of(blocks, i), i),
        forall|j: int, k: int|
            0 <= j < k < ancestors_of(blocks, i).len() ==> #[trigger] ancestors_of(blocks, i)[j]
                < #[trigger] ancestors_of(blocks, i)[k],
    decreases i,
{
    if let Some(p) = blocks[i].parent {
        if p < i {
            ancestors_ascend(blocks, p as int);
            let a = ancestors_of(blocks, p as int);
            let b = ancestors_of(blocks, i);
            assert forall|k: int| 0 <= k < b.len() implies 0 <= #[trigger] b[k] < i by {
                if k < a.len() {
                    assert(b[k] == a[k]);
                }
            }
            assert forall|j: int, k: int| 0 <= j < k < b.len() implies #[trigger] b[j]
                < #[trigger] b[k] by {
                assert(b[j] == a[j]);
                if k < a.len() {
                    assert(b[k] == a[k]);
                }
            }
        }
    }
}

/// The blocks that enclose a block, outermost first.
pub fn ancestors(blocks: &Vec<Block>, idx: usize) -> (r: Vec<usize>)
    requires
        idx < blocks.len(),
        parents_first(blocks.deep_view()),
    ensures
        indices(r@) == ancestors_of(blocks.deep_view(), idx as int),
{
    let ghost v = blocks.deep_view();
    let mut chain: Vec<usize> = Vec::new();
    let mut at: usize = idx;
    let mut done = false;
    // Gathered innermost first, then turned round.
    while !done
        invariant
            at < blocks.len(),
            v == blocks.deep_view(),
            parents_first(v),
            ancestors_of(v, idx as int) == (if done {
                Seq::<int>::empty()
            } else {
                ancestors_of(v, at as int)
            }) + indices(chain@).reverse(),
        decreases (if done {
            0
        } else {
            at + 1
        }),
    {
        assert(v[at as int] == blocks[at as int].deep_view());
        let ghost before = indices(chain@);
        match blocks[at].parent {
            Some(p) => {
                assert(v[at as int].parent == Some(p));
                chain.push(p as usize);
                proof {
                    assert(indices(chain@) =~= before.push(p as int));
                    assert(before.push(p as int).reverse() =~= seq![p as int] + before.reverse());
                    let a = ancestors_of(v, p as int);
                    assert(a.push(p as int) + before.reverse() =~= a + (seq![p as int]
                        + before.reverse()));
                }
                at = p as usize;
            },
            None => {
                done = true;
            },
        }
    }
    let mut out: Vec<usize> = Vec::new();
    let mut i: usize = chain.len();
    proof {
        assert(Seq::<int>::empty() + indices(chain@).reverse() =~= indices(chain@).reverse());
    }
    while i > 0
        invariant
            i <= chain.len(),
            out.len() == chain.len() - i,
            forall|k: int|
                0 <= k < out.len() ==> #[trigger] out[k] == chain[chain.len() - 1 - k],
        decreases i,
    {
        i -= 1;
        out.push(chain[i]);
    }
    assert(indices(out@) =~= indices(chain@).reverse());
    out
}

/// The first block from `i` on that starts at this offset and has this kind, if
/// the kind counts.
pub open spec fn block_at_line(
    blocks: Seq<BlockView>,
    at: int,
    kind: Option<BlockKind>,
    i: int,
) -> Option<int>
    decreases blocks.len() - i,
{
    if i < 0 || i >= blocks.len() {
        None
    } else if blocks[i].span.start == at && (kind is None || kind == Some(blocks[i].kind)) {
        Some(i)
    } else {
        block_at_line(blocks, at, kind, i + 1)
    }
}

/// The root that starts on a line: of the expected kind, else the first. An item
/// and its first paragraph share a line.
pub open spec fn root_at(blocks: Seq<BlockView>, at: int, kind: BlockKind) -> Option<int> {
    match block_at_line(blocks, at, Some(kind), 0) {
        Some(i) => Some(i),
        None => block_at_line(blocks, at, None, 0),
    }
}

fn find_block_at(blocks: &Vec<Block>, at: usize, kind: Option<BlockKind>) -> (r: Option<usize>)
    ensures
        block_at_line(blocks.deep_view(), at as int, kind, 0) == (match r {
            Some(i) => Some(i as int),
            None => None,
        }),
        r matches Some(i) ==> i < blocks.len(),
{
    let ghost v = blocks.deep_view();
    let mut i: usize = 0;
    while i < blocks.len()
        invariant
            i <= blocks.len(),
            v == blocks.deep_view(),
            block_at_line(v, at as int, kind, 0) == block_at_line(v, at as int, kind, i as int),
        decreases blocks.len() - i,
    {
        assert(v[i as int] == blocks[i as int].deep_view());
        let fits = match kind {
            Some(k) => blocks[i].kind == k,
            None => true,
        };
        if blocks[i].span.start == at && fits {
            return Some(i);
        }
        i += 1;
    }
    None
}

/// The root that starts on a line.
pub fn find_root_at(blocks: &Vec<Block>, at: usize, kind: BlockKind) -> (r: Option<usize>)
    ensures
        root_at(blocks.deep_view(), at as int, kind) == (match r {
            Some(i) => Some(i as int),
            None => None,
        }),
        r matches Some(i) ==> i < blocks.len(),
{
    match find_block_at(blocks, at, Some(kind)) {
        Some(i) => Some(i),
        None => find_block_at(blocks, at, None),
    }
}

/// The first block from `i` up to `to` with this marker.
pub open spec fn marked(blocks: Seq<BlockView>, marker: Seq<char>, i: int, to: int) -> Option<int>
    decreases to - i,
{
    if i >= to {
        None
    } else if blocks[i].block_ref_id == Some(marker) {
        Some(i)
    } else {
        marked(blocks, marker, i + 1, to)
    }
}

/// The first block with this marker in the subtrees of the roots from the `k`-th
/// on.
pub open spec fn holder(
    blocks: Seq<BlockView>,
    roots: Seq<int>,
    marker: Seq<char>,
    k: int,
) -> Option<int>
    decreases roots.len() - k,
{
    if k < 0 || k >= roots.len() {
        None
    } else {
        match marked(blocks, marker, roots[k], subtree_to(blocks, roots[k])) {
            Some(i) => Some(i),
            None => holder(blocks, roots, marker, k + 1),
        }
    }
}

/// Which block of the roots' subtrees carries a marker: of a list item it is the
/// innermost block.
pub open spec fn holder_of(
    blocks: Seq<BlockView>,
    roots: Seq<int>,
    marker: Option<Seq<char>>,
) -> Option<int> {
    match marker {
        Some(m) => holder(blocks, roots, m, 0),
        None => None,
    }
}

/// Which block of the roots' subtrees carries a marker.
pub fn marker_holder(blocks: &Vec<Block>, roots: &Vec<usize>, marker: Option<&str>) -> (r: Option<
    usize,
>)
    requires
        parents_first(blocks.deep_view()),
        all_below(indices(roots@), blocks.len() as int),
    ensures
        holder_of(
            blocks.deep_view(),
            indices(roots@),
            (match marker {
                Some(m) => Some(m@),
                None => None,
            }),
        ) == (match r {
            Some(i) => Some(i as int),
            None => None,
        }),
        r matches Some(i) ==> i < blocks.len(),
{
    let m = match marker {
        Some(m) => m,
        None => {
            return None;
        },
    };
    let ghost v = blocks.deep_view();
    let ghost rs = indices(roots@);
    let mut k: usize = 0;
    while k < roots.len()
        invariant
            k <= roots.len(),
            v == blocks.deep_view(),
            rs == indices(roots@),
            parents_first(v),
            all_below(rs, blocks.len() as int),
            marker matches Some(x) && x@ == m@,
            holder(v, rs, m@, 0) == holder(v, rs, m@, k as int),
        decreases roots.len() - k,
    {
        let root = roots[k];
        assert(rs[k as int] == root);
        let end = subtree_end(blocks, root);
        let mut i: usize = root;
        while i < end
            invariant
                root <= i <= end <= blocks.len(),
                v == blocks.deep_view(),
                rs == indices(roots@),
                k < roots.len(),
                rs[k as int] == root,
                marker matches Some(x) && x@ == m@,
                end == subtree_to(v, root as int),
                holder(v, rs, m@, 0) == holder(v, rs, m@, k as int),
                marked(v, m@, root as int, end as int) == marked(v, m@, i as int, end as int),
            decreases end - i,
        {
            assert(v[i as int] == blocks[i as int].deep_view());
            let here = match &blocks[i].block_ref_id {
                Some(r) => str_eq(r.as_str(), m),
                None => false,
            };
            if here {
                return Some(i);
            }
            i += 1;
        }
        k += 1;
    }
    None
}

/// Block `idx` is a child of the document: it is a whole tile.
pub open spec fn top_level_child(doc: DocumentView, idx: int) -> bool {
    let b = doc.blocks[idx];
    b.parent is None && b.kind != BlockKind::ListItem && exists|i: int|
        0 <= i < doc.top_level.len() && (#[trigger] doc.top_level[i]).start == b.span.start
            && doc.top_level[i].end == b.span.end
}

/// Whether a block is a whole tile. Starting where a tile starts is not enough:
/// a paragraph in a quote does that too.
pub fn is_top_level_child(doc: &Document, idx: usize) -> (r: bool)
    requires
        idx < doc.blocks.len(),
    ensures
        r == top_level_child(doc.deep_view(), idx as int),
{
    let ghost v = doc.deep_view();
    assert(v.blocks[idx as int] == doc.blocks[idx as int].deep_view());
    let b = &doc.blocks[idx];
    if b.parent.is_some() || b.kind == BlockKind::ListItem {
        return false;
    }
    let mut i: usize = 0;
    while i < doc.top_level.len()
        invariant
            i <= doc.top_level.len(),
            v.top_level == doc.top_level@,
            v == doc.deep_view(),
            v.blocks[idx as int] == b.deep_view(),
            b.parent is None,
            b.kind != BlockKind::ListItem,
            forall|k: int|
                0 <= k < i ==> !((#[trigger] v.top_level[k]).start == b.span.start
                    && v.top_level[k].end == b.span.end),
        decreases doc.top_level.len() - i,
    {
        if doc.top_level[i].start == b.span.start && doc.top_level[i].end == b.span.end {
            assert(v.top_level[i as int].start == v.blocks[idx as int].span.start);
            return true;
        }
        i += 1;
    }
    false
}

/// The blocks among the first `n` that start in a byte range.
pub open spec fn starting_in(blocks: Seq<BlockView>, from: int, to: int, n: int) -> Seq<int>
    decreases n,
{
    if n <= 0 {
        Seq::empty()
    } else if from <= blocks[n - 1].span.start < to {
        starting_in(blocks, from, to, n - 1).push(n - 1)
    } else {
        starting_in(blocks, from, to, n - 1)
    }
}

/// The blocks that start in a byte range.
pub fn blocks_starting_in(blocks: &Vec<Block>, from: usize, to: usize) -> (r: Vec<usize>)
    ensures
        indices(r@) == starting_in(
            blocks.deep_view(),
            from as int,
            to as int,
            blocks.len() as int,
        ),
        all_below(indices(r@), blocks.len() as int),
{
    let ghost v = blocks.deep_view();
    let mut out: Vec<usize> = Vec::new();
    let mut i: usize = 0;
    proof {
        assert(indices(out@) =~= Seq::<int>::empty());
    }
    while i < blocks.len()
        invariant
            i <= blocks.len(),
            v == blocks.deep_view(),
            indices(out@) == starting_in(v, from as int, to as int, i as int),
            forall|k: int| 0 <= k < out.len() ==> #[trigger] out[k] < blocks.len(),
        decreases blocks.len() - i,
    {
        assert(v[i as int] == blocks[i as int].deep_view());
        if from <= blocks[i].span.start && blocks[i].span.start < to {
            let ghost before = indices(out@);
            out.push(i);
            assert(indices(out@) =~= before.push(i as int));
        }
        i += 1;
    }
    out
}

// ---- what these pick ----

proof fn roots_upto_are(blocks: Seq<BlockView>, n: int)
    requires
        0 <= n <= blocks.len(),
    ensures
        picks(roots_upto(blocks, n), n, |i: int| blocks[i].parent is None),
    decreases n,
{
    if n > 0 {
        roots_upto_are(blocks, n - 1);
        picks_one_more(
            roots_upto(blocks, n - 1),
            roots_upto(blocks, n),
            n,
            |i: int| blocks[i].parent is None,
        );
    }
}

/// These are the numbers below `n` that `want` holds of, in order.
pub open spec fn picks(v: Seq<int>, n: int, want: spec_fn(int) -> bool) -> bool {
    &&& forall|a: int, b: int| 0 <= a < b < v.len() ==> #[trigger] v[a] < #[trigger] v[b]
    &&& forall|i: int| #[trigger] v.contains(i) <==> 0 <= i < n && want(i)
}

pub proof fn picks_one_more(old: Seq<int>, new: Seq<int>, n: int, want: spec_fn(int) -> bool)
    requires
        n > 0,
        picks(old, n - 1, want),
        new == (if want(n - 1) {
            old.push(n - 1)
        } else {
            old
        }),
    ensures
        picks(new, n, want),
{
    assert forall|a: int| 0 <= a < old.len() implies #[trigger] old[a] < n - 1 by {
        assert(old.contains(old[a]));
    }
    assert forall|i: int| #[trigger] new.contains(i) <==> 0 <= i < n && want(i) by {
        if new.contains(i) {
            let k = new.index_of(i);
            if k < old.len() {
                assert(old[k] == i);
                assert(old.contains(i));
            }
        }
        if 0 <= i < n && want(i) {
            if i < n - 1 {
                assert(old.contains(i));
                let k = old.index_of(i);
                assert(new[k] == i);
            } else {
                assert(new[old.len() as int] == i);
            }
        }
    }
}

/// The roots are the blocks that no block encloses, all of them, in order.
pub proof fn roots_are_all(blocks: Seq<BlockView>)
    ensures
        picks(roots_of(blocks), blocks.len() as int, |i: int| blocks[i].parent is None),
{
    roots_upto_are(blocks, blocks.len() as int);
}

/// The blocks that start in a range are those whose first byte lies in it, all of
/// them, in order.
pub proof fn starting_are_all(blocks: Seq<BlockView>, from: int, to: int, n: int)
    requires
        0 <= n <= blocks.len(),
    ensures
        picks(
            starting_in(blocks, from, to, n),
            n,
            |i: int| from <= blocks[i].span.start < to,
        ),
    decreases n,
{
    if n > 0 {
        starting_are_all(blocks, from, to, n - 1);
        picks_one_more(
            starting_in(blocks, from, to, n - 1),
            starting_in(blocks, from, to, n),
            n,
            |i: int| from <= blocks[i].span.start < to,
        );
    }
}

proof fn run_end_stops(blocks: Seq<BlockView>, idx: int, end: int)
    requires
        0 <= end <= blocks.len(),
    ensures
        run_end(blocks, idx, end) < blocks.len() ==> !inside(
            blocks,
            run_end(blocks, idx, end),
            idx,
        ),
    decreases blocks.len() - end,
{
    if end < blocks.len() && inside(blocks, end, idx) {
        run_end_stops(blocks, idx, end + 1);
    }
}

/// What goes with a block are the blocks right after it that are inside it, up to the
/// first that is not.
pub proof fn a_subtree_is_what_is_inside(blocks: Seq<BlockView>, idx: int)
    requires
        0 <= idx < blocks.len(),
    ensures
        idx < subtree_to(blocks, idx) <= blocks.len(),
        forall|i: int| idx < i < subtree_to(blocks, idx) ==> inside(blocks, i, idx),
        subtree_to(blocks, idx) < blocks.len() ==> !inside(blocks, subtree_to(blocks, idx), idx),
{
    run_end_bounds(blocks, idx, idx + 1);
    run_end_stops(blocks, idx, idx + 1);
}

/// Outermost first, each of the blocks around a block is the parent of the next one, and
/// the last is the block's own parent; the first has none.
pub proof fn ancestors_are_parents(blocks: Seq<BlockView>, i: int)
    requires
        0 <= i < blocks.len(),
        parents_first(blocks),
    ensures
        ({
            let up = ancestors_of(blocks, i);
            &&& up.len() == 0 <==> blocks[i].parent is None
            &&& up.len() > 0 ==> blocks[i].parent == Some(up.last() as u32) && blocks[up[0]].parent
                is None
            &&& forall|k: int|
                0 <= k < up.len() - 1 ==> blocks[#[trigger] up[k + 1]].parent == Some(up[k] as u32)
            &&& forall|k: int| 0 <= k < up.len() ==> 0 <= #[trigger] up[k] < i
        }),
    decreases i,
{
    if let Some(p) = blocks[i].parent {
        assert(p < i);
        ancestors_are_parents(blocks, p as int);
        let up = ancestors_of(blocks, i);
        let before = ancestors_of(blocks, p as int);
        assert forall|k: int| 0 <= k < up.len() - 1 implies blocks[#[trigger] up[k + 1]].parent
            == Some(up[k] as u32) by {
            if k + 1 < before.len() {
                assert(up[k + 1] == before[k + 1] && up[k] == before[k]);
            } else {
                assert(up[k + 1] == p && up[k] == before.last());
            }
        }
        assert forall|k: int| 0 <= k < up.len() implies 0 <= #[trigger] up[k] < i by {
            if k < before.len() {
                assert(up[k] == before[k]);
            }
        }
        if before.len() > 0 {
            assert(up[0] == before[0]);
        }
    }
}

proof fn block_at_line_is_first(
    blocks: Seq<BlockView>,
    at: int,
    kind: Option<BlockKind>,
    i: int,
)
    requires
        0 <= i,
    ensures
        match block_at_line(blocks, at, kind, i) {
            Some(k) => {
                &&& i <= k < blocks.len()
                &&& blocks[k].span.start == at
                &&& kind is None || kind == Some(blocks[k].kind)
                &&& forall|j: int|
                    i <= j < k && (#[trigger] blocks[j]).span.start == at ==> kind is Some && kind
                        != Some(blocks[j].kind)
            },
            None => forall|j: int|
                i <= j < blocks.len() && (#[trigger] blocks[j]).span.start == at ==> kind is Some
                    && kind != Some(blocks[j].kind),
        },
    decreases blocks.len() - i,
{
    if i < blocks.len() {
        block_at_line_is_first(blocks, at, kind, i + 1);
    }
}

/// The block on a line is one that starts there: the first of the expected kind; where
/// there is none of it, the first of any; none only where no block starts there.
pub proof fn the_block_on_a_line_starts_there(blocks: Seq<BlockView>, at: int, kind: BlockKind)
    ensures
        match root_at(blocks, at, kind) {
            Some(k) => {
                &&& 0 <= k < blocks.len()
                &&& blocks[k].span.start == at
                &&& blocks[k].kind == kind ==> forall|j: int|
                    0 <= j < k && (#[trigger] blocks[j]).span.start == at ==> blocks[j].kind
                        != kind
                &&& blocks[k].kind != kind ==> forall|j: int|
                    0 <= j < blocks.len() && (#[trigger] blocks[j]).span.start == at ==> k <= j
                        && blocks[j].kind != kind
            },
            None => forall|j: int|
                0 <= j < blocks.len() ==> (#[trigger] blocks[j]).span.start != at,
        },
{
    block_at_line_is_first(blocks, at, Some(kind), 0);
    block_at_line_is_first(blocks, at, None, 0);
}

proof fn marked_is_first(blocks: Seq<BlockView>, marker: Seq<char>, i: int, to: int)
    ensures
        match marked(blocks, marker, i, to) {
            Some(h) => {
                &&& i <= h < to
                &&& blocks[h].block_ref_id == Some(marker)
                &&& forall|j: int|
                    i <= j < h ==> (#[trigger] blocks[j]).block_ref_id != Some(marker)
            },
            None => forall|j: int|
                i <= j < to ==> (#[trigger] blocks[j]).block_ref_id != Some(marker),
        },
    decreases to - i,
{
    if i < to {
        marked_is_first(blocks, marker, i + 1, to);
    }
}

proof fn holder_is_first(blocks: Seq<BlockView>, roots: Seq<int>, marker: Seq<char>, k: int)
    requires
        0 <= k,
    ensures
        match holder(blocks, roots, marker, k) {
            Some(h) => blocks[h].block_ref_id == Some(marker) && exists|r: int|
                k <= r < roots.len() && #[trigger] roots[r] <= h < subtree_to(blocks, roots[r]),
            None => forall|r: int, j: int|
                k <= r < roots.len() && #[trigger] roots[r] <= j < subtree_to(blocks, roots[r])
                    ==> (#[trigger] blocks[j]).block_ref_id != Some(marker),
        },
    decreases roots.len() - k,
{
    if k < roots.len() {
        marked_is_first(blocks, marker, roots[k], subtree_to(blocks, roots[k]));
        holder_is_first(blocks, roots, marker, k + 1);
        if marked(blocks, marker, roots[k], subtree_to(blocks, roots[k])) is Some {
            let h = holder(blocks, roots, marker, k)->0;
            assert(roots[k] <= h < subtree_to(blocks, roots[k]));
        } else if let Some(h) = holder(blocks, roots, marker, k + 1) {
            let r = choose|r: int|
                k + 1 <= r < roots.len() && #[trigger] roots[r] <= h < subtree_to(blocks, roots[r]);
            assert(roots[r] <= h < subtree_to(blocks, roots[r]));
        }
    }
}

/// What holds a marker has it, and is one of the given blocks or inside one; nothing
/// holds it only where none of them has it.
pub proof fn a_marker_is_held_by_what_has_it(
    blocks: Seq<BlockView>,
    roots: Seq<int>,
    marker: Option<Seq<char>>,
)
    ensures
        match holder_of(blocks, roots, marker) {
            Some(h) => marker is Some && blocks[h].block_ref_id == marker && exists|r: int|
                0 <= r < roots.len() && #[trigger] roots[r] <= h < subtree_to(blocks, roots[r]),
            None => marker is None || forall|r: int, j: int|
                0 <= r < roots.len() && #[trigger] roots[r] <= j < subtree_to(blocks, roots[r])
                    ==> (#[trigger] blocks[j]).block_ref_id != marker,
        },
{
    if let Some(m) = marker {
        holder_is_first(blocks, roots, m, 0);
    }
}

} // verus!
