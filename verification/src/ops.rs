//! The five block operations: byte-surgical edits of a note, each followed by a
//! parse of the whole note.

use vstd::prelude::*;
use vstd::string::*;
use vstd::utf8::*;

use crate::commit::{
    an_operation_keeps_ids, commit_fault, index_view, kept_pairs, old_rest, one_to_one, op_write_is,
    pairs_view, pinned_new, pinned_old, pins_in_range, plan_ok, same_block, what_is_added_is_minted,
    what_is_replaced_is_gone, NoteCtx, OpPlan, OpWrite, PlanView,
};
use crate::document::{Block, BlockKind, BlockView};
use crate::faults::{Op, OpFault};
use crate::frame::copy_ids;
use crate::history::{find_row, position, position_facts};
use crate::ids::Uuid;
use crate::note::{
    ascending, first_escape, note_of, note_ok, parse_note, placeable, NoteFault, NoteView,
    ParsedNote,
};
use crate::parse::{document, parents_first};
use crate::rows::{Extra, ExtraView};
use crate::splice::{
    content_end, content_end_of, cut, cut_bytes, decorate, decorated, get, landing, line_start,
    line_start_of, lines_moved, marker_of, move_lines, move_tiles, newlines_at_end, rebuild_body,
    remark_item, remarked, seamed_all, slice_marker, splice_replace, spliced, tile_moved,
    trailing_newlines, Splice, SpliceView,
};
use crate::store::{source_of, BlockRow, RowView};
use crate::text::{concat, concat_all, encode_concat, trim_end, trimmed_end, CharSet};
use crate::tree::{
    all_below, ancestors, ancestors_ascend, ancestors_of, block_at_line, blocks_starting_in,
    contiguous, find_root_at, has_container_children, has_containers, holder_of, indices, inside,
    is_top_level_child, marker_holder, own_cut, own_range, root_at, roots, roots_of, span_end_of,
    spans_to, starting_in, subtree_bounds, subtree_end, subtree_to, top_level_child,
};
use crate::write::unheard_of;

verus! {

/// The note that a source is, where its blocks lie inside its tiles.
pub open spec fn parsed_as(source: Seq<char>) -> Option<NoteView> {
    let doc = document(source);
    if ascending(doc.top_level) && placeable(doc) {
        Some(note_of(source, doc))
    } else {
        None
    }
}

fn reparse(source: &str) -> (r: Option<ParsedNote>)
    ensures
        match r {
            Some(p) => parsed_as(source@) == Some(p.deep_view()) && note_ok(p.deep_view()),
            None => parsed_as(source@) is None,
        },
{
    match parse_note(source) {
        Ok(p) => Some(p),
        Err(e) => {
            proof {
                if let NoteFault::BlockEscapes { start, end } = e {
                    let i = choose|i: int|
                        {
                            &&& #[trigger] first_escape(document(source@), i)
                            &&& start == document(source@).blocks[i].span.start
                            &&& end == document(source@).blocks[i].span.end
                        };
                    assert(first_escape(document(source@), i));
                }
            }
            None
        },
    }
}

/// The fragment that a text is: a note without frontmatter.
pub open spec fn fragment_of(text: Seq<char>) -> Result<NoteView, OpFault> {
    match parsed_as(text) {
        Some(note) => if note.doc.preamble.end != 0 {
            Err(OpFault::Frontmatter)
        } else {
            Ok(note)
        },
        None => Err(OpFault::Unparsable),
    }
}

/// A fragment and its roots: how many blocks it counts as.
#[derive(Debug)]
pub struct Fragment {
    pub parsed: ParsedNote,
    pub roots: Vec<usize>,
}

/// Parses a fragment.
pub fn parse_fragment(text: &str) -> (r: Result<Fragment, OpFault>)
    ensures
        match r {
            Ok(f) => {
                &&& fragment_of(text@) == Ok::<NoteView, OpFault>(f.parsed.deep_view())
                &&& note_ok(f.parsed.deep_view())
                &&& indices(f.roots@) == roots_of(f.parsed.deep_view().doc.blocks)
                &&& forall|k: int|
                    0 <= k < f.roots.len() ==> #[trigger] f.roots[k] < f.parsed.doc.blocks.len()
            },
            Err(e) => fragment_of(text@) == Err::<NoteView, OpFault>(e),
        },
{
    match reparse(text) {
        Some(parsed) => {
            if parsed.doc.preamble.end != 0 {
                Err(OpFault::Frontmatter)
            } else {
                let roots = roots(&parsed.doc.blocks);
                Ok(Fragment { parsed, roots })
            }
        },
        None => Err(OpFault::Unparsable),
    }
}

/// A root of the fragment has container children.
pub open spec fn nested(blocks: Seq<BlockView>, roots: Seq<int>) -> bool {
    exists|k: int| 0 <= k < roots.len() && #[trigger] has_containers(blocks, roots[k])
}

/// Whether a root of the fragment has container children.
pub fn fragment_has_container_children(frag: &Fragment) -> (r: bool)
    requires
        forall|k: int|
            0 <= k < frag.roots.len() ==> #[trigger] frag.roots[k] < frag.parsed.doc.blocks.len(),
    ensures
        r == nested(frag.parsed.deep_view().doc.blocks, indices(frag.roots@)),
{
    let ghost v = frag.parsed.deep_view().doc.blocks;
    let ghost rs = indices(frag.roots@);
    let mut k: usize = 0;
    while k < frag.roots.len()
        invariant
            k <= frag.roots.len(),
            v == frag.parsed.deep_view().doc.blocks,
            rs == indices(frag.roots@),
            forall|k: int|
                0 <= k < frag.roots.len() ==> #[trigger] frag.roots[k]
                    < frag.parsed.doc.blocks.len(),
            forall|j: int| 0 <= j < k ==> !#[trigger] has_containers(v, rs[j]),
        decreases frag.roots.len() - k,
    {
        assert(rs[k as int] == frag.roots[k as int]);
        if has_container_children(&frag.parsed.doc.blocks, frag.roots[k]) {
            assert(has_containers(v, rs[k as int]));
            return true;
        }
        k += 1;
    }
    false
}

/// The decoration of a block's first line that stays: what encloses it, and its
/// own marker unless the fragment brings one.
pub open spec fn kept_width(b: BlockView, item: bool) -> int {
    if b.kind == BlockKind::ListItem && item {
        b.first_line_strip_outer as int
    } else {
        b.first_line_strip_full as int
    }
}

/// The prefix of the lines that follow.
pub open spec fn line_prefix_for(b: BlockView, item: bool) -> Seq<char> {
    if item {
        b.line_prefix
    } else {
        b.cont_prefix
    }
}

/// The source with a region replaced by a fragment in the place of a block, and
/// the note that it is then.
pub open spec fn replaced(
    src: Seq<char>,
    deco: BlockView,
    start: int,
    end: int,
    text: Seq<char>,
    item: bool,
) -> Result<(SpliceView, NoteView), OpFault> {
    match spliced(src, start, end, kept_width(deco, item), text, line_prefix_for(deco, item)) {
        Some(sp) => match parsed_as(sp.source) {
            Some(probe) => Ok((sp, probe)),
            None => Err(OpFault::Unparsable),
        },
        None => Err(OpFault::Unsliceable),
    }
}

fn replace_region(
    src: &str,
    deco: &Block,
    start: usize,
    end: usize,
    text: &str,
    item: bool,
) -> (r: Result<(Splice, ParsedNote), OpFault>)
    ensures
        match r {
            Ok((sp, probe)) => {
                &&& replaced(src@, deco.deep_view(), start as int, end as int, text@, item) == Ok::<
                    (SpliceView, NoteView),
                    OpFault,
                >((sp.deep_view(), probe.deep_view()))
                &&& note_ok(probe.deep_view())
            },
            Err(f) => replaced(src@, deco.deep_view(), start as int, end as int, text@, item)
                == Err::<(SpliceView, NoteView), OpFault>(f),
        },
{
    let keep = if deco.kind == BlockKind::ListItem && item {
        deco.first_line_strip_outer
    } else {
        deco.first_line_strip_full
    };
    let prefix = if item {
        deco.line_prefix.as_str()
    } else {
        deco.cont_prefix.as_str()
    };
    match splice_replace(src, start, end, keep, text, prefix) {
        Some(sp) => match reparse(sp.source.as_str()) {
            Some(probe) => Ok((sp, probe)),
            None => Err(OpFault::Unparsable),
        },
        None => Err(OpFault::Unsliceable),
    }
}

/// The ancestors of a block pinned to those of the block that it became.
pub open spec fn ancestor_pairs(
    old: Seq<BlockView>,
    old_idx: int,
    new: Seq<BlockView>,
    new_idx: int,
) -> Result<Seq<(int, int)>, OpFault> {
    let a = ancestors_of(old, old_idx);
    let b = ancestors_of(new, new_idx);
    if a.len() != b.len() {
        Err(OpFault::Nesting { before: a.len() as usize, after: b.len() as usize })
    } else {
        Ok(Seq::new(a.len(), |i: int| (a[i], b[i])))
    }
}

/// Pins the ancestors of a block to those of the block that it became: the edit
/// is inside them, so nothing else carries their ids.
pub fn ancestor_pins(old: &Vec<Block>, old_idx: usize, new: &Vec<Block>, new_idx: usize) -> (r:
    Result<Vec<(usize, usize)>, OpFault>)
    requires
        old_idx < old.len(),
        new_idx < new.len(),
        parents_first(old.deep_view()),
        parents_first(new.deep_view()),
    ensures
        match r {
            Ok(pins) => {
                &&& ancestor_pairs(
                    old.deep_view(),
                    old_idx as int,
                    new.deep_view(),
                    new_idx as int,
                ) == Ok::<Seq<(int, int)>, OpFault>(pairs_view(pins@))
                &&& one_to_one(pairs_view(pins@))
                &&& forall|k: int|
                    0 <= k < pins.len() ==> (#[trigger] pins[k]).0 < old_idx && pins[k].1 < new_idx
            },
            Err(f) => ancestor_pairs(
                old.deep_view(),
                old_idx as int,
                new.deep_view(),
                new_idx as int,
            ) == Err::<Seq<(int, int)>, OpFault>(f),
        },
{
    let a = ancestors(old, old_idx);
    let b = ancestors(new, new_idx);
    let ghost av = ancestors_of(old.deep_view(), old_idx as int);
    let ghost bv = ancestors_of(new.deep_view(), new_idx as int);
    assert(av == indices(a@) && bv == indices(b@));
    assert(av.len() == a.len() && bv.len() == b.len());
    if a.len() != b.len() {
        return Err(OpFault::Nesting { before: a.len(), after: b.len() });
    }
    let mut pins: Vec<(usize, usize)> = Vec::new();
    let mut i: usize = 0;
    while i < a.len()
        invariant
            i <= a.len() == b.len(),
            pins.len() == i,
            forall|k: int| 0 <= k < i ==> #[trigger] pins[k] == (a[k], b[k]),
        decreases a.len() - i,
    {
        pins.push((a[i], b[i]));
        i += 1;
    }
    proof {
        ancestors_ascend(old.deep_view(), old_idx as int);
        ancestors_ascend(new.deep_view(), new_idx as int);
        let v = pairs_view(pins@);
        assert(v =~= Seq::new(av.len(), |i: int| (av[i], bv[i])));
        assert forall|i: int, j: int| 0 <= i < j < v.len() implies (#[trigger] v[i]).0 != (
        #[trigger] v[j]).0 && v[i].1 != v[j].1 by {
            assert(av[i] < av[j] && bv[i] < bv[j]);
        }
        assert forall|k: int| 0 <= k < pins.len() implies (#[trigger] pins[k]).0 < old_idx
            && pins[k].1 < new_idx by {
            assert(av[k] == a[k] && bv[k] == b[k]);
        }
    }
    Ok(pins)
}

/// A plan, or why there is none, as a function says it.
pub open spec fn agrees(
    r: Result<OpPlan, OpFault>,
    want: Result<PlanView, OpFault>,
    old_len: int,
) -> bool {
    match r {
        Ok(p) => want == Ok::<PlanView, OpFault>(p.deep_view()) && plan_ok(old_len, p.deep_view()),
        Err(f) => want == Err::<PlanView, OpFault>(f),
    }
}

// ---- update ----

/// The bytes of a block's own content, or why there are none.
pub open spec fn own_region(note: NoteView, idx: int) -> Result<(int, int), OpFault> {
    let b = note.doc.blocks[idx];
    let at = own_cut(note.doc.blocks, idx);
    let raw = if at <= b.span.end {
        at
    } else {
        b.span.end as int
    };
    if !contiguous(note.doc.blocks, idx) {
        Err(OpFault::NonContiguous)
    } else {
        match content_end_of(note.source, b.span.start as int, raw) {
            Some(end) => Ok((b.span.start as int, end)),
            None => Err(OpFault::Unsliceable),
        }
    }
}

fn find_own_region(note: &ParsedNote, idx: usize) -> (r: Result<(usize, usize), OpFault>)
    requires
        idx < note.doc.blocks.len(),
    ensures
        own_region(note.deep_view(), idx as int) == (match r {
            Ok((a, b)) => Ok::<(int, int), OpFault>((a as int, b as int)),
            Err(f) => Err::<(int, int), OpFault>(f),
        }),
{
    match own_range(&note.doc.blocks, idx) {
        Some((start, raw)) => match content_end(note.source.as_str(), start, raw) {
            Some(end) => Ok((start, end)),
            None => Err(OpFault::Unsliceable),
        },
        None => Err(OpFault::NonContiguous),
    }
}

/// What follows the splice of an update or a split or a merge: the block that
/// the target became is pinned to it, with its ancestors, and ids are carried
/// between their subtrees.
pub open spec fn pinned_plan(
    op: Op,
    old: Seq<BlockView>,
    anchor: int,
    target: int,
    region: (int, int),
    probe: NoteView,
    edit: (int, int),
    pin: int,
    marker_to: Option<int>,
    extra: ExtraView,
    results: Seq<int>,
) -> Result<PlanView, OpFault> {
    match ancestor_pairs(old, anchor, probe.doc.blocks, pin) {
        Ok(pins) => Ok(
            PlanView {
                op,
                probe,
                old_region: Some(region),
                edit_range: Some(edit),
                pins: pins.push((target, pin)),
                strict: false,
                scoped: Some(
                    (
                        (target + 1, subtree_to(old, target)),
                        (pin + 1, subtree_to(probe.doc.blocks, pin)),
                    ),
                ),
                marker_to,
                extra,
                results,
            },
        ),
        Err(f) => Err(f),
    }
}

/// The plan of an update.
pub open spec fn update_plan(
    note: NoteView,
    rows: Seq<RowView>,
    idx: int,
    text: Seq<char>,
) -> Result<PlanView, OpFault> {
    let old = note.doc.blocks;
    match fragment_of(text) {
        Err(f) => Err(f),
        Ok(frag) => {
            let fb = frag.doc.blocks;
            let roots = roots_of(fb);
            if roots.len() != 1 {
                Err(OpFault::UpdateArity { found: roots.len() as usize })
            } else if nested(fb, roots) {
                Err(OpFault::NestedContainers)
            } else {
                let froot = fb[roots[0]];
                let item = froot.kind == BlockKind::ListItem;
                if has_containers(old, idx) && !item {
                    Err(OpFault::MustStayItem)
                } else {
                    match own_region(note, idx) {
                        Err(f) => Err(f),
                        Ok((start, end)) => match cut(
                            frag.source,
                            froot.span.start as int,
                            froot.span.end as int,
                        ) {
                            None => Err(OpFault::Unsliceable),
                            Some(body) => match replaced(
                                note.source,
                                old[idx],
                                start,
                                end,
                                body,
                                item,
                            ) {
                                Err(f) => Err(f),
                                Ok((sp, probe)) => match root_at(
                                    probe.doc.blocks,
                                    sp.line_start,
                                    froot.kind,
                                ) {
                                    None => Err(OpFault::UpdateDissolved),
                                    Some(pin) => pinned_plan(
                                        Op::Update,
                                        old,
                                        idx,
                                        idx,
                                        (idx, subtree_to(old, idx)),
                                        probe,
                                        sp.edit,
                                        pin,
                                        None,
                                        ExtraView::Target(rows[idx].id),
                                        seq![pin],
                                    ),
                                },
                            },
                        },
                    }
                }
            }
        },
    }
}

/// Plans an update: the block at `idx` is replaced by the one block of a
/// fragment, and keeps its id.
pub fn update_block(ctx: &NoteCtx, idx: usize, text: &str) -> (r: Result<OpPlan, OpFault>)
    requires
        ctx.ok(),
        idx < ctx.rows.len(),
    ensures
        agrees(
            r,
            update_plan(ctx.parsed.deep_view(), ctx.rows.deep_view(), idx as int, text@),
            ctx.rows.len() as int,
        ),
{
    let ghost note = ctx.parsed.deep_view();
    let old = &ctx.parsed.doc.blocks;
    let frag = match parse_fragment(text) {
        Ok(f) => f,
        Err(f) => {
            return Err(f);
        },
    };
    let ghost fv = frag.parsed.deep_view();
    assert(roots_of(fv.doc.blocks).len() == frag.roots.len());
    if frag.roots.len() != 1 {
        return Err(OpFault::UpdateArity { found: frag.roots.len() });
    }
    if fragment_has_container_children(&frag) {
        return Err(OpFault::NestedContainers);
    }
    let froot = &frag.parsed.doc.blocks[frag.roots[0]];
    assert(roots_of(fv.doc.blocks)[0] == frag.roots[0]);
    assert(fv.doc.blocks[frag.roots[0] as int] == froot.deep_view());
    assert(note.doc.blocks[idx as int] == old[idx as int].deep_view());
    let item = froot.kind == BlockKind::ListItem;
    if has_container_children(old, idx) && !item {
        return Err(OpFault::MustStayItem);
    }
    let (start, end) = match find_own_region(ctx.parsed, idx) {
        Ok(x) => x,
        Err(f) => {
            return Err(f);
        },
    };
    let body = match get(frag.parsed.source.as_str(), froot.span.start, froot.span.end) {
        Some(b) => b,
        None => {
            return Err(OpFault::Unsliceable);
        },
    };
    let (sp, probe) = match replace_region(
        ctx.parsed.source.as_str(),
        &old[idx],
        start,
        end,
        body,
        item,
    ) {
        Ok(x) => x,
        Err(f) => {
            return Err(f);
        },
    };
    let pin = match find_root_at(&probe.doc.blocks, sp.line_start, froot.kind) {
        Some(p) => p,
        None => {
            return Err(OpFault::UpdateDissolved);
        },
    };
    let mut results: Vec<usize> = Vec::new();
    results.push(pin);
    proof {
        assert(indices(results@) =~= seq![pin as int]);
    }
    let sub_end = subtree_end(old, idx);
    pin_plan(
        Op::Update,
        old,
        idx,
        idx,
        (idx, sub_end),
        probe,
        sp.edit,
        pin,
        None,
        Extra::Target(ctx.rows[idx].id),
        results,
    )
}

fn pin_plan(
    op: Op,
    old: &Vec<Block>,
    anchor: usize,
    target: usize,
    region: (usize, usize),
    probe: ParsedNote,
    edit: (usize, usize),
    pin: usize,
    marker_to: Option<usize>,
    extra: Extra,
    results: Vec<usize>,
) -> (r: Result<OpPlan, OpFault>)
    requires
        anchor <= target < old.len(),
        parents_first(old.deep_view()),
        note_ok(probe.deep_view()),
        pin < probe.doc.blocks.len(),
        marker_to matches Some(m) ==> m < probe.doc.blocks.len(),
        all_below(indices(results@), probe.doc.blocks.len() as int),
    ensures
        agrees(
            r,
            pinned_plan(
                op,
                old.deep_view(),
                anchor as int,
                target as int,
                (region.0 as int, region.1 as int),
                probe.deep_view(),
                (edit.0 as int, edit.1 as int),
                pin as int,
                index_view(marker_to),
                extra@,
                indices(results@),
            ),
            old.len() as int,
        ),
{
    let ghost pv = probe.deep_view();
    assert(pv.doc.blocks == probe.doc.blocks.deep_view());
    assert(pv.doc.blocks.len() == probe.doc.blocks.len());
    let mut pins = match ancestor_pins(old, anchor, &probe.doc.blocks, pin) {
        Ok(p) => p,
        Err(f) => {
            return Err(f);
        },
    };
    let old_end = subtree_end(old, target);
    let new_end = subtree_end(&probe.doc.blocks, pin);
    let ghost before = pairs_view(pins@);
    let ghost pins0 = pins@;
    pins.push((target, pin));
    proof {
        let v = pairs_view(pins@);
        assert(v =~= before.push((target as int, pin as int)));
        assert forall|i: int, j: int| 0 <= i < j < v.len() implies (#[trigger] v[i]).0 != (
        #[trigger] v[j]).0 && v[i].1 != v[j].1 by {
            assert(v[i] == before[i]);
            assert(pins0[i].0 < anchor && pins0[i].1 < pin);
            if j < before.len() {
                assert(v[j] == before[j]);
            }
        }
    }
    Ok(
        OpPlan {
            op,
            probe,
            old_region: Some(region),
            edit_range: Some(edit),
            pins,
            pin_hash_strict: false,
            scoped: Some(((target + 1, old_end), (pin + 1, new_end))),
            marker_to,
            extra,
            results,
        },
    )
}

// ---- split ----

/// The blocks among the first `n` that start in a byte range and have these
/// ancestors.
pub open spec fn siblings_in(
    blocks: Seq<BlockView>,
    from: int,
    to: int,
    enclosing: Seq<int>,
    n: int,
) -> Seq<int>
    decreases n,
{
    if n <= 0 {
        Seq::empty()
    } else if from <= blocks[n - 1].span.start < to && ancestors_of(blocks, n - 1) == enclosing {
        siblings_in(blocks, from, to, enclosing, n - 1).push(n - 1)
    } else {
        siblings_in(blocks, from, to, enclosing, n - 1)
    }
}

fn same_indices(a: &Vec<usize>, b: &Vec<usize>) -> (r: bool)
    ensures
        r == (indices(a@) == indices(b@)),
{
    if a.len() != b.len() {
        assert(indices(a@).len() != indices(b@).len());
        return false;
    }
    let mut i: usize = 0;
    while i < a.len()
        invariant
            i <= a.len() == b.len(),
            forall|k: int| 0 <= k < i ==> #[trigger] a[k] == b[k],
        decreases a.len() - i,
    {
        if a[i] != b[i] {
            assert(indices(a@)[i as int] != indices(b@)[i as int]);
            return false;
        }
        i += 1;
    }
    assert(indices(a@) =~= indices(b@));
    true
}

fn find_siblings_in(blocks: &Vec<Block>, from: usize, to: usize, of: usize) -> (r: Vec<usize>)
    requires
        of < blocks.len(),
        parents_first(blocks.deep_view()),
    ensures
        indices(r@) == siblings_in(
            blocks.deep_view(),
            from as int,
            to as int,
            ancestors_of(blocks.deep_view(), of as int),
            blocks.len() as int,
        ),
        all_below(indices(r@), blocks.len() as int),
{
    let ghost v = blocks.deep_view();
    let enclosing = ancestors(blocks, of);
    let mut out: Vec<usize> = Vec::new();
    let mut i: usize = 0;
    proof {
        assert(indices(out@) =~= Seq::<int>::empty());
    }
    while i < blocks.len()
        invariant
            i <= blocks.len(),
            v == blocks.deep_view(),
            parents_first(v),
            indices(out@) == siblings_in(
                v,
                from as int,
                to as int,
                indices(enclosing@),
                i as int,
            ),
            forall|k: int| 0 <= k < out.len() ==> #[trigger] out[k] < blocks.len(),
        decreases blocks.len() - i,
    {
        assert(v[i as int] == blocks[i as int].deep_view());
        let here = from <= blocks[i].span.start && blocks[i].span.start < to;
        if here && same_indices(&ancestors(blocks, i), &enclosing) {
            let ghost before = indices(out@);
            out.push(i);
            assert(indices(out@) =~= before.push(i as int));
        }
        i += 1;
    }
    out
}

/// Every root of the fragment is a list item.
pub open spec fn all_items(blocks: Seq<BlockView>, roots: Seq<int>) -> bool {
    forall|k: int|
        0 <= k < roots.len() ==> (#[trigger] blocks[roots[k]]).kind == BlockKind::ListItem
}

fn roots_are_items(frag: &Fragment) -> (r: bool)
    requires
        forall|k: int|
            0 <= k < frag.roots.len() ==> #[trigger] frag.roots[k] < frag.parsed.doc.blocks.len(),
    ensures
        r == all_items(frag.parsed.deep_view().doc.blocks, indices(frag.roots@)),
{
    let ghost v = frag.parsed.deep_view().doc.blocks;
    let ghost rs = indices(frag.roots@);
    let mut k: usize = 0;
    while k < frag.roots.len()
        invariant
            k <= frag.roots.len(),
            v == frag.parsed.deep_view().doc.blocks,
            rs == indices(frag.roots@),
            forall|k: int|
                0 <= k < frag.roots.len() ==> #[trigger] frag.roots[k]
                    < frag.parsed.doc.blocks.len(),
            forall|j: int| 0 <= j < k ==> (#[trigger] v[rs[j]]).kind == BlockKind::ListItem,
        decreases frag.roots.len() - k,
    {
        let r = frag.roots[k];
        assert(rs[k as int] == r);
        assert(v[r as int] == frag.parsed.doc.blocks[r as int].deep_view());
        if frag.parsed.doc.blocks[r].kind != BlockKind::ListItem {
            assert(v[rs[k as int]].kind != BlockKind::ListItem);
            return false;
        }
        k += 1;
    }
    true
}

/// The plan of a split.
pub open spec fn split_plan(
    note: NoteView,
    rows: Seq<RowView>,
    idx: int,
    text: Seq<char>,
) -> Result<PlanView, OpFault> {
    let old = note.doc.blocks;
    match fragment_of(text) {
        Err(f) => Err(f),
        Ok(frag) => {
            let fb = frag.doc.blocks;
            let roots = roots_of(fb);
            if roots.len() < 2 {
                Err(OpFault::SplitArity { found: roots.len() as usize })
            } else if nested(fb, roots) {
                Err(OpFault::NestedContainers)
            } else if has_containers(old, idx) {
                Err(OpFault::SplitContainer)
            } else if old[idx].kind == BlockKind::ListItem && !all_items(fb, roots) {
                Err(OpFault::SplitNotItems)
            } else {
                let froot = fb[roots[0]];
                match own_region(note, idx) {
                    Err(f) => Err(f),
                    Ok((start, end)) => match replaced(
                        note.source,
                        old[idx],
                        start,
                        end,
                        frag.source,
                        froot.kind == BlockKind::ListItem,
                    ) {
                        Err(f) => Err(f),
                        Ok((sp, probe)) => split_pinned(note, rows, idx, roots.len(), froot, sp, probe),
                    },
                }
            }
        },
    }
}

/// What follows the splice of a split: its pieces are the siblings of the first
/// one in the edited range, as many as the fragment has blocks.
pub open spec fn split_pinned(
    note: NoteView,
    rows: Seq<RowView>,
    idx: int,
    pieces: nat,
    froot: BlockView,
    sp: SpliceView,
    probe: NoteView,
) -> Result<PlanView, OpFault> {
    let old = note.doc.blocks;
    let new = probe.doc.blocks;
    match root_at(new, sp.line_start, froot.kind) {
        None => Err(OpFault::SplitDissolved),
        Some(first) => match ancestor_pairs(old, idx, new, first) {
            Err(f) => Err(f),
            Ok(_) => {
                let found = siblings_in(
                    new,
                    sp.edit.0,
                    sp.edit.1,
                    ancestors_of(new, first),
                    new.len() as int,
                );
                if found.len() != pieces {
                    Err(OpFault::SplitMerged { expected: pieces as usize, found: found.len() as usize })
                } else {
                    pinned_plan(
                        Op::Split,
                        old,
                        idx,
                        idx,
                        (idx, subtree_to(old, idx)),
                        probe,
                        sp.edit,
                        first,
                        holder_of(new, found, old[idx].block_ref_id),
                        ExtraView::Split { from: rows[idx].id },
                        found,
                    )
                }
            },
        },
    }
}

/// Plans a split: the block at `idx` is replaced by the blocks of a fragment; the
/// first keeps its id.
pub fn split_block(ctx: &NoteCtx, idx: usize, text: &str) -> (r: Result<OpPlan, OpFault>)
    requires
        ctx.ok(),
        idx < ctx.rows.len(),
    ensures
        agrees(
            r,
            split_plan(ctx.parsed.deep_view(), ctx.rows.deep_view(), idx as int, text@),
            ctx.rows.len() as int,
        ),
{
    let ghost note = ctx.parsed.deep_view();
    let old = &ctx.parsed.doc.blocks;
    let frag = match parse_fragment(text) {
        Ok(f) => f,
        Err(f) => {
            return Err(f);
        },
    };
    let ghost fv = frag.parsed.deep_view();
    assert(roots_of(fv.doc.blocks).len() == frag.roots.len());
    if frag.roots.len() < 2 {
        return Err(OpFault::SplitArity { found: frag.roots.len() });
    }
    if fragment_has_container_children(&frag) {
        return Err(OpFault::NestedContainers);
    }
    if has_container_children(old, idx) {
        return Err(OpFault::SplitContainer);
    }
    assert(note.doc.blocks[idx as int] == old[idx as int].deep_view());
    if old[idx].kind == BlockKind::ListItem && !roots_are_items(&frag) {
        return Err(OpFault::SplitNotItems);
    }
    let froot = &frag.parsed.doc.blocks[frag.roots[0]];
    assert(roots_of(fv.doc.blocks)[0] == frag.roots[0]);
    assert(fv.doc.blocks[frag.roots[0] as int] == froot.deep_view());
    let (start, end) = match find_own_region(ctx.parsed, idx) {
        Ok(x) => x,
        Err(f) => {
            return Err(f);
        },
    };
    let (sp, probe) = match replace_region(
        ctx.parsed.source.as_str(),
        &old[idx],
        start,
        end,
        frag.parsed.source.as_str(),
        froot.kind == BlockKind::ListItem,
    ) {
        Ok(x) => x,
        Err(f) => {
            return Err(f);
        },
    };
    let new = &probe.doc.blocks;
    assert(probe.deep_view().doc.blocks == new.deep_view());
    let first = match find_root_at(new, sp.line_start, froot.kind) {
        Some(p) => p,
        None => {
            return Err(OpFault::SplitDissolved);
        },
    };
    if let Err(f) = ancestor_pins(old, idx, new, first) {
        return Err(f);
    }
    let found = find_siblings_in(new, sp.edit.0, sp.edit.1, first);
    assert(indices(found@).len() == found.len());
    if found.len() != frag.roots.len() {
        return Err(OpFault::SplitMerged { expected: frag.roots.len(), found: found.len() });
    }
    let marker = match &old[idx].block_ref_id {
        Some(m) => Some(m.as_str()),
        None => None,
    };
    let marker_to = marker_holder(new, &found, marker);
    let sub_end = subtree_end(old, idx);
    pin_plan(
        Op::Split,
        old,
        idx,
        idx,
        (idx, sub_end),
        probe,
        sp.edit,
        first,
        marker_to,
        Extra::Split { from: ctx.rows[idx].id },
        found,
    )
}

// ---- merge ----

/// Indices with one more, ascending and each once.
pub open spec fn with_index(s: Seq<int>, x: int) -> Seq<int>
    decreases s.len(),
{
    if s.len() == 0 {
        seq![x]
    } else if s[0] == x {
        s
    } else if x < s[0] {
        seq![x] + s
    } else {
        seq![s[0]] + with_index(s.drop_first(), x)
    }
}

/// The rows of the first `n` ids, ascending and each once.
pub open spec fn members(rows: Seq<RowView>, ids: Seq<Uuid>, n: int) -> Seq<int>
    decreases n,
{
    if n <= 0 {
        Seq::empty()
    } else {
        with_index(members(rows, ids, n - 1), position(rows, ids[n - 1], 0)->0)
    }
}

/// The first id from the `k`-th on that no row has.
pub open spec fn first_stranger(rows: Seq<RowView>, ids: Seq<Uuid>, k: int) -> Option<Uuid>
    decreases ids.len() - k,
{
    if k < 0 || k >= ids.len() {
        None
    } else if position(rows, ids[k], 0) is None {
        Some(ids[k])
    } else {
        first_stranger(rows, ids, k + 1)
    }
}

proof fn with_index_after(s: Seq<int>, x: int, n: int)
    requires
        0 <= n <= s.len(),
        forall|i: int| 0 <= i < n ==> #[trigger] s[i] < x,
    ensures
        with_index(s, x) == s.take(n) + with_index(s.skip(n), x),
    decreases n,
{
    if n == 0 {
        assert(s.take(0) + with_index(s, x) =~= with_index(s, x));
        assert(s.skip(0) =~= s);
    } else {
        assert(s[0] < x);
        let t = s.drop_first();
        assert forall|i: int| 0 <= i < n - 1 implies #[trigger] t[i] < x by {
            assert(t[i] == s[i + 1]);
        }
        with_index_after(t, x, n - 1);
        assert(t.skip(n - 1) =~= s.skip(n));
        assert(seq![s[0]] + (t.take(n - 1) + with_index(s.skip(n), x)) =~= s.take(n) + with_index(
            s.skip(n),
            x,
        ));
    }
}

fn insert_index(v: &mut Vec<usize>, x: usize)
    ensures
        indices(final(v)@) == with_index(indices(old(v)@), x as int),
        forall|k: int|
            0 <= k < final(v)@.len() ==> final(v)@[k] == x || old(v)@.contains(
                #[trigger] final(v)@[k],
            ),
{
    let ghost s = indices(v@);
    let ghost v0 = v@;
    let mut i: usize = 0;
    while i < v.len() && v[i] < x
        invariant
            i <= v.len(),
            v0 == v@,
            s == indices(v@),
            forall|j: int| 0 <= j < i ==> #[trigger] s[j] < x,
        decreases v.len() - i,
    {
        i += 1;
    }
    proof {
        with_index_after(s, x as int, i as int);
    }
    let ghost rest = s.skip(i as int);
    if i < v.len() && v[i] == x {
        proof {
            assert(rest[0] == x);
            assert(s.take(i as int) + rest =~= s);
            assert forall|k: int| 0 <= k < v@.len() implies v@[k] == x || v0.contains(
                #[trigger] v@[k],
            ) by {}
        }
        return;
    }
    v.insert(i, x);
    proof {
        if i < v0.len() {
            assert(rest[0] == v0[i as int]);
        }
        assert(with_index(rest, x as int) =~= seq![x as int] + rest);
        assert(indices(v@) =~= s.take(i as int) + (seq![x as int] + rest));
        assert forall|k: int| 0 <= k < v@.len() implies v@[k] == x || v0.contains(
            #[trigger] v@[k],
        ) by {
            if k < i {
                assert(v@[k] == v0[k]);
            } else if k > i {
                assert(v@[k] == v0[k - 1]);
            }
        }
    }
}

fn find_members(rows: &Vec<BlockRow>, ids: &Vec<Uuid>) -> (r: Result<Vec<usize>, OpFault>)
    ensures
        match r {
            Ok(v) => {
                &&& first_stranger(rows.deep_view(), ids@, 0) is None
                &&& indices(v@) == members(rows.deep_view(), ids@, ids.len() as int)
                &&& forall|k: int| 0 <= k < v.len() ==> #[trigger] v[k] < rows.len()
                &&& v.len() > 0 || ids.len() == 0
            },
            Err(f) => {
                &&& first_stranger(rows.deep_view(), ids@, 0) is Some
                &&& f == (OpFault::NotInNote { id: first_stranger(rows.deep_view(), ids@, 0)->0 })
            },
        },
{
    let ghost rv = rows.deep_view();
    let mut out: Vec<usize> = Vec::new();
    let mut i: usize = 0;
    proof {
        assert(indices(out@) =~= Seq::<int>::empty());
    }
    while i < ids.len()
        invariant
            i <= ids.len(),
            rv == rows.deep_view(),
            first_stranger(rv, ids@, 0) == first_stranger(rv, ids@, i as int),
            indices(out@) == members(rv, ids@, i as int),
            forall|k: int| 0 <= k < out.len() ==> #[trigger] out[k] < rows.len(),
            out.len() > 0 || i == 0,
        decreases ids.len() - i,
    {
        match find_row(rows, ids[i]) {
            Some(k) => {
                let ghost before = out@;
                insert_index(&mut out, k);
                proof {
                    assert forall|j: int| 0 <= j < out.len() implies #[trigger] out[j] < rows.len() by {
                        assert(out@[j] == k || before.contains(out@[j]));
                        if before.contains(out@[j]) {
                            let m = choose|m: int| 0 <= m < before.len() && before[m] == out@[j];
                            assert(before[m] < rows.len());
                        }
                    }
                    assert(with_index(indices(before), k as int).len() > 0);
                }
            },
            None => {
                return Err(OpFault::NotInNote { id: ids[i] });
            },
        }
        i += 1;
    }
    Ok(out)
}

/// The first member from the `k`-th on that is no sibling of the first, or does
/// not follow the one before it.
pub open spec fn run_break(blocks: Seq<BlockView>, s: Seq<int>, k: int) -> Option<int>
    decreases s.len() - k,
{
    if k < 0 || k >= s.len() {
        None
    } else {
        let cursor = if k == 0 {
            s[0]
        } else {
            subtree_to(blocks, s[k - 1])
        };
        if blocks[s[k]].parent != blocks[s[0]].parent || s[k] != cursor {
            Some(s[k])
        } else {
            run_break(blocks, s, k + 1)
        }
    }
}

fn same_parent(a: Option<u32>, b: Option<u32>) -> (r: bool)
    ensures
        r == (a == b),
{
    match (a, b) {
        (Some(x), Some(y)) => x == y,
        (None, None) => true,
        _ => false,
    }
}

fn find_run_break(blocks: &Vec<Block>, s: &Vec<usize>) -> (r: Option<usize>)
    requires
        s.len() > 0,
        parents_first(blocks.deep_view()),
        forall|k: int| 0 <= k < s.len() ==> #[trigger] s[k] < blocks.len(),
    ensures
        run_break(blocks.deep_view(), indices(s@), 0) == index_view(r),
{
    let ghost v = blocks.deep_view();
    let ghost sv = indices(s@);
    let mut cursor: usize = s[0];
    let mut k: usize = 0;
    while k < s.len()
        invariant
            k <= s.len(),
            s.len() > 0,
            v == blocks.deep_view(),
            sv == indices(s@),
            parents_first(v),
            forall|k: int| 0 <= k < s.len() ==> #[trigger] s[k] < blocks.len(),
            cursor == (if k == 0 {
                sv[0]
            } else {
                subtree_to(v, sv[k - 1])
            }),
            run_break(v, sv, 0) == run_break(v, sv, k as int),
        decreases s.len() - k,
    {
        let i = s[k];
        assert(sv[k as int] == i && sv[0] == s[0]);
        assert(v[i as int] == blocks[i as int].deep_view());
        assert(v[s[0] as int] == blocks[s[0] as int].deep_view());
        if !same_parent(blocks[i].parent, blocks[s[0]].parent) || i != cursor {
            return Some(i);
        }
        cursor = subtree_end(blocks, i);
        k += 1;
    }
    None
}

/// The first member from the `k`-th on that has this id.
pub open spec fn keeper(rows: Seq<RowView>, s: Seq<int>, id: Uuid, k: int) -> Option<int>
    decreases s.len() - k,
{
    if k < 0 || k >= s.len() {
        None
    } else if rows[s[k]].id == id {
        Some(s[k])
    } else {
        keeper(rows, s, id, k + 1)
    }
}

fn find_keeper(rows: &Vec<BlockRow>, s: &Vec<usize>, id: Uuid) -> (r: Option<usize>)
    requires
        forall|k: int| 0 <= k < s.len() ==> #[trigger] s[k] < rows.len(),
    ensures
        keeper(rows.deep_view(), indices(s@), id, 0) == index_view(r),
        r matches Some(i) ==> s@.contains(i),
{
    let ghost v = rows.deep_view();
    let ghost sv = indices(s@);
    let mut k: usize = 0;
    while k < s.len()
        invariant
            k <= s.len(),
            v == rows.deep_view(),
            sv == indices(s@),
            forall|k: int| 0 <= k < s.len() ==> #[trigger] s[k] < rows.len(),
            keeper(v, sv, id, 0) == keeper(v, sv, id, k as int),
        decreases s.len() - k,
    {
        let i = s[k];
        assert(sv[k as int] == i);
        assert(v[i as int] == rows[i as int].deep_view());
        if rows[i].id == id {
            assert(s@[k as int] == i);
            return Some(i);
        }
        k += 1;
    }
    None
}

/// The first member from the `k`-th on, other than the keeper, that has container
/// children: they would be lost with it.
pub open spec fn loses_children(blocks: Seq<BlockView>, s: Seq<int>, keep: int, k: int) -> Option<
    int,
>
    decreases s.len() - k,
{
    if k < 0 || k >= s.len() {
        None
    } else if s[k] != keep && has_containers(blocks, s[k]) {
        Some(s[k])
    } else {
        loses_children(blocks, s, keep, k + 1)
    }
}

fn find_lost_children(blocks: &Vec<Block>, s: &Vec<usize>, keep: usize) -> (r: Option<usize>)
    requires
        forall|k: int| 0 <= k < s.len() ==> #[trigger] s[k] < blocks.len(),
    ensures
        loses_children(blocks.deep_view(), indices(s@), keep as int, 0) == index_view(r),
{
    let ghost v = blocks.deep_view();
    let ghost sv = indices(s@);
    let mut k: usize = 0;
    while k < s.len()
        invariant
            k <= s.len(),
            v == blocks.deep_view(),
            sv == indices(s@),
            forall|k: int| 0 <= k < s.len() ==> #[trigger] s[k] < blocks.len(),
            loses_children(v, sv, keep as int, 0) == loses_children(v, sv, keep as int, k as int),
        decreases s.len() - k,
    {
        let i = s[k];
        assert(sv[k as int] == i);
        if i != keep && has_container_children(blocks, i) {
            return Some(i);
        }
        k += 1;
    }
    None
}

/// The first marker that a member from the `k`-th on has.
pub open spec fn first_marker(blocks: Seq<BlockView>, s: Seq<int>, k: int) -> Option<Seq<char>>
    decreases s.len() - k,
{
    if k < 0 || k >= s.len() {
        None
    } else if blocks[s[k]].block_ref_id is Some {
        blocks[s[k]].block_ref_id
    } else {
        first_marker(blocks, s, k + 1)
    }
}

fn find_first_marker<'a>(blocks: &'a Vec<Block>, s: &Vec<usize>) -> (r: Option<&'a str>)
    requires
        forall|k: int| 0 <= k < s.len() ==> #[trigger] s[k] < blocks.len(),
    ensures
        first_marker(blocks.deep_view(), indices(s@), 0) == (match r {
            Some(m) => Some(m@),
            None => None,
        }),
{
    let ghost v = blocks.deep_view();
    let ghost sv = indices(s@);
    let mut k: usize = 0;
    while k < s.len()
        invariant
            k <= s.len(),
            v == blocks.deep_view(),
            sv == indices(s@),
            forall|k: int| 0 <= k < s.len() ==> #[trigger] s[k] < blocks.len(),
            first_marker(v, sv, 0) == first_marker(v, sv, k as int),
        decreases s.len() - k,
    {
        let i = s[k];
        assert(sv[k as int] == i);
        assert(v[i as int] == blocks[i as int].deep_view());
        if let Some(m) = &blocks[i].block_ref_id {
            return Some(m.as_str());
        }
        k += 1;
    }
    None
}

/// The members of a merge and the one that survives, or why there can be none:
/// they are two or more different siblings that follow each other, and only the
/// survivor may have nested content.
pub open spec fn merge_set(
    note: NoteView,
    rows: Seq<RowView>,
    ids: Seq<Uuid>,
    keep: Option<Uuid>,
) -> Result<(Seq<int>, int), OpFault> {
    let old = note.doc.blocks;
    let s = members(rows, ids, ids.len() as int);
    let keep_id = match keep {
        Some(id) => id,
        None => rows[s[0]].id,
    };
    if ids.len() < 2 {
        Err(OpFault::MergeTooFew)
    } else if first_stranger(rows, ids, 0) is Some {
        Err(OpFault::NotInNote { id: first_stranger(rows, ids, 0)->0 })
    } else if s.len() != ids.len() {
        Err(OpFault::MergeDuplicates)
    } else if run_break(old, s, 0) is Some {
        Err(OpFault::MergeNotContiguous { ord: run_break(old, s, 0)->0 as usize })
    } else {
        match keeper(rows, s, keep_id, 0) {
            None => Err(OpFault::KeepNotInSet),
            Some(k) => match loses_children(old, s, k, 0) {
                Some(i) => Err(OpFault::MergeRetiresContainer { ord: i as usize }),
                None => Ok((s, k)),
            },
        }
    }
}

fn find_merge_set(ctx: &NoteCtx, ids: &Vec<Uuid>, keep: Option<Uuid>) -> (r: Result<
    (Vec<usize>, usize),
    OpFault,
>)
    requires
        ctx.ok(),
    ensures
        match r {
            Ok((s, k)) => {
                &&& merge_set(ctx.parsed.deep_view(), ctx.rows.deep_view(), ids@, keep) == Ok::<
                    (Seq<int>, int),
                    OpFault,
                >((indices(s@), k as int))
                &&& s.len() > 0
                &&& s@.contains(k)
                &&& forall|i: int| 0 <= i < s.len() ==> #[trigger] s[i] < ctx.rows.len()
            },
            Err(f) => merge_set(ctx.parsed.deep_view(), ctx.rows.deep_view(), ids@, keep) == Err::<
                (Seq<int>, int),
                OpFault,
            >(f),
        },
{
    let old = &ctx.parsed.doc.blocks;
    let ghost rv = ctx.rows.deep_view();
    if ids.len() < 2 {
        return Err(OpFault::MergeTooFew);
    }
    let s = match find_members(ctx.rows, ids) {
        Ok(s) => s,
        Err(f) => {
            return Err(f);
        },
    };
    assert(indices(s@).len() == s.len());
    if s.len() != ids.len() {
        return Err(OpFault::MergeDuplicates);
    }
    if let Some(i) = find_run_break(old, &s) {
        return Err(OpFault::MergeNotContiguous { ord: i });
    }
    assert(indices(s@)[0] == s[0]);
    assert(rv[s[0] as int] == ctx.rows[s[0] as int].deep_view());
    let keep_id = match keep {
        Some(id) => id,
        None => ctx.rows[s[0]].id,
    };
    let k = match find_keeper(ctx.rows, &s, keep_id) {
        Some(k) => k,
        None => {
            return Err(OpFault::KeepNotInSet);
        },
    };
    if let Some(i) = find_lost_children(old, &s, k) {
        return Err(OpFault::MergeRetiresContainer { ord: i });
    }
    Ok((s, k))
}

/// Indices ascend.
pub open spec fn ascend(s: Seq<int>) -> bool {
    forall|i: int, j: int| 0 <= i < j < s.len() ==> #[trigger] s[i] < #[trigger] s[j]
}

proof fn with_index_ascends(s: Seq<int>, x: int)
    requires
        ascend(s),
    ensures
        ascend(with_index(s, x)),
        forall|k: int|
            0 <= k < with_index(s, x).len() ==> with_index(s, x)[k] == x || s.contains(
                #[trigger] with_index(s, x)[k],
            ),
    decreases s.len(),
{
    let r = with_index(s, x);
    if s.len() == 0 {
    } else if s[0] == x {
    } else if x < s[0] {
        assert forall|i: int, j: int| 0 <= i < j < r.len() implies #[trigger] r[i]
            < #[trigger] r[j] by {
            assert(r[j] == s[j - 1]);
            if i > 0 {
                assert(r[i] == s[i - 1]);
            } else if j > 1 {
                assert(s[0] < s[j - 1]);
            }
        }
        assert forall|k: int| 0 <= k < r.len() implies r[k] == x || s.contains(#[trigger] r[k]) by {
            if k > 0 {
                assert(s[k - 1] == r[k]);
            }
        }
    } else {
        let t = s.drop_first();
        assert forall|i: int, j: int| 0 <= i < j < t.len() implies #[trigger] t[i]
            < #[trigger] t[j] by {
            assert(t[i] == s[i + 1] && t[j] == s[j + 1]);
        }
        with_index_ascends(t, x);
        let u = with_index(t, x);
        assert forall|k: int| 0 <= k < r.len() implies r[k] == x || s.contains(#[trigger] r[k]) by {
            if k == 0 {
                assert(s[0] == r[0]);
            } else {
                assert(r[k] == u[k - 1]);
                if u[k - 1] != x {
                    let m = choose|m: int| 0 <= m < t.len() && t[m] == u[k - 1];
                    assert(s[m + 1] == r[k]);
                }
            }
        }
        assert forall|i: int, j: int| 0 <= i < j < r.len() implies #[trigger] r[i]
            < #[trigger] r[j] by {
            assert(r[j] == u[j - 1]);
            if i > 0 {
                assert(r[i] == u[i - 1]);
            } else if u[j - 1] != x {
                let m = choose|m: int| 0 <= m < t.len() && t[m] == u[j - 1];
                assert(s[0] < s[m + 1]);
            }
        }
    }
}

pub proof fn members_ascend(rows: Seq<RowView>, ids: Seq<Uuid>, n: int)
    ensures
        ascend(members(rows, ids, n)),
    decreases n,
{
    if n > 0 {
        members_ascend(rows, ids, n - 1);
        with_index_ascends(members(rows, ids, n - 1), position(rows, ids[n - 1], 0)->0);
    }
}

/// The plan of a merge.
pub open spec fn merge_plan(
    note: NoteView,
    rows: Seq<RowView>,
    ids: Seq<Uuid>,
    text: Seq<char>,
    keep: Option<Uuid>,
) -> Result<PlanView, OpFault> {
    match merge_set(note, rows, ids, keep) {
        Err(f) => Err(f),
        Ok((s, k)) => match fragment_of(text) {
            Err(f) => Err(f),
            Ok(frag) => {
                let fb = frag.doc.blocks;
                let roots = roots_of(fb);
                if roots.len() != 1 {
                    Err(OpFault::MergeArity { found: roots.len() as usize })
                } else if nested(fb, roots) {
                    Err(OpFault::NestedContainers)
                } else {
                    merged_run(note, rows, ids, s, k, frag.source, fb[roots[0]])
                }
            },
        },
    }
}

/// The plan of a merge whose members and fragment are in order: the run of the
/// members is replaced by the fragment's block.
pub open spec fn merged_run(
    note: NoteView,
    rows: Seq<RowView>,
    ids: Seq<Uuid>,
    s: Seq<int>,
    k: int,
    text: Seq<char>,
    froot: BlockView,
) -> Result<PlanView, OpFault> {
    let old = note.doc.blocks;
    let first = s[0];
    let run_end = subtree_to(old, s.last());
    let start = old[first].span.start as int;
    match content_end_of(note.source, start, spans_to(old, first, run_end)) {
        None => Err(OpFault::Unsliceable),
        Some(end) => match cut(text, froot.span.start as int, froot.span.end as int) {
            None => Err(OpFault::Unsliceable),
            Some(body) => match replaced(
                note.source,
                old[first],
                start,
                end,
                body,
                froot.kind == BlockKind::ListItem,
            ) {
                Err(f) => Err(f),
                Ok((sp, probe)) => match root_at(probe.doc.blocks, sp.line_start, froot.kind) {
                    None => Err(OpFault::MergeDissolved),
                    Some(pin) => pinned_plan(
                        Op::Merge,
                        old,
                        first,
                        k,
                        (first, run_end),
                        probe,
                        sp.edit,
                        pin,
                        holder_of(probe.doc.blocks, seq![pin], first_marker(old, s, 0)),
                        ExtraView::Merge { into: rows[k].id, members: ids },
                        seq![pin],
                    ),
                },
            },
        },
    }
}

fn merge_run(
    ctx: &NoteCtx,
    ids: &Vec<Uuid>,
    s: &Vec<usize>,
    k: usize,
    text: &str,
    froot: &Block,
) -> (r: Result<OpPlan, OpFault>)
    requires
        ctx.ok(),
        s.len() > 0,
        s[0] <= k < ctx.rows.len(),
        s[0] <= s[s.len() - 1],
        forall|i: int| 0 <= i < s.len() ==> #[trigger] s[i] < ctx.rows.len(),
    ensures
        agrees(
            r,
            merged_run(
                ctx.parsed.deep_view(),
                ctx.rows.deep_view(),
                ids@,
                indices(s@),
                k as int,
                text@,
                froot.deep_view(),
            ),
            ctx.rows.len() as int,
        ),
{
    let ghost note = ctx.parsed.deep_view();
    let ghost rv = ctx.rows.deep_view();
    let ghost sv = indices(s@);
    let old = &ctx.parsed.doc.blocks;
    let first = s[0];
    let last = s[s.len() - 1];
    proof {
        assert(sv[0] == first && sv.last() == last);
        assert(note.doc.blocks[first as int] == old[first as int].deep_view());
        assert(rv[k as int] == ctx.rows[k as int].deep_view());
    }
    let run_end = subtree_end(old, last);
    let start = old[first].span.start;
    let raw_end = span_end_of(old, first, run_end);
    let end = match content_end(ctx.parsed.source.as_str(), start, raw_end) {
        Some(e) => e,
        None => {
            return Err(OpFault::Unsliceable);
        },
    };
    let body = match get(text, froot.span.start, froot.span.end) {
        Some(b) => b,
        None => {
            return Err(OpFault::Unsliceable);
        },
    };
    let (sp, probe) = match replace_region(
        ctx.parsed.source.as_str(),
        &old[first],
        start,
        end,
        body,
        froot.kind == BlockKind::ListItem,
    ) {
        Ok(x) => x,
        Err(f) => {
            return Err(f);
        },
    };
    let new = &probe.doc.blocks;
    assert(probe.deep_view().doc.blocks == new.deep_view());
    let pin = match find_root_at(new, sp.line_start, froot.kind) {
        Some(p) => p,
        None => {
            return Err(OpFault::MergeDissolved);
        },
    };
    let mut results: Vec<usize> = Vec::new();
    results.push(pin);
    proof {
        assert(indices(results@) =~= seq![pin as int]);
    }
    let marker_to = marker_holder(new, &results, find_first_marker(old, s));
    pin_plan(
        Op::Merge,
        old,
        first,
        k,
        (first, run_end),
        probe,
        sp.edit,
        pin,
        marker_to,
        Extra::Merge { into: ctx.rows[k].id, members: copy_ids(ids) },
        results,
    )
}

/// Plans a merge: siblings that follow each other become the one block of a
/// fragment. `keep`, or the first of them, survives; the others are retired with
/// what is inside them.
pub fn merge_blocks(ctx: &NoteCtx, ids: &Vec<Uuid>, text: &str, keep: Option<Uuid>) -> (r: Result<
    OpPlan,
    OpFault,
>)
    requires
        ctx.ok(),
    ensures
        agrees(
            r,
            merge_plan(ctx.parsed.deep_view(), ctx.rows.deep_view(), ids@, text@, keep),
            ctx.rows.len() as int,
        ),
{
    let (s, k) = match find_merge_set(ctx, ids, keep) {
        Ok(x) => x,
        Err(f) => {
            return Err(f);
        },
    };
    let ghost sv = indices(s@);
    let frag = match parse_fragment(text) {
        Ok(f) => f,
        Err(f) => {
            return Err(f);
        },
    };
    let ghost fv = frag.parsed.deep_view();
    assert(roots_of(fv.doc.blocks).len() == frag.roots.len());
    if frag.roots.len() != 1 {
        return Err(OpFault::MergeArity { found: frag.roots.len() });
    }
    if fragment_has_container_children(&frag) {
        return Err(OpFault::NestedContainers);
    }
    let froot = &frag.parsed.doc.blocks[frag.roots[0]];
    proof {
        assert(roots_of(fv.doc.blocks)[0] == frag.roots[0]);
        assert(fv.doc.blocks[frag.roots[0] as int] == froot.deep_view());
        members_ascend(ctx.rows.deep_view(), ids@, ids.len() as int);
        let m = choose|m: int| 0 <= m < s@.len() && s@[m] == k;
        assert(sv[m] == k && sv[0] == s[0] && sv[s.len() - 1] == s[s.len() - 1]);
    }
    merge_run(ctx, ids, &s, k, frag.parsed.source.as_str(), froot)
}

// ---- move ----

/// The tile of a block, as its placement says.
pub open spec fn tile_index(note: NoteView, idx: int) -> Option<int> {
    let t = note.placement[idx].0 as int;
    if 0 <= t < note.tiles.len() {
        Some(t)
    } else {
        None
    }
}

/// The tile of a block.
pub fn tile_of(note: &ParsedNote, idx: usize) -> (r: Option<usize>)
    requires
        idx < note.placement.len(),
    ensures
        tile_index(note.deep_view(), idx as int) == index_view(r),
        r matches Some(t) ==> t < note.tiles.len(),
{
    let t = note.placement[idx].0;
    if t >= 0 && (t as usize) < note.tiles.len() {
        Some(t as usize)
    } else {
        None
    }
}

/// A source of this preamble and these tiles, or none where the preamble cannot be
/// cut.
pub open spec fn rejoined(note: NoteView, tiles: Seq<Seq<char>>) -> Option<Seq<char>> {
    match cut(note.source, 0, note.doc.preamble.end as int) {
        Some(head) => Some(head + concat(tiles)),
        None => None,
    }
}

/// The source with the tile of block `idx` moved to stand before or after that of
/// block `ai`.
pub open spec fn tiles_reordered(note: NoteView, idx: int, ai: int, before: bool) -> Option<
    Seq<char>,
> {
    match (tile_index(note, idx), tile_index(note, ai)) {
        (Some(t), Some(a)) => {
            let at = landing(t, a, before);
            rejoined(
                note,
                seamed_all(
                    tile_moved(note.tiles, t, a, before),
                    at,
                    at + 1,
                    newlines_at_end(note.source),
                ),
            )
        },
        _ => None,
    }
}

fn reorder_tiles(note: &ParsedNote, idx: usize, ai: usize, before: bool) -> (r: Option<String>)
    requires
        idx < note.placement.len(),
        ai < note.placement.len(),
    ensures
        tiles_reordered(note.deep_view(), idx as int, ai as int, before) == (match r {
            Some(t) => Some(t@),
            None => None,
        }),
{
    match (tile_of(note, idx), tile_of(note, ai)) {
        (Some(t), Some(a)) => {
            let trailing = trailing_newlines(note.source.as_str());
            let tiles = move_tiles(&note.tiles, t, a, before, trailing.as_str());
            join_tiles(note, &tiles)
        },
        _ => None,
    }
}

fn join_tiles(note: &ParsedNote, tiles: &Vec<String>) -> (r: Option<String>)
    ensures
        rejoined(note.deep_view(), tiles.deep_view()) == (match r {
            Some(t) => Some(t@),
            None => None,
        }),
{
    match get(note.source.as_str(), 0, note.doc.preamble.end) {
        Some(head) => {
            let mut out = head.to_owned();
            out.append(concat_all(tiles).as_str());
            Some(out)
        },
        None => None,
    }
}

/// The source with the lines of the blocks from `idx` up to `t_end` moved to stand
/// before or after those from `ai` up to `a_end`.
pub open spec fn lines_reordered(
    note: NoteView,
    idx: int,
    t_end: int,
    ai: int,
    a_end: int,
    before: bool,
) -> Option<Seq<char>> {
    let old = note.doc.blocks;
    let t = old[idx].span.start as int;
    let a = old[ai].span.start as int;
    if cut(note.source, 0, t) is None || (before && cut(note.source, 0, a) is None) {
        None
    } else {
        lines_moved(
            note.source,
            line_start(note.source, t),
            spans_to(old, idx, t_end),
            if before {
                line_start(note.source, a)
            } else {
                spans_to(old, ai, a_end)
            },
        )
    }
}

fn reorder_lines(
    note: &ParsedNote,
    idx: usize,
    t_end: usize,
    ai: usize,
    a_end: usize,
    before: bool,
) -> (r: Option<String>)
    requires
        idx < t_end <= note.doc.blocks.len(),
        ai < a_end <= note.doc.blocks.len(),
    ensures
        lines_reordered(
            note.deep_view(),
            idx as int,
            t_end as int,
            ai as int,
            a_end as int,
            before,
        ) == (match r {
            Some(t) => Some(t@),
            None => None,
        }),
{
    let old = &note.doc.blocks;
    let src = note.source.as_str();
    let ghost v = note.deep_view().doc.blocks;
    assert(v[idx as int] == old[idx as int].deep_view());
    assert(v[ai as int] == old[ai as int].deep_view());
    let from = match line_start_of(src, old[idx].span.start) {
        Some(f) => f,
        None => {
            return None;
        },
    };
    let to = span_end_of(old, idx, t_end);
    let at = if before {
        match line_start_of(src, old[ai].span.start) {
            Some(a) => a,
            None => {
                return None;
            },
        }
    } else {
        span_end_of(old, ai, a_end)
    };
    move_lines(src, from, to, at)
}

/// Where a block that is not moved stands among those that are not.
pub open spec fn place_among_rest(i: int, from: int, to: int) -> int {
    if i < from {
        i
    } else {
        i - (to - from)
    }
}

/// Where the moved run lands among the blocks that are not moved.
pub open spec fn run_landing(
    from: int,
    to: int,
    anchor: int,
    anchor_end: int,
    before: bool,
) -> int {
    if before {
        place_among_rest(anchor, from, to)
    } else if from <= anchor_end - 1 < to {
        place_among_rest(anchor, from, to) + 1
    } else {
        place_among_rest(anchor_end - 1, from, to) + 1
    }
}

/// The old block that comes to stand at `ni`, where the run from `from` up to `to`
/// is moved to land at `at` among the others.
pub open spec fn moved_from(from: int, to: int, at: int, ni: int) -> int {
    let len = to - from;
    if at <= ni < at + len {
        from + (ni - at)
    } else {
        let k = if ni < at {
            ni
        } else {
            ni - len
        };
        if k < from {
            k
        } else {
            k + len
        }
    }
}

/// Every block pinned to where it comes to stand.
pub open spec fn move_pins(n: int, from: int, to: int, at: int) -> Seq<(int, int)> {
    Seq::new(n as nat, |ni: int| (moved_from(from, to, at, ni), ni))
}

/// The anchor of a move: exactly one of the two.
pub open spec fn one_anchor(before: Option<Uuid>, after: Option<Uuid>) -> Option<Uuid> {
    match (before, after) {
        (Some(b), None) => Some(b),
        (None, Some(a)) => Some(a),
        _ => None,
    }
}

/// The plan of a move.
pub open spec fn move_plan(
    note: NoteView,
    rows: Seq<RowView>,
    idx: int,
    before: Option<Uuid>,
    after: Option<Uuid>,
) -> Result<PlanView, OpFault> {
    match one_anchor(before, after) {
        None => Err(OpFault::NotOneAnchor),
        Some(id) => match position(rows, id, 0) {
            None => Err(OpFault::AnchorMissing),
            Some(ai) => move_plan_to(note, rows, idx, ai, before is Some),
        },
    }
}

/// The source that a move leaves, if the move is one among siblings, and the ends of
/// what is inside the two blocks.
pub open spec fn move_source(note: NoteView, idx: int, ai: int, before: bool) -> Result<
    (Seq<char>, int, int),
    OpFault,
> {
    let old = note.doc.blocks;
    let t_end = subtree_to(old, idx);
    let a_end = subtree_to(old, ai);
    let t_top = top_level_child(note.doc, idx);
    let a_top = top_level_child(note.doc, ai);
    if old[idx].parent != old[ai].parent {
        Err(OpFault::NotSiblings)
    } else if t_top != a_top || (!t_top && note.placement[idx].0 != note.placement[ai].0) {
        Err(OpFault::OtherContainer)
    } else if idx <= ai < t_end || ai <= idx < a_end {
        Err(OpFault::AnchorInside)
    } else {
        match (if t_top {
            tiles_reordered(note, idx, ai, before)
        } else {
            lines_reordered(note, idx, t_end, ai, a_end, before)
        }) {
            None => Err(OpFault::Unsliceable),
            Some(text) => Ok((text, t_end, a_end)),
        }
    }
}

/// The plan of a move to stand before or after the block at `ai`.
pub open spec fn move_plan_to(
    note: NoteView,
    rows: Seq<RowView>,
    idx: int,
    ai: int,
    before: bool,
) -> Result<PlanView, OpFault> {
    let n = note.doc.blocks.len() as int;
    match move_source(note, idx, ai, before) {
        Err(f) => Err(f),
        Ok((text, t_end, a_end)) => match parsed_as(text) {
            None => Err(OpFault::Unparsable),
            Some(probe) => {
                let at = run_landing(idx, t_end, ai, a_end, before);
                Ok(
                    PlanView {
                        op: Op::Move,
                        probe,
                        old_region: Some((0, n)),
                        edit_range: None,
                        pins: move_pins(n, idx, t_end, at),
                        strict: true,
                        scoped: None,
                        marker_to: None,
                        extra: ExtraView::Target(rows[idx].id),
                        results: seq![at],
                    },
                )
            },
        },
    }
}

/// A move is a permutation of the blocks.
pub proof fn a_move_is_a_permutation(n: int, from: int, to: int, at: int)
    requires
        0 <= from < to <= n,
        0 <= at <= n - (to - from),
    ensures
        one_to_one(move_pins(n, from, to, at)),
        forall|k: int|
            0 <= k < n ==> 0 <= (#[trigger] move_pins(n, from, to, at)[k]).0 < n && move_pins(
                n,
                from,
                to,
                at,
            )[k].1 == k,
{
}

/// Plans a move: the block at `idx`, with what is inside it, comes to stand before
/// or after a sibling. It keeps its id and its content.
pub fn move_block(ctx: &NoteCtx, idx: usize, before: Option<Uuid>, after: Option<Uuid>) -> (r:
    Result<OpPlan, OpFault>)
    requires
        ctx.ok(),
        idx < ctx.rows.len(),
    ensures
        agrees(
            r,
            move_plan(ctx.parsed.deep_view(), ctx.rows.deep_view(), idx as int, before, after),
            ctx.rows.len() as int,
        ),
{
    let anchor = match (before, after) {
        (Some(b), None) => b,
        (None, Some(a)) => a,
        _ => {
            return Err(OpFault::NotOneAnchor);
        },
    };
    let ai = match find_row(ctx.rows, anchor) {
        Some(i) => i,
        None => {
            return Err(OpFault::AnchorMissing);
        },
    };
    move_to(ctx, idx, ai, before.is_some())
}

/// Where the moved run lands, and the pins of every block.
fn pins_of_move(
    n: usize,
    from: usize,
    to: usize,
    anchor: usize,
    anchor_end: usize,
    before: bool,
) -> (r: (usize, Vec<(usize, usize)>))
    requires
        from < to <= n,
        anchor < anchor_end <= n,
        !(from <= anchor < to),
        !(anchor <= from < anchor_end),
    ensures
        r.0 == run_landing(
            from as int,
            to as int,
            anchor as int,
            anchor_end as int,
            before,
        ),
        r.0 <= n - (to - from),
        pairs_view(r.1@) == move_pins(n as int, from as int, to as int, r.0 as int),
{
    let len = to - from;
    let a_pos: usize = if anchor < from {
        anchor
    } else {
        anchor - len
    };
    let at: usize = if before {
        a_pos
    } else {
        let last = anchor_end - 1;
        if from <= last && last < to {
            a_pos + 1
        } else if last < from {
            last + 1
        } else {
            last - len + 1
        }
    };
    let ghost want = move_pins(n as int, from as int, to as int, at as int);
    let mut pins: Vec<(usize, usize)> = Vec::new();
    let mut ni: usize = 0;
    while ni < n
        invariant
            ni <= n,
            from < to <= n,
            len == to - from,
            at <= n - len,
            pins.len() == ni,
            want == move_pins(n as int, from as int, to as int, at as int),
            forall|k: int|
                0 <= k < ni ==> (#[trigger] pins[k]).0 == want[k].0 && pins[k].1 == want[k].1,
        decreases n - ni,
    {
        let oi: usize = if at <= ni && ni - at < len {
            from + (ni - at)
        } else {
            let k: usize = if ni < at {
                ni
            } else {
                ni - len
            };
            if k < from {
                k
            } else {
                k + len
            }
        };
        pins.push((oi, ni));
        ni += 1;
    }
    assert(pairs_view(pins@) =~= want);
    (at, pins)
}

fn find_move_source(note: &ParsedNote, idx: usize, ai: usize, before: bool) -> (r: Result<
    (String, usize, usize),
    OpFault,
>)
    requires
        note_ok(note.deep_view()),
        idx < note.doc.blocks.len(),
        ai < note.doc.blocks.len(),
    ensures
        move_source(note.deep_view(), idx as int, ai as int, before) == (match r {
            Ok((t, t_end, a_end)) => Ok::<(Seq<char>, int, int), OpFault>(
                (t@, t_end as int, a_end as int),
            ),
            Err(f) => Err::<(Seq<char>, int, int), OpFault>(f),
        }),
        r matches Ok((_, t_end, a_end)) ==> idx < t_end <= note.doc.blocks.len() && ai < a_end
            <= note.doc.blocks.len() && !(idx <= ai < t_end) && !(ai <= idx < a_end),
{
    let ghost v = note.deep_view();
    let old = &note.doc.blocks;
    proof {
        assert(v.doc.blocks[idx as int] == old[idx as int].deep_view());
        assert(v.doc.blocks[ai as int] == old[ai as int].deep_view());
        assert(v.doc.blocks.len() == old.len());
    }
    if !same_parent(old[idx].parent, old[ai].parent) {
        return Err(OpFault::NotSiblings);
    }
    let t_top = is_top_level_child(&note.doc, idx);
    let a_top = is_top_level_child(&note.doc, ai);
    if t_top != a_top || (!t_top && note.placement[idx].0 != note.placement[ai].0) {
        return Err(OpFault::OtherContainer);
    }
    let t_end = subtree_end(old, idx);
    let a_end = subtree_end(old, ai);
    if (idx <= ai && ai < t_end) || (ai <= idx && idx < a_end) {
        return Err(OpFault::AnchorInside);
    }
    let source = if t_top {
        reorder_tiles(note, idx, ai, before)
    } else {
        reorder_lines(note, idx, t_end, ai, a_end, before)
    };
    match source {
        Some(t) => Ok((t, t_end, a_end)),
        None => Err(OpFault::Unsliceable),
    }
}

fn move_to(ctx: &NoteCtx, idx: usize, ai: usize, before: bool) -> (r: Result<OpPlan, OpFault>)
    requires
        ctx.ok(),
        idx < ctx.rows.len(),
        ai < ctx.rows.len(),
    ensures
        agrees(
            r,
            move_plan_to(
                ctx.parsed.deep_view(),
                ctx.rows.deep_view(),
                idx as int,
                ai as int,
                before,
            ),
            ctx.rows.len() as int,
        ),
{
    let n = ctx.parsed.doc.blocks.len();
    let (text, t_end, a_end) = match find_move_source(ctx.parsed, idx, ai, before) {
        Ok(found) => found,
        Err(f) => {
            return Err(f);
        },
    };
    let probe = match reparse(text.as_str()) {
        Some(p) => p,
        None => {
            return Err(OpFault::Unparsable);
        },
    };
    let (at, pins) = pins_of_move(n, idx, t_end, ai, a_end, before);
    let mut results: Vec<usize> = Vec::new();
    results.push(at);
    proof {
        assert(ctx.parsed.deep_view().doc.blocks.len() == n);
        assert(ctx.rows.deep_view()[idx as int] == ctx.rows[idx as int].deep_view());
        a_move_is_a_permutation(n as int, idx as int, t_end as int, at as int);
        assert(indices(results@) =~= seq![at as int]);
    }
    Ok(
        OpPlan {
            op: Op::Move,
            probe,
            old_region: Some((0, n)),
            edit_range: None,
            pins,
            pin_hash_strict: true,
            scoped: None,
            marker_to: None,
            extra: Extra::Target(ctx.rows[idx].id),
            results,
        },
    )
}

// ---- insert ----

/// The plan of an insert: its edit, and the blocks that start in it.
pub open spec fn insert_view(
    probe: NoteView,
    edit: (int, int),
    pins: Seq<(int, int)>,
) -> PlanView {
    PlanView {
        op: Op::Insert,
        probe,
        old_region: None,
        edit_range: Some(edit),
        pins,
        strict: false,
        scoped: None,
        marker_to: None,
        extra: ExtraView::Nothing,
        results: starting_in(
            probe.doc.blocks,
            edit.0,
            edit.1,
            probe.doc.blocks.len() as int,
        ),
    }
}

/// The tiles with others put in at `pos`.
pub open spec fn tiles_with(tiles: Seq<Seq<char>>, put: Seq<Seq<char>>, pos: int) -> Seq<Seq<char>> {
    tiles.take(pos) + put + tiles.skip(pos)
}

/// The plan of an insert of whole tiles at `pos`.
pub open spec fn insert_tiles_plan(note: NoteView, frag: Seq<Seq<char>>, pos: int) -> Result<
    PlanView,
    OpFault,
> {
    let tiles = seamed_all(
        tiles_with(note.tiles, frag, pos),
        pos,
        pos + frag.len(),
        newlines_at_end(note.source),
    );
    match rejoined(note, tiles) {
        None => Err(OpFault::Unsliceable),
        Some(text) => match parsed_as(text) {
            None => Err(OpFault::Unparsable),
            Some(probe) => {
                let start = note.doc.preamble.end + encode_utf8(concat(tiles.take(pos))).len();
                let end = start + encode_utf8(
                    concat(tiles.subrange(pos, pos + frag.len())),
                ).len();
                Ok(insert_view(probe, (start as int, end as int), Seq::empty()))
            },
        },
    }
}

/// The plan of an insert at the top level: before or after the tile of a block,
/// or at the end.
pub open spec fn insert_top_plan(
    note: NoteView,
    anchor: Option<int>,
    frag: NoteView,
    before: bool,
) -> Result<PlanView, OpFault> {
    if frag.tiles.len() == 0 {
        Err(OpFault::NoBlocks)
    } else {
        match anchor {
            None => insert_tiles_plan(note, frag.tiles, note.tiles.len() as int),
            Some(ai) => match tile_index(note, ai) {
                None => Err(OpFault::Unsliceable),
                Some(t) => insert_tiles_plan(
                    note,
                    frag.tiles,
                    if before {
                        t
                    } else {
                        t + 1
                    },
                ),
            },
        }
    }
}

/// The first `n` roots of a fragment as items of a list: each with its marker in
/// the list's style, and prefixed for where it goes.
pub open spec fn items_for(
    frag: NoteView,
    roots: Seq<int>,
    marker: Seq<char>,
    prefix: Seq<char>,
    n: int,
) -> Option<Seq<char>>
    decreases n,
{
    if n <= 0 {
        Some(Seq::empty())
    } else {
        let item = frag.doc.blocks[roots[n - 1]];
        match (
            items_for(frag, roots, marker, prefix, n - 1),
            cut(frag.source, item.span.start as int, item.span.end as int),
        ) {
            (Some(done), Some(text)) => if item.first_line_strip_outer
                > item.first_line_strip_full {
                None
            } else {
                let own = item.first_line_strip_full - item.first_line_strip_outer;
                let body = trimmed_end(CharSet::Newline, remarked(text, own, marker));
                Some((done + prefix + decorated(body, prefix)).push('\n'))
            },
            _ => None,
        }
    }
}

/// Where items are put in: at the line of an item, or after what is inside it.
pub open spec fn item_position(note: NoteView, ai: int, before: bool) -> Option<int> {
    let old = note.doc.blocks;
    let start = old[ai].span.start as int;
    if !before {
        Some(spans_to(old, ai, subtree_to(old, ai)))
    } else if cut(note.source, 0, start) is Some {
        Some(line_start(note.source, start))
    } else {
        None
    }
}

/// The plan of an insert next to a list item.
pub open spec fn insert_item_plan(
    note: NoteView,
    ai: int,
    frag: NoteView,
    before: bool,
) -> Result<PlanView, OpFault> {
    let old = note.doc.blocks;
    let a = old[ai];
    let roots = roots_of(frag.doc.blocks);
    let marker = marker_of(
        note.source,
        a.span.start as int,
        a.first_line_strip_outer as int,
        a.first_line_strip_full as int,
    );
    if !all_items(frag.doc.blocks, roots) {
        Err(OpFault::NotAList)
    } else {
        match (
            item_position(note, ai, before),
            items_for(frag, roots, marker, a.line_prefix, roots.len() as int),
        ) {
            (Some(pos), Some(items)) => insert_text_plan(note, ai, pos, items),
            _ => Err(OpFault::Unsliceable),
        }
    }
}

/// The plan of an insert of a text at an offset: what encloses the anchor encloses
/// what was put in.
pub open spec fn insert_text_plan(note: NoteView, ai: int, pos: int, text: Seq<char>) -> Result<
    PlanView,
    OpFault,
> {
    let n = encode_utf8(note.source).len() as int;
    match (cut(note.source, 0, pos), cut(note.source, pos, n)) {
        (Some(head), Some(tail)) => match parsed_as(head + text + tail) {
            None => Err(OpFault::Unparsable),
            Some(probe) => {
                let edit = (pos, pos + encode_utf8(text).len());
                let found = starting_in(
                    probe.doc.blocks,
                    edit.0,
                    edit.1,
                    probe.doc.blocks.len() as int,
                );
                if found.len() == 0 {
                    Ok(insert_view(probe, edit, Seq::empty()))
                } else {
                    match ancestor_pairs(note.doc.blocks, ai, probe.doc.blocks, found[0]) {
                        Err(f) => Err(f),
                        Ok(pins) => Ok(insert_view(probe, edit, pins)),
                    }
                }
            },
        },
        _ => Err(OpFault::Unsliceable),
    }
}

/// The plan of an insert.
pub open spec fn insert_plan(
    note: NoteView,
    rows: Seq<RowView>,
    text: Seq<char>,
    before: Option<Uuid>,
    after: Option<Uuid>,
) -> Result<PlanView, OpFault> {
    if before is Some && after is Some {
        Err(OpFault::BothAnchors)
    } else {
        match fragment_of(text) {
            Err(f) => Err(f),
            Ok(frag) => if roots_of(frag.doc.blocks).len() == 0 {
                Err(OpFault::NoBlocks)
            } else {
                match one_anchor(before, after) {
                    None => insert_top_plan(note, None, frag, false),
                    Some(id) => match position(rows, id, 0) {
                        None => Err(OpFault::AnchorMissing),
                        Some(ai) => insert_at_plan(note, ai, frag, before is Some),
                    },
                }
            },
        }
    }
}

/// The plan of an insert before or after the block at `ai`.
pub open spec fn insert_at_plan(note: NoteView, ai: int, frag: NoteView, before: bool) -> Result<
    PlanView,
    OpFault,
> {
    if note.doc.blocks[ai].kind == BlockKind::ListItem {
        insert_item_plan(note, ai, frag, before)
    } else if !top_level_child(note.doc, ai) {
        Err(OpFault::AnchorNotTopLevel)
    } else {
        insert_top_plan(note, Some(ai), frag, before)
    }
}

proof fn concat_of_both(a: Seq<Seq<char>>, b: Seq<Seq<char>>)
    ensures
        concat(a + b) == concat(a) + concat(b),
    decreases b.len(),
{
    if b.len() == 0 {
        assert(a + b =~= a);
        assert(concat(a) + concat(b) =~= concat(a));
    } else {
        concat_of_both(a, b.drop_last());
        assert((a + b).drop_last() =~= a + b.drop_last());
        assert((a + b).last() == b.last());
        assert(concat(a) + (concat(b.drop_last()) + b.last()) =~= concat(a) + concat(b.drop_last())
            + b.last());
    }
}

fn insert_found(probe: ParsedNote, edit: (usize, usize), pins: Vec<(usize, usize)>) -> (r: OpPlan)
    requires
        note_ok(probe.deep_view()),
        one_to_one(pairs_view(pins@)),
    ensures
        r.deep_view() == insert_view(
            probe.deep_view(),
            (edit.0 as int, edit.1 as int),
            pairs_view(pins@),
        ),
        plan_ok(0, r.deep_view()),
{
    let results = blocks_starting_in(&probe.doc.blocks, edit.0, edit.1);
    let ghost pv = probe.deep_view();
    assert(pv.doc.blocks == probe.doc.blocks.deep_view());
    assert(pv.doc.blocks.len() == probe.doc.blocks.len());
    OpPlan {
        op: Op::Insert,
        probe,
        old_region: None,
        edit_range: Some(edit),
        pins,
        pin_hash_strict: false,
        scoped: None,
        marker_to: None,
        extra: Extra::Nothing,
        results,
    }
}

fn part_of(tiles: &Vec<String>, from: usize, to: usize) -> (r: Vec<String>)
    requires
        from <= to <= tiles.len(),
    ensures
        r.deep_view() == tiles.deep_view().subrange(from as int, to as int),
{
    let ghost v = tiles.deep_view();
    let mut out: Vec<String> = Vec::new();
    let mut i: usize = from;
    while i < to
        invariant
            from <= i <= to <= tiles.len(),
            out.len() == i - from,
            forall|k: int| 0 <= k < out.len() ==> (#[trigger] out[k])@ == tiles[from + k]@,
        decreases to - i,
    {
        out.push(tiles[i].clone());
        i += 1;
    }
    assert(out.deep_view() =~= v.subrange(from as int, to as int));
    out
}

fn put_tiles(tiles: &Vec<String>, frag: &Vec<String>, pos: usize) -> (r: Vec<String>)
    requires
        pos <= tiles.len(),
    ensures
        r.deep_view() == tiles_with(tiles.deep_view(), frag.deep_view(), pos as int),
{
    let ghost tv = tiles.deep_view();
    let ghost fv = frag.deep_view();
    let mut put: Vec<String> = part_of(tiles, 0, pos);
    let mut i: usize = 0;
    proof {
        assert(put.deep_view() =~= tv.take(pos as int) + fv.take(0));
    }
    while i < frag.len()
        invariant
            i <= frag.len(),
            fv == frag.deep_view(),
            put.deep_view() == tv.take(pos as int) + fv.take(i as int),
        decreases frag.len() - i,
    {
        let ghost before = put.deep_view();
        put.push(frag[i].clone());
        i += 1;
        assert(put.deep_view() =~= before.push(fv[i - 1]));
        assert(put.deep_view() =~= tv.take(pos as int) + fv.take(i as int));
    }
    let mut k: usize = pos;
    proof {
        assert(fv.take(i as int) =~= fv);
        assert(put.deep_view() =~= tv.take(pos as int) + fv + tv.subrange(pos as int, pos as int));
    }
    while k < tiles.len()
        invariant
            pos <= k <= tiles.len(),
            tv == tiles.deep_view(),
            put.deep_view() == tv.take(pos as int) + fv + tv.subrange(pos as int, k as int),
        decreases tiles.len() - k,
    {
        let ghost before = put.deep_view();
        put.push(tiles[k].clone());
        k += 1;
        assert(put.deep_view() =~= before.push(tv[k - 1]));
        assert(put.deep_view() =~= tv.take(pos as int) + fv + tv.subrange(pos as int, k as int));
    }
    assert(tv.subrange(pos as int, k as int) =~= tv.skip(pos as int));
    put
}

/// The tiles joined after the preamble, and where the tiles `pos..end` come to stand.
fn join_around(note: &ParsedNote, tiles: &Vec<String>, pos: usize, end: usize) -> (r: Option<
    (String, usize, usize),
>)
    requires
        pos <= end <= tiles.len(),
    ensures
        match r {
            Some((t, from, to)) => {
                let tv = tiles.deep_view();
                &&& rejoined(note.deep_view(), tv) == Some(t@)
                &&& from == note.doc.preamble.end + encode_utf8(concat(tv.take(pos as int))).len()
                &&& to == from + encode_utf8(concat(tv.subrange(pos as int, end as int))).len()
            },
            None => rejoined(note.deep_view(), tiles.deep_view()) is None,
        },
{
    let ghost tv = tiles.deep_view();
    let head = match get(note.source.as_str(), 0, note.doc.preamble.end) {
        Some(h) => h,
        None => {
            return None;
        },
    };
    assert(tiles.len() == tv.len());
    let mut source = head.to_owned();
    let first = concat_all(&part_of(tiles, 0, pos));
    let middle = concat_all(&part_of(tiles, pos, end));
    let last = concat_all(&part_of(tiles, end, tiles.len()));
    source.append(first.as_str());
    let from = source.as_str().as_bytes().len();
    let ghost s1 = source@;
    source.append(middle.as_str());
    let to = source.as_str().as_bytes().len();
    source.append(last.as_str());
    proof {
        let a = tv.subrange(0, pos as int);
        let b = tv.subrange(pos as int, end as int);
        let c = tv.subrange(end as int, tv.len() as int);
        assert(a =~= tv.take(pos as int));
        assert(tv =~= a + b + c);
        concat_of_both(a, b);
        concat_of_both(a + b, c);
        assert(source@ =~= head@ + concat(tv));
        cut_bytes(note.deep_view().source, 0, note.doc.preamble.end as int);
        encode_concat(head@, first@);
        encode_concat(s1, middle@);
    }
    Some((source, from, to))
}

fn insert_tiles(note: &ParsedNote, frag: &Vec<String>, pos: usize) -> (r: Result<OpPlan, OpFault>)
    requires
        pos <= note.tiles.len(),
    ensures
        forall|n: int| #[trigger]
            agrees(r, insert_tiles_plan(note.deep_view(), frag.deep_view(), pos as int), n),
{
    let put = put_tiles(&note.tiles, frag, pos);
    assert(put.deep_view().len() == put.len());
    assert(frag.deep_view().len() == frag.len());
    assert(note.tiles.deep_view().len() == note.tiles.len());
    let end = pos + frag.len();
    let trailing = trailing_newlines(note.source.as_str());
    let tiles = rebuild_body(&put, pos, end, trailing.as_str());
    assert(tiles.deep_view().len() == tiles.len());
    let (source, from, to) = match join_around(note, &tiles, pos, end) {
        Some(found) => found,
        None => {
            return Err(OpFault::Unsliceable);
        },
    };
    match reparse(source.as_str()) {
        Some(probe) => {
            let pins: Vec<(usize, usize)> = Vec::new();
            proof {
                assert(pairs_view(pins@) =~= Seq::<(int, int)>::empty());
            }
            Ok(insert_found(probe, (from, to), pins))
        },
        None => Err(OpFault::Unparsable),
    }
}

fn insert_top_level(ctx: &NoteCtx, anchor: Option<usize>, frag: &ParsedNote, before: bool) -> (r:
    Result<OpPlan, OpFault>)
    requires
        ctx.ok(),
        anchor matches Some(ai) ==> ai < ctx.rows.len(),
    ensures
        agrees(
            r,
            insert_top_plan(
                ctx.parsed.deep_view(),
                index_view(anchor),
                frag.deep_view(),
                before,
            ),
            ctx.rows.len() as int,
        ),
{
    assert(frag.deep_view().tiles.len() == frag.tiles.len());
    assert(ctx.parsed.deep_view().tiles.len() == ctx.parsed.tiles.len());
    if frag.tiles.len() == 0 {
        return Err(OpFault::NoBlocks);
    }
    let pos = match anchor {
        None => ctx.parsed.tiles.len(),
        Some(ai) => match tile_of(ctx.parsed, ai) {
            Some(t) => if before {
                t
            } else {
                t + 1
            },
            None => {
                return Err(OpFault::Unsliceable);
            },
        },
    };
    let r = insert_tiles(ctx.parsed, &frag.tiles, pos);
    assert(agrees(
        r,
        insert_tiles_plan(ctx.parsed.deep_view(), frag.tiles.deep_view(), pos as int),
        ctx.rows.len() as int,
    ));
    r
}

fn make_items(frag: &Fragment, marker: &str, prefix: &str) -> (r: Option<String>)
    requires
        forall|k: int|
            0 <= k < frag.roots.len() ==> #[trigger] frag.roots[k] < frag.parsed.doc.blocks.len(),
    ensures
        items_for(
            frag.parsed.deep_view(),
            indices(frag.roots@),
            marker@,
            prefix@,
            frag.roots.len() as int,
        ) == (match r {
            Some(t) => Some(t@),
            None => None,
        }),
{
    let ghost fv = frag.parsed.deep_view();
    let ghost rs = indices(frag.roots@);
    let ghost total = frag.roots.len() as int;
    let mut out = String::new();
    let mut k: usize = 0;
    proof {
        assert(out@ =~= Seq::<char>::empty());
    }
    while k < frag.roots.len()
        invariant
            k <= frag.roots.len(),
            fv == frag.parsed.deep_view(),
            rs == indices(frag.roots@),
            total == frag.roots.len(),
            forall|k: int|
                0 <= k < frag.roots.len() ==> #[trigger] frag.roots[k]
                    < frag.parsed.doc.blocks.len(),
            items_for(fv, rs, marker@, prefix@, k as int) == Some(out@),
        decreases frag.roots.len() - k,
    {
        let root = frag.roots[k];
        let item = &frag.parsed.doc.blocks[root];
        assert(rs[k as int] == root);
        assert(fv.doc.blocks[root as int] == item.deep_view());
        let text = match get(frag.parsed.source.as_str(), item.span.start, item.span.end) {
            Some(t) => t,
            None => {
                proof {
                    items_for_stays_none(fv, rs, marker@, prefix@, k as int + 1, total);
                }
                return None;
            },
        };
        if item.first_line_strip_outer > item.first_line_strip_full {
            proof {
                items_for_stays_none(fv, rs, marker@, prefix@, k as int + 1, total);
            }
            return None;
        }
        let own = item.first_line_strip_full - item.first_line_strip_outer;
        let styled = remark_item(text, own, marker);
        let body = decorate(trim_end(styled.as_str(), CharSet::Newline), prefix);
        out.append(prefix);
        out.append(body.as_str());
        out.push('\n');
        k += 1;
    }
    Some(out)
}

proof fn items_for_stays_none(
    frag: NoteView,
    roots: Seq<int>,
    marker: Seq<char>,
    prefix: Seq<char>,
    k: int,
    n: int,
)
    requires
        k <= n,
        items_for(frag, roots, marker, prefix, k) is None,
    ensures
        items_for(frag, roots, marker, prefix, n) is None,
    decreases n - k,
{
    if k < n {
        items_for_stays_none(frag, roots, marker, prefix, k + 1, n);
    }
}

fn insert_text(ctx: &NoteCtx, ai: usize, pos: usize, text: &str) -> (r: Result<OpPlan, OpFault>)
    requires
        ctx.ok(),
        ai < ctx.rows.len(),
    ensures
        agrees(
            r,
            insert_text_plan(ctx.parsed.deep_view(), ai as int, pos as int, text@),
            ctx.rows.len() as int,
        ),
{
    let src = ctx.parsed.source.as_str();
    let n = src.as_bytes().len();
    let (head, tail) = match (get(src, 0, pos), get(src, pos, n)) {
        (Some(h), Some(t)) => (h, t),
        _ => {
            return Err(OpFault::Unsliceable);
        },
    };
    let mut source = head.to_owned();
    source.append(text);
    let end = source.as_str().as_bytes().len();
    proof {
        cut_bytes(src@, 0, pos as int);
        encode_concat(head@, text@);
    }
    source.append(tail);
    let probe = match reparse(source.as_str()) {
        Some(p) => p,
        None => {
            return Err(OpFault::Unparsable);
        },
    };
    let ghost pv = probe.deep_view();
    assert(pv.doc.blocks == probe.doc.blocks.deep_view());
    assert(pv.doc.blocks.len() == probe.doc.blocks.len());
    let found = blocks_starting_in(&probe.doc.blocks, pos, end);
    assert(indices(found@).len() == found.len());
    if found.len() == 0 {
        let pins: Vec<(usize, usize)> = Vec::new();
        proof {
            assert(pairs_view(pins@) =~= Seq::<(int, int)>::empty());
        }
        return Ok(insert_found(probe, (pos, end), pins));
    }
    assert(indices(found@)[0] == found[0]);
    match ancestor_pins(&ctx.parsed.doc.blocks, ai, &probe.doc.blocks, found[0]) {
        Ok(pins) => Ok(insert_found(probe, (pos, end), pins)),
        Err(f) => Err(f),
    }
}

fn insert_item_level(ctx: &NoteCtx, ai: usize, frag: &Fragment, before: bool) -> (r: Result<
    OpPlan,
    OpFault,
>)
    requires
        ctx.ok(),
        ai < ctx.rows.len(),
        indices(frag.roots@) == roots_of(frag.parsed.deep_view().doc.blocks),
        forall|k: int|
            0 <= k < frag.roots.len() ==> #[trigger] frag.roots[k] < frag.parsed.doc.blocks.len(),
    ensures
        agrees(
            r,
            insert_item_plan(ctx.parsed.deep_view(), ai as int, frag.parsed.deep_view(), before),
            ctx.rows.len() as int,
        ),
{
    if !roots_are_items(frag) {
        return Err(OpFault::NotAList);
    }
    let old = &ctx.parsed.doc.blocks;
    let src = ctx.parsed.source.as_str();
    let anchor = &old[ai];
    assert(ctx.parsed.deep_view().doc.blocks[ai as int] == anchor.deep_view());
    assert(indices(frag.roots@).len() == frag.roots.len());
    let pos = if before {
        match line_start_of(src, anchor.span.start) {
            Some(p) => p,
            None => {
                return Err(OpFault::Unsliceable);
            },
        }
    } else {
        span_end_of(old, ai, subtree_end(old, ai))
    };
    let marker = slice_marker(
        src,
        anchor.span.start,
        anchor.first_line_strip_outer,
        anchor.first_line_strip_full,
    );
    match make_items(frag, marker, anchor.line_prefix.as_str()) {
        Some(items) => insert_text(ctx, ai, pos, items.as_str()),
        None => Err(OpFault::Unsliceable),
    }
}

fn insert_at(ctx: &NoteCtx, ai: usize, frag: &Fragment, before: bool) -> (r: Result<OpPlan, OpFault>)
    requires
        ctx.ok(),
        ai < ctx.rows.len(),
        indices(frag.roots@) == roots_of(frag.parsed.deep_view().doc.blocks),
        forall|k: int|
            0 <= k < frag.roots.len() ==> #[trigger] frag.roots[k] < frag.parsed.doc.blocks.len(),
    ensures
        agrees(
            r,
            insert_at_plan(ctx.parsed.deep_view(), ai as int, frag.parsed.deep_view(), before),
            ctx.rows.len() as int,
        ),
{
    assert(ctx.parsed.deep_view().doc.blocks[ai as int]
        == ctx.parsed.doc.blocks[ai as int].deep_view());
    if ctx.parsed.doc.blocks[ai].kind == BlockKind::ListItem {
        return insert_item_level(ctx, ai, frag, before);
    }
    if !is_top_level_child(&ctx.parsed.doc, ai) {
        return Err(OpFault::AnchorNotTopLevel);
    }
    insert_top_level(ctx, Some(ai), &frag.parsed, before)
}

/// Plans an insert: the blocks of a fragment are put in before or after a block,
/// or at the end of the note. Next to a list item the fragment must be a list, and
/// takes on the style of the one it joins; elsewhere whole tiles are put in.
pub fn insert_blocks(
    ctx: &NoteCtx,
    text: &str,
    before: Option<Uuid>,
    after: Option<Uuid>,
) -> (r: Result<OpPlan, OpFault>)
    requires
        ctx.ok(),
    ensures
        agrees(
            r,
            insert_plan(ctx.parsed.deep_view(), ctx.rows.deep_view(), text@, before, after),
            ctx.rows.len() as int,
        ),
{
    if before.is_some() && after.is_some() {
        return Err(OpFault::BothAnchors);
    }
    let frag = match parse_fragment(text) {
        Ok(f) => f,
        Err(f) => {
            return Err(f);
        },
    };
    assert(indices(frag.roots@).len() == frag.roots.len());
    if frag.roots.len() == 0 {
        return Err(OpFault::NoBlocks);
    }
    let anchor = match (before, after) {
        (Some(b), None) => b,
        (None, Some(a)) => a,
        _ => {
            return insert_top_level(ctx, None, &frag.parsed, false);
        },
    };
    let ai = match find_row(ctx.rows, anchor) {
        Some(i) => i,
        None => {
            return Err(OpFault::AnchorMissing);
        },
    };
    insert_at(ctx, ai, &frag, before.is_some())
}

// ---- what the operations promise ----

/// An operation of this plan was done on the note, and stored as `w`.
pub open spec fn done(w: OpWrite, ctx: NoteCtx, p: PlanView, fresh: Seq<Uuid>) -> bool {
    &&& ctx.ok()
    &&& plan_ok(ctx.rows.len() as int, p)
    &&& commit_fault(ctx.parsed.deep_view().doc.blocks, p) is None
    &&& op_write_is(w, ctx, p, fresh)
    &&& p.probe.doc.blocks.len() <= i32::MAX
}

/// A pinned block has the id of the block that it is pinned to.
pub proof fn a_pin_keeps_the_id(w: OpWrite, ctx: NoteCtx, p: PlanView, fresh: Seq<Uuid>, j: int)
    requires
        done(w, ctx, p, fresh),
        0 <= j < p.pins.len(),
    ensures
        w.carry.ids@[p.pins[j].1] == ctx.rows.deep_view()[p.pins[j].0].id,
{
    let old = ctx.parsed.deep_view().doc.blocks;
    let k = old_rest(old, p).len() + j;
    assert(kept_pairs(old, p)[k as int] == p.pins[j]);
    an_operation_keeps_ids(w, ctx, p, fresh, k as int);
}

/// An update keeps the id: the block that comes back has the id of the one that
/// was replaced.
pub proof fn an_update_keeps_the_id(
    w: OpWrite,
    ctx: NoteCtx,
    p: PlanView,
    idx: int,
    text: Seq<char>,
    fresh: Seq<Uuid>,
)
    requires
        done(w, ctx, p, fresh),
        update_plan(ctx.parsed.deep_view(), ctx.rows.deep_view(), idx, text) == Ok::<
            PlanView,
            OpFault,
        >(p),
    ensures
        w.block_ids@ == seq![ctx.rows.deep_view()[idx].id],
{
    let j = p.pins.len() - 1;
    a_pin_keeps_the_id(w, ctx, p, fresh, j);
    assert(p.pins[j].0 == idx && p.results[0] == p.pins[j].1);
    assert(w.block_ids@ =~= seq![ctx.rows.deep_view()[idx].id]);
}

proof fn sibling_is_found(
    blocks: Seq<BlockView>,
    from: int,
    to: int,
    enclosing: Seq<int>,
    n: int,
    i: int,
)
    requires
        0 <= i < n <= blocks.len(),
        from <= blocks[i].span.start < to,
        ancestors_of(blocks, i) == enclosing,
    ensures
        siblings_in(blocks, from, to, enclosing, n).contains(i),
    decreases n,
{
    let after = siblings_in(blocks, from, to, enclosing, n);
    if i < n - 1 {
        sibling_is_found(blocks, from, to, enclosing, n - 1, i);
        let before = siblings_in(blocks, from, to, enclosing, n - 1);
        let k = choose|k: int| 0 <= k < before.len() && before[k] == i;
        assert(after[k] == i);
    } else {
        assert(after.last() == i);
    }
}

proof fn siblings_start_in(
    blocks: Seq<BlockView>,
    from: int,
    to: int,
    enclosing: Seq<int>,
    n: int,
)
    ensures
        siblings_in(blocks, from, to, enclosing, n).len() > 0 ==> from < to,
    decreases n,
{
    if n > 0 {
        siblings_start_in(blocks, from, to, enclosing, n - 1);
    }
}

proof fn root_starts_there(blocks: Seq<BlockView>, at: int, kind: Option<BlockKind>, i: int)
    requires
        0 <= i,
    ensures
        block_at_line(blocks, at, kind, i) matches Some(k) ==> i <= k < blocks.len()
            && blocks[k].span.start == at,
    decreases blocks.len() - i,
{
    if i < blocks.len() {
        root_starts_there(blocks, at, kind, i + 1);
    }
}

/// A split keeps the id: one of the blocks that come back has the id of the one
/// that was split.
pub proof fn a_split_keeps_the_id(
    w: OpWrite,
    ctx: NoteCtx,
    p: PlanView,
    idx: int,
    text: Seq<char>,
    fresh: Seq<Uuid>,
)
    requires
        done(w, ctx, p, fresh),
        split_plan(ctx.parsed.deep_view(), ctx.rows.deep_view(), idx, text) == Ok::<
            PlanView,
            OpFault,
        >(p),
    ensures
        w.block_ids@.len() >= 2,
        w.block_ids@.contains(ctx.rows.deep_view()[idx].id),
{
    let note = ctx.parsed.deep_view();
    let j = p.pins.len() - 1;
    a_pin_keeps_the_id(w, ctx, p, fresh, j);
    let first = p.pins[j].1;
    let new = p.probe.doc.blocks;
    let frag = fragment_of(text)->Ok_0;
    let froot = frag.doc.blocks[roots_of(frag.doc.blocks)[0]];
    let (start, end) = own_region(note, idx)->Ok_0;
    let sp = (replaced(
        note.source,
        note.doc.blocks[idx],
        start,
        end,
        frag.source,
        froot.kind == BlockKind::ListItem,
    )->Ok_0).0;
    assert(root_at(new, sp.line_start, froot.kind) == Some(first));
    root_starts_there(new, sp.line_start, Some(froot.kind), 0);
    root_starts_there(new, sp.line_start, None, 0);
    let n = new.len() as int;
    let enclosing = ancestors_of(new, first);
    siblings_start_in(new, sp.edit.0, sp.edit.1, enclosing, n);
    assert(p.results == siblings_in(new, sp.edit.0, sp.edit.1, enclosing, n));
    assert(sp.edit.0 == sp.line_start);
    sibling_is_found(new, sp.edit.0, sp.edit.1, enclosing, n, first);
    let k = choose|k: int| 0 <= k < p.results.len() && p.results[k] == first;
    assert(w.block_ids@[k] == ctx.rows.deep_view()[idx].id);
}

proof fn siblings_are(
    blocks: Seq<BlockView>,
    from: int,
    to: int,
    enclosing: Seq<int>,
    n: int,
)
    requires
        0 <= n <= blocks.len(),
    ensures
        forall|k: int|
            0 <= k < siblings_in(blocks, from, to, enclosing, n).len() ==> {
                let i = #[trigger] siblings_in(blocks, from, to, enclosing, n)[k];
                &&& 0 <= i < n
                &&& from <= blocks[i].span.start < to
                &&& ancestors_of(blocks, i) == enclosing
            },
    decreases n,
{
    if n > 0 {
        siblings_are(blocks, from, to, enclosing, n - 1);
        let a = siblings_in(blocks, from, to, enclosing, n - 1);
        let b = siblings_in(blocks, from, to, enclosing, n);
        assert(forall|k: int| 0 <= k < a.len() ==> #[trigger] b[k] == a[k]);
    }
}

/// What is inside a block has it among its ancestors.
proof fn inside_has_ancestor(blocks: Seq<BlockView>, i: int, idx: int)
    requires
        0 <= i < blocks.len(),
        parents_first(blocks),
        inside(blocks, i, idx),
    ensures
        ancestors_of(blocks, i).contains(idx),
    decreases i,
{
    let p = blocks[i].parent->0 as int;
    let up = ancestors_of(blocks, p);
    let all = ancestors_of(blocks, i);
    assert(all == up.push(p));
    if p == idx {
        assert(all.last() == idx);
    } else {
        inside_has_ancestor(blocks, p, idx);
        let k = choose|k: int| 0 <= k < up.len() && up[k] == idx;
        assert(all[k] == idx);
    }
}

/// The other pieces of a split are minted: every block that comes back, but for the one
/// that keeps the id, has an id that is new.
pub proof fn a_split_mints_the_rest(
    w: OpWrite,
    ctx: NoteCtx,
    p: PlanView,
    idx: int,
    text: Seq<char>,
    fresh: Seq<Uuid>,
    k: int,
)
    requires
        done(w, ctx, p, fresh),
        split_plan(ctx.parsed.deep_view(), ctx.rows.deep_view(), idx, text) == Ok::<
            PlanView,
            OpFault,
        >(p),
        fresh.len() >= p.probe.doc.blocks.len(),
        0 <= k < p.results.len(),
        p.results[k] != p.pins.last().1,
        p.probe.doc.blocks[p.results[k]].span.start < p.probe.doc.blocks[p.results[k]].span.end,
    ensures
        fresh.contains(w.block_ids@[k]),
{
    let j = p.pins.len() - 1;
    let first = p.pins[j].1;
    let new = p.probe.doc.blocks;
    let enclosing = ancestors_of(new, first);
    let e = p.edit_range->0;
    assert(p.results == siblings_in(new, e.0, e.1, enclosing, new.len() as int));
    siblings_are(new, e.0, e.1, enclosing, new.len() as int);
    let i = p.results[k];
    assert(parents_first(new));
    ancestors_ascend(new, i);
    ancestors_ascend(new, first);
    if pinned_new(p.pins, i) {
        let q = choose|q: int| 0 <= q < p.pins.len() && (#[trigger] p.pins[q]).1 == i;
        assert(q < j);
        assert(p.pins[q].1 == enclosing[q]);
        assert(ancestors_of(new, i)[q] == i);
    }
    if first < i < subtree_to(new, first) {
        subtree_bounds(new, first);
        inside_has_ancestor(new, i, first);
        let q = choose|q: int| 0 <= q < enclosing.len() && enclosing[q] == first;
        assert(enclosing[q] < first);
    }
    what_is_added_is_minted(w, ctx, p, fresh, i);
}

proof fn starting_in_are(blocks: Seq<BlockView>, from: int, to: int, n: int)
    requires
        0 <= n <= blocks.len(),
    ensures
        forall|k: int|
            0 <= k < starting_in(blocks, from, to, n).len() ==> {
                let i = #[trigger] starting_in(blocks, from, to, n)[k];
                0 <= i < n && from <= blocks[i].span.start < to
            },
        forall|j: int, k: int|
            0 <= j < k < starting_in(blocks, from, to, n).len() ==> #[trigger] starting_in(
                blocks,
                from,
                to,
                n,
            )[j] < #[trigger] starting_in(blocks, from, to, n)[k],
    decreases n,
{
    if n > 0 {
        starting_in_are(blocks, from, to, n - 1);
        let a = starting_in(blocks, from, to, n - 1);
        let b = starting_in(blocks, from, to, n);
        assert(forall|k: int| 0 <= k < a.len() ==> #[trigger] b[k] == a[k]);
    }
}

/// The pins of an insert are what encloses the first block that was put in.
proof fn insert_pins_enclose(
    note: NoteView,
    rows: Seq<RowView>,
    text: Seq<char>,
    before: Option<Uuid>,
    after: Option<Uuid>,
    p: PlanView,
)
    requires
        insert_plan(note, rows, text, before, after) == Ok::<PlanView, OpFault>(p),
    ensures
        p.edit_range is Some,
        p.scoped is None,
        p.results == starting_in(
            p.probe.doc.blocks,
            (p.edit_range->0).0,
            (p.edit_range->0).1,
            p.probe.doc.blocks.len() as int,
        ),
        forall|q: int|
            0 <= q < p.pins.len() ==> p.results.len() > 0 && ancestors_of(
                p.probe.doc.blocks,
                p.results[0],
            ).contains((#[trigger] p.pins[q]).1),
{
    assert forall|q: int| 0 <= q < p.pins.len() implies p.results.len() > 0 && ancestors_of(
        p.probe.doc.blocks,
        p.results[0],
    ).contains((#[trigger] p.pins[q]).1) by {
        let up = ancestors_of(p.probe.doc.blocks, p.results[0]);
        assert(p.pins[q].1 == up[q]);
    }
}

/// An insert mints: every block that is put in has an id that is new.
pub proof fn an_insert_mints_every_block(
    w: OpWrite,
    ctx: NoteCtx,
    p: PlanView,
    text: Seq<char>,
    before: Option<Uuid>,
    after: Option<Uuid>,
    fresh: Seq<Uuid>,
    k: int,
)
    requires
        done(w, ctx, p, fresh),
        insert_plan(ctx.parsed.deep_view(), ctx.rows.deep_view(), text, before, after) == Ok::<
            PlanView,
            OpFault,
        >(p),
        fresh.len() >= p.probe.doc.blocks.len(),
        0 <= k < p.results.len(),
        p.probe.doc.blocks[p.results[k]].span.start < p.probe.doc.blocks[p.results[k]].span.end,
    ensures
        fresh.contains(w.block_ids@[k]),
{
    let new = p.probe.doc.blocks;
    insert_pins_enclose(
        ctx.parsed.deep_view(),
        ctx.rows.deep_view(),
        text,
        before,
        after,
        p,
    );
    let e = p.edit_range->0;
    starting_in_are(new, e.0, e.1, new.len() as int);
    let i = p.results[k];
    let first = p.results[0];
    ancestors_ascend(new, first);
    if pinned_new(p.pins, i) {
        let q = choose|q: int| 0 <= q < p.pins.len() && (#[trigger] p.pins[q]).1 == i;
        let up = ancestors_of(new, first);
        let a = choose|a: int| 0 <= a < up.len() && up[a] == i;
        assert(up[a] < first);
        if k > 0 {
            assert(first < i);
        }
    }
    what_is_added_is_minted(w, ctx, p, fresh, i);
}

pub proof fn no_stranger(rows: Seq<RowView>, ids: Seq<Uuid>, k: int)
    requires
        0 <= k,
        first_stranger(rows, ids, k) is None,
    ensures
        forall|j: int| k <= j < ids.len() ==> position(rows, #[trigger] ids[j], 0) is Some,
    decreases ids.len() - k,
{
    if k < ids.len() {
        no_stranger(rows, ids, k + 1);
    }
}

pub proof fn members_are_rows(rows: Seq<RowView>, ids: Seq<Uuid>, n: int)
    requires
        0 <= n <= ids.len(),
        forall|j: int| 0 <= j < ids.len() ==> position(rows, #[trigger] ids[j], 0) is Some,
    ensures
        forall|k: int|
            0 <= k < members(rows, ids, n).len() ==> 0 <= #[trigger] members(rows, ids, n)[k]
                < rows.len(),
    decreases n,
{
    if n > 0 {
        members_are_rows(rows, ids, n - 1);
        members_ascend(rows, ids, n - 1);
        assert(position(rows, ids[n - 1], 0) is Some);
        position_facts(rows, ids[n - 1], 0);
        let s = members(rows, ids, n - 1);
        let x = position(rows, ids[n - 1], 0)->0;
        with_index_ascends(s, x);
        assert forall|k: int| 0 <= k < with_index(s, x).len() implies 0 <= #[trigger] with_index(
            s,
            x,
        )[k] < rows.len() by {
            if with_index(s, x)[k] != x {
                let m = choose|m: int| 0 <= m < s.len() && s[m] == with_index(s, x)[k];
                assert(0 <= s[m] < rows.len());
            }
        }
    }
}

/// Members that follow each other: each but the first starts where the one before it
/// ends.
proof fn run_follows(old: Seq<BlockView>, s: Seq<int>, k: int)
    requires
        0 <= k,
        run_break(old, s, k) is None,
    ensures
        forall|j: int| k <= j < s.len() && j > 0 ==> #[trigger] s[j] == subtree_to(old, s[j - 1]),
    decreases s.len() - k,
{
    if k < s.len() {
        run_follows(old, s, k + 1);
    }
}

/// A merge keeps the survivor's id, and the ids of the other members are gone.
pub proof fn a_merge_keeps_the_id(
    w: OpWrite,
    ctx: NoteCtx,
    p: PlanView,
    ids: Seq<Uuid>,
    text: Seq<char>,
    keep: Option<Uuid>,
    fresh: Seq<Uuid>,
)
    requires
        done(w, ctx, p, fresh),
        merge_plan(ctx.parsed.deep_view(), ctx.rows.deep_view(), ids, text, keep) == Ok::<
            PlanView,
            OpFault,
        >(p),
        fresh.len() >= p.probe.doc.blocks.len(),
        unheard_of(fresh, ctx.rows.deep_view()),
    ensures
        w.block_ids@.len() == 1,
        keep matches Some(id) ==> w.block_ids@[0] == id,
        keep is None ==> w.block_ids@[0] == ctx.rows.deep_view()[members(
            ctx.rows.deep_view(),
            ids,
            ids.len() as int,
        )[0]].id,
        ({
            let s = members(ctx.rows.deep_view(), ids, ids.len() as int);
            forall|j: int|
                0 <= j < s.len() && ctx.rows.deep_view()[s[j]].id != w.block_ids@[0]
                    ==> !w.carry.ids@.contains(ctx.rows.deep_view()[#[trigger] s[j]].id)
        }),
{
    let note = ctx.parsed.deep_view();
    let rows = ctx.rows.deep_view();
    let j = p.pins.len() - 1;
    a_pin_keeps_the_id(w, ctx, p, fresh, j);
    let (s, k) = merge_set(note, rows, ids, keep)->Ok_0;
    let keep_id = match keep {
        Some(id) => id,
        None => rows[s[0]].id,
    };
    keeper_has_the_id(rows, s, keep_id, 0);
    assert(p.pins[j].0 == k && p.results[0] == p.pins[j].1);
    let all = w.carry.ids@;
    assert forall|i: int| 0 <= i < s.len() && rows[s[i]].id != w.block_ids@[0] implies !all.contains(
        rows[#[trigger] s[i]].id,
    ) by {
        a_member_is_gone(w, ctx, p, ids, text, keep, fresh, i);
    }
}

/// A member of a merge is inside the run, and not inside the survivor.
proof fn member_is_beside(note: NoteView, rows: Seq<RowView>, ids: Seq<Uuid>, keep: Option<Uuid>, i: int)
    requires
        merge_set(note, rows, ids, keep) is Ok,
        rows.len() == note.doc.blocks.len(),
        0 <= i < merge_set(note, rows, ids, keep)->Ok_0.0.len(),
    ensures
        ({
            let (s, k) = merge_set(note, rows, ids, keep)->Ok_0;
            &&& 0 <= s[0] <= s[i] < subtree_to(note.doc.blocks, s.last())
            &&& s[i] < rows.len()
            &&& k < s[i] ==> subtree_to(note.doc.blocks, k) <= s[i]
        }),
{
    let old = note.doc.blocks;
    let (s, k) = merge_set(note, rows, ids, keep)->Ok_0;
    let keep_id = match keep {
        Some(id) => id,
        None => rows[s[0]].id,
    };
    keeper_has_the_id(rows, s, keep_id, 0);
    members_ascend(rows, ids, ids.len() as int);
    no_stranger(rows, ids, 0);
    members_are_rows(rows, ids, ids.len() as int);
    run_follows(old, s, 0);
    subtree_bounds(old, s.last());
    let b = choose|b: int| 0 <= b < s.len() && s[b] == k;
    if k < s[i] {
        assert(b < i) by {
            if i < b {
                assert(s[i] < s[b]);
            }
        }
        assert(s[b + 1] == subtree_to(old, s[b]));
        if b + 1 < i {
            assert(s[b + 1] < s[i]);
        }
    }
    if i > 0 {
        assert(s[0] < s[i]);
    }
    if i < s.len() - 1 {
        assert(s[i] < s[s.len() - 1]);
    }
}

proof fn a_member_is_gone(
    w: OpWrite,
    ctx: NoteCtx,
    p: PlanView,
    ids: Seq<Uuid>,
    text: Seq<char>,
    keep: Option<Uuid>,
    fresh: Seq<Uuid>,
    i: int,
)
    requires
        done(w, ctx, p, fresh),
        merge_plan(ctx.parsed.deep_view(), ctx.rows.deep_view(), ids, text, keep) == Ok::<
            PlanView,
            OpFault,
        >(p),
        fresh.len() >= p.probe.doc.blocks.len(),
        unheard_of(fresh, ctx.rows.deep_view()),
        ({
            let (s, k) = merge_set(ctx.parsed.deep_view(), ctx.rows.deep_view(), ids, keep)->Ok_0;
            0 <= i < s.len() && s[i] != k
        }),
    ensures
        ({
            let (s, k) = merge_set(ctx.parsed.deep_view(), ctx.rows.deep_view(), ids, keep)->Ok_0;
            !w.carry.ids@.contains(ctx.rows.deep_view()[s[i]].id)
        }),
{
    let note = ctx.parsed.deep_view();
    let rows = ctx.rows.deep_view();
    let old = note.doc.blocks;
    let (s, k) = merge_set(note, rows, ids, keep)->Ok_0;
    member_is_beside(note, rows, ids, keep, i);
    ancestors_ascend(old, s[0]);
    let m = s[i];
    let j = p.pins.len() - 1;
    assert(p.pins[j].0 == k);
    if pinned_old(p.pins, m) {
        let q = choose|q: int| 0 <= q < p.pins.len() && (#[trigger] p.pins[q]).0 == m;
        if q < j {
            assert(p.pins[q].0 == ancestors_of(old, s[0])[q]);
        }
    }
    what_is_replaced_is_gone(w, ctx, p, fresh, m);
}

proof fn keeper_has_the_id(rows: Seq<RowView>, s: Seq<int>, id: Uuid, k: int)
    ensures
        keeper(rows, s, id, k) matches Some(i) ==> rows[i].id == id && s.contains(i),
    decreases s.len() - k,
{
    if 0 <= k < s.len() {
        keeper_has_the_id(rows, s, id, k + 1);
    }
}

/// A move keeps every block: as many as before, each with its id, its kind and its
/// content; only the order changes.
pub proof fn a_move_keeps_every_block(
    w: OpWrite,
    ctx: NoteCtx,
    p: PlanView,
    idx: int,
    before: Option<Uuid>,
    after: Option<Uuid>,
    fresh: Seq<Uuid>,
)
    requires
        done(w, ctx, p, fresh),
        0 <= idx < ctx.rows.len(),
        move_plan(ctx.parsed.deep_view(), ctx.rows.deep_view(), idx, before, after) == Ok::<
            PlanView,
            OpFault,
        >(p),
    ensures
        p.probe.doc.blocks.len() == ctx.rows.len(),
        w.block_ids@ == seq![ctx.rows.deep_view()[idx].id],
        forall|k: int|
            0 <= k < p.pins.len() ==> {
                &&& (#[trigger] p.pins[k]).1 == k
                &&& w.carry.ids@[k] == ctx.rows.deep_view()[p.pins[k].0].id
                &&& same_block(
                    ctx.parsed.deep_view().doc.blocks[p.pins[k].0],
                    p.probe.doc.blocks[k],
                )
            },
        one_to_one(p.pins),
{
    let old = ctx.parsed.deep_view().doc.blocks;
    pins_in_range(old, p.probe.doc.blocks, p.pins, p.strict, 0);
    assert forall|k: int| 0 <= k < p.pins.len() implies {
        &&& (#[trigger] p.pins[k]).1 == k
        &&& w.carry.ids@[k] == ctx.rows.deep_view()[p.pins[k].0].id
        &&& same_block(old[p.pins[k].0], p.probe.doc.blocks[k])
    } by {
        a_pin_keeps_the_id(w, ctx, p, fresh, k);
    }
    let at = p.results[0];
    subtree_bounds(old, idx);
    assert(p.pins[at] == (idx, at));
    assert(w.block_ids@ =~= seq![ctx.rows.deep_view()[idx].id]);
}

// ---- finding the block ----

/// The note that a block is in, if the block is one of the vault. `found` is the
/// note and the vault of the block, if there is such a block in a live note.
pub fn block_home(found: Option<(Uuid, Uuid)>, vault: Uuid) -> (r: Result<Uuid, OpFault>)
    ensures
        r == (match found {
            None => Err::<Uuid, OpFault>(OpFault::BlockMissing),
            Some((note, home)) => if home != vault {
                Err::<Uuid, OpFault>(OpFault::OtherVault)
            } else {
                Ok::<Uuid, OpFault>(note)
            },
        }),
{
    match found {
        None => Err(OpFault::BlockMissing),
        Some((note, home)) => if home != vault {
            Err(OpFault::OtherVault)
        } else {
            Ok(note)
        },
    }
}

/// The parse of a stored note, which must have a block for each of its rows.
pub fn load_note(preamble: &str, tiles: &Vec<String>, rows: &Vec<BlockRow>) -> (r: Result<
    ParsedNote,
    OpFault,
>)
    ensures
        match parsed_as(preamble@ + concat(tiles.deep_view())) {
            Some(n) => if n.doc.blocks.len() == rows.len() {
                r matches Ok(p) && p.deep_view() == n && note_ok(n) && p.doc.blocks.len()
                    == rows.len()
            } else {
                r matches Err(f) && f == OpFault::Unsliceable
            },
            None => r matches Err(f) && f == OpFault::Unparsable,
        },
{
    let source = source_of(preamble, tiles);
    match reparse(source.as_str()) {
        Some(p) => {
            assert(p.deep_view().doc.blocks.len() == p.doc.blocks.len());
            if p.doc.blocks.len() == rows.len() {
                Ok(p)
            } else {
                Err(OpFault::Unsliceable)
            }
        },
        None => Err(OpFault::Unparsable),
    }
}

/// The position of a block among the rows, which must be as many as the parse has
/// blocks.
pub fn target_index(rows: &Vec<BlockRow>, blocks: usize, id: Uuid) -> (r: Result<usize, OpFault>)
    ensures
        match r {
            Ok(i) => {
                &&& rows.len() == blocks
                &&& position(rows.deep_view(), id, 0) == Some(i as int)
                &&& i < rows.len()
            },
            Err(f) => if rows.len() != blocks {
                f == OpFault::Unsliceable
            } else {
                f == OpFault::BlockMissing && position(rows.deep_view(), id, 0) is None
            },
        },
{
    if rows.len() != blocks {
        return Err(OpFault::Unsliceable);
    }
    match find_row(rows, id) {
        Some(i) => Ok(i),
        None => Err(OpFault::BlockMissing),
    }
}

} // verus!
