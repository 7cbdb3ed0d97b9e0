//! Where block operations put things, told by what comes before and after.

use vstd::prelude::*;
use vstd::utf8::*;

use crate::commit::PlanView;
use crate::document::{BlockKind, BlockView};
use crate::faults::OpFault;
use crate::history::{position, position_facts};
use crate::ids::Uuid;
use crate::note::NoteView;
use crate::ops::{
    ascend, first_stranger, fragment_of, insert_plan, insert_tiles_plan, item_position, items_for,
    keeper, kept_width, line_prefix_for, loses_children, members, members_are_rows, members_ascend,
    merge_plan, merge_set, move_pins, move_plan, no_stranger, own_region, place_among_rest,
    run_break, run_landing, split_plan, tiles_with, update_plan, with_index,
};
use crate::splice::{
    content_end_of, cut, cut_bytes, cut_in_three, cut_in_two, decorated, landing, last_line,
    last_line_at_end, lesser, line_start, lines_moved, marker_of, newlines_at_end, remarked,
    replacement, seamed, seamed_all, spliced, tile_moved, with_blank_line,
};
use crate::store::RowView;
use crate::text::{
    char_bytes, char_offset_boundary, concat, encode_concat, encode_injective, trail, trail_run,
    trimmed_end, CharSet,
};
use crate::tree::{
    container_child, containers_from, has_containers, own_cut, roots_of, spans_to, subtree_bounds,
    subtree_to, top_level_child,
};

verus! {

/// The row at `i` is the first with its id.
pub open spec fn is_row(rows: Seq<RowView>, i: int, id: Uuid) -> bool {
    &&& 0 <= i < rows.len()
    &&& rows[i].id == id
    &&& forall|j: int| 0 <= j < i ==> (#[trigger] rows[j]).id != id
}

proof fn row_is_found(rows: Seq<RowView>, ai: int, id: Uuid, i: int)
    requires
        is_row(rows, ai, id),
        0 <= i <= ai,
    ensures
        position(rows, id, i) == Some(ai),
    decreases ai - i,
{
    if i < ai {
        assert(rows[i].id != id);
        row_is_found(rows, ai, id, i + 1);
    }
}

// ---- tiles ----

/// A tile without the line feeds at its end.
pub open spec fn bare(tile: Seq<char>) -> Seq<char> {
    trimmed_end(CharSet::Newline, tile)
}

proof fn bare_push(s: Seq<char>)
    ensures
        bare(s.push('\n')) == bare(s),
{
    let t = s.push('\n');
    assert(t.drop_last() =~= s);
    assert(t.last() == '\n');
    assert(trail(CharSet::Newline, t) == 1 + trail(CharSet::Newline, s));
    trail_run(CharSet::Newline, s);
    assert(bare(t) =~= bare(s));
}

proof fn bare_append(s: Seq<char>, t: Seq<char>)
    requires
        forall|i: int| 0 <= i < t.len() ==> #[trigger] t[i] == '\n',
    ensures
        bare(s + t) == bare(s),
    decreases t.len(),
{
    if t.len() == 0 {
        assert(s + t =~= s);
    } else {
        assert(s + t =~= (s + t.drop_last()).push('\n'));
        bare_append(s, t.drop_last());
        bare_push(s + t.drop_last());
    }
}

proof fn bare_again(s: Seq<char>)
    ensures
        bare(bare(s)) == bare(s),
{
    trail_run(CharSet::Newline, s);
    let b = bare(s);
    if b.len() > 0 {
        assert(b.last() == s[s.len() - trail(CharSet::Newline, s) - 1]);
    }
    assert(trail(CharSet::Newline, b) == 0);
    assert(bare(b) =~= b);
}

/// Separators change only the line feeds at the ends of tiles.
proof fn seams_are_line_feeds(
    tiles: Seq<Seq<char>>,
    from: int,
    to: int,
    source: Seq<char>,
    i: int,
)
    requires
        0 <= i < tiles.len(),
    ensures
        bare(seamed(tiles, from, to, newlines_at_end(source), i)) == bare(tiles[i]),
{
    let nl = newlines_at_end(source);
    trail_run(CharSet::Newline, source);
    assert forall|k: int| 0 <= k < nl.len() implies #[trigger] nl[k] == '\n' by {
        assert(nl[k] == source[source.len() - trail(CharSet::Newline, source) + k]);
        assert(CharSet::Newline.has(nl[k]));
    }
    if i == tiles.len() - 1 {
        bare_append(bare(tiles[i]), nl);
        bare_again(tiles[i]);
    } else {
        let s = tiles[i];
        bare_push(s);
        bare_push(s.push('\n'));
    }
}

/// The new tiles are the old ones with others put in, in one piece, after the first
/// `q`; nothing is lost, and only line feeds at the ends of tiles differ.
pub open spec fn put_in(
    old: Seq<Seq<char>>,
    put: Seq<Seq<char>>,
    new: Seq<Seq<char>>,
    q: int,
) -> bool {
    &&& 0 <= q <= old.len()
    &&& new.len() == old.len() + put.len()
    &&& forall|i: int| 0 <= i < q ==> bare(#[trigger] new[i]) == bare(old[i])
    &&& forall|j: int| 0 <= j < put.len() ==> bare(#[trigger] new[q + j]) == bare(put[j])
    &&& forall|i: int|
        q <= i < old.len() ==> bare(#[trigger] new[put.len() + i]) == bare(old[i])
}

/// Where another tile follows, what was put in and the tile before it end with a
/// blank line; the last tile ends as the old source did.
pub open spec fn set_apart(
    new: Seq<Seq<char>>,
    q: int,
    to: int,
    source: Seq<char>,
) -> bool {
    &&& forall|i: int|
        0 <= i < new.len() - 1 && q - 1 <= i < to ==> {
            let t = #[trigger] new[i];
            t.len() >= 2 && t.last() == '\n' && t[t.len() - 2] == '\n'
        }
    &&& new.len() > 0 ==> new.last() == bare(new.last()) + newlines_at_end(source)
}

proof fn tiles_are_put_in(
    note: NoteView,
    frag: Seq<Seq<char>>,
    pos: int,
    p: PlanView,
) -> (new: Seq<Seq<char>>)
    requires
        0 <= pos <= note.tiles.len(),
        insert_tiles_plan(note, frag, pos) == Ok::<PlanView, OpFault>(p),
    ensures
        put_in(note.tiles, frag, new, pos),
        set_apart(new, pos, pos + frag.len(), note.source),
        cut(note.source, 0, note.doc.preamble.end as int) is Some,
        p.probe.source == cut(note.source, 0, note.doc.preamble.end as int)->0 + concat(new),
{
    let with = tiles_with(note.tiles, frag, pos);
    let nl = newlines_at_end(note.source);
    let new = seamed_all(with, pos, pos + frag.len(), nl);
    assert forall|i: int| 0 <= i < new.len() implies bare(#[trigger] new[i]) == bare(with[i]) by {
        seams_are_line_feeds(with, pos, pos + frag.len(), note.source, i);
    }
    assert forall|i: int| 0 <= i < pos implies bare(#[trigger] new[i]) == bare(
        note.tiles[i],
    ) by {
        assert(with[i] == note.tiles[i]);
    }
    assert forall|j: int| 0 <= j < frag.len() implies bare(#[trigger] new[pos + j]) == bare(
        frag[j],
    ) by {
        assert(with[pos + j] == frag[j]);
    }
    assert forall|i: int| pos <= i < note.tiles.len() implies bare(
        #[trigger] new[frag.len() + i],
    ) == bare(note.tiles[i]) by {
        assert(with[frag.len() + i] == note.tiles[i]);
    }
    if new.len() > 0 {
        let l = new.len() - 1;
        bare_again(with[l]);
        trail_run(CharSet::Newline, note.source);
        assert(new[l] == bare(with[l]) + nl);
        assert(bare(new[l]) == bare(with[l]));
    }
    assert forall|i: int|
        0 <= i < new.len() - 1 && pos - 1 <= i < pos + frag.len() implies {
        let t = #[trigger] new[i];
        t.len() >= 2 && t.last() == '\n' && t[t.len() - 2] == '\n'
    } by {
        assert(new[i] == with_blank_line(with[i]));
    }
    new
}

/// What is inserted beside a block of the top level stands right beside it: before it,
/// with the anchor's tile the next one after what was put in; or after it, with the
/// anchor's tile the last one before. All tiles up to there come first, in their
/// order, and the others follow, in theirs. Without an anchor it stands at the end.
/// Blank lines set it apart.
pub proof fn an_insert_stands_beside_its_anchor(
    note: NoteView,
    rows: Seq<RowView>,
    text: Seq<char>,
    before: Option<Uuid>,
    after: Option<Uuid>,
    ai: int,
    p: PlanView,
)
    requires
        insert_plan(note, rows, text, before, after) == Ok::<PlanView, OpFault>(p),
        before is Some || after is Some ==> {
            &&& is_row(rows, ai, rows[ai].id)
            &&& before == Some(rows[ai].id) || after == Some(rows[ai].id)
            &&& note.doc.blocks[ai].kind != BlockKind::ListItem
        },
    ensures
        fragment_of(text) is Ok,
        exists|new: Seq<Seq<char>>, q: int|
            {
                let frag = fragment_of(text)->Ok_0.tiles;
                let t = note.placement[ai].0 as int;
                let head = cut(note.source, 0, note.doc.preamble.end as int);
                &&& #[trigger] put_in(note.tiles, fragment_of(text)->Ok_0.tiles, new, q)
                &&& set_apart(new, q, q + frag.len(), note.source)
                &&& head is Some
                &&& p.probe.source == head->0 + concat(new)
                &&& before is Some ==> q + frag.len() < new.len() && bare(
                    new[q + frag.len()],
                ) == bare(note.tiles[t]) && q == t
                &&& after is Some ==> q > 0 && bare(new[q - 1]) == bare(note.tiles[t]) && q - 1
                    == t
                &&& before is None && after is None ==> q == note.tiles.len()
            },
{
    let frag = fragment_of(text)->Ok_0;
    if before is Some || after is Some {
        row_is_found(rows, ai, rows[ai].id, 0);
        let t = note.placement[ai].0 as int;
        let q = if before is Some {
            t
        } else {
            t + 1
        };
        let new = tiles_are_put_in(note, frag.tiles, q, p);
        assert(put_in(note.tiles, frag.tiles, new, q));
        if before is Some {
            assert(bare(new[frag.tiles.len() + t]) == bare(note.tiles[t]));
        } else {
            assert(bare(new[t]) == bare(note.tiles[t]));
        }
    } else {
        let q = note.tiles.len() as int;
        let new = tiles_are_put_in(note, frag.tiles, q, p);
        assert(put_in(note.tiles, frag.tiles, new, q));
    }
}

// ---- lines ----

/// Byte offset `at` is where the line that holds offset `pos` starts.
pub open spec fn starts_line_of(src: Seq<char>, at: int, pos: int) -> bool {
    let b = encode_utf8(src);
    &&& 0 <= at <= pos <= b.len()
    &&& cut(src, 0, at) matches Some(head) && (head.len() == 0 || head.last() == '\n')
    &&& cut(src, at, pos) matches Some(line) && !line.contains('\n')
}

proof fn last_line_is_one(s: Seq<char>)
    ensures
        !last_line(s).contains('\n'),
        ({
            let head = s.take(s.len() - last_line(s).len());
            head.len() == 0 || head.last() == '\n'
        }),
        last_line(s).len() <= s.len(),
    decreases s.len(),
{
    if s.len() > 0 && s.last() != '\n' {
        let t = s.drop_last();
        last_line_is_one(t);
        assert(s.take(s.len() - last_line(s).len()) =~= t.take(t.len() - last_line(t).len()));
        assert forall|i: int| 0 <= i < last_line(s).len() implies last_line(s)[i] != '\n' by {
            if i < last_line(t).len() {
                assert(last_line(t).contains(last_line(t)[i]));
                assert(last_line(s)[i] == last_line(t)[i]);
            }
        }
    } else {
        assert(s.take(s.len() as int) =~= s);
    }
}

proof fn line_starts_there(src: Seq<char>, pos: int)
    requires
        cut(src, 0, pos) is Some,
    ensures
        starts_line_of(src, line_start(src, pos), pos),
{
    let h = cut(src, 0, pos)->0;
    let b = encode_utf8(src);
    let line = last_line(h);
    let k = h.len() - line.len();
    last_line_at_end(h);
    last_line_is_one(h);
    let head = h.take(k);
    let at = line_start(src, pos);
    cut_bytes(src, 0, pos);
    encode_concat(head, line);
    cut_in_two(src, pos);
    let tail = cut(src, pos, b.len() as int)->0;
    encode_concat(h, tail);
    assert(h == head + line);
    assert(encode_utf8(head).len() == at);
    assert(src =~= head + (line + tail));
    encode_concat(head, line + tail);
    text_is_cut(src, head, line, tail);
}

/// A text in three parts is cut where the parts meet.
proof fn text_is_cut(src: Seq<char>, a: Seq<char>, m: Seq<char>, z: Seq<char>)
    requires
        src == a + (m + z),
    ensures
        ({
            let i = encode_utf8(a).len() as int;
            let j = i + encode_utf8(m).len();
            &&& cut(src, 0, i) == Some(a)
            &&& cut(src, i, j) == Some(m)
            &&& j <= encode_utf8(src).len()
        }),
{
    let b = encode_utf8(src);
    let i = encode_utf8(a).len() as int;
    let j = i + encode_utf8(m).len();
    encode_concat(a, m + z);
    encode_concat(m, z);
    encode_utf8_valid_utf8(src);
    char_offset_boundary(src, a.len() as int);
    assert(src.take(a.len() as int) =~= a);
    char_offset_boundary(src, (a.len() + m.len()) as int);
    assert(src.take((a.len() + m.len()) as int) =~= a + m);
    encode_concat(a, m);
    is_char_boundary_start_end_of_seq(b);
    cut_bytes(src, 0, i);
    cut_bytes(src, i, j);
    assert(b.subrange(0, i) =~= encode_utf8(a));
    assert(b.subrange(i, j) =~= encode_utf8(m));
    encode_injective(cut(src, 0, i)->0, a);
    encode_injective(cut(src, i, j)->0, m);
}

/// Byte offset `at` is where the blocks from `from` up to `to` end: none of them
/// reaches further, and one ends there.
pub open spec fn ends_run(blocks: Seq<BlockView>, from: int, to: int, at: int) -> bool {
    &&& forall|k: int| from <= k < to ==> (#[trigger] blocks[k]).span.end <= at
    &&& exists|k: int| from <= k < to && (#[trigger] blocks[k]).span.end == at
}

proof fn spans_end_run(blocks: Seq<BlockView>, from: int, to: int)
    requires
        from < to,
    ensures
        ends_run(blocks, from, to, spans_to(blocks, from, to)),
    decreases to - from,
{
    if to > from + 1 {
        spans_end_run(blocks, from, to - 1);
        let at = spans_to(blocks, from, to - 1);
        let k = choose|k: int| from <= k < to - 1 && (#[trigger] blocks[k]).span.end == at;
        assert(blocks[k].span.end == at);
        assert(blocks[to - 1].span.end <= spans_to(blocks, from, to));
    } else {
        assert(blocks[from].span.end == spans_to(blocks, from, to));
    }
}

// ---- items ----

proof fn items_end_lines(
    frag: NoteView,
    roots: Seq<int>,
    marker: Seq<char>,
    prefix: Seq<char>,
    n: int,
) -> (parts: Seq<Seq<char>>)
    requires
        items_for(frag, roots, marker, prefix, n) is Some,
        0 <= n,
    ensures
        parts.len() == n,
        concat(parts) == items_for(frag, roots, marker, prefix, n)->0,
        lines_of_items(parts, prefix),
    decreases n,
{
    if n > 0 {
        let old = items_end_lines(frag, roots, marker, prefix, n - 1);
        let all = items_for(frag, roots, marker, prefix, n)->0;
        let item = frag.doc.blocks[roots[n - 1]];
        let text = cut(frag.source, item.span.start as int, item.span.end as int)->0;
        let own = item.first_line_strip_full - item.first_line_strip_outer;
        let body = trimmed_end(CharSet::Newline, remarked(text, own, marker));
        let part = (prefix + decorated(body, prefix)).push('\n');
        let parts = old.push(part);
        assert(parts.drop_last() =~= old);
        assert(all =~= concat(old) + part);
        assert(prefix =~= part.take(prefix.len() as int));
        assert forall|i: int| 0 <= i < parts.len() implies (#[trigger] parts[i]).len() > 0
            && parts[i].last() == '\n' && prefix.is_prefix_of(parts[i]) by {
            if i < old.len() {
                assert(parts[i] == old[i]);
            }
        }
        parts
    } else {
        Seq::empty()
    }
}

/// Each part starts with the prefix and ends with a line feed.
pub open spec fn lines_of_items(parts: Seq<Seq<char>>, prefix: Seq<char>) -> bool {
    forall|i: int|
        0 <= i < parts.len() ==> (#[trigger] parts[i]).len() > 0 && parts[i].last() == '\n'
            && prefix.is_prefix_of(parts[i])
}

/// The new source is the old one with these parts put in between its two ends.
pub open spec fn text_put_in(
    old: Seq<char>,
    new: Seq<char>,
    head: Seq<char>,
    put: Seq<Seq<char>>,
    tail: Seq<char>,
) -> bool {
    &&& old == head + tail
    &&& new == head + concat(put) + tail
}

/// What is inserted beside a list item stands at the start of the item's line, or
/// where the item ends with everything inside it. The source stays as it was before
/// and after it. As many items are put in as the fragment has, each on lines of its
/// own that start as the anchor's line does.
pub proof fn items_stand_beside_their_anchor(
    note: NoteView,
    rows: Seq<RowView>,
    text: Seq<char>,
    before: Option<Uuid>,
    after: Option<Uuid>,
    ai: int,
    p: PlanView,
)
    requires
        insert_plan(note, rows, text, before, after) == Ok::<PlanView, OpFault>(p),
        before is Some || after is Some,
        is_row(rows, ai, rows[ai].id),
        before == Some(rows[ai].id) || after == Some(rows[ai].id),
        ai < note.doc.blocks.len(),
        note.doc.blocks[ai].kind == BlockKind::ListItem,
    ensures
        exists|head: Seq<char>, put: Seq<Seq<char>>, tail: Seq<char>|
            {
                let old = note.doc.blocks;
                let at = encode_utf8(head).len() as int;
                &&& #[trigger] text_put_in(note.source, p.probe.source, head, put, tail)
                &&& p.edit_range == Some((at, at + encode_utf8(concat(put)).len()))
                &&& fragment_of(text) is Ok
                &&& put.len() == roots_of(fragment_of(text)->Ok_0.doc.blocks).len()
                &&& lines_of_items(put, old[ai].line_prefix)
                &&& before is Some ==> starts_line_of(note.source, at, old[ai].span.start as int)
                &&& after is Some ==> ends_run(old, ai, subtree_to(old, ai), at)
            },
{
    row_is_found(rows, ai, rows[ai].id, 0);
    let old = note.doc.blocks;
    let a = old[ai];
    let frag = fragment_of(text)->Ok_0;
    let roots = roots_of(frag.doc.blocks);
    let marker = marker_of(
        note.source,
        a.span.start as int,
        a.first_line_strip_outer as int,
        a.first_line_strip_full as int,
    );
    let pos = item_position(note, ai, before is Some)->0;
    let put = items_end_lines(frag, roots, marker, a.line_prefix, roots.len() as int);
    let head = cut(note.source, 0, pos)->0;
    let tail = cut(note.source, pos, encode_utf8(note.source).len() as int)->0;
    cut_in_two(note.source, pos);
    cut_bytes(note.source, 0, pos);
    subtree_bounds(old, ai);
    spans_end_run(old, ai, subtree_to(old, ai));
    if before is Some {
        line_starts_there(note.source, a.span.start as int);
    }
    assert(text_put_in(note.source, p.probe.source, head, put, tail));
}

// ---- moves ----

/// A plan brings old block `i` to stand at `k`.
pub open spec fn comes_to(p: PlanView, i: int, k: int) -> bool {
    exists|e: int| 0 <= e < p.pins.len() && #[trigger] p.pins[e] == (i, k)
}

/// A plan has a place for old block `i` among the `n` of the new note.
pub open spec fn has_place(p: PlanView, i: int, n: int) -> bool {
    exists|k: int| 0 <= k < n && #[trigger] comes_to(p, i, k)
}

proof fn move_pins_tell(n: int, from: int, to: int, at: int, i: int, k: int)
    requires
        0 <= from < to <= n,
        0 <= at <= n - (to - from),
    ensures
        (exists|e: int| 0 <= e < n && #[trigger] move_pins(n, from, to, at)[e] == (i, k)) <==> 0
            <= i < n && k == (if from <= i < to {
            at + (i - from)
        } else if place_among_rest(i, from, to) < at {
            place_among_rest(i, from, to)
        } else {
            place_among_rest(i, from, to) + (to - from)
        }),
{
    let ps = move_pins(n, from, to, at);
    let want = if from <= i < to {
        at + (i - from)
    } else if place_among_rest(i, from, to) < at {
        place_among_rest(i, from, to)
    } else {
        place_among_rest(i, from, to) + (to - from)
    };
    if 0 <= i < n && k == want {
        assert(ps[k] == (i, k));
    }
}

/// A moved block, with what is inside it, comes to stand right before its anchor, or
/// right after it and what is inside it. Every block has one place afterwards; the
/// moved ones keep their order, and so do the others.
pub proof fn a_move_lands_beside_its_anchor(
    note: NoteView,
    rows: Seq<RowView>,
    idx: int,
    before: Option<Uuid>,
    after: Option<Uuid>,
    ai: int,
    p: PlanView,
)
    requires
        move_plan(note, rows, idx, before, after) == Ok::<PlanView, OpFault>(p),
        is_row(rows, ai, rows[ai].id),
        before == Some(rows[ai].id) || after == Some(rows[ai].id),
        0 <= idx < note.doc.blocks.len(),
        ai < note.doc.blocks.len(),
    ensures
        ({
            let old = note.doc.blocks;
            let t_end = subtree_to(old, idx);
            &&& forall|i: int|
                0 <= i < old.len() ==> #[trigger] has_place(p, i, old.len() as int)
            &&& forall|i: int, j: int, k: int, l: int| #[trigger]
                comes_to(p, i, k) && #[trigger] comes_to(p, j, l) && i < j && (idx <= i < t_end) == (
                idx <= j < t_end) ==> k < l
            &&& forall|i: int, k: int, l: int| #[trigger]
                comes_to(p, i, k) && #[trigger] comes_to(p, i, l) ==> k == l
            &&& before is Some ==> forall|k: int, l: int| #[trigger]
                comes_to(p, t_end - 1, k) && #[trigger] comes_to(p, ai, l) ==> l == k + 1
            &&& after is Some ==> forall|k: int, l: int| #[trigger]
                comes_to(p, idx, k) && #[trigger] comes_to(p, subtree_to(old, ai) - 1, l) ==> k == l
                + 1
            &&& p.results.len() == 1 && comes_to(p, idx, p.results[0])
        }),
{
    row_is_found(rows, ai, rows[ai].id, 0);
    let old = note.doc.blocks;
    let n = old.len() as int;
    let t_end = subtree_to(old, idx);
    let a_end = subtree_to(old, ai);
    subtree_bounds(old, idx);
    subtree_bounds(old, ai);
    let at = run_landing(idx, t_end, ai, a_end, before is Some);
    assert(p.pins == move_pins(n, idx, t_end, at));
    assert forall|i: int, k: int| #[trigger] comes_to(p, i, k) <==> 0 <= i < n && k == (if idx <= i
        < t_end {
        at + (i - idx)
    } else if place_among_rest(i, idx, t_end) < at {
        place_among_rest(i, idx, t_end)
    } else {
        place_among_rest(i, idx, t_end) + (t_end - idx)
    }) by {
        move_pins_tell(n, idx, t_end, at, i, k);
    }
    assert forall|i: int| 0 <= i < n implies #[trigger] has_place(p, i, n) by {
        let k = if idx <= i < t_end {
            at + (i - idx)
        } else if place_among_rest(i, idx, t_end) < at {
            place_among_rest(i, idx, t_end)
        } else {
            place_among_rest(i, idx, t_end) + (t_end - idx)
        };
        assert(comes_to(p, i, k));
    }
}

/// The new tiles are the old ones with tile `t` taken out and put in at `at`, but for
/// line feeds at the ends of tiles.
pub open spec fn tile_taken_to(
    old: Seq<Seq<char>>,
    new: Seq<Seq<char>>,
    t: int,
    at: int,
) -> bool {
    &&& 0 <= t < old.len()
    &&& 0 <= at < new.len()
    &&& new.len() == old.len()
    &&& bare(new[at]) == bare(old[t])
    &&& forall|i: int|
        0 <= i < old.len() - 1 ==> bare(#[trigger] new.remove(at)[i]) == bare(old.remove(t)[i])
}

/// Where a block of the top level is moved, its tile is taken out and put in right
/// before or after that of its anchor; the other tiles stay in their order.
pub proof fn a_moved_tile_stands_beside_its_anchor(
    note: NoteView,
    rows: Seq<RowView>,
    idx: int,
    before: Option<Uuid>,
    after: Option<Uuid>,
    ai: int,
    p: PlanView,
)
    requires
        move_plan(note, rows, idx, before, after) == Ok::<PlanView, OpFault>(p),
        is_row(rows, ai, rows[ai].id),
        before == Some(rows[ai].id) || after == Some(rows[ai].id),
        top_level_child(note.doc, idx),
        note.placement[idx].0 != note.placement[ai].0,
    ensures
        exists|new: Seq<Seq<char>>, at: int|
            {
                let t = note.placement[idx].0 as int;
                let a = note.placement[ai].0 as int;
                let head = cut(note.source, 0, note.doc.preamble.end as int);
                &&& #[trigger] tile_taken_to(note.tiles, new, note.placement[idx].0 as int, at)
                &&& set_apart(new, at, at + 1, note.source)
                &&& head is Some
                &&& p.probe.source == head->0 + concat(new)
                &&& before is Some ==> at + 1 < new.len() && bare(new[at + 1]) == bare(
                    note.tiles[a],
                ) && at == (if a < t {
                    a
                } else {
                    a - 1
                })
                &&& after is Some ==> at > 0 && bare(new[at - 1]) == bare(note.tiles[a]) && at - 1
                    == (if a < t {
                    a
                } else {
                    a - 1
                })
            },
{
    row_is_found(rows, ai, rows[ai].id, 0);
    let t = note.placement[idx].0 as int;
    let a = note.placement[ai].0 as int;
    let at = landing(t, a, before is Some);
    let with = tile_moved(note.tiles, t, a, before is Some);
    let nl = newlines_at_end(note.source);
    let new = seamed_all(with, at, at + 1, nl);
    assert forall|i: int| 0 <= i < new.len() implies bare(#[trigger] new[i]) == bare(with[i]) by {
        seams_are_line_feeds(with, at, at + 1, note.source, i);
    }
    assert(with[at] == note.tiles[t]);
    assert forall|i: int| 0 <= i < note.tiles.len() - 1 implies bare(
        #[trigger] new.remove(at)[i],
    ) == bare(note.tiles.remove(t)[i]) by {
        let j = if i < at {
            i
        } else {
            i + 1
        };
        assert(new.remove(at)[i] == new[j]);
        assert(with[j] == note.tiles.remove(t)[i]);
    }
    let l = new.len() - 1;
    bare_again(with[l]);
    trail_run(CharSet::Newline, note.source);
    assert(new[l] == bare(with[l]) + nl);
    assert(bare(new[l]) == bare(with[l]));
    assert forall|i: int| 0 <= i < new.len() - 1 && at - 1 <= i < at + 1 implies {
        let t = #[trigger] new[i];
        t.len() >= 2 && t.last() == '\n' && t[t.len() - 2] == '\n'
    } by {
        assert(new[i] == with_blank_line(with[i]));
    }
    let ra = if a < t {
        a
    } else {
        a - 1
    };
    assert(note.tiles.remove(t)[ra] == note.tiles[a]);
    if before is Some {
        assert(with[at + 1] == note.tiles.remove(t)[ra]);
        assert(bare(new[at + 1]) == bare(with[at + 1]));
    } else {
        assert(with[at - 1] == note.tiles.remove(t)[ra]);
        assert(bare(new[at - 1]) == bare(with[at - 1]));
    }
    assert(tile_taken_to(note.tiles, new, note.placement[idx].0 as int, at));
}

/// The bytes between `from` and `to` are taken out and put in at `at`; all others
/// stay in their order.
pub open spec fn bytes_taken_to(b: Seq<u8>, out: Seq<u8>, from: int, to: int, at: int) -> bool {
    &&& 0 <= from <= to <= b.len()
    &&& at >= to ==> at <= b.len() && out == b.subrange(0, from) + b.subrange(to, at) + b.subrange(
        from,
        to,
    ) + b.subrange(at, b.len() as int)
    &&& at <= from ==> 0 <= at && out == b.subrange(0, at) + b.subrange(from, to) + b.subrange(
        at,
        from,
    ) + b.subrange(to, b.len() as int)
}

proof fn lines_are_taken(src: Seq<char>, from: int, to: int, at: int)
    requires
        lines_moved(src, from, to, at) is Some,
        at <= from || to <= at,
    ensures
        bytes_taken_to(
            encode_utf8(src),
            encode_utf8(lines_moved(src, from, to, at)->0),
            from,
            to,
            at,
        ),
{
    let b = encode_utf8(src);
    let n = b.len() as int;
    let out = lines_moved(src, from, to, at)->0;
    let head = cut(src, 0, from)->0;
    let moved = cut(src, from, to)->0;
    let tail = cut(src, to, n)->0;
    let rest = head + tail;
    let e = if at >= to {
        at - (to - from)
    } else {
        at
    };
    let m = encode_utf8(rest).len() as int;
    let x = cut(rest, 0, e)->0;
    let y = cut(rest, e, m)->0;
    cut_bytes(src, 0, from);
    cut_bytes(src, from, to);
    cut_bytes(src, to, n);
    cut_bytes(rest, 0, e);
    cut_bytes(rest, e, m);
    encode_concat(head, tail);
    encode_concat(x, moved);
    encode_concat(x + moved, y);
    let r = encode_utf8(rest);
    assert(r =~= b.subrange(0, from) + b.subrange(to, n));
    if at >= to {
        assert(r.subrange(0, e) =~= b.subrange(0, from) + b.subrange(to, at));
        assert(r.subrange(e, m) =~= b.subrange(at, n));
    }
    if at <= from {
        if at < to {
            assert(r.subrange(0, e) =~= b.subrange(0, at));
            assert(r.subrange(e, m) =~= b.subrange(at, from) + b.subrange(to, n));
        } else {
            assert(from == to && at == from);
            assert(r.subrange(0, e) =~= b.subrange(0, at));
            assert(r.subrange(e, m) =~= b.subrange(at, n));
        }
    }
    let o = encode_utf8(out);
    if at >= to {
        assert(o =~= b.subrange(0, from) + b.subrange(to, at) + b.subrange(from, to) + b.subrange(
            at,
            n,
        ));
    }
    if at <= from {
        assert(o =~= b.subrange(0, at) + b.subrange(from, to) + b.subrange(at, from) + b.subrange(
            to,
            n,
        ));
    }
}

/// The lines between `from` and `to` are taken out and put in at `at`, where that is not
/// among them.
pub open spec fn lines_taken_to(
    old: Seq<char>,
    new: Seq<char>,
    from: int,
    to: int,
    at: int,
) -> bool {
    at <= from || to <= at ==> bytes_taken_to(encode_utf8(old), encode_utf8(new), from, to, at)
}

/// Where a block inside a container is moved, its lines, with those of what is inside
/// it, are taken out and put in at the start of the anchor's line, or where the anchor
/// ends with everything inside it. No byte changes.
pub proof fn moved_lines_stand_beside_their_anchor(
    note: NoteView,
    rows: Seq<RowView>,
    idx: int,
    before: Option<Uuid>,
    after: Option<Uuid>,
    ai: int,
    p: PlanView,
)
    requires
        move_plan(note, rows, idx, before, after) == Ok::<PlanView, OpFault>(p),
        is_row(rows, ai, rows[ai].id),
        before == Some(rows[ai].id) || after == Some(rows[ai].id),
        !top_level_child(note.doc, idx),
        0 <= idx < note.doc.blocks.len(),
        ai < note.doc.blocks.len(),
    ensures
        exists|from: int, to: int, at: int|
            {
                let old = note.doc.blocks;
                &&& starts_line_of(note.source, from, old[idx].span.start as int)
                &&& ends_run(old, idx, subtree_to(old, idx), to)
                &&& before is Some ==> starts_line_of(note.source, at, old[ai].span.start as int)
                &&& after is Some ==> ends_run(old, ai, subtree_to(old, ai), at)
                &&& #[trigger] lines_taken_to(note.source, p.probe.source, from, to, at)
            },
{
    row_is_found(rows, ai, rows[ai].id, 0);
    let old = note.doc.blocks;
    let src = note.source;
    let t_end = subtree_to(old, idx);
    let a_end = subtree_to(old, ai);
    subtree_bounds(old, idx);
    subtree_bounds(old, ai);
    spans_end_run(old, idx, t_end);
    spans_end_run(old, ai, a_end);
    let t = old[idx].span.start as int;
    let a = old[ai].span.start as int;
    line_starts_there(src, t);
    let from = line_start(src, t);
    let to = spans_to(old, idx, t_end);
    let at = if before is Some {
        line_starts_there(src, a);
        line_start(src, a)
    } else {
        spans_to(old, ai, a_end)
    };
    if at <= from || to <= at {
        lines_are_taken(src, from, to, at);
    }
    assert(lines_taken_to(note.source, p.probe.source, from, to, at));
}

// ---- edits ----

/// The new source is the old one with the bytes from `start` to `end` rewritten, on
/// the line that they start on. `keep` bytes at the start of that line stay; what is
/// written there is the text, its lines after the first prefixed, and at most one line
/// feed; every byte before the line and after `end` stays.
pub open spec fn rewritten(
    src: Seq<char>,
    out: Seq<char>,
    edit: (int, int),
    start: int,
    end: int,
    keep: int,
    text: Seq<char>,
    prefix: Seq<char>,
) -> bool {
    let b = encode_utf8(src);
    let o = encode_utf8(out);
    let kept = lesser(edit.0 + keep, end);
    let put = decorated(bare(text), prefix);
    &&& starts_line_of(src, edit.0, start)
    &&& end <= b.len()
    &&& edit.0 <= kept <= end
    &&& edit.0 <= edit.1 <= o.len()
    &&& o.subrange(0, edit.0) == b.subrange(0, edit.0)
    &&& o.subrange(edit.1, o.len() as int) == b.subrange(end, b.len() as int)
    &&& {
        ||| o.subrange(edit.0, edit.1) == b.subrange(edit.0, kept) + encode_utf8(put)
        ||| o.subrange(edit.0, edit.1) == b.subrange(edit.0, kept) + encode_utf8(put.push('\n'))
    }
}

proof fn a_splice_rewrites(
    src: Seq<char>,
    start: int,
    end: int,
    keep: int,
    text: Seq<char>,
    prefix: Seq<char>,
)
    requires
        0 <= keep,
        spliced(src, start, end, keep, text, prefix) is Some,
    ensures
        ({
            let sp = spliced(src, start, end, keep, text, prefix)->0;
            rewritten(src, sp.source, sp.edit, start, end, keep, text, prefix)
        }),
{
    let sp = spliced(src, start, end, keep, text, prefix)->0;
    let at = line_start(src, start);
    let b = encode_utf8(src);
    let n = b.len() as int;
    let kept_to = lesser(at + keep, end);
    let new = replacement(src, end, text, prefix);
    line_starts_there(src, start);
    let head = cut(src, 0, at)->0;
    let kept = cut(src, at, kept_to)->0;
    let tail = cut(src, end, n)->0;
    cut_bytes(src, 0, at);
    cut_bytes(src, at, kept_to);
    cut_bytes(src, end, n);
    encode_concat(head, kept);
    encode_concat(head + kept, new);
    encode_concat(head + kept + new, tail);
    let o = encode_utf8(sp.source);
    assert(o.subrange(0, at) =~= b.subrange(0, at));
    assert(o.subrange(sp.edit.1, o.len() as int) =~= b.subrange(end, n));
    assert(o.subrange(at, sp.edit.1) =~= b.subrange(at, kept_to) + encode_utf8(new));
}

/// Byte offset `end` is where the content between `start` and `limit` ends: what
/// follows up to `limit` is line feeds, and of them only one belongs to it.
pub open spec fn ends_content(src: Seq<char>, start: int, limit: int, end: int) -> bool {
    match (cut(src, start, limit), cut(src, start, end)) {
        (Some(all), Some(own)) => end <= limit && (if bare(all) == all {
            own == all
        } else {
            own == bare(all).push('\n')
        }),
        _ => false,
    }
}

proof fn content_ends_there(src: Seq<char>, start: int, limit: int)
    requires
        content_end_of(src, start, limit) is Some,
    ensures
        ends_content(src, start, limit, content_end_of(src, start, limit)->0),
{
    let all = cut(src, start, limit)->0;
    let n = encode_utf8(src).len() as int;
    let end = content_end_of(src, start, limit)->0;
    let t = trail(CharSet::Newline, all);
    trail_run(CharSet::Newline, all);
    cut_in_three(src, start, limit);
    if bare(all).len() == all.len() {
        assert(bare(all) =~= all);
    } else {
        let own = bare(all).push('\n');
        let k = own.len() as int;
        assert(CharSet::Newline.has(all[k - 1]));
        assert(own =~= all.take(k));
        let a = cut(src, 0, start)->0;
        let z = cut(src, limit, n)->0;
        let rest = all.skip(k) + z;
        assert(all =~= own + all.skip(k));
        assert(src =~= a + (own + rest));
        text_is_cut(src, a, own, rest);
        cut_bytes(src, 0, start);
        encode_concat(bare(all), seq!['\n']);
        assert(own =~= bare(all) + seq!['\n']);
        char_bytes('\n', '\n');
        cut_bytes(src, start, limit);
        encode_concat(own, all.skip(k));
    }
}

/// Byte offset `limit` is where the own part of block `idx` must end: no later than
/// the block, and no later than the first of the items and quoted blocks in it.
pub open spec fn limits_own(blocks: Seq<BlockView>, idx: int, limit: int) -> bool {
    &&& limit <= blocks[idx].span.end
    &&& forall|c: int|
        0 <= c < blocks.len() && #[trigger] container_child(blocks, idx, c) ==> limit
            <= blocks[c].span.start
    &&& limit == blocks[idx].span.end || exists|c: int|
        0 <= c < blocks.len() && #[trigger] container_child(blocks, idx, c) && limit
            == blocks[c].span.start
}

proof fn containers_from_least(blocks: Seq<BlockView>, idx: int, n: int)
    requires
        0 <= n <= blocks.len(),
    ensures
        match containers_from(blocks, idx, n) {
            Some(at) => {
                &&& forall|c: int|
                    0 <= c < n && #[trigger] container_child(blocks, idx, c) ==> at
                        <= blocks[c].span.start
                &&& exists|c: int|
                    0 <= c < n && #[trigger] container_child(blocks, idx, c) && at
                        == blocks[c].span.start
            },
            None => forall|c: int| 0 <= c < n ==> !#[trigger] container_child(blocks, idx, c),
        },
    decreases n,
{
    if n > 0 {
        containers_from_least(blocks, idx, n - 1);
        if container_child(blocks, idx, n - 1) {
            assert(container_child(blocks, idx, n - 1));
        }
        if let Some(at) = containers_from(blocks, idx, n - 1) {
            let c = choose|c: int|
                0 <= c < n - 1 && #[trigger] container_child(blocks, idx, c) && at
                    == blocks[c].span.start;
            assert(container_child(blocks, idx, c));
        }
    }
}

proof fn own_region_is(note: NoteView, idx: int)
    requires
        own_region(note, idx) is Ok,
    ensures
        ({
            let (start, end) = own_region(note, idx)->Ok_0;
            &&& start == note.doc.blocks[idx].span.start
            &&& exists|limit: int| #[trigger]
                limits_own(note.doc.blocks, idx, limit) && ends_content(
                    note.source,
                    start,
                    limit,
                    end,
                )
        }),
{
    let blocks = note.doc.blocks;
    let at = own_cut(blocks, idx);
    let limit = if at <= blocks[idx].span.end {
        at
    } else {
        blocks[idx].span.end as int
    };
    containers_from_least(blocks, idx, blocks.len() as int);
    content_ends_there(note.source, blocks[idx].span.start as int, limit);
    assert(limits_own(blocks, idx, limit));
}

/// An update rewrites the block's own content and nothing else: from the block's line
/// to the end of its own part, with the text of the one block of the fragment.
pub proof fn an_update_rewrites_its_block(
    note: NoteView,
    rows: Seq<RowView>,
    idx: int,
    text: Seq<char>,
    p: PlanView,
)
    requires
        update_plan(note, rows, idx, text) == Ok::<PlanView, OpFault>(p),
    ensures
        exists|limit: int, end: int|
            {
                let b = note.doc.blocks[idx];
                let frag = fragment_of(text)->Ok_0;
                let root = frag.doc.blocks[roots_of(frag.doc.blocks)[0]];
                let item = root.kind == BlockKind::ListItem;
                let put = cut(text, root.span.start as int, root.span.end as int);
                &&& fragment_of(text) is Ok
                &&& roots_of(frag.doc.blocks).len() == 1
                &&& put is Some
                &&& limits_own(note.doc.blocks, idx, limit)
                &&& #[trigger] ends_content(
                    note.source,
                    note.doc.blocks[idx].span.start as int,
                    limit,
                    end,
                )
                &&& p.edit_range is Some
                &&& rewritten(
                    note.source,
                    p.probe.source,
                    p.edit_range->0,
                    b.span.start as int,
                    end,
                    if item && b.kind == BlockKind::ListItem {
                        b.first_line_strip_outer as int
                    } else {
                        b.first_line_strip_full as int
                    },
                    put->0,
                    if item {
                        b.line_prefix
                    } else {
                        b.cont_prefix
                    },
                )
            },
{
    let b = note.doc.blocks[idx];
    let frag = fragment_of(text)->Ok_0;
    let root = frag.doc.blocks[roots_of(frag.doc.blocks)[0]];
    let item = root.kind == BlockKind::ListItem;
    let put = cut(text, root.span.start as int, root.span.end as int)->0;
    let (start, end) = own_region(note, idx)->Ok_0;
    own_region_is(note, idx);
    let limit = choose|limit: int| #[trigger]
        limits_own(note.doc.blocks, idx, limit) && ends_content(note.source, start, limit, end);
    a_splice_rewrites(
        note.source,
        start,
        end,
        kept_width(b, item),
        put,
        line_prefix_for(b, item),
    );
    assert(ends_content(note.source, b.span.start as int, limit, end));
}

/// A split rewrites the block's own content and nothing else, with the whole text of
/// the fragment.
pub proof fn a_split_rewrites_its_block(
    note: NoteView,
    rows: Seq<RowView>,
    idx: int,
    text: Seq<char>,
    p: PlanView,
)
    requires
        split_plan(note, rows, idx, text) == Ok::<PlanView, OpFault>(p),
    ensures
        exists|limit: int, end: int|
            {
                let b = note.doc.blocks[idx];
                let frag = fragment_of(text)->Ok_0;
                let roots = roots_of(frag.doc.blocks);
                let item = frag.doc.blocks[roots[0]].kind == BlockKind::ListItem;
                &&& fragment_of(text) is Ok
                &&& roots.len() >= 2
                &&& p.results.len() == roots.len()
                &&& limits_own(note.doc.blocks, idx, limit)
                &&& #[trigger] ends_content(
                    note.source,
                    note.doc.blocks[idx].span.start as int,
                    limit,
                    end,
                )
                &&& p.edit_range is Some
                &&& rewritten(
                    note.source,
                    p.probe.source,
                    p.edit_range->0,
                    b.span.start as int,
                    end,
                    if item && b.kind == BlockKind::ListItem {
                        b.first_line_strip_outer as int
                    } else {
                        b.first_line_strip_full as int
                    },
                    text,
                    if item {
                        b.line_prefix
                    } else {
                        b.cont_prefix
                    },
                )
            },
{
    let b = note.doc.blocks[idx];
    let frag = fragment_of(text)->Ok_0;
    let root = frag.doc.blocks[roots_of(frag.doc.blocks)[0]];
    let item = root.kind == BlockKind::ListItem;
    let (start, end) = own_region(note, idx)->Ok_0;
    own_region_is(note, idx);
    let limit = choose|limit: int| #[trigger]
        limits_own(note.doc.blocks, idx, limit) && ends_content(note.source, start, limit, end);
    a_splice_rewrites(
        note.source,
        start,
        end,
        kept_width(b, item),
        text,
        line_prefix_for(b, item),
    );
    assert(ends_content(note.source, b.span.start as int, limit, end));
}

/// A merge rewrites its members and nothing else: from the line of the first one to
/// where the last one ends with everything inside it, with the text of the one block
/// of the fragment. The members are the blocks with these ids, in the order of the
/// note.
pub proof fn a_merge_rewrites_its_members(
    note: NoteView,
    rows: Seq<RowView>,
    ids: Seq<Uuid>,
    text: Seq<char>,
    keep: Option<Uuid>,
    p: PlanView,
)
    requires
        merge_plan(note, rows, ids, text, keep) == Ok::<PlanView, OpFault>(p),
        rows.len() <= note.doc.blocks.len(),
    ensures
        exists|limit: int, end: int|
            {
                let s = members(rows, ids, ids.len() as int);
                let old = note.doc.blocks;
                let b = old[s[0]];
                let frag = fragment_of(text)->Ok_0;
                let root = frag.doc.blocks[roots_of(frag.doc.blocks)[0]];
                let item = root.kind == BlockKind::ListItem;
                let put = cut(text, root.span.start as int, root.span.end as int);
                &&& fragment_of(text) is Ok
                &&& roots_of(frag.doc.blocks).len() == 1
                &&& put is Some
                &&& ends_run(old, s[0], subtree_to(old, s.last()), limit)
                &&& #[trigger] ends_content(
                    note.source,
                    note.doc.blocks[members(rows, ids, ids.len() as int)[0]].span.start as int,
                    limit,
                    end,
                )
                &&& p.edit_range is Some
                &&& rewritten(
                    note.source,
                    p.probe.source,
                    p.edit_range->0,
                    b.span.start as int,
                    end,
                    if item && b.kind == BlockKind::ListItem {
                        b.first_line_strip_outer as int
                    } else {
                        b.first_line_strip_full as int
                    },
                    put->0,
                    if item {
                        b.line_prefix
                    } else {
                        b.cont_prefix
                    },
                )
            },
{
    let s = members(rows, ids, ids.len() as int);
    let old = note.doc.blocks;
    let b = old[s[0]];
    let frag = fragment_of(text)->Ok_0;
    let root = frag.doc.blocks[roots_of(frag.doc.blocks)[0]];
    let item = root.kind == BlockKind::ListItem;
    let put = cut(text, root.span.start as int, root.span.end as int)->0;
    let start = b.span.start as int;
    let run = subtree_to(old, s.last());
    let limit = spans_to(old, s[0], run);
    let end = content_end_of(note.source, start, limit)->0;
    no_stranger(rows, ids, 0);
    members_are_rows(rows, ids, ids.len() as int);
    members_ascend(rows, ids, ids.len() as int);
    subtree_bounds(old, s.last());
    spans_end_run(old, s[0], run);
    content_ends_there(note.source, start, limit);
    a_splice_rewrites(
        note.source,
        start,
        end,
        kept_width(b, item),
        put,
        line_prefix_for(b, item),
    );
    assert(ends_content(note.source, b.span.start as int, limit, end));
}

// ---- what is refused ----

proof fn with_index_has(s: Seq<int>, x: int)
    requires
        ascend(s),
    ensures
        forall|y: int| #[trigger] with_index(s, x).contains(y) <==> y == x || s.contains(y),
        with_index(s, x).len() == s.len() + (if s.contains(x) {
            0int
        } else {
            1
        }),
    decreases s.len(),
{
    let w = with_index(s, x);
    if s.len() == 0 {
        assert(w[0] == x);
    } else if s[0] == x {
        assert(s.contains(s[0]));
    } else if x < s[0] {
        assert(w[0] == x);
        assert forall|y: int| #[trigger] w.contains(y) <==> y == x || s.contains(y) by {
            if s.contains(y) {
                let k = s.index_of(y);
                assert(w[k + 1] == y);
            }
            if w.contains(y) && y != x {
                let k = w.index_of(y);
                assert(s[k - 1] == y);
            }
        }
        if s.contains(x) {
            let k = s.index_of(x);
            if k > 0 {
                assert(s[0] < s[k]);
            }
        }
    } else {
        let t = s.drop_first();
        assert forall|i: int, j: int| 0 <= i < j < t.len() implies #[trigger] t[i]
            < #[trigger] t[j] by {
            assert(t[i] == s[i + 1] && t[j] == s[j + 1]);
        }
        with_index_has(t, x);
        let u = with_index(t, x);
        assert forall|y: int| s.contains(y) <==> y == s[0] || t.contains(y) by {
            if s.contains(y) && y != s[0] {
                let k = s.index_of(y);
                assert(t[k - 1] == y);
            }
            if t.contains(y) {
                let k = t.index_of(y);
                assert(s[k + 1] == y);
            }
            assert(s.contains(s[0]));
        }
        assert forall|y: int| #[trigger] w.contains(y) <==> y == x || s.contains(y) by {
            if w.contains(y) && y != s[0] {
                let k = w.index_of(y);
                assert(u[k - 1] == y);
                assert(u.contains(y));
            }
            if u.contains(y) {
                let k = u.index_of(y);
                assert(w[k + 1] == y);
            }
            assert(w[0] == s[0]);
        }
    }
}

proof fn members_are_these(rows: Seq<RowView>, ids: Seq<Uuid>, n: int)
    requires
        0 <= n <= ids.len(),
        forall|j: int| 0 <= j < ids.len() ==> position(rows, #[trigger] ids[j], 0) is Some,
    ensures
        forall|x: int| #[trigger]
            members(rows, ids, n).contains(x) <==> exists|j: int|
                0 <= j < n && position(rows, #[trigger] ids[j], 0) == Some(x),
        ids.no_duplicates() ==> members(rows, ids, n).len() == n,
    decreases n,
{
    if n > 0 {
        members_are_these(rows, ids, n - 1);
        members_ascend(rows, ids, n - 1);
        let old = members(rows, ids, n - 1);
        let x = position(rows, ids[n - 1], 0)->0;
        with_index_has(old, x);
        position_facts(rows, ids[n - 1], 0);
        assert forall|y: int| #[trigger]
            members(rows, ids, n).contains(y) <==> exists|j: int|
                0 <= j < n && position(rows, #[trigger] ids[j], 0) == Some(y) by {
            if members(rows, ids, n).contains(y) {
                if y == x {
                    assert(position(rows, ids[n - 1], 0) == Some(y));
                } else {
                    assert(old.contains(y));
                    let j = choose|j: int|
                        0 <= j < n - 1 && position(rows, #[trigger] ids[j], 0) == Some(y);
                    assert(position(rows, ids[j], 0) == Some(y));
                }
            }
            if exists|j: int| 0 <= j < n && position(rows, #[trigger] ids[j], 0) == Some(y) {
                let j = choose|j: int|
                    0 <= j < n && position(rows, #[trigger] ids[j], 0) == Some(y);
                if j < n - 1 {
                    assert(old.contains(y));
                }
            }
        }
        if ids.no_duplicates() && old.contains(x) {
            let j = choose|j: int|
                0 <= j < n - 1 && position(rows, #[trigger] ids[j], 0) == Some(x);
            position_facts(rows, ids[j], 0);
            assert(ids[j] == ids[n - 1]);
        }
    } else {
        assert(members(rows, ids, n) =~= Seq::empty());
    }
}

/// These blocks are siblings that follow each other, each where the one before it ends
/// with everything inside it.
pub open spec fn side_by_side(blocks: Seq<BlockView>, s: Seq<int>) -> bool {
    &&& forall|j: int| 0 <= j < s.len() ==> blocks[#[trigger] s[j]].parent == blocks[s[0]].parent
    &&& forall|j: int| 0 < j < s.len() ==> #[trigger] s[j] == subtree_to(blocks, s[j - 1])
}

proof fn run_break_tells(blocks: Seq<BlockView>, s: Seq<int>, k: int)
    requires
        0 <= k,
        forall|j: int|
            0 <= j < k && j < s.len() ==> blocks[#[trigger] s[j]].parent == blocks[s[0]].parent && (
            j > 0 ==> s[j] == subtree_to(blocks, s[j - 1])),
    ensures
        match run_break(blocks, s, k) {
            None => side_by_side(blocks, s),
            Some(x) => s.contains(x) && !side_by_side(blocks, s),
        },
    decreases s.len() - k,
{
    if k < s.len() {
        if blocks[s[k]].parent == blocks[s[0]].parent && (k > 0 ==> s[k] == subtree_to(
            blocks,
            s[k - 1],
        )) {
            run_break_tells(blocks, s, k + 1);
        } else {
            assert(s.contains(s[k]));
        }
    }
}

proof fn keeper_tells(rows: Seq<RowView>, s: Seq<int>, id: Uuid, k: int)
    requires
        0 <= k,
    ensures
        match keeper(rows, s, id, k) {
            Some(i) => s.contains(i) && rows[i].id == id,
            None => forall|j: int| k <= j < s.len() ==> rows[#[trigger] s[j]].id != id,
        },
    decreases s.len() - k,
{
    if k < s.len() {
        keeper_tells(rows, s, id, k + 1);
        assert(s.contains(s[k]));
    }
}

proof fn losing_tells(blocks: Seq<BlockView>, s: Seq<int>, keep: int, k: int)
    requires
        0 <= k,
    ensures
        match loses_children(blocks, s, keep, k) {
            Some(i) => s.contains(i) && i != keep && has_containers(blocks, i),
            None => forall|j: int|
                k <= j < s.len() && #[trigger] s[j] != keep ==> !has_containers(blocks, s[j]),
        },
    decreases s.len() - k,
{
    if k < s.len() {
        losing_tells(blocks, s, keep, k + 1);
        assert(s.contains(s[k]));
    }
}

/// A merge takes two or more different blocks of the note, siblings that follow each
/// other, one of which is to stay; and no other one with lists or quotes inside it. It
/// is refused for one of these reasons alone.
pub proof fn a_merge_is_of_neighbours(
    note: NoteView,
    rows: Seq<RowView>,
    ids: Seq<Uuid>,
    keep: Option<Uuid>,
)
    requires
        rows.len() <= note.doc.blocks.len(),
    ensures
        ({
            let old = note.doc.blocks;
            let s = members(rows, ids, ids.len() as int);
            match merge_set(note, rows, ids, keep) {
                Ok((v, k)) => {
                    &&& v == s
                    &&& ids.len() >= 2 && s.len() == ids.len()
                    &&& forall|x: int| #[trigger]
                        s.contains(x) <==> exists|j: int|
                            0 <= j < ids.len() && position(rows, #[trigger] ids[j], 0) == Some(x)
                    &&& side_by_side(old, s)
                    &&& s.contains(k)
                    &&& keep matches Some(id) ==> rows[k].id == id
                    &&& keep is None ==> rows[k].id == rows[s[0]].id
                    &&& forall|j: int|
                        0 <= j < s.len() && #[trigger] s[j] != k ==> !has_containers(old, s[j])
                },
                Err(OpFault::MergeTooFew) => ids.len() < 2,
                Err(OpFault::NotInNote { id }) => ids.contains(id) && forall|i: int|
                    0 <= i < rows.len() ==> (#[trigger] rows[i]).id != id,
                Err(OpFault::MergeDuplicates) => !ids.no_duplicates(),
                Err(OpFault::MergeNotContiguous { .. }) => !side_by_side(old, s),
                Err(OpFault::KeepNotInSet) => keep is Some && forall|j: int|
                    0 <= j < s.len() ==> rows[#[trigger] s[j]].id != keep->0,
                Err(OpFault::MergeRetiresContainer { .. }) => exists|j: int|
                    0 <= j < s.len() && has_containers(old, #[trigger] s[j]) && (
                    keep matches Some(id) ==> rows[s[j]].id != id || s[j] != keeper(
                        rows,
                        s,
                        id,
                        0,
                    )->0),
                Err(_) => false,
            }
        }),
{
    let old = note.doc.blocks;
    let s = members(rows, ids, ids.len() as int);
    if ids.len() >= 2 {
        stranger_tells(rows, ids, 0);
        if first_stranger(rows, ids, 0) is None {
            no_stranger(rows, ids, 0);
            members_are_these(rows, ids, ids.len() as int);
            run_break_tells(old, s, 0);
            let keep_id = match keep {
                Some(id) => id,
                None => rows[s[0]].id,
            };
            keeper_tells(rows, s, keep_id, 0);
            if let Some(k) = keeper(rows, s, keep_id, 0) {
                losing_tells(old, s, k, 0);
                if let Some(i) = loses_children(old, s, k, 0) {
                    let j = s.index_of(i);
                    assert(s[j] == i);
                }
            } else if keep is None && s.len() > 0 {
                assert(rows[s[0]].id == keep_id);
            }
        }
    }
}

proof fn stranger_tells(rows: Seq<RowView>, ids: Seq<Uuid>, k: int)
    requires
        0 <= k,
    ensures
        first_stranger(rows, ids, k) matches Some(id) ==> ids.contains(id) && forall|i: int|
            0 <= i < rows.len() ==> (#[trigger] rows[i]).id != id,
    decreases ids.len() - k,
{
    if k < ids.len() {
        stranger_tells(rows, ids, k + 1);
        position_facts(rows, ids[k], 0);
        assert(ids.contains(ids[k]));
    }
}

/// A move needs one anchor, a block of the note that is a sibling of the moved one, in
/// the same container, and neither inside the other. It is refused for one of these
/// reasons, or because the result is no note.
pub proof fn a_move_is_among_siblings(
    note: NoteView,
    rows: Seq<RowView>,
    idx: int,
    before: Option<Uuid>,
    after: Option<Uuid>,
    ai: int,
)
    requires
        is_row(rows, ai, rows[ai].id),
    ensures
        (before is Some) == (after is Some) <==> move_plan(note, rows, idx, before, after) == Err::<
            PlanView,
            OpFault,
        >(OpFault::NotOneAnchor),
        (before is Some) != (after is Some) && (before == Some(rows[ai].id) || after == Some(
            rows[ai].id,
        )) ==> {
            let old = note.doc.blocks;
            let siblings = old[idx].parent == old[ai].parent;
            let alike = top_level_child(note.doc, idx) == top_level_child(note.doc, ai) && (
            top_level_child(note.doc, idx) || note.placement[idx].0 == note.placement[ai].0);
            let apart = !(idx <= ai < subtree_to(old, idx)) && !(ai <= idx < subtree_to(old, ai));
            match move_plan(note, rows, idx, before, after) {
                Ok(_) => siblings && alike && apart,
                Err(OpFault::NotSiblings) => !siblings,
                Err(OpFault::OtherContainer) => siblings && !alike,
                Err(OpFault::AnchorInside) => siblings && alike && !apart,
                Err(OpFault::Unsliceable) => siblings && alike && apart,
                Err(f) => f == OpFault::Unparsable && siblings && alike && apart,
            }
        },
{
    row_is_found(rows, ai, rows[ai].id, 0);
}

/// A move beside a block that the note does not have is refused as that.
pub proof fn an_unknown_anchor_is_refused(
    note: NoteView,
    rows: Seq<RowView>,
    idx: int,
    before: Option<Uuid>,
    after: Option<Uuid>,
    id: Uuid,
)
    requires
        (before == Some(id) && after is None) || (before is None && after == Some(id)),
    ensures
        move_plan(note, rows, idx, before, after) == Err::<PlanView, OpFault>(
            OpFault::AnchorMissing,
        ) <==> forall|i: int| 0 <= i < rows.len() ==> (#[trigger] rows[i]).id != id,
{
    position_facts(rows, id, 0);
}

} // verus!
