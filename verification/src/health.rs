//! What a write or an operation stores is healthy: read back, it is reported clean.

use vstd::prelude::*;
use vstd::utf8::*;

use crate::carry::row_ids;
use crate::commit::{
    an_operation_stores_the_note, commit_fault, op_write_is, plan_ok, NoteCtx, OpWrite, PlanView,
};
use crate::document::{opt_text, LinkView};
use crate::extraction::{
    desired_edges, desired_edges_are_the_links, desired_tags, is_kept,
    key_set, key_set_is_exact, keys, link_key, reconciling_is_recomputing, row_keys, EdgeKey,
    KeyView, Keyed, TagKey,
};
use crate::history::{position, position_facts};
use crate::ids::Uuid;
use crate::note::{note_ok, NoteView};
use crate::ops::parsed_as;
use crate::rebind::Rebound;
use crate::reconcile::{distinct, row_table, rows_of, tile_table};
use crate::state::Stored;
use crate::store::{batch_resolution, name_rows, path_rows, RowView};
use crate::text::slice_is_text;
use crate::verify::{
    fact_key, fact_keys, nothing_reported_is_healthy, opt_id_text, opt_key, report_is, EdgeFact,
    NoteFacts, NoteReport,
};
use crate::write::{
    a_write_stores_the_note, plan_is, rows_after, stored_as, tiles_after, unheard_of, write_is,
    LanePlan, NoteWrite,
};

verus! {

/// The key of an edge without what it resolves to.
pub open spec fn base_key(e: EdgeFact) -> KeyView {
    (
        e.src_block.value as int,
        seq![e.kind@, e.dst_path@, e.dst_heading@, e.dst_block_ref@, e.alias@],
    )
}

/// An edge carries what the two queries resolve its target to.
pub open spec fn is_resolved(
    e: EdgeFact,
    exact: Seq<(Seq<char>, Uuid)>,
    names: Seq<(Seq<char>, Uuid, i64)>,
) -> bool {
    let r = batch_resolution(e.dst_path@, exact, names);
    &&& e.dst_note == r.note_view()
    &&& opt_text(e.resolved_via) == r.via_view()
    &&& opt_text(e.dangling_reason) == r.reason_view()
}

/// A key is that of a row that stays, or of one that is put in.
pub open spec fn is_held<K: Keyed>(
    rows: Seq<(i64, K)>,
    stale: Seq<i64>,
    new: Seq<K>,
    k: KeyView,
) -> bool {
    is_kept(row_keys(rows), stale, k) || keys(new).contains(k)
}

/// What is read of a note after a plan's writes: its own row, its tiles, its block rows
/// by their order, and its edges and tags, every edge as it resolves now.
pub open spec fn reads_back(
    f: NoteFacts,
    plan: LanePlan,
    old: Stored,
    edges: Seq<(i64, EdgeKey)>,
    tags: Seq<(i64, TagKey)>,
) -> bool {
    let rows = f.rows.deep_view();
    let x = plan.extraction;
    &&& f.head_is_own == Some(true)
    &&& f.preamble@ == (match plan.note {
        Some(c) => c.0@,
        None => old.preamble,
    })
    &&& tile_table(f.tiles.deep_view()) == tiles_after(plan, old)
    &&& row_table(rows) == rows_after(plan, old)
    &&& distinct(rows)
    &&& forall|i: int, j: int|
        0 <= i < j < rows.len() ==> (#[trigger] rows[i]).ord < (#[trigger] rows[j]).ord
    &&& forall|i: int|
        0 <= i < f.edges.len() ==> is_held(
            edges,
            x.stale_edges@,
            x.new_edges@,
            base_key(#[trigger] f.edges@[i]),
        ) && is_resolved(f.edges@[i], path_rows(f.exact@), name_rows(f.names@))
    &&& forall|k: KeyView| #[trigger]
        is_held(edges, x.stale_edges@, x.new_edges@, k) ==> exists|i: int|
            0 <= i < f.edges.len() && base_key(#[trigger] f.edges@[i]) == k
    &&& forall|k: KeyView| #[trigger]
        is_held(tags, x.stale_tags@, x.new_tags@, k) <==> keys(f.tags@).contains(k)
}

/// Stored rows have numbers of their own.
pub open spec fn numbered<K>(rows: Seq<(i64, K)>) -> bool {
    forall|a: int, b: int|
        0 <= a < b < rows.len() ==> (#[trigger] rows[a]).0 != (#[trigger] rows[b]).0
}

proof fn same_tiles(a: Seq<Seq<char>>, b: Seq<Seq<char>>)
    requires
        tile_table(a) == tile_table(b),
    ensures
        a == b,
{
    if a.len() < b.len() {
        assert(tile_table(b).dom().contains(a.len() as int));
        assert(tile_table(a).dom().contains(a.len() as int));
    } else if b.len() < a.len() {
        assert(tile_table(a).dom().contains(b.len() as int));
        assert(tile_table(b).dom().contains(b.len() as int));
    }
    assert forall|i: int| 0 <= i < a.len() implies a[i] == b[i] by {
        assert(tile_table(a)[i] == a[i]);
        assert(tile_table(b)[i] == b[i]);
    }
    assert(a =~= b);
}

/// A row of one table is in a list with the same table.
proof fn row_is_there(a: Seq<RowView>, b: Seq<RowView>, i: int) -> (j: int)
    requires
        row_table(a) == row_table(b),
        distinct(a),
        0 <= i < a.len(),
    ensures
        0 <= j < b.len(),
        b[j] == a[i],
{
    let id = a[i].id;
    position_facts(a, id, 0);
    let k = position(a, id, 0)->0;
    assert(k == i) by {
        if k < i {
            assert(a[k].id != a[i].id);
        } else if i < k {
            assert(a[i].id != a[k].id);
        }
    }
    assert(row_table(a).dom().contains(id));
    assert(row_table(b).dom().contains(id));
    position_facts(b, id, 0);
    let j = position(b, id, 0)->0;
    assert(row_table(b)[id] == b[j]);
    assert(row_table(a)[id] == a[i]);
    j
}

proof fn rows_come_in_order(a: Seq<RowView>, b: Seq<RowView>, n: int)
    requires
        row_table(a) == row_table(b),
        distinct(a),
        distinct(b),
        forall|i: int, j: int|
            0 <= i < j < a.len() ==> (#[trigger] a[i]).ord < (#[trigger] a[j]).ord,
        forall|i: int| 0 <= i < b.len() ==> (#[trigger] b[i]).ord == i,
        0 <= n <= b.len(),
    ensures
        n <= a.len(),
        forall|i: int| 0 <= i < n ==> #[trigger] a[i] == b[i],
    decreases n,
{
    if n > 0 {
        let i = n - 1;
        rows_come_in_order(a, b, i);
        let q = row_is_there(b, a, i);
        if q < i {
            assert(a[q] == b[q]);
        }
        let j = row_is_there(a, b, i);
        assert(a[i] == b[j]);
        if i < q {
            assert(a[i].ord < a[q].ord);
        }
        if i > 0 {
            assert(a[i - 1] == b[i - 1]);
            assert(a[i - 1].ord < a[i].ord);
        }
        assert(j == i);
    }
}

/// Rows read by their order are the rows of the table.
proof fn same_rows(a: Seq<RowView>, b: Seq<RowView>)
    requires
        row_table(a) == row_table(b),
        distinct(a),
        distinct(b),
        forall|i: int, j: int|
            0 <= i < j < a.len() ==> (#[trigger] a[i]).ord < (#[trigger] a[j]).ord,
        forall|i: int| 0 <= i < b.len() ==> (#[trigger] b[i]).ord == i,
    ensures
        a == b,
{
    let n = b.len() as int;
    rows_come_in_order(a, b, n);
    if a.len() > n {
        let j = row_is_there(a, b, n);
        assert(b[j].ord == j);
        assert(a[j] == b[j]);
        assert(a[j].ord < a[n].ord);
    }
    assert(a =~= b);
}

/// The key of a resolved edge is its key and what it resolves to.
proof fn key_of_fact(
    e: EdgeFact,
    l: LinkView,
    ids: Seq<Uuid>,
    exact: Seq<(Seq<char>, Uuid)>,
    names: Seq<(Seq<char>, Uuid, i64)>,
)
    requires
        is_resolved(e, exact, names),
        base_key(e) == link_key(l, ids),
    ensures
        e.key() == fact_key(l, ids, batch_resolution(l.target, exact, names)),
{
    let k = link_key(l, ids);
    assert(k.1[1] == base_key(e).1[1]);
    assert(e.dst_path@ == l.target);
    let r = batch_resolution(l.target, exact, names);
    assert(e.key().1 =~= base_key(e).1 + seq![
        opt_key(opt_id_text(r.note_view())),
        opt_key(r.via_view()),
        opt_key(r.reason_view()),
    ]);
}

/// The edges that are read are those that a fresh extraction gives, resolution and all.
proof fn edges_are_fresh(
    f: NoteFacts,
    plan: LanePlan,
    old: Stored,
    note: NoteView,
    ids: Seq<Uuid>,
    edges: Seq<(i64, EdgeKey)>,
    tags: Seq<(i64, TagKey)>,
    removed: Seq<Uuid>,
    k: KeyView,
)
    requires
        plan_is(plan, old, note, ids, removed, edges, tags),
        reads_back(f, plan, old, edges, tags),
        numbered(edges),
    ensures
        ({
            let want = fact_keys(note.doc.links, ids, path_rows(f.exact@), name_rows(f.names@));
            want.contains(k) <==> keys(f.edges@).contains(k)
        }),
{
    let exact = path_rows(f.exact@);
    let names = name_rows(f.names@);
    let links = note.doc.links;
    let want = fact_keys(links, ids, exact, names);
    let have = row_keys(edges);
    let x = plan.extraction;
    let desired = desired_edges(links, ids);
    desired_edges_are_the_links(links, ids);
    assert forall|a: int, b: int| 0 <= a < b < have.len() implies (#[trigger] have[a]).0 != (
    #[trigger] have[b]).0 by {
        assert(edges[a].0 != edges[b].0);
    }
    if want.contains(k) {
        let i = choose|i: int| 0 <= i < want.len() && want[i] == k;
        let base = link_key(links[i], ids);
        assert(desired.contains(base));
        reconciling_is_recomputing(have, desired, base);
        assert(is_held(edges, x.stale_edges@, x.new_edges@, base));
        let j = choose|j: int| 0 <= j < f.edges.len() && base_key(#[trigger] f.edges@[j]) == base;
        key_of_fact(f.edges@[j], links[i], ids, exact, names);
        assert(keys(f.edges@)[j] == k);
    }
    if keys(f.edges@).contains(k) {
        let j = choose|j: int| 0 <= j < keys(f.edges@).len() && keys(f.edges@)[j] == k;
        let base = base_key(f.edges@[j]);
        assert(is_held(edges, x.stale_edges@, x.new_edges@, base));
        reconciling_is_recomputing(have, desired, base);
        assert(desired.contains(base));
        let i = choose|i: int| 0 <= i < links.len() && base == link_key(#[trigger] links[i], ids);
        key_of_fact(f.edges@[j], links[i], ids, exact, names);
        assert(want[i] == k);
    }
}

proof fn tags_are_fresh(
    f: NoteFacts,
    plan: LanePlan,
    old: Stored,
    note: NoteView,
    ids: Seq<Uuid>,
    edges: Seq<(i64, EdgeKey)>,
    tags: Seq<(i64, TagKey)>,
    removed: Seq<Uuid>,
    k: KeyView,
)
    requires
        plan_is(plan, old, note, ids, removed, edges, tags),
        reads_back(f, plan, old, edges, tags),
        numbered(tags),
    ensures
        desired_tags(note.doc.tags, ids).contains(k) <==> keys(f.tags@).contains(k),
{
    let have = row_keys(tags);
    let desired = desired_tags(note.doc.tags, ids);
    let x = plan.extraction;
    assert forall|a: int, b: int| 0 <= a < b < have.len() implies (#[trigger] have[a]).0 != (
    #[trigger] have[b]).0 by {
        assert(tags[a].0 != tags[b].0);
    }
    reconciling_is_recomputing(have, desired, k);
    assert(is_held(tags, x.stale_tags@, x.new_tags@, k) == desired.contains(k));
}

/// What a plan stores of a note is reported clean.
proof fn a_stored_note_is_clean(
    r: NoteReport,
    f: NoteFacts,
    plan: LanePlan,
    old: Stored,
    note: NoteView,
    path: Seq<char>,
    ids: Seq<Uuid>,
    removed: Seq<Uuid>,
    edges: Seq<(i64, EdgeKey)>,
    tags: Seq<(i64, TagKey)>,
)
    requires
        report_is(r, f, note),
        reads_back(f, plan, old, edges, tags),
        plan_is(plan, old, note, ids, removed, edges, tags),
        tiles_after(plan, old) == tile_table(note.tiles),
        rows_after(plan, old) == row_table(rows_of(note, ids)),
        stored_as(note, path, ids).ok(),
        parsed_as(note.source) == Some(note),
        note_ok(note),
        ids.len() == note.doc.blocks.len() <= i32::MAX,
        numbered(edges),
        numbered(tags),
    ensures
        r.is_clean(),
{
    let rows = f.rows.deep_view();
    let w = rows_of(note, ids);
    same_tiles(f.tiles.deep_view(), note.tiles);
    assert(distinct(w)) by {
        let all = stored_as(note, path, ids).ids();
        assert forall|a: int, b: int| 0 <= a < b < w.len() implies (#[trigger] w[a]).id != (
        #[trigger] w[b]).id by {
            assert(all[a] != all[b]);
        }
    }
    same_rows(rows, w);
    assert(row_ids(rows) =~= ids);
    assert(f.preamble@ == note.preamble());
    assert(encode_utf8(f.preamble@).len() == note.doc.preamble.end) by {
        let b = encode_utf8(note.source);
        let e = note.doc.preamble.end as int;
        assert(note.doc.preamble.start == 0);
        encode_utf8_valid_utf8(note.source);
        is_char_boundary_start_end_of_seq(b);
        slice_is_text(b, 0, e);
        decode_utf8_encode_utf8(b.subrange(0, e));
    }
    let want = fact_keys(note.doc.links, ids, path_rows(f.exact@), name_rows(f.names@));
    let have = keys(f.edges@);
    key_set_is_exact(want, want.len() as int, 8);
    assert(want.take(want.len() as int) =~= want);
    key_set_is_exact(have, have.len() as int, 8);
    assert(have.take(have.len() as int) =~= have);
    assert forall|k: KeyView| #[trigger] key_set(want, want.len() as int).contains(k) <==> key_set(
        have,
        f.edges.len() as int,
    ).contains(k) by {
        edges_are_fresh(f, plan, old, note, ids, edges, tags, removed, k);
    }
    let held = keys(f.tags@);
    key_set_is_exact(held, held.len() as int, 1);
    assert(held.take(held.len() as int) =~= held);
    assert forall|k: KeyView| #[trigger] desired_tags(note.doc.tags, ids).contains(k) <==> key_set(
        held,
        f.tags.len() as int,
    ).contains(k) by {
        tags_are_fresh(f, plan, old, note, ids, edges, tags, removed, k);
    }
    nothing_reported_is_healthy(r, f, note);
}

/// What a write stores is healthy: read back after the write, and every edge as it
/// resolves now, the note is reported clean.
pub proof fn a_write_is_reported_clean(
    r: NoteReport,
    f: NoteFacts,
    w: NoteWrite,
    old: Stored,
    existed: bool,
    note: NoteView,
    path: Seq<char>,
    edges: Seq<(i64, EdgeKey)>,
    tags: Seq<(i64, TagKey)>,
    bindings: Seq<Rebound>,
    fresh: Seq<Uuid>,
)
    requires
        write_is(w, old, existed, note, path, edges, tags, bindings, fresh),
        old.ok(),
        note_ok(note),
        parsed_as(note.source) == Some(note),
        note.doc.blocks.len() <= i32::MAX,
        note.tiles.len() <= i32::MAX,
        fresh.len() >= note.doc.blocks.len(),
        unheard_of(fresh, old.rows),
        numbered(edges),
        numbered(tags),
        reads_back(f, w.plan, old, edges, tags),
        report_is(r, f, note),
    ensures
        r.is_clean(),
{
    a_write_stores_the_note(w, old, existed, note, path, edges, tags, bindings, fresh);
    a_stored_note_is_clean(
        r,
        f,
        w.plan,
        old,
        note,
        path,
        w.carry.ids@,
        w.carry.removed@,
        edges,
        tags,
    );
}

/// What an operation stores is healthy: read back after it, and every edge as it
/// resolves now, the note is reported clean.
pub proof fn an_operation_is_reported_clean(
    r: NoteReport,
    f: NoteFacts,
    w: OpWrite,
    ctx: NoteCtx,
    p: PlanView,
    fresh: Seq<Uuid>,
)
    requires
        ctx.ok(),
        plan_ok(ctx.rows.len() as int, p),
        commit_fault(ctx.parsed.deep_view().doc.blocks, p) is None,
        op_write_is(w, ctx, p, fresh),
        parsed_as(p.probe.source) == Some(p.probe),
        p.probe.doc.blocks.len() <= i32::MAX,
        p.probe.tiles.len() <= i32::MAX,
        fresh.len() >= p.probe.doc.blocks.len(),
        unheard_of(fresh, ctx.rows.deep_view()),
        numbered(ctx.edges@),
        numbered(ctx.tags@),
        reads_back(f, w.plan, ctx.stored(), ctx.edges@, ctx.tags@),
        report_is(r, f, p.probe),
    ensures
        r.is_clean(),
{
    an_operation_stores_the_note(w, ctx, p, fresh);
    a_stored_note_is_clean(
        r,
        f,
        w.plan,
        ctx.stored(),
        p.probe,
        ctx.path@,
        w.carry.ids@,
        w.carry.removed@,
        ctx.edges@,
        ctx.tags@,
    );
}

} // verus!
