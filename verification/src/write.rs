//! The write path: one parse, one plan of what to store, no triggers.

use vstd::prelude::*;
use vstd::string::*;

use crate::carry::{
    a_claim_keeps_the_id, a_section_keeps_its_own_blocks, an_untouched_block_keeps_its_id,
    carried_ids_are_distinct, carried_or_removed, carries, carry_done, carry_note, finish_carry,
    ids_of_rows, note_carry, note_carry_ok, note_input, nothing_alike_is_left_over, open_slots,
    open_slots_bound, row_ids, sole_holders, srcs_of_blocks, srcs_of_rows, unlike_any, untouched,
    untouched_in_section, unused_ids_are, what_is_new_is_minted, Carry, CarryInput, CarryView,
    InputView,
};
use crate::document::Block;
use crate::errors::Pm;
use crate::extraction::{
    desired_edges, desired_tags, keys, new_keys, reconcile_extraction, row_keys, stale_rows,
    EdgeKey, ExtractionPlan, TagKey,
};
use crate::history::{capture, captured, position, position_facts, PreImage, StoredNote};
use crate::ids::Uuid;
use crate::json::{json_copy, json_eq, Json};
use crate::note::{note_ok, NoteView, ParsedNote};
use crate::path::{path_is_valid, path_normalize, valid_path};
use crate::rebind::{apply_bindings, rebound, rebound_ok, Rebound};
use crate::reconcile::{
    block_plan_stores_the_new_rows, note_changed, plan_blocks, plan_tiles, row_inserts, row_table,
    row_updates, rows_deleted, rows_for, rows_of, rows_put, tile_cut, tile_inserts,
    tile_plan_stores_the_new_tiles, tile_table, tile_updates, tile_writes, tiles_cut,
    tiles_inserted, tiles_updated, BlockPlan, TilePlan,
};
use crate::rows::{meta_view, write_meta};
use crate::state::Stored;
use crate::store::{cas_check, source_of, stale, BlockRow, RowView, StaleHead};
use crate::timetravel::{rewind_undoes, rewound};
use crate::text::{concat, nfc, slice, str_eq, trimmed};

verus! {

/// The preamble of a note.
pub fn preamble_of<'a>(note: &'a ParsedNote) -> (r: &'a str)
    requires
        note_ok(note.deep_view()),
    ensures
        r@ == note.deep_view().preamble(),
{
    slice(note.source.as_str(), note.doc.preamble.start, note.doc.preamble.end)
}

/// What is stored of a note whose blocks have these ids.
pub open spec fn stored_as(note: NoteView, path: Seq<char>, ids: Seq<Uuid>) -> Stored {
    Stored {
        path,
        preamble: note.preamble(),
        props: note.doc.properties,
        tiles: note.tiles,
        rows: rows_of(note, ids),
    }
}

/// Why a write is refused.
#[derive(Debug, Clone, Copy, PartialEq, Eq, Structural)]
pub enum WriteFault {
    InvalidPath,
    Stale(StaleHead),
}

impl WriteFault {
    pub open spec fn pm(self) -> Pm {
        match self {
            WriteFault::InvalidPath => Pm::InvalidPath,
            WriteFault::Stale(_) => Pm::StaleHead,
        }
    }

    pub open spec fn text(self) -> Seq<char> {
        match self {
            WriteFault::InvalidPath => "invalid note path"@,
            WriteFault::Stale(_) => "expected_head is not the note's current head"@,
        }
    }

    /// The error that the fault raises.
    pub fn code(self) -> (r: Pm)
        ensures
            r == self.pm(),
    {
        match self {
            WriteFault::InvalidPath => Pm::InvalidPath,
            WriteFault::Stale(_) => Pm::StaleHead,
        }
    }

    /// The message that the fault raises.
    pub fn message(self) -> (r: &'static str)
        ensures
            r@ == self.text(),
    {
        match self {
            WriteFault::InvalidPath => "invalid note path",
            WriteFault::Stale(_) => "expected_head is not the note's current head",
        }
    }
}

/// The path that a note is written at: the given one, normalized, if it is valid.
pub fn note_path(path: &str) -> (r: Result<String, WriteFault>)
    ensures
        match r {
            Ok(p) => p@ == nfc(trimmed(path@)) && valid_path(p@),
            Err(e) => e == WriteFault::InvalidPath && !valid_path(nfc(trimmed(path@))),
        },
{
    let p = path_normalize(path);
    if path_is_valid(p.as_str()) {
        Ok(p)
    } else {
        Err(WriteFault::InvalidPath)
    }
}

/// What a write has to do.
#[derive(Debug, Clone, Copy, PartialEq, Eq, Structural)]
pub enum WriteStep {
    /// The note already holds these bytes; its head is the answer.
    Unchanged(Uuid),
    Update,
    Create,
}

/// What a write has to do, given the note at the path, if there is one: its head
/// and its bytes. A stale write is refused; writing what is stored already is no
/// write.
pub open spec fn write_step(
    stored: Option<(Uuid, Seq<char>)>,
    source: Seq<char>,
    expected_head: Option<Uuid>,
) -> Result<WriteStep, WriteFault> {
    match stored {
        Some((head, bytes)) => if stale(expected_head, head) {
            Err(WriteFault::Stale(StaleHead { expected: expected_head->0, observed: head }))
        } else if bytes == source {
            Ok(WriteStep::Unchanged(head))
        } else {
            Ok(WriteStep::Update)
        },
        None => Ok(WriteStep::Create),
    }
}

/// What a write has to do. `stored` is the head, the preamble and the tiles of
/// the live note at the path.
pub fn begin_write(
    stored: Option<(Uuid, &str, &Vec<String>)>,
    source: &str,
    expected_head: Option<Uuid>,
) -> (r: Result<WriteStep, WriteFault>)
    ensures
        r == write_step(
            (match stored {
                Some((head, preamble, tiles)) => Some(
                    (head, preamble@ + concat(tiles.deep_view())),
                ),
                None => None,
            }),
            source@,
            expected_head,
        ),
{
    match stored {
        Some((head, preamble, tiles)) => {
            if let Err(e) = cas_check(expected_head, head) {
                return Err(WriteFault::Stale(e));
            }
            if str_eq(source_of(preamble, tiles).as_str(), source) {
                Ok(WriteStep::Unchanged(head))
            } else {
                Ok(WriteStep::Update)
            }
        },
        None => Ok(WriteStep::Create),
    }
}

/// The writes that replace what is stored of a note.
#[derive(Debug)]
pub struct LanePlan {
    /// The new preamble and properties, where either changes.
    pub note: Option<(String, Json)>,
    pub tiles: TilePlan,
    pub blocks: BlockPlan,
    pub extraction: ExtractionPlan,
}

/// The plan's parts are what bringing `old` in line with the note takes.
pub open spec fn plan_is(
    plan: LanePlan,
    old: Stored,
    note: NoteView,
    ids: Seq<Uuid>,
    removed: Seq<Uuid>,
    edges: Seq<(i64, EdgeKey)>,
    tags: Seq<(i64, TagKey)>,
) -> bool {
    let rows = rows_of(note, ids);
    let want_edges = desired_edges(note.doc.links, ids);
    let want_tags = desired_tags(note.doc.tags, ids);
    &&& match plan.note {
        Some(c) => note_changed(old.preamble, old.props, note) && c.0@ == note.preamble() && c.1@
            == note.doc.properties,
        None => !note_changed(old.preamble, old.props, note),
    }
    &&& tile_writes(plan.tiles.updates@) == tile_updates(
        old.tiles,
        note.tiles,
        note.tiles.len() as int,
    )
    &&& tile_writes(plan.tiles.inserts@) == tile_inserts(
        old.tiles,
        note.tiles,
        note.tiles.len() as int,
    )
    &&& plan.tiles.delete_from == tile_cut(old.tiles, note.tiles)
    &&& plan.blocks.inserts.deep_view() == row_inserts(old.rows, rows, rows.len() as int)
    &&& plan.blocks.updates.deep_view() == row_updates(old.rows, rows, rows.len() as int)
    &&& plan.blocks.deletes@ == removed
    &&& plan.extraction.stale_edges@ == stale_rows(row_keys(edges), want_edges, edges.len() as int)
    &&& keys(plan.extraction.new_edges@) == new_keys(
        row_keys(edges),
        want_edges,
        want_edges.len() as int,
    )
    &&& plan.extraction.stale_tags@ == stale_rows(row_keys(tags), want_tags, tags.len() as int)
    &&& keys(plan.extraction.new_tags@) == new_keys(
        row_keys(tags),
        want_tags,
        want_tags.len() as int,
    )
}

/// The writes that bring what is stored in line with a parsed note whose blocks
/// have these ids: the note's own columns, the tiles, the block rows, and the
/// extraction indexes. `removed` are the ids that no block has any more.
pub fn reconcile(
    old: &StoredNote,
    note: &ParsedNote,
    ids: &Vec<Uuid>,
    removed: &Vec<Uuid>,
    edges: &Vec<(i64, EdgeKey)>,
    tags: &Vec<(i64, TagKey)>,
) -> (r: LanePlan)
    requires
        note_ok(note.deep_view()),
        ids.len() == note.doc.blocks.len(),
        note.doc.blocks.len() <= i32::MAX,
        note.tiles.len() <= i32::MAX,
    ensures
        plan_is(r, old.deep_view(), note.deep_view(), ids@, removed@, edges@, tags@),
{
    assert(note.deep_view().doc.blocks.len() == note.doc.blocks.len());
    let preamble = preamble_of(note);
    let changed = !str_eq(old.preamble, preamble) || !json_eq(old.props, &note.doc.properties);
    let own = if changed {
        Some((preamble.to_owned(), json_copy(&note.doc.properties)))
    } else {
        None
    };
    let tile_plan = plan_tiles(old.tiles, &note.tiles);
    let rows = rows_for(note, ids);
    let blocks = plan_blocks(old.rows, &rows, removed);
    let extraction = reconcile_extraction(&note.doc.links, &note.doc.tags, ids, edges, tags);
    LanePlan { note: own, tiles: tile_plan, blocks, extraction }
}

/// The whole-note carry with the bindings of the heuristic.
fn carry_and_bind(
    old: &Vec<BlockRow>,
    new: &Vec<Block>,
    bindings: &Vec<Rebound>,
    fresh: &Vec<Uuid>,
) -> (r: Carry)
    requires
        row_ids(old.deep_view()).no_duplicates(),
        fresh.len() >= new.len(),
    ensures
        r.ids.len() == new.len(),
        carry_done(
            r,
            note_input(old.deep_view(), new.deep_view()),
            rebound(
                note_input(old.deep_view(), new.deep_view()),
                note_carry(note_input(old.deep_view(), new.deep_view())),
                bindings@,
                bindings.len() as int,
            ),
            fresh@,
        ),
{
    let mut state = carry_note(old, new);
    let old_src = srcs_of_rows(old);
    let new_src = srcs_of_blocks(new);
    let old_ids = ids_of_rows(old);
    let input = CarryInput { old: &old_src, new: &new_src, old_ids: &old_ids };
    apply_bindings(&input, &mut state, bindings);
    proof {
        open_slots_bound(state.assign@, state.assign.len() as int);
    }
    finish_carry(&input, state, fresh)
}

/// Everything that one write stores.
#[derive(Debug)]
pub struct NoteWrite {
    pub carry: Carry,
    pub rows: Vec<BlockRow>,
    pub plan: LanePlan,
    pub pre: PreImage,
    pub meta: Json,
}

/// What one write stores: the ids carried over from the old rows, the plan of
/// writes, what history records, and the revision's metadata.
pub open spec fn write_is(
    w: NoteWrite,
    old: Stored,
    existed: bool,
    note: NoteView,
    path: Seq<char>,
    edges: Seq<(i64, EdgeKey)>,
    tags: Seq<(i64, TagKey)>,
    bindings: Seq<Rebound>,
    fresh: Seq<Uuid>,
) -> bool {
    let inp = note_input(old.rows, note.doc.blocks);
    let st = rebound(inp, note_carry(inp), bindings, bindings.len() as int);
    &&& carry_done(w.carry, inp, st, fresh)
    &&& w.rows.deep_view() == rows_of(note, w.carry.ids@)
    &&& plan_is(w.plan, old, note, w.carry.ids@, w.carry.removed@, edges, tags)
    &&& w.pre.deep_view() == captured(old, existed, stored_as(note, path, w.carry.ids@))
    &&& w.meta@ == meta_view("write"@, w.carry)
}

/// Plans the write of a whole note. `old` is what is stored, empty for a note
/// that does not exist yet (`existed` false); `bindings` are what rebinding made
/// of the blocks that no rule carried; `fresh` holds ids that nothing has yet,
/// one for each block.
pub fn write_note(
    old: &StoredNote,
    existed: bool,
    note: &ParsedNote,
    path: &str,
    edges: &Vec<(i64, EdgeKey)>,
    tags: &Vec<(i64, TagKey)>,
    bindings: &Vec<Rebound>,
    fresh: &Vec<Uuid>,
) -> (r: NoteWrite)
    requires
        note_ok(note.deep_view()),
        row_ids(old.rows.deep_view()).no_duplicates(),
        note.doc.blocks.len() <= i32::MAX,
        note.tiles.len() <= i32::MAX,
        old.rows.len() <= i32::MAX,
        old.tiles.len() <= i32::MAX,
        fresh.len() >= note.doc.blocks.len(),
    ensures
        write_is(
            r,
            old.deep_view(),
            existed,
            note.deep_view(),
            path@,
            edges@,
            tags@,
            bindings@,
            fresh@,
        ),
{
    assert(note.deep_view().doc.blocks.len() == note.doc.blocks.len());
    let c = carry_and_bind(old.rows, &note.doc.blocks, bindings, fresh);
    let rows = rows_for(note, &c.ids);
    let plan = reconcile(old, note, &c.ids, &c.removed, edges, tags);
    let new = StoredNote {
        path,
        preamble: preamble_of(note),
        props: &note.doc.properties,
        tiles: &note.tiles,
        rows: &rows,
    };
    let pre = capture(old, existed, &new);
    let meta = write_meta("write", &c);
    NoteWrite { carry: c, rows, plan, pre, meta }
}

/// No fresh id is in use.
pub open spec fn unheard_of(fresh: Seq<Uuid>, old: Seq<RowView>) -> bool {
    &&& fresh.no_duplicates()
    &&& forall|i: int, o: int|
        0 <= i < fresh.len() && 0 <= o < old.len() ==> #[trigger] fresh[i] != (
        #[trigger] old[o]).id
}

/// The tables after a plan's writes.
pub open spec fn tiles_after(plan: LanePlan, old: Stored) -> Map<int, Seq<char>> {
    tiles_cut(
        tiles_inserted(
            tiles_updated(tile_table(old.tiles), tile_writes(plan.tiles.updates@)),
            tile_writes(plan.tiles.inserts@),
        ),
        plan.tiles.delete_from,
    )
}

pub open spec fn rows_after(plan: LanePlan, old: Stored) -> Map<Uuid, RowView> {
    rows_deleted(
        rows_put(
            rows_put(row_table(old.rows), plan.blocks.inserts.deep_view()),
            plan.blocks.updates.deep_view(),
        ),
        plan.blocks.deletes@,
    )
}

/// What a plan stores, where the ids come from a carry that is in order: the
/// note's tiles and the note's rows, every block with an id of its own.
pub proof fn a_plan_stores_the_note(
    plan: LanePlan,
    c: Carry,
    inp: InputView,
    st: CarryView,
    old: Stored,
    note: NoteView,
    path: Seq<char>,
    edges: Seq<(i64, EdgeKey)>,
    tags: Seq<(i64, TagKey)>,
    fresh: Seq<Uuid>,
)
    requires
        carry_done(c, inp, st, fresh),
        plan_is(plan, old, note, c.ids@, c.removed@, edges, tags),
        inp.ok(),
        st.ok(inp),
        inp.old_ids == old.ids(),
        inp.new.len() == note.doc.blocks.len(),
        note.doc.blocks.len() <= i32::MAX,
        note.tiles.len() <= i32::MAX,
        fresh.len() >= note.doc.blocks.len(),
        unheard_of(fresh, old.rows),
    ensures
        stored_as(note, path, c.ids@).ok(),
        tiles_after(plan, old) == tile_table(note.tiles),
        rows_after(plan, old) == row_table(rows_of(note, c.ids@)),
{
    let ids = c.ids@;
    let rows = rows_of(note, ids);
    open_slots_bound(st.assign, st.assign.len() as int);
    assert forall|i: int, o: int| 0 <= i < fresh.len() && 0 <= o < inp.old_ids.len() implies
        #[trigger] fresh[i] != #[trigger] inp.old_ids[o] by {
        assert(inp.old_ids[o] == old.rows[o].id);
    }
    carried_ids_are_distinct(inp, st, fresh);
    assert(ids.no_duplicates());
    let new = stored_as(note, path, ids);
    assert(new.ids() =~= ids);
    assert forall|a: int, b: int| 0 <= a < b < rows.len() implies (#[trigger] rows[a]).id != (
    #[trigger] rows[b]).id by {
        assert(rows[a].id == ids[a] && rows[b].id == ids[b]);
    }
    tile_plan_stores_the_new_tiles(old.tiles, note.tiles);
    let removed = c.removed@;
    assert forall|id: Uuid| #[trigger] removed.contains(id) <==> position(old.rows, id, 0) is Some
        && position(rows, id, 0) is None by {
        position_facts(old.rows, id, 0);
        position_facts(rows, id, 0);
        unused_ids_are(inp.old_ids, st.old_used, inp.old_ids.len() as int, id);
        if let Some(o) = position(old.rows, id, 0) {
            assert(inp.old_ids[o] == id);
            if fresh.contains(id) {
                let i = choose|i: int| 0 <= i < fresh.len() && fresh[i] == id;
                assert(fresh[i] != inp.old_ids[o]);
            }
            carried_or_removed(inp, st, fresh, o);
            if let Some(k) = position(rows, id, 0) {
                assert(ids[k] == id);
                assert(ids.contains(id));
            }
            if ids.contains(id) {
                let k = choose|k: int| 0 <= k < ids.len() && ids[k] == id;
                assert(rows[k].id == id);
            }
        } else {
            if removed.contains(id) {
                let o = choose|o: int|
                    0 <= o < inp.old_ids.len() && !st.old_used[o] && #[trigger] inp.old_ids[o] == id;
                assert(old.rows[o].id == id);
            }
        }
    }
    block_plan_stores_the_new_rows(old.rows, rows, removed);
}

/// A write stores the note: after its writes the tables hold the note's tiles and
/// the note's rows, every block with an id of its own, and nothing else.
pub proof fn a_write_stores_the_note(
    w: NoteWrite,
    old: Stored,
    existed: bool,
    note: NoteView,
    path: Seq<char>,
    edges: Seq<(i64, EdgeKey)>,
    tags: Seq<(i64, TagKey)>,
    bindings: Seq<Rebound>,
    fresh: Seq<Uuid>,
)
    requires
        write_is(w, old, existed, note, path, edges, tags, bindings, fresh),
        old.ok(),
        note_ok(note),
        note.doc.blocks.len() <= i32::MAX,
        note.tiles.len() <= i32::MAX,
        fresh.len() >= note.doc.blocks.len(),
        unheard_of(fresh, old.rows),
    ensures
        w.carry.ids@.len() == note.doc.blocks.len(),
        stored_as(note, path, w.carry.ids@).ok(),
        tiles_after(w.plan, old) == tile_table(note.tiles),
        rows_after(w.plan, old) == row_table(rows_of(note, w.carry.ids@)),
{
    let inp = note_input(old.rows, note.doc.blocks);
    let st0 = note_carry(inp);
    let st = rebound(inp, st0, bindings, bindings.len() as int);
    assert(inp.old_ids =~= old.ids());
    assert(inp.ok());
    note_carry_ok(inp);
    rebound_ok(inp, st0, bindings, bindings.len() as int);
    a_plan_stores_the_note(w.plan, w.carry, inp, st, old, note, path, edges, tags, fresh);
}

/// Bindings change nothing that a rule carried.
proof fn rebound_keeps(inp: InputView, st: CarryView, bindings: Seq<Rebound>, k: int)
    requires
        0 <= k <= bindings.len(),
    ensures
        rebound(inp, st, bindings, k).assign.len() == st.assign.len(),
        rebound(inp, st, bindings, k).old_used.len() == st.old_used.len(),
        forall|i: int|
            0 <= i < st.assign.len() && st.assign[i] is Some ==> #[trigger] rebound(
                inp,
                st,
                bindings,
                k,
            ).assign[i] == st.assign[i],
        forall|o: int|
            0 <= o < st.old_used.len() && st.old_used[o] ==> #[trigger] rebound(
                inp,
                st,
                bindings,
                k,
            ).old_used[o],
    decreases k,
{
    if k > 0 {
        rebound_keeps(inp, st, bindings, k - 1);
    }
}

/// Identity survives a rewrite: whatever else a write changes, adds, removes or
/// reorders, a block keeps its id that it left untouched (its content is its own, in
/// the note or in its section), or that claims it by a marker. Rebinding reaches only
/// what no rule carried.
pub proof fn a_write_keeps_untouched_blocks(
    w: NoteWrite,
    old: Stored,
    existed: bool,
    note: NoteView,
    path: Seq<char>,
    edges: Seq<(i64, EdgeKey)>,
    tags: Seq<(i64, TagKey)>,
    bindings: Seq<Rebound>,
    fresh: Seq<Uuid>,
    n: int,
    o: int,
)
    requires
        write_is(w, old, existed, note, path, edges, tags, bindings, fresh),
        old.ok(),
        note.doc.blocks.len() <= i32::MAX,
        0 <= n < note.doc.blocks.len(),
        0 <= o < old.rows.len(),
        ({
            let inp = note_input(old.rows, note.doc.blocks);
            untouched(inp, n, o) || untouched_in_section(inp, n, o) || sole_holders(inp, n, o)
        }),
    ensures
        w.carry.ids@[n] == old.rows[o].id,
        w.rows.deep_view()[n].id == old.rows[o].id,
{
    let inp = note_input(old.rows, note.doc.blocks);
    assert(inp.old_ids =~= old.ids());
    assert(inp.ok());
    if sole_holders(inp, n, o) {
        a_claim_keeps_the_id(inp, n, o);
    } else if untouched(inp, n, o) {
        an_untouched_block_keeps_its_id(inp, n, o);
    } else {
        a_section_keeps_its_own_blocks(inp, n, o);
    }
    note_carry_ok(inp);
    rebound_keeps(inp, note_carry(inp), bindings, bindings.len() as int);
    assert(w.carry.ids@[n] == old.rows[o].id);
}

/// Nothing alike is left over: a write mints an id for one block and removes that of
/// another only where their contents differ.
pub proof fn a_write_leaves_nothing_alike(
    w: NoteWrite,
    old: Stored,
    existed: bool,
    note: NoteView,
    path: Seq<char>,
    edges: Seq<(i64, EdgeKey)>,
    tags: Seq<(i64, TagKey)>,
    bindings: Seq<Rebound>,
    fresh: Seq<Uuid>,
    n: int,
    o: int,
)
    requires
        write_is(w, old, existed, note, path, edges, tags, bindings, fresh),
        old.ok(),
        note.doc.blocks.len() <= i32::MAX,
        unheard_of(fresh, old.rows),
        0 <= n < note.doc.blocks.len(),
        0 <= o < old.rows.len(),
        fresh.contains(w.carry.ids@[n]),
        w.carry.removed@.contains(old.rows[o].id),
    ensures
        note.doc.blocks[n].content_hash != old.rows[o].content_hash,
{
    let inp = note_input(old.rows, note.doc.blocks);
    assert(inp.old_ids =~= old.ids());
    assert(inp.ok());
    note_carry_ok(inp);
    let st0 = note_carry(inp);
    let st = rebound(inp, st0, bindings, bindings.len() as int);
    rebound_keeps(inp, st0, bindings, bindings.len() as int);
    rebound_ok(inp, st0, bindings, bindings.len() as int);
    nothing_alike_is_left_over(inp, n, o);
    unused_ids_are(inp.old_ids, st.old_used, inp.old_ids.len() as int, old.rows[o].id);
    let k = choose|k: int|
        0 <= k < inp.old_ids.len() && !st.old_used[k] && #[trigger] inp.old_ids[k]
            == old.rows[o].id;
    assert(inp.old_ids[k] == inp.old_ids[o]);
    assert(k == o);
    if let Some(id) = st0.assign[n] {
        assert(st.assign[n] == st0.assign[n]);
        let c = choose|c: int|
            0 <= c < st0.old_used.len() && st0.old_used[c] && #[trigger] carries(
                inp,
                st0.assign,
                n,
                c,
            );
        assert(w.carry.ids@[n] == id);
        let f = choose|f: int| 0 <= f < fresh.len() && fresh[f] == id;
        assert(fresh[f] != old.rows[c].id);
    }
}

/// An edited block is minted: where rebinding makes no bindings, a block whose content
/// and marker no old block has gets an id that is new.
pub proof fn a_write_mints_what_is_new(
    w: NoteWrite,
    old: Stored,
    existed: bool,
    note: NoteView,
    path: Seq<char>,
    edges: Seq<(i64, EdgeKey)>,
    tags: Seq<(i64, TagKey)>,
    fresh: Seq<Uuid>,
    n: int,
)
    requires
        write_is(w, old, existed, note, path, edges, tags, Seq::empty(), fresh),
        old.ok(),
        note.doc.blocks.len() <= i32::MAX,
        fresh.len() >= note.doc.blocks.len(),
        unheard_of(fresh, old.rows),
        0 <= n < note.doc.blocks.len(),
        unlike_any(note_input(old.rows, note.doc.blocks), n),
    ensures
        fresh.contains(w.carry.ids@[n]),
        forall|o: int| 0 <= o < old.rows.len() ==> w.carry.ids@[n] != (#[trigger] old.rows[o]).id,
{
    let inp = note_input(old.rows, note.doc.blocks);
    assert(inp.old_ids =~= old.ids());
    what_is_new_is_minted(inp, n);
    note_carry_ok(inp);
    let st = note_carry(inp);
    open_slots_bound(st.assign, n);
    let i = open_slots(st.assign, n) as int;
    assert(w.carry.ids@[n] == fresh[i]);
}

/// A write can be taken back: what it records rewinds the state it leaves to the
/// state it replaced.
pub proof fn a_write_can_be_taken_back(
    w: NoteWrite,
    old: Stored,
    note: NoteView,
    path: Seq<char>,
    edges: Seq<(i64, EdgeKey)>,
    tags: Seq<(i64, TagKey)>,
    bindings: Seq<Rebound>,
    fresh: Seq<Uuid>,
)
    requires
        write_is(w, old, true, note, path, edges, tags, bindings, fresh),
        old.ok(),
        note_ok(note),
        note.doc.blocks.len() <= i32::MAX,
        note.tiles.len() <= i32::MAX,
        fresh.len() >= note.doc.blocks.len(),
        unheard_of(fresh, old.rows),
    ensures
        rewound(stored_as(note, path, w.carry.ids@).state(), w.pre.deep_view()) == Some(old.state()),
{
    a_write_stores_the_note(w, old, true, note, path, edges, tags, bindings, fresh);
    rewind_undoes(old, stored_as(note, path, w.carry.ids@));
}

/// The same bytes come out: what is stored of a note reads as the source that
/// was written.
pub proof fn the_same_bytes_come_out(note: NoteView, path: Seq<char>, ids: Seq<Uuid>)
    requires
        note_ok(note),
    ensures
        ({
            let s = stored_as(note, path, ids).state();
            s.preamble + concat(s.tiles) == note.source
        }),
{
}

/// Writing what is stored already is no write: the head stays.
pub proof fn a_rewrite_is_no_write(head: Uuid, source: Seq<char>, expected_head: Option<Uuid>)
    requires
        !stale(expected_head, head),
    ensures
        write_step(Some((head, source)), source, expected_head) == Ok::<WriteStep, WriteFault>(
            WriteStep::Unchanged(head),
        ),
{
}

/// A write is refused exactly if the caller expected another head than the note has, and
/// then says both; without an expectation it never is. Nothing is expected of a note
/// that is not there.
pub proof fn a_stale_write_is_refused(
    stored: Option<(Uuid, Seq<char>)>,
    source: Seq<char>,
    expected: Option<Uuid>,
)
    ensures
        write_step(stored, source, expected) is Err <==> stored is Some && expected is Some
            && expected->0 != (stored->0).0,
        write_step(stored, source, expected) matches Err(f) ==> f == WriteFault::Stale(
            StaleHead { expected: expected->0, observed: (stored->0).0 },
        ),
        write_step(stored, source, expected) == Ok::<WriteStep, WriteFault>(WriteStep::Create)
            <==> stored is None,
        write_step(stored, source, expected) matches Ok(WriteStep::Unchanged(h)) ==> stored
            == Some((h, source)),
        write_step(stored, source, expected) matches Ok(WriteStep::Update) ==> stored is Some && (
        stored->0).1 != source,
{
}

} // verus!
