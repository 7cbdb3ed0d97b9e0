//! Bringing what is stored of a note in line with a new parse: which tiles and
//! which block rows to insert, to update and to delete.

use vstd::prelude::*;
use vstd::string::*;

use crate::carry::texts_eq;
use crate::history::{copy_bytes, find_row, position, position_facts, same_id, same_text};
use crate::ids::Uuid;
use crate::json::{json_copy, json_eq, JsonView};
use crate::note::{NoteView, ParsedNote};
use crate::parse::parents_first;
use crate::state::{copy_text, copy_texts};
use crate::store::{bytes_eq, BlockRow, RowView};

verus! {

/// The row that block `i` of a note is stored as.
pub open spec fn row_of(note: NoteView, ids: Seq<Uuid>, i: int) -> RowView {
    let b = note.doc.blocks[i];
    RowView {
        id: ids[i],
        ord: i as i32,
        parent_block: match b.parent {
            Some(p) => Some(ids[p as int]),
            None => None,
        },
        kind: b.kind.name(),
        heading_path: b.heading_path,
        content: b.normalized_content,
        content_hash: b.content_hash,
        block_ref_id: b.block_ref_id,
        tile_ord: note.placement[i].0,
        start_in_tile: note.placement[i].1,
        end_in_tile: note.placement[i].2,
        attrs: b.attrs,
    }
}

/// The rows that a note is stored as, its blocks having these ids.
pub open spec fn rows_of(note: NoteView, ids: Seq<Uuid>) -> Seq<RowView> {
    Seq::new(note.doc.blocks.len(), |i: int| row_of(note, ids, i))
}

/// The ids fit the note: one for each block, and each block's parent among them.
pub open spec fn ids_fit(note: NoteView, ids: Seq<Uuid>) -> bool {
    &&& ids.len() == note.doc.blocks.len()
    &&& note.placement.len() == note.doc.blocks.len()
    &&& note.doc.blocks.len() <= i32::MAX
    &&& parents_first(note.doc.blocks)
}

/// The rows that a note is stored as.
pub fn rows_for(note: &ParsedNote, ids: &Vec<Uuid>) -> (r: Vec<BlockRow>)
    requires
        ids_fit(note.deep_view(), ids@),
    ensures
        r.deep_view() == rows_of(note.deep_view(), ids@),
{
    let ghost v = note.deep_view();
    let mut out: Vec<BlockRow> = Vec::new();
    let mut i: usize = 0;
    assert(v.doc.blocks.len() == note.doc.blocks.len());
    while i < note.doc.blocks.len()
        invariant
            i <= note.doc.blocks.len(),
            v == note.deep_view(),
            ids_fit(v, ids@),
            v.doc.blocks.len() == note.doc.blocks.len(),
            out.len() == i,
            forall|k: int| 0 <= k < i ==> (#[trigger] out[k]).deep_view() == row_of(v, ids@, k),
        decreases note.doc.blocks.len() - i,
    {
        let b = &note.doc.blocks[i];
        assert(v.doc.blocks[i as int] == b.deep_view());
        let (tile_ord, start_in_tile, end_in_tile) = note.placement[i];
        let row = BlockRow {
            id: ids[i],
            ord: i as i32,
            parent_block: match b.parent {
                Some(p) => Some(ids[p as usize]),
                None => None,
            },
            kind: b.kind.tag().to_owned(),
            heading_path: copy_texts(&b.heading_path),
            content: b.normalized_content.clone(),
            content_hash: hash_bytes_of(&b.content_hash),
            block_ref_id: copy_text(&b.block_ref_id),
            tile_ord,
            start_in_tile,
            end_in_tile,
            attrs: json_copy(&b.attrs),
        };
        assert(row.deep_view() == row_of(v, ids@, i as int));
        out.push(row);
        i += 1;
    }
    assert(out.deep_view() =~= rows_of(v, ids@));
    out
}

fn hash_bytes_of(h: &[u8; 32]) -> (r: Vec<u8>)
    ensures
        r@ == h@,
{
    let mut out: Vec<u8> = Vec::new();
    let mut i: usize = 0;
    while i < 32
        invariant
            i <= 32,
            h@.len() == 32,
            out@ == h@.take(i as int),
        decreases 32 - i,
    {
        out.push(h[i]);
        i += 1;
    }
    assert(h@.take(32) =~= h@);
    out
}

// ---- the byte lane ----

/// The writes that bring the stored tiles in line.
#[derive(Debug)]
pub struct TilePlan {
    pub updates: Vec<(i32, String)>,
    pub inserts: Vec<(i32, String)>,
    /// Tiles from this one on are deleted.
    pub delete_from: Option<i32>,
}

pub open spec fn tile_writes(v: Seq<(i32, String)>) -> Seq<(i32, Seq<char>)> {
    Seq::new(v.len(), |i: int| (v[i].0, v[i].1@))
}

/// Of the first `n` new tiles, those that replace a stored one that differs.
pub open spec fn tile_updates(old: Seq<Seq<char>>, new: Seq<Seq<char>>, n: int) -> Seq<
    (i32, Seq<char>),
>
    decreases n,
{
    if n <= 0 {
        Seq::empty()
    } else if n - 1 < old.len() && old[n - 1] != new[n - 1] {
        tile_updates(old, new, n - 1).push(((n - 1) as i32, new[n - 1]))
    } else {
        tile_updates(old, new, n - 1)
    }
}

/// Of the first `n` new tiles, those beyond the stored ones.
pub open spec fn tile_inserts(old: Seq<Seq<char>>, new: Seq<Seq<char>>, n: int) -> Seq<
    (i32, Seq<char>),
>
    decreases n,
{
    if n <= 0 {
        Seq::empty()
    } else if n - 1 >= old.len() {
        tile_inserts(old, new, n - 1).push(((n - 1) as i32, new[n - 1]))
    } else {
        tile_inserts(old, new, n - 1)
    }
}

/// The first stored tile to delete, where there are too many.
pub open spec fn tile_cut(old: Seq<Seq<char>>, new: Seq<Seq<char>>) -> Option<i32> {
    if old.len() > new.len() {
        Some(new.len() as i32)
    } else {
        None
    }
}

/// The writes that bring the stored tiles in line. A tile that is as it was is
/// not written.
pub fn plan_tiles(old: &Vec<String>, new: &Vec<String>) -> (r: TilePlan)
    requires
        new.len() <= i32::MAX,
    ensures
        tile_writes(r.updates@) == tile_updates(old.deep_view(), new.deep_view(), new.len() as int),
        tile_writes(r.inserts@) == tile_inserts(old.deep_view(), new.deep_view(), new.len() as int),
        r.delete_from == tile_cut(old.deep_view(), new.deep_view()),
{
    let ghost o = old.deep_view();
    let ghost w = new.deep_view();
    let mut updates: Vec<(i32, String)> = Vec::new();
    let mut inserts: Vec<(i32, String)> = Vec::new();
    proof {
        assert(tile_writes(updates@) =~= Seq::empty());
        assert(tile_writes(inserts@) =~= Seq::empty());
    }
    let mut i: usize = 0;
    while i < new.len()
        invariant
            i <= new.len() <= i32::MAX,
            o == old.deep_view(),
            w == new.deep_view(),
            tile_writes(updates@) == tile_updates(o, w, i as int),
            tile_writes(inserts@) == tile_inserts(o, w, i as int),
        decreases new.len() - i,
    {
        assert(w[i as int] == new[i as int]@);
        if i < old.len() {
            assert(o[i as int] == old[i as int]@);
            if old[i] != new[i] {
                let ghost before = tile_writes(updates@);
                updates.push((i as i32, new[i].clone()));
                assert(tile_writes(updates@) =~= before.push((i as i32, w[i as int])));
            }
        } else {
            let ghost before = tile_writes(inserts@);
            inserts.push((i as i32, new[i].clone()));
            assert(tile_writes(inserts@) =~= before.push((i as i32, w[i as int])));
        }
        i += 1;
    }
    let delete_from = if old.len() > new.len() {
        Some(new.len() as i32)
    } else {
        None
    };
    TilePlan { updates, inserts, delete_from }
}

/// Tiles as a table: by their position.
pub open spec fn tile_table(t: Seq<Seq<char>>) -> Map<int, Seq<char>> {
    Map::new(|i: int| 0 <= i < t.len(), |i: int| t[i])
}

/// The table after these writes; only rows that are there are updated.
pub open spec fn tiles_updated(t: Map<int, Seq<char>>, w: Seq<(i32, Seq<char>)>) -> Map<
    int,
    Seq<char>,
>
    decreases w.len(),
{
    if w.len() == 0 {
        t
    } else {
        let m = tiles_updated(t, w.drop_last());
        if m.contains_key(w.last().0 as int) {
            m.insert(w.last().0 as int, w.last().1)
        } else {
            m
        }
    }
}

/// The table after these rows are added.
pub open spec fn tiles_inserted(t: Map<int, Seq<char>>, w: Seq<(i32, Seq<char>)>) -> Map<
    int,
    Seq<char>,
>
    decreases w.len(),
{
    if w.len() == 0 {
        t
    } else {
        tiles_inserted(t, w.drop_last()).insert(w.last().0 as int, w.last().1)
    }
}

/// The table after the rows from `cut` on are deleted.
pub open spec fn tiles_cut(t: Map<int, Seq<char>>, cut: Option<i32>) -> Map<int, Seq<char>> {
    match cut {
        Some(n) => t.restrict(Set::new(|i: int| i < n)),
        None => t,
    }
}

proof fn updates_done(old: Seq<Seq<char>>, new: Seq<Seq<char>>, n: int)
    requires
        0 <= n <= new.len() <= i32::MAX,
    ensures
        ({
            let m = tiles_updated(tile_table(old), tile_updates(old, new, n));
            &&& m.dom() == tile_table(old).dom()
            &&& forall|i: int|
                0 <= i < old.len() ==> #[trigger] m[i] == (if i < n {
                    new[i]
                } else {
                    old[i]
                })
        }),
    decreases n,
{
    if n > 0 {
        updates_done(old, new, n - 1);
        let w = tile_updates(old, new, n);
        if n - 1 < old.len() && old[n - 1] != new[n - 1] {
            assert(w.drop_last() =~= tile_updates(old, new, n - 1));
            let m = tiles_updated(tile_table(old), w);
            assert(m.dom() =~= tile_table(old).dom());
        }
    }
}

proof fn inserts_done(t: Map<int, Seq<char>>, old: Seq<Seq<char>>, new: Seq<Seq<char>>, n: int)
    requires
        0 <= n <= new.len() <= i32::MAX,
        t.dom() == tile_table(old).dom(),
    ensures
        ({
            let m = tiles_inserted(t, tile_inserts(old, new, n));
            &&& forall|i: int| #[trigger]
                m.dom().contains(i) <==> (0 <= i < old.len() || old.len() <= i < n)
            &&& forall|i: int| 0 <= i < old.len() ==> #[trigger] m[i] == t[i]
            &&& forall|i: int| old.len() <= i < n ==> #[trigger] m[i] == new[i]
        }),
    decreases n,
{
    assert(forall|i: int| #[trigger] t.dom().contains(i) <==> 0 <= i < old.len());
    if n > 0 {
        inserts_done(t, old, new, n - 1);
        if n - 1 >= old.len() {
            let w = tile_inserts(old, new, n);
            assert(w.drop_last() =~= tile_inserts(old, new, n - 1));
            let p = tiles_inserted(t, w.drop_last());
            let m = tiles_inserted(t, w);
            assert(m == p.insert(n - 1, new[n - 1]));
            assert(forall|i: int| #[trigger]
                m.dom().contains(i) <==> (p.dom().contains(i) || i == n - 1));
            assert(forall|i: int| i != n - 1 && p.dom().contains(i) ==> #[trigger] m[i] == p[i]);
        }
    }
}

/// The planned writes leave exactly the new tiles.
pub proof fn tile_plan_stores_the_new_tiles(old: Seq<Seq<char>>, new: Seq<Seq<char>>)
    requires
        new.len() <= i32::MAX,
    ensures
        tiles_cut(
            tiles_inserted(
                tiles_updated(tile_table(old), tile_updates(old, new, new.len() as int)),
                tile_inserts(old, new, new.len() as int),
            ),
            tile_cut(old, new),
        ) == tile_table(new),
{
    let n = new.len() as int;
    let t1 = tiles_updated(tile_table(old), tile_updates(old, new, n));
    updates_done(old, new, n);
    let t2 = tiles_inserted(t1, tile_inserts(old, new, n));
    inserts_done(t1, old, new, n);
    let t3 = tiles_cut(t2, tile_cut(old, new));
    assert(t3 =~= tile_table(new));
}

/// Tiles that are stored already cause no write.
pub proof fn stored_tiles_are_not_written(tiles: Seq<Seq<char>>, n: int)
    requires
        0 <= n <= tiles.len(),
    ensures
        tile_updates(tiles, tiles, n).len() == 0,
        tile_inserts(tiles, tiles, n).len() == 0,
        tile_cut(tiles, tiles) is None,
    decreases n,
{
    if n > 0 {
        stored_tiles_are_not_written(tiles, n - 1);
    }
}

// ---- the semantic lane ----

/// The writes that bring the stored block rows in line, in this order: inserts,
/// updates, deletes.
#[derive(Debug)]
pub struct BlockPlan {
    pub inserts: Vec<BlockRow>,
    pub updates: Vec<BlockRow>,
    pub deletes: Vec<Uuid>,
}

/// Of the first `n` new rows, those whose id no stored row has.
pub open spec fn row_inserts(old: Seq<RowView>, new: Seq<RowView>, n: int) -> Seq<RowView>
    decreases n,
{
    if n <= 0 {
        Seq::empty()
    } else if position(old, new[n - 1].id, 0) is None {
        row_inserts(old, new, n - 1).push(new[n - 1])
    } else {
        row_inserts(old, new, n - 1)
    }
}

/// Of the first `n` new rows, those whose stored row differs in any column.
pub open spec fn row_updates(old: Seq<RowView>, new: Seq<RowView>, n: int) -> Seq<RowView>
    decreases n,
{
    if n <= 0 {
        Seq::empty()
    } else {
        match position(old, new[n - 1].id, 0) {
            Some(k) => if old[k] != new[n - 1] {
                row_updates(old, new, n - 1).push(new[n - 1])
            } else {
                row_updates(old, new, n - 1)
            },
            None => row_updates(old, new, n - 1),
        }
    }
}

/// A copy of a row.
pub fn copy_row(b: &BlockRow) -> (r: BlockRow)
    ensures
        r.deep_view() == b.deep_view(),
{
    BlockRow {
        id: b.id,
        ord: b.ord,
        parent_block: b.parent_block,
        kind: b.kind.clone(),
        heading_path: copy_texts(&b.heading_path),
        content: b.content.clone(),
        content_hash: copy_bytes(&b.content_hash),
        block_ref_id: copy_text(&b.block_ref_id),
        tile_ord: b.tile_ord,
        start_in_tile: b.start_in_tile,
        end_in_tile: b.end_in_tile,
        attrs: json_copy(&b.attrs),
    }
}

/// Whether two rows are equal in every column.
pub fn row_eq(a: &BlockRow, b: &BlockRow) -> (r: bool)
    ensures
        r == (a.deep_view() == b.deep_view()),
{
    a.id == b.id && a.ord == b.ord && same_id(a.parent_block, b.parent_block) && a.kind == b.kind
        && texts_eq(&a.heading_path, &b.heading_path) && a.content == b.content && bytes_eq(
        a.content_hash.as_slice(),
        b.content_hash.as_slice(),
    ) && same_text(&a.block_ref_id, &b.block_ref_id) && a.tile_ord == b.tile_ord && a.start_in_tile
        == b.start_in_tile && a.end_in_tile == b.end_in_tile && json_eq(&a.attrs, &b.attrs)
}

/// The writes that bring the stored block rows in line. A row that is as it was
/// is not written.
pub fn plan_blocks(old: &Vec<BlockRow>, new: &Vec<BlockRow>, removed: &Vec<Uuid>) -> (r: BlockPlan)
    ensures
        r.inserts.deep_view() == row_inserts(old.deep_view(), new.deep_view(), new.len() as int),
        r.updates.deep_view() == row_updates(old.deep_view(), new.deep_view(), new.len() as int),
        r.deletes@ == removed@,
{
    let ghost o = old.deep_view();
    let ghost w = new.deep_view();
    let mut inserts: Vec<BlockRow> = Vec::new();
    let mut updates: Vec<BlockRow> = Vec::new();
    proof {
        assert(inserts.deep_view() =~= Seq::empty());
        assert(updates.deep_view() =~= Seq::empty());
    }
    let mut i: usize = 0;
    while i < new.len()
        invariant
            i <= new.len(),
            o == old.deep_view(),
            w == new.deep_view(),
            inserts.deep_view() == row_inserts(o, w, i as int),
            updates.deep_view() == row_updates(o, w, i as int),
        decreases new.len() - i,
    {
        let row = &new[i];
        assert(w[i as int] == row.deep_view());
        match find_row(old, row.id) {
            Some(k) => {
                assert(o[k as int] == old[k as int].deep_view());
                if !row_eq(&old[k], row) {
                    let ghost before = updates.deep_view();
                    updates.push(copy_row(row));
                    assert(updates.deep_view() =~= before.push(row.deep_view()));
                }
            },
            None => {
                let ghost before = inserts.deep_view();
                inserts.push(copy_row(row));
                assert(inserts.deep_view() =~= before.push(row.deep_view()));
            },
        }
        i += 1;
    }
    let mut deletes: Vec<Uuid> = Vec::new();
    let mut k: usize = 0;
    while k < removed.len()
        invariant
            k <= removed.len(),
            deletes@ == removed@.take(k as int),
        decreases removed.len() - k,
    {
        deletes.push(removed[k]);
        k += 1;
    }
    assert(removed@.take(k as int) =~= removed@);
    BlockPlan { inserts, updates, deletes }
}

/// Rows as a table: by their ids.
pub open spec fn row_table(rows: Seq<RowView>) -> Map<Uuid, RowView> {
    Map::new(|id: Uuid| position(rows, id, 0) is Some, |id: Uuid| rows[position(rows, id, 0)->0])
}

/// The table after these rows are written under their ids.
pub open spec fn rows_put(t: Map<Uuid, RowView>, w: Seq<RowView>) -> Map<Uuid, RowView>
    decreases w.len(),
{
    if w.len() == 0 {
        t
    } else {
        rows_put(t, w.drop_last()).insert(w.last().id, w.last())
    }
}

/// The table after the rows with these ids are deleted.
pub open spec fn rows_deleted(t: Map<Uuid, RowView>, ids: Seq<Uuid>) -> Map<Uuid, RowView> {
    t.restrict(Set::new(|id: Uuid| !ids.contains(id)))
}

pub open spec fn distinct(rows: Seq<RowView>) -> bool {
    forall|a: int, b: int|
        0 <= a < b < rows.len() ==> (#[trigger] rows[a]).id != (#[trigger] rows[b]).id
}

proof fn position_is(rows: Seq<RowView>, i: int)
    requires
        distinct(rows),
        0 <= i < rows.len(),
    ensures
        position(rows, rows[i].id, 0) == Some(i),
{
    position_facts(rows, rows[i].id, 0);
    let k = position(rows, rows[i].id, 0)->0;
    if k < i {
        assert(rows[k].id != rows[i].id);
    } else if i < k {
        assert(rows[i].id != rows[k].id);
    }
}

proof fn writes_done(old: Seq<RowView>, new: Seq<RowView>, n: int, m: int, id: Uuid)
    requires
        distinct(new),
        0 <= n <= new.len(),
        0 <= m <= new.len(),
    ensures
        ({
            let t = rows_put(rows_put(row_table(old), row_inserts(old, new, n)), row_updates(old, new, m));
            let k = position(new, id, 0);
            let stored = position(old, id, 0);
            &&& t.dom().contains(id) <==> stored is Some || (k is Some && k->0 < n)
            &&& stored is None && k is Some && k->0 < n ==> t[id] == new[k->0]
            &&& stored is Some && k is Some && k->0 < m ==> t[id] == new[k->0]
            &&& stored is Some && (k is None || k->0 >= m) ==> t[id] == old[stored->0]
        }),
    decreases n + m,
{
    position_facts(new, id, 0);
    if m > 0 {
        writes_done(old, new, n, m - 1, id);
        position_is(new, m - 1);
        let w = row_updates(old, new, m);
        if w != row_updates(old, new, m - 1) {
            assert(w.drop_last() =~= row_updates(old, new, m - 1));
            assert(w.last() == new[m - 1]);
        }
    } else if n > 0 {
        writes_done(old, new, n - 1, 0, id);
        position_is(new, n - 1);
        let w = row_inserts(old, new, n);
        if w != row_inserts(old, new, n - 1) {
            assert(w.drop_last() =~= row_inserts(old, new, n - 1));
            assert(w.last() == new[n - 1]);
        }
    }
}

/// The planned writes leave exactly the new rows, where the deleted ids are
/// those of the stored rows that no new row has.
pub proof fn block_plan_stores_the_new_rows(
    old: Seq<RowView>,
    new: Seq<RowView>,
    removed: Seq<Uuid>,
)
    requires
        distinct(new),
        forall|id: Uuid| #[trigger]
            removed.contains(id) <==> position(old, id, 0) is Some && position(new, id, 0) is None,
    ensures
        rows_deleted(
            rows_put(
                rows_put(row_table(old), row_inserts(old, new, new.len() as int)),
                row_updates(old, new, new.len() as int),
            ),
            removed,
        ) == row_table(new),
{
    let n = new.len() as int;
    let t = rows_put(rows_put(row_table(old), row_inserts(old, new, n)), row_updates(old, new, n));
    let got = rows_deleted(t, removed);
    let want = row_table(new);
    assert forall|id: Uuid|
        #[trigger] got.dom().contains(id) == want.dom().contains(id) && (got.dom().contains(id)
            ==> got[id] == want[id]) by {
        writes_done(old, new, n, n, id);
        position_facts(new, id, 0);
        position_facts(old, id, 0);
    }
    assert(got.dom() =~= want.dom());
    assert(got =~= want);
}

/// Rows that are stored already cause no write.
pub proof fn stored_rows_are_not_written(rows: Seq<RowView>, n: int)
    requires
        distinct(rows),
        0 <= n <= rows.len(),
    ensures
        row_inserts(rows, rows, n).len() == 0,
        row_updates(rows, rows, n).len() == 0,
    decreases n,
{
    if n > 0 {
        stored_rows_are_not_written(rows, n - 1);
        position_is(rows, n - 1);
    }
}

/// Every inserted row comes after its parent, or its parent is stored already:
/// the rows can be inserted in portions, in order.
pub open spec fn insertable(old: Seq<RowView>, inserts: Seq<RowView>) -> bool {
    forall|i: int|
        0 <= i < inserts.len() ==> ((#[trigger] inserts[i]).parent_block matches Some(p) ==> {
            ||| position(old, p, 0) is Some
            ||| exists|k: int| 0 <= k < i && (#[trigger] inserts[k]).id == p
        })
}

/// Inserted rows come after their parents.
pub proof fn parents_are_inserted_first(
    old: Seq<RowView>,
    note: NoteView,
    ids: Seq<Uuid>,
    n: int,
)
    requires
        ids_fit(note, ids),
        0 <= n <= ids.len(),
    ensures
        insertable(old, row_inserts(old, rows_of(note, ids), n)),
        forall|k: int|
            0 <= k < n && position(old, #[trigger] ids[k], 0) is None ==> exists|j: int|
                0 <= j < row_inserts(old, rows_of(note, ids), n).len() && (
                #[trigger] row_inserts(old, rows_of(note, ids), n)[j]).id == ids[k],
    decreases n,
{
    let new = rows_of(note, ids);
    if n > 0 {
        parents_are_inserted_first(old, note, ids, n - 1);
        let before = row_inserts(old, new, n - 1);
        let after = row_inserts(old, new, n);
        assert(new[n - 1] == row_of(note, ids, n - 1));
        if position(old, ids[n - 1], 0) is None {
            assert(after == before.push(new[n - 1]));
            assert(after[before.len() as int].id == ids[n - 1]);
            assert forall|k: int| 0 <= k < n && position(old, #[trigger] ids[k], 0) is None implies
                exists|j: int| 0 <= j < after.len() && (#[trigger] after[j]).id == ids[k] by {
                if k < n - 1 {
                    let j = choose|j: int| 0 <= j < before.len() && (#[trigger] before[j]).id == ids[k];
                    assert(after[j].id == ids[k]);
                }
            }
            assert forall|i: int| 0 <= i < after.len() implies ((
            #[trigger] after[i]).parent_block matches Some(p) ==> {
                ||| position(old, p, 0) is Some
                ||| exists|k: int| 0 <= k < i && (#[trigger] after[k]).id == p
            }) by {
                if i < before.len() {
                    assert(before[i] == after[i]);
                    if let Some(p) = after[i].parent_block {
                        if position(old, p, 0) is None {
                            let k = choose|k: int| 0 <= k < i && (#[trigger] before[k]).id == p;
                            assert(after[k].id == p);
                        }
                    }
                } else {
                    let b = note.doc.blocks[n - 1];
                    if let Some(q) = b.parent {
                        let p = ids[q as int];
                        assert(q < n - 1);
                        if position(old, p, 0) is None {
                            let k = choose|k: int|
                                0 <= k < before.len() && (#[trigger] before[k]).id == p;
                            assert(after[k].id == p);
                        }
                    }
                }
            }
        }
    }
}

// ---- the note's own row ----

/// The note's own columns have to be written: a change can move the boundary
/// between the preamble and the first tile.
pub open spec fn note_changed(
    old_preamble: Seq<char>,
    old_props: JsonView,
    note: NoteView,
) -> bool {
    old_preamble != note.preamble() || old_props != note.doc.properties
}

} // verus!
