//! The history lanes. History stores pre-images: what was stored before a
//! revision. Every payload is literal, and nothing here parses, so erasing one
//! revision's content is a local rewrite and a change of the grammar cannot
//! re-interpret the past.

use vstd::prelude::*;
use vstd::string::*;

use crate::carry::texts_eq;
use crate::document::opt_text;
use crate::ids::Uuid;
use crate::json::{json_copy, json_eq, Json, JsonView};
use crate::script::{diff_ids, diff_texts, ops_between, payload_between, IdScript, TextScript};
use crate::state::{at_of_row, copy_texts, row_at, triple, AtView, BlockAt, Stored};
use crate::store::{bytes_eq, BlockRow, RowView};
use crate::text::str_eq;

verus! {

/// How a block came to have an effect row.
#[derive(Debug, Clone, Copy, PartialEq, Eq, Structural)]
pub enum Bind {
    Mint,
    Carry,
    Remove,
}

impl Bind {
    pub open spec fn label(self) -> Seq<char> {
        match self {
            Bind::Mint => "mint"@,
            Bind::Carry => "carry"@,
            Bind::Remove => "remove"@,
        }
    }

    /// The name in storage.
    pub fn name(self) -> (r: &'static str)
        ensures
            r@ == self.label(),
    {
        match self {
            Bind::Mint => "mint",
            Bind::Carry => "carry",
            Bind::Remove => "remove",
        }
    }
}

/// One block's pre-image.
#[derive(Debug)]
pub struct BlockPre {
    pub at: BlockAt,
    pub content_hash: Vec<u8>,
}

/// What one revision did to one block.
#[derive(Debug)]
pub struct Effect {
    pub block_id: Uuid,
    /// False if the block was minted here: then there is no pre-image.
    pub existed: bool,
    pub prev: Option<BlockPre>,
    pub bind: Bind,
}

/// What an effect is.
pub ghost struct EffectView {
    pub block_id: Uuid,
    pub existed: bool,
    pub prev: Option<(AtView, Seq<u8>)>,
    pub bind: Bind,
}

impl DeepView for Effect {
    type V = EffectView;

    open spec fn deep_view(&self) -> EffectView {
        EffectView {
            block_id: self.block_id,
            existed: self.existed,
            prev: match self.prev {
                Some(p) => Some((p.at.deep_view(), p.content_hash@)),
                None => None,
            },
            bind: self.bind,
        }
    }
}

/// Everything that one revision records.
#[derive(Debug)]
pub struct PreImage {
    pub prev_path: Option<String>,
    pub prev_preamble: Option<String>,
    pub prev_props: Option<Json>,
    pub tiles: TextScript,
    pub ids: IdScript,
    /// Slots of the old block list whose place changed, with the old places.
    pub place_idx: Vec<i32>,
    pub place_prev: Vec<(i32, i32, i32)>,
    /// Slots whose heading path changed, with the old paths.
    pub head_idx: Vec<i32>,
    pub head_prev: Vec<Vec<String>>,
    pub effects: Vec<Effect>,
}

/// What a revision records.
pub ghost struct PreView {
    pub prev_path: Option<Seq<char>>,
    pub prev_preamble: Option<Seq<char>>,
    pub prev_props: Option<JsonView>,
    pub tile_ops: Seq<i32>,
    pub tile_payload: Seq<Seq<char>>,
    pub id_ops: Seq<i32>,
    pub id_payload: Seq<Uuid>,
    pub place_idx: Seq<i32>,
    pub place_prev: Seq<(i32, i32, i32)>,
    pub head_idx: Seq<i32>,
    pub head_prev: Seq<Seq<Seq<char>>>,
    pub effects: Seq<EffectView>,
}

impl DeepView for PreImage {
    type V = PreView;

    open spec fn deep_view(&self) -> PreView {
        PreView {
            prev_path: opt_text(self.prev_path),
            prev_preamble: opt_text(self.prev_preamble),
            prev_props: match self.prev_props {
                Some(j) => Some(j@),
                None => None,
            },
            tile_ops: self.tiles.ops@,
            tile_payload: self.tiles.payload.deep_view(),
            id_ops: self.ids.ops@,
            id_payload: self.ids.payload@,
            place_idx: self.place_idx@,
            place_prev: self.place_prev@,
            head_idx: self.head_idx@,
            head_prev: self.head_prev.deep_view(),
            effects: self.effects.deep_view(),
        }
    }
}

/// Index of the row with this id, from `i` on.
pub open spec fn position(rows: Seq<RowView>, id: Uuid, i: int) -> Option<int>
    decreases rows.len() - i,
{
    if i < 0 || i >= rows.len() {
        None
    } else if rows[i].id == id {
        Some(i)
    } else {
        position(rows, id, i + 1)
    }
}

pub proof fn position_facts(rows: Seq<RowView>, id: Uuid, i: int)
    requires
        0 <= i <= rows.len(),
    ensures
        match position(rows, id, i) {
            Some(k) => i <= k < rows.len() && rows[k].id == id,
            None => forall|k: int| i <= k < rows.len() ==> (#[trigger] rows[k]).id != id,
        },
    decreases rows.len() - i,
{
    if i < rows.len() && rows[i].id != id {
        position_facts(rows, id, i + 1);
    }
}

/// Index of the row with this id.
pub fn find_row(rows: &Vec<BlockRow>, id: Uuid) -> (r: Option<usize>)
    ensures
        position(rows.deep_view(), id, 0) == (match r {
            Some(k) => Some(k as int),
            None => None,
        }),
        r matches Some(k) ==> k < rows.len() && rows[k as int].id == id,
{
    let ghost v = rows.deep_view();
    let mut i: usize = 0;
    while i < rows.len()
        invariant
            i <= rows.len(),
            v == rows.deep_view(),
            position(v, id, 0) == position(v, id, i as int),
        decreases rows.len() - i,
    {
        assert(v[i as int].id == rows[i as int].id);
        if rows[i].id == id {
            return Some(i);
        }
        i += 1;
    }
    None
}

/// The place of old block `i` has to be recorded: it moved, or it has no slot
/// in the new state to inherit from.
pub open spec fn place_moved(old: Seq<RowView>, new: Seq<RowView>, i: int) -> bool {
    match position(new, old[i].id, 0) {
        Some(n) => triple(new[n]) != triple(old[i]),
        None => true,
    }
}

/// The heading path of old block `i` has to be recorded.
pub open spec fn head_moved(old: Seq<RowView>, new: Seq<RowView>, i: int) -> bool {
    match position(new, old[i].id, 0) {
        Some(n) => new[n].heading_path != old[i].heading_path,
        None => true,
    }
}

/// The slots among the first `n` whose place has to be recorded.
pub open spec fn moved_places(old: Seq<RowView>, new: Seq<RowView>, n: int) -> Seq<i32>
    decreases n,
{
    if n <= 0 {
        Seq::empty()
    } else if place_moved(old, new, n - 1) {
        moved_places(old, new, n - 1).push((n - 1) as i32)
    } else {
        moved_places(old, new, n - 1)
    }
}

/// The slots among the first `n` whose heading path has to be recorded.
pub open spec fn moved_heads(old: Seq<RowView>, new: Seq<RowView>, n: int) -> Seq<i32>
    decreases n,
{
    if n <= 0 {
        Seq::empty()
    } else if head_moved(old, new, n - 1) {
        moved_heads(old, new, n - 1).push((n - 1) as i32)
    } else {
        moved_heads(old, new, n - 1)
    }
}

pub open spec fn places_at(old: Seq<RowView>, idx: Seq<i32>) -> Seq<(i32, i32, i32)> {
    Seq::new(idx.len(), |k: int| triple(old[idx[k] as int]))
}

pub open spec fn heads_at(old: Seq<RowView>, idx: Seq<i32>) -> Seq<Seq<Seq<char>>> {
    Seq::new(idx.len(), |k: int| old[idx[k] as int].heading_path)
}

/// The content-visible columns differ. Position is not among them.
pub open spec fn visibly_changed(a: RowView, b: RowView) -> bool {
    a.kind != b.kind || a.content != b.content || a.content_hash != b.content_hash
        || a.block_ref_id != b.block_ref_id || a.attrs != b.attrs || a.parent_block
        != b.parent_block
}

/// The blocks among the first `n` new ones that are minted.
pub open spec fn mint_effects(old: Seq<RowView>, new: Seq<RowView>, n: int) -> Seq<EffectView>
    decreases n,
{
    if n <= 0 {
        Seq::empty()
    } else if position(old, new[n - 1].id, 0) is None {
        mint_effects(old, new, n - 1).push(
            EffectView {
                block_id: new[n - 1].id,
                existed: false,
                prev: None,
                bind: Bind::Mint,
            },
        )
    } else {
        mint_effects(old, new, n - 1)
    }
}

/// The effect on old block `b`: none if it survives as it was.
pub open spec fn old_effect(b: RowView, new: Seq<RowView>) -> Option<EffectView> {
    let pre = Some((at_of_row(b), b.content_hash));
    match position(new, b.id, 0) {
        Some(n) => if visibly_changed(b, new[n]) {
            Some(EffectView { block_id: b.id, existed: true, prev: pre, bind: Bind::Carry })
        } else {
            None
        },
        None => Some(
            EffectView { block_id: b.id, existed: true, prev: pre, bind: Bind::Remove },
        ),
    }
}

/// The effects on the first `n` old blocks.
pub open spec fn old_effects(old: Seq<RowView>, new: Seq<RowView>, n: int) -> Seq<EffectView>
    decreases n,
{
    if n <= 0 {
        Seq::empty()
    } else {
        match old_effect(old[n - 1], new) {
            Some(e) => old_effects(old, new, n - 1).push(e),
            None => old_effects(old, new, n - 1),
        }
    }
}

/// What a revision that replaces `old` by `new` records. A note that did not
/// exist before (`had_path` false) has no earlier path.
pub open spec fn captured(old: Stored, had_path: bool, new: Stored) -> PreView {
    let n = old.rows.len() as int;
    let places = moved_places(old.rows, new.rows, n);
    let heads = moved_heads(old.rows, new.rows, n);
    PreView {
        prev_path: if had_path && old.path != new.path {
            Some(old.path)
        } else {
            None
        },
        prev_preamble: if old.preamble != new.preamble {
            Some(old.preamble)
        } else {
            None
        },
        prev_props: if old.props != new.props {
            Some(old.props)
        } else {
            None
        },
        tile_ops: ops_between(new.tiles, old.tiles),
        tile_payload: payload_between(new.tiles, old.tiles),
        id_ops: ops_between(new.ids(), old.ids()),
        id_payload: payload_between(new.ids(), old.ids()),
        place_idx: places,
        place_prev: places_at(old.rows, places),
        head_idx: heads,
        head_prev: heads_at(old.rows, heads),
        effects: mint_effects(old.rows, new.rows, new.rows.len() as int) + old_effects(
            old.rows,
            new.rows,
            n,
        ),
    }
}

/// What is stored of a note, or is about to be.
pub struct StoredNote<'a> {
    pub path: &'a str,
    pub preamble: &'a str,
    pub props: &'a Json,
    pub tiles: &'a Vec<String>,
    pub rows: &'a Vec<BlockRow>,
}

impl<'a> DeepView for StoredNote<'a> {
    type V = Stored;

    open spec fn deep_view(&self) -> Stored {
        Stored {
            path: self.path@,
            preamble: self.preamble@,
            props: self.props@,
            tiles: self.tiles.deep_view(),
            rows: self.rows.deep_view(),
        }
    }
}

/// Whether the content-visible columns of two rows differ.
pub fn rows_differ(a: &BlockRow, b: &BlockRow) -> (r: bool)
    ensures
        r == visibly_changed(a.deep_view(), b.deep_view()),
{
    a.kind != b.kind || a.content != b.content || !bytes_eq(
        a.content_hash.as_slice(),
        b.content_hash.as_slice(),
    ) || !same_text(&a.block_ref_id, &b.block_ref_id) || !json_eq(&a.attrs, &b.attrs)
        || !same_id(a.parent_block, b.parent_block)
}

/// Whether two optional ids are equal.
pub fn same_id(a: Option<Uuid>, b: Option<Uuid>) -> (r: bool)
    ensures
        r == (a == b),
{
    match (a, b) {
        (Some(x), Some(y)) => x == y,
        (None, None) => true,
        _ => false,
    }
}

/// Whether two optional texts are equal.
pub fn same_text(a: &Option<String>, b: &Option<String>) -> (r: bool)
    ensures
        r == (opt_text(*a) == opt_text(*b)),
{
    match (a, b) {
        (Some(x), Some(y)) => *x == *y,
        (None, None) => true,
        _ => false,
    }
}

/// A copy of a list of bytes.
pub fn copy_bytes(v: &Vec<u8>) -> (r: Vec<u8>)
    ensures
        r@ == v@,
{
    let mut out: Vec<u8> = Vec::new();
    let mut i: usize = 0;
    while i < v.len()
        invariant
            i <= v.len(),
            out@ == v@.take(i as int),
        decreases v.len() - i,
    {
        out.push(v[i]);
        i += 1;
    }
    assert(v@.take(i as int) =~= v@);
    out
}

fn ids_in(rows: &Vec<BlockRow>) -> (r: Vec<Uuid>)
    ensures
        r@ == Seq::new(rows.deep_view().len(), |i: int| rows.deep_view()[i].id),
        r.len() == rows.len(),
{
    let mut out: Vec<Uuid> = Vec::new();
    let mut i: usize = 0;
    while i < rows.len()
        invariant
            i <= rows.len(),
            out.len() == i,
            forall|k: int| 0 <= k < i ==> #[trigger] out[k] == rows[k].id,
        decreases rows.len() - i,
    {
        out.push(rows[i].id);
        i += 1;
    }
    assert(out@ =~= Seq::new(rows.deep_view().len(), |i: int| rows.deep_view()[i].id));
    out
}

/// Computes what a revision records: `old` is what is stored right now, `new`
/// what is about to replace it. `had_path` is false for a creation.
pub fn capture(old: &StoredNote, had_path: bool, new: &StoredNote) -> (r: PreImage)
    requires
        old.rows.len() <= i32::MAX,
        new.rows.len() <= i32::MAX,
        old.tiles.len() <= i32::MAX,
        new.tiles.len() <= i32::MAX,
    ensures
        r.deep_view() == captured(old.deep_view(), had_path, new.deep_view()),
{
    let ghost o = old.rows.deep_view();
    let ghost n = new.rows.deep_view();
    let mut place_idx: Vec<i32> = Vec::new();
    let mut place_prev: Vec<(i32, i32, i32)> = Vec::new();
    let mut head_idx: Vec<i32> = Vec::new();
    let mut head_prev: Vec<Vec<String>> = Vec::new();
    let mut changes: Vec<Effect> = Vec::new();
    proof {
        assert(changes.deep_view() =~= Seq::empty());
        assert(head_prev.deep_view() =~= heads_at(o, head_idx@));
        assert(place_prev@ =~= places_at(o, place_idx@));
    }
    let mut i: usize = 0;
    while i < old.rows.len()
        invariant
            i <= old.rows.len() <= i32::MAX,
            o == old.rows.deep_view(),
            n == new.rows.deep_view(),
            place_idx@ == moved_places(o, n, i as int),
            place_prev@ == places_at(o, place_idx@),
            head_idx@ == moved_heads(o, n, i as int),
            head_prev.deep_view() == heads_at(o, head_idx@),
            changes.deep_view() == old_effects(o, n, i as int),
        decreases old.rows.len() - i,
    {
        let ob = &old.rows[i];
        let ghost b = o[i as int];
        assert(b == ob.deep_view());
        let at = find_row(new.rows, ob.id);
        let (moved, renamed, bind) = match at {
            Some(k) => {
                let nb = &new.rows[k];
                assert(n[k as int] == nb.deep_view());
                (
                    nb.tile_ord != ob.tile_ord || nb.start_in_tile != ob.start_in_tile
                        || nb.end_in_tile != ob.end_in_tile,
                    !texts_eq(&nb.heading_path, &ob.heading_path),
                    if rows_differ(ob, nb) {
                        Some(Bind::Carry)
                    } else {
                        None
                    },
                )
            },
            None => (true, true, Some(Bind::Remove)),
        };
        assert(moved == place_moved(o, n, i as int));
        assert(renamed == head_moved(o, n, i as int));
        if moved {
            place_idx.push(i as i32);
            place_prev.push((ob.tile_ord, ob.start_in_tile, ob.end_in_tile));
            assert(place_prev@ =~= places_at(o, place_idx@));
        }
        if renamed {
            let ghost before = head_prev.deep_view();
            head_idx.push(i as i32);
            head_prev.push(copy_texts(&ob.heading_path));
            assert(head_prev.deep_view() =~= before.push(b.heading_path));
            assert(head_prev.deep_view() =~= heads_at(o, head_idx@));
        }
        if let Some(bind) = bind {
            let ghost before = changes.deep_view();
            let e = Effect {
                block_id: ob.id,
                existed: true,
                prev: Some(
                    BlockPre { at: row_at(ob), content_hash: copy_bytes(&ob.content_hash) },
                ),
                bind,
            };
            assert(old_effect(b, n) == Some(e.deep_view()));
            changes.push(e);
            assert(changes.deep_view() =~= before.push(e.deep_view()));
        } else {
            assert(old_effect(b, n) is None);
        }
        i += 1;
    }
    let mut effects: Vec<Effect> = Vec::new();
    proof {
        assert(effects.deep_view() =~= Seq::empty());
    }
    let mut k: usize = 0;
    while k < new.rows.len()
        invariant
            k <= new.rows.len(),
            o == old.rows.deep_view(),
            n == new.rows.deep_view(),
            effects.deep_view() == mint_effects(o, n, k as int),
        decreases new.rows.len() - k,
    {
        let id = new.rows[k].id;
        assert(n[k as int].id == id);
        if find_row(old.rows, id).is_none() {
            let ghost before = effects.deep_view();
            let e = Effect { block_id: id, existed: false, prev: None, bind: Bind::Mint };
            effects.push(e);
            assert(effects.deep_view() =~= before.push(e.deep_view()));
        }
        k += 1;
    }
    let ghost minted = effects.deep_view();
    let ghost changed = changes.deep_view();
    effects.append(&mut changes);
    assert(effects.deep_view() =~= minted + changed);
    let old_ids = ids_in(old.rows);
    let new_ids = ids_in(new.rows);
    assert(old_ids@ == old.deep_view().ids());
    assert(new_ids@ == new.deep_view().ids());
    PreImage {
        prev_path: if had_path && !str_eq(old.path, new.path) {
            Some(old.path.to_owned())
        } else {
            None
        },
        prev_preamble: if !str_eq(old.preamble, new.preamble) {
            Some(old.preamble.to_owned())
        } else {
            None
        },
        prev_props: if !json_eq(old.props, new.props) {
            Some(json_copy(old.props))
        } else {
            None
        },
        tiles: diff_texts(new.tiles, old.tiles),
        ids: diff_ids(&new_ids, &old_ids),
        place_idx,
        place_prev,
        head_idx,
        head_prev,
        effects,
    }
}

/// Whether a revision gets a full snapshot: every `every`-th does, and a
/// cadence below one counts as one.
pub open spec fn frame_due(seq: int, every: int) -> bool {
    seq % (if every < 1 {
        1
    } else {
        every
    }) == 0
}

/// Whether a revision gets a full snapshot.
pub fn is_frame_due(seq: i64, every: i32) -> (r: bool)
    requires
        seq >= 0,
    ensures
        r == frame_due(seq as int, every as int),
{
    let step: i64 = if every < 1 {
        1
    } else {
        every as i64
    };
    seq % step == 0
}

/// From any revision on, a snapshot comes within `every` revisions: reading the
/// past is bounded by the cadence, not by the depth of the history.
pub proof fn frame_within_cadence(seq: int, every: int) -> (k: int)
    requires
        seq >= 0,
        every >= 1,
    ensures
        0 <= k < every,
        frame_due(seq + k, every),
{
    let r = seq % every;
    if r == 0 {
        0
    } else {
        vstd::arithmetic::div_mod::lemma_fundamental_div_mod(seq, every);
        let q = seq / every;
        assert(seq + (every - r) == every * (q + 1)) by (nonlinear_arith)
            requires
                seq == every * q + r,
        ;
        vstd::arithmetic::div_mod::lemma_mod_multiples_basic(q + 1, every);
        assert(every * (q + 1) == (q + 1) * every) by (nonlinear_arith);
        every - r
    }
}

} // verus!
