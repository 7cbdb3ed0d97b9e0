//! Reading history. Reconstruction starts at the nearest anchor at or above the
//! target (the current state or a snapshot) and applies pre-images backwards.
//! It never parses, and it never returns part of a document.

use vstd::prelude::*;
use vstd::string::*;

use crate::document::opt_text;
use crate::errors::Pm;
use crate::history::{
    captured, copy_bytes, head_moved, mint_effects, moved_heads, moved_places, old_effect,
    old_effects, place_moved, position, position_facts, same_text, BlockPre, Effect, EffectView,
    PreImage, PreView,
};
use crate::ids::Uuid;
use crate::json::{json_copy, put, Json, JsonView};
use crate::script::{apply_ids, apply_texts, rebuilt, script_undoes};
use crate::state::{
    at_of_row, copy_texts, rows_map, rows_map_at, rows_map_facts, triple, AtView, BlockAt, BlockMap,
    StateAt, StateView, Stored,
};
use crate::store::RowView;

verus! {

/// The last of the first `n` entries of `s` that is `x`.
pub open spec fn last_of<T>(s: Seq<T>, x: T, n: int) -> Option<int>
    decreases n,
{
    if n <= 0 {
        None
    } else if s[n - 1] == x {
        Some(n - 1)
    } else {
        last_of(s, x, n - 1)
    }
}

pub proof fn last_of_facts<T>(s: Seq<T>, x: T, n: int)
    requires
        0 <= n <= s.len(),
    ensures
        match last_of(s, x, n) {
            Some(k) => 0 <= k < n && s[k] == x,
            None => forall|k: int| 0 <= k < n ==> #[trigger] s[k] != x,
        },
    decreases n,
{
    if n > 0 {
        last_of_facts(s, x, n - 1);
    }
}

/// The last of the first `n` entries of `idx` that names this slot.
pub open spec fn last_at(idx: Seq<i32>, slot: int, n: int) -> Option<int>
    decreases n,
{
    if n <= 0 {
        None
    } else if idx[n - 1] == slot {
        Some(n - 1)
    } else {
        last_at(idx, slot, n - 1)
    }
}

fn last_slot(idx: &Vec<i32>, slot: usize) -> (r: Option<usize>)
    ensures
        last_at(idx@, slot as int, idx@.len() as int) == (match r {
            Some(k) => Some(k as int),
            None => None,
        }),
        r matches Some(k) ==> k < idx.len(),
{
    let mut n: usize = idx.len();
    while n > 0
        invariant
            n <= idx.len(),
            last_at(idx@, slot as int, idx@.len() as int) == last_at(idx@, slot as int, n as int),
        decreases n,
    {
        let at: i32 = idx[n - 1];
        if at >= 0 && at as usize == slot {
            return Some(n - 1);
        }
        n -= 1;
    }
    None
}

fn last_id(ids: &Vec<Uuid>, id: Uuid, limit: usize) -> (r: Option<usize>)
    requires
        limit <= ids.len(),
    ensures
        last_of(ids@, id, limit as int) == (match r {
            Some(k) => Some(k as int),
            None => None,
        }),
        r matches Some(k) ==> k < limit,
{
    let mut n: usize = limit;
    while n > 0
        invariant
            n <= limit <= ids.len(),
            last_of(ids@, id, limit as int) == last_of(ids@, id, n as int),
        decreases n,
    {
        if ids[n - 1] == id {
            return Some(n - 1);
        }
        n -= 1;
    }
    None
}

pub open spec fn shorter(a: int, b: int) -> int {
    if a <= b {
        a
    } else {
        b
    }
}

/// The place of a block before a revision: what the pre-image says of its slot,
/// else what the newer state says of its id.
pub open spec fn earlier_place(
    newer: StateView,
    idx: Seq<i32>,
    prev: Seq<(i32, i32, i32)>,
    slot: int,
    id: Uuid,
) -> (i32, i32, i32) {
    match last_at(idx, slot, idx.len() as int) {
        Some(k) => prev[k],
        None => match last_of(newer.ids, id, shorter(newer.ids.len() as int, newer.place.len() as int)) {
            Some(j) => newer.place[j],
            None => (0, 0, 0),
        },
    }
}

/// The heading path of a block before a revision.
pub open spec fn earlier_head(
    newer: StateView,
    idx: Seq<i32>,
    prev: Seq<Seq<Seq<char>>>,
    slot: int,
    id: Uuid,
) -> Seq<Seq<char>> {
    match last_at(idx, slot, idx.len() as int) {
        Some(k) => if k < prev.len() {
            prev[k]
        } else {
            Seq::empty()
        },
        None => match last_of(newer.ids, id, shorter(newer.ids.len() as int, newer.heads.len() as int)) {
            Some(j) => newer.heads[j],
            None => Seq::empty(),
        },
    }
}

/// What is reported of a block whose pre-image was erased: that it was, rather
/// than the newer value.
pub open spec fn redacted() -> AtView {
    AtView {
        kind: "paragraph"@,
        content: ""@,
        block_ref_id: None,
        attrs: JsonView::Object(seq![("redacted"@, JsonView::Bool(true))]),
        parent: None,
    }
}

/// The blocks before an effect.
pub open spec fn undone_one(m: Map<Uuid, AtView>, e: EffectView) -> Map<Uuid, AtView> {
    if !e.existed {
        m.remove(e.block_id)
    } else {
        match e.prev {
            Some(p) => m.insert(e.block_id, p.0),
            None => m.insert(e.block_id, redacted()),
        }
    }
}

/// The blocks before a revision with these effects.
pub open spec fn undone(m: Map<Uuid, AtView>, effects: Seq<EffectView>) -> Map<Uuid, AtView>
    decreases effects.len(),
{
    if effects.len() == 0 {
        m
    } else {
        undone_one(undone(m, effects.drop_last()), effects.last())
    }
}

/// The state before a revision, from the state after it; none if the recorded
/// scripts do not fit.
pub open spec fn rewound(s: StateView, pre: PreView) -> Option<StateView> {
    match (rebuilt(s.tiles, pre.tile_ops, pre.tile_payload), rebuilt(s.ids, pre.id_ops, pre.id_payload)) {
        (Some(tiles), Some(ids)) => Some(
            StateView {
                path: match pre.prev_path {
                    Some(p) => p,
                    None => s.path,
                },
                preamble: match pre.prev_preamble {
                    Some(p) => p,
                    None => s.preamble,
                },
                props: match pre.prev_props {
                    Some(p) => p,
                    None => s.props,
                },
                tiles,
                ids,
                place: Seq::new(
                    ids.len(),
                    |i: int| earlier_place(s, pre.place_idx, pre.place_prev, i, ids[i]),
                ),
                heads: Seq::new(
                    ids.len(),
                    |i: int| earlier_head(s, pre.head_idx, pre.head_prev, i, ids[i]),
                ),
                blocks: undone(s.blocks, pre.effects),
            },
        ),
        _ => None,
    }
}

fn redacted_block() -> (r: BlockAt)
    ensures
        r.deep_view() == redacted(),
{
    let mut attrs = Json::Object(Vec::new());
    put(&mut attrs, "redacted".to_owned(), Json::Bool(true));
    assert(attrs@->Object_0 =~= redacted().attrs->Object_0);
    let r = BlockAt {
        kind: "paragraph".to_owned(),
        content: "".to_owned(),
        block_ref_id: None,
        attrs,
        parent: None,
    };
    r
}

/// Takes the effects of a revision back.
fn undo_effects(blocks: &mut BlockMap, effects: &Vec<Effect>)
    ensures
        final(blocks)@ == undone(old(blocks)@, effects.deep_view()),
{
    let ghost before = blocks@;
    let ghost v = effects.deep_view();
    let mut i: usize = 0;
    proof {
        assert(v.take(0).len() == 0);
    }
    while i < effects.len()
        invariant
            i <= effects.len(),
            v == effects.deep_view(),
            blocks@ == undone(before, v.take(i as int)),
        decreases effects.len() - i,
    {
        let e = &effects[i];
        proof {
            assert(v[i as int] == e.deep_view());
            assert(v.take(i as int + 1).drop_last() =~= v.take(i as int));
            assert(v.take(i as int + 1).last() == v[i as int]);
        }
        if !e.existed {
            blocks.remove(e.block_id);
        } else {
            match &e.prev {
                Some(p) => {
                    blocks.insert(e.block_id, p.at.copy());
                },
                None => {
                    blocks.insert(e.block_id, redacted_block());
                },
            }
        }
        i += 1;
    }
    assert(v.take(i as int) =~= v);
}

/// The state before a revision, from the state after it; none if the recorded
/// scripts do not fit.
pub fn rewind(state: StateAt, pre: &PreImage) -> (r: Option<StateAt>)
    requires
        pre.place_prev.len() >= pre.place_idx.len(),
    ensures
        match r {
            Some(s) => rewound(state.deep_view(), pre.deep_view()) == Some(s.deep_view()),
            None => rewound(state.deep_view(), pre.deep_view()) is None,
        },
{
    let tiles = match apply_texts(&state.tiles, &pre.tiles.ops, &pre.tiles.payload) {
        Some(t) => t,
        None => {
            return None;
        },
    };
    let ids = match apply_ids(&state.ids, &pre.ids.ops, &pre.ids.payload) {
        Some(t) => t,
        None => {
            return None;
        },
    };
    let ghost s = state.deep_view();
    let ghost p = pre.deep_view();
    let n_place: usize = if state.ids.len() <= state.place.len() {
        state.ids.len()
    } else {
        state.place.len()
    };
    let n_heads: usize = if state.ids.len() <= state.heads.len() {
        state.ids.len()
    } else {
        state.heads.len()
    };
    let mut place: Vec<(i32, i32, i32)> = Vec::new();
    let mut heads: Vec<Vec<String>> = Vec::new();
    let mut i: usize = 0;
    while i < ids.len()
        invariant
            i <= ids.len(),
            s == state.deep_view(),
            p == pre.deep_view(),
            pre.place_prev.len() >= pre.place_idx.len(),
            n_place == shorter(state.ids.len() as int, state.place.len() as int),
            n_heads == shorter(state.ids.len() as int, state.heads.len() as int),
            place.len() == i,
            heads.len() == i,
            forall|k: int|
                0 <= k < i ==> #[trigger] place[k] == earlier_place(
                    s,
                    p.place_idx,
                    p.place_prev,
                    k,
                    ids[k],
                ),
            forall|k: int|
                0 <= k < i ==> (#[trigger] heads[k]).deep_view() == earlier_head(
                    s,
                    p.head_idx,
                    p.head_prev,
                    k,
                    ids[k],
                ),
        decreases ids.len() - i,
    {
        let id = ids[i];
        place.push(
            match last_slot(&pre.place_idx, i) {
                Some(k) => pre.place_prev[k],
                None => match last_id(&state.ids, id, n_place) {
                    Some(j) => state.place[j],
                    None => (0, 0, 0),
                },
            },
        );
        heads.push(
            match last_slot(&pre.head_idx, i) {
                Some(k) => if k < pre.head_prev.len() {
                    copy_texts(&pre.head_prev[k])
                } else {
                    no_texts()
                },
                None => match last_id(&state.ids, id, n_heads) {
                    Some(j) => copy_texts(&state.heads[j]),
                    None => no_texts(),
                },
            },
        );
        i += 1;
    }
    let StateAt { path, preamble, props, tiles: _, ids: _, place: _, heads: _, blocks } = state;
    let mut blocks = blocks;
    undo_effects(&mut blocks, &pre.effects);
    let r = StateAt {
        path: match &pre.prev_path {
            Some(q) => q.clone(),
            None => path,
        },
        preamble: match &pre.prev_preamble {
            Some(q) => q.clone(),
            None => preamble,
        },
        props: match &pre.prev_props {
            Some(q) => json_copy(q),
            None => props,
        },
        tiles,
        ids,
        place,
        heads,
        blocks,
    };
    proof {
        let want = rewound(s, p)->0;
        assert(r.deep_view().place =~= want.place);
        assert(r.deep_view().heads =~= want.heads);
    }
    Some(r)
}

fn no_texts() -> (r: Vec<String>)
    ensures
        r.deep_view() == Seq::<Seq<char>>::empty(),
{
    let r: Vec<String> = Vec::new();
    assert(r.deep_view() =~= Seq::<Seq<char>>::empty());
    r
}


proof fn undone_concat(m: Map<Uuid, AtView>, a: Seq<EffectView>, b: Seq<EffectView>)
    ensures
        undone(m, a + b) == undone(undone(m, a), b),
    decreases b.len(),
{
    if b.len() == 0 {
        assert(a + b =~= a);
    } else {
        undone_concat(m, a, b.drop_last());
        assert((a + b).drop_last() =~= a + b.drop_last());
        assert((a + b).last() == b.last());
    }
}

/// Whether one of the first `n` rows has this id.
spec fn held(rows: Seq<RowView>, n: int, id: Uuid) -> bool {
    exists|i: int| 0 <= i < n && (#[trigger] rows[i]).id == id
}

proof fn held_is_position(rows: Seq<RowView>, id: Uuid)
    ensures
        held(rows, rows.len() as int, id) == (position(rows, id, 0) is Some),
{
    position_facts(rows, id, 0);
    if position(rows, id, 0) is Some {
        assert(rows[position(rows, id, 0)->0].id == id);
    }
}

proof fn mints_undone(m: Map<Uuid, AtView>, o: Seq<RowView>, nw: Seq<RowView>, n: int, id: Uuid)
    requires
        0 <= n <= nw.len(),
    ensures
        ({
            let r = undone(m, mint_effects(o, nw, n));
            if held(nw, n, id) && position(o, id, 0) is None {
                !r.contains_key(id)
            } else {
                r.contains_key(id) == m.contains_key(id) && (m.contains_key(id) ==> r[id] == m[id])
            }
        }),
    decreases n,
{
    if n > 0 {
        mints_undone(m, o, nw, n - 1, id);
        let es = mint_effects(o, nw, n - 1);
        if nw[n - 1].id == id {
            assert(held(nw, n, id));
        }
        if held(nw, n, id) && !held(nw, n - 1, id) {
            let i = choose|i: int| 0 <= i < n && (#[trigger] nw[i]).id == id;
            assert(i == n - 1);
        }
        if held(nw, n - 1, id) {
            let i = choose|i: int| 0 <= i < n - 1 && (#[trigger] nw[i]).id == id;
            assert(held(nw, n, id));
        }
        if position(o, nw[n - 1].id, 0) is None {
            let all = mint_effects(o, nw, n);
            assert(all.drop_last() =~= es);
        }
    }
}

proof fn changes_undone(m: Map<Uuid, AtView>, o: Seq<RowView>, nw: Seq<RowView>, n: int, id: Uuid)
    requires
        0 <= n <= o.len(),
        forall|a: int, b: int|
            0 <= a < b < o.len() ==> (#[trigger] o[a]).id != (#[trigger] o[b]).id,
    ensures
        ({
            let r = undone(m, old_effects(o, nw, n));
            &&& forall|i: int|
                0 <= i < n && (#[trigger] o[i]).id == id && old_effect(o[i], nw) is Some
                    ==> r.contains_key(id) && r[id] == at_of_row(o[i])
            &&& (forall|i: int|
                0 <= i < n && (#[trigger] o[i]).id == id ==> old_effect(o[i], nw) is None) ==> {
                &&& r.contains_key(id) == m.contains_key(id)
                &&& m.contains_key(id) ==> r[id] == m[id]
            }
        }),
    decreases n,
{
    if n > 0 {
        changes_undone(m, o, nw, n - 1, id);
        let es = old_effects(o, nw, n - 1);
        if let Some(e) = old_effect(o[n - 1], nw) {
            let all = old_effects(o, nw, n);
            assert(all.drop_last() =~= es);
            assert(all.last() == e);
            if o[n - 1].id == id {
                assert(forall|i: int| 0 <= i < n - 1 ==> (#[trigger] o[i]).id != id);
            }
        }
    }
}

proof fn slots_recorded(o: Seq<RowView>, nw: Seq<RowView>, n: int, slot: int)
    requires
        0 <= n <= o.len() <= i32::MAX,
    ensures
        ({
            let idx = moved_places(o, nw, n);
            match last_at(idx, slot, idx.len() as int) {
                Some(k) => 0 <= k < idx.len() && idx[k] == slot && 0 <= slot < n && place_moved(
                    o,
                    nw,
                    slot,
                ),
                None => 0 <= slot < n ==> !place_moved(o, nw, slot),
            }
        }),
        ({
            let idx = moved_heads(o, nw, n);
            match last_at(idx, slot, idx.len() as int) {
                Some(k) => 0 <= k < idx.len() && idx[k] == slot && 0 <= slot < n && head_moved(
                    o,
                    nw,
                    slot,
                ),
                None => 0 <= slot < n ==> !head_moved(o, nw, slot),
            }
        }),
    decreases n,
{
    if n > 0 {
        slots_recorded(o, nw, n - 1, slot);
        let p = moved_places(o, nw, n - 1);
        let h = moved_heads(o, nw, n - 1);
        last_at_push(p, slot, p.len() as int, (n - 1) as i32);
        last_at_push(h, slot, h.len() as int, (n - 1) as i32);
    }
}

proof fn last_at_push(idx: Seq<i32>, slot: int, n: int, x: i32)
    requires
        0 <= n <= idx.len(),
    ensures
        last_at(idx.push(x), slot, n) == last_at(idx, slot, n),
    decreases n,
{
    if n > 0 {
        last_at_push(idx, slot, n - 1, x);
    }
}

/// Rewinding undoes a revision: from the state that a revision left and what it
/// recorded comes the state that it replaced, whole.
pub proof fn rewind_undoes(old: Stored, new: Stored)
    requires
        old.ok(),
        new.ok(),
    ensures
        rewound(new.state(), captured(old, true, new)) == Some(old.state()),
{
    let pre = captured(old, true, new);
    let s = new.state();
    let o = old.rows;
    let nw = new.rows;
    let on = o.len() as int;
    script_undoes(new.tiles, old.tiles);
    script_undoes(new.ids(), old.ids());
    let r = rewound(s, pre)->0;
    assert forall|a: int, b: int| 0 <= a < b < o.len() implies (#[trigger] o[a]).id != (
    #[trigger] o[b]).id by {
        assert(old.ids()[a] != old.ids()[b]);
    }
    assert forall|a: int, b: int| 0 <= a < b < nw.len() implies (#[trigger] nw[a]).id != (
    #[trigger] nw[b]).id by {
        assert(new.ids()[a] != new.ids()[b]);
    }
    assert forall|i: int| 0 <= i < on implies r.place[i] == old.place()[i] && r.heads[i]
        == old.heads()[i] by {
        let id = o[i].id;
        assert(old.ids()[i] == id);
        slots_recorded(o, nw, on, i);
        position_facts(nw, id, 0);
        last_of_facts(new.ids(), id, nw.len() as int);
        if let Some(n) = position(nw, id, 0) {
            assert(new.ids()[n] == id);
            let j = last_of(new.ids(), id, nw.len() as int)->0;
            assert(new.ids()[j] == nw[j].id);
            assert(j == n);
            assert(new.place()[j] == triple(nw[j]));
            assert(new.heads()[j] == nw[j].heading_path);
        }
    }
    assert(r.place =~= old.place());
    assert(r.heads =~= old.heads());
    let mints = mint_effects(o, nw, nw.len() as int);
    let changes = old_effects(o, nw, on);
    undone_concat(s.blocks, mints, changes);
    let mid = undone(s.blocks, mints);
    let want = rows_map(o, on);
    assert forall|id: Uuid|
        #[trigger] want.dom().contains(id) == r.blocks.dom().contains(id) && (want.dom().contains(id)
            ==> r.blocks[id] == want[id]) by {
        mints_undone(s.blocks, o, nw, nw.len() as int, id);
        changes_undone(mid, o, nw, on, id);
        held_is_position(nw, id);
        held_is_position(o, id);
        position_facts(o, id, 0);
        position_facts(nw, id, 0);
        rows_map_facts(o, on, id);
        rows_map_facts(nw, nw.len() as int, id);
        if let Some(i) = position(o, id, 0) {
            rows_map_at(o, on, i);
            assert(o[i].id == id);
            if old_effect(o[i], nw) is None {
                let n = position(nw, id, 0)->0;
                rows_map_at(nw, nw.len() as int, n);
                assert(at_of_row(nw[n]) == at_of_row(o[i]));
                assert forall|k: int| 0 <= k < on && (#[trigger] o[k]).id == id implies old_effect(
                    o[k],
                    nw,
                ) is None by {
                    assert(k == i);
                }
            }
        } else {
            assert(!want.contains_key(id));
            assert(forall|k: int| 0 <= k < on ==> (#[trigger] o[k]).id != id);
        }
    }
    assert(r.blocks.dom() =~= want.dom());
    assert(r.blocks =~= want);
    assert(r =~= old.state());
}

/// One revision of a note, with what it recorded.
#[derive(Debug)]
pub struct Revision {
    pub seq: i64,
    pub pre: PreImage,
}

/// The state at `target`, from the state `s` at `anchor`: the revisions above
/// the target and up to the anchor are taken back, in the order given.
pub open spec fn reconstructed(
    target: int,
    anchor: int,
    s: StateView,
    revs: Seq<(i64, PreView)>,
) -> Option<StateView>
    decreases revs.len(),
{
    if revs.len() == 0 {
        Some(s)
    } else if target < revs[0].0 <= anchor {
        match rewound(s, revs[0].1) {
            Some(t) => reconstructed(target, anchor, t, revs.drop_first()),
            None => None,
        }
    } else {
        reconstructed(target, anchor, s, revs.drop_first())
    }
}

/// The anchor of a reconstruction: a snapshot that is closer than the head,
/// else the head.
pub open spec fn anchor(
    head: i64,
    frame: Option<(i64, StateView)>,
    current: StateView,
) -> (i64, StateView) {
    match frame {
        Some(f) => if f.0 < head {
            f
        } else {
            (head, current)
        },
        None => (head, current),
    }
}

pub open spec fn frame_view(frame: Option<(i64, StateAt)>) -> Option<(i64, StateView)> {
    match frame {
        Some(f) => Some((f.0, f.1.deep_view())),
        None => None,
    }
}

pub open spec fn revisions_view(v: Seq<Revision>) -> Seq<(i64, PreView)> {
    Seq::new(v.len(), |i: int| (v[i].seq, v[i].pre.deep_view()))
}

/// The state of a note at `seq`: from the head or from the nearest snapshot at
/// or above `seq`, through the note's revisions, newest first. None if what is
/// recorded does not fit.
pub fn state_at(
    seq: i64,
    head: i64,
    frame: Option<(i64, StateAt)>,
    current: StateAt,
    revisions: &Vec<Revision>,
) -> (r: Option<StateAt>)
    requires
        forall|i: int|
            0 <= i < revisions.len() ==> (#[trigger] revisions[i]).pre.place_prev.len()
                >= revisions[i].pre.place_idx.len(),
    ensures
        ({
            let from = anchor(head, frame_view(frame), current.deep_view());
            let want = reconstructed(seq as int, from.0 as int, from.1, revisions_view(revisions@));
            match r {
                Some(s) => want == Some(s.deep_view()),
                None => want is None,
            }
        }),
{
    let ghost from = anchor(head, frame_view(frame), current.deep_view());
    let ghost revs = revisions_view(revisions@);
    let (at, start) = match frame {
        Some((fseq, fstate)) => if fseq < head {
            (fseq, fstate)
        } else {
            (head, current)
        },
        None => (head, current),
    };
    let mut state = start;
    let mut i: usize = 0;
    proof {
        assert(revs.skip(0) =~= revs);
    }
    while i < revisions.len()
        invariant
            i <= revisions.len(),
            revs == revisions_view(revisions@),
            forall|i: int|
                0 <= i < revisions.len() ==> (#[trigger] revisions[i]).pre.place_prev.len()
                    >= revisions[i].pre.place_idx.len(),
            at == from.0,
            from == anchor(head, frame_view(frame), current.deep_view()),
            reconstructed(seq as int, at as int, from.1, revs) == reconstructed(
                seq as int,
                at as int,
                state.deep_view(),
                revs.skip(i as int),
            ),
        decreases revisions.len() - i,
    {
        let rev = &revisions[i];
        proof {
            let rest = revs.skip(i as int);
            assert(rest[0] == (rev.seq, rev.pre.deep_view()));
            assert(rest.drop_first() =~= revs.skip(i as int + 1));
        }
        if seq < rev.seq && rev.seq <= at {
            match rewind(state, &rev.pre) {
                Some(s) => {
                    state = s;
                },
                None => {
                    return None;
                },
            }
        }
        i += 1;
    }
    Some(state)
}

/// What the revisions of a note record, newest first, where `states[k]` is what
/// is stored after revision `k`.
pub open spec fn recorded(states: Seq<Stored>) -> Seq<(i64, PreView)> {
    Seq::new(
        (states.len() - 1) as nat,
        |i: int|
            (
                (states.len() - 1 - i) as i64,
                captured(states[states.len() - 2 - i], true, states[states.len() - 1 - i]),
            ),
    )
}

proof fn recorded_walk(states: Seq<Stored>, target: int, anchor: int, i: int)
    requires
        states.len() <= i64::MAX,
        0 <= target <= anchor < states.len(),
        forall|k: int| 0 <= k < states.len() ==> (#[trigger] states[k]).ok(),
        0 <= i <= states.len() - 1,
    ensures
        ({
            let reached = states.len() - 1 - i;
            let at = if reached > anchor {
                anchor
            } else if reached < target {
                target
            } else {
                reached
            };
            reconstructed(target, anchor, states[at].state(), recorded(states).skip(i)) == Some(
                states[target].state(),
            )
        }),
    decreases states.len() - 1 - i,
{
    let revs = recorded(states);
    let rest = revs.skip(i);
    let reached = states.len() - 1 - i;
    if i < states.len() - 1 {
        recorded_walk(states, target, anchor, i + 1);
        assert(rest.drop_first() =~= revs.skip(i + 1));
        assert(rest[0] == revs[i]);
        assert(revs[i].0 == reached);
        if target < reached <= anchor {
            rewind_undoes(states[reached - 1], states[reached]);
        }
    } else {
        assert(rest.len() == 0);
    }
}

/// Every revision reads back as what it stored: for a note whose revisions left
/// the states `states`, reconstruction at `target` gives the state after
/// revision `target`, whether it starts at the head or at a snapshot of any
/// revision between.
pub proof fn every_revision_reads_back(
    states: Seq<Stored>,
    target: i64,
    frame: Option<(i64, StateView)>,
)
    requires
        0 < states.len() <= i64::MAX,
        0 <= target < states.len(),
        forall|k: int| 0 <= k < states.len() ==> (#[trigger] states[k]).ok(),
        frame matches Some(f) ==> target <= f.0 && (f.0 < states.len() ==> f.1
            == states[f.0 as int].state()),
    ensures
        ({
            let head = (states.len() - 1) as i64;
            let from = anchor(head, frame, states[states.len() - 1].state());
            reconstructed(target as int, from.0 as int, from.1, recorded(states)) == Some(
                states[target as int].state(),
            )
        }),
{
    let head = (states.len() - 1) as i64;
    let from = anchor(head, frame, states[states.len() - 1].state());
    let revs = recorded(states);
    recorded_walk(states, target as int, from.0 as int, 0);
    assert(revs.skip(0) =~= revs);
}

/// The effects of one revision among effects with their revisions.
pub open spec fn effects_of(rows: Seq<(i64, EffectView)>, seq: i64) -> Seq<EffectView>
    decreases rows.len(),
{
    if rows.len() == 0 {
        Seq::empty()
    } else if rows.last().0 == seq {
        effects_of(rows.drop_last(), seq).push(rows.last().1)
    } else {
        effects_of(rows.drop_last(), seq)
    }
}

pub open spec fn effect_rows(v: Seq<(i64, Effect)>) -> Seq<(i64, EffectView)> {
    Seq::new(v.len(), |i: int| (v[i].0, v[i].1.deep_view()))
}

fn copy_effect(e: &Effect) -> (r: Effect)
    ensures
        r.deep_view() == e.deep_view(),
{
    Effect {
        block_id: e.block_id,
        existed: e.existed,
        prev: match &e.prev {
            Some(p) => Some(
                BlockPre { at: p.at.copy(), content_hash: copy_bytes(&p.content_hash) },
            ),
            None => None,
        },
        bind: e.bind,
    }
}

/// The effects of one revision, in the order of the rows.
pub fn effects_at(rows: &Vec<(i64, Effect)>, seq: i64) -> (r: Vec<Effect>)
    ensures
        r.deep_view() == effects_of(effect_rows(rows@), seq),
{
    let ghost v = effect_rows(rows@);
    let mut out: Vec<Effect> = Vec::new();
    let mut i: usize = 0;
    proof {
        assert(out.deep_view() =~= Seq::empty());
    }
    while i < rows.len()
        invariant
            i <= rows.len(),
            v == effect_rows(rows@),
            out.deep_view() == effects_of(v.take(i as int), seq),
        decreases rows.len() - i,
    {
        proof {
            let t = v.take(i as int + 1);
            assert(t.drop_last() =~= v.take(i as int));
            assert(t.last() == (rows[i as int].0, rows[i as int].1.deep_view()));
        }
        if rows[i].0 == seq {
            let ghost before = out.deep_view();
            let e = copy_effect(&rows[i].1);
            out.push(e);
            assert(out.deep_view() =~= before.push(e.deep_view()));
        }
        i += 1;
    }
    assert(v.take(i as int) =~= v);
    out
}

/// A point in a note's history.
#[derive(Debug, Clone, Copy)]
pub enum At {
    Revision(Uuid),
    Number(i64),
    /// Microseconds since the epoch.
    Time(i64),
}

/// A revision of a note, as it is listed.
#[derive(Debug, Clone, Copy)]
pub struct RevisionRow {
    pub id: Uuid,
    pub seq: i64,
    pub created_at: i64,
}

/// Why a point cannot be read.
#[derive(Debug, Clone, Copy, PartialEq, Eq, Structural)]
pub enum AtFault {
    NotARevision,
    BeyondHead,
    NothingThatEarly,
    BelowFloor,
}

impl AtFault {
    pub open spec fn pm(self) -> Pm {
        match self {
            AtFault::NotARevision => Pm::UnknownRevision,
            AtFault::BeyondHead => Pm::UnknownRevision,
            AtFault::NothingThatEarly => Pm::HistoryUnavailable,
            AtFault::BelowFloor => Pm::HistoryUnavailable,
        }
    }

    pub open spec fn text(self) -> Seq<char> {
        match self {
            AtFault::NotARevision => "not a revision of this note"@,
            AtFault::BeyondHead => "seq is beyond the note's head"@,
            AtFault::NothingThatEarly => "no revision at or before that time"@,
            AtFault::BelowFloor => "history below the retention floor was compacted or excised"@,
        }
    }

    /// The error that the fault raises.
    pub fn code(self) -> (r: Pm)
        ensures
            r == self.pm(),
    {
        match self {
            AtFault::NotARevision => Pm::UnknownRevision,
            AtFault::BeyondHead => Pm::UnknownRevision,
            AtFault::NothingThatEarly => Pm::HistoryUnavailable,
            AtFault::BelowFloor => Pm::HistoryUnavailable,
        }
    }

    /// The message that the fault raises.
    pub fn message(self) -> (r: &'static str)
        ensures
            r@ == self.text(),
    {
        match self {
            AtFault::NotARevision => "not a revision of this note",
            AtFault::BeyondHead => "seq is beyond the note's head",
            AtFault::NothingThatEarly => "no revision at or before that time",
            AtFault::BelowFloor => "history below the retention floor was compacted or excised",
        }
    }
}

/// The sequence number of the first revision with this id, from `i` on.
pub open spec fn seq_of_revision(rows: Seq<RevisionRow>, id: Uuid, i: int) -> Option<i64>
    decreases rows.len() - i,
{
    if i < 0 || i >= rows.len() {
        None
    } else if rows[i].id == id {
        Some(rows[i].seq)
    } else {
        seq_of_revision(rows, id, i + 1)
    }
}

/// The highest sequence number among the first `n` revisions at or before a time.
pub open spec fn newest_by(rows: Seq<RevisionRow>, time: i64, n: int) -> Option<i64>
    decreases n,
{
    if n <= 0 {
        None
    } else {
        let before = newest_by(rows, time, n - 1);
        let row = rows[n - 1];
        if row.created_at <= time && (before matches Some(s) ==> s < row.seq) {
            Some(row.seq)
        } else {
            before
        }
    }
}

/// The sequence number that a point stands for.
pub open spec fn point(rows: Seq<RevisionRow>, head: i64, floor: i64, at: At) -> Result<
    i64,
    AtFault,
> {
    let seq = match at {
        At::Revision(id) => match seq_of_revision(rows, id, 0) {
            Some(s) => Ok(s),
            None => Err(AtFault::NotARevision),
        },
        At::Number(s) => if s > head {
            Err(AtFault::BeyondHead)
        } else {
            Ok(s)
        },
        At::Time(t) => match newest_by(rows, t, rows.len() as int) {
            Some(s) => Ok(s),
            None => Err(AtFault::NothingThatEarly),
        },
    };
    match seq {
        Ok(s) => if s < floor {
            Err(AtFault::BelowFloor)
        } else {
            Ok(s)
        },
        Err(e) => Err(e),
    }
}

/// The sequence number that a point stands for, given the note's revisions, the
/// sequence number of its head, and its retention floor. That there is no such
/// revision and that it can no longer be reconstructed are told apart.
pub fn resolve_at(rows: &Vec<RevisionRow>, head: i64, floor: i64, at: At) -> (r: Result<
    i64,
    AtFault,
>)
    ensures
        r == point(rows@, head, floor, at),
{
    let seq: i64 = match at {
        At::Revision(id) => {
            let mut i: usize = 0;
            while i < rows.len() && rows[i].id != id
                invariant
                    i <= rows.len(),
                    seq_of_revision(rows@, id, 0) == seq_of_revision(rows@, id, i as int),
                decreases rows.len() - i,
            {
                i += 1;
            }
            if i == rows.len() {
                return Err(AtFault::NotARevision);
            }
            rows[i].seq
        },
        At::Number(s) => {
            if s > head {
                return Err(AtFault::BeyondHead);
            }
            s
        },
        At::Time(t) => {
            let mut best: Option<i64> = None;
            let mut i: usize = 0;
            while i < rows.len()
                invariant
                    i <= rows.len(),
                    best == newest_by(rows@, t, i as int),
                decreases rows.len() - i,
            {
                let row = rows[i];
                let newer = match best {
                    Some(s) => s < row.seq,
                    None => true,
                };
                if row.created_at <= t && newer {
                    best = Some(row.seq);
                }
                i += 1;
            }
            match best {
                Some(s) => s,
                None => {
                    return Err(AtFault::NothingThatEarly);
                },
            }
        },
    };
    if seq < floor {
        return Err(AtFault::BelowFloor);
    }
    Ok(seq)
}

proof fn newest_by_facts(rows: Seq<RevisionRow>, time: i64, n: int)
    requires
        0 <= n <= rows.len(),
    ensures
        match newest_by(rows, time, n) {
            Some(s) => {
                &&& exists|i: int| 0 <= i < n && (#[trigger] rows[i]).seq == s && rows[i].created_at
                    <= time
                &&& forall|i: int|
                    0 <= i < n && (#[trigger] rows[i]).created_at <= time ==> rows[i].seq <= s
            },
            None => forall|i: int| 0 <= i < n ==> (#[trigger] rows[i]).created_at > time,
        },
    decreases n,
{
    if n > 0 {
        newest_by_facts(rows, time, n - 1);
        assert(rows[n - 1] == rows[n - 1]);
        if newest_by(rows, time, n) == newest_by(rows, time, n - 1) && newest_by(rows, time, n)
            is Some {
            let s = newest_by(rows, time, n)->0;
            let i = choose|i: int|
                0 <= i < n - 1 && (#[trigger] rows[i]).seq == s && rows[i].created_at <= time;
            assert(rows[i].seq == s);
        }
    }
}

/// A read as of a time is the read of the newest revision made by then.
pub proof fn time_is_newest_revision(rows: Seq<RevisionRow>, head: i64, floor: i64, time: i64)
    ensures
        match point(rows, head, floor, At::Time(time)) {
            Ok(s) => {
                &&& floor <= s
                &&& exists|i: int|
                    0 <= i < rows.len() && (#[trigger] rows[i]).seq == s && rows[i].created_at
                        <= time
                &&& forall|i: int|
                    0 <= i < rows.len() && (#[trigger] rows[i]).created_at <= time ==> rows[i].seq
                        <= s
            },
            Err(AtFault::NothingThatEarly) => forall|i: int|
                0 <= i < rows.len() ==> (#[trigger] rows[i]).created_at > time,
            Err(e) => e == AtFault::BelowFloor,
        },
{
    newest_by_facts(rows, time, rows.len() as int);
}

/// What is read is never below the retention floor.
pub proof fn nothing_below_the_floor(rows: Seq<RevisionRow>, head: i64, floor: i64, at: At)
    ensures
        point(rows, head, floor, at) matches Ok(s) ==> floor <= s,
{
}

/// One row per block of a state, in document order.
pub struct BlockLine {
    pub ord: i32,
    pub block_id: Uuid,
    pub kind: String,
    pub content: String,
    pub heading_path: Vec<String>,
}

pub ghost struct LineView {
    pub ord: int,
    pub block_id: Uuid,
    pub kind: Seq<char>,
    pub content: Seq<char>,
    pub heading_path: Seq<Seq<char>>,
}

impl DeepView for BlockLine {
    type V = LineView;

    open spec fn deep_view(&self) -> LineView {
        LineView {
            ord: self.ord as int,
            block_id: self.block_id,
            kind: self.kind@,
            content: self.content@,
            heading_path: self.heading_path.deep_view(),
        }
    }
}

pub open spec fn line_of(s: StateView, i: int) -> LineView {
    let id = s.ids[i];
    LineView {
        ord: i,
        block_id: id,
        kind: if s.blocks.contains_key(id) {
            s.blocks[id].kind
        } else {
            ""@
        },
        content: if s.blocks.contains_key(id) {
            s.blocks[id].content
        } else {
            ""@
        },
        heading_path: if i < s.heads.len() {
            s.heads[i]
        } else {
            Seq::empty()
        },
    }
}

/// The blocks of a state, one row per block.
pub fn blocks_rows(s: &StateAt) -> (r: Vec<BlockLine>)
    requires
        s.ids.len() <= i32::MAX,
    ensures
        r.deep_view() == Seq::new(s.ids@.len(), |i: int| line_of(s.deep_view(), i)),
{
    let mut out: Vec<BlockLine> = Vec::new();
    let mut i: usize = 0;
    while i < s.ids.len()
        invariant
            i <= s.ids.len() <= i32::MAX,
            out.len() == i,
            forall|k: int| 0 <= k < i ==> (#[trigger] out[k]).deep_view() == line_of(s.deep_view(), k),
        decreases s.ids.len() - i,
    {
        let id = s.ids[i];
        let (kind, content) = match s.blocks.get(id) {
            Some(b) => (b.kind.clone(), b.content.clone()),
            None => ("".to_owned(), "".to_owned()),
        };
        let heading_path = if i < s.heads.len() {
            copy_texts(&s.heads[i])
        } else {
            no_texts()
        };
        let line = BlockLine { ord: i as i32, block_id: id, kind, content, heading_path };
        assert(line.deep_view() == line_of(s.deep_view(), i as int));
        out.push(line);
        i += 1;
    }
    assert(out.deep_view() =~= Seq::new(s.ids@.len(), |i: int| line_of(s.deep_view(), i)));
    out
}

/// How a block differs between two states.
#[derive(Debug, Clone, Copy, PartialEq, Eq, Structural)]
pub enum ChangeKind {
    Removed,
    Changed,
    Moved,
    Added,
}

impl ChangeKind {
    pub open spec fn label(self) -> Seq<char> {
        match self {
            ChangeKind::Removed => "removed"@,
            ChangeKind::Changed => "changed"@,
            ChangeKind::Moved => "moved"@,
            ChangeKind::Added => "added"@,
        }
    }

    /// The name of the change.
    pub fn name(self) -> (r: &'static str)
        ensures
            r@ == self.label(),
    {
        match self {
            ChangeKind::Removed => "removed",
            ChangeKind::Changed => "changed",
            ChangeKind::Moved => "moved",
            ChangeKind::Added => "added",
        }
    }
}

/// One difference between two states.
#[derive(Debug)]
pub struct Change {
    pub block_id: Uuid,
    pub change: ChangeKind,
    pub before: Option<String>,
    pub after: Option<String>,
}

pub ghost struct ChangeView {
    pub block_id: Uuid,
    pub change: ChangeKind,
    pub before: Option<Seq<char>>,
    pub after: Option<Seq<char>>,
}

impl DeepView for Change {
    type V = ChangeView;

    open spec fn deep_view(&self) -> ChangeView {
        ChangeView {
            block_id: self.block_id,
            change: self.change,
            before: opt_text(self.before),
            after: opt_text(self.after),
        }
    }
}

pub open spec fn content_in(s: StateView, id: Uuid) -> Option<Seq<char>> {
    if s.blocks.contains_key(id) {
        Some(s.blocks[id].content)
    } else {
        None
    }
}

/// How the block in slot `i` of `a` differs in `b`, if it does.
pub open spec fn change_of(a: StateView, b: StateView, i: int) -> Option<ChangeView> {
    let id = a.ids[i];
    let before = content_in(a, id);
    match last_of(b.ids, id, b.ids.len() as int) {
        None => Some(
            ChangeView { block_id: id, change: ChangeKind::Removed, before, after: None },
        ),
        Some(j) => {
            let after = content_in(b, id);
            if before != after {
                Some(ChangeView { block_id: id, change: ChangeKind::Changed, before, after })
            } else if last_of(a.ids, id, a.ids.len() as int) != Some(j) {
                Some(ChangeView { block_id: id, change: ChangeKind::Moved, before, after })
            } else {
                None
            }
        },
    }
}

/// The differences of the first `n` blocks of `a`.
pub open spec fn changes_from(a: StateView, b: StateView, n: int) -> Seq<ChangeView>
    decreases n,
{
    if n <= 0 {
        Seq::empty()
    } else {
        match change_of(a, b, n - 1) {
            Some(c) => changes_from(a, b, n - 1).push(c),
            None => changes_from(a, b, n - 1),
        }
    }
}

/// The blocks among the first `n` of `b` that `a` does not have.
pub open spec fn additions(a: StateView, b: StateView, n: int) -> Seq<ChangeView>
    decreases n,
{
    if n <= 0 {
        Seq::empty()
    } else if last_of(a.ids, b.ids[n - 1], a.ids.len() as int) is None {
        additions(a, b, n - 1).push(
            ChangeView {
                block_id: b.ids[n - 1],
                change: ChangeKind::Added,
                before: None,
                after: content_in(b, b.ids[n - 1]),
            },
        )
    } else {
        additions(a, b, n - 1)
    }
}

/// The block-level difference between two states.
pub open spec fn difference(a: StateView, b: StateView) -> Seq<ChangeView> {
    changes_from(a, b, a.ids.len() as int) + additions(a, b, b.ids.len() as int)
}

fn content_of(s: &StateAt, id: Uuid) -> (r: Option<String>)
    ensures
        opt_text(r) == content_in(s.deep_view(), id),
{
    match s.blocks.get(id) {
        Some(b) => Some(b.content.clone()),
        None => None,
    }
}

/// The block-level difference between two states: removals, changes and moves
/// in the order of `a`, then additions in the order of `b`.
pub fn diff(a: &StateAt, b: &StateAt) -> (r: Vec<Change>)
    ensures
        r.deep_view() == difference(a.deep_view(), b.deep_view()),
{
    let ghost av = a.deep_view();
    let ghost bv = b.deep_view();
    let mut out: Vec<Change> = Vec::new();
    proof {
        assert(out.deep_view() =~= Seq::empty());
    }
    let mut i: usize = 0;
    while i < a.ids.len()
        invariant
            i <= a.ids.len(),
            av == a.deep_view(),
            bv == b.deep_view(),
            out.deep_view() == changes_from(av, bv, i as int),
        decreases a.ids.len() - i,
    {
        let id = a.ids[i];
        let before = content_of(a, id);
        let found = match last_id(&b.ids, id, b.ids.len()) {
            None => Some(Change { block_id: id, change: ChangeKind::Removed, before, after: None }),
            Some(j) => {
                let after = content_of(b, id);
                let moved = match last_id(&a.ids, id, a.ids.len()) {
                    Some(k) => k != j,
                    None => true,
                };
                if !same_text(&before, &after) {
                    Some(Change { block_id: id, change: ChangeKind::Changed, before, after })
                } else if moved {
                    Some(Change { block_id: id, change: ChangeKind::Moved, before, after })
                } else {
                    None
                }
            },
        };
        assert(match found {
            Some(c) => change_of(av, bv, i as int) == Some(c.deep_view()),
            None => change_of(av, bv, i as int) is None,
        });
        if let Some(c) = found {
            let ghost sofar = out.deep_view();
            out.push(c);
            assert(out.deep_view() =~= sofar.push(c.deep_view()));
        }
        i += 1;
    }
    let ghost first = out.deep_view();
    let mut k: usize = 0;
    proof {
        assert(out.deep_view() =~= first + additions(av, bv, 0));
    }
    while k < b.ids.len()
        invariant
            k <= b.ids.len(),
            av == a.deep_view(),
            bv == b.deep_view(),
            out.deep_view() == first + additions(av, bv, k as int),
        decreases b.ids.len() - k,
    {
        let id = b.ids[k];
        if last_id(&a.ids, id, a.ids.len()).is_none() {
            let ghost sofar = out.deep_view();
            let c = Change {
                block_id: id,
                change: ChangeKind::Added,
                before: None,
                after: content_of(b, id),
            };
            out.push(c);
            assert(out.deep_view() =~= sofar.push(c.deep_view()));
            assert(out.deep_view() =~= first + additions(av, bv, k as int + 1));
        }
        k += 1;
    }
    out
}

proof fn no_changes(a: StateView, b: StateView, n: int)
    requires
        0 <= n,
    ensures
        changes_from(a, b, n).len() == 0 <==> forall|i: int|
            0 <= i < n ==> (#[trigger] change_of(a, b, i)) is None,
        additions(a, b, n).len() == 0 <==> forall|i: int|
            0 <= i < n ==> last_of(a.ids, #[trigger] b.ids[i], a.ids.len() as int) is Some,
    decreases n,
{
    if n > 0 {
        no_changes(a, b, n - 1);
        assert(change_of(a, b, n - 1) is None || change_of(a, b, n - 1) is Some);
    }
}

/// Nothing differs between two states exactly if they have the same blocks in
/// the same order with the same contents.
pub proof fn difference_is_empty_iff_same(a: StateView, b: StateView)
    requires
        a.ids.no_duplicates(),
        b.ids.no_duplicates(),
    ensures
        difference(a, b).len() == 0 <==> a.ids == b.ids && forall|i: int|
            0 <= i < a.ids.len() ==> content_in(a, #[trigger] a.ids[i]) == content_in(b, a.ids[i]),
{
    let an = a.ids.len() as int;
    let bn = b.ids.len() as int;
    no_changes(a, b, an);
    no_changes(a, b, bn);
    if difference(a, b).len() == 0 {
        assert forall|i: int| 0 <= i < an implies i < bn && b.ids[i] == a.ids[i] && content_in(
            a,
            a.ids[i],
        ) == content_in(b, a.ids[i]) by {
            assert(change_of(a, b, i) is None);
            last_of_facts(a.ids, a.ids[i], an);
            last_of_facts(b.ids, a.ids[i], bn);
        }
        if bn > an {
            let x = b.ids[bn - 1];
            last_of_facts(a.ids, x, an);
            let i = last_of(a.ids, x, an)->0;
            assert(a.ids[i] == x);
            assert(b.ids[i] == x);
        }
        if an > bn {
            assert(a.ids[an - 1] == b.ids[an - 1]);
        }
        assert(a.ids =~= b.ids);
    }
    if a.ids == b.ids && forall|i: int|
        0 <= i < a.ids.len() ==> content_in(a, #[trigger] a.ids[i]) == content_in(b, a.ids[i]) {
        assert forall|i: int| 0 <= i < an implies (#[trigger] change_of(a, b, i)) is None by {
            last_of_facts(a.ids, a.ids[i], an);
            assert(a.ids[i] == a.ids[i]);
        }
        assert forall|i: int| 0 <= i < bn implies last_of(a.ids, #[trigger] b.ids[i], an)
            is Some by {
            last_of_facts(a.ids, b.ids[i], an);
            assert(a.ids[i] == b.ids[i]);
        }
    }
}

/// What a state holds of a block: its content, if it is there.
pub open spec fn content_held(s: StateView, id: Uuid) -> Option<Seq<char>> {
    if s.ids.contains(id) && s.blocks.contains_key(id) {
        Some(s.blocks[id].content)
    } else {
        None
    }
}

/// How a block fared between two states: gone, new, with another content, or in
/// another place; none of these, if nothing happened to it.
pub open spec fn fared(a: StateView, b: StateView, id: Uuid) -> Option<ChangeKind> {
    if a.ids.contains(id) && !b.ids.contains(id) {
        Some(ChangeKind::Removed)
    } else if !a.ids.contains(id) && b.ids.contains(id) {
        Some(ChangeKind::Added)
    } else if !a.ids.contains(id) {
        None
    } else if content_held(a, id) != content_held(b, id) {
        Some(ChangeKind::Changed)
    } else if a.ids.index_of(id) != b.ids.index_of(id) {
        Some(ChangeKind::Moved)
    } else {
        None
    }
}

/// Where a block stands in a difference: the blocks of the older state come first,
/// in its order, then the new ones in theirs.
pub open spec fn rank(a: StateView, b: StateView, id: Uuid) -> int {
    if a.ids.contains(id) {
        a.ids.index_of(id)
    } else {
        a.ids.len() + b.ids.index_of(id)
    }
}

proof fn index_of_own(s: Seq<Uuid>, i: int)
    requires
        s.no_duplicates(),
        0 <= i < s.len(),
    ensures
        s.contains(s[i]),
        s.index_of(s[i]) == i,
{
    assert(s.contains(s[i]));
    let j = s.index_of(s[i]);
    assert(0 <= j < s.len() && s[j] == s[i]);
}

proof fn last_is_index(s: Seq<Uuid>, x: Uuid)
    requires
        s.no_duplicates(),
    ensures
        last_of(s, x, s.len() as int) == (if s.contains(x) {
            Some(s.index_of(x))
        } else {
            None
        }),
{
    last_of_facts(s, x, s.len() as int);
    if s.contains(x) {
        let j = s.index_of(x);
        assert(0 <= j < s.len() && s[j] == x);
    }
}

/// A row tells how its block fared, with what both states hold of it.
pub open spec fn row_tells(a: StateView, b: StateView, c: ChangeView) -> bool {
    &&& fared(a, b, c.block_id) == Some(c.change)
    &&& c.before == content_held(a, c.block_id)
    &&& c.after == content_held(b, c.block_id)
}

proof fn change_tells(a: StateView, b: StateView, i: int)
    requires
        a.ids.no_duplicates(),
        b.ids.no_duplicates(),
        0 <= i < a.ids.len(),
    ensures
        match change_of(a, b, i) {
            Some(c) => c.block_id == a.ids[i] && row_tells(a, b, c),
            None => fared(a, b, a.ids[i]) is None,
        },
{
    index_of_own(a.ids, i);
    last_is_index(a.ids, a.ids[i]);
    last_is_index(b.ids, a.ids[i]);
}

proof fn changes_tell(a: StateView, b: StateView, n: int)
    requires
        a.ids.no_duplicates(),
        b.ids.no_duplicates(),
        0 <= n <= a.ids.len(),
    ensures
        ({
            let cs = changes_from(a, b, n);
            &&& forall|r: int|
                0 <= r < cs.len() ==> row_tells(a, b, #[trigger] cs[r]) && a.ids.contains(
                    cs[r].block_id,
                ) && rank(a, b, cs[r].block_id) < n
            &&& forall|r: int, s: int|
                0 <= r < s < cs.len() ==> rank(a, b, (#[trigger] cs[r]).block_id) < rank(
                    a,
                    b,
                    (#[trigger] cs[s]).block_id,
                )
            &&& forall|i: int|
                0 <= i < n && fared(a, b, #[trigger] a.ids[i]) is Some ==> exists|r: int|
                    0 <= r < cs.len() && (#[trigger] cs[r]).block_id == a.ids[i]
        }),
    decreases n,
{
    if n > 0 {
        changes_tell(a, b, n - 1);
        change_tells(a, b, n - 1);
        index_of_own(a.ids, n - 1);
        let old = changes_from(a, b, n - 1);
        let cs = changes_from(a, b, n);
        assert forall|i: int|
            0 <= i < n && fared(a, b, #[trigger] a.ids[i]) is Some implies exists|r: int|
            0 <= r < cs.len() && (#[trigger] cs[r]).block_id == a.ids[i] by {
            if i < n - 1 {
                let r = choose|r: int|
                    0 <= r < old.len() && (#[trigger] old[r]).block_id == a.ids[i];
                assert(cs[r] == old[r]);
            } else {
                assert(cs[cs.len() - 1].block_id == a.ids[i]);
            }
        }
    }
}

proof fn additions_tell(a: StateView, b: StateView, n: int)
    requires
        a.ids.no_duplicates(),
        b.ids.no_duplicates(),
        0 <= n <= b.ids.len(),
    ensures
        ({
            let cs = additions(a, b, n);
            &&& forall|r: int|
                0 <= r < cs.len() ==> row_tells(a, b, #[trigger] cs[r]) && !a.ids.contains(
                    cs[r].block_id,
                ) && a.ids.len() <= rank(a, b, cs[r].block_id) < a.ids.len() + n
            &&& forall|r: int, s: int|
                0 <= r < s < cs.len() ==> rank(a, b, (#[trigger] cs[r]).block_id) < rank(
                    a,
                    b,
                    (#[trigger] cs[s]).block_id,
                )
            &&& forall|i: int|
                0 <= i < n && !a.ids.contains(#[trigger] b.ids[i]) ==> exists|r: int|
                    0 <= r < cs.len() && (#[trigger] cs[r]).block_id == b.ids[i]
        }),
    decreases n,
{
    if n > 0 {
        additions_tell(a, b, n - 1);
        index_of_own(b.ids, n - 1);
        last_is_index(a.ids, b.ids[n - 1]);
        let old = additions(a, b, n - 1);
        let cs = additions(a, b, n);
        assert forall|i: int|
            0 <= i < n && !a.ids.contains(#[trigger] b.ids[i]) implies exists|r: int|
            0 <= r < cs.len() && (#[trigger] cs[r]).block_id == b.ids[i] by {
            if i < n - 1 {
                let r = choose|r: int|
                    0 <= r < old.len() && (#[trigger] old[r]).block_id == b.ids[i];
                assert(cs[r] == old[r]);
            } else {
                assert(cs[cs.len() - 1].block_id == b.ids[i]);
            }
        }
    }
}

/// A difference has one row for every block that is gone, new, changed or moved, and
/// no other: the row names the block and how it fared, and carries what the older
/// state holds of it and what the newer one holds. The rows of blocks of the older
/// state come first and in its order, then the new ones in theirs.
pub proof fn a_difference_tells_both_sides(a: StateView, b: StateView)
    requires
        a.ids.no_duplicates(),
        b.ids.no_duplicates(),
    ensures
        forall|r: int|
            0 <= r < difference(a, b).len() ==> {
                let c = #[trigger] difference(a, b)[r];
                &&& fared(a, b, c.block_id) == Some(c.change)
                &&& c.before == content_held(a, c.block_id)
                &&& c.after == content_held(b, c.block_id)
            },
        forall|id: Uuid|
            #[trigger] fared(a, b, id) is Some ==> exists|r: int|
                0 <= r < difference(a, b).len() && (#[trigger] difference(a, b)[r]).block_id == id,
        forall|r: int, s: int|
            0 <= r < s < difference(a, b).len() ==> rank(
                a,
                b,
                (#[trigger] difference(a, b)[r]).block_id,
            ) < rank(a, b, (#[trigger] difference(a, b)[s]).block_id),
{
    let d = difference(a, b);
    let from = changes_from(a, b, a.ids.len() as int);
    let more = additions(a, b, b.ids.len() as int);
    changes_tell(a, b, a.ids.len() as int);
    additions_tell(a, b, b.ids.len() as int);
    assert forall|r: int| 0 <= r < d.len() implies row_tells(a, b, #[trigger] d[r]) && (rank(
        a,
        b,
        d[r].block_id,
    ) < a.ids.len() <==> r < from.len()) by {
        if r < from.len() {
            assert(d[r] == from[r]);
        } else {
            assert(d[r] == more[r - from.len()]);
        }
    }
    assert forall|id: Uuid| #[trigger] fared(a, b, id) is Some implies exists|r: int|
        0 <= r < d.len() && (#[trigger] d[r]).block_id == id by {
        if a.ids.contains(id) {
            let i = a.ids.index_of(id);
            assert(a.ids[i] == id);
            let r = choose|r: int| 0 <= r < from.len() && (#[trigger] from[r]).block_id == a.ids[i];
            assert(d[r] == from[r]);
        } else {
            let i = b.ids.index_of(id);
            assert(b.ids[i] == id);
            let r = choose|r: int| 0 <= r < more.len() && (#[trigger] more[r]).block_id == b.ids[i];
            assert(d[from.len() + r] == more[r]);
        }
    }
    assert forall|r: int, s: int| 0 <= r < s < d.len() implies rank(
        a,
        b,
        (#[trigger] d[r]).block_id,
    ) < rank(a, b, (#[trigger] d[s]).block_id) by {
        if s < from.len() {
            assert(d[r] == from[r] && d[s] == from[s]);
        } else if r >= from.len() {
            assert(d[r] == more[r - from.len()] && d[s] == more[s - from.len()]);
        }
    }
}

proof fn seq_of_revision_is_first(rows: Seq<RevisionRow>, id: Uuid, i: int)
    requires
        0 <= i,
    ensures
        match seq_of_revision(rows, id, i) {
            Some(s) => exists|k: int|
                i <= k < rows.len() && (#[trigger] rows[k]).id == id && rows[k].seq == s,
            None => forall|k: int| i <= k < rows.len() ==> (#[trigger] rows[k]).id != id,
        },
    decreases rows.len() - i,
{
    if i < rows.len() {
        seq_of_revision_is_first(rows, id, i + 1);
        if rows[i].id == id {
            assert(rows[i].seq == seq_of_revision(rows, id, i)->0);
        } else if let Some(s) = seq_of_revision(rows, id, i + 1) {
            let k = choose|k: int|
                i + 1 <= k < rows.len() && (#[trigger] rows[k]).id == id && rows[k].seq == s;
            assert(rows[k].id == id);
        }
    }
}

/// A revision is read at its own number, and a number at itself: a revision that is not
/// one of the note's, a number beyond its head and anything below the floor are refused,
/// and nothing else is.
pub proof fn a_point_is_what_it_names(
    rows: Seq<RevisionRow>,
    head: i64,
    floor: i64,
    id: Uuid,
    number: i64,
)
    ensures
        match point(rows, head, floor, At::Revision(id)) {
            Ok(s) => floor <= s && exists|k: int|
                0 <= k < rows.len() && (#[trigger] rows[k]).id == id && rows[k].seq == s,
            Err(AtFault::NotARevision) => forall|k: int|
                0 <= k < rows.len() ==> (#[trigger] rows[k]).id != id,
            Err(e) => e == AtFault::BelowFloor && exists|k: int|
                0 <= k < rows.len() && (#[trigger] rows[k]).id == id && rows[k].seq < floor,
        },
        match point(rows, head, floor, At::Number(number)) {
            Ok(s) => s == number && floor <= number <= head,
            Err(AtFault::BeyondHead) => number > head,
            Err(e) => e == AtFault::BelowFloor && number < floor && number <= head,
        },
{
    seq_of_revision_is_first(rows, id, 0);
}

/// The rows of a state are its blocks in their order, each with its number, its id, its
/// heading path, and the kind and content that the state holds of it.
pub proof fn a_row_tells_its_block(s: StateView, i: int)
    requires
        0 <= i < s.ids.len(),
        s.heads.len() == s.ids.len(),
        s.blocks.contains_key(s.ids[i]),
    ensures
        line_of(s, i).ord == i,
        line_of(s, i).block_id == s.ids[i],
        line_of(s, i).heading_path == s.heads[i],
        line_of(s, i).kind == s.blocks[s.ids[i]].kind,
        Some(line_of(s, i).content) == content_held(s, s.ids[i]),
{
    assert(s.ids.contains(s.ids[i]));
}

} // verus!
