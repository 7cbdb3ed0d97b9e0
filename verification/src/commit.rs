//! Finishing a block operation: nothing outside the edit may change, the blocks
//! that the caller named keep their ids, and one revision is stored.

use vstd::prelude::*;
use vstd::string::*;

use crate::carry::{
    bind_keeps_order, block_srcs, carry_done, carry_scope, finish_carry, ids_of_rows, index_range,
    open_slots, open_slots_bound, row_ids, scoped, scoped_ok, scoped_passes_by, scoped_spares,
    srcs_of_blocks, unassigned, unassigned_ok, what_is_not_carried_is_gone, within, Carry,
    CarryInput, CarryState, CarryView, InputView,
};
use crate::document::{Block, BlockView};
use crate::extraction::{EdgeKey, TagKey};
use crate::faults::{Op, OpFault};
use crate::history::{capture, captured, PreImage, StoredNote};
use crate::ids::Uuid;
use crate::json::Json;
use crate::note::{note_ok, NoteView, ParsedNote};
use crate::reconcile::{row_table, rows_for, rows_of, tile_table};
use crate::rows::{op_meta, op_meta_view, Extra, ExtraView};
use crate::state::Stored;
use crate::store::{bytes_eq, BlockRow, RowView};
use crate::timetravel::{rewind_undoes, rewound};
use crate::tree::{all_below, indices};
use crate::write::{
    a_plan_stores_the_note, plan_is, preamble_of, reconcile, rows_after, stored_as, tiles_after,
    unheard_of, LanePlan,
};

verus! {

/// What an operation knows of its note: what is stored, and the parse of it.
pub struct NoteCtx<'a> {
    pub path: &'a str,
    pub preamble: &'a str,
    pub props: &'a Json,
    pub tiles: &'a Vec<String>,
    pub rows: &'a Vec<BlockRow>,
    pub parsed: &'a ParsedNote,
    pub edges: &'a Vec<(i64, EdgeKey)>,
    pub tags: &'a Vec<(i64, TagKey)>,
}

impl<'a> NoteCtx<'a> {
    /// What is stored.
    pub open spec fn stored(&self) -> Stored {
        Stored {
            path: self.path@,
            preamble: self.preamble@,
            props: self.props@,
            tiles: self.tiles.deep_view(),
            rows: self.rows.deep_view(),
        }
    }

    /// The parse has a block for each stored row.
    pub open spec fn ok(&self) -> bool {
        &&& note_ok(self.parsed.deep_view())
        &&& self.rows.len() == self.parsed.doc.blocks.len()
        &&& self.stored().ok()
    }
}

/// What an operation does to a note, before ids are assigned.
#[derive(Debug)]
pub struct OpPlan {
    pub op: Op,
    /// The parse of the spliced source.
    pub probe: ParsedNote,
    /// The blocks of the old parse that are replaced.
    pub old_region: Option<(usize, usize)>,
    /// The rewritten byte range of the new source; none if the whole note was
    /// rewritten.
    pub edit_range: Option<(usize, usize)>,
    /// Old blocks with the new blocks that they are.
    pub pins: Vec<(usize, usize)>,
    /// Pinned blocks must keep their kind and content.
    pub pin_hash_strict: bool,
    /// Runs of old and of new blocks between which ids are carried.
    pub scoped: Option<((usize, usize), (usize, usize))>,
    /// The new block that has the surviving marker.
    pub marker_to: Option<usize>,
    pub extra: Extra,
    /// The new blocks that the operation returns.
    pub results: Vec<usize>,
}

/// What an operation does to a note.
pub ghost struct PlanView {
    pub op: Op,
    pub probe: NoteView,
    pub old_region: Option<(int, int)>,
    pub edit_range: Option<(int, int)>,
    pub pins: Seq<(int, int)>,
    pub strict: bool,
    pub scoped: Option<((int, int), (int, int))>,
    pub marker_to: Option<int>,
    pub extra: ExtraView,
    pub results: Seq<int>,
}

pub open spec fn pairs_view(v: Seq<(usize, usize)>) -> Seq<(int, int)> {
    Seq::new(v.len(), |i: int| (v[i].0 as int, v[i].1 as int))
}

pub open spec fn range_view(r: Option<(usize, usize)>) -> Option<(int, int)> {
    match r {
        Some((a, b)) => Some((a as int, b as int)),
        None => None,
    }
}

pub open spec fn scope_view(r: Option<((usize, usize), (usize, usize))>) -> Option<
    ((int, int), (int, int)),
> {
    match r {
        Some((o, n)) => Some(((o.0 as int, o.1 as int), (n.0 as int, n.1 as int))),
        None => None,
    }
}

pub open spec fn index_view(i: Option<usize>) -> Option<int> {
    match i {
        Some(k) => Some(k as int),
        None => None,
    }
}

impl DeepView for OpPlan {
    type V = PlanView;

    open spec fn deep_view(&self) -> PlanView {
        PlanView {
            op: self.op,
            probe: self.probe.deep_view(),
            old_region: range_view(self.old_region),
            edit_range: range_view(self.edit_range),
            pins: pairs_view(self.pins@),
            strict: self.pin_hash_strict,
            scoped: scope_view(self.scoped),
            marker_to: index_view(self.marker_to),
            extra: self.extra@,
            results: indices(self.results@),
        }
    }
}

/// No block is in two of the pairs.
pub open spec fn one_to_one(pairs: Seq<(int, int)>) -> bool {
    forall|i: int, j: int|
        0 <= i < j < pairs.len() ==> (#[trigger] pairs[i]).0 != (#[trigger] pairs[j]).0
            && pairs[i].1 != pairs[j].1
}

/// The plan's indices are those of blocks, and its pins are one to one.
pub open spec fn plan_ok(old_len: int, p: PlanView) -> bool {
    let new_len = p.probe.doc.blocks.len() as int;
    &&& note_ok(p.probe)
    &&& one_to_one(p.pins)
    &&& forall|k: int| 0 <= k < p.pins.len() ==> 0 <= (#[trigger] p.pins[k]).0 && 0 <= p.pins[k].1
    &&& all_below(
        p.results,
        if p.edit_range is None {
            old_len
        } else {
            new_len
        },
    )
    &&& p.marker_to matches Some(m) ==> 0 <= m < new_len
    &&& p.scoped matches Some((o, n)) ==> 0 <= o.0 && o.1 <= old_len && 0 <= n.0 && n.1 <= new_len
}

// ---- the checks ----

/// What is wrong with a pin, if anything.
pub open spec fn pin_fault(
    old: Seq<BlockView>,
    new: Seq<BlockView>,
    pin: (int, int),
    strict: bool,
) -> Option<OpFault> {
    if pin.0 >= old.len() || pin.1 >= new.len() {
        Some(OpFault::PinOutOfRange { old: pin.0 as usize, new: pin.1 as usize })
    } else if strict && !same_block(old[pin.0], new[pin.1]) {
        Some(OpFault::MoveChanged { old: pin.0 as usize, new: pin.1 as usize })
    } else {
        None
    }
}

/// Two blocks have one kind and one content.
pub open spec fn same_block(a: BlockView, b: BlockView) -> bool {
    a.kind == b.kind && a.content_hash == b.content_hash
}

/// What is wrong with the first faulty pin from the `k`-th on.
pub open spec fn pins_fault(
    old: Seq<BlockView>,
    new: Seq<BlockView>,
    pins: Seq<(int, int)>,
    strict: bool,
    k: int,
) -> Option<OpFault>
    decreases pins.len() - k,
{
    if k < 0 || k >= pins.len() {
        None
    } else {
        match pin_fault(old, new, pins[k], strict) {
            Some(f) => Some(f),
            None => pins_fault(old, new, pins, strict, k + 1),
        }
    }
}

pub open spec fn pinned_old(pins: Seq<(int, int)>, i: int) -> bool {
    exists|k: int| 0 <= k < pins.len() && (#[trigger] pins[k]).0 == i
}

pub open spec fn pinned_new(pins: Seq<(int, int)>, i: int) -> bool {
    exists|k: int| 0 <= k < pins.len() && (#[trigger] pins[k]).1 == i
}

/// The first `n` old blocks that are outside the region and not pinned.
pub open spec fn old_outside(region: Option<(int, int)>, pins: Seq<(int, int)>, n: int) -> Seq<int>
    decreases n,
{
    if n <= 0 {
        Seq::empty()
    } else {
        let i = n - 1;
        let replaced = match region {
            Some((lo, hi)) => lo <= i < hi,
            None => false,
        };
        if !replaced && !pinned_old(pins, i) {
            old_outside(region, pins, n - 1).push(i)
        } else {
            old_outside(region, pins, n - 1)
        }
    }
}

/// The first `n` new blocks that the edit does not touch and that are not pinned;
/// none if the whole note was rewritten.
pub open spec fn new_outside(
    blocks: Seq<BlockView>,
    edit: Option<(int, int)>,
    pins: Seq<(int, int)>,
    n: int,
) -> Seq<int>
    decreases n,
{
    if n <= 0 {
        Seq::empty()
    } else {
        let i = n - 1;
        let untouched = match edit {
            Some((lo, hi)) => blocks[i].span.end <= lo || blocks[i].span.start >= hi,
            None => false,
        };
        if untouched && !pinned_new(pins, i) {
            new_outside(blocks, edit, pins, n - 1).push(i)
        } else {
            new_outside(blocks, edit, pins, n - 1)
        }
    }
}

/// The first pair of outside blocks, from the `k`-th on, that differ.
pub open spec fn outside_fault(
    old: Seq<BlockView>,
    new: Seq<BlockView>,
    o: Seq<int>,
    n: Seq<int>,
    k: int,
) -> Option<OpFault>
    decreases o.len() - k,
{
    if k < 0 || k >= o.len() {
        None
    } else if !same_block(old[o[k]], new[n[k]]) {
        Some(OpFault::OutsideChanged { old: o[k] as usize, new: n[k] as usize })
    } else {
        outside_fault(old, new, o, n, k + 1)
    }
}

pub open spec fn old_rest(old: Seq<BlockView>, p: PlanView) -> Seq<int> {
    old_outside(p.old_region, p.pins, old.len() as int)
}

pub open spec fn new_rest(p: PlanView) -> Seq<int> {
    new_outside(p.probe.doc.blocks, p.edit_range, p.pins, p.probe.doc.blocks.len() as int)
}

/// Why an operation is refused, if it is: it may not touch what is outside it.
pub open spec fn commit_fault(old: Seq<BlockView>, p: PlanView) -> Option<OpFault> {
    let new = p.probe.doc.blocks;
    let o = old_rest(old, p);
    let n = new_rest(p);
    if pins_fault(old, new, p.pins, p.strict, 0) is Some {
        pins_fault(old, new, p.pins, p.strict, 0)
    } else if p.edit_range is None && new.len() != old.len() {
        Some(OpFault::BlockCount { before: old.len() as usize, after: new.len() as usize })
    } else if p.edit_range is None && p.pins.len() != new.len() {
        Some(OpFault::Unpinned { pinned: p.pins.len() as usize, total: new.len() as usize })
    } else if o.len() != n.len() {
        Some(OpFault::OutsideCount { before: o.len() as usize, after: n.len() as usize })
    } else {
        outside_fault(old, new, o, n, 0)
    }
}

// ---- the ids ----

/// What the carry of an operation reads.
pub open spec fn op_input(old: Seq<BlockView>, rows: Seq<RowView>, p: PlanView) -> InputView {
    InputView {
        old: block_srcs(old),
        new: block_srcs(p.probe.doc.blocks),
        old_ids: row_ids(rows),
    }
}

/// The pairs that keep their ids: what is outside the edit, then the pins.
pub open spec fn kept_pairs(old: Seq<BlockView>, p: PlanView) -> Seq<(int, int)> {
    let o = old_rest(old, p);
    let n = new_rest(p);
    Seq::new(o.len(), |k: int| (o[k], n[k])) + p.pins
}

/// The carry with the first `n` pairs bound.
pub open spec fn seeded(inp: InputView, pairs: Seq<(int, int)>, n: int) -> CarryView
    decreases n,
{
    if n <= 0 {
        unassigned(inp.old.len() as int, inp.new.len() as int)
    } else {
        seeded(inp, pairs, n - 1).bound(inp, pairs[n - 1].1, pairs[n - 1].0)
    }
}

/// The indices from `from` up to `to`.
pub open spec fn range_seq(from: int, to: int) -> Seq<usize> {
    Seq::new(
        (if to > from {
            to - from
        } else {
            0
        }) as nat,
        |i: int| (from + i) as usize,
    )
}

/// The carry of an operation: the pairs, then the ids carried inside the region.
pub open spec fn op_carry(old: Seq<BlockView>, rows: Seq<RowView>, p: PlanView) -> CarryView {
    let inp = op_input(old, rows, p);
    let pairs = kept_pairs(old, p);
    let st = seeded(inp, pairs, pairs.len() as int);
    match p.scoped {
        Some((o, n)) => scoped(inp, range_seq(o.0, o.1), range_seq(n.0, n.1), st),
        None => st,
    }
}

proof fn old_outside_is(region: Option<(int, int)>, pins: Seq<(int, int)>, n: int)
    requires
        0 <= n,
    ensures
        ({
            let v = old_outside(region, pins, n);
            &&& forall|k: int|
                0 <= k < v.len() ==> 0 <= #[trigger] v[k] < n && !pinned_old(pins, v[k])
            &&& forall|j: int, k: int| 0 <= j < k < v.len() ==> #[trigger] v[j] < #[trigger] v[k]
        }),
    decreases n,
{
    if n > 0 {
        old_outside_is(region, pins, n - 1);
        let a = old_outside(region, pins, n - 1);
        let b = old_outside(region, pins, n);
        assert(forall|k: int| 0 <= k < a.len() ==> #[trigger] b[k] == a[k]);
        assert(b.len() > a.len() ==> b[a.len() as int] == n - 1 && !pinned_old(pins, n - 1));
    }
}

proof fn new_outside_is(
    blocks: Seq<BlockView>,
    edit: Option<(int, int)>,
    pins: Seq<(int, int)>,
    n: int,
)
    requires
        0 <= n,
    ensures
        ({
            let v = new_outside(blocks, edit, pins, n);
            &&& forall|k: int|
                0 <= k < v.len() ==> 0 <= #[trigger] v[k] < n && !pinned_new(pins, v[k])
            &&& forall|j: int, k: int| 0 <= j < k < v.len() ==> #[trigger] v[j] < #[trigger] v[k]
        }),
    decreases n,
{
    if n > 0 {
        new_outside_is(blocks, edit, pins, n - 1);
        let a = new_outside(blocks, edit, pins, n - 1);
        let b = new_outside(blocks, edit, pins, n);
        assert(forall|k: int| 0 <= k < a.len() ==> #[trigger] b[k] == a[k]);
        assert(b.len() > a.len() ==> b[a.len() as int] == n - 1 && !pinned_new(pins, n - 1));
    }
}

/// Pins without a fault are in range, and strict ones keep kind and content.
pub proof fn pins_in_range(
    old: Seq<BlockView>,
    new: Seq<BlockView>,
    pins: Seq<(int, int)>,
    strict: bool,
    k: int,
)
    requires
        0 <= k <= pins.len(),
        pins_fault(old, new, pins, strict, k) is None,
    ensures
        forall|j: int|
            k <= j < pins.len() ==> (#[trigger] pins[j]).0 < old.len() && pins[j].1 < new.len(),
        strict ==> forall|j: int|
            k <= j < pins.len() ==> same_block(old[(#[trigger] pins[j]).0], new[pins[j].1]),
    decreases pins.len() - k,
{
    if k < pins.len() {
        assert(pin_fault(old, new, pins[k], strict) is None);
        pins_in_range(old, new, pins, strict, k + 1);
    }
}

proof fn outside_alike(
    old: Seq<BlockView>,
    new: Seq<BlockView>,
    o: Seq<int>,
    n: Seq<int>,
    k: int,
)
    requires
        0 <= k <= o.len(),
        outside_fault(old, new, o, n, k) is None,
    ensures
        forall|j: int| k <= j < o.len() ==> same_block(old[#[trigger] o[j]], new[n[j]]),
    decreases o.len() - k,
{
    if k < o.len() {
        outside_alike(old, new, o, n, k + 1);
    }
}

/// The pairs of an operation that is not refused are one to one, and in range.
pub proof fn pairs_are_sound(old: Seq<BlockView>, p: PlanView)
    requires
        plan_ok(old.len() as int, p),
        commit_fault(old, p) is None,
    ensures
        one_to_one(kept_pairs(old, p)),
        forall|k: int|
            0 <= k < kept_pairs(old, p).len() ==> 0 <= (#[trigger] kept_pairs(old, p)[k]).0
                < old.len() && 0 <= kept_pairs(old, p)[k].1 < p.probe.doc.blocks.len(),
{
    let new = p.probe.doc.blocks;
    let o = old_rest(old, p);
    let n = new_rest(p);
    let pairs = kept_pairs(old, p);
    old_outside_is(p.old_region, p.pins, old.len() as int);
    new_outside_is(new, p.edit_range, p.pins, new.len() as int);
    pins_in_range(old, new, p.pins, p.strict, 0);
    assert forall|i: int, j: int| 0 <= i < j < pairs.len() implies (#[trigger] pairs[i]).0 != (
    #[trigger] pairs[j]).0 && pairs[i].1 != pairs[j].1 by {
        if j < o.len() {
            assert(pairs[i] == (o[i], n[i]) && pairs[j] == (o[j], n[j]));
        } else {
            let jp = j - o.len();
            assert(pairs[j] == p.pins[jp]);
            if i < o.len() {
                assert(pairs[i] == (o[i], n[i]));
                assert(!pinned_old(p.pins, o[i]));
                assert(!pinned_new(p.pins, n[i]));
            } else {
                assert(pairs[i] == p.pins[i - o.len()]);
            }
        }
    }
    assert forall|k: int| 0 <= k < pairs.len() implies 0 <= (#[trigger] pairs[k]).0 < old.len()
        && 0 <= pairs[k].1 < new.len() by {
        if k < o.len() {
            assert(pairs[k] == (o[k], n[k]));
        } else {
            assert(pairs[k] == p.pins[k - o.len()]);
        }
    }
}

proof fn seeded_is(inp: InputView, pairs: Seq<(int, int)>, n: int)
    requires
        inp.ok(),
        one_to_one(pairs),
        0 <= n <= pairs.len(),
        forall|k: int|
            0 <= k < pairs.len() ==> 0 <= (#[trigger] pairs[k]).0 < inp.old.len() && 0
                <= pairs[k].1 < inp.new.len(),
    ensures
        ({
            let st = seeded(inp, pairs, n);
            &&& st.ok(inp)
            &&& forall|k: int|
                0 <= k < n ==> st.assign[(#[trigger] pairs[k]).1] == Some(inp.old_ids[pairs[k].0])
            &&& forall|k: int|
                n <= k < pairs.len() ==> st.assign[(#[trigger] pairs[k]).1] is None
                    && !st.old_used[pairs[k].0]
        }),
    decreases n,
{
    if n == 0 {
        unassigned_ok(inp);
    } else {
        seeded_is(inp, pairs, n - 1);
        let before = seeded(inp, pairs, n - 1);
        let (o, m) = pairs[n - 1];
        bind_keeps_order(inp, before, m, o);
        let st = seeded(inp, pairs, n);
        assert forall|k: int| 0 <= k < n implies st.assign[(#[trigger] pairs[k]).1] == Some(
            inp.old_ids[pairs[k].0],
        ) by {
            if k < n - 1 {
                assert(pairs[k].1 != pairs[n - 1].1);
            }
        }
        assert forall|k: int| n <= k < pairs.len() implies st.assign[(#[trigger] pairs[k]).1]
            is None && !st.old_used[pairs[k].0] by {
            assert(pairs[n - 1].1 != pairs[k].1);
        }
    }
}

/// The carry of an operation that is not refused is in order, and every kept pair
/// keeps its id in it.
pub proof fn op_carry_keeps_pairs(old: Seq<BlockView>, rows: Seq<RowView>, p: PlanView)
    requires
        plan_ok(old.len() as int, p),
        commit_fault(old, p) is None,
        rows.len() == old.len(),
        row_ids(rows).no_duplicates(),
        old.len() <= usize::MAX,
        p.probe.doc.blocks.len() <= usize::MAX,
    ensures
        op_carry(old, rows, p).ok(op_input(old, rows, p)),
        forall|k: int|
            0 <= k < kept_pairs(old, p).len() ==> op_carry(old, rows, p).assign[(
            #[trigger] kept_pairs(old, p)[k]).1] == Some(rows[kept_pairs(old, p)[k].0].id),
{
    let inp = op_input(old, rows, p);
    let pairs = kept_pairs(old, p);
    pairs_are_sound(old, p);
    seeded_is(inp, pairs, pairs.len() as int);
    let st = seeded(inp, pairs, pairs.len() as int);
    if let Some((o, n)) = p.scoped {
        let a = range_seq(o.0, o.1);
        let b = range_seq(n.0, n.1);
        scoped_ok(inp, a, b, st);
        crate::carry::scoped_keeps(inp, a, b, st);
    }
    assert forall|k: int| 0 <= k < pairs.len() implies op_carry(old, rows, p).assign[(
    #[trigger] pairs[k]).1] == Some(rows[pairs[k].0].id) by {
        assert(st.assign[pairs[k].1] == Some(inp.old_ids[pairs[k].0]));
    }
}

fn is_pinned_old(pins: &Vec<(usize, usize)>, i: usize) -> (r: bool)
    ensures
        r == pinned_old(pairs_view(pins@), i as int),
{
    let ghost v = pairs_view(pins@);
    let mut k: usize = 0;
    while k < pins.len()
        invariant
            k <= pins.len(),
            v == pairs_view(pins@),
            forall|j: int| 0 <= j < k ==> (#[trigger] v[j]).0 != i,
        decreases pins.len() - k,
    {
        assert(v[k as int].0 == pins[k as int].0);
        if pins[k].0 == i {
            return true;
        }
        k += 1;
    }
    false
}

fn is_pinned_new(pins: &Vec<(usize, usize)>, i: usize) -> (r: bool)
    ensures
        r == pinned_new(pairs_view(pins@), i as int),
{
    let ghost v = pairs_view(pins@);
    let mut k: usize = 0;
    while k < pins.len()
        invariant
            k <= pins.len(),
            v == pairs_view(pins@),
            forall|j: int| 0 <= j < k ==> (#[trigger] v[j]).1 != i,
        decreases pins.len() - k,
    {
        assert(v[k as int].1 == pins[k as int].1);
        if pins[k].1 == i {
            return true;
        }
        k += 1;
    }
    false
}

fn blocks_alike(a: &Block, b: &Block) -> (r: bool)
    ensures
        r == same_block(a.deep_view(), b.deep_view()),
{
    a.kind == b.kind && bytes_eq(
        vstd::array::array_as_slice(&a.content_hash),
        vstd::array::array_as_slice(&b.content_hash),
    )
}

fn find_pin_fault(
    old: &Vec<Block>,
    new: &Vec<Block>,
    pins: &Vec<(usize, usize)>,
    strict: bool,
) -> (r: Option<OpFault>)
    ensures
        r == pins_fault(old.deep_view(), new.deep_view(), pairs_view(pins@), strict, 0),
{
    let ghost o = old.deep_view();
    let ghost n = new.deep_view();
    let ghost v = pairs_view(pins@);
    let mut k: usize = 0;
    while k < pins.len()
        invariant
            k <= pins.len(),
            o == old.deep_view(),
            n == new.deep_view(),
            v == pairs_view(pins@),
            pins_fault(o, n, v, strict, 0) == pins_fault(o, n, v, strict, k as int),
        decreases pins.len() - k,
    {
        let (oi, ni) = pins[k];
        assert(v[k as int] == (oi as int, ni as int));
        if oi >= old.len() || ni >= new.len() {
            return Some(OpFault::PinOutOfRange { old: oi, new: ni });
        }
        assert(o[oi as int] == old[oi as int].deep_view());
        assert(n[ni as int] == new[ni as int].deep_view());
        if strict && !blocks_alike(&old[oi], &new[ni]) {
            return Some(OpFault::MoveChanged { old: oi, new: ni });
        }
        k += 1;
    }
    None
}

fn find_old_outside(
    len: usize,
    region: Option<(usize, usize)>,
    pins: &Vec<(usize, usize)>,
) -> (r: Vec<usize>)
    ensures
        indices(r@) == old_outside(range_view(region), pairs_view(pins@), len as int),
        forall|k: int| 0 <= k < r.len() ==> #[trigger] r[k] < len,
{
    let mut out: Vec<usize> = Vec::new();
    let mut i: usize = 0;
    proof {
        assert(indices(out@) =~= Seq::<int>::empty());
    }
    while i < len
        invariant
            i <= len,
            indices(out@) == old_outside(range_view(region), pairs_view(pins@), i as int),
            forall|k: int| 0 <= k < out.len() ==> #[trigger] out[k] < len,
        decreases len - i,
    {
        let replaced = match region {
            Some((lo, hi)) => lo <= i && i < hi,
            None => false,
        };
        if !replaced && !is_pinned_old(pins, i) {
            let ghost before = indices(out@);
            out.push(i);
            assert(indices(out@) =~= before.push(i as int));
        }
        i += 1;
    }
    out
}

fn find_new_outside(
    blocks: &Vec<Block>,
    edit: Option<(usize, usize)>,
    pins: &Vec<(usize, usize)>,
) -> (r: Vec<usize>)
    ensures
        indices(r@) == new_outside(
            blocks.deep_view(),
            range_view(edit),
            pairs_view(pins@),
            blocks.len() as int,
        ),
        forall|k: int| 0 <= k < r.len() ==> #[trigger] r[k] < blocks.len(),
{
    let ghost v = blocks.deep_view();
    let mut out: Vec<usize> = Vec::new();
    let mut i: usize = 0;
    proof {
        assert(indices(out@) =~= Seq::<int>::empty());
    }
    while i < blocks.len()
        invariant
            i <= blocks.len(),
            v == blocks.deep_view(),
            indices(out@) == new_outside(v, range_view(edit), pairs_view(pins@), i as int),
            forall|k: int| 0 <= k < out.len() ==> #[trigger] out[k] < blocks.len(),
        decreases blocks.len() - i,
    {
        assert(v[i as int] == blocks[i as int].deep_view());
        let untouched = match edit {
            Some((lo, hi)) => blocks[i].span.end <= lo || blocks[i].span.start >= hi,
            None => false,
        };
        if untouched && !is_pinned_new(pins, i) {
            let ghost before = indices(out@);
            out.push(i);
            assert(indices(out@) =~= before.push(i as int));
        }
        i += 1;
    }
    out
}

fn find_outside_fault(
    old: &Vec<Block>,
    new: &Vec<Block>,
    o: &Vec<usize>,
    n: &Vec<usize>,
) -> (r: Option<OpFault>)
    requires
        o.len() == n.len(),
        forall|k: int| 0 <= k < o.len() ==> #[trigger] o[k] < old.len(),
        forall|k: int| 0 <= k < n.len() ==> #[trigger] n[k] < new.len(),
    ensures
        r == outside_fault(old.deep_view(), new.deep_view(), indices(o@), indices(n@), 0),
{
    let ghost ov = old.deep_view();
    let ghost nv = new.deep_view();
    let ghost oi = indices(o@);
    let ghost ni = indices(n@);
    let mut k: usize = 0;
    while k < o.len()
        invariant
            k <= o.len() == n.len(),
            ov == old.deep_view(),
            nv == new.deep_view(),
            oi == indices(o@),
            ni == indices(n@),
            forall|k: int| 0 <= k < o.len() ==> #[trigger] o[k] < old.len(),
            forall|k: int| 0 <= k < n.len() ==> #[trigger] n[k] < new.len(),
            outside_fault(ov, nv, oi, ni, 0) == outside_fault(ov, nv, oi, ni, k as int),
        decreases o.len() - k,
    {
        let a = o[k];
        let b = n[k];
        assert(oi[k as int] == a && ni[k as int] == b);
        assert(ov[a as int] == old[a as int].deep_view());
        assert(nv[b as int] == new[b as int].deep_view());
        if !blocks_alike(&old[a], &new[b]) {
            return Some(OpFault::OutsideChanged { old: a, new: b });
        }
        k += 1;
    }
    None
}

/// The pairs of an operation that keep their ids, or why it is refused.
fn check_op(old: &Vec<Block>, plan: &OpPlan) -> (r: Result<Vec<(usize, usize)>, OpFault>)
    requires
        plan_ok(old.len() as int, plan.deep_view()),
    ensures
        match r {
            Ok(pairs) => {
                &&& commit_fault(old.deep_view(), plan.deep_view()) is None
                &&& pairs_view(pairs@) == kept_pairs(old.deep_view(), plan.deep_view())
            },
            Err(f) => commit_fault(old.deep_view(), plan.deep_view()) == Some(f),
        },
{
    let ghost ov = old.deep_view();
    let ghost p = plan.deep_view();
    let new = &plan.probe.doc.blocks;
    assert(ov.len() == old.len());
    assert(p.probe.doc.blocks == new.deep_view());
    assert(p.probe.doc.blocks.len() == new.len());
    if let Some(f) = find_pin_fault(old, new, &plan.pins, plan.pin_hash_strict) {
        return Err(f);
    }
    if plan.edit_range.is_none() {
        if new.len() != old.len() {
            return Err(OpFault::BlockCount { before: old.len(), after: new.len() });
        }
        if plan.pins.len() != new.len() {
            return Err(OpFault::Unpinned { pinned: plan.pins.len(), total: new.len() });
        }
    }
    let o = find_old_outside(old.len(), plan.old_region, &plan.pins);
    let n = find_new_outside(new, plan.edit_range, &plan.pins);
    assert(indices(o@).len() == o.len() && indices(n@).len() == n.len());
    if o.len() != n.len() {
        return Err(OpFault::OutsideCount { before: o.len(), after: n.len() });
    }
    if let Some(f) = find_outside_fault(old, new, &o, &n) {
        return Err(f);
    }
    let mut pairs: Vec<(usize, usize)> = Vec::new();
    let mut k: usize = 0;
    while k < o.len()
        invariant
            k <= o.len() == n.len(),
            pairs.len() == k,
            forall|j: int| 0 <= j < k ==> #[trigger] pairs[j] == (o[j], n[j]),
        decreases o.len() - k,
    {
        pairs.push((o[k], n[k]));
        k += 1;
    }
    let mut j: usize = 0;
    while j < plan.pins.len()
        invariant
            j <= plan.pins.len(),
            o.len() == n.len(),
            pairs.len() == o.len() + j,
            forall|i: int| 0 <= i < o.len() ==> #[trigger] pairs[i] == (o[i], n[i]),
            forall|i: int|
                o.len() <= i < pairs.len() ==> #[trigger] pairs[i] == plan.pins[i - o.len()],
        decreases plan.pins.len() - j,
    {
        pairs.push(plan.pins[j]);
        j += 1;
    }
    proof {
        let want = kept_pairs(ov, p);
        let got = pairs_view(pairs@);
        assert(old_rest(ov, p) == indices(o@));
        assert(new_rest(p) == indices(n@));
        assert(got.len() == want.len());
        assert forall|i: int| 0 <= i < want.len() implies got[i] == want[i] by {
            if i < o.len() {
                assert(pairs[i] == (o[i], n[i]));
            } else {
                assert(pairs[i] == plan.pins[i - o.len()]);
                assert(p.pins[i - o.len()] == want[i]);
            }
        }
        assert(got =~= want);
    }
    Ok(pairs)
}

/// The ids that an operation gives the blocks of the new parse.
fn carry_op(
    old: &Vec<Block>,
    rows: &Vec<BlockRow>,
    plan: &OpPlan,
    pairs: &Vec<(usize, usize)>,
    fresh: &Vec<Uuid>,
) -> (r: Carry)
    requires
        plan_ok(old.len() as int, plan.deep_view()),
        commit_fault(old.deep_view(), plan.deep_view()) is None,
        pairs_view(pairs@) == kept_pairs(old.deep_view(), plan.deep_view()),
        rows.len() == old.len(),
        row_ids(rows.deep_view()).no_duplicates(),
        fresh.len() >= plan.probe.doc.blocks.len(),
    ensures
        r.ids.len() == plan.probe.doc.blocks.len(),
        carry_done(
            r,
            op_input(old.deep_view(), rows.deep_view(), plan.deep_view()),
            op_carry(old.deep_view(), rows.deep_view(), plan.deep_view()),
            fresh@,
        ),
{
    let ghost ov = old.deep_view();
    let ghost rv = rows.deep_view();
    let ghost p = plan.deep_view();
    let new = &plan.probe.doc.blocks;
    let old_src = srcs_of_blocks(old);
    let new_src = srcs_of_blocks(new);
    let old_ids = ids_of_rows(rows);
    let input = CarryInput { old: &old_src, new: &new_src, old_ids: &old_ids };
    let ghost inp = op_input(ov, rv, p);
    let ghost pv = kept_pairs(ov, p);
    proof {
        assert(input.deep_view() == inp);
        assert(ov.len() == old.len());
        assert(p.probe.doc.blocks.len() == new.len());
        pairs_are_sound(ov, p);
        op_carry_keeps_pairs(ov, rv, p);
    }
    let mut state = CarryState::new(old.len(), new.len());
    let mut k: usize = 0;
    while k < pairs.len()
        invariant
            k <= pairs.len(),
            inp.ok(),
            inp.old.len() == old.len(),
            inp.new.len() == new.len(),
            inp.old_ids == row_ids(rv),
            rv == rows.deep_view(),
            rows.len() == old.len(),
            pv == pairs_view(pairs@),
            one_to_one(pv),
            forall|k: int|
                0 <= k < pv.len() ==> 0 <= (#[trigger] pv[k]).0 < inp.old.len() && 0 <= pv[k].1
                    < inp.new.len(),
            state.deep_view() == seeded(inp, pv, k as int),
            state.assign.len() == new.len(),
            state.old_used.len() == old.len(),
        decreases pairs.len() - k,
    {
        let (oi, ni) = pairs[k];
        assert(pv[k as int] == (oi as int, ni as int));
        let ghost before = state.deep_view();
        let id = rows[oi].id;
        state.assign.set(ni, Some(id));
        state.old_used.set(oi, true);
        proof {
            assert(inp.old_ids[oi as int] == rv[oi as int].id);
            let want = before.bound(inp, ni as int, oi as int);
            assert(state.deep_view().assign =~= want.assign);
            assert(state.deep_view().old_used =~= want.old_used);
        }
        k += 1;
    }
    proof {
        seeded_is(inp, pv, pv.len() as int);
    }
    if let Some(((a, b), (c, d))) = plan.scoped {
        let old_set = index_range(a, b);
        let new_set = index_range(c, d);
        proof {
            assert(old_set@ =~= range_seq(a as int, b as int));
            assert(new_set@ =~= range_seq(c as int, d as int));
            assert(within(old_set@, inp.old.len() as int));
            assert(within(new_set@, inp.new.len() as int));
        }
        carry_scope(&input, &old_set, &new_set, &mut state);
    }
    proof {
        open_slots_bound(state.assign@, state.assign.len() as int);
    }
    finish_carry(&input, state, fresh)
}

/// Everything that one operation stores.
#[derive(Debug)]
pub struct OpWrite {
    pub carry: Carry,
    pub rows: Vec<BlockRow>,
    pub plan: LanePlan,
    pub pre: PreImage,
    pub meta: Json,
    /// The blocks that the operation returns.
    pub block_ids: Vec<Uuid>,
}

pub open spec fn ids_at(ids: Seq<Uuid>, at: Seq<int>) -> Seq<Uuid> {
    Seq::new(at.len(), |i: int| ids[at[i]])
}

/// What one operation stores: ids kept outside the edit and at the pins, carried
/// inside the region, and minted for the rest; the plan of writes; what history
/// records; and the revision's metadata.
pub open spec fn op_write_is(w: OpWrite, ctx: NoteCtx, p: PlanView, fresh: Seq<Uuid>) -> bool {
    let old = ctx.parsed.deep_view().doc.blocks;
    let rows = ctx.rows.deep_view();
    &&& carry_done(w.carry, op_input(old, rows, p), op_carry(old, rows, p), fresh)
    &&& w.rows.deep_view() == rows_of(p.probe, w.carry.ids@)
    &&& plan_is(
        w.plan,
        ctx.stored(),
        p.probe,
        w.carry.ids@,
        w.carry.removed@,
        ctx.edges@,
        ctx.tags@,
    )
    &&& w.pre.deep_view() == captured(
        ctx.stored(),
        true,
        stored_as(p.probe, ctx.path@, w.carry.ids@),
    )
    &&& w.block_ids@ == ids_at(w.carry.ids@, p.results)
    &&& w.meta@ == op_meta_view(
        p.op.label(),
        p.extra,
        (match p.marker_to {
            Some(i) => Some(w.carry.ids@[i]),
            None => None,
        }),
        w.carry,
        w.block_ids@,
    )
}

/// Finishes an operation, or refuses it: the blocks outside the edit must be as
/// many as before, and of the same kinds and contents. `fresh` holds ids that
/// nothing has yet, one for each block of the new parse.
pub fn commit_op(ctx: &NoteCtx, plan: &OpPlan, fresh: &Vec<Uuid>) -> (r: Result<OpWrite, OpFault>)
    requires
        ctx.ok(),
        plan_ok(ctx.rows.len() as int, plan.deep_view()),
        plan.probe.doc.blocks.len() <= i32::MAX,
        plan.probe.tiles.len() <= i32::MAX,
        fresh.len() >= plan.probe.doc.blocks.len(),
    ensures
        match r {
            Ok(w) => {
                &&& commit_fault(ctx.parsed.deep_view().doc.blocks, plan.deep_view()) is None
                &&& op_write_is(w, *ctx, plan.deep_view(), fresh@)
            },
            Err(f) => commit_fault(ctx.parsed.deep_view().doc.blocks, plan.deep_view()) == Some(f),
        },
{
    let ghost p = plan.deep_view();
    let old_blocks = &ctx.parsed.doc.blocks;
    let probe = &plan.probe;
    proof {
        assert(ctx.stored().ids() == row_ids(ctx.rows.deep_view()));
        assert(p.probe.doc.blocks.len() == probe.doc.blocks.len());
        assert(p.probe.tiles.len() == probe.tiles.len());
    }
    let pairs = match check_op(old_blocks, plan) {
        Ok(pairs) => pairs,
        Err(f) => {
            return Err(f);
        },
    };
    let carry = carry_op(old_blocks, ctx.rows, plan, &pairs, fresh);
    let rows = rows_for(probe, &carry.ids);
    let old = StoredNote {
        path: ctx.path,
        preamble: ctx.preamble,
        props: ctx.props,
        tiles: ctx.tiles,
        rows: ctx.rows,
    };
    let lanes = reconcile(&old, probe, &carry.ids, &carry.removed, ctx.edges, ctx.tags);
    let new = StoredNote {
        path: ctx.path,
        preamble: preamble_of(probe),
        props: &probe.doc.properties,
        tiles: &probe.tiles,
        rows: &rows,
    };
    proof {
        assert(ctx.stored().rows.len() == ctx.rows.len());
        assert(ctx.stored().tiles.len() == ctx.tiles.len());
    }
    let pre = capture(&old, true, &new);
    let mut block_ids: Vec<Uuid> = Vec::new();
    let mut i: usize = 0;
    while i < plan.results.len()
        invariant
            i <= plan.results.len(),
            p.results == indices(plan.results@),
            all_below(p.results, carry.ids.len() as int),
            block_ids.len() == i,
            forall|k: int|
                0 <= k < i ==> #[trigger] block_ids[k] == carry.ids[plan.results[k] as int],
        decreases plan.results.len() - i,
    {
        assert(p.results[i as int] == plan.results[i as int]);
        block_ids.push(carry.ids[plan.results[i]]);
        i += 1;
    }
    assert(block_ids@ =~= ids_at(carry.ids@, p.results));
    let marker = match plan.marker_to {
        Some(m) => Some(carry.ids[m]),
        None => None,
    };
    let meta = op_meta(plan.op.name(), &plan.extra, marker, &carry, &block_ids);
    Ok(OpWrite { carry, rows, plan: lanes, pre, meta, block_ids })
}

/// An operation keeps the ids outside its edit, and those that it pins: every
/// kept pair has the id in the new note that it had in the old one.
pub proof fn an_operation_keeps_ids(w: OpWrite, ctx: NoteCtx, p: PlanView, fresh: Seq<Uuid>, k: int)
    requires
        ctx.ok(),
        plan_ok(ctx.rows.len() as int, p),
        commit_fault(ctx.parsed.deep_view().doc.blocks, p) is None,
        op_write_is(w, ctx, p, fresh),
        p.probe.doc.blocks.len() <= i32::MAX,
        0 <= k < kept_pairs(ctx.parsed.deep_view().doc.blocks, p).len(),
    ensures
        ({
            let pair = kept_pairs(ctx.parsed.deep_view().doc.blocks, p)[k];
            w.carry.ids@[pair.1] == ctx.rows.deep_view()[pair.0].id
        }),
{
    let old = ctx.parsed.deep_view().doc.blocks;
    let rows = ctx.rows.deep_view();
    assert(ctx.stored().ids() == row_ids(rows));
    assert(old.len() == ctx.rows.len());
    op_carry_keeps_pairs(old, rows, p);
    pairs_are_sound(old, p);
    let pair = kept_pairs(old, p)[k];
    assert(op_carry(old, rows, p).assign[pair.1] == Some(rows[pair.0].id));
}

/// An operation that is not refused changes nothing outside its edit: the blocks
/// outside are as many as before, in the same order, of the same kinds and with
/// the same contents.
pub proof fn nothing_outside_changes(old: Seq<BlockView>, p: PlanView)
    requires
        commit_fault(old, p) is None,
    ensures
        old_rest(old, p).len() == new_rest(p).len(),
        forall|k: int|
            0 <= k < old_rest(old, p).len() ==> same_block(
                old[#[trigger] old_rest(old, p)[k]],
                p.probe.doc.blocks[new_rest(p)[k]],
            ),
{
    outside_alike(old, p.probe.doc.blocks, old_rest(old, p), new_rest(p), 0);
}

/// An operation stores its note: after its writes the tables hold the tiles and
/// the rows of the new parse, every block with an id of its own.
pub proof fn an_operation_stores_the_note(w: OpWrite, ctx: NoteCtx, p: PlanView, fresh: Seq<Uuid>)
    requires
        ctx.ok(),
        plan_ok(ctx.rows.len() as int, p),
        commit_fault(ctx.parsed.deep_view().doc.blocks, p) is None,
        op_write_is(w, ctx, p, fresh),
        p.probe.doc.blocks.len() <= i32::MAX,
        p.probe.tiles.len() <= i32::MAX,
        fresh.len() >= p.probe.doc.blocks.len(),
        unheard_of(fresh, ctx.rows.deep_view()),
    ensures
        w.carry.ids@.len() == p.probe.doc.blocks.len(),
        stored_as(p.probe, ctx.path@, w.carry.ids@).ok(),
        tiles_after(w.plan, ctx.stored()) == tile_table(p.probe.tiles),
        rows_after(w.plan, ctx.stored()) == row_table(rows_of(p.probe, w.carry.ids@)),
{
    let old = ctx.parsed.deep_view().doc.blocks;
    let rows = ctx.rows.deep_view();
    let inp = op_input(old, rows, p);
    assert(ctx.stored().ids() == row_ids(rows));
    assert(old.len() == ctx.rows.len());
    op_carry_keeps_pairs(old, rows, p);
    a_plan_stores_the_note(
        w.plan,
        w.carry,
        inp,
        op_carry(old, rows, p),
        ctx.stored(),
        p.probe,
        ctx.path@,
        ctx.edges@,
        ctx.tags@,
        fresh,
    );
}

/// An operation can be taken back: what it records rewinds the state it leaves to
/// the state it replaced.
pub proof fn an_operation_can_be_taken_back(
    w: OpWrite,
    ctx: NoteCtx,
    p: PlanView,
    fresh: Seq<Uuid>,
)
    requires
        ctx.ok(),
        plan_ok(ctx.rows.len() as int, p),
        commit_fault(ctx.parsed.deep_view().doc.blocks, p) is None,
        op_write_is(w, ctx, p, fresh),
        p.probe.doc.blocks.len() <= i32::MAX,
        p.probe.tiles.len() <= i32::MAX,
        fresh.len() >= p.probe.doc.blocks.len(),
        unheard_of(fresh, ctx.rows.deep_view()),
    ensures
        rewound(stored_as(p.probe, ctx.path@, w.carry.ids@).state(), w.pre.deep_view()) == Some(
            ctx.stored().state(),
        ),
{
    an_operation_stores_the_note(w, ctx, p, fresh);
    rewind_undoes(ctx.stored(), stored_as(p.probe, ctx.path@, w.carry.ids@));
}

proof fn seeded_spares(inp: InputView, pairs: Seq<(int, int)>, n: int, o: int)
    requires
        0 <= n <= pairs.len(),
        0 <= o < inp.old.len(),
        forall|k: int|
            0 <= k < pairs.len() ==> 0 <= (#[trigger] pairs[k]).0 < inp.old.len() && pairs[k].0 != o,
    ensures
        seeded(inp, pairs, n).old_used.len() == inp.old.len(),
        !seeded(inp, pairs, n).old_used[o],
    decreases n,
{
    if n > 0 {
        seeded_spares(inp, pairs, n - 1, o);
        assert(0 <= pairs[n - 1].0 < inp.old.len() && pairs[n - 1].0 != o);
    }
}

proof fn replaced_is_not_outside(region: (int, int), pins: Seq<(int, int)>, n: int, m: int)
    requires
        region.0 <= m < region.1,
    ensures
        forall|k: int|
            0 <= k < old_outside(Some(region), pins, n).len() ==> #[trigger] old_outside(
                Some(region),
                pins,
                n,
            )[k] != m,
    decreases n,
{
    if n > 0 {
        replaced_is_not_outside(region, pins, n - 1, m);
        let a = old_outside(Some(region), pins, n - 1);
        let b = old_outside(Some(region), pins, n);
        assert forall|k: int| 0 <= k < b.len() implies #[trigger] b[k] != m by {
            if k < a.len() {
                assert(b[k] == a[k]);
            }
        }
    }
}

/// What an operation replaces is gone: the id of a replaced block that is not pinned
/// and that no id is carried from is in the new note no more.
pub proof fn what_is_replaced_is_gone(
    w: OpWrite,
    ctx: NoteCtx,
    p: PlanView,
    fresh: Seq<Uuid>,
    m: int,
)
    requires
        ctx.ok(),
        plan_ok(ctx.rows.len() as int, p),
        commit_fault(ctx.parsed.deep_view().doc.blocks, p) is None,
        op_write_is(w, ctx, p, fresh),
        p.probe.doc.blocks.len() <= i32::MAX,
        fresh.len() >= p.probe.doc.blocks.len(),
        unheard_of(fresh, ctx.rows.deep_view()),
        0 <= m < ctx.rows.len(),
        p.old_region matches Some(r) && r.0 <= m < r.1,
        !pinned_old(p.pins, m),
        p.scoped matches Some((o, _)) ==> !(o.0 <= m < o.1),
    ensures
        !w.carry.ids@.contains(ctx.rows.deep_view()[m].id),
{
    let old = ctx.parsed.deep_view().doc.blocks;
    let rows = ctx.rows.deep_view();
    let inp = op_input(old, rows, p);
    assert(ctx.stored().ids() == row_ids(rows));
    assert(old.len() == ctx.rows.len());
    op_carry_keeps_pairs(old, rows, p);
    let pairs = kept_pairs(old, p);
    let rest = old_rest(old, p);
    replaced_is_not_outside(p.old_region->0, p.pins, old.len() as int, m);
    pairs_are_sound(old, p);
    assert forall|k: int| 0 <= k < pairs.len() implies 0 <= (#[trigger] pairs[k]).0 < old.len()
        && pairs[k].0 != m by {
        if k < rest.len() {
            assert(pairs[k].0 == rest[k]);
        } else {
            assert(pairs[k] == p.pins[k - rest.len()]);
        }
    }
    seeded_spares(inp, pairs, pairs.len() as int, m);
    let st = seeded(inp, pairs, pairs.len() as int);
    if let Some((o, n)) = p.scoped {
        let a = range_seq(o.0, o.1);
        assert forall|k: int| 0 <= k < a.len() implies #[trigger] a[k] != m by {
            assert(a[k] == (o.0 + k) as usize);
        }
        scoped_spares(inp, a, range_seq(n.0, n.1), st, m);
    }
    assert(inp.old_ids[m] == rows[m].id);
    if fresh.contains(rows[m].id) {
        let i = choose|i: int| 0 <= i < fresh.len() && fresh[i] == rows[m].id;
        assert(fresh[i] != rows[m].id);
    }
    what_is_not_carried_is_gone(inp, op_carry(old, rows, p), fresh, m);
}

proof fn seeded_passes_by(inp: InputView, pairs: Seq<(int, int)>, n: int, i: int)
    requires
        0 <= n <= pairs.len(),
        0 <= i < inp.new.len(),
        forall|k: int|
            0 <= k < pairs.len() ==> 0 <= (#[trigger] pairs[k]).1 < inp.new.len() && pairs[k].1 != i,
    ensures
        seeded(inp, pairs, n).assign.len() == inp.new.len(),
        seeded(inp, pairs, n).assign[i] is None,
    decreases n,
{
    if n > 0 {
        seeded_passes_by(inp, pairs, n - 1, i);
        assert(0 <= pairs[n - 1].1 < inp.new.len() && pairs[n - 1].1 != i);
    }
}

proof fn edited_is_not_outside(
    blocks: Seq<BlockView>,
    edit: (int, int),
    pins: Seq<(int, int)>,
    n: int,
    i: int,
)
    requires
        0 <= i < blocks.len(),
        blocks[i].span.end > edit.0,
        blocks[i].span.start < edit.1,
    ensures
        forall|k: int|
            0 <= k < new_outside(blocks, Some(edit), pins, n).len() ==> #[trigger] new_outside(
                blocks,
                Some(edit),
                pins,
                n,
            )[k] != i,
    decreases n,
{
    if n > 0 {
        edited_is_not_outside(blocks, edit, pins, n - 1, i);
        let a = new_outside(blocks, Some(edit), pins, n - 1);
        let b = new_outside(blocks, Some(edit), pins, n);
        assert forall|k: int| 0 <= k < b.len() implies #[trigger] b[k] != i by {
            if k < a.len() {
                assert(b[k] == a[k]);
            }
        }
    }
}

/// What an operation adds is minted: a block in its edit that is not pinned, and that no
/// id is carried to, gets an id that is new.
pub proof fn what_is_added_is_minted(
    w: OpWrite,
    ctx: NoteCtx,
    p: PlanView,
    fresh: Seq<Uuid>,
    i: int,
)
    requires
        ctx.ok(),
        plan_ok(ctx.rows.len() as int, p),
        commit_fault(ctx.parsed.deep_view().doc.blocks, p) is None,
        op_write_is(w, ctx, p, fresh),
        p.probe.doc.blocks.len() <= i32::MAX,
        fresh.len() >= p.probe.doc.blocks.len(),
        0 <= i < p.probe.doc.blocks.len(),
        p.edit_range matches Some(e) && p.probe.doc.blocks[i].span.end > e.0
            && p.probe.doc.blocks[i].span.start < e.1,
        !pinned_new(p.pins, i),
        p.scoped matches Some((_, n)) ==> !(n.0 <= i < n.1),
    ensures
        fresh.contains(w.carry.ids@[i]),
{
    let old = ctx.parsed.deep_view().doc.blocks;
    let rows = ctx.rows.deep_view();
    let inp = op_input(old, rows, p);
    assert(ctx.stored().ids() == row_ids(rows));
    assert(old.len() == ctx.rows.len());
    op_carry_keeps_pairs(old, rows, p);
    pairs_are_sound(old, p);
    let pairs = kept_pairs(old, p);
    let rest = new_rest(p);
    edited_is_not_outside(
        p.probe.doc.blocks,
        p.edit_range->0,
        p.pins,
        p.probe.doc.blocks.len() as int,
        i,
    );
    assert forall|k: int| 0 <= k < pairs.len() implies 0 <= (#[trigger] pairs[k]).1
        < inp.new.len() && pairs[k].1 != i by {
        if k < rest.len() {
            assert(pairs[k].1 == rest[k]);
        } else {
            assert(pairs[k] == p.pins[k - rest.len()]);
        }
    }
    seeded_passes_by(inp, pairs, pairs.len() as int, i);
    let st = seeded(inp, pairs, pairs.len() as int);
    if let Some((o, n)) = p.scoped {
        let b = range_seq(n.0, n.1);
        assert forall|k: int| 0 <= k < b.len() implies #[trigger] b[k] != i by {
            assert(b[k] == (n.0 + k) as usize);
        }
        scoped_passes_by(inp, range_seq(o.0, o.1), b, st, i);
    }
    let done = op_carry(old, rows, p);
    assert(done.assign[i] is None);
    open_slots_bound(done.assign, i);
    assert(w.carry.ids@[i] == fresh[open_slots(done.assign, i) as int]);
}

} // verus!
