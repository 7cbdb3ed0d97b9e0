//! The checker of a note's history: it must be whole above the retention floor,
//! and reconstruct wherever it is probed.

use vstd::prelude::*;
use vstd::string::*;
use vstd::utf8::*;

use crate::parse::{document, parse};
use crate::state::{StateAt, StateView};
use crate::text::concat;

verus! {

/// What is counted of a note's history.
#[derive(Debug, Clone, Copy)]
pub struct HistoryCounts {
    /// The sequence number of the head; below zero if it has none.
    pub head: i64,
    pub floor: i64,
    /// Revisions at the floor or above it.
    pub revisions: i64,
    /// Recorded pre-images at the floor or above it.
    pub recorded: i64,
    /// Snapshots at the floor.
    pub floor_frames: i64,
}

/// What is wrong with a note's history.
#[derive(Debug, Clone, Copy, PartialEq, Eq)]
pub enum HistoryFault {
    NoHead,
    /// There is not one revision for each sequence number above the floor.
    NotDense { revisions: i64, floor: i64, head: i64 },
    /// Revisions and pre-images are not as many.
    Missing { revisions: i64, recorded: i64 },
    NoFloorFrame { floor: i64 },
    /// A reconstructed state has vectors of different lengths.
    Vectors { seq: i64, ids: usize, places: usize, heads: usize },
    /// Reconstructed bytes parse to another number of blocks.
    BlockCount { seq: i64, parsed: usize, ids: usize },
    /// A block's place is outside its tile.
    OutsideTile { seq: i64, block: usize, place: (i32, i32, i32) },
}

pub open spec fn one_if(cond: bool, f: HistoryFault) -> Seq<HistoryFault> {
    if cond {
        seq![f]
    } else {
        Seq::empty()
    }
}

/// What the counts show: the history is dense and gapless above the floor, every
/// revision there has its pre-image, and a raised floor has its snapshot.
pub open spec fn count_faults(c: HistoryCounts) -> Seq<HistoryFault> {
    if c.head < 0 {
        seq![HistoryFault::NoHead]
    } else {
        one_if(
            c.revisions != c.head - c.floor + 1,
            HistoryFault::NotDense { revisions: c.revisions, floor: c.floor, head: c.head },
        ) + one_if(
            c.recorded != c.revisions,
            HistoryFault::Missing { revisions: c.revisions, recorded: c.recorded },
        ) + one_if(
            c.floor > 0 && c.floor_frames != 1,
            HistoryFault::NoFloorFrame { floor: c.floor },
        )
    }
}

fn push_one(out: &mut Vec<HistoryFault>, cond: bool, f: HistoryFault)
    ensures
        final(out)@ == old(out)@ + one_if(cond, f),
{
    if cond {
        out.push(f);
        assert(out@ =~= old(out)@ + seq![f]);
    } else {
        assert(out@ =~= old(out)@ + Seq::<HistoryFault>::empty());
    }
}

/// What the counts show.
pub fn check_counts(c: &HistoryCounts) -> (r: Vec<HistoryFault>)
    ensures
        r@ == count_faults(*c),
{
    let mut out: Vec<HistoryFault> = Vec::new();
    if c.head < 0 {
        out.push(HistoryFault::NoHead);
        assert(out@ =~= seq![HistoryFault::NoHead]);
        return out;
    }
    let expected: i128 = c.head as i128 - c.floor as i128 + 1;
    let sparse = c.revisions as i128 != expected;
    push_one(
        &mut out,
        sparse,
        HistoryFault::NotDense { revisions: c.revisions, floor: c.floor, head: c.head },
    );
    assert(out@ =~= one_if(
        sparse,
        HistoryFault::NotDense { revisions: c.revisions, floor: c.floor, head: c.head },
    ));
    push_one(
        &mut out,
        c.recorded != c.revisions,
        HistoryFault::Missing { revisions: c.revisions, recorded: c.recorded },
    );
    push_one(
        &mut out,
        c.floor > 0 && c.floor_frames != 1,
        HistoryFault::NoFloorFrame { floor: c.floor },
    );
    out
}

// ---- probes ----

/// The distance between probes.
pub open spec fn probe_step(floor: int, head: int) -> int {
    let step = (head - floor) / 20;
    if step < 1 {
        1
    } else {
        step
    }
}

/// The revisions that a history is probed at: the floor, the head, the newest
/// snapshot, and some twenty in between, at equal distances.
pub open spec fn is_probe(floor: i64, head: i64, frame: Option<i64>, s: i64) -> bool {
    ||| s == floor
    ||| s == head
    ||| frame == Some(s)
    ||| exists|k: nat|
        s < head && s == floor + #[trigger] (k * probe_step(floor as int, head as int))
}

pub open spec fn strictly_up(v: Seq<i64>) -> bool {
    forall|i: int, j: int| 0 <= i < j < v.len() ==> #[trigger] v[i] < #[trigger] v[j]
}

fn insert_seq(v: &mut Vec<i64>, x: i64)
    requires
        strictly_up(old(v)@),
    ensures
        strictly_up(final(v)@),
        forall|y: i64| #[trigger] final(v)@.contains(y) <==> old(v)@.contains(y) || y == x,
{
    let ghost before = v@;
    let mut i: usize = 0;
    while i < v.len() && v[i] < x
        invariant
            i <= v.len(),
            v@ == before,
            forall|j: int| 0 <= j < i ==> #[trigger] before[j] < x,
        decreases v.len() - i,
    {
        i += 1;
    }
    if i < v.len() && v[i] == x {
        proof {
            assert(before[i as int] == x);
        }
        return;
    }
    v.insert(i, x);
    proof {
        let after = v@;
        assert forall|a: int, b: int| 0 <= a < b < after.len() implies #[trigger] after[a]
            < #[trigger] after[b] by {
            if a < i {
                assert(after[a] == before[a]);
            } else if a > i {
                assert(after[a] == before[a - 1]);
            }
            if b < i {
                assert(after[b] == before[b]);
            } else if b > i {
                assert(after[b] == before[b - 1]);
                if a == i {
                    assert(before[i as int] <= before[b - 1]);
                }
            }
        }
        assert forall|y: i64| #[trigger] after.contains(y) <==> before.contains(y) || y == x by {
            if before.contains(y) {
                let k = choose|k: int| 0 <= k < before.len() && before[k] == y;
                if k < i {
                    assert(after[k] == y);
                } else {
                    assert(after[k + 1] == y);
                }
            }
            if y == x {
                assert(after[i as int] == y);
            }
            if after.contains(y) && y != x {
                let k = choose|k: int| 0 <= k < after.len() && after[k] == y;
                if k < i {
                    assert(before[k] == y);
                } else {
                    assert(before[k - 1] == y);
                }
            }
        }
    }
}

/// The revisions to probe, ascending and each once.
pub fn probes(floor: i64, head: i64, frame: Option<i64>) -> (r: Vec<i64>)
    ensures
        strictly_up(r@),
        forall|s: i64| #[trigger] r@.contains(s) <==> is_probe(floor, head, frame, s),
{
    let mut out: Vec<i64> = Vec::new();
    insert_seq(&mut out, floor);
    insert_seq(&mut out, head);
    if let Some(f) = frame {
        insert_seq(&mut out, f);
    }
    let ghost base = out@;
    let span: i128 = head as i128 - floor as i128;
    let step: i128 = if span / 20 < 1 {
        1
    } else {
        span / 20
    };
    let ghost st = probe_step(floor as int, head as int);
    proof {
        assert(span > 0 ==> step == st);
        assert(0 * st == 0) by (nonlinear_arith);
    }
    let mut s: i128 = floor as i128;
    let ghost mut k: nat = 0;
    while s < head as i128
        invariant
            span == head - floor,
            span > 0 ==> step == st,
            st == probe_step(floor as int, head as int),
            step >= 1,
            step <= 0x1_0000_0000_0000_0000,
            s == floor + k * step,
            floor <= s <= head + step || span <= 0,
            span <= 0 ==> k == 0 && s == floor,
            strictly_up(out@),
            forall|y: i64| #[trigger]
                out@.contains(y) <==> base.contains(y) || exists|j: nat|
                    j < k && y < head && y == floor + #[trigger] (j * step),
        decreases
                (if s < head {
                    head - s
                } else {
                    0
                }),
    {
        let ghost before = out@;
        insert_seq(&mut out, s as i64);
        proof {
            let at = s as i64;
            assert(at == floor + k * step);
            assert forall|y: i64| #[trigger]
                out@.contains(y) <==> base.contains(y) || exists|j: nat|
                    j < k + 1 && y < head && y == floor + #[trigger] (j * step) by {
                if exists|j: nat| j < k + 1 && y < head && y == floor + #[trigger] (j * step) {
                    let j = choose|j: nat|
                        j < k + 1 && y < head && y == floor + #[trigger] (j * step);
                    if j < k {
                        assert(before.contains(y));
                    } else {
                        assert(y == at);
                    }
                }
                if before.contains(y) && !base.contains(y) {
                    let j = choose|j: nat| j < k && y < head && y == floor + #[trigger] (j * step);
                    assert(j < k + 1 && y == floor + j * step);
                }
                if y == at {
                    assert(k < k + 1 && y < head && y == floor + k * step);
                }
            }
            assert((k + 1) * step == k * step + step) by (nonlinear_arith);
            k = k + 1;
        }
        s = s + step;
    }
    proof {
        assert forall|y: i64| #[trigger] out@.contains(y) <==> is_probe(floor, head, frame, y) by {
            if exists|j: nat| y < head && y == floor + #[trigger] (j * st) {
                let j = choose|j: nat| y < head && y == floor + #[trigger] (j * st);
                if span > 0 {
                    if j >= k {
                        assert(j * st >= k * st) by (nonlinear_arith)
                            requires
                                j >= k,
                                st >= 1,
                        ;
                    }
                    assert(y == floor + j * step);
                } else {
                    assert(j * st >= 0) by (nonlinear_arith)
                        requires
                            j >= 0,
                            st >= 1,
                    ;
                }
            }
            if out@.contains(y) && !base.contains(y) {
                let j = choose|j: nat| j < k && y < head && y == floor + #[trigger] (j * step);
                assert(y == floor + j * st);
            }
        }
    }
    out
}

// ---- a reconstructed state ----

/// The place lies in its tile.
pub open spec fn place_fits(tiles: Seq<Seq<char>>, p: (i32, i32, i32)) -> bool {
    0 <= p.0 < tiles.len() && 0 <= p.1 <= p.2 <= encode_utf8(tiles[p.0 as int]).len()
}

/// The first block from `i` on whose place is outside its tile.
pub open spec fn first_outside(tiles: Seq<Seq<char>>, place: Seq<(i32, i32, i32)>, i: int) -> Option<
    int,
>
    decreases place.len() - i,
{
    if i < 0 || i >= place.len() {
        None
    } else if !place_fits(tiles, place[i]) {
        Some(i)
    } else {
        first_outside(tiles, place, i + 1)
    }
}

/// What is wrong with a reconstructed state.
pub open spec fn state_faults(seq: i64, s: StateView) -> Seq<HistoryFault> {
    let parsed = document(s.preamble + concat(s.tiles)).blocks.len();
    if s.ids.len() != s.place.len() || s.ids.len() != s.heads.len() {
        seq![
            HistoryFault::Vectors {
                seq,
                ids: s.ids.len() as usize,
                places: s.place.len() as usize,
                heads: s.heads.len() as usize,
            },
        ]
    } else {
        one_if(
            parsed != s.ids.len(),
            HistoryFault::BlockCount { seq, parsed: parsed as usize, ids: s.ids.len() as usize },
        ) + (match first_outside(s.tiles, s.place, 0) {
            Some(i) => seq![
                HistoryFault::OutsideTile { seq, block: i as usize, place: s.place[i] },
            ],
            None => Seq::empty(),
        })
    }
}

fn find_outside(tiles: &Vec<String>, place: &Vec<(i32, i32, i32)>) -> (r: Option<usize>)
    ensures
        first_outside(tiles.deep_view(), place@, 0) == (match r {
            Some(i) => Some(i as int),
            None => None,
        }),
        r matches Some(i) ==> i < place.len(),
{
    let ghost tv = tiles.deep_view();
    let mut i: usize = 0;
    while i < place.len()
        invariant
            i <= place.len(),
            tv == tiles.deep_view(),
            first_outside(tv, place@, 0) == first_outside(tv, place@, i as int),
        decreases place.len() - i,
    {
        let (t, s, e) = place[i];
        let fits = if t < 0 || t as usize >= tiles.len() || s < 0 || e < s {
            false
        } else {
            assert(tv[t as int] == tiles[t as int]@);
            e as usize <= tiles[t as usize].as_str().as_bytes().len()
        };
        if !fits {
            return Some(i);
        }
        i += 1;
    }
    None
}

/// Checks a reconstructed state: parsing is no way to reconstruct, but it is one
/// to check.
pub fn check_state(seq: i64, s: &StateAt) -> (r: Vec<HistoryFault>)
    ensures
        r@ == state_faults(seq, s.deep_view()),
{
    let mut out: Vec<HistoryFault> = Vec::new();
    let ghost v = s.deep_view();
    assert(v.heads.len() == s.heads.len());
    if s.ids.len() != s.place.len() || s.ids.len() != s.heads.len() {
        let f = HistoryFault::Vectors {
            seq,
            ids: s.ids.len(),
            places: s.place.len(),
            heads: s.heads.len(),
        };
        out.push(f);
        assert(out@ =~= seq![f]);
        return out;
    }
    let source = s.source();
    let doc = parse(source.as_str());
    assert(doc.deep_view().blocks.len() == doc.blocks.len());
    let f = HistoryFault::BlockCount { seq, parsed: doc.blocks.len(), ids: s.ids.len() };
    push_one(&mut out, doc.blocks.len() != s.ids.len(), f);
    assert(out@ =~= one_if(doc.blocks.len() != s.ids.len(), f));
    let ghost before = out@;
    match find_outside(&s.tiles, &s.place) {
        Some(i) => {
            let g = HistoryFault::OutsideTile { seq, block: i, place: s.place[i] };
            out.push(g);
            assert(out@ =~= before + seq![g]);
        },
        None => {
            assert(out@ =~= before + Seq::<HistoryFault>::empty());
        },
    }
    out
}

/// The states that the probes gave: a history is healthy if its counts are and
/// every probed state is.
pub open spec fn probed_faults(states: Seq<(i64, StateView)>, n: int) -> Seq<HistoryFault>
    decreases n,
{
    if n <= 0 {
        Seq::empty()
    } else {
        probed_faults(states, n - 1) + state_faults(states[n - 1].0, states[n - 1].1)
    }
}

pub open spec fn probed_views(v: Seq<(i64, StateAt)>) -> Seq<(i64, StateView)> {
    Seq::new(v.len(), |i: int| (v[i].0, v[i].1.deep_view()))
}

/// Checks a note's history: its counts, and the states that were reconstructed at
/// the probes. A history without a head has nothing more to check.
pub fn verify_history(c: &HistoryCounts, states: &Vec<(i64, StateAt)>) -> (r: Vec<HistoryFault>)
    ensures
        r@ == (if c.head < 0 {
            count_faults(*c)
        } else {
            count_faults(*c) + probed_faults(probed_views(states@), states.len() as int)
        }),
{
    let mut out = check_counts(c);
    if c.head < 0 {
        return out;
    }
    let ghost first = out@;
    let ghost v = probed_views(states@);
    let mut i: usize = 0;
    proof {
        assert(out@ =~= first + Seq::<HistoryFault>::empty());
    }
    while i < states.len()
        invariant
            i <= states.len(),
            v == probed_views(states@),
            out@ == first + probed_faults(v, i as int),
        decreases states.len() - i,
    {
        let mut found = check_state(states[i].0, &states[i].1);
        assert(v[i as int] == (states[i as int].0, states[i as int].1.deep_view()));
        let ghost f = found@;
        out.append(&mut found);
        assert(out@ =~= first + (probed_faults(v, i as int) + f));
        i += 1;
    }
    out
}

/// The floor and the head are always probed, and so is the newest snapshot.
pub proof fn the_ends_are_probed(floor: i64, head: i64, frame: Option<i64>)
    ensures
        is_probe(floor, head, frame, floor),
        is_probe(floor, head, frame, head),
        frame matches Some(f) ==> is_probe(floor, head, frame, f),
{
}

/// The counts of a history show nothing exactly if it has a head, a revision for every
/// number from its floor to its head, a pre-image for each, and, where the floor was
/// raised, one snapshot there.
pub proof fn a_sound_history_shows_nothing(c: HistoryCounts)
    ensures
        count_faults(c).len() == 0 <==> c.head >= 0 && c.revisions == c.head - c.floor + 1
            && c.recorded == c.revisions && (c.floor > 0 ==> c.floor_frames == 1),
        c.head < 0 ==> count_faults(c) == seq![HistoryFault::NoHead],
{
}

} // verus!
