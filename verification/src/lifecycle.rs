//! Deleting, undeleting and moving whole notes.

use vstd::prelude::*;
use vstd::string::*;

use crate::errors::Pm;
use crate::history::{
    capture, captured, mint_effects, moved_heads, moved_places, old_effects, position,
    position_facts, PreImage, StoredNote,
};
use crate::ids::Uuid;
use crate::json::{Json, JsonView};
use crate::path::{path_is_valid, path_normalize, valid_path};
use crate::reconcile::distinct;
use crate::state::Stored;
use crate::store::{cas_check, stale, BlockRow, RowView, StaleHead};
use crate::text::{nfc, str_eq, trimmed};
use crate::timetravel::{rewind_undoes, rewound};

verus! {

/// Why a note is not deleted, undeleted or moved.
#[derive(Debug, Clone, Copy, PartialEq, Eq, Structural)]
pub enum LifecycleFault {
    InvalidPath,
    /// The note has another path by now.
    Renamed,
    Stale(StaleHead),
    PathTaken,
    /// No deleted note has that path.
    NotDeleted,
    /// There is no revision before the deletion.
    NothingBefore,
}

impl LifecycleFault {
    pub open spec fn pm(self) -> Pm {
        match self {
            LifecycleFault::InvalidPath => Pm::InvalidPath,
            LifecycleFault::Renamed => Pm::NoteNotFound,
            LifecycleFault::Stale(_) => Pm::StaleHead,
            LifecycleFault::PathTaken => Pm::PathTaken,
            LifecycleFault::NotDeleted => Pm::NoteNotFound,
            LifecycleFault::NothingBefore => Pm::HistoryUnavailable,
        }
    }

    pub open spec fn text(self) -> Seq<char> {
        match self {
            LifecycleFault::InvalidPath => "invalid note path"@,
            LifecycleFault::Renamed => "note was renamed by a concurrent transaction"@,
            LifecycleFault::Stale(_) => "expected_head is not the note's current head"@,
            LifecycleFault::PathTaken => "a live note already occupies that path"@,
            LifecycleFault::NotDeleted => "no deleted note at that path"@,
            LifecycleFault::NothingBefore => "the note has no revision before its deletion"@,
        }
    }

    /// The error that the fault raises.
    pub fn code(self) -> (r: Pm)
        ensures
            r == self.pm(),
    {
        match self {
            LifecycleFault::InvalidPath => Pm::InvalidPath,
            LifecycleFault::Renamed => Pm::NoteNotFound,
            LifecycleFault::Stale(_) => Pm::StaleHead,
            LifecycleFault::PathTaken => Pm::PathTaken,
            LifecycleFault::NotDeleted => Pm::NoteNotFound,
            LifecycleFault::NothingBefore => Pm::HistoryUnavailable,
        }
    }

    /// The message that the fault raises.
    pub fn message(self) -> (r: &'static str)
        ensures
            r@ == self.text(),
    {
        match self {
            LifecycleFault::InvalidPath => "invalid note path",
            LifecycleFault::Renamed => "note was renamed by a concurrent transaction",
            LifecycleFault::Stale(_) => "expected_head is not the note's current head",
            LifecycleFault::PathTaken => "a live note already occupies that path",
            LifecycleFault::NotDeleted => "no deleted note at that path",
            LifecycleFault::NothingBefore => "the note has no revision before its deletion",
        }
    }
}

/// Why a note that was found at a path, and then locked, may not be changed.
pub open spec fn lock_fault(
    path: Seq<char>,
    locked: Seq<char>,
    expected: Option<Uuid>,
    head: Uuid,
) -> Option<LifecycleFault> {
    if locked != path {
        Some(LifecycleFault::Renamed)
    } else if stale(expected, head) {
        Some(LifecycleFault::Stale(StaleHead { expected: expected->0, observed: head }))
    } else {
        None
    }
}

/// Checks a note under its lock: it still has its path, and the head that was
/// expected.
pub fn check_locked(path: &str, locked: &str, expected: Option<Uuid>, head: Uuid) -> (r: Option<
    LifecycleFault,
>)
    ensures
        r == lock_fault(path@, locked@, expected, head),
{
    if !str_eq(locked, path) {
        return Some(LifecycleFault::Renamed);
    }
    match cas_check(expected, head) {
        Ok(_) => None,
        Err(e) => Some(LifecycleFault::Stale(e)),
    }
}

/// What is left of a note that is deleted: its path.
pub open spec fn deleted(old: Stored) -> Stored {
    Stored {
        path: old.path,
        preamble: ""@,
        props: JsonView::Object(Seq::empty()),
        tiles: Seq::empty(),
        rows: Seq::empty(),
    }
}

/// What a deletion records: the whole note.
pub fn delete_note(old: &StoredNote) -> (r: PreImage)
    requires
        old.rows.len() <= i32::MAX,
        old.tiles.len() <= i32::MAX,
    ensures
        r.deep_view() == captured(old.deep_view(), true, deleted(old.deep_view())),
{
    let props = Json::Object(Vec::new());
    let tiles: Vec<String> = Vec::new();
    let rows: Vec<BlockRow> = Vec::new();
    proof {
        assert(props@ == JsonView::Object(Seq::empty()));
        assert(tiles.deep_view() =~= Seq::empty());
        assert(rows.deep_view() =~= Seq::empty());
    }
    let new = StoredNote { path: old.path, preamble: "", props: &props, tiles: &tiles, rows: &rows };
    capture(old, true, &new)
}

/// A deletion can be undone: what it records gives back the whole note.
pub proof fn a_deletion_can_be_undone(old: Stored)
    requires
        old.ok(),
    ensures
        rewound(deleted(old).state(), captured(old, true, deleted(old))) == Some(old.state()),
{
    assert(deleted(old).ids() =~= Seq::empty());
    rewind_undoes(old, deleted(old));
}

/// The revision that an undeletion goes back to: the one before the deletion.
/// `found` is the sequence number of the deleted note's head, if there is such a
/// note; `taken` whether a live note has the path.
pub fn undelete_note(taken: bool, found: Option<i64>) -> (r: Result<i64, LifecycleFault>)
    requires
        found matches Some(h) ==> h >= 0,
    ensures
        r == (if taken {
            Err::<i64, LifecycleFault>(LifecycleFault::PathTaken)
        } else {
            match found {
                None => Err::<i64, LifecycleFault>(LifecycleFault::NotDeleted),
                Some(h) => if h == 0 {
                    Err::<i64, LifecycleFault>(LifecycleFault::NothingBefore)
                } else {
                    Ok::<i64, LifecycleFault>((h - 1) as i64)
                },
            }
        }),
{
    if taken {
        return Err(LifecycleFault::PathTaken);
    }
    match found {
        None => Err(LifecycleFault::NotDeleted),
        Some(h) => if h == 0 {
            Err(LifecycleFault::NothingBefore)
        } else {
            Ok(h - 1)
        },
    }
}

/// Two names in the order in which they are locked, so that two moves cannot wait
/// for each other.
pub fn lock_order<'a>(a: &'a str, b: &'a str) -> (r: (&'a str, &'a str))
    ensures
        crate::json::text_less(b@, a@) ==> r.0@ == b@ && r.1@ == a@,
        !crate::json::text_less(b@, a@) ==> r.0@ == a@ && r.1@ == b@,
{
    if crate::json::text_before(b, a) {
        (b, a)
    } else {
        (a, b)
    }
}

/// Two moves lock their names in one order, whichever way round they name them.
pub proof fn locks_are_taken_in_one_order(a: Seq<char>, b: Seq<char>)
    ensures
        a != b ==> crate::json::text_less(a, b) != crate::json::text_less(b, a),
{
    crate::extraction::text_less_order(a, b, a);
    crate::extraction::text_less_order(b, a, b);
}

/// The path that a move leads to, or why the note is not moved.
pub open spec fn move_target(
    path: Seq<char>,
    new_path: Seq<char>,
    locked: Seq<char>,
    expected: Option<Uuid>,
    head: Uuid,
    taken: bool,
) -> Result<Seq<char>, LifecycleFault> {
    let target = nfc(trimmed(new_path));
    if !valid_path(target) {
        Err(LifecycleFault::InvalidPath)
    } else if lock_fault(path, locked, expected, head) is Some {
        Err(lock_fault(path, locked, expected, head)->0)
    } else if target != path && taken {
        Err(LifecycleFault::PathTaken)
    } else {
        Ok(target)
    }
}

/// The path that a move leads to. `taken` says whether a live note has it.
pub fn move_note(
    path: &str,
    new_path: &str,
    locked: &str,
    expected: Option<Uuid>,
    head: Uuid,
    taken: bool,
) -> (r: Result<String, LifecycleFault>)
    ensures
        move_target(path@, new_path@, locked@, expected, head, taken) == (match r {
            Ok(t) => Ok::<Seq<char>, LifecycleFault>(t@),
            Err(f) => Err::<Seq<char>, LifecycleFault>(f),
        }),
{
    let target = path_normalize(new_path);
    if !path_is_valid(target.as_str()) {
        return Err(LifecycleFault::InvalidPath);
    }
    if let Some(f) = check_locked(path, locked, expected, head) {
        return Err(f);
    }
    if !str_eq(target.as_str(), path) && taken {
        return Err(LifecycleFault::PathTaken);
    }
    Ok(target)
}

proof fn nothing_moved(rows: Seq<RowView>, n: int)
    requires
        distinct(rows),
        0 <= n <= rows.len(),
    ensures
        moved_places(rows, rows, n).len() == 0,
        moved_heads(rows, rows, n).len() == 0,
        mint_effects(rows, rows, n).len() == 0,
        old_effects(rows, rows, n).len() == 0,
    decreases n,
{
    if n > 0 {
        nothing_moved(rows, n - 1);
        position_facts(rows, rows[n - 1].id, 0);
        let k = position(rows, rows[n - 1].id, 0)->0;
        if k < n - 1 {
            assert(rows[k].id != rows[n - 1].id);
        } else if k > n - 1 {
            assert(rows[n - 1].id != rows[k].id);
        }
        assert(k == n - 1);
    }
}

/// A move touches no block: all that it records is the path.
pub proof fn a_move_records_only_the_path(old: Stored, target: Seq<char>)
    requires
        old.ok(),
    ensures
        ({
            let pre = captured(old, true, Stored { path: target, ..old });
            &&& pre.prev_path == (if old.path != target {
                Some(old.path)
            } else {
                None
            })
            &&& pre.prev_preamble is None
            &&& pre.prev_props is None
            &&& pre.effects.len() == 0
            &&& pre.place_idx.len() == 0
            &&& pre.head_idx.len() == 0
        }),
{
    assert forall|a: int, b: int| 0 <= a < b < old.rows.len() implies (#[trigger] old.rows[a]).id
        != (#[trigger] old.rows[b]).id by {
        assert(old.ids()[a] != old.ids()[b]);
    }
    nothing_moved(old.rows, old.rows.len() as int);
}

/// A note is moved to the path it was asked to, in its normal form; never over a live
/// note, never if it was renamed meanwhile or its head is not the expected one, and never
/// to what is no path. Moving it to where it is is no fault.
pub proof fn a_move_never_overwrites(
    path: Seq<char>,
    new_path: Seq<char>,
    locked: Seq<char>,
    expected: Option<Uuid>,
    head: Uuid,
    taken: bool,
)
    ensures
        ({
            let target = nfc(trimmed(new_path));
            match move_target(path, new_path, locked, expected, head, taken) {
                Ok(t) => t == target && valid_path(target) && locked == path && (expected is Some
                    ==> expected->0 == head) && (taken ==> target == path),
                Err(LifecycleFault::InvalidPath) => !valid_path(target),
                Err(LifecycleFault::Renamed) => locked != path,
                Err(LifecycleFault::Stale(s)) => expected == Some(s.expected) && s.observed == head
                    && s.expected != head,
                Err(LifecycleFault::PathTaken) => taken && target != path,
                Err(_) => false,
            }
        }),
{
}

} // verus!
