//! Stored rows, link resolution, and the guards that compare what a caller
//! expects with what is stored.

use vstd::prelude::*;
use vstd::string::*;
use vstd::utf8::*;

use crate::document::opt_text;
use crate::ids::{default_vault, parse_uuid, uuid_of, Uuid};
use crate::json::{Json, JsonView};
use crate::path::{basename, path_is_valid, valid_path};
use crate::text::{concat, concat_all, split, str_eq, to_chars, trim, trimmed};
use crate::vault::starts_with_caret;

verus! {

/// A note's row.
#[derive(Debug)]
pub struct NoteRow {
    pub id: Uuid,
    pub vault_id: Uuid,
    pub head_revision: Uuid,
    pub preamble: String,
    pub tombstoned: bool,
}

/// A block's row.
#[derive(Debug)]
pub struct BlockRow {
    pub id: Uuid,
    pub ord: i32,
    pub parent_block: Option<Uuid>,
    pub kind: String,
    pub heading_path: Vec<String>,
    pub content: String,
    pub content_hash: Vec<u8>,
    pub block_ref_id: Option<String>,
    pub tile_ord: i32,
    pub start_in_tile: i32,
    pub end_in_tile: i32,
    pub attrs: Json,
}

/// What a block's row is.
pub ghost struct RowView {
    pub id: Uuid,
    pub ord: i32,
    pub parent_block: Option<Uuid>,
    pub kind: Seq<char>,
    pub heading_path: Seq<Seq<char>>,
    pub content: Seq<char>,
    pub content_hash: Seq<u8>,
    pub block_ref_id: Option<Seq<char>>,
    pub tile_ord: i32,
    pub start_in_tile: i32,
    pub end_in_tile: i32,
    pub attrs: JsonView,
}

impl DeepView for BlockRow {
    type V = RowView;

    open spec fn deep_view(&self) -> RowView {
        RowView {
            id: self.id,
            ord: self.ord,
            parent_block: self.parent_block,
            kind: self.kind@,
            heading_path: self.heading_path.deep_view(),
            content: self.content@,
            content_hash: self.content_hash@,
            block_ref_id: opt_text(self.block_ref_id),
            tile_ord: self.tile_ord,
            start_in_tile: self.start_in_tile,
            end_in_tile: self.end_in_tile,
            attrs: self.attrs@,
        }
    }
}

/// The storage columns of an anchor: heading, block reference; the empty text
/// stands for none.
pub open spec fn anchor_columns(anchor: Option<Seq<char>>) -> (Seq<char>, Seq<char>) {
    match anchor {
        Some(a) => if a.len() > 0 && a[0] == '^' {
            (Seq::empty(), a.skip(1))
        } else {
            (a, Seq::empty())
        },
        None => (Seq::empty(), Seq::empty()),
    }
}

/// Splits a link anchor into its storage columns: `^x` is a block reference,
/// anything else a heading.
pub fn split_anchor(anchor: &Option<String>) -> (r: (String, String))
    ensures
        (r.0@, r.1@) == anchor_columns(opt_text(*anchor)),
{
    match anchor {
        Some(a) => {
            if starts_with_caret(a.as_str()) {
                let n: usize = a.as_str().unicode_len();
                let rest = a.as_str().substring_char(1, n).to_owned();
                assert(rest@ =~= a@.skip(1));
                (String::new(), rest)
            } else {
                (a.clone(), String::new())
            }
        },
        None => (String::new(), String::new()),
    }
}

/// The anchor that two nullable columns stand for.
pub open spec fn anchor_of(heading: Option<Seq<char>>, block_ref: Option<Seq<char>>) -> Option<
    Seq<char>,
> {
    match block_ref {
        Some(r) => Some(seq!['^'] + r),
        None => heading,
    }
}

/// Joins the storage columns of an anchor, for the read functions.
pub fn join_anchor(heading: Option<String>, block_ref: Option<String>) -> (r: Option<String>)
    ensures
        opt_text(r) == anchor_of(opt_text(heading), opt_text(block_ref)),
{
    match block_ref {
        Some(b) => {
            let mut out = String::new();
            out.push('^');
            assert(out@ =~= seq!['^']);
            out.append(b.as_str());
            Some(out)
        },
        None => heading,
    }
}

/// A column as it is stored: the empty text is stored as NULL.
pub open spec fn nullif_empty(s: Seq<char>) -> Option<Seq<char>> {
    if s.len() == 0 {
        None
    } else {
        Some(s)
    }
}

/// Reading an anchor gives back what was written, for every anchor that says
/// something: not the empty text, not a lone `^`.
pub proof fn anchor_round_trip(anchor: Option<Seq<char>>)
    requires
        anchor matches Some(a) ==> a.len() > 0 && a != seq!['^'],
    ensures
        anchor_of(
            nullif_empty(anchor_columns(anchor).0),
            nullif_empty(anchor_columns(anchor).1),
        ) == anchor,
{
    if let Some(a) = anchor {
        if a[0] == '^' {
            if a.len() == 1 {
                assert(a =~= seq!['^']);
            }
            assert(seq!['^'] + a.skip(1) =~= a);
        }
    }
}

/// Full source of a note: the preamble, then the tiles.
pub fn source_of(preamble: &str, tiles: &Vec<String>) -> (r: String)
    ensures
        r@ == preamble@ + concat(tiles.deep_view()),
{
    let mut out = preamble.to_owned();
    let body = concat_all(tiles);
    out.append(body.as_str());
    out
}

/// Outcome of resolving a link target to a note.
#[derive(Debug, Clone, Copy, PartialEq, Eq, Structural)]
pub enum Resolution {
    Exact(Uuid),
    Basename(Uuid),
    Missing,
    Ambiguous,
    Invalid,
}

impl Resolution {
    pub open spec fn note_view(self) -> Option<Uuid> {
        match self {
            Resolution::Exact(id) => Some(id),
            Resolution::Basename(id) => Some(id),
            _ => None,
        }
    }

    pub open spec fn via_view(self) -> Option<Seq<char>> {
        match self {
            Resolution::Exact(_) => Some("exact"@),
            Resolution::Basename(_) => Some("basename"@),
            _ => None,
        }
    }

    pub open spec fn reason_view(self) -> Option<Seq<char>> {
        match self {
            Resolution::Missing => Some("missing"@),
            Resolution::Ambiguous => Some("ambiguous"@),
            Resolution::Invalid => Some("invalid"@),
            _ => None,
        }
    }

    /// The note that the link leads to.
    pub fn dst_note(&self) -> (r: Option<Uuid>)
        ensures
            r == self.note_view(),
    {
        match self {
            Resolution::Exact(id) => Some(*id),
            Resolution::Basename(id) => Some(*id),
            _ => None,
        }
    }

    /// How the link was resolved.
    pub fn via(&self) -> (r: Option<&'static str>)
        ensures
            self.via_view() == (match r {
                Some(s) => Some(s@),
                None => None,
            }),
    {
        match self {
            Resolution::Exact(_) => Some("exact"),
            Resolution::Basename(_) => Some("basename"),
            _ => None,
        }
    }

    /// Why the link dangles.
    pub fn reason(&self) -> (r: Option<&'static str>)
        ensures
            self.reason_view() == (match r {
                Some(s) => Some(s@),
                None => None,
            }),
    {
        match self {
            Resolution::Missing => Some("missing"),
            Resolution::Ambiguous => Some("ambiguous"),
            Resolution::Invalid => Some("invalid"),
            _ => None,
        }
    }
}

/// A live note, for resolution.
pub ghost struct LiveNote {
    pub id: Uuid,
    pub path: Seq<char>,
}

pub open spec fn has_name(name: Seq<char>) -> spec_fn(LiveNote) -> bool {
    |n: LiveNote| split(n.path, '/').last() == name
}

pub open spec fn has_path(path: Seq<char>) -> spec_fn(LiveNote) -> bool {
    |n: LiveNote| n.path == path
}

/// The live notes whose path has `name` as its last segment.
pub open spec fn named(live: Seq<LiveNote>, name: Seq<char>) -> Seq<LiveNote> {
    live.filter(has_name(name))
}

/// The live notes at `path`.
pub open spec fn located(live: Seq<LiveNote>, path: Seq<char>) -> Seq<LiveNote> {
    live.filter(has_path(path))
}

/// What a target resolves to among the live notes of a vault: the note at that
/// path; else, for a target without `/`, the only note of that name.
pub open spec fn resolved(live: Seq<LiveNote>, target: Seq<char>) -> Resolution {
    let at = located(live, target);
    let by_name = named(live, target);
    if !valid_path(target) {
        Resolution::Invalid
    } else if at.len() > 0 {
        Resolution::Exact(at[0].id)
    } else if target.contains('/') || by_name.len() == 0 {
        Resolution::Missing
    } else if by_name.len() == 1 {
        Resolution::Basename(by_name[0].id)
    } else {
        Resolution::Ambiguous
    }
}

/// What a target resolves to, given the note at its path and the notes of its
/// name.
pub open spec fn resolution(
    target: Seq<char>,
    exact: Option<Uuid>,
    candidates: Seq<Uuid>,
) -> Resolution {
    if !valid_path(target) {
        Resolution::Invalid
    } else if exact is Some {
        Resolution::Exact(exact->0)
    } else if target.contains('/') || candidates.len() == 0 {
        Resolution::Missing
    } else if candidates.len() == 1 {
        Resolution::Basename(candidates[0])
    } else {
        Resolution::Ambiguous
    }
}

/// Whether the text holds a `/`.
pub fn has_slash(s: &str) -> (r: bool)
    ensures
        r == s@.contains('/'),
{
    let cs = to_chars(s);
    let mut i: usize = 0;
    while i < cs.len()
        invariant
            i <= cs.len(),
            cs@ == s@,
            forall|k: int| 0 <= k < i ==> #[trigger] s@[k] != '/',
        decreases cs.len() - i,
    {
        if cs[i] == '/' {
            assert(s@[i as int] == '/');
            return true;
        }
        i += 1;
    }
    false
}

/// Resolves a link target. `exact` is the live note at that path, `candidates`
/// are live notes of that name, two of them at most.
pub fn resolve_target(target: &str, exact: Option<Uuid>, candidates: &Vec<Uuid>) -> (r: Resolution)
    ensures
        r == resolution(target@, exact, candidates@),
{
    if !path_is_valid(target) {
        return Resolution::Invalid;
    }
    if let Some(id) = exact {
        return Resolution::Exact(id);
    }
    if has_slash(target) {
        return Resolution::Missing;
    }
    if candidates.len() == 0 {
        Resolution::Missing
    } else if candidates.len() == 1 {
        Resolution::Basename(candidates[0])
    } else {
        Resolution::Ambiguous
    }
}

/// The answer for a path among rows of path and note.
pub open spec fn row_for(rows: Seq<(Seq<char>, Uuid)>, path: Seq<char>) -> Option<Uuid>
    decreases rows.len(),
{
    if rows.len() == 0 {
        None
    } else if rows[0].0 == path {
        Some(rows[0].1)
    } else {
        row_for(rows.drop_first(), path)
    }
}

/// The note and the number of notes for a name among rows of name, note, count.
pub open spec fn count_for(rows: Seq<(Seq<char>, Uuid, i64)>, name: Seq<char>) -> Option<
    (Uuid, i64),
>
    decreases rows.len(),
{
    if rows.len() == 0 {
        None
    } else if rows[0].0 == name {
        Some((rows[0].1, rows[0].2))
    } else {
        count_for(rows.drop_first(), name)
    }
}

/// What a target resolves to, given the rows of the two queries that a whole
/// set of targets is resolved with.
pub open spec fn batch_resolution(
    target: Seq<char>,
    exact: Seq<(Seq<char>, Uuid)>,
    names: Seq<(Seq<char>, Uuid, i64)>,
) -> Resolution {
    if !valid_path(target) {
        Resolution::Invalid
    } else if row_for(exact, target) is Some {
        Resolution::Exact(row_for(exact, target)->0)
    } else if target.contains('/') || count_for(names, target) is None {
        Resolution::Missing
    } else if (count_for(names, target)->0).1 == 1 {
        Resolution::Basename((count_for(names, target)->0).0)
    } else {
        Resolution::Ambiguous
    }
}

pub open spec fn path_rows(v: Seq<(String, Uuid)>) -> Seq<(Seq<char>, Uuid)> {
    Seq::new(v.len(), |i: int| (v[i].0@, v[i].1))
}

pub open spec fn name_rows(v: Seq<(String, Uuid, i64)>) -> Seq<(Seq<char>, Uuid, i64)> {
    Seq::new(v.len(), |i: int| (v[i].0@, v[i].1, v[i].2))
}

fn find_row(rows: &Vec<(String, Uuid)>, path: &str) -> (r: Option<Uuid>)
    ensures
        r == row_for(path_rows(rows@), path@),
{
    let ghost v = path_rows(rows@);
    let mut i: usize = 0;
    assert(v.skip(0) =~= v);
    while i < rows.len()
        invariant
            i <= rows.len(),
            v == path_rows(rows@),
            row_for(v, path@) == row_for(v.skip(i as int), path@),
        decreases rows.len() - i,
    {
        assert(v.skip(i as int)[0] == v[i as int]);
        assert(v.skip(i as int).drop_first() =~= v.skip(i + 1));
        if str_eq(rows[i].0.as_str(), path) {
            return Some(rows[i].1);
        }
        i += 1;
    }
    None
}

fn find_count(rows: &Vec<(String, Uuid, i64)>, name: &str) -> (r: Option<(Uuid, i64)>)
    ensures
        r == count_for(name_rows(rows@), name@),
{
    let ghost v = name_rows(rows@);
    let mut i: usize = 0;
    assert(v.skip(0) =~= v);
    while i < rows.len()
        invariant
            i <= rows.len(),
            v == name_rows(rows@),
            count_for(v, name@) == count_for(v.skip(i as int), name@),
        decreases rows.len() - i,
    {
        assert(v.skip(i as int)[0] == v[i as int]);
        assert(v.skip(i as int).drop_first() =~= v.skip(i + 1));
        if str_eq(rows[i].0.as_str(), name) {
            return Some((rows[i].1, rows[i].2));
        }
        i += 1;
    }
    None
}

/// The targets that the path query has to ask for: the valid ones, in order.
pub open spec fn valid_targets(targets: Seq<Seq<char>>) -> Seq<Seq<char>>
    decreases targets.len(),
{
    if targets.len() == 0 {
        targets
    } else if valid_path(targets.last()) {
        valid_targets(targets.drop_last()).push(targets.last())
    } else {
        valid_targets(targets.drop_last())
    }
}

/// The targets that the path query has to ask for.
pub fn targets_to_locate(targets: &Vec<String>) -> (r: Vec<String>)
    ensures
        r.deep_view() == valid_targets(targets.deep_view()),
{
    let ghost v = targets.deep_view();
    let mut out: Vec<String> = Vec::new();
    let mut i: usize = 0;
    assert(v.take(0) =~= Seq::empty());
    assert(out.deep_view() =~= Seq::empty());
    while i < targets.len()
        invariant
            i <= targets.len(),
            v == targets.deep_view(),
            out.deep_view() == valid_targets(v.take(i as int)),
        decreases targets.len() - i,
    {
        let ghost before = out.deep_view();
        assert(v.take(i + 1).drop_last() =~= v.take(i as int));
        assert(v[i as int] == targets[i as int]@);
        if path_is_valid(targets[i].as_str()) {
            out.push(targets[i].clone());
            assert(out.deep_view() =~= before.push(v[i as int]));
        }
        i += 1;
    }
    assert(v.take(i as int) =~= v);
    out
}

/// The targets that the name query has to ask for: valid, without `/`, and not
/// located by their path.
pub open spec fn unlocated(
    targets: Seq<Seq<char>>,
    exact: Seq<(Seq<char>, Uuid)>,
) -> Seq<Seq<char>>
    decreases targets.len(),
{
    if targets.len() == 0 {
        targets
    } else if valid_path(targets.last()) && row_for(exact, targets.last()) is None
        && !targets.last().contains('/') {
        unlocated(targets.drop_last(), exact).push(targets.last())
    } else {
        unlocated(targets.drop_last(), exact)
    }
}

/// The targets that the name query has to ask for.
pub fn targets_to_name(targets: &Vec<String>, exact: &Vec<(String, Uuid)>) -> (r: Vec<String>)
    ensures
        r.deep_view() == unlocated(targets.deep_view(), path_rows(exact@)),
{
    let ghost v = targets.deep_view();
    let mut out: Vec<String> = Vec::new();
    let mut i: usize = 0;
    assert(v.take(0) =~= Seq::empty());
    assert(out.deep_view() =~= Seq::empty());
    while i < targets.len()
        invariant
            i <= targets.len(),
            v == targets.deep_view(),
            out.deep_view() == unlocated(v.take(i as int), path_rows(exact@)),
        decreases targets.len() - i,
    {
        let ghost before = out.deep_view();
        assert(v.take(i + 1).drop_last() =~= v.take(i as int));
        assert(v[i as int] == targets[i as int]@);
        let t = targets[i].as_str();
        if path_is_valid(t) && find_row(exact, t).is_none() && !has_slash(t) {
            out.push(targets[i].clone());
            assert(out.deep_view() =~= before.push(v[i as int]));
        }
        i += 1;
    }
    assert(v.take(i as int) =~= v);
    out
}

/// Resolves a whole set of targets at once, given the rows of two queries: the
/// live notes at those paths, and for each name a note and how many have it.
pub fn resolve_targets(
    targets: &Vec<String>,
    exact: &Vec<(String, Uuid)>,
    names: &Vec<(String, Uuid, i64)>,
) -> (r: Vec<Resolution>)
    ensures
        r.len() == targets.len(),
        forall|i: int|
            0 <= i < r.len() ==> #[trigger] r[i] == batch_resolution(
                targets[i]@,
                path_rows(exact@),
                name_rows(names@),
            ),
{
    let mut out: Vec<Resolution> = Vec::new();
    let mut i: usize = 0;
    while i < targets.len()
        invariant
            i <= targets.len(),
            out.len() == i,
            forall|k: int|
                0 <= k < i ==> #[trigger] out[k] == batch_resolution(
                    targets[k]@,
                    path_rows(exact@),
                    name_rows(names@),
                ),
        decreases targets.len() - i,
    {
        let t = targets[i].as_str();
        let r = if !path_is_valid(t) {
            Resolution::Invalid
        } else {
            match find_row(exact, t) {
                Some(id) => Resolution::Exact(id),
                None => {
                    if has_slash(t) {
                        Resolution::Missing
                    } else {
                        match find_count(names, t) {
                            Some((id, n)) => {
                                if n == 1 {
                                    Resolution::Basename(id)
                                } else {
                                    Resolution::Ambiguous
                                }
                            },
                            None => Resolution::Missing,
                        }
                    }
                },
            }
        };
        out.push(r);
        i += 1;
    }
    out
}

/// Resolving one target at a time gives what the live notes say: `exact` is the
/// note at the path, `candidates` the first two notes of the name.
pub proof fn single_resolution_is_resolution(
    live: Seq<LiveNote>,
    target: Seq<char>,
    exact: Option<Uuid>,
    candidates: Seq<Uuid>,
)
    requires
        exact == (if located(live, target).len() > 0 {
            Some(located(live, target)[0].id)
        } else {
            None
        }),
        candidates.len() == (if named(live, target).len() < 2 {
            named(live, target).len()
        } else {
            2
        }),
        named(live, target).len() == 1 ==> candidates[0] == named(live, target)[0].id,
    ensures
        resolution(target, exact, candidates) == resolved(live, target),
{
}

/// Resolving a set at once gives what resolving each target would: the rows of
/// the two queries describe the live notes.
pub proof fn batch_resolution_is_resolution(
    live: Seq<LiveNote>,
    target: Seq<char>,
    exact: Seq<(Seq<char>, Uuid)>,
    names: Seq<(Seq<char>, Uuid, i64)>,
)
    requires
        row_for(exact, target) == (if located(live, target).len() > 0 {
            Some(located(live, target)[0].id)
        } else {
            None
        }),
        row_for(exact, target) is None && !target.contains('/') && valid_path(target) ==> {
            &&& count_for(names, target) is None <==> named(live, target).len() == 0
            &&& count_for(names, target) is Some ==> (count_for(names, target)->0).1 == named(
                live,
                target,
            ).len()
            &&& named(live, target).len() == 1 ==> (count_for(names, target)->0).0 == named(
                live,
                target,
            )[0].id
        },
    ensures
        batch_resolution(target, exact, names) == resolved(live, target),
{
}

/// The link targets whose resolution the creation of a note at `new_path` can
/// change: that path, and its last segment.
pub open spec fn affected_targets(new_path: Seq<char>) -> Seq<Seq<char>> {
    let base = split(new_path, '/').last();
    if base == new_path {
        seq![new_path]
    } else {
        seq![new_path, base]
    }
}

/// The link targets to resolve again when a note at `new_path` appears.
pub fn repair_targets(new_path: &str) -> (r: Vec<String>)
    ensures
        r.deep_view() == affected_targets(new_path@),
{
    let base = basename(new_path);
    let mut out: Vec<String> = Vec::new();
    out.push(new_path.to_owned());
    if !str_eq(base, new_path) {
        out.push(base.to_owned());
        assert(out.deep_view() =~= seq![new_path@, base@]);
    } else {
        assert(out.deep_view() =~= seq![new_path@]);
    }
    out
}

/// Creating a note changes the resolution of no target but the affected ones.
pub proof fn creation_affects_only_its_targets(
    live: Seq<LiveNote>,
    note: LiveNote,
    target: Seq<char>,
)
    requires
        !affected_targets(note.path).contains(target),
    ensures
        resolved(live.push(note), target) == resolved(live, target),
{
    let a = affected_targets(note.path);
    assert(a[0] == note.path);
    assert(note.path != target) by {
        if note.path == target {
            assert(a.contains(a[0]));
        }
    }
    assert(split(note.path, '/').last() != target) by {
        if split(note.path, '/').last() == target {
            assert(a.last() == target);
            assert(a.contains(a[a.len() - 1]));
        }
    }
    filter_push_out(live, note, has_path(target));
    filter_push_out(live, note, has_name(target));
}

proof fn filter_push_out(live: Seq<LiveNote>, note: LiveNote, p: spec_fn(LiveNote) -> bool)
    requires
        !p(note),
    ensures
        live.push(note).filter(p) == live.filter(p),
{
    reveal(Seq::filter);
    assert(live.push(note).drop_last() =~= live);
}

/// Whether what the caller expected is not what is stored; asking for nothing
/// is never stale.
pub open spec fn stale(expected: Option<Uuid>, observed: Uuid) -> bool {
    expected matches Some(e) && e != observed
}

/// Compare-and-swap against the head observed under the lock.
pub fn cas_check(expected: Option<Uuid>, observed: Uuid) -> (r: Result<(), StaleHead>)
    ensures
        match r {
            Ok(_) => !stale(expected, observed),
            Err(e) => {
                &&& stale(expected, observed)
                &&& e.expected == expected->0
                &&& e.observed == observed
            },
        },
{
    match expected {
        Some(e) => {
            if e != observed {
                Err(StaleHead { expected: e, observed })
            } else {
                Ok(())
            }
        },
        None => Ok(()),
    }
}

/// A head that has moved.
#[derive(Debug, Clone, Copy, PartialEq, Eq, Structural)]
pub struct StaleHead {
    pub expected: Uuid,
    pub observed: Uuid,
}

/// Compare-and-swap at block granularity, against the hash observed under the
/// lock: true if the write may go ahead.
pub fn block_cas_check(expected: Option<&[u8]>, observed: &[u8]) -> (r: bool)
    ensures
        r == (expected matches Some(e) ==> e@ == observed@),
{
    match expected {
        Some(e) => bytes_eq(e, observed),
        None => true,
    }
}

/// Whether two byte slices are equal.
pub fn bytes_eq(a: &[u8], b: &[u8]) -> (r: bool)
    ensures
        r == (a@ == b@),
{
    if a.len() != b.len() {
        return false;
    }
    let mut i: usize = 0;
    while i < a.len()
        invariant
            i <= a.len() == b.len(),
            forall|k: int| 0 <= k < i ==> #[trigger] a@[k] == b@[k],
        decreases a.len() - i,
    {
        if a[i] != b[i] {
            assert(a@[i as int] != b@[i as int]);
            return false;
        }
        i += 1;
    }
    assert(a@ =~= b@);
    true
}

/// How a vault is to be looked up.
#[derive(Debug)]
pub enum VaultQuery {
    /// The session's own vault.
    Current,
    ById(Uuid),
    ByName(String),
}

/// What a `vault` argument asks for: nothing, or only white space, for the
/// session's own vault; a UUID for the vault with that id; else its name.
pub fn vault_query(vault: Option<&str>) -> (r: VaultQuery)
    ensures
        match r {
            VaultQuery::Current => vault is None || trimmed((vault->0)@).len() == 0,
            VaultQuery::ById(u) => {
                &&& vault is Some
                &&& trimmed((vault->0)@).len() > 0
                &&& uuid_of(trimmed((vault->0)@)) == Some(u.value as int)
            },
            VaultQuery::ByName(n) => {
                &&& vault is Some
                &&& trimmed((vault->0)@).len() > 0
                &&& uuid_of(trimmed((vault->0)@)) is None
                &&& n@ == trimmed((vault->0)@)
            },
        },
{
    match vault {
        None => VaultQuery::Current,
        Some(v) => {
            let v = trim(v);
            if v.is_empty() {
                return VaultQuery::Current;
            }
            match parse_uuid(v) {
                Some(id) => VaultQuery::ById(id),
                None => VaultQuery::ByName(v.to_owned()),
            }
        },
    }
}

/// The vault that a session setting names: unset or empty, the default vault;
/// None if the setting is malformed.
pub fn session_vault(setting: Option<&str>) -> (r: Option<Uuid>)
    ensures
        r == (if setting is None || (setting->0)@.len() == 0 {
            Some(Uuid { value: 0 })
        } else {
            match uuid_of((setting->0)@) {
                Some(v) => Some(Uuid { value: v as u128 }),
                None => None,
            }
        }),
{
    match setting {
        None => Some(default_vault()),
        Some(s) => {
            if s.is_empty() {
                Some(default_vault())
            } else {
                parse_uuid(s)
            }
        },
    }
}

} // verus!
