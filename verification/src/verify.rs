//! The invariant checkers: what is stored of a note against a fresh parse of its
//! bytes, and its history against what it must be able to reconstruct. Nothing
//! reported means healthy.

use vstd::prelude::*;
use vstd::string::*;
use vstd::utf8::*;

use crate::carry::{ids_of_rows, row_ids, texts_eq};
use crate::document::{opt_text, BlockKind, LinkRef, LinkView};
use crate::extraction::{
    desired_tags, has_key, insert_key, key_set, keys, link_key, tags_of, texts_less, KeyView, Keyed,
    TagKey,
};
use crate::history::{find_row, position, position_facts, same_id, same_text};
use crate::ids::{uuid_text, Uuid};
use crate::json::{json_eq, text_before};
use crate::note::{note_ok, NoteView, ParsedNote};
use crate::reconcile::{row_of, rows_of};
use crate::refs::links_below;
use crate::state::copy_text;
use crate::store::{
    batch_resolution, bytes_eq, name_rows, path_rows, resolve_targets, split_anchor, BlockRow,
    Resolution, RowView,
};
use crate::text::str_eq;

verus! {

// ---- blocks ----

/// How a block's row disagrees with the parse.
#[derive(Debug, Clone, Copy, PartialEq, Eq, Structural)]
pub enum BlockFault {
    Ord { found: i32, expected: i32 },
    Kind { parsed: BlockKind },
    Content,
    Hash,
    HeadingPath,
    BlockRef,
    Attrs,
    Placement,
    Parent,
    /// The parent is no block of the note.
    ParentOutside { parent: Uuid },
}

pub open spec fn fault_if(cond: bool, f: BlockFault) -> Seq<BlockFault> {
    if cond {
        seq![f]
    } else {
        Seq::empty()
    }
}

/// How row `i` disagrees with the parse.
pub open spec fn row_faults(rows: Seq<RowView>, note: NoteView, i: int) -> Seq<BlockFault> {
    let row = rows[i];
    let want = row_of(note, row_ids(rows), i);
    let outside = match row.parent_block {
        Some(p) => fault_if(
            position(rows, p, 0) is None,
            BlockFault::ParentOutside { parent: p },
        ),
        None => Seq::empty(),
    };
    fault_if(row.ord != want.ord, BlockFault::Ord { found: row.ord, expected: i as i32 })
        + fault_if(row.kind != want.kind, BlockFault::Kind { parsed: note.doc.blocks[i].kind })
        + fault_if(row.content != want.content, BlockFault::Content) + fault_if(
        row.content_hash != want.content_hash,
        BlockFault::Hash,
    ) + fault_if(row.heading_path != want.heading_path, BlockFault::HeadingPath) + fault_if(
        row.block_ref_id != want.block_ref_id,
        BlockFault::BlockRef,
    ) + fault_if(row.attrs != want.attrs, BlockFault::Attrs) + fault_if(
        row.tile_ord != want.tile_ord || row.start_in_tile != want.start_in_tile || row.end_in_tile
            != want.end_in_tile,
        BlockFault::Placement,
    ) + fault_if(row.parent_block != want.parent_block, BlockFault::Parent) + outside
}

/// A block fault with the block that it is of.
pub open spec fn with_id(id: Uuid, faults: Seq<BlockFault>) -> Seq<(Uuid, BlockFault)> {
    Seq::new(faults.len(), |i: int| (id, faults[i]))
}

/// How the first `n` rows disagree with the parse.
pub open spec fn rows_faults(rows: Seq<RowView>, note: NoteView, n: int) -> Seq<(Uuid, BlockFault)>
    decreases n,
{
    if n <= 0 {
        Seq::empty()
    } else {
        rows_faults(rows, note, n - 1) + with_id(rows[n - 1].id, row_faults(rows, note, n - 1))
    }
}

fn push_if(out: &mut Vec<BlockFault>, cond: bool, f: BlockFault)
    ensures
        final(out)@ == old(out)@ + fault_if(cond, f),
{
    if cond {
        out.push(f);
        assert(out@ =~= old(out)@ + seq![f]);
    } else {
        assert(out@ =~= old(out)@ + Seq::<BlockFault>::empty());
    }
}

fn check_row(rows: &Vec<BlockRow>, note: &ParsedNote, i: usize) -> (r: Vec<BlockFault>)
    requires
        note_ok(note.deep_view()),
        rows.len() == note.doc.blocks.len(),
        i < rows.len() <= i32::MAX,
    ensures
        r@ == row_faults(rows.deep_view(), note.deep_view(), i as int),
{
    let ghost rv = rows.deep_view();
    let ghost nv = note.deep_view();
    let row = &rows[i];
    let b = &note.doc.blocks[i];
    let ghost want = row_of(nv, row_ids(rv), i as int);
    proof {
        assert(rv[i as int] == row.deep_view());
        assert(nv.doc.blocks[i as int] == b.deep_view());
        assert(nv.doc.blocks.len() == note.doc.blocks.len());
    }
    let parent = match b.parent {
        Some(p) => {
            assert(nv.doc.blocks[i as int].parent == Some(p));
            assert(rv[p as int] == rows[p as int].deep_view());
            Some(rows[p as usize].id)
        },
        None => None,
    };
    assert(parent == want.parent_block);
    let place = note.placement[i];
    let ord = row.ord != i as i32;
    let kind = !str_eq(row.kind.as_str(), b.kind.tag());
    let content = row.content != b.normalized_content;
    let hash = !bytes_eq(
        row.content_hash.as_slice(),
        vstd::array::array_as_slice(&b.content_hash),
    );
    let heading = !texts_eq(&row.heading_path, &b.heading_path);
    let marker = !same_text(&row.block_ref_id, &b.block_ref_id);
    let attrs = !json_eq(&row.attrs, &b.attrs);
    let placed = row.tile_ord != place.0 || row.start_in_tile != place.1 || row.end_in_tile
        != place.2;
    let parented = !same_id(row.parent_block, parent);
    let stray = match row.parent_block {
        Some(p) => find_row(rows, p).is_none(),
        None => false,
    };
    let ghost rw = rv[i as int];
    proof {
        assert(ord == (rw.ord != want.ord));
        assert(kind == (rw.kind != want.kind));
        assert(content == (rw.content != want.content));
        assert(hash == (rw.content_hash != want.content_hash));
        assert(heading == (rw.heading_path != want.heading_path));
        assert(marker == (rw.block_ref_id != want.block_ref_id));
        assert(attrs == (rw.attrs != want.attrs));
        assert(placed == (rw.tile_ord != want.tile_ord || rw.start_in_tile != want.start_in_tile
            || rw.end_in_tile != want.end_in_tile));
        assert(parented == (rw.parent_block != want.parent_block));
    }
    let mut out: Vec<BlockFault> = Vec::new();
    push_if(&mut out, ord, BlockFault::Ord { found: row.ord, expected: i as i32 });
    assert(out@ =~= fault_if(ord, BlockFault::Ord { found: row.ord, expected: i as i32 }));
    push_if(&mut out, kind, BlockFault::Kind { parsed: b.kind });
    push_if(&mut out, content, BlockFault::Content);
    push_if(&mut out, hash, BlockFault::Hash);
    push_if(&mut out, heading, BlockFault::HeadingPath);
    push_if(&mut out, marker, BlockFault::BlockRef);
    push_if(&mut out, attrs, BlockFault::Attrs);
    push_if(&mut out, placed, BlockFault::Placement);
    push_if(&mut out, parented, BlockFault::Parent);
    if let Some(p) = row.parent_block {
        push_if(&mut out, stray, BlockFault::ParentOutside { parent: p });
    } else {
        push_if(&mut out, false, BlockFault::Parent);
    }
    out
}

/// How the rows disagree with the parse.
pub fn check_rows(rows: &Vec<BlockRow>, note: &ParsedNote) -> (r: Vec<(Uuid, BlockFault)>)
    requires
        note_ok(note.deep_view()),
        rows.len() == note.doc.blocks.len(),
        rows.len() <= i32::MAX,
    ensures
        r@ == rows_faults(rows.deep_view(), note.deep_view(), rows.len() as int),
{
    let ghost rv = rows.deep_view();
    let ghost nv = note.deep_view();
    let mut out: Vec<(Uuid, BlockFault)> = Vec::new();
    let mut i: usize = 0;
    while i < rows.len()
        invariant
            i <= rows.len(),
            rv == rows.deep_view(),
            nv == note.deep_view(),
            note_ok(nv),
            rows.len() == note.doc.blocks.len(),
            rows.len() <= i32::MAX,
            out@ == rows_faults(rv, nv, i as int),
        decreases rows.len() - i,
    {
        let id = rows[i].id;
        assert(rv[i as int].id == id);
        let found = check_row(rows, note, i);
        let ghost before = out@;
        let mut k: usize = 0;
        while k < found.len()
            invariant
                k <= found.len(),
                out@ == before + with_id(id, found@.take(k as int)),
            decreases found.len() - k,
        {
            out.push((id, found[k]));
            k += 1;
            assert(out@ =~= before + with_id(id, found@.take(k as int)));
        }
        assert(found@.take(k as int) =~= found@);
        i += 1;
    }
    out
}

proof fn none_of_both(a: Seq<BlockFault>, b: Seq<BlockFault>)
    ensures
        (a + b).len() == 0 <==> a.len() == 0 && b.len() == 0,
{
}

proof fn no_row_faults(rows: Seq<RowView>, note: NoteView, i: int)
    requires
        0 <= i < rows.len() <= i32::MAX,
        rows.len() == note.doc.blocks.len(),
        note_ok(note),
    ensures
        row_faults(rows, note, i).len() == 0 <==> rows[i] == row_of(note, row_ids(rows), i),
{
    let row = rows[i];
    let want = row_of(note, row_ids(rows), i);
    let outside = match row.parent_block {
        Some(p) => fault_if(
            position(rows, p, 0) is None,
            BlockFault::ParentOutside { parent: p },
        ),
        None => Seq::empty(),
    };
    let s1 = fault_if(row.ord != want.ord, BlockFault::Ord { found: row.ord, expected: i as i32 });
    let f2 = fault_if(row.kind != want.kind, BlockFault::Kind { parsed: note.doc.blocks[i].kind });
    let f3 = fault_if(row.content != want.content, BlockFault::Content);
    let f4 = fault_if(row.content_hash != want.content_hash, BlockFault::Hash);
    let f5 = fault_if(row.heading_path != want.heading_path, BlockFault::HeadingPath);
    let f6 = fault_if(row.block_ref_id != want.block_ref_id, BlockFault::BlockRef);
    let f7 = fault_if(row.attrs != want.attrs, BlockFault::Attrs);
    let f8 = fault_if(
        row.tile_ord != want.tile_ord || row.start_in_tile != want.start_in_tile || row.end_in_tile
            != want.end_in_tile,
        BlockFault::Placement,
    );
    let f9 = fault_if(row.parent_block != want.parent_block, BlockFault::Parent);
    none_of_both(s1, f2);
    none_of_both(s1 + f2, f3);
    none_of_both(s1 + f2 + f3, f4);
    none_of_both(s1 + f2 + f3 + f4, f5);
    none_of_both(s1 + f2 + f3 + f4 + f5, f6);
    none_of_both(s1 + f2 + f3 + f4 + f5 + f6, f7);
    none_of_both(s1 + f2 + f3 + f4 + f5 + f6 + f7, f8);
    none_of_both(s1 + f2 + f3 + f4 + f5 + f6 + f7 + f8, f9);
    none_of_both(s1 + f2 + f3 + f4 + f5 + f6 + f7 + f8 + f9, outside);
    assert(row.id == want.id);
    if row == want {
        if let Some(p) = note.doc.blocks[i].parent {
            assert(p < i);
            position_facts(rows, rows[p as int].id, 0);
            assert(row_ids(rows)[p as int] == rows[p as int].id);
        }
    }
}

/// No fault is found in the rows exactly if they are the rows of the parse.
pub proof fn healthy_rows_are_the_parse(rows: Seq<RowView>, note: NoteView, n: int)
    requires
        0 <= n <= rows.len() <= i32::MAX,
        rows.len() == note.doc.blocks.len(),
        note_ok(note),
    ensures
        rows_faults(rows, note, n).len() == 0 <==> forall|i: int|
            0 <= i < n ==> #[trigger] rows[i] == row_of(note, row_ids(rows), i),
    decreases n,
{
    if n > 0 {
        healthy_rows_are_the_parse(rows, note, n - 1);
        no_row_faults(rows, note, n - 1);
        let last = row_faults(rows, note, n - 1);
        assert(with_id(rows[n - 1].id, last).len() == last.len());
        if forall|i: int| 0 <= i < n ==> #[trigger] rows[i] == row_of(note, row_ids(rows), i) {
            assert(rows[n - 1] == row_of(note, row_ids(rows), n - 1));
        }
    }
}

// ---- extraction ----

/// An edge with what it resolves to.
#[derive(Debug)]
pub struct EdgeFact {
    pub src_block: Uuid,
    pub kind: String,
    pub dst_path: String,
    pub dst_heading: String,
    pub dst_block_ref: String,
    pub alias: String,
    pub dst_note: Option<Uuid>,
    pub resolved_via: Option<String>,
    pub dangling_reason: Option<String>,
}

/// An optional text as part of a key: what is absent is not the empty text.
pub open spec fn opt_key(o: Option<Seq<char>>) -> Seq<char> {
    match o {
        Some(t) => seq!['='] + t,
        None => Seq::empty(),
    }
}

pub open spec fn opt_id_text(o: Option<Uuid>) -> Option<Seq<char>> {
    match o {
        Some(u) => Some(uuid_text(u)),
        None => None,
    }
}

fn opt_key_text(o: Option<&str>) -> (r: String)
    ensures
        r@ == opt_key(
            match o {
                Some(t) => Some(t@),
                None => None,
            },
        ),
{
    let mut out = String::new();
    if let Some(t) = o {
        out.push('=');
        out.append(t);
        assert(out@ =~= seq!['='] + t@);
    } else {
        assert(out@ =~= Seq::<char>::empty());
    }
    out
}

impl EdgeFact {
    fn texts(&self) -> (r: Vec<String>)
        ensures
            r.deep_view() == self.key().1,
            r.len() == 8,
    {
        let note = match self.dst_note {
            Some(u) => {
                let t = u.to_text();
                opt_key_text(Some(t.as_str()))
            },
            None => opt_key_text(None),
        };
        let via = match &self.resolved_via {
            Some(t) => opt_key_text(Some(t.as_str())),
            None => opt_key_text(None),
        };
        let reason = match &self.dangling_reason {
            Some(t) => opt_key_text(Some(t.as_str())),
            None => opt_key_text(None),
        };
        let mut v: Vec<String> = Vec::new();
        v.push(self.kind.clone());
        v.push(self.dst_path.clone());
        v.push(self.dst_heading.clone());
        v.push(self.dst_block_ref.clone());
        v.push(self.alias.clone());
        v.push(note);
        v.push(via);
        v.push(reason);
        assert(v.deep_view() =~= self.key().1);
        v
    }
}

/// Whether a list of texts comes before another.
fn texts_before(a: &Vec<String>, b: &Vec<String>) -> (r: bool)
    ensures
        r == texts_less(a.deep_view(), b.deep_view(), 0),
{
    let ghost x = a.deep_view();
    let ghost y = b.deep_view();
    let mut i: usize = 0;
    while i < a.len() && i < b.len()
        invariant
            i <= a.len(),
            i <= b.len(),
            x == a.deep_view(),
            y == b.deep_view(),
            texts_less(x, y, 0) == texts_less(x, y, i as int),
        decreases a.len() - i,
    {
        assert(x[i as int] == a[i as int]@ && y[i as int] == b[i as int]@);
        if a[i] != b[i] {
            return text_before(a[i].as_str(), b[i].as_str());
        }
        i += 1;
    }
    false
}

impl Keyed for EdgeFact {
    open spec fn key(&self) -> KeyView {
        (
            self.src_block.value as int,
            seq![
                self.kind@,
                self.dst_path@,
                self.dst_heading@,
                self.dst_block_ref@,
                self.alias@,
                opt_key(opt_id_text(self.dst_note)),
                opt_key(opt_text(self.resolved_via)),
                opt_key(opt_text(self.dangling_reason)),
            ],
        )
    }

    fn before(&self, other: &Self) -> (r: bool) {
        self.src_block.value < other.src_block.value || (self.src_block.value
            == other.src_block.value && texts_before(&self.texts(), &other.texts()))
    }

    fn same(&self, other: &Self) -> (r: bool) {
        self.src_block.value == other.src_block.value && texts_eq(&self.texts(), &other.texts())
    }

    fn copy(&self) -> (r: Self) {
        EdgeFact {
            src_block: self.src_block,
            kind: self.kind.clone(),
            dst_path: self.dst_path.clone(),
            dst_heading: self.dst_heading.clone(),
            dst_block_ref: self.dst_block_ref.clone(),
            alias: self.alias.clone(),
            dst_note: self.dst_note,
            resolved_via: copy_text(&self.resolved_via),
            dangling_reason: copy_text(&self.dangling_reason),
        }
    }
}

/// The key of the edge that a reference is, resolved.
pub open spec fn fact_key(l: LinkView, ids: Seq<Uuid>, r: Resolution) -> KeyView {
    let k = link_key(l, ids);
    (
        k.0,
        k.1 + seq![
            opt_key(opt_id_text(r.note_view())),
            opt_key(r.via_view()),
            opt_key(r.reason_view()),
        ],
    )
}

/// The keys of the edges that the references are, each resolved by the rows of
/// the two queries.
pub open spec fn fact_keys(
    links: Seq<LinkView>,
    ids: Seq<Uuid>,
    exact: Seq<(Seq<char>, Uuid)>,
    names: Seq<(Seq<char>, Uuid, i64)>,
) -> Seq<KeyView> {
    Seq::new(
        links.len(),
        |i: int| fact_key(links[i], ids, batch_resolution(links[i].target, exact, names)),
    )
}

fn owned_opt(o: Option<&'static str>) -> (r: Option<String>)
    ensures
        opt_text(r) == (match o {
            Some(t) => Some(t@),
            None => None,
        }),
{
    match o {
        Some(t) => Some(t.to_owned()),
        None => None,
    }
}

/// The edges that a note should have, resolved, each once and in order.
fn wanted_edges(
    links: &Vec<LinkRef>,
    rows: &Vec<BlockRow>,
    exact: &Vec<(String, Uuid)>,
    names: &Vec<(String, Uuid, i64)>,
) -> (r: Vec<EdgeFact>)
    requires
        links_below(links.deep_view(), rows.len() as int),
    ensures
        keys(r@) == key_set(
            fact_keys(
                links.deep_view(),
                row_ids(rows.deep_view()),
                path_rows(exact@),
                name_rows(names@),
            ),
            links.len() as int,
        ),
{
    let ghost lv = links.deep_view();
    let ghost ids = row_ids(rows.deep_view());
    let ghost all = fact_keys(lv, ids, path_rows(exact@), name_rows(names@));
    let mut targets: Vec<String> = Vec::new();
    let mut k: usize = 0;
    while k < links.len()
        invariant
            k <= links.len(),
            targets.len() == k,
            forall|j: int| 0 <= j < k ==> (#[trigger] targets[j])@ == links[j].target@,
        decreases links.len() - k,
    {
        targets.push(links[k].target.clone());
        k += 1;
    }
    let resolutions = resolve_targets(&targets, exact, names);
    let mut out: Vec<EdgeFact> = Vec::new();
    let mut i: usize = 0;
    proof {
        assert(keys(out@) =~= Seq::empty());
    }
    while i < links.len()
        invariant
            i <= links.len(),
            lv == links.deep_view(),
            ids == row_ids(rows.deep_view()),
            all == fact_keys(lv, ids, path_rows(exact@), name_rows(names@)),
            links_below(lv, rows.len() as int),
            resolutions.len() == links.len(),
            forall|j: int|
                0 <= j < links.len() ==> #[trigger] resolutions[j] == batch_resolution(
                    links[j].target@,
                    path_rows(exact@),
                    name_rows(names@),
                ),
            keys(out@) == key_set(all, i as int),
        decreases links.len() - i,
    {
        let l = &links[i];
        assert(lv[i as int] == l.deep_view());
        let (dst_heading, dst_block_ref) = split_anchor(&l.anchor);
        let res = resolutions[i];
        assert(rows.deep_view()[l.block as int] == rows[l.block as int].deep_view());
        let f = EdgeFact {
            src_block: rows[l.block as usize].id,
            kind: l.kind.tag().to_owned(),
            dst_path: l.target.clone(),
            dst_heading,
            dst_block_ref,
            alias: match &l.alias {
                Some(a) => a.clone(),
                None => "".to_owned(),
            },
            dst_note: res.dst_note(),
            resolved_via: owned_opt(res.via()),
            dangling_reason: owned_opt(res.reason()),
        };
        assert(f.key().1 =~= all[i as int].1);
        insert_key(&mut out, f);
        i += 1;
    }
    out
}

/// The first `n` keys that are not among others.
pub open spec fn keys_minus(a: Seq<KeyView>, b: Seq<KeyView>, n: int) -> Seq<KeyView>
    decreases n,
{
    if n <= 0 {
        Seq::empty()
    } else if b.contains(a[n - 1]) {
        keys_minus(a, b, n - 1)
    } else {
        keys_minus(a, b, n - 1).push(a[n - 1])
    }
}

/// What is in one list and not in another.
pub fn minus<K: Keyed>(a: &Vec<K>, b: &Vec<K>) -> (r: Vec<K>)
    ensures
        keys(r@) == keys_minus(keys(a@), keys(b@), a.len() as int),
{
    let ghost av = keys(a@);
    let ghost bv = keys(b@);
    let mut out: Vec<K> = Vec::new();
    let mut i: usize = 0;
    proof {
        assert(keys(out@) =~= Seq::empty());
    }
    while i < a.len()
        invariant
            i <= a.len(),
            av == keys(a@),
            bv == keys(b@),
            keys(out@) == keys_minus(av, bv, i as int),
        decreases a.len() - i,
    {
        assert(av[i as int] == a[i as int].key());
        if !has_key(b, &a[i]) {
            let ghost before = keys(out@);
            let c = a[i].copy();
            out.push(c);
            assert(keys(out@) =~= before.push(c.key()));
        }
        i += 1;
    }
    out
}

/// Each once and in order.
fn sorted_once<K: Keyed>(v: &Vec<K>) -> (r: Vec<K>)
    ensures
        keys(r@) == key_set(keys(v@), v.len() as int),
{
    let ghost all = keys(v@);
    let mut out: Vec<K> = Vec::new();
    let mut i: usize = 0;
    proof {
        assert(keys(out@) =~= Seq::empty());
    }
    while i < v.len()
        invariant
            i <= v.len(),
            all == keys(v@),
            keys(out@) == key_set(all, i as int),
        decreases v.len() - i,
    {
        let c = v[i].copy();
        assert(all[i as int] == v[i as int].key());
        insert_key(&mut out, c);
        i += 1;
    }
    out
}

proof fn minus_is_empty(a: Seq<KeyView>, b: Seq<KeyView>, n: int)
    requires
        0 <= n <= a.len(),
    ensures
        keys_minus(a, b, n).len() == 0 <==> forall|i: int| 0 <= i < n ==> b.contains(#[trigger] a[i]),
    decreases n,
{
    if n > 0 {
        minus_is_empty(a, b, n - 1);
    }
}

/// Nothing is missing and nothing is unexpected exactly if the two lists have the
/// same keys.
pub proof fn no_difference_is_same_keys(want: Seq<KeyView>, have: Seq<KeyView>)
    ensures
        keys_minus(want, have, want.len() as int).len() == 0 && keys_minus(
            have,
            want,
            have.len() as int,
        ).len() == 0 <==> (forall|k: KeyView| #[trigger] want.contains(k) <==> have.contains(k)),
{
    minus_is_empty(want, have, want.len() as int);
    minus_is_empty(have, want, have.len() as int);
    let none = keys_minus(want, have, want.len() as int).len() == 0 && keys_minus(
        have,
        want,
        have.len() as int,
    ).len() == 0;
    if none {
        assert forall|k: KeyView| #[trigger] want.contains(k) <==> have.contains(k) by {
            if want.contains(k) {
                let i = choose|i: int| 0 <= i < want.len() && want[i] == k;
                assert(have.contains(want[i]));
            }
            if have.contains(k) {
                let i = choose|i: int| 0 <= i < have.len() && have[i] == k;
                assert(want.contains(have[i]));
            }
        }
    }
    if forall|k: KeyView| #[trigger] want.contains(k) <==> have.contains(k) {
        assert forall|i: int| 0 <= i < want.len() implies have.contains(#[trigger] want[i]) by {
            assert(want.contains(want[i]));
        }
        assert forall|i: int| 0 <= i < have.len() implies want.contains(#[trigger] have[i]) by {
            assert(have.contains(have[i]));
            assert(want.contains(have[i]));
        }
    }
}

// ---- the note ----

/// What is stored of a note, as its checker reads it.
pub struct NoteFacts<'a> {
    /// Whether the head revision is of this note; none if there is no such revision.
    pub head_is_own: Option<bool>,
    pub preamble: &'a str,
    pub tiles: &'a Vec<String>,
    pub rows: &'a Vec<BlockRow>,
    pub edges: &'a Vec<EdgeFact>,
    pub tags: &'a Vec<TagKey>,
    /// The rows of the two queries that targets are resolved with.
    pub exact: &'a Vec<(String, Uuid)>,
    pub names: &'a Vec<(String, Uuid, i64)>,
}

/// What is wrong with a note.
#[derive(Debug)]
pub struct NoteReport {
    /// Whether the head revision is missing, or is of another note.
    pub head_missing: bool,
    pub head_elsewhere: bool,
    /// The preamble's length as stored and as parsed, where they differ.
    pub preamble: Option<(usize, usize)>,
    pub tile_count: Option<(usize, usize)>,
    pub tiles: Vec<usize>,
    pub block_count: Option<(usize, usize)>,
    pub blocks: Vec<(Uuid, BlockFault)>,
    pub edges_missing: Vec<EdgeFact>,
    pub edges_unexpected: Vec<EdgeFact>,
    pub tags_missing: Vec<TagKey>,
    pub tags_unexpected: Vec<TagKey>,
}

pub open spec fn unequal(stored: nat, parsed: nat) -> Option<(usize, usize)> {
    if stored != parsed {
        Some((stored as usize, parsed as usize))
    } else {
        None
    }
}

/// The first `n` tiles whose bytes are not those of the parse.
pub open spec fn wrong_tiles(stored: Seq<Seq<char>>, parsed: Seq<Seq<char>>, n: int) -> Seq<usize>
    decreases n,
{
    if n <= 0 {
        Seq::empty()
    } else if stored[n - 1] != parsed[n - 1] {
        wrong_tiles(stored, parsed, n - 1).push((n - 1) as usize)
    } else {
        wrong_tiles(stored, parsed, n - 1)
    }
}

/// The report says what is wrong with what is stored, held against the parse of
/// its bytes.
pub open spec fn report_is(r: NoteReport, f: NoteFacts, note: NoteView) -> bool {
    let rows = f.rows.deep_view();
    let tiles = f.tiles.deep_view();
    let ids = row_ids(rows);
    let want_edges = key_set(
        fact_keys(note.doc.links, ids, path_rows(f.exact@), name_rows(f.names@)),
        note.doc.links.len() as int,
    );
    let have_edges = key_set(keys(f.edges@), f.edges.len() as int);
    let want_tags = desired_tags(note.doc.tags, ids);
    let have_tags = key_set(keys(f.tags@), f.tags.len() as int);
    let same_blocks = rows.len() == note.doc.blocks.len();
    &&& r.head_missing == (f.head_is_own is None)
    &&& r.head_elsewhere == (f.head_is_own == Some(false))
    &&& r.preamble == unequal(encode_utf8(f.preamble@).len(), note.doc.preamble.end as nat)
    &&& r.tile_count == unequal(tiles.len(), note.tiles.len())
    &&& r.tiles@ == (if tiles.len() == note.tiles.len() {
        wrong_tiles(tiles, note.tiles, tiles.len() as int)
    } else {
        Seq::empty()
    })
    &&& r.block_count == unequal(rows.len(), note.doc.blocks.len())
    &&& r.blocks@ == (if same_blocks {
        rows_faults(rows, note, rows.len() as int)
    } else {
        Seq::empty()
    })
    &&& keys(r.edges_missing@) == (if same_blocks {
        keys_minus(want_edges, have_edges, want_edges.len() as int)
    } else {
        Seq::empty()
    })
    &&& keys(r.edges_unexpected@) == (if same_blocks {
        keys_minus(have_edges, want_edges, have_edges.len() as int)
    } else {
        Seq::empty()
    })
    &&& keys(r.tags_missing@) == (if same_blocks {
        keys_minus(want_tags, have_tags, want_tags.len() as int)
    } else {
        Seq::empty()
    })
    &&& keys(r.tags_unexpected@) == (if same_blocks {
        keys_minus(have_tags, want_tags, have_tags.len() as int)
    } else {
        Seq::empty()
    })
}

fn check_tiles(stored: &Vec<String>, parsed: &Vec<String>) -> (r: Vec<usize>)
    requires
        stored.len() == parsed.len(),
    ensures
        r@ == wrong_tiles(stored.deep_view(), parsed.deep_view(), stored.len() as int),
{
    let ghost a = stored.deep_view();
    let ghost b = parsed.deep_view();
    let mut out: Vec<usize> = Vec::new();
    let mut i: usize = 0;
    while i < stored.len()
        invariant
            i <= stored.len() == parsed.len(),
            a == stored.deep_view(),
            b == parsed.deep_view(),
            out@ == wrong_tiles(a, b, i as int),
        decreases stored.len() - i,
    {
        assert(a[i as int] == stored[i as int]@ && b[i as int] == parsed[i as int]@);
        if stored[i] != parsed[i] {
            out.push(i);
        }
        i += 1;
    }
    out
}

fn pair_if_unequal(stored: usize, parsed: usize) -> (r: Option<(usize, usize)>)
    ensures
        r == unequal(stored as nat, parsed as nat),
{
    if stored != parsed {
        Some((stored, parsed))
    } else {
        None
    }
}

/// Holds what is stored of a note against the parse of its bytes: the preamble and
/// the tiles, every column of every block row, and the extraction indexes with
/// what their targets resolve to now.
pub fn verify_note(f: &NoteFacts, note: &ParsedNote) -> (r: NoteReport)
    requires
        note_ok(note.deep_view()),
        note.doc.blocks.len() <= i32::MAX,
    ensures
        report_is(r, *f, note.deep_view()),
{
    let ghost nv = note.deep_view();
    proof {
        assert(nv.doc.blocks.len() == note.doc.blocks.len());
        assert(nv.tiles.len() == note.tiles.len());
        assert(f.rows.deep_view().len() == f.rows.len());
        assert(f.tiles.deep_view().len() == f.tiles.len());
    }
    let tiles = if f.tiles.len() == note.tiles.len() {
        check_tiles(f.tiles, &note.tiles)
    } else {
        Vec::new()
    };
    let mut blocks: Vec<(Uuid, BlockFault)> = Vec::new();
    let mut edges_missing: Vec<EdgeFact> = Vec::new();
    let mut edges_unexpected: Vec<EdgeFact> = Vec::new();
    let mut tags_missing: Vec<TagKey> = Vec::new();
    let mut tags_unexpected: Vec<TagKey> = Vec::new();
    proof {
        assert(keys(edges_missing@) =~= Seq::empty());
        assert(keys(edges_unexpected@) =~= Seq::empty());
        assert(keys(tags_missing@) =~= Seq::empty());
        assert(keys(tags_unexpected@) =~= Seq::empty());
    }
    if f.rows.len() == note.doc.blocks.len() {
        blocks = check_rows(f.rows, note);
        let want = wanted_edges(&note.doc.links, f.rows, f.exact, f.names);
        let have = sorted_once(f.edges);
        assert(keys(want@).len() == want.len() && keys(have@).len() == have.len());
        edges_missing = minus(&want, &have);
        edges_unexpected = minus(&have, &want);
        let ids = ids_of_rows(f.rows);
        let want_tags = tags_of(&note.doc.tags, &ids);
        let have_tags = sorted_once(f.tags);
        assert(keys(want_tags@).len() == want_tags.len() && keys(have_tags@).len()
            == have_tags.len());
        tags_missing = minus(&want_tags, &have_tags);
        tags_unexpected = minus(&have_tags, &want_tags);
    }
    NoteReport {
        head_missing: f.head_is_own.is_none(),
        head_elsewhere: match f.head_is_own {
            Some(own) => !own,
            None => false,
        },
        preamble: pair_if_unequal(f.preamble.as_bytes().len(), note.doc.preamble.end),
        tile_count: pair_if_unequal(f.tiles.len(), note.tiles.len()),
        tiles,
        block_count: pair_if_unequal(f.rows.len(), note.doc.blocks.len()),
        blocks,
        edges_missing,
        edges_unexpected,
        tags_missing,
        tags_unexpected,
    }
}

impl NoteReport {
    /// Nothing is reported.
    pub open spec fn is_clean(&self) -> bool {
        &&& !self.head_missing
        &&& !self.head_elsewhere
        &&& self.preamble is None
        &&& self.tile_count is None
        &&& self.tiles.len() == 0
        &&& self.block_count is None
        &&& self.blocks.len() == 0
        &&& self.edges_missing.len() == 0
        &&& self.edges_unexpected.len() == 0
        &&& self.tags_missing.len() == 0
        &&& self.tags_unexpected.len() == 0
    }

    /// Whether nothing is reported.
    pub fn clean(&self) -> (r: bool)
        ensures
            r == self.is_clean(),
    {
        !self.head_missing && !self.head_elsewhere && self.preamble.is_none()
            && self.tile_count.is_none() && self.tiles.len() == 0 && self.block_count.is_none()
            && self.blocks.len() == 0 && self.edges_missing.len() == 0
            && self.edges_unexpected.len() == 0 && self.tags_missing.len() == 0
            && self.tags_unexpected.len() == 0
    }
}

proof fn no_wrong_tiles(stored: Seq<Seq<char>>, parsed: Seq<Seq<char>>, n: int)
    requires
        0 <= n <= stored.len(),
        n <= parsed.len(),
    ensures
        wrong_tiles(stored, parsed, n).len() == 0 <==> forall|i: int|
            0 <= i < n ==> #[trigger] stored[i] == parsed[i],
    decreases n,
{
    if n > 0 {
        no_wrong_tiles(stored, parsed, n - 1);
    }
}

/// Nothing is reported exactly if the stored lanes mirror the parse: the head is
/// the note's own, the preamble has its length, the tiles and the rows are those
/// of the parse, and the edges and tags are those that a fresh extraction gives,
/// resolution and all.
pub proof fn nothing_reported_is_healthy(r: NoteReport, f: NoteFacts, note: NoteView)
    requires
        report_is(r, f, note),
        note_ok(note),
        note.doc.blocks.len() <= i32::MAX,
    ensures
        ({
            let rows = f.rows.deep_view();
            let ids = row_ids(rows);
            let want = fact_keys(note.doc.links, ids, path_rows(f.exact@), name_rows(f.names@));
            r.is_clean() <==> {
                &&& f.head_is_own == Some(true)
                &&& encode_utf8(f.preamble@).len() == note.doc.preamble.end
                &&& f.tiles.deep_view() == note.tiles
                &&& rows == rows_of(note, ids)
                &&& forall|k: KeyView| #[trigger]
                    key_set(want, want.len() as int).contains(k) <==> key_set(
                        keys(f.edges@),
                        f.edges.len() as int,
                    ).contains(k)
                &&& forall|k: KeyView| #[trigger]
                    desired_tags(note.doc.tags, ids).contains(k) <==> key_set(
                        keys(f.tags@),
                        f.tags.len() as int,
                    ).contains(k)
            }
        }),
{
    let rows = f.rows.deep_view();
    let tiles = f.tiles.deep_view();
    let ids = row_ids(rows);
    let want = fact_keys(note.doc.links, ids, path_rows(f.exact@), name_rows(f.names@));
    let want_edges = key_set(want, want.len() as int);
    let have_edges = key_set(keys(f.edges@), f.edges.len() as int);
    let want_tags = desired_tags(note.doc.tags, ids);
    let have_tags = key_set(keys(f.tags@), f.tags.len() as int);
    no_difference_is_same_keys(want_edges, have_edges);
    no_difference_is_same_keys(want_tags, have_tags);
    assert(keys(r.edges_missing@).len() == r.edges_missing.len());
    assert(keys(r.edges_unexpected@).len() == r.edges_unexpected.len());
    assert(keys(r.tags_missing@).len() == r.tags_missing.len());
    assert(keys(r.tags_unexpected@).len() == r.tags_unexpected.len());
    assert((r.tile_count is None && r.tiles.len() == 0) <==> tiles == note.tiles) by {
        if tiles.len() == note.tiles.len() {
            no_wrong_tiles(tiles, note.tiles, tiles.len() as int);
            if r.tiles.len() == 0 {
                assert(tiles =~= note.tiles);
            }
        }
    }
    let w = rows_of(note, ids);
    assert(w.len() == note.doc.blocks.len());
    assert((r.block_count is None && r.blocks.len() == 0) <==> rows == w) by {
        if rows.len() == note.doc.blocks.len() {
            healthy_rows_are_the_parse(rows, note, rows.len() as int);
            if r.blocks.len() == 0 {
                assert(rows =~= w);
            }
            if rows == w {
                assert forall|i: int| 0 <= i < rows.len() implies #[trigger] rows[i] == row_of(
                    note,
                    ids,
                    i,
                ) by {
                    assert(w[i] == row_of(note, ids, i));
                }
            }
        }
    }
    assert(want.len() == note.doc.links.len());
    assert((!r.head_missing && !r.head_elsewhere) <==> f.head_is_own == Some(true)) by {
        if let Some(own) = f.head_is_own {
            assert(own == true || own == false);
        }
    }
    assert(r.preamble is None <==> encode_utf8(f.preamble@).len() == note.doc.preamble.end);
    if rows.len() == note.doc.blocks.len() {
        assert((r.edges_missing.len() == 0 && r.edges_unexpected.len() == 0) <==> (
        forall|k: KeyView| #[trigger] want_edges.contains(k) <==> have_edges.contains(k)));
        assert((r.tags_missing.len() == 0 && r.tags_unexpected.len() == 0) <==> (
        forall|k: KeyView| #[trigger] want_tags.contains(k) <==> have_tags.contains(k)));
    }
}

} // verus!
