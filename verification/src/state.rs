//! The state of a note at some revision: bytes and blocks.

use vstd::prelude::*;
use vstd::string::*;

use crate::document::opt_text;
use crate::ids::Uuid;
use crate::json::{json_copy, Json, JsonView};
use crate::store::{BlockRow, RowView};
use crate::text::concat;

verus! {

/// One block's content-visible state.
#[derive(Debug)]
pub struct BlockAt {
    pub kind: String,
    pub content: String,
    pub block_ref_id: Option<String>,
    pub attrs: Json,
    pub parent: Option<Uuid>,
}

/// What a block's content-visible state is.
pub ghost struct AtView {
    pub kind: Seq<char>,
    pub content: Seq<char>,
    pub block_ref_id: Option<Seq<char>>,
    pub attrs: JsonView,
    pub parent: Option<Uuid>,
}

impl DeepView for BlockAt {
    type V = AtView;

    open spec fn deep_view(&self) -> AtView {
        AtView {
            kind: self.kind@,
            content: self.content@,
            block_ref_id: opt_text(self.block_ref_id),
            attrs: self.attrs@,
            parent: self.parent,
        }
    }
}

/// A copy of an optional text.
pub fn copy_text(o: &Option<String>) -> (r: Option<String>)
    ensures
        opt_text(r) == opt_text(*o),
{
    match o {
        Some(s) => Some(s.clone()),
        None => None,
    }
}

/// A copy of a list of texts.
pub fn copy_texts(v: &Vec<String>) -> (r: Vec<String>)
    ensures
        r.deep_view() == v.deep_view(),
        r.len() == v.len(),
{
    let mut out: Vec<String> = Vec::new();
    let mut i: usize = 0;
    while i < v.len()
        invariant
            i <= v.len(),
            out.len() == i,
            forall|k: int| 0 <= k < i ==> (#[trigger] out[k])@ == v[k]@,
        decreases v.len() - i,
    {
        out.push(v[i].clone());
        i += 1;
    }
    assert(out.deep_view() =~= v.deep_view());
    out
}

impl BlockAt {
    /// A copy.
    pub fn copy(&self) -> (r: Self)
        ensures
            r.deep_view() == self.deep_view(),
    {
        BlockAt {
            kind: self.kind.clone(),
            content: self.content.clone(),
            block_ref_id: copy_text(&self.block_ref_id),
            attrs: json_copy(&self.attrs),
            parent: self.parent,
        }
    }
}

/// The content-visible state that a row holds.
pub open spec fn at_of_row(b: RowView) -> AtView {
    AtView {
        kind: b.kind,
        content: b.content,
        block_ref_id: b.block_ref_id,
        attrs: b.attrs,
        parent: b.parent_block,
    }
}

/// The content-visible state that a row holds.
pub fn row_at(b: &BlockRow) -> (r: BlockAt)
    ensures
        r.deep_view() == at_of_row(b.deep_view()),
{
    BlockAt {
        kind: b.kind.clone(),
        content: b.content.clone(),
        block_ref_id: copy_text(&b.block_ref_id),
        attrs: json_copy(&b.attrs),
        parent: b.parent_block,
    }
}

/// Blocks by id. The last entry for an id counts.
#[derive(Debug)]
pub struct BlockMap {
    pub entries: Vec<(Uuid, BlockAt)>,
}

/// The blocks that the first `n` entries give.
pub open spec fn entries_map(v: Seq<(Uuid, BlockAt)>, n: int) -> Map<Uuid, AtView>
    decreases n,
{
    if n <= 0 {
        Map::empty()
    } else {
        entries_map(v, n - 1).insert(v[n - 1].0, v[n - 1].1.deep_view())
    }
}

impl View for BlockMap {
    type V = Map<Uuid, AtView>;

    open spec fn view(&self) -> Map<Uuid, AtView> {
        entries_map(self.entries@, self.entries@.len() as int)
    }
}

proof fn entries_map_same(a: Seq<(Uuid, BlockAt)>, b: Seq<(Uuid, BlockAt)>, n: int)
    requires
        0 <= n <= a.len(),
        n <= b.len(),
        forall|i: int| 0 <= i < n ==> a[i] == b[i],
    ensures
        entries_map(a, n) == entries_map(b, n),
    decreases n,
{
    if n > 0 {
        entries_map_same(a, b, n - 1);
    }
}

impl BlockMap {
    /// No blocks.
    pub fn empty() -> (r: Self)
        ensures
            r@ == Map::<Uuid, AtView>::empty(),
    {
        BlockMap { entries: Vec::new() }
    }

    /// Sets the block of an id.
    pub fn insert(&mut self, id: Uuid, at: BlockAt)
        ensures
            final(self)@ == old(self)@.insert(id, at.deep_view()),
    {
        let ghost before = self.entries@;
        self.entries.push((id, at));
        proof {
            entries_map_same(before, self.entries@, before.len() as int);
        }
    }

    /// Forgets the block of an id.
    pub fn remove(&mut self, id: Uuid)
        ensures
            final(self)@ == old(self)@.remove(id),
    {
        let ghost before = self.entries@;
        let mut kept: Vec<(Uuid, BlockAt)> = Vec::new();
        let mut i: usize = 0;
        proof {
            assert(entries_map(kept@, 0) =~= entries_map(before, 0).remove(id));
        }
        while i < self.entries.len()
            invariant
                i <= self.entries.len(),
                self.entries@ == before,
                entries_map(kept@, kept@.len() as int) == entries_map(before, i as int).remove(id),
            decreases self.entries.len() - i,
        {
            let ghost m = entries_map(before, i as int);
            if self.entries[i].0 != id {
                let ghost k0 = kept@;
                kept.push((self.entries[i].0, self.entries[i].1.copy()));
                proof {
                    entries_map_same(k0, kept@, k0.len() as int);
                    let e = before[i as int];
                    assert(m.remove(id).insert(e.0, e.1.deep_view()) =~= m.insert(
                        e.0,
                        e.1.deep_view(),
                    ).remove(id));
                }
            } else {
                proof {
                    let e = before[i as int];
                    assert(m.insert(e.0, e.1.deep_view()).remove(id) =~= m.remove(id));
                }
            }
            i += 1;
        }
        self.entries = kept;
    }

    /// The block of an id.
    pub fn get(&self, id: Uuid) -> (r: Option<&BlockAt>)
        ensures
            match r {
                Some(at) => self@.contains_key(id) && self@[id] == at.deep_view(),
                None => !self@.contains_key(id),
            },
    {
        let ghost v = self.entries@;
        let mut i: usize = self.entries.len();
        while i > 0
            invariant
                i <= self.entries.len(),
                v == self.entries@,
                self@.contains_key(id) == entries_map(v, i as int).contains_key(id),
                self@.contains_key(id) ==> self@[id] == entries_map(v, i as int)[id],
            decreases i,
        {
            if self.entries[i - 1].0 == id {
                return Some(&self.entries[i - 1].1);
            }
            i -= 1;
        }
        None
    }
}

/// A note's full state at some revision.
#[derive(Debug)]
pub struct StateAt {
    pub path: String,
    pub preamble: String,
    pub props: Json,
    pub tiles: Vec<String>,
    pub ids: Vec<Uuid>,
    pub place: Vec<(i32, i32, i32)>,
    pub heads: Vec<Vec<String>>,
    pub blocks: BlockMap,
}

/// What a note's state is.
#[verifier::ext_equal]
pub ghost struct StateView {
    pub path: Seq<char>,
    pub preamble: Seq<char>,
    pub props: JsonView,
    pub tiles: Seq<Seq<char>>,
    pub ids: Seq<Uuid>,
    pub place: Seq<(i32, i32, i32)>,
    pub heads: Seq<Seq<Seq<char>>>,
    pub blocks: Map<Uuid, AtView>,
}

impl DeepView for StateAt {
    type V = StateView;

    open spec fn deep_view(&self) -> StateView {
        StateView {
            path: self.path@,
            preamble: self.preamble@,
            props: self.props@,
            tiles: self.tiles.deep_view(),
            ids: self.ids@,
            place: self.place@,
            heads: self.heads.deep_view(),
            blocks: self.blocks@,
        }
    }
}

impl StateAt {
    /// The source: the preamble, then the tiles.
    pub fn source(&self) -> (r: String)
        ensures
            r@ == self.preamble@ + concat(self.tiles.deep_view()),
    {
        crate::store::source_of(self.preamble.as_str(), &self.tiles)
    }
}

/// What is stored of a note.
pub ghost struct Stored {
    pub path: Seq<char>,
    pub preamble: Seq<char>,
    pub props: JsonView,
    pub tiles: Seq<Seq<char>>,
    pub rows: Seq<RowView>,
}

/// The blocks of the first `n` rows, by id.
pub open spec fn rows_map(rows: Seq<RowView>, n: int) -> Map<Uuid, AtView>
    decreases n,
{
    if n <= 0 {
        Map::empty()
    } else {
        rows_map(rows, n - 1).insert(rows[n - 1].id, at_of_row(rows[n - 1]))
    }
}

pub open spec fn triple(b: RowView) -> (i32, i32, i32) {
    (b.tile_ord, b.start_in_tile, b.end_in_tile)
}

impl Stored {
    pub open spec fn ids(self) -> Seq<Uuid> {
        Seq::new(self.rows.len(), |i: int| self.rows[i].id)
    }

    pub open spec fn place(self) -> Seq<(i32, i32, i32)> {
        Seq::new(self.rows.len(), |i: int| triple(self.rows[i]))
    }

    pub open spec fn heads(self) -> Seq<Seq<Seq<char>>> {
        Seq::new(self.rows.len(), |i: int| self.rows[i].heading_path)
    }

    /// The state that is stored.
    pub open spec fn state(self) -> StateView {
        StateView {
            path: self.path,
            preamble: self.preamble,
            props: self.props,
            tiles: self.tiles,
            ids: self.ids(),
            place: self.place(),
            heads: self.heads(),
            blocks: rows_map(self.rows, self.rows.len() as int),
        }
    }

    /// Every block has an id of its own, and the lists are no longer than
    /// their indices can say.
    pub open spec fn ok(self) -> bool {
        &&& self.ids().no_duplicates()
        &&& self.rows.len() <= i32::MAX
        &&& self.tiles.len() <= i32::MAX
    }
}

/// The current state, from what is stored.
pub fn current_state(
    path: &str,
    preamble: &str,
    props: &Json,
    tiles: &Vec<String>,
    rows: &Vec<BlockRow>,
) -> (r: StateAt)
    ensures
        r.deep_view() == (Stored {
            path: path@,
            preamble: preamble@,
            props: props@,
            tiles: tiles.deep_view(),
            rows: rows.deep_view(),
        }).state(),
{
    let ghost v = rows.deep_view();
    let mut ids: Vec<Uuid> = Vec::new();
    let mut place: Vec<(i32, i32, i32)> = Vec::new();
    let mut heads: Vec<Vec<String>> = Vec::new();
    let mut blocks = BlockMap::empty();
    let mut i: usize = 0;
    while i < rows.len()
        invariant
            i <= rows.len(),
            v == rows.deep_view(),
            ids.len() == place.len() == heads.len() == i,
            forall|k: int| 0 <= k < i ==> #[trigger] ids[k] == v[k].id,
            forall|k: int| 0 <= k < i ==> #[trigger] place[k] == triple(v[k]),
            forall|k: int| 0 <= k < i ==> (#[trigger] heads[k]).deep_view() == v[k].heading_path,
            blocks@ == rows_map(v, i as int),
        decreases rows.len() - i,
    {
        let b = &rows[i];
        assert(v[i as int] == b.deep_view());
        ids.push(b.id);
        place.push((b.tile_ord, b.start_in_tile, b.end_in_tile));
        heads.push(copy_texts(&b.heading_path));
        blocks.insert(b.id, row_at(b));
        i += 1;
    }
    let r = StateAt {
        path: path.to_owned(),
        preamble: preamble.to_owned(),
        props: json_copy(props),
        tiles: copy_texts(tiles),
        ids,
        place,
        heads,
        blocks,
    };
    proof {
        let s = Stored {
            path: path@,
            preamble: preamble@,
            props: props@,
            tiles: tiles.deep_view(),
            rows: v,
        };
        assert(r.deep_view().ids =~= s.ids());
        assert(r.deep_view().place =~= s.place());
        assert(r.deep_view().heads =~= s.heads());
    }
    r
}

/// The map of rows holds exactly their ids.
pub proof fn rows_map_facts(rows: Seq<RowView>, n: int, id: Uuid)
    requires
        0 <= n <= rows.len(),
    ensures
        rows_map(rows, n).contains_key(id) <==> exists|i: int|
            0 <= i < n && (#[trigger] rows[i]).id == id,
    decreases n,
{
    if n > 0 {
        rows_map_facts(rows, n - 1, id);
        if rows[n - 1].id == id {
            assert(rows[n - 1].id == id);
        }
        if exists|i: int| 0 <= i < n && (#[trigger] rows[i]).id == id {
            let i = choose|i: int| 0 <= i < n && (#[trigger] rows[i]).id == id;
            if i < n - 1 {
                assert(rows[i].id == id);
            }
        }
    }
}

/// With distinct ids the map gives each row's state.
pub proof fn rows_map_at(rows: Seq<RowView>, n: int, i: int)
    requires
        0 <= i < n <= rows.len(),
        forall|a: int, b: int|
            0 <= a < b < rows.len() ==> (#[trigger] rows[a]).id != (#[trigger] rows[b]).id,
    ensures
        rows_map(rows, n).contains_key(rows[i].id),
        rows_map(rows, n)[rows[i].id] == at_of_row(rows[i]),
    decreases n,
{
    if i < n - 1 {
        rows_map_at(rows, n - 1, i);
        assert(rows[i].id != rows[n - 1].id);
    }
}

} // verus!
