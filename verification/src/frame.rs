//! Snapshots: the whole state of a note, as parallel columns, so that reading
//! the past does not have to start at the head.

use vstd::prelude::*;
use vstd::string::*;

use crate::history::{frame_due, is_frame_due};
use crate::ids::Uuid;
use crate::json::{json_copy, Json, JsonView};
use crate::state::{
    copy_texts, rows_map, rows_map_facts, AtView, BlockAt, BlockMap, StateAt, StateView, Stored,
};
use crate::store::RowView;

verus! {

/// The columns of a snapshot. A block without a marker has the empty text under
/// `block_refs`.
#[derive(Debug)]
pub struct Frame {
    pub path: String,
    pub preamble: String,
    pub props: Json,
    pub tiles: Vec<String>,
    pub block_ids: Vec<Uuid>,
    pub kinds: Vec<String>,
    pub contents: Vec<String>,
    pub head_paths: Vec<Vec<String>>,
    pub parents: Vec<Option<Uuid>>,
    pub block_refs: Vec<String>,
    pub attrs: Vec<Json>,
    /// Three numbers for each place.
    pub placement: Vec<i32>,
}

/// What a snapshot holds.
#[verifier::ext_equal]
pub ghost struct FrameView {
    pub path: Seq<char>,
    pub preamble: Seq<char>,
    pub props: JsonView,
    pub tiles: Seq<Seq<char>>,
    pub block_ids: Seq<Uuid>,
    pub kinds: Seq<Seq<char>>,
    pub contents: Seq<Seq<char>>,
    pub head_paths: Seq<Seq<Seq<char>>>,
    pub parents: Seq<Option<Uuid>>,
    pub block_refs: Seq<Seq<char>>,
    pub attrs: Seq<JsonView>,
    pub placement: Seq<i32>,
}

pub open spec fn json_list(v: Seq<Json>) -> Seq<JsonView> {
    Seq::new(v.len(), |i: int| v[i]@)
}

impl DeepView for Frame {
    type V = FrameView;

    open spec fn deep_view(&self) -> FrameView {
        FrameView {
            path: self.path@,
            preamble: self.preamble@,
            props: self.props@,
            tiles: self.tiles.deep_view(),
            block_ids: self.block_ids@,
            kinds: self.kinds.deep_view(),
            contents: self.contents.deep_view(),
            head_paths: self.head_paths.deep_view(),
            parents: self.parents@,
            block_refs: self.block_refs.deep_view(),
            attrs: json_list(self.attrs@),
            placement: self.placement@,
        }
    }
}

/// Places laid out as numbers, three for each.
pub open spec fn flat(place: Seq<(i32, i32, i32)>) -> Seq<i32> {
    Seq::new(
        3 * place.len(),
        |i: int|
            if i % 3 == 0 {
                place[i / 3].0
            } else if i % 3 == 1 {
                place[i / 3].1
            } else {
                place[i / 3].2
            },
    )
}

/// Numbers read as places, three for each.
pub open spec fn grouped(v: Seq<i32>) -> Seq<(i32, i32, i32)> {
    Seq::new((v.len() / 3) as nat, |i: int| (v[3 * i], v[3 * i + 1], v[3 * i + 2]))
}

/// Places read back as they were laid out.
pub proof fn grouping_undoes_flattening(place: Seq<(i32, i32, i32)>)
    ensures
        grouped(flat(place)) == place,
{
    let f = flat(place);
    assert forall|i: int| 0 <= i < place.len() implies grouped(f)[i] == place[i] by {
        assert((3 * i) % 3 == 0 && (3 * i) / 3 == i);
        assert((3 * i + 1) % 3 == 1 && (3 * i + 1) / 3 == i);
        assert((3 * i + 2) % 3 == 2 && (3 * i + 2) / 3 == i);
    }
    assert(grouped(f) =~= place);
}

/// Lays places out as numbers.
pub fn flatten(place: &Vec<(i32, i32, i32)>) -> (r: Vec<i32>)
    ensures
        r@ == flat(place@),
{
    let mut out: Vec<i32> = Vec::new();
    let mut i: usize = 0;
    while i < place.len()
        invariant
            i <= place.len(),
            out@ == flat(place@.take(i as int)),
        decreases place.len() - i,
    {
        let (t, s, e) = place[i];
        let ghost before = out@;
        out.push(t);
        out.push(s);
        out.push(e);
        proof {
            let w = flat(place@.take(i as int + 1));
            let p = 3 * i as int;
            assert(w.len() == p + 3);
            assert(p % 3 == 0 && p / 3 == i);
            assert((p + 1) % 3 == 1 && (p + 1) / 3 == i);
            assert((p + 2) % 3 == 2 && (p + 2) / 3 == i);
            assert forall|k: int| 0 <= k < p + 3 implies out@[k] == w[k] by {
                if k < p {
                    assert(before[k] == out@[k]);
                    assert(0 <= k / 3 < i);
                }
            }
            assert(out@ =~= w);
        }
        i += 1;
    }
    assert(place@.take(i as int) =~= place@);
    out
}

/// Reads numbers as places. A list that does not come in threes is cut off
/// mid-way, and there is nothing to read it as.
pub fn group(v: &Vec<i32>) -> (r: Vec<(i32, i32, i32)>)
    requires
        v.len() % 3 == 0,
    ensures
        r@ == grouped(v@),
{
    let n: usize = v.len() / 3;
    let mut out: Vec<(i32, i32, i32)> = Vec::new();
    let mut i: usize = 0;
    while i < n
        invariant
            i <= n,
            n == v.len() / 3,
            out.len() == i,
            forall|k: int| 0 <= k < i ==> #[trigger] out[k] == grouped(v@)[k],
        decreases n - i,
    {
        out.push((v[3 * i], v[3 * i + 1], v[3 * i + 2]));
        i += 1;
    }
    assert(out@ =~= grouped(v@));
    out
}

/// A block's marker as a snapshot holds it.
pub open spec fn ref_column(o: Option<Seq<char>>) -> Seq<char> {
    match o {
        Some(r) => r,
        None => ""@,
    }
}

/// A block that a state names and does not hold.
pub open spec fn unheld() -> AtView {
    AtView {
        kind: "paragraph"@,
        content: ""@,
        block_ref_id: None,
        attrs: JsonView::Null,
        parent: None,
    }
}

pub open spec fn block_in(s: StateView, i: int) -> AtView {
    if s.blocks.contains_key(s.ids[i]) {
        s.blocks[s.ids[i]]
    } else {
        unheld()
    }
}

/// The snapshot of a state.
pub open spec fn frame_of(s: StateView) -> FrameView {
    let n = s.ids.len();
    FrameView {
        path: s.path,
        preamble: s.preamble,
        props: s.props,
        tiles: s.tiles,
        block_ids: s.ids,
        kinds: Seq::new(n, |i: int| block_in(s, i).kind),
        contents: Seq::new(n, |i: int| block_in(s, i).content),
        head_paths: s.heads,
        parents: Seq::new(n, |i: int| block_in(s, i).parent),
        block_refs: Seq::new(n, |i: int| ref_column(block_in(s, i).block_ref_id)),
        attrs: Seq::new(n, |i: int| block_in(s, i).attrs),
        placement: flat(s.place),
    }
}

fn copy_lists(v: &Vec<Vec<String>>) -> (r: Vec<Vec<String>>)
    ensures
        r.deep_view() == v.deep_view(),
{
    let mut out: Vec<Vec<String>> = Vec::new();
    let mut i: usize = 0;
    while i < v.len()
        invariant
            i <= v.len(),
            out.len() == i,
            forall|k: int| 0 <= k < i ==> (#[trigger] out[k]).deep_view() == v[k].deep_view(),
        decreases v.len() - i,
    {
        out.push(copy_texts(&v[i]));
        i += 1;
    }
    assert(out.deep_view() =~= v.deep_view());
    out
}

/// A copy of a list of ids.
pub fn copy_ids(v: &Vec<Uuid>) -> (r: Vec<Uuid>)
    ensures
        r@ == v@,
{
    let mut out: Vec<Uuid> = Vec::new();
    let mut i: usize = 0;
    while i < v.len()
        invariant
            i <= v.len(),
            out@ == v@.take(i as int),
        decreases v.len() - i,
    {
        out.push(v[i]);
        i += 1;
    }
    assert(v@.take(i as int) =~= v@);
    out
}

/// The snapshot of a state.
pub fn snapshot(s: &StateAt) -> (r: Frame)
    ensures
        r.deep_view() == frame_of(s.deep_view()),
{
    let ghost v = s.deep_view();
    let mut kinds: Vec<String> = Vec::new();
    let mut contents: Vec<String> = Vec::new();
    let mut parents: Vec<Option<Uuid>> = Vec::new();
    let mut block_refs: Vec<String> = Vec::new();
    let mut attrs: Vec<Json> = Vec::new();
    let mut i: usize = 0;
    while i < s.ids.len()
        invariant
            i <= s.ids.len(),
            v == s.deep_view(),
            kinds.len() == contents.len() == parents.len() == block_refs.len() == attrs.len() == i,
            forall|k: int| 0 <= k < i ==> (#[trigger] kinds[k])@ == block_in(v, k).kind,
            forall|k: int| 0 <= k < i ==> (#[trigger] contents[k])@ == block_in(v, k).content,
            forall|k: int| 0 <= k < i ==> #[trigger] parents[k] == block_in(v, k).parent,
            forall|k: int|
                0 <= k < i ==> (#[trigger] block_refs[k])@ == ref_column(
                    block_in(v, k).block_ref_id,
                ),
            forall|k: int| 0 <= k < i ==> (#[trigger] attrs[k])@ == block_in(v, k).attrs,
        decreases s.ids.len() - i,
    {
        match s.blocks.get(s.ids[i]) {
            Some(b) => {
                kinds.push(b.kind.clone());
                contents.push(b.content.clone());
                parents.push(b.parent);
                block_refs.push(
                    match &b.block_ref_id {
                        Some(r) => r.clone(),
                        None => "".to_owned(),
                    },
                );
                attrs.push(json_copy(&b.attrs));
            },
            None => {
                kinds.push("paragraph".to_owned());
                contents.push("".to_owned());
                parents.push(None);
                block_refs.push("".to_owned());
                attrs.push(Json::Null);
            },
        }
        i += 1;
    }
    let r = Frame {
        path: s.path.clone(),
        preamble: s.preamble.clone(),
        props: json_copy(&s.props),
        tiles: copy_texts(&s.tiles),
        block_ids: copy_ids(&s.ids),
        kinds,
        contents,
        head_paths: copy_lists(&s.heads),
        parents,
        block_refs,
        attrs,
        placement: flatten(&s.place),
    };
    proof {
        let w = frame_of(v);
        assert(r.deep_view().kinds =~= w.kinds);
        assert(r.deep_view().contents =~= w.contents);
        assert(r.deep_view().parents =~= w.parents);
        assert(r.deep_view().block_refs =~= w.block_refs);
        assert(r.deep_view().attrs =~= w.attrs);
    }
    r
}

/// The snapshot that a revision leaves: one on the cadence leaves its state.
pub fn maybe_frame(seq: i64, every: i32, s: &StateAt) -> (r: Option<Frame>)
    requires
        seq >= 0,
    ensures
        match r {
            Some(f) => frame_due(seq as int, every as int) && f.deep_view() == frame_of(
                s.deep_view(),
            ),
            None => !frame_due(seq as int, every as int),
        },
{
    if is_frame_due(seq, every) {
        Some(snapshot(s))
    } else {
        None
    }
}

pub open spec fn text_at(v: Seq<Seq<char>>, i: int) -> Seq<char> {
    if i < v.len() {
        v[i]
    } else {
        ""@
    }
}

/// Block `i` of a snapshot. Columns that are too short give what is empty.
pub open spec fn frame_block(f: FrameView, i: int) -> AtView {
    AtView {
        kind: text_at(f.kinds, i),
        content: text_at(f.contents, i),
        block_ref_id: if text_at(f.block_refs, i).len() > 0 {
            Some(f.block_refs[i])
        } else {
            None
        },
        attrs: if i < f.attrs.len() {
            f.attrs[i]
        } else {
            JsonView::Null
        },
        parent: if i < f.parents.len() {
            f.parents[i]
        } else {
            None
        },
    }
}

/// The first `n` blocks of a snapshot, by id.
pub open spec fn frame_blocks(f: FrameView, n: int) -> Map<Uuid, AtView>
    decreases n,
{
    if n <= 0 {
        Map::empty()
    } else {
        frame_blocks(f, n - 1).insert(f.block_ids[n - 1], frame_block(f, n - 1))
    }
}

/// The state that a snapshot holds.
pub open spec fn state_of(f: FrameView) -> StateView {
    StateView {
        path: f.path,
        preamble: f.preamble,
        props: f.props,
        tiles: f.tiles,
        ids: f.block_ids,
        place: grouped(f.placement),
        heads: f.head_paths,
        blocks: frame_blocks(f, f.block_ids.len() as int),
    }
}

fn text_or_empty(v: &Vec<String>, i: usize) -> (r: String)
    ensures
        r@ == text_at(v.deep_view(), i as int),
{
    if i < v.len() {
        v[i].clone()
    } else {
        "".to_owned()
    }
}

/// The state that a snapshot holds.
pub fn frame_state(f: &Frame) -> (r: StateAt)
    requires
        f.placement.len() % 3 == 0,
    ensures
        r.deep_view() == state_of(f.deep_view()),
{
    let ghost v = f.deep_view();
    let mut blocks = BlockMap::empty();
    let mut i: usize = 0;
    while i < f.block_ids.len()
        invariant
            i <= f.block_ids.len(),
            v == f.deep_view(),
            blocks@ == frame_blocks(v, i as int),
        decreases f.block_ids.len() - i,
    {
        let marker = text_or_empty(&f.block_refs, i);
        let has_marker = marker.as_str().unicode_len() > 0;
        let at = BlockAt {
            kind: text_or_empty(&f.kinds, i),
            content: text_or_empty(&f.contents, i),
            block_ref_id: if has_marker {
                Some(marker)
            } else {
                None
            },
            attrs: if i < f.attrs.len() {
                json_copy(&f.attrs[i])
            } else {
                Json::Null
            },
            parent: if i < f.parents.len() {
                f.parents[i]
            } else {
                None
            },
        };
        proof {
            reveal_strlit("");
            assert(i < f.attrs.len() ==> v.attrs[i as int] == f.attrs[i as int]@);
        }
        assert(at.deep_view() == frame_block(v, i as int));
        blocks.insert(f.block_ids[i], at);
        i += 1;
    }
    StateAt {
        path: f.path.clone(),
        preamble: f.preamble.clone(),
        props: json_copy(&f.props),
        tiles: copy_texts(&f.tiles),
        ids: copy_ids(&f.block_ids),
        place: group(&f.placement),
        heads: copy_lists(&f.head_paths),
        blocks,
    }
}

proof fn frame_blocks_are(s: StateView, n: int, id: Uuid)
    requires
        0 <= n <= s.ids.len(),
        forall|i: int| 0 <= i < s.ids.len() ==> s.blocks.contains_key(#[trigger] s.ids[i]),
        forall|k: Uuid| #[trigger]
            s.blocks.contains_key(k) ==> s.blocks[k].block_ref_id != Some(""@),
    ensures
        frame_blocks(frame_of(s), n).contains_key(id) <==> exists|i: int|
            0 <= i < n && #[trigger] s.ids[i] == id,
        frame_blocks(frame_of(s), n).contains_key(id) ==> frame_blocks(frame_of(s), n)[id]
            == s.blocks[id],
    decreases n,
{
    reveal_strlit("");
    if n > 0 {
        frame_blocks_are(s, n - 1, id);
        let f = frame_of(s);
        let b = s.blocks[s.ids[n - 1]];
        assert(s.blocks.contains_key(s.ids[n - 1]));
        assert(f.block_refs[n - 1] == ref_column(b.block_ref_id));
        if let Some(r) = b.block_ref_id {
            if r.len() == 0 {
                assert(r =~= ""@);
            }
        }
        assert(frame_block(f, n - 1) == b);
        if exists|i: int| 0 <= i < n && #[trigger] s.ids[i] == id {
            let i = choose|i: int| 0 <= i < n && #[trigger] s.ids[i] == id;
            if i < n - 1 {
                assert(s.ids[i] == id);
            }
        }
    }
}

/// A snapshot holds the whole state: what is read from the snapshot of a state
/// is that state, for a state that holds exactly the blocks it names, none of
/// them with an empty marker.
pub proof fn snapshot_keeps_the_state(s: StateView)
    requires
        forall|i: int| 0 <= i < s.ids.len() ==> s.blocks.contains_key(#[trigger] s.ids[i]),
        forall|k: Uuid| #[trigger] s.blocks.contains_key(k) ==> s.ids.contains(k),
        forall|k: Uuid| #[trigger]
            s.blocks.contains_key(k) ==> s.blocks[k].block_ref_id != Some(""@),
    ensures
        state_of(frame_of(s)) == s,
{
    let n = s.ids.len() as int;
    let got = frame_blocks(frame_of(s), n);
    grouping_undoes_flattening(s.place);
    assert forall|id: Uuid|
        #[trigger] got.dom().contains(id) == s.blocks.dom().contains(id) && (got.dom().contains(id)
            ==> got[id] == s.blocks[id]) by {
        frame_blocks_are(s, n, id);
        if s.blocks.contains_key(id) {
            let i = choose|i: int| 0 <= i < s.ids.len() && s.ids[i] == id;
            assert(s.ids[i] == id);
        }
    }
    assert(got.dom() =~= s.blocks.dom());
    assert(got =~= s.blocks);
    assert(state_of(frame_of(s)) =~= s);
}

/// What is stored holds exactly the blocks that it names.
pub proof fn stored_holds_its_blocks(s: Stored)
    ensures
        forall|i: int|
            0 <= i < s.state().ids.len() ==> s.state().blocks.contains_key(
                #[trigger] s.state().ids[i],
            ),
        forall|k: Uuid| #[trigger]
            s.state().blocks.contains_key(k) ==> s.state().ids.contains(k),
{
    let n = s.rows.len() as int;
    let st = s.state();
    assert forall|i: int| 0 <= i < st.ids.len() implies st.blocks.contains_key(
        #[trigger] st.ids[i],
    ) by {
        rows_map_facts(s.rows, n, st.ids[i]);
        assert(s.rows[i].id == st.ids[i]);
    }
    assert forall|k: Uuid| #[trigger] st.blocks.contains_key(k) implies st.ids.contains(k) by {
        rows_map_facts(s.rows, n, k);
        let i = choose|i: int| 0 <= i < n && (#[trigger] s.rows[i]).id == k;
        assert(st.ids[i] == k);
    }
}

/// What is stored of a note reads back from its snapshot, where no block has an
/// empty marker.
pub proof fn a_stored_note_reads_back_from_its_snapshot(s: Stored)
    requires
        forall|i: int|
            0 <= i < s.rows.len() ==> (#[trigger] s.rows[i]).block_ref_id != Some(""@),
    ensures
        state_of(frame_of(s.state())) == s.state(),
{
    stored_holds_its_blocks(s);
    let st = s.state();
    assert forall|k: Uuid| #[trigger] st.blocks.contains_key(k) implies st.blocks[k].block_ref_id
        != Some(""@) by {
        rows_hold_no_empty_marker(s.rows, s.rows.len() as int, k);
    }
    snapshot_keeps_the_state(st);
}

proof fn rows_hold_no_empty_marker(rows: Seq<RowView>, n: int, k: Uuid)
    requires
        0 <= n <= rows.len(),
        rows_map(rows, n).contains_key(k),
        forall|i: int| 0 <= i < rows.len() ==> (#[trigger] rows[i]).block_ref_id != Some(""@),
    ensures
        rows_map(rows, n)[k].block_ref_id != Some(""@),
    decreases n,
{
    if n > 0 && rows[n - 1].id != k {
        rows_hold_no_empty_marker(rows, n - 1, k);
    } else if n > 0 {
        assert(rows[n - 1].block_ref_id != Some(""@));
    }
}

} // verus!
