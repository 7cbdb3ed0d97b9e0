//! Rows as the batched statements take them: JSON objects in portions, with the
//! unbounded texts in lists of their own.

use vstd::prelude::*;
use vstd::string::*;

use crate::carry::Carry;
use crate::document::opt_text;
use crate::extraction::{EdgeRow, TagKey};
use crate::history::{Effect, EffectView};
use crate::ids::{hex, hex_of, uuid_text, Uuid};
use crate::json::{array_of, item_list, json_copy, member, member_list, object_of, Json, JsonView};
use crate::store::{BlockRow, RowView};

verus! {

/// Rows in one statement.
pub const LANE_CHUNK_ROWS: usize = 2048;

/// How many portions `len` rows come in.
pub open spec fn portions(len: int) -> int {
    (len + 2047) / 2048
}

/// The rows of portion `i`, from one index to another.
pub open spec fn portion(len: int, i: int) -> (int, int) {
    (
        2048 * i,
        if 2048 * (i + 1) <= len {
            2048 * (i + 1)
        } else {
            len
        },
    )
}

/// The portions that `len` rows are written in.
pub fn chunks(len: usize) -> (r: Vec<(usize, usize)>)
    ensures
        r.len() == portions(len as int),
        forall|i: int|
            0 <= i < r.len() ==> ((#[trigger] r[i]).0 as int, r[i].1 as int) == portion(
                len as int,
                i,
            ),
{
    let mut out: Vec<(usize, usize)> = Vec::new();
    let mut from: usize = 0;
    while from < len
        invariant
            from == 2048 * out.len() || from == len,
            from <= len,
            from < len ==> from == 2048 * out.len(),
            from == len ==> out.len() == portions(len as int),
            forall|i: int|
                0 <= i < out.len() ==> ((#[trigger] out[i]).0 as int, out[i].1 as int) == portion(
                    len as int,
                    i,
                ),
        decreases len - from,
    {
        let to: usize = if len - from > LANE_CHUNK_ROWS {
            from + LANE_CHUNK_ROWS
        } else {
            len
        };
        out.push((from, to));
        from = to;
    }
    out
}

/// Every row is in exactly one portion, and the portions follow each other.
pub proof fn portions_cover_every_row(len: int, k: int)
    requires
        0 <= k < len,
    ensures
        ({
            let i = k / 2048;
            &&& 0 <= i < portions(len)
            &&& portion(len, i).0 <= k < portion(len, i).1
            &&& forall|j: int|
                0 <= j < portions(len) && j != i ==> !((#[trigger] portion(len, j)).0 <= k < portion(
                    len,
                    j,
                ).1)
        }),
{
}

fn id_json(id: Uuid) -> (r: Json)
    ensures
        r@ == JsonView::Str(uuid_text(id)),
{
    Json::Str(id.to_text())
}

pub open spec fn opt_id_view(id: Option<Uuid>) -> JsonView {
    match id {
        Some(u) => JsonView::Str(uuid_text(u)),
        None => JsonView::Null,
    }
}

fn opt_id_json(id: Option<Uuid>) -> (r: Json)
    ensures
        r@ == opt_id_view(id),
{
    match id {
        Some(u) => id_json(u),
        None => Json::Null,
    }
}

pub open spec fn opt_text_view(s: Option<Seq<char>>) -> JsonView {
    match s {
        Some(t) => JsonView::Str(t),
        None => JsonView::Null,
    }
}

fn opt_text_json(s: &Option<String>) -> (r: Json)
    ensures
        r@ == opt_text_view(opt_text(*s)),
{
    match s {
        Some(t) => Json::Str(t.clone()),
        None => Json::Null,
    }
}

pub open spec fn texts_view(v: Seq<Seq<char>>) -> JsonView {
    JsonView::Array(Seq::new(v.len(), |i: int| JsonView::Str(v[i])))
}

/// A JSON array of texts.
pub fn texts_json(v: &Vec<String>) -> (r: Json)
    ensures
        r@ == texts_view(v.deep_view()),
{
    let mut out: Vec<Json> = Vec::new();
    let mut i: usize = 0;
    while i < v.len()
        invariant
            i <= v.len(),
            out.len() == i,
            forall|k: int| 0 <= k < i ==> (#[trigger] out[k])@ == JsonView::Str(v[k]@),
        decreases v.len() - i,
    {
        out.push(Json::Str(v[i].clone()));
        i += 1;
    }
    assert(item_list(out@) =~= texts_view(v.deep_view())->Array_0);
    array_of(out)
}

/// A block's row as a JSON object, under this number. Its content is not in it:
/// it travels in a list of texts, under the same number.
pub open spec fn block_object(b: RowView, number: int) -> JsonView {
    JsonView::Object(
        seq![
            ("attrs"@, b.attrs),
            ("block_ref_id"@, opt_text_view(b.block_ref_id)),
            ("content_hash"@, JsonView::Str(hex_of(b.content_hash))),
            ("end_in_tile"@, JsonView::Int(b.end_in_tile as int)),
            ("heading_path"@, texts_view(b.heading_path)),
            ("i"@, JsonView::Int(number)),
            ("id"@, JsonView::Str(uuid_text(b.id))),
            ("kind"@, JsonView::Str(b.kind)),
            ("ord"@, JsonView::Int(b.ord as int)),
            ("parent_block"@, opt_id_view(b.parent_block)),
            ("start_in_tile"@, JsonView::Int(b.start_in_tile as int)),
            ("tile_ord"@, JsonView::Int(b.tile_ord as int)),
        ],
    )
}

/// A block's row as a JSON object, under this number.
pub fn block_row_json(b: &BlockRow, number: usize) -> (r: Json)
    ensures
        r@ == block_object(b.deep_view(), number as int),
{
    let mut m: Vec<(String, Json)> = Vec::new();
    m.push(("attrs".to_owned(), json_copy(&b.attrs)));
    m.push(("block_ref_id".to_owned(), opt_text_json(&b.block_ref_id)));
    m.push(("content_hash".to_owned(), Json::Str(hex(b.content_hash.as_slice()))));
    m.push(("end_in_tile".to_owned(), Json::Int(b.end_in_tile as i128)));
    m.push(("heading_path".to_owned(), texts_json(&b.heading_path)));
    m.push(("i".to_owned(), Json::Int(number as i128)));
    m.push(("id".to_owned(), id_json(b.id)));
    m.push(("kind".to_owned(), Json::Str(b.kind.clone())));
    m.push(("ord".to_owned(), Json::Int(b.ord as i128)));
    m.push(("parent_block".to_owned(), opt_id_json(b.parent_block)));
    m.push(("start_in_tile".to_owned(), Json::Int(b.start_in_tile as i128)));
    m.push(("tile_ord".to_owned(), Json::Int(b.tile_ord as i128)));
    assert(member_list(m@) =~= block_object(b.deep_view(), number as int)->Object_0);
    object_of(m)
}

/// One portion of block rows: the objects, numbered from one, and the contents.
pub fn block_rows_indexed(rows: &Vec<BlockRow>, from: usize, to: usize) -> (r: (Json, Vec<String>))
    requires
        from <= to <= rows.len(),
    ensures
        r.0@ == JsonView::Array(
            Seq::new(
                (to - from) as nat,
                |k: int| block_object(rows.deep_view()[from + k], k + 1),
            ),
        ),
        r.1.deep_view() == Seq::new(
            (to - from) as nat,
            |k: int| rows.deep_view()[from + k].content,
        ),
{
    let ghost v = rows.deep_view();
    let mut items: Vec<Json> = Vec::new();
    let mut texts: Vec<String> = Vec::new();
    let mut i: usize = from;
    while i < to
        invariant
            from <= i <= to <= rows.len(),
            v == rows.deep_view(),
            items.len() == i - from,
            texts.len() == i - from,
            forall|k: int|
                0 <= k < i - from ==> (#[trigger] items[k])@ == block_object(v[from + k], k + 1),
            forall|k: int| 0 <= k < i - from ==> (#[trigger] texts[k])@ == v[from + k].content,
        decreases to - i,
    {
        assert(v[i as int] == rows[i as int].deep_view());
        items.push(block_row_json(&rows[i], i - from + 1));
        texts.push(rows[i].content.clone());
        i += 1;
    }
    proof {
        assert(item_list(items@) =~= Seq::new(
            (to - from) as nat,
            |k: int| block_object(rows.deep_view()[from + k], k + 1),
        ));
        assert(texts.deep_view() =~= Seq::new(
            (to - from) as nat,
            |k: int| rows.deep_view()[from + k].content,
        ));
    }
    (array_of(items), texts)
}

/// What of a block's pre-image a row of effects holds.
pub open spec fn effect_object(e: EffectView, number: int) -> JsonView {
    let none = JsonView::Null;
    JsonView::Object(
        seq![
            ("bind"@, JsonView::Str(e.bind.label())),
            ("block_id"@, JsonView::Str(uuid_text(e.block_id))),
            ("existed"@, JsonView::Bool(e.existed)),
            ("i"@, JsonView::Int(number)),
            (
                "prev_attrs"@,
                match e.prev {
                    Some(p) => p.0.attrs,
                    None => none,
                },
            ),
            (
                "prev_block_ref_id"@,
                match e.prev {
                    Some(p) => opt_text_view(p.0.block_ref_id),
                    None => none,
                },
            ),
            (
                "prev_content_hash"@,
                match e.prev {
                    Some(p) => JsonView::Str(hex_of(p.1)),
                    None => none,
                },
            ),
            (
                "prev_kind"@,
                match e.prev {
                    Some(p) => JsonView::Str(p.0.kind),
                    None => none,
                },
            ),
            (
                "prev_parent_block"@,
                match e.prev {
                    Some(p) => opt_id_view(p.0.parent),
                    None => none,
                },
            ),
        ],
    )
}

/// An effect as a JSON object, under this number.
pub fn effect_json(e: &Effect, number: usize) -> (r: Json)
    ensures
        r@ == effect_object(e.deep_view(), number as int),
{
    let (attrs, marker, hash, kind, parent) = match &e.prev {
        Some(p) => (
            json_copy(&p.at.attrs),
            opt_text_json(&p.at.block_ref_id),
            Json::Str(hex(p.content_hash.as_slice())),
            Json::Str(p.at.kind.clone()),
            opt_id_json(p.at.parent),
        ),
        None => (Json::Null, Json::Null, Json::Null, Json::Null, Json::Null),
    };
    let mut m: Vec<(String, Json)> = Vec::new();
    m.push(("bind".to_owned(), Json::Str(e.bind.name().to_owned())));
    m.push(("block_id".to_owned(), id_json(e.block_id)));
    m.push(("existed".to_owned(), Json::Bool(e.existed)));
    m.push(("i".to_owned(), Json::Int(number as i128)));
    m.push(("prev_attrs".to_owned(), attrs));
    m.push(("prev_block_ref_id".to_owned(), marker));
    m.push(("prev_content_hash".to_owned(), hash));
    m.push(("prev_kind".to_owned(), kind));
    m.push(("prev_parent_block".to_owned(), parent));
    assert(member_list(m@) =~= effect_object(e.deep_view(), number as int)->Object_0);
    object_of(m)
}

/// The content that an effect records: the empty text where there is none.
pub open spec fn effect_content(e: EffectView) -> Seq<char> {
    match e.prev {
        Some(p) => p.0.content,
        None => ""@,
    }
}

/// One portion of effects: the objects, numbered from one, and the contents.
pub fn effect_rows_indexed(effects: &Vec<Effect>, from: usize, to: usize) -> (r: (
    Json,
    Vec<String>,
))
    requires
        from <= to <= effects.len(),
    ensures
        r.0@ == JsonView::Array(
            Seq::new(
                (to - from) as nat,
                |k: int| effect_object(effects.deep_view()[from + k], k + 1),
            ),
        ),
        r.1.deep_view() == Seq::new(
            (to - from) as nat,
            |k: int| effect_content(effects.deep_view()[from + k]),
        ),
{
    let ghost v = effects.deep_view();
    let mut items: Vec<Json> = Vec::new();
    let mut texts: Vec<String> = Vec::new();
    let mut i: usize = from;
    while i < to
        invariant
            from <= i <= to <= effects.len(),
            v == effects.deep_view(),
            items.len() == i - from,
            texts.len() == i - from,
            forall|k: int|
                0 <= k < i - from ==> (#[trigger] items[k])@ == effect_object(v[from + k], k + 1),
            forall|k: int| 0 <= k < i - from ==> (#[trigger] texts[k])@ == effect_content(v[from + k]),
        decreases to - i,
    {
        assert(v[i as int] == effects[i as int].deep_view());
        items.push(effect_json(&effects[i], i - from + 1));
        texts.push(
            match &effects[i].prev {
                Some(p) => p.at.content.clone(),
                None => "".to_owned(),
            },
        );
        i += 1;
    }
    proof {
        assert(item_list(items@) =~= Seq::new(
            (to - from) as nat,
            |k: int| effect_object(effects.deep_view()[from + k], k + 1),
        ));
        assert(texts.deep_view() =~= Seq::new(
            (to - from) as nat,
            |k: int| effect_content(effects.deep_view()[from + k]),
        ));
    }
    (array_of(items), texts)
}

/// A list of ids as metadata holds it: more than 200 are cut off, and counted.
pub open spec fn capped_view(ids: Seq<Uuid>) -> JsonView {
    let shown = if ids.len() > 200 {
        ids.take(200)
    } else {
        ids
    };
    let list = JsonView::Array(
        Seq::new(shown.len(), |i: int| JsonView::Str(uuid_text(shown[i]))),
    );
    if ids.len() > 200 {
        JsonView::Object(
            seq![
                ("count"@, JsonView::Int(ids.len() as int)),
                ("list"@, list),
                ("truncated"@, JsonView::Bool(true)),
            ],
        )
    } else {
        list
    }
}

/// A list of ids as metadata holds it.
pub fn capped(ids: &Vec<Uuid>) -> (r: Json)
    ensures
        r@ == capped_view(ids@),
{
    let n: usize = if ids.len() > 200 {
        200
    } else {
        ids.len()
    };
    let mut out: Vec<Json> = Vec::new();
    let mut i: usize = 0;
    while i < n
        invariant
            i <= n <= ids.len(),
            out.len() == i,
            forall|k: int| 0 <= k < i ==> (#[trigger] out[k])@ == JsonView::Str(uuid_text(ids[k])),
        decreases n - i,
    {
        out.push(id_json(ids[i]));
        i += 1;
    }
    proof {
        let shown = if ids.len() > 200 {
            ids@.take(200)
        } else {
            ids@
        };
        assert(item_list(out@) =~= Seq::new(
            shown.len(),
            |i: int| JsonView::Str(uuid_text(shown[i])),
        ));
    }
    let list = array_of(out);
    if ids.len() > 200 {
        let mut m: Vec<(String, Json)> = Vec::new();
        m.push(("count".to_owned(), Json::Int(ids.len() as i128)));
        m.push(("list".to_owned(), list));
        m.push(("truncated".to_owned(), Json::Bool(true)));
        assert(member_list(m@) =~= capped_view(ids@)->Object_0);
        object_of(m)
    } else {
        list
    }
}

/// The metadata of a write: what was minted, carried and removed.
pub open spec fn meta_view(op: Seq<char>, c: Carry) -> JsonView {
    JsonView::Object(
        seq![
            ("carried"@, carried_view(c)),
            ("minted"@, capped_view(c.minted@)),
            ("op"@, JsonView::Str(op)),
            ("removed"@, capped_view(c.removed@)),
        ],
    )
}

/// The metadata of a write.
pub fn write_meta(op: &str, c: &Carry) -> (r: Json)
    ensures
        r@ == meta_view(op@, *c),
{
    let mut m: Vec<(String, Json)> = Vec::new();
    m.push(("carried".to_owned(), carried_json(c)));
    m.push(("minted".to_owned(), capped(&c.minted)));
    m.push(("op".to_owned(), Json::Str(op.to_owned())));
    m.push(("removed".to_owned(), capped(&c.removed)));
    assert(member_list(m@) =~= meta_view(op@, *c)->Object_0);
    object_of(m)
}

/// The metadata of a rename: the two paths.
pub open spec fn move_view(from: Seq<char>, to: Seq<char>) -> JsonView {
    let names = JsonView::Object(seq![("from"@, JsonView::Str(from)), ("to"@, JsonView::Str(to))]);
    JsonView::Object(seq![("move"@, names)])
}

/// The metadata of a rename.
pub fn move_meta(from: &str, to: &str) -> (r: Json)
    ensures
        r@ == move_view(from@, to@),
{
    let mut names: Vec<(String, Json)> = Vec::new();
    names.push(("from".to_owned(), Json::Str(from.to_owned())));
    names.push(("to".to_owned(), Json::Str(to.to_owned())));
    assert(member_list(names@) =~= seq![("from"@, JsonView::Str(from@)), ("to"@, JsonView::Str(to@))]);
    let mut m: Vec<(String, Json)> = Vec::new();
    m.push(("move".to_owned(), object_of(names)));
    assert(member_list(m@) =~= move_view(from@, to@)->Object_0);
    object_of(m)
}

/// A new edge as a JSON object.
pub open spec fn edge_object(e: EdgeRow) -> JsonView {
    JsonView::Object(
        seq![
            ("alias"@, opt_text_view(opt_text(e.alias))),
            ("dangling_reason"@, opt_text_view(e.resolution.reason_view())),
            ("dst_block_ref"@, opt_text_view(opt_text(e.dst_block_ref))),
            ("dst_heading"@, opt_text_view(opt_text(e.dst_heading))),
            ("dst_note"@, opt_id_view(e.resolution.note_view())),
            ("dst_path"@, JsonView::Str(e.dst_path@)),
            ("kind"@, JsonView::Str(e.kind@)),
            ("resolved_via"@, opt_text_view(e.resolution.via_view())),
            ("src_block"@, JsonView::Str(uuid_text(e.src_block))),
        ],
    )
}

fn opt_str_json(s: Option<&'static str>) -> (r: Json)
    ensures
        r@ == (match s {
            Some(t) => JsonView::Str(t@),
            None => JsonView::Null,
        }),
{
    match s {
        Some(t) => Json::Str(t.to_owned()),
        None => Json::Null,
    }
}

/// A new edge as a JSON object.
pub fn edge_json(e: &EdgeRow) -> (r: Json)
    ensures
        r@ == edge_object(*e),
{
    let mut m: Vec<(String, Json)> = Vec::new();
    m.push(("alias".to_owned(), opt_text_json(&e.alias)));
    m.push(("dangling_reason".to_owned(), opt_str_json(e.resolution.reason())));
    m.push(("dst_block_ref".to_owned(), opt_text_json(&e.dst_block_ref)));
    m.push(("dst_heading".to_owned(), opt_text_json(&e.dst_heading)));
    m.push(("dst_note".to_owned(), opt_id_json(e.resolution.dst_note())));
    m.push(("dst_path".to_owned(), Json::Str(e.dst_path.clone())));
    m.push(("kind".to_owned(), Json::Str(e.kind.clone())));
    m.push(("resolved_via".to_owned(), opt_str_json(e.resolution.via())));
    m.push(("src_block".to_owned(), id_json(e.src_block)));
    assert(member_list(m@) =~= edge_object(*e)->Object_0);
    object_of(m)
}

/// A new tag as a JSON object.
pub fn tag_json(t: &TagKey) -> (r: Json)
    ensures
        r@ == JsonView::Object(
            seq![("block_id"@, opt_id_view(t.block)), ("tag"@, JsonView::Str(t.tag@))],
        ),
{
    let mut m: Vec<(String, Json)> = Vec::new();
    m.push(("block_id".to_owned(), opt_id_json(t.block)));
    m.push(("tag".to_owned(), Json::Str(t.tag.clone())));
    assert(member_list(m@) =~= seq![
        ("block_id"@, opt_id_view(t.block)),
        ("tag"@, JsonView::Str(t.tag@)),
    ]);
    object_of(m)
}

/// What an operation adds to its metadata.
#[derive(Debug)]
pub enum Extra {
    Nothing,
    Target(Uuid),
    Split { from: Uuid },
    Merge { into: Uuid, members: Vec<Uuid> },
}

/// What an operation adds.
pub ghost enum ExtraView {
    Nothing,
    Target(Uuid),
    Split { from: Uuid },
    Merge { into: Uuid, members: Seq<Uuid> },
}

impl View for Extra {
    type V = ExtraView;

    open spec fn view(&self) -> ExtraView {
        match *self {
            Extra::Nothing => ExtraView::Nothing,
            Extra::Target(id) => ExtraView::Target(id),
            Extra::Split { from } => ExtraView::Split { from },
            Extra::Merge { into, members } => ExtraView::Merge { into, members: members@ },
        }
    }
}

pub open spec fn ids_view(ids: Seq<Uuid>) -> JsonView {
    JsonView::Array(Seq::new(ids.len(), |i: int| JsonView::Str(uuid_text(ids[i]))))
}

/// A JSON array of ids.
pub fn ids_json(ids: &Vec<Uuid>) -> (r: Json)
    ensures
        r@ == ids_view(ids@),
{
    let mut out: Vec<Json> = Vec::new();
    let mut i: usize = 0;
    while i < ids.len()
        invariant
            i <= ids.len(),
            out.len() == i,
            forall|k: int| 0 <= k < i ==> (#[trigger] out[k])@ == JsonView::Str(uuid_text(ids[k])),
        decreases ids.len() - i,
    {
        out.push(id_json(ids[i]));
        i += 1;
    }
    assert(item_list(out@) =~= ids_view(ids@)->Array_0);
    array_of(out)
}

pub open spec fn carried_view(c: Carry) -> JsonView {
    JsonView::Object(
        seq![
            ("hash"@, JsonView::Int(c.carried_hash as int)),
            ("ref"@, JsonView::Int(c.carried_ref as int)),
        ],
    )
}

fn carried_json(c: &Carry) -> (r: Json)
    ensures
        r@ == carried_view(*c),
{
    let mut m: Vec<(String, Json)> = Vec::new();
    m.push(("hash".to_owned(), Json::Int(c.carried_hash as i128)));
    m.push(("ref".to_owned(), Json::Int(c.carried_ref as i128)));
    assert(member_list(m@) =~= carried_view(*c)->Object_0);
    object_of(m)
}

/// The metadata of an operation: that of a write, what it was done to, and for a
/// split or a merge which block keeps the marker.
pub open spec fn op_meta_view(
    op: Seq<char>,
    extra: ExtraView,
    marker_to: Option<Uuid>,
    c: Carry,
    block_ids: Seq<Uuid>,
) -> JsonView {
    let carried = ("carried"@, carried_view(c));
    let minted = ("minted"@, capped_view(c.minted@));
    let name = ("op"@, JsonView::Str(op));
    let removed = ("removed"@, capped_view(c.removed@));
    match extra {
        ExtraView::Nothing => JsonView::Object(seq![carried, minted, name, removed]),
        ExtraView::Target(id) => JsonView::Object(
            seq![carried, minted, name, removed, ("target"@, JsonView::Str(uuid_text(id)))],
        ),
        ExtraView::Split { from } => JsonView::Object(
            seq![
                carried,
                minted,
                name,
                removed,
                (
                    "split"@,
                    JsonView::Object(
                        seq![
                            ("from"@, JsonView::Str(uuid_text(from))),
                            ("into"@, ids_view(block_ids)),
                            ("marker_to"@, opt_id_view(marker_to)),
                        ],
                    ),
                ),
            ],
        ),
        ExtraView::Merge { into, members } => JsonView::Object(
            seq![
                carried,
                (
                    "merge"@,
                    JsonView::Object(
                        seq![
                            ("from"@, ids_view(members)),
                            ("into"@, JsonView::Str(uuid_text(into))),
                            ("marker_to"@, opt_id_view(marker_to)),
                        ],
                    ),
                ),
                minted,
                name,
                removed,
            ],
        ),
    }
}

/// The metadata of an operation.
pub fn op_meta(
    op: &str,
    extra: &Extra,
    marker_to: Option<Uuid>,
    c: &Carry,
    block_ids: &Vec<Uuid>,
) -> (r: Json)
    ensures
        r@ == op_meta_view(op@, extra@, marker_to, *c, block_ids@),
{
    let mut m: Vec<(String, Json)> = Vec::new();
    m.push(("carried".to_owned(), carried_json(c)));
    if let Extra::Merge { into, members } = extra {
        let mut o: Vec<(String, Json)> = Vec::new();
        o.push(("from".to_owned(), ids_json(members)));
        o.push(("into".to_owned(), id_json(*into)));
        o.push(("marker_to".to_owned(), opt_id_json(marker_to)));
        assert(member_list(o@) =~= seq![
            ("from"@, ids_view(members@)),
            ("into"@, JsonView::Str(uuid_text(*into))),
            ("marker_to"@, opt_id_view(marker_to)),
        ]);
        m.push(("merge".to_owned(), object_of(o)));
    }
    m.push(("minted".to_owned(), capped(&c.minted)));
    m.push(("op".to_owned(), Json::Str(op.to_owned())));
    m.push(("removed".to_owned(), capped(&c.removed)));
    if let Extra::Split { from } = extra {
        let mut o: Vec<(String, Json)> = Vec::new();
        o.push(("from".to_owned(), id_json(*from)));
        o.push(("into".to_owned(), ids_json(block_ids)));
        o.push(("marker_to".to_owned(), opt_id_json(marker_to)));
        assert(member_list(o@) =~= seq![
            ("from"@, JsonView::Str(uuid_text(*from))),
            ("into"@, ids_view(block_ids@)),
            ("marker_to"@, opt_id_view(marker_to)),
        ]);
        m.push(("split".to_owned(), object_of(o)));
    }
    if let Extra::Target(id) = extra {
        m.push(("target".to_owned(), id_json(*id)));
    }
    assert(member_list(m@) =~= op_meta_view(op@, extra@, marker_to, *c, block_ids@)->Object_0);
    object_of(m)
}

// ---- what rows say ----

proof fn member_at(m: Seq<(Seq<char>, JsonView)>, i: int)
    requires
        0 <= i < m.len(),
        forall|j: int| 0 <= j < i ==> (#[trigger] m[j]).0 != m[i].0,
    ensures
        member(m, m[i].0) == Some(m[i].1),
    decreases i,
{
    if i > 0 {
        let t = m.drop_first();
        assert(m[0].0 != m[i].0);
        assert forall|j: int| 0 <= j < i - 1 implies (#[trigger] t[j]).0 != t[i - 1].0 by {
            assert(t[j] == m[j + 1]);
        }
        member_at(t, i - 1);
    }
}

/// A block's row says, each under its own name, what the block is and where it stands.
pub proof fn a_block_row_says_what_it_is(b: RowView, number: int)
    ensures
        ({
            let o = block_object(b, number);
            &&& o.get("id"@) == Some(JsonView::Str(uuid_text(b.id)))
            &&& o.get("i"@) == Some(JsonView::Int(number))
            &&& o.get("kind"@) == Some(JsonView::Str(b.kind))
            &&& o.get("ord"@) == Some(JsonView::Int(b.ord as int))
            &&& o.get("tile_ord"@) == Some(JsonView::Int(b.tile_ord as int))
            &&& o.get("start_in_tile"@) == Some(JsonView::Int(b.start_in_tile as int))
            &&& o.get("end_in_tile"@) == Some(JsonView::Int(b.end_in_tile as int))
            &&& o.get("attrs"@) == Some(b.attrs)
            &&& o.get("content_hash"@) == Some(JsonView::Str(hex_of(b.content_hash)))
            &&& o.get("heading_path"@) == Some(
                JsonView::Array(
                    Seq::new(b.heading_path.len(), |i: int| JsonView::Str(b.heading_path[i])),
                ),
            )
            &&& o.get("block_ref_id"@) == Some(
                match b.block_ref_id {
                    Some(t) => JsonView::Str(t),
                    None => JsonView::Null,
                },
            )
            &&& o.get("parent_block"@) == Some(
                match b.parent_block {
                    Some(id) => JsonView::Str(uuid_text(id)),
                    None => JsonView::Null,
                },
            )
        }),
{
    let m = block_object(b, number)->Object_0;
    reveal_strlit("attrs");
    reveal_strlit("block_ref_id");
    reveal_strlit("content_hash");
    reveal_strlit("end_in_tile");
    reveal_strlit("heading_path");
    reveal_strlit("i");
    reveal_strlit("id");
    reveal_strlit("kind");
    reveal_strlit("ord");
    reveal_strlit("parent_block");
    reveal_strlit("start_in_tile");
    reveal_strlit("tile_ord");
    assert(m[0].0.len() == 5 && m[3].0.len() == 11 && m[5].0.len() == 1 && m[6].0.len() == 2);
    assert(m[7].0.len() == 4 && m[8].0.len() == 3 && m[10].0.len() == 13 && m[11].0.len() == 8);
    assert(m[1].0.len() == 12 && m[2].0.len() == 12 && m[4].0.len() == 12 && m[9].0.len() == 12);
    assert(m[1].0[0] == 'b' && m[2].0[0] == 'c' && m[4].0[0] == 'h' && m[9].0[0] == 'p');
    member_at(m, 0);
    member_at(m, 1);
    member_at(m, 2);
    member_at(m, 3);
    member_at(m, 4);
    member_at(m, 5);
    member_at(m, 6);
    member_at(m, 7);
    member_at(m, 8);
    member_at(m, 9);
    member_at(m, 10);
    member_at(m, 11);
}

/// An edge's row says, each under its own name, where the edge starts, what it was
/// written as and what it resolves to, or why it does not.
pub proof fn an_edge_row_says_what_it_is(e: EdgeRow)
    ensures
        ({
            let o = edge_object(e);
            &&& o.get("src_block"@) == Some(JsonView::Str(uuid_text(e.src_block)))
            &&& o.get("kind"@) == Some(JsonView::Str(e.kind@))
            &&& o.get("dst_path"@) == Some(JsonView::Str(e.dst_path@))
            &&& o.get("alias"@) == Some(opt_text_view(opt_text(e.alias)))
            &&& o.get("dst_block_ref"@) == Some(opt_text_view(opt_text(e.dst_block_ref)))
            &&& o.get("dst_heading"@) == Some(opt_text_view(opt_text(e.dst_heading)))
            &&& o.get("dst_note"@) == Some(opt_id_view(e.resolution.note_view()))
            &&& o.get("resolved_via"@) == Some(opt_text_view(e.resolution.via_view()))
            &&& o.get("dangling_reason"@) == Some(opt_text_view(e.resolution.reason_view()))
        }),
{
    let m = edge_object(e)->Object_0;
    reveal_strlit("alias");
    reveal_strlit("dangling_reason");
    reveal_strlit("dst_block_ref");
    reveal_strlit("dst_heading");
    reveal_strlit("dst_note");
    reveal_strlit("dst_path");
    reveal_strlit("kind");
    reveal_strlit("resolved_via");
    reveal_strlit("src_block");
    assert(m[0].0.len() == 5 && m[1].0.len() == 15 && m[2].0.len() == 13 && m[3].0.len() == 11);
    assert(m[4].0.len() == 8 && m[5].0.len() == 8 && m[4].0[4] == 'n' && m[5].0[4] == 'p');
    assert(m[6].0.len() == 4 && m[7].0.len() == 12 && m[8].0.len() == 9);
    member_at(m, 0);
    member_at(m, 1);
    member_at(m, 2);
    member_at(m, 3);
    member_at(m, 4);
    member_at(m, 5);
    member_at(m, 6);
    member_at(m, 7);
    member_at(m, 8);
}

/// A list of ids in metadata names them all, in order, up to two hundred; a longer one
/// names the first two hundred, says how many there are, and that it is cut off.
pub proof fn a_long_list_is_counted(ids: Seq<Uuid>)
    ensures
        ids.len() <= 200 ==> capped_view(ids) == JsonView::Array(
            Seq::new(ids.len(), |i: int| JsonView::Str(uuid_text(ids[i]))),
        ),
        ids.len() > 200 ==> {
            let o = capped_view(ids);
            &&& o.get("count"@) == Some(JsonView::Int(ids.len() as int))
            &&& o.get("truncated"@) == Some(JsonView::Bool(true))
            &&& o.get("list"@) == Some(
                JsonView::Array(Seq::new(200, |i: int| JsonView::Str(uuid_text(ids[i])))),
            )
        },
{
    if ids.len() > 200 {
        let m = capped_view(ids)->Object_0;
        reveal_strlit("count");
        reveal_strlit("list");
        reveal_strlit("truncated");
        assert(m[0].0.len() == 5 && m[1].0.len() == 4 && m[2].0.len() == 9);
        member_at(m, 0);
        member_at(m, 1);
        member_at(m, 2);
        let shown = ids.take(200);
        assert(Seq::new(shown.len(), |i: int| JsonView::Str(uuid_text(shown[i]))) =~= Seq::new(
            200,
            |i: int| JsonView::Str(uuid_text(ids[i])),
        ));
    }
}

} // verus!
