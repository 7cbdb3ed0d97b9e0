//! A pre-image as it is stored, and read again: places as numbers, heading paths
//! as JSON, effects in portions.

use vstd::prelude::*;
use vstd::string::*;

use crate::document::opt_text;
use crate::extraction::text_or_empty;
use crate::frame::{flat, flatten};
use crate::history::{Bind, BlockPre, Effect, EffectView, PreImage};
use crate::ids::Uuid;
use crate::json::{array_of, item_list, items_view, items_view_index, Json, JsonView};
use crate::rows::{
    chunks, effect_content, effect_object, effect_rows_indexed, portion, portions, texts_json,
    texts_view,
};
use crate::state::{AtView, BlockAt};
use crate::timetravel::{redacted, undone_one};

verus! {

/// Lists of texts as JSON.
pub open spec fn lists_view(v: Seq<Seq<Seq<char>>>) -> JsonView {
    JsonView::Array(Seq::new(v.len(), |i: int| texts_view(v[i])))
}

/// Lists of texts as JSON.
pub fn lists_json(v: &Vec<Vec<String>>) -> (r: Json)
    ensures
        r@ == lists_view(v.deep_view()),
{
    let mut out: Vec<Json> = Vec::new();
    let mut i: usize = 0;
    while i < v.len()
        invariant
            i <= v.len(),
            out.len() == i,
            forall|k: int| 0 <= k < i ==> (#[trigger] out[k])@ == texts_view(v[k].deep_view()),
        decreases v.len() - i,
    {
        out.push(texts_json(&v[i]));
        i += 1;
    }
    assert(item_list(out@) =~= lists_view(v.deep_view())->Array_0);
    array_of(out)
}

/// The texts that a JSON array is, where it is an array of texts.
pub open spec fn texts_in(j: JsonView) -> Option<Seq<Seq<char>>> {
    match j {
        JsonView::Array(v) => if forall|i: int| 0 <= i < v.len() ==> (#[trigger] v[i]) is Str {
            Some(Seq::new(v.len(), |i: int| v[i]->Str_0))
        } else {
            None
        },
        _ => None,
    }
}

/// The lists of texts that a JSON array is; none where it is anything else.
pub open spec fn lists_in(j: JsonView) -> Seq<Seq<Seq<char>>> {
    match j {
        JsonView::Array(v) => if forall|i: int| 0 <= i < v.len() ==> texts_in(#[trigger] v[i]) is Some {
            Seq::new(v.len(), |i: int| texts_in(v[i])->0)
        } else {
            Seq::empty()
        },
        _ => Seq::empty(),
    }
}

fn read_texts(j: &Json) -> (r: Option<Vec<String>>)
    ensures
        texts_in(j@) == (match r {
            Some(v) => Some(v.deep_view()),
            None => None,
        }),
{
    match j {
        Json::Array(v) => {
            let ghost w = items_view(*v, v.len() as int);
            proof {
                items_view_index(*v, v.len() as int);
            }
            let mut out: Vec<String> = Vec::new();
            let mut i: usize = 0;
            while i < v.len()
                invariant
                    i <= v.len(),
                    *j == Json::Array(*v),
                    w == items_view(*v, v.len() as int),
                    w.len() == v.len(),
                    forall|k: int| 0 <= k < v.len() ==> #[trigger] w[k] == v[k]@,
                    out.len() == i,
                    forall|k: int| 0 <= k < i ==> w[k] == JsonView::Str((#[trigger] out[k])@),
                decreases v.len() - i,
            {
                assert(w[i as int] == v[i as int]@);
                match &v[i] {
                    Json::Str(t) => {
                        out.push(t.clone());
                    },
                    _ => {
                        assert(!(w[i as int] is Str));
                        return None;
                    },
                }
                i += 1;
            }
            proof {
                assert forall|k: int| 0 <= k < w.len() implies (#[trigger] w[k]) is Str by {
                    assert(w[k] == JsonView::Str(out[k]@));
                }
                assert(out.deep_view() =~= Seq::new(w.len(), |i: int| w[i]->Str_0)) by {
                    assert forall|k: int| 0 <= k < w.len() implies out.deep_view()[k]
                        == w[k]->Str_0 by {
                        assert(w[k] == JsonView::Str(out[k]@));
                    }
                }
            }
            Some(out)
        },
        _ => None,
    }
}

/// The lists of texts that a JSON array is; none where it is anything else.
pub fn read_lists(j: &Json) -> (r: Vec<Vec<String>>)
    ensures
        r.deep_view() == lists_in(j@),
{
    let mut out: Vec<Vec<String>> = Vec::new();
    match j {
        Json::Array(v) => {
            let ghost w = items_view(*v, v.len() as int);
            proof {
                items_view_index(*v, v.len() as int);
            }
            let mut i: usize = 0;
            while i < v.len()
                invariant
                    i <= v.len(),
                    *j == Json::Array(*v),
                    w == items_view(*v, v.len() as int),
                    w.len() == v.len(),
                    forall|k: int| 0 <= k < v.len() ==> #[trigger] w[k] == v[k]@,
                    out.len() == i,
                    forall|k: int|
                        0 <= k < i ==> texts_in(w[k]) == Some((#[trigger] out[k]).deep_view()),
                decreases v.len() - i,
            {
                assert(w[i as int] == v[i as int]@);
                match read_texts(&v[i]) {
                    Some(t) => {
                        out.push(t);
                    },
                    None => {
                        assert(texts_in(w[i as int]) is None);
                        let none: Vec<Vec<String>> = Vec::new();
                        assert(none.deep_view() =~= Seq::empty());
                        return none;
                    },
                }
                i += 1;
            }
            proof {
                assert forall|k: int| 0 <= k < w.len() implies texts_in(#[trigger] w[k]) is Some by {
                    assert(texts_in(w[k]) == Some(out[k].deep_view()));
                }
                assert forall|k: int| 0 <= k < w.len() implies out.deep_view()[k] == texts_in(
                    w[k],
                )->0 by {
                    assert(texts_in(w[k]) == Some(out[k].deep_view()));
                }
                assert(out.deep_view() =~= lists_in(j@));
            }
        },
        _ => {
            assert(out.deep_view() =~= Seq::empty());
        },
    }
    out
}

/// Heading paths read back as they were stored.
pub proof fn lists_read_back(v: Seq<Seq<Seq<char>>>)
    ensures
        lists_in(lists_view(v)) == v,
{
    let j = lists_view(v)->Array_0;
    assert forall|i: int| 0 <= i < j.len() implies texts_in(#[trigger] j[i]) == Some(v[i]) by {
        let t = texts_view(v[i])->Array_0;
        assert(forall|k: int| 0 <= k < t.len() ==> (#[trigger] t[k]) is Str);
        assert(texts_in(j[i])->0 =~= v[i]);
    }
    assert(lists_in(lists_view(v)) =~= v);
}

/// The columns of a pre-image that are not stored as they are.
#[derive(Debug)]
pub struct Record {
    pub place_prev: Vec<i32>,
    pub head_prev: Json,
    /// The effects in portions: objects, and the contents beside them.
    pub effects: Vec<(Json, Vec<String>)>,
}

/// One portion of effects: objects numbered from one.
pub open spec fn portion_objects(effects: Seq<EffectView>, from: int, to: int) -> JsonView {
    JsonView::Array(
        Seq::new((to - from) as nat, |k: int| effect_object(effects[from + k], k + 1)),
    )
}

pub open spec fn portion_contents(effects: Seq<EffectView>, from: int, to: int) -> Seq<Seq<char>> {
    Seq::new((to - from) as nat, |k: int| effect_content(effects[from + k]))
}

/// A pre-image as it is stored.
pub fn record(pre: &PreImage) -> (r: Record)
    ensures
        r.place_prev@ == flat(pre.place_prev@),
        r.head_prev@ == lists_view(pre.head_prev.deep_view()),
        r.effects.len() == portions(pre.effects.len() as int),
        forall|i: int|
            0 <= i < r.effects.len() ==> {
                let (from, to) = portion(pre.effects.len() as int, i);
                &&& (#[trigger] r.effects[i]).0@ == portion_objects(
                    pre.effects.deep_view(),
                    from,
                    to,
                )
                &&& r.effects[i].1.deep_view() == portion_contents(
                    pre.effects.deep_view(),
                    from,
                    to,
                )
            },
{
    let ghost ev = pre.effects.deep_view();
    let ranges = chunks(pre.effects.len());
    let mut effects: Vec<(Json, Vec<String>)> = Vec::new();
    let mut i: usize = 0;
    while i < ranges.len()
        invariant
            i <= ranges.len(),
            ev == pre.effects.deep_view(),
            ranges.len() == portions(pre.effects.len() as int),
            forall|k: int|
                0 <= k < ranges.len() ==> ((#[trigger] ranges[k]).0 as int, ranges[k].1 as int)
                    == portion(pre.effects.len() as int, k),
            effects.len() == i,
            forall|k: int|
                0 <= k < i ==> {
                    let (from, to) = portion(pre.effects.len() as int, k);
                    &&& (#[trigger] effects[k]).0@ == portion_objects(ev, from, to)
                    &&& effects[k].1.deep_view() == portion_contents(ev, from, to)
                },
        decreases ranges.len() - i,
    {
        let (from, to) = ranges[i];
        assert((ranges[i as int].0 as int, ranges[i as int].1 as int) == portion(
            pre.effects.len() as int,
            i as int,
        ));
        effects.push(effect_rows_indexed(&pre.effects, from, to));
        i += 1;
    }
    Record {
        place_prev: flatten(&pre.place_prev),
        head_prev: lists_json(&pre.head_prev),
        effects,
    }
}

/// An effect as its columns say it. A block that existed and whose content is absent
/// was erased: nothing is known of what it was.
pub open spec fn effect_of(
    block_id: Uuid,
    existed: bool,
    bind: Bind,
    kind: Option<Seq<char>>,
    content: Option<Seq<char>>,
    hash: Seq<u8>,
    marker: Option<Seq<char>>,
    attrs: Option<JsonView>,
    parent: Option<Uuid>,
) -> EffectView {
    EffectView {
        block_id,
        existed,
        prev: match content {
            Some(text) => if existed {
                Some(
                    (
                        AtView {
                            kind: text_or_empty(kind),
                            content: text,
                            block_ref_id: marker,
                            attrs: match attrs {
                                Some(a) => a,
                                None => JsonView::Null,
                            },
                            parent,
                        },
                        hash,
                    ),
                )
            } else {
                None
            },
            None => None,
        },
        bind,
    }
}

fn or_empty(o: Option<String>) -> (r: String)
    ensures
        r@ == text_or_empty(opt_text(o)),
{
    match o {
        Some(t) => t,
        None => "".to_owned(),
    }
}

/// An effect from its columns.
pub fn read_effect(
    block_id: Uuid,
    existed: bool,
    bind: Bind,
    kind: Option<String>,
    content: Option<String>,
    hash: Vec<u8>,
    marker: Option<String>,
    attrs: Option<Json>,
    parent: Option<Uuid>,
) -> (r: Effect)
    ensures
        r.deep_view() == effect_of(
            block_id,
            existed,
            bind,
            opt_text(kind),
            opt_text(content),
            hash@,
            opt_text(marker),
            (match attrs {
                Some(a) => Some(a@),
                None => None,
            }),
            parent,
        ),
{
    let prev = match content {
        Some(text) => if existed {
            Some(
                BlockPre {
                    at: BlockAt {
                        kind: or_empty(kind),
                        content: text,
                        block_ref_id: marker,
                        attrs: match attrs {
                            Some(a) => a,
                            None => Json::Null,
                        },
                        parent,
                    },
                    content_hash: hash,
                },
            )
        } else {
            None
        },
        None => None,
    };
    Effect { block_id, existed, prev, bind }
}

/// An effect reads back as it was stored.
pub proof fn effects_read_back(e: EffectView)
    requires
        e.existed == (e.prev is Some),
    ensures
        match e.prev {
            Some(p) => effect_of(
                e.block_id,
                e.existed,
                e.bind,
                Some(p.0.kind),
                Some(p.0.content),
                p.1,
                p.0.block_ref_id,
                Some(p.0.attrs),
                p.0.parent,
            ) == e,
            None => effect_of(
                e.block_id,
                e.existed,
                e.bind,
                None,
                None,
                Seq::empty(),
                None,
                None,
                None,
            ) == e,
        },
{
}

/// A block whose recorded content was erased is reported as erased: the past does not
/// take on the newer value.
pub proof fn what_was_erased_reads_as_erased(
    blocks: Map<Uuid, AtView>,
    block_id: Uuid,
    bind: Bind,
    kind: Option<Seq<char>>,
    hash: Seq<u8>,
    marker: Option<Seq<char>>,
    attrs: Option<JsonView>,
    parent: Option<Uuid>,
)
    ensures
        undone_one(
            blocks,
            effect_of(block_id, true, bind, kind, None, hash, marker, attrs, parent),
        ) == blocks.insert(block_id, redacted()),
{
}

} // verus!
