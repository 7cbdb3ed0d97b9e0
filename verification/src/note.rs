//! A parsed note mapped onto the storage model: tiles, and where in its tile
//! each block stands.

use vstd::prelude::*;
use vstd::string::*;
use vstd::utf8::*;

use crate::document::{tiles, BlockView, Document, DocumentView};
use crate::parse::{document, document_spans_inside, parents_first, parse, spans_inside};
use crate::refs::refs_fit;
use crate::span::Span;
use crate::text::{concat, encode_concat, encode_injective, slice, slice_is_text, sub_text};

verus! {

/// A note: its source, its document, its tiles, and for each block the tile it
/// stands in with its start and end there.
#[derive(Debug)]
pub struct ParsedNote {
    pub source: String,
    pub doc: Document,
    pub tiles: Vec<String>,
    pub placement: Vec<(i32, i32, i32)>,
}

/// What a note is.
pub ghost struct NoteView {
    pub source: Seq<char>,
    pub doc: DocumentView,
    pub tiles: Seq<Seq<char>>,
    pub placement: Seq<(i32, i32, i32)>,
}

impl DeepView for ParsedNote {
    type V = NoteView;

    open spec fn deep_view(&self) -> NoteView {
        NoteView {
            source: self.source@,
            doc: self.doc.deep_view(),
            tiles: self.tiles.deep_view(),
            placement: self.placement@,
        }
    }
}

impl NoteView {
    /// The text before the first tile.
    pub open spec fn preamble(self) -> Seq<char> {
        sub_text(self.source, self.doc.preamble.start as int, self.doc.preamble.end as int)
    }
}

/// A note as parsing gives it: its preamble and tiles are its source, every block
/// has a place, parents come before their children, and references name blocks.
pub open spec fn note_ok(note: NoteView) -> bool {
    &&& note.doc.preamble.within(note.source)
    &&& note.preamble() + concat(note.tiles) == note.source
    &&& note.placement.len() == note.doc.blocks.len()
    &&& parents_first(note.doc.blocks)
    &&& refs_fit(note.doc)
}

/// Every span ends no earlier than it starts.
pub open spec fn ascending(spans: Seq<Span>) -> bool {
    forall|i: int| 0 <= i < spans.len() ==> (#[trigger] spans[i]).start <= spans[i].end
}

/// Index of the first tile from `c` on that ends after `at`.
pub open spec fn tile_from(spans: Seq<Span>, c: int, at: int) -> int
    decreases spans.len() - c,
{
    if 0 <= c < spans.len() && spans[c].end <= at {
        tile_from(spans, c + 1, at)
    } else {
        c
    }
}

/// The tile that block `n` stands in: blocks and tiles are both in document
/// order, so the search goes on where the block before it was found.
pub open spec fn tile_of_block(spans: Seq<Span>, blocks: Seq<BlockView>, n: int) -> int
    decreases n,
{
    tile_from(
        spans,
        if n <= 0 {
            0
        } else {
            tile_of_block(spans, blocks, n - 1)
        },
        blocks[n].span.start as int,
    )
}

/// Block `n` lies inside its tile.
pub open spec fn inside_tile(spans: Seq<Span>, blocks: Seq<BlockView>, n: int) -> bool {
    let t = tile_of_block(spans, blocks, n);
    t < spans.len() && spans[t].start <= blocks[n].span.start && blocks[n].span.end <= spans[t].end
}

/// Where block `n` stands.
pub open spec fn place_of(spans: Seq<Span>, blocks: Seq<BlockView>, n: int) -> (i32, i32, i32) {
    let t = tile_of_block(spans, blocks, n);
    (
        t as i32,
        (blocks[n].span.start - spans[t].start) as i32,
        (blocks[n].span.end - spans[t].start) as i32,
    )
}

/// The note that a source with this document is.
pub open spec fn note_of(source: Seq<char>, doc: DocumentView) -> NoteView {
    NoteView {
        source,
        doc,
        tiles: Seq::new(
            doc.top_level.len(),
            |i: int| sub_text(source, doc.top_level[i].start as int, doc.top_level[i].end as int),
        ),
        placement: Seq::new(
            doc.blocks.len(),
            |i: int| place_of(doc.top_level, doc.blocks, i),
        ),
    }
}

/// Why a document is no note.
#[derive(Debug, Clone, Copy, PartialEq, Eq, Structural)]
pub enum NoteFault {
    /// A tile ends before it starts.
    TileOrder,
    /// A block reaches out of its tile.
    BlockEscapes { start: usize, end: usize },
}

/// Every block of the document lies inside its tile.
pub open spec fn placeable(doc: DocumentView) -> bool {
    forall|i: int| 0 <= i < doc.blocks.len() ==> #[trigger] inside_tile(doc.top_level, doc.blocks, i)
}

/// The first block that reaches out of its tile is at `i`.
pub open spec fn first_escape(doc: DocumentView, i: int) -> bool {
    &&& 0 <= i < doc.blocks.len()
    &&& !inside_tile(doc.top_level, doc.blocks, i)
    &&& forall|k: int| 0 <= k < i ==> #[trigger] inside_tile(doc.top_level, doc.blocks, k)
}

/// Preamble and tiles, one after the other, are the source.
pub proof fn note_is_its_tiles(source: Seq<char>, doc: DocumentView)
    requires
        encode_utf8(source).len() <= usize::MAX,
        tiles(doc.preamble, doc.top_level, encode_utf8(source).len() as int),
        spans_inside(source, doc.top_level),
        spans_inside(source, seq![doc.preamble]),
        ascending(doc.top_level),
    ensures
        note_of(source, doc).preamble() + concat(note_of(source, doc).tiles) == source,
{
    let b = encode_utf8(source);
    let n = doc.top_level.len() as int;
    let note = note_of(source, doc);
    encode_utf8_valid_utf8(source);
    is_char_boundary_start_end_of_seq(b);
    assert(seq![doc.preamble][0] == doc.preamble);
    slice_is_text(b, 0, doc.preamble.end as int);
    tiles_upto(source, doc, n);
    assert(note.tiles.take(n) =~= note.tiles);
    let end = if n == 0 {
        doc.preamble.end as int
    } else {
        doc.top_level[n - 1].end as int
    };
    assert(end == b.len());
    encode_concat(note.preamble(), concat(note.tiles));
    assert(b.subrange(0, doc.preamble.end as int) + b.subrange(doc.preamble.end as int, end) =~= b);
    encode_injective(note.preamble() + concat(note.tiles), source);
}

/// The bytes of the first `k` tiles.
proof fn tiles_upto(source: Seq<char>, doc: DocumentView, k: int)
    requires
        0 <= k <= doc.top_level.len(),
        tiles(doc.preamble, doc.top_level, encode_utf8(source).len() as int),
        spans_inside(source, doc.top_level),
        spans_inside(source, seq![doc.preamble]),
        ascending(doc.top_level),
    ensures
        ({
            let end = if k == 0 {
                doc.preamble.end as int
            } else {
                doc.top_level[k - 1].end as int
            };
            &&& doc.preamble.end <= end <= encode_utf8(source).len()
            &&& encode_utf8(concat(note_of(source, doc).tiles.take(k))) == encode_utf8(
                source,
            ).subrange(doc.preamble.end as int, end)
        }),
    decreases k,
{
    let b = encode_utf8(source);
    let all = note_of(source, doc).tiles;
    let t = all.take(k);
    assert(seq![doc.preamble][0] == doc.preamble);
    if k == 0 {
        assert(t.len() == 0);
        assert(concat(t) =~= Seq::empty());
        assert(encode_utf8(concat(t)) =~= b.subrange(
            doc.preamble.end as int,
            doc.preamble.end as int,
        ));
    } else {
        tiles_upto(source, doc, k - 1);
        assert(t.drop_last() =~= all.take(k - 1));
        let s = doc.top_level[k - 1];
        let from = if k == 1 {
            doc.preamble.end as int
        } else {
            doc.top_level[k - 2].end as int
        };
        assert(s.start == from);
        encode_utf8_valid_utf8(source);
        slice_is_text(b, s.start as int, s.end as int);
        encode_concat(concat(all.take(k - 1)), t.last());
        assert(b.subrange(doc.preamble.end as int, from) + b.subrange(s.start as int, s.end as int)
            =~= b.subrange(doc.preamble.end as int, s.end as int));
    }
}

/// Maps a document onto the storage model.
pub fn note_from(source: &str, doc: Document) -> (r: Result<ParsedNote, NoteFault>)
    requires
        spans_inside(source@, doc.top_level@),
    ensures
        match r {
            Ok(p) => {
                &&& p.deep_view() == note_of(source@, doc.deep_view())
                &&& ascending(doc.top_level@)
                &&& placeable(doc.deep_view())
            },
            Err(NoteFault::TileOrder) => !ascending(doc.top_level@),
            Err(NoteFault::BlockEscapes { start, end }) => {
                &&& ascending(doc.top_level@)
                &&& exists|i: int|
                    {
                        &&& #[trigger] first_escape(doc.deep_view(), i)
                        &&& start == doc.blocks[i].span.start
                        &&& end == doc.blocks[i].span.end
                    }
            },
        },
{
    let ghost view = doc.deep_view();
    let ghost spans = doc.top_level@;
    let mut tiles: Vec<String> = Vec::new();
    let mut i: usize = 0;
    while i < doc.top_level.len()
        invariant
            i <= doc.top_level.len(),
            view == doc.deep_view(),
            spans == doc.top_level@,
            spans_inside(source@, spans),
            tiles.deep_view() == note_of(source@, view).tiles.take(i as int),
            forall|k: int| 0 <= k < i ==> (#[trigger] spans[k]).start <= spans[k].end,
        decreases doc.top_level.len() - i,
    {
        let sp = doc.top_level[i];
        assert(sp == spans[i as int]);
        if sp.start > sp.end {
            return Err(NoteFault::TileOrder);
        }
        let ghost before = tiles.deep_view();
        tiles.push(slice(source, sp.start, sp.end).to_owned());
        proof {
            let t = note_of(source@, view).tiles;
            assert(tiles.deep_view() =~= before.push(t[i as int]));
            assert(t.take(i + 1) =~= t.take(i as int).push(t[i as int]));
        }
        i += 1;
    }
    let mut placement: Vec<(i32, i32, i32)> = Vec::new();
    let mut ti: usize = 0;
    let mut k: usize = 0;
    while k < doc.blocks.len()
        invariant
            k <= doc.blocks.len(),
            view == doc.deep_view(),
            spans == doc.top_level@,
            ascending(spans),
            ti <= spans.len(),
            k > 0 ==> ti == tile_of_block(spans, view.blocks, k - 1),
            k == 0 ==> ti == 0,
            placement@ == note_of(source@, view).placement.take(k as int),
            forall|j: int| 0 <= j < k ==> #[trigger] inside_tile(spans, view.blocks, j),
        decreases doc.blocks.len() - k,
    {
        let b = &doc.blocks[k];
        assert(view.blocks[k as int] == b.deep_view());
        let ghost c0 = ti as int;
        while ti < doc.top_level.len() && doc.top_level[ti].end <= b.span.start
            invariant
                spans == doc.top_level@,
                ti <= spans.len(),
                tile_from(spans, ti as int, b.span.start as int) == tile_from(
                    spans,
                    c0,
                    b.span.start as int,
                ),
            decreases doc.top_level.len() - ti,
        {
            ti += 1;
        }
        assert(ti == tile_of_block(spans, view.blocks, k as int));
        if ti >= doc.top_level.len() || b.span.start < doc.top_level[ti].start || b.span.end
            > doc.top_level[ti].end {
            assert(first_escape(view, k as int));
            return Err(NoteFault::BlockEscapes { start: b.span.start, end: b.span.end });
        }
        let t = doc.top_level[ti];
        if b.span.end < t.start {
            proof {
                assert(inside_tile(spans, view.blocks, k as int));
            }
        }
        let from: i32 = (b.span.start - t.start) as i32;
        let to: i32 = offset_in(b.span.end, t.start);
        placement.push((ti as i32, from, to));
        proof {
            let p = note_of(source@, view).placement;
            assert(p[k as int] == place_of(spans, view.blocks, k as int));
            assert(p.take(k + 1) =~= p.take(k as int).push(p[k as int]));
        }
        k += 1;
    }
    proof {
        let n = note_of(source@, view);
        assert(n.tiles.take(n.tiles.len() as int) =~= n.tiles);
        assert(n.placement.take(n.placement.len() as int) =~= n.placement);
    }
    Ok(ParsedNote { source: source.to_owned(), doc, tiles, placement })
}

/// `end - start`, which may be negative.
fn offset_in(end: usize, start: usize) -> (r: i32)
    ensures
        r == (end - start) as i32,
{
    let d: i128 = end as i128 - start as i128;
    d as i32
}

/// Parses a note and maps it onto the storage model.
pub fn parse_note(source: &str) -> (r: Result<ParsedNote, NoteFault>)
    ensures
        match r {
            Ok(p) => {
                &&& p.deep_view() == note_of(source@, document(source@))
                &&& ascending(document(source@).top_level)
                &&& placeable(document(source@))
                &&& parents_first(document(source@).blocks)
                &&& refs_fit(document(source@))
                &&& p.deep_view().preamble() + concat(p.tiles.deep_view()) == source@
                &&& note_ok(p.deep_view())
            },
            Err(NoteFault::TileOrder) => !ascending(document(source@).top_level),
            Err(NoteFault::BlockEscapes { start, end }) => {
                &&& ascending(document(source@).top_level)
                &&& exists|i: int|
                    {
                        &&& #[trigger] first_escape(document(source@), i)
                        &&& start == document(source@).blocks[i].span.start
                        &&& end == document(source@).blocks[i].span.end
                    }
            },
        },
{
    let size: usize = source.as_bytes().len();
    let doc = parse(source);
    proof {
        document_spans_inside(source@);
        if ascending(doc.top_level@) {
            note_is_its_tiles(source@, doc.deep_view());
        }
    }
    let ghost view = doc.deep_view();
    assert forall|i: int| 0 <= i < doc.blocks.len() implies doc.blocks[i].span
        == #[trigger] view.blocks[i].span by {}
    let r = note_from(source, doc);
    proof {
        assert(seq![view.preamble][0] == view.preamble);
        if let Err(NoteFault::BlockEscapes { start, end }) = r {
            let i = choose|i: int|
                {
                    &&& #[trigger] first_escape(view, i)
                    &&& start == doc.blocks[i].span.start
                    &&& end == doc.blocks[i].span.end
                };
            assert(view.blocks[i].span == doc.blocks[i].span);
            assert(first_escape(document(source@), i));
        }
    }
    r
}

} // verus!
