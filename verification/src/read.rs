//! Reading a vault: sections, listings, and what callers may ask for.

use vstd::prelude::*;
use vstd::string::*;
use vstd::utf8::*;

use crate::carry::texts_eq;
use crate::document::{opt_text, BlockKind, BlockView, Document, DocumentView};
use crate::errors::Pm;
use crate::ids::Uuid;
use crate::json::{get as json_get, Json, JsonView};
use crate::parse::{document, document_spans_inside, parse};
use crate::path::{
    glob_is_valid, glob_match, glob_match_starts_with_literal_prefix,
    glob_matches, literal_prefix, path_is_valid, path_normalize, valid_path, MAX_GLOB_BYTES,
};
use crate::shape::{numbered, only_items_hold_blocks};
use crate::splice::{cut, get};
use crate::state::copy_texts;
use crate::store::{BlockRow, RowView};
use crate::text::{
    concat, encode_concat, nfc, slice, split, str_eq, sub_text, to_chars, trimmed,
};
use crate::tree::{is_top_level_child, top_level_child};

verus! {

// ---- prefixes ----

/// A character that a pattern gives a meaning to.
pub open spec fn is_wild(c: char) -> bool {
    c == '\\' || c == '%' || c == '_'
}

/// A literal text as a pattern: what has a meaning is escaped.
pub open spec fn escaped(s: Seq<char>) -> Seq<char>
    decreases s.len(),
{
    if s.len() == 0 {
        s
    } else if is_wild(s.last()) {
        escaped(s.drop_last()).push('\\').push(s.last())
    } else {
        escaped(s.drop_last()).push(s.last())
    }
}

/// The pattern that every text with this prefix matches.
pub fn like_prefix_pattern(prefix: &str) -> (r: String)
    ensures
        r@ == escaped(prefix@).push('%'),
{
    let chars = to_chars(prefix);
    let mut out = String::new();
    let mut i: usize = 0;
    proof {
        assert(escaped(chars@.take(0)) =~= Seq::<char>::empty());
    }
    while i < chars.len()
        invariant
            i <= chars.len(),
            chars@ == prefix@,
            out@ == escaped(chars@.take(i as int)),
        decreases chars.len() - i,
    {
        let c = chars[i];
        proof {
            assert(chars@.take(i as int + 1).drop_last() =~= chars@.take(i as int));
            assert(chars@.take(i as int + 1).last() == c);
        }
        if c == '\\' || c == '%' || c == '_' {
            out.push('\\');
        }
        out.push(c);
        i += 1;
    }
    assert(chars@.take(i as int) =~= chars@);
    out.push('%');
    out
}

/// A text matches a pattern: `%` stands for any text, `_` for any character, and
/// a backslash takes the meaning of what follows it.
pub open spec fn like(pattern: Seq<char>, text: Seq<char>) -> bool
    decreases pattern.len(), text.len(),
{
    if pattern.len() == 0 {
        text.len() == 0
    } else if pattern[0] == '%' {
        like(pattern.drop_first(), text) || (text.len() > 0 && like(pattern, text.drop_first()))
    } else if pattern[0] == '\\' && pattern.len() > 1 {
        text.len() > 0 && text[0] == pattern[1] && like(pattern.skip(2), text.drop_first())
    } else {
        text.len() > 0 && (pattern[0] == '_' || pattern[0] == text[0]) && like(
            pattern.drop_first(),
            text.drop_first(),
        )
    }
}

proof fn anything_matches_percent(text: Seq<char>)
    ensures
        like(seq!['%'], text),
    decreases text.len(),
{
    let p = seq!['%'];
    assert(p.drop_first() =~= Seq::<char>::empty());
    reveal_with_fuel(like, 2);
    if text.len() > 0 {
        anything_matches_percent(text.drop_first());
    }
}

proof fn escaped_first(s: Seq<char>)
    requires
        s.len() > 0,
    ensures
        escaped(s) == (if is_wild(s[0]) {
            seq!['\\', s[0]]
        } else {
            seq![s[0]]
        }) + escaped(s.drop_first()),
    decreases s.len(),
{
    let head = if is_wild(s[0]) {
        seq!['\\', s[0]]
    } else {
        seq![s[0]]
    };
    if s.len() == 1 {
        assert(s.drop_last() =~= Seq::<char>::empty());
        assert(s.drop_first() =~= Seq::<char>::empty());
        assert(escaped(s) =~= head + escaped(s.drop_first()));
    } else {
        let t = s.drop_last();
        escaped_first(t);
        assert(t.drop_first() =~= s.drop_first().drop_last());
        assert(s.drop_first().last() == s.last());
        assert(escaped(s) =~= head + escaped(s.drop_first()));
    }
}

/// The pattern of a prefix is matched by exactly the texts that start with it: no
/// character of a path widens the search.
pub proof fn pattern_is_the_prefix(prefix: Seq<char>, text: Seq<char>)
    ensures
        like(escaped(prefix).push('%'), text) <==> prefix.is_prefix_of(text),
    decreases prefix.len(),
{
    let p = escaped(prefix).push('%');
    if prefix.len() == 0 {
        assert(p =~= seq!['%']);
        anything_matches_percent(text);
        assert(prefix =~= text.subrange(0, 0));
    } else {
        let c = prefix[0];
        let rest = prefix.drop_first();
        escaped_first(prefix);
        let q = escaped(rest).push('%');
        if is_wild(c) {
            assert(p =~= seq!['\\', c] + q);
            assert(p.skip(2) =~= q);
            assert(p[0] == '\\' && p[1] == c);
        } else {
            assert(p =~= seq![c] + q);
            assert(p.drop_first() =~= q);
            assert(p[0] == c);
        }
        if text.len() > 0 {
            pattern_is_the_prefix(rest, text.drop_first());
            if prefix.is_prefix_of(text) {
                assert(text[0] == text.subrange(0, prefix.len() as int)[0]);
                assert(rest =~= text.drop_first().subrange(0, rest.len() as int));
            }
            if text[0] == c && rest.is_prefix_of(text.drop_first()) {
                assert forall|i: int| 0 <= i < prefix.len() implies prefix[i] == text[i] by {
                    if i > 0 {
                        assert(rest[i - 1] == text.drop_first().subrange(0, rest.len() as int)[i - 1]);
                    }
                }
                assert(prefix =~= text.subrange(0, prefix.len() as int));
            }
        }
    }
}

/// Looking up a glob by the pattern of its literal prefix misses nothing that the
/// glob matches.
pub proof fn prefix_lookup_misses_nothing(glob: Seq<char>, path: Seq<char>)
    requires
        glob_matches(glob, path),
    ensures
        like(escaped(literal_prefix(split(glob, '/'))).push('%'), path),
{
    glob_match_starts_with_literal_prefix(glob, path);
    pattern_is_the_prefix(literal_prefix(split(glob, '/')), path);
}

// ---- listings ----

/// The first `n` names that a glob matches.
pub open spec fn matching(glob: Seq<char>, names: Seq<Seq<char>>, n: int) -> Seq<usize>
    decreases n,
{
    if n <= 0 {
        Seq::empty()
    } else if glob_matches(glob, names[n - 1]) {
        matching(glob, names, n - 1).push((n - 1) as usize)
    } else {
        matching(glob, names, n - 1)
    }
}

/// The names that a glob matches, by their positions; none for a glob that is too
/// long or empty.
pub fn filter_names(glob: &str, names: &Vec<String>) -> (r: Option<Vec<usize>>)
    ensures
        match r {
            Some(v) => {
                &&& 0 < glob.spec_bytes().len() <= MAX_GLOB_BYTES
                &&& v@ == matching(glob@, names.deep_view(), names.len() as int)
            },
            None => !(0 < glob.spec_bytes().len() <= MAX_GLOB_BYTES),
        },
{
    if !glob_is_valid(glob) {
        return None;
    }
    let ghost v = names.deep_view();
    let mut out: Vec<usize> = Vec::new();
    let mut i: usize = 0;
    while i < names.len()
        invariant
            i <= names.len(),
            v == names.deep_view(),
            out@ == matching(glob@, v, i as int),
        decreases names.len() - i,
    {
        assert(v[i as int] == names[i as int]@);
        if glob_match(glob, names[i].as_str()) {
            out.push(i);
        }
        i += 1;
    }
    Some(out)
}

// ---- sections ----

/// The text of a heading, from its attributes.
pub open spec fn heading_text(b: BlockView) -> Seq<char> {
    match b.attrs.get("text"@) {
        Some(JsonView::Str(t)) => t,
        _ => ""@,
    }
}

/// The level of a heading, from its attributes.
pub open spec fn heading_level(b: BlockView) -> int {
    match b.attrs.get("level"@) {
        Some(JsonView::Int(n)) => if i64::MIN <= n <= i64::MAX {
            n
        } else {
            1
        },
        _ => 1,
    }
}

/// Block `i` is a heading of the document, not of something inside it.
pub open spec fn document_heading(doc: DocumentView, i: int) -> bool {
    doc.blocks[i].kind == BlockKind::Heading && top_level_child(doc, i)
}

/// The first heading of the document, from `i` on, with this path of headings.
pub open spec fn section_from(doc: DocumentView, path: Seq<Seq<char>>, i: int) -> Option<int>
    decreases doc.blocks.len() - i,
{
    if i < 0 || i >= doc.blocks.len() {
        None
    } else if document_heading(doc, i) && doc.blocks[i].heading_path.push(
        heading_text(doc.blocks[i]),
    ) == path {
        Some(i)
    } else {
        section_from(doc, path, i + 1)
    }
}

/// The start of the first heading of the document, from `i` on, that ends a
/// section that starts with block `at`; the end of the source if there is none.
pub open spec fn section_end(doc: DocumentView, at: int, len: int, i: int) -> int
    decreases doc.blocks.len() - i,
{
    if i < 0 || i >= doc.blocks.len() {
        len
    } else if doc.blocks[i].ord > doc.blocks[at].ord && document_heading(doc, i) && heading_level(
        doc.blocks[i],
    ) <= heading_level(doc.blocks[at]) {
        doc.blocks[i].span.start as int
    } else {
        section_end(doc, at, len, i + 1)
    }
}

/// Why a section cannot be read.
#[derive(Debug, Clone, Copy, PartialEq, Eq, Structural)]
pub enum SectionFault {
    NotFound,
    /// The parse and the source disagree.
    Unsliceable,
}

/// The section under a path of headings: from its heading to the next one of its
/// level or above.
pub open spec fn section(source: Seq<char>, path: Seq<Seq<char>>) -> Result<
    Seq<char>,
    SectionFault,
> {
    let doc = document(source);
    match section_from(doc, path, 0) {
        None => Err(SectionFault::NotFound),
        Some(i) => match cut(
            source,
            doc.blocks[i].span.start as int,
            section_end(doc, i, encode_utf8(source).len() as int, 0),
        ) {
            Some(t) => Ok(t),
            None => Err(SectionFault::Unsliceable),
        },
    }
}

fn level_of(attrs: &Json) -> (r: i64)
    ensures
        forall|b: BlockView| b.attrs == attrs@ ==> r == #[trigger] heading_level(b),
{
    match json_get(attrs, "level") {
        Some(Json::Int(n)) => if i64::MIN as i128 <= *n && *n <= i64::MAX as i128 {
            *n as i64
        } else {
            1
        },
        _ => 1,
    }
}

/// The section under a path of headings.
pub fn read_section<'a>(source: &'a str, path: &Vec<String>) -> (r: Result<&'a str, SectionFault>)
    ensures
        section(source@, path.deep_view()) == (match r {
            Ok(t) => Ok::<Seq<char>, SectionFault>(t@),
            Err(f) => Err::<Seq<char>, SectionFault>(f),
        }),
{
    let doc = parse(source);
    let ghost dv = doc.deep_view();
    let ghost want = path.deep_view();
    let n = doc.blocks.len();
    assert(dv.blocks.len() == n);
    let mut i: usize = 0;
    let mut found = false;
    while i < n && !found
        invariant
            i <= n,
            n == doc.blocks.len(),
            dv == doc.deep_view(),
            dv.blocks.len() == n,
            want == path.deep_view(),
            !found ==> section_from(dv, want, 0) == section_from(dv, want, i as int),
            found ==> i < n && section_from(dv, want, 0) == Some(i as int),
        decreases n - i, (if found {
            0int
        } else {
            1
        }),
    {
        let b = &doc.blocks[i];
        assert(dv.blocks[i as int] == b.deep_view());
        let mut full = copy_texts(&b.heading_path);
        let ghost before = full.deep_view();
        let own = match json_get(&b.attrs, "text") {
            Some(Json::Str(t)) => t.clone(),
            _ => "".to_owned(),
        };
        full.push(own);
        assert(full.deep_view() =~= before.push(heading_text(dv.blocks[i as int])));
        if b.kind == BlockKind::Heading && is_top_level_child(&doc, i) && texts_eq(&full, path) {
            found = true;
        } else {
            i += 1;
        }
    }
    if !found {
        return Err(SectionFault::NotFound);
    }
    let at = i;
    let size = source.as_bytes().len();
    assert(dv.blocks[at as int] == doc.blocks[at as int].deep_view());
    let level = level_of(&doc.blocks[at].attrs);
    let ord = doc.blocks[at].ord;
    let mut end: usize = size;
    let mut k: usize = 0;
    let mut closed = false;
    while k < n && !closed
        invariant
            k <= n,
            at < n,
            n == doc.blocks.len(),
            dv == doc.deep_view(),
            dv.blocks.len() == n,
            ord == dv.blocks[at as int].ord,
            level == heading_level(dv.blocks[at as int]),
            !closed ==> end == size && section_end(dv, at as int, size as int, 0) == section_end(
                dv,
                at as int,
                size as int,
                k as int,
            ),
            closed ==> end == section_end(dv, at as int, size as int, 0),
        decreases n - k, (if closed {
            0int
        } else {
            1
        }),
    {
        let b = &doc.blocks[k];
        assert(dv.blocks[k as int] == b.deep_view());
        if b.ord > ord && b.kind == BlockKind::Heading && is_top_level_child(&doc, k) && level_of(
            &b.attrs,
        ) <= level {
            end = b.span.start;
            closed = true;
        } else {
            k += 1;
        }
    }
    match get(source, doc.blocks[at].span.start, end) {
        Some(t) => Ok(t),
        None => Err(SectionFault::Unsliceable),
    }
}

// ---- titles ----

/// The text of the first heading of the first level, from block `i` on.
pub open spec fn first_title(doc: DocumentView, i: int) -> Option<Seq<char>>
    decreases doc.blocks.len() - i,
{
    if i < 0 || i >= doc.blocks.len() {
        None
    } else if document_heading(doc, i) && heading_level(doc.blocks[i]) == 1 {
        Some(heading_text(doc.blocks[i]))
    } else {
        first_title(doc, i + 1)
    }
}

/// What a note calls itself: its `title` property, else its first heading of the
/// first level.
pub open spec fn title(doc: DocumentView) -> Option<Seq<char>> {
    match doc.properties.get("title"@) {
        Some(JsonView::Str(t)) => Some(t),
        _ => first_title(doc, 0),
    }
}

/// What a note calls itself, if it does.
pub fn title_of(doc: &Document) -> (r: Option<String>)
    ensures
        title(doc.deep_view()) == opt_text(r),
{
    if let Some(Json::Str(t)) = json_get(&doc.properties, "title") {
        return Some(t.clone());
    }
    let ghost dv = doc.deep_view();
    let n: usize = doc.blocks.len();
    assert(dv.blocks.len() == n);
    let mut i: usize = 0;
    while i < n
        invariant
            i <= n,
            n == doc.blocks.len(),
            dv == doc.deep_view(),
            dv.blocks.len() == n,
            title(dv) == first_title(dv, 0),
            first_title(dv, 0) == first_title(dv, i as int),
        decreases n - i,
    {
        let b = &doc.blocks[i];
        assert(dv.blocks[i as int] == b.deep_view());
        if b.kind == BlockKind::Heading && is_top_level_child(doc, i) && level_of(&b.attrs) == 1 {
            return match json_get(&b.attrs, "text") {
                Some(Json::Str(t)) => Some(t.clone()),
                _ => Some("".to_owned()),
            };
        }
        i += 1;
    }
    None
}

/// The preamble of a document: frontmatter and leading trivia.
pub fn preamble(source: &str) -> (r: String)
    ensures
        r@ == sub_text(
            source@,
            document(source@).preamble.start as int,
            document(source@).preamble.end as int,
        ),
{
    let doc = parse(source);
    let size = source.as_bytes().len();
    proof {
        document_spans_inside(source@);
        assert(seq![document(source@).preamble][0] == document(source@).preamble);
    }
    slice(source, doc.preamble.start, doc.preamble.end).to_owned()
}

// ---- spans ----

/// Where the first `n` tiles end.
pub open spec fn tiles_end(start: int, tiles: Seq<Seq<char>>, n: int) -> int
    decreases n,
{
    if n <= 0 {
        start
    } else {
        tiles_end(start, tiles, n - 1) + encode_utf8(tiles[n - 1]).len()
    }
}

/// The span of a row in its note's source.
pub open spec fn span_in_source(start: int, tiles: Seq<Seq<char>>, row: RowView) -> Option<
    (int, int),
> {
    if 0 <= row.tile_ord < tiles.len() {
        let base = tiles_end(start, tiles, row.tile_ord as int);
        Some((base + row.start_in_tile, base + row.end_in_tile))
    } else {
        None
    }
}

/// The tiles and the preamble take no more bytes than a machine number can say.
pub open spec fn fits_i64(start: int, tiles: Seq<Seq<char>>) -> bool {
    0 <= start && forall|n: int|
        0 <= n <= tiles.len() ==> #[trigger] tiles_end(start, tiles, n) <= i64::MAX - i32::MAX
}

/// The spans of rows in their note's source; the position of a row whose tile
/// there is not is an error.
pub fn block_spans(preamble: &str, tiles: &Vec<String>, rows: &Vec<BlockRow>) -> (r: Result<
    Vec<(i64, i64)>,
    usize,
>)
    requires
        fits_i64(preamble.spec_bytes().len() as int, tiles.deep_view()),
    ensures
        ({
            let start = preamble.spec_bytes().len() as int;
            let tv = tiles.deep_view();
            let rv = rows.deep_view();
            match r {
                Ok(v) => {
                    &&& v.len() == rows.len()
                    &&& forall|i: int|
                        0 <= i < rows.len() ==> span_in_source(start, tv, #[trigger] rv[i]) == Some(
                            (v[i].0 as int, v[i].1 as int),
                        )
                },
                Err(i) => {
                    &&& i < rows.len()
                    &&& span_in_source(start, tv, rv[i as int]) is None
                    &&& forall|k: int|
                        0 <= k < i ==> span_in_source(start, tv, #[trigger] rv[k]) is Some
                },
            }
        }),
{
    let ghost tv = tiles.deep_view();
    let ghost rv = rows.deep_view();
    let ghost start = preamble.spec_bytes().len() as int;
    let mut starts: Vec<i64> = Vec::new();
    proof {
        assert(tiles_end(start, tv, 0) == start);
    }
    let mut at: i64 = preamble.as_bytes().len() as i64;
    let mut t: usize = 0;
    while t < tiles.len()
        invariant
            t <= tiles.len(),
            tv == tiles.deep_view(),
            fits_i64(start, tv),
            at == tiles_end(start, tv, t as int),
            starts.len() == t,
            forall|k: int| 0 <= k < t ==> #[trigger] starts[k] == tiles_end(start, tv, k),
        decreases tiles.len() - t,
    {
        assert(tv[t as int] == tiles[t as int]@);
        assert(tiles_end(start, tv, t as int + 1) <= i64::MAX);
        proof {
            tiles_end_grows(start, tv, t as int);
        }
        starts.push(at);
        at = at + tiles[t].as_str().as_bytes().len() as i64;
        t += 1;
    }
    let mut out: Vec<(i64, i64)> = Vec::new();
    let mut i: usize = 0;
    while i < rows.len()
        invariant
            i <= rows.len(),
            tv == tiles.deep_view(),
            rv == rows.deep_view(),
            fits_i64(start, tv),
            starts.len() == tiles.len(),
            forall|k: int| 0 <= k < starts.len() ==> #[trigger] starts[k] == tiles_end(start, tv, k),
            out.len() == i,
            start == preamble.spec_bytes().len(),
            forall|k: int|
                0 <= k < i ==> span_in_source(start, tv, #[trigger] rv[k]) == Some(
                    (out[k].0 as int, out[k].1 as int),
                ),
        decreases rows.len() - i,
    {
        let b = &rows[i];
        assert(rv[i as int] == b.deep_view());
        if b.tile_ord < 0 || b.tile_ord as usize >= starts.len() {
            return Err(i);
        }
        let base = starts[b.tile_ord as usize];
        assert(tiles_end(start, tv, b.tile_ord as int) <= i64::MAX - i32::MAX);
        proof {
            tiles_end_grows(start, tv, b.tile_ord as int);
        }
        out.push((base + b.start_in_tile as i64, base + b.end_in_tile as i64));
        i += 1;
    }
    Ok(out)
}

proof fn tiles_end_grows(start: int, tiles: Seq<Seq<char>>, n: int)
    requires
        0 <= start,
    ensures
        tiles_end(start, tiles, n) >= start,
    decreases n,
{
    if n > 0 {
        tiles_end_grows(start, tiles, n - 1);
    }
}

// ---- what callers may ask for ----

/// A source as it comes in.
#[derive(Debug)]
pub struct Markdown(pub String);

/// A source that is too large.
#[derive(Debug, Clone, Copy, PartialEq, Eq, Structural)]
pub struct TooLarge {
    pub size: usize,
    pub limit: usize,
}

impl Markdown {
    /// Takes a source in, if it is no larger than the limit; a limit below zero is
    /// zero.
    pub fn input(source: &str, limit: i32) -> (r: Result<Markdown, TooLarge>)
        ensures
            ({
                let size = source.spec_bytes().len();
                let bound = if limit < 0 {
                    0
                } else {
                    limit as int
                };
                match r {
                    Ok(m) => m.0@ == source@ && size <= bound,
                    Err(e) => size > bound && e.size == size && e.limit == bound,
                }
            }),
    {
        let size = source.as_bytes().len();
        let bound: usize = if limit < 0 {
            0
        } else {
            limit as usize
        };
        if size > bound {
            Err(TooLarge { size, limit: bound })
        } else {
            Ok(Markdown(source.to_owned()))
        }
    }
}

/// How many notes one call may write.
pub const MAX_BATCH_NOTES: usize = 1000;

/// What is wrong with a batch.
#[derive(Debug, Clone, Copy, PartialEq, Eq, Structural)]
pub enum BatchFault {
    Arity { paths: usize, docs: usize },
    TooMany { notes: usize },
    /// An element is absent: its path, or else its document.
    Absent { element: usize, path: bool },
}

impl BatchFault {
    pub open spec fn text(self) -> Seq<char> {
        match self {
            BatchFault::Arity { .. } => "paths and docs must have the same length"@,
            BatchFault::TooMany { .. } => "batch is too large"@,
            BatchFault::Absent { .. } => "batch element is NULL"@,
        }
    }

    /// The error that the fault raises.
    pub fn code(self) -> (r: Pm)
        ensures
            r == Pm::BatchArity,
    {
        Pm::BatchArity
    }

    /// The message that the fault raises.
    pub fn message(self) -> (r: &'static str)
        ensures
            r@ == self.text(),
    {
        match self {
            BatchFault::Arity { .. } => "paths and docs must have the same length",
            BatchFault::TooMany { .. } => "batch is too large",
            BatchFault::Absent { .. } => "batch element is NULL",
        }
    }
}

/// The first absent element from `i` on.
pub open spec fn first_absent(
    paths: Seq<Option<String>>,
    docs: Seq<Option<String>>,
    i: int,
) -> Option<BatchFault>
    decreases paths.len() - i,
{
    if i < 0 || i >= paths.len() {
        None
    } else if paths[i] is None || docs[i] is None {
        Some(BatchFault::Absent { element: i as usize, path: paths[i] is None })
    } else {
        first_absent(paths, docs, i + 1)
    }
}

/// What is wrong with a batch: two lists of one length, not too long, with nothing
/// absent.
pub open spec fn batch_fault(paths: Seq<Option<String>>, docs: Seq<Option<String>>) -> Option<
    BatchFault,
> {
    if paths.len() != docs.len() {
        Some(BatchFault::Arity { paths: paths.len() as usize, docs: docs.len() as usize })
    } else if paths.len() > 1000 {
        Some(BatchFault::TooMany { notes: paths.len() as usize })
    } else {
        first_absent(paths, docs, 0)
    }
}

/// Checks a batch.
pub fn check_batch(paths: &Vec<Option<String>>, docs: &Vec<Option<String>>) -> (r: Option<BatchFault>)
    ensures
        r == batch_fault(paths@, docs@),
{
    if paths.len() != docs.len() {
        return Some(BatchFault::Arity { paths: paths.len(), docs: docs.len() });
    }
    if paths.len() > MAX_BATCH_NOTES {
        return Some(BatchFault::TooMany { notes: paths.len() });
    }
    let mut i: usize = 0;
    while i < paths.len()
        invariant
            i <= paths.len() == docs.len(),
            paths.len() <= 1000,
            first_absent(paths@, docs@, 0) == first_absent(paths@, docs@, i as int),
        decreases paths.len() - i,
    {
        if paths[i].is_none() || docs[i].is_none() {
            return Some(BatchFault::Absent { element: i, path: paths[i].is_none() });
        }
        i += 1;
    }
    None
}

/// What creating a vault comes to.
#[derive(Debug, Clone, Copy, PartialEq, Eq, Structural)]
pub enum VaultStep {
    /// There is one already; it is adopted.
    Adopt(Uuid),
    Insert(Uuid),
}

/// Why a vault is not created.
#[derive(Debug, Clone, Copy, PartialEq, Eq, Structural)]
pub enum VaultFault {
    InvalidName,
    NameTaken(Uuid),
    IdTaken(Uuid),
}

impl VaultFault {
    pub open spec fn pm(self) -> Pm {
        match self {
            VaultFault::InvalidName => Pm::InvalidPath,
            VaultFault::NameTaken(_) => Pm::PathTaken,
            VaultFault::IdTaken(_) => Pm::PathTaken,
        }
    }

    pub open spec fn text(self) -> Seq<char> {
        match self {
            VaultFault::InvalidName => "invalid vault name"@,
            VaultFault::NameTaken(_) => "a vault with that name already exists"@,
            VaultFault::IdTaken(_) => "a vault with that id already exists"@,
        }
    }

    /// The error that the fault raises.
    pub fn code(self) -> (r: Pm)
        ensures
            r == self.pm(),
    {
        match self {
            VaultFault::InvalidName => Pm::InvalidPath,
            VaultFault::NameTaken(_) => Pm::PathTaken,
            VaultFault::IdTaken(_) => Pm::PathTaken,
        }
    }

    /// The message that the fault raises.
    pub fn message(self) -> (r: &'static str)
        ensures
            r@ == self.text(),
    {
        match self {
            VaultFault::InvalidName => "invalid vault name",
            VaultFault::NameTaken(_) => "a vault with that name already exists",
            VaultFault::IdTaken(_) => "a vault with that id already exists",
        }
    }
}

/// What creating a vault comes to: `existing` is the vault of that name, and
/// `holder` the name of the vault with the id that the new one would get.
pub open spec fn vault_step(
    name: Seq<char>,
    existing: Option<Uuid>,
    id: Uuid,
    holder: Option<Seq<char>>,
    if_not_exists: bool,
) -> Result<VaultStep, VaultFault> {
    if !valid_path(name) {
        Err(VaultFault::InvalidName)
    } else if existing is Some {
        if if_not_exists {
            Ok(VaultStep::Adopt(existing->0))
        } else {
            Err(VaultFault::NameTaken(existing->0))
        }
    } else if holder is Some {
        if if_not_exists && holder->0 == name {
            Ok(VaultStep::Adopt(id))
        } else {
            Err(VaultFault::IdTaken(id))
        }
    } else {
        Ok(VaultStep::Insert(id))
    }
}

/// Creates a vault: its name, normalized, and what comes of it.
pub fn create_vault(
    name: &str,
    existing: Option<Uuid>,
    id: Uuid,
    holder: Option<&str>,
    if_not_exists: bool,
) -> (r: (String, Result<VaultStep, VaultFault>))
    ensures
        r.0@ == nfc(trimmed(name@)),
        r.1 == vault_step(
            nfc(trimmed(name@)),
            existing,
            id,
            (match holder {
                Some(h) => Some(h@),
                None => None,
            }),
            if_not_exists,
        ),
{
    let normalized = path_normalize(name);
    if !path_is_valid(normalized.as_str()) {
        return (normalized, Err(VaultFault::InvalidName));
    }
    let step = match existing {
        Some(found) => if if_not_exists {
            Ok(VaultStep::Adopt(found))
        } else {
            Err(VaultFault::NameTaken(found))
        },
        None => match holder {
            Some(h) => if if_not_exists && str_eq(h, normalized.as_str()) {
                Ok(VaultStep::Adopt(id))
            } else {
                Err(VaultFault::IdTaken(id))
            },
            None => Ok(VaultStep::Insert(id)),
        },
    };
    (normalized, step)
}

/// What a search comes to.
#[derive(Debug, Clone, Copy, PartialEq, Eq, Structural)]
pub enum SearchStep {
    /// Nothing was asked for, and nothing is found: an empty search is not a
    /// listing of the vault.
    Nothing,
    /// Rows are looked for, by their text if `text`, at most `limit`.
    Query { text: bool, limit: i64 },
}

/// What a search comes to, given whether its text has a word in it: a search without
/// one is a filter by what else was given, and finds nothing where nothing was.
pub fn plan_search(
    has_text: bool,
    tags: &Option<Vec<String>>,
    has_path: bool,
    limit: i32,
) -> (r: SearchStep)
    ensures
        r is Nothing <==> !has_text && !(tags matches Some(v) && v.len() > 0) && !has_path,
        r == (if !has_text && !(tags matches Some(v) && v.len() > 0) && !has_path {
            SearchStep::Nothing
        } else {
            SearchStep::Query {
                text: has_text,
                limit: if limit < 0 {
                    0
                } else {
                    limit as i64
                },
            }
        }),
{
    let has_tags = match tags {
        Some(v) => v.len() > 0,
        None => false,
    };
    if !has_text && !has_tags && !has_path {
        return SearchStep::Nothing;
    }
    SearchStep::Query {
        text: has_text,
        limit: if limit < 0 {
            0
        } else {
            limit as i64
        },
    }
}

// ---- what a section is ----

/// A heading of the document that ends a section under heading `at`: it comes later,
/// and its level is not below.
pub open spec fn closes(doc: DocumentView, at: int, k: int) -> bool {
    &&& at < k < doc.blocks.len()
    &&& document_heading(doc, k)
    &&& heading_level(doc.blocks[k]) <= heading_level(doc.blocks[at])
}

/// The headings of the document start one after the other.
pub open spec fn headings_ascend(doc: DocumentView) -> bool {
    forall|i: int, j: int|
        0 <= i < j < doc.blocks.len() && document_heading(doc, i) && document_heading(doc, j)
            ==> (#[trigger] doc.blocks[i]).span.start < (#[trigger] doc.blocks[j]).span.start
}

/// The bytes from the start of heading `at` to `to` are its section: they end at the
/// first heading that closes it, or with the source if none does.
pub open spec fn section_reaches(doc: DocumentView, len: int, at: int, to: int) -> bool {
    ||| to == len && forall|j: int| !closes(doc, at, j)
    ||| exists|k: int| #[trigger]
        closes(doc, at, k) && to == doc.blocks[k].span.start && forall|j: int|
            j < k ==> !closes(doc, at, j)
}

proof fn section_is_first(doc: DocumentView, path: Seq<Seq<char>>, i: int)
    requires
        0 <= i,
    ensures
        match section_from(doc, path, i) {
            Some(k) => {
                &&& i <= k < doc.blocks.len()
                &&& document_heading(doc, k)
                &&& doc.blocks[k].heading_path.push(heading_text(doc.blocks[k])) == path
                &&& forall|j: int|
                    i <= j < k && document_heading(doc, j) ==> (
                    #[trigger] doc.blocks[j]).heading_path.push(heading_text(doc.blocks[j])) != path
            },
            None => forall|j: int|
                i <= j < doc.blocks.len() && document_heading(doc, j) ==> (
                #[trigger] doc.blocks[j]).heading_path.push(heading_text(doc.blocks[j])) != path,
        },
    decreases doc.blocks.len() - i,
{
    if i < doc.blocks.len() {
        section_is_first(doc, path, i + 1);
    }
}

proof fn end_closes(doc: DocumentView, at: int, len: int, i: int)
    requires
        numbered(doc.blocks),
        0 <= at < doc.blocks.len(),
        0 <= i,
        forall|j: int| j < i ==> !closes(doc, at, j),
    ensures
        section_reaches(doc, len, at, section_end(doc, at, len, i)),
    decreases doc.blocks.len() - i,
{
    if i < doc.blocks.len() {
        assert(doc.blocks[i].ord == i && doc.blocks[at].ord == at);
        if closes(doc, at, i) {
            assert(section_end(doc, at, len, i) == doc.blocks[i].span.start);
        } else {
            end_closes(doc, at, len, i + 1);
        }
    }
}

/// Heading `at` of the document has this path of headings.
pub open spec fn heads(doc: DocumentView, path: Seq<Seq<char>>, at: int) -> bool {
    &&& 0 <= at < doc.blocks.len()
    &&& document_heading(doc, at)
    &&& doc.blocks[at].heading_path.push(heading_text(doc.blocks[at])) == path
}

/// No other heading of the level of heading `at`, or of one above, starts from where
/// it starts on and before `to`.
pub open spec fn stands_alone(doc: DocumentView, at: int, to: int) -> bool {
    forall|j: int|
        0 <= j < doc.blocks.len() && j != at && document_heading(doc, j)
            && doc.blocks[at].span.start <= (#[trigger] doc.blocks[j]).span.start < to
            ==> heading_level(doc.blocks[j]) > heading_level(doc.blocks[at])
}

proof fn section_bounds(doc: DocumentView, len: int, path: Seq<Seq<char>>)
    requires
        numbered(doc.blocks),
    ensures
        match section_from(doc, path, 0) {
            Some(at) => {
                let to = section_end(doc, at, len, 0);
                &&& heads(doc, path, at)
                &&& forall|j: int| j < at ==> !heads(doc, path, j)
                &&& section_reaches(doc, len, at, to)
                &&& headings_ascend(doc) ==> stands_alone(doc, at, to)
            },
            None => forall|j: int| !heads(doc, path, j),
        },
{
    section_is_first(doc, path, 0);
    if let Some(at) = section_from(doc, path, 0) {
        let to = section_end(doc, at, len, 0);
        end_closes(doc, at, len, 0);
        if headings_ascend(doc) {
            assert forall|j: int|
                0 <= j < doc.blocks.len() && j != at && document_heading(doc, j)
                    && doc.blocks[at].span.start <= (#[trigger] doc.blocks[j]).span.start
                    < to implies heading_level(doc.blocks[j]) > heading_level(doc.blocks[at]) by {
                if heading_level(doc.blocks[j]) <= heading_level(doc.blocks[at]) {
                    if j < at {
                        assert(doc.blocks[j].span.start < doc.blocks[at].span.start);
                    }
                    assert(closes(doc, at, j));
                    let k = choose|k: int| #[trigger]
                        closes(doc, at, k) && to == doc.blocks[k].span.start && forall|j: int|
                            j < k ==> !closes(doc, at, j);
                    assert(k <= j);
                }
            }
        }
    }
}

/// What is read under a path of headings is the section of the first heading of the
/// document that has that path: its text runs from the start of the heading to the
/// first later heading whose level is the same or higher up, or to the end of the
/// source; a deeper heading never ends it. Where headings start one after the other,
/// no other heading of its level or above starts inside it. Nothing is found exactly
/// where no heading has that path.
pub proof fn a_section_ends_where_the_next_begins(source: Seq<char>, path: Seq<Seq<char>>)
    requires
        document(source).blocks.len() <= u32::MAX,
    ensures
        match section(source, path) {
            Ok(text) => exists|at: int, to: int|
                {
                    &&& heads(document(source), path, at)
                    &&& forall|j: int| j < at ==> !heads(document(source), path, j)
                    &&& cut(source, document(source).blocks[at].span.start as int, to) == Some(text)
                    &&& #[trigger] section_reaches(
                        document(source),
                        encode_utf8(source).len() as int,
                        at,
                        to,
                    )
                    &&& headings_ascend(document(source)) ==> stands_alone(document(source), at, to)
                },
            Err(SectionFault::NotFound) => forall|j: int| !heads(document(source), path, j),
            Err(SectionFault::Unsliceable) => exists|j: int| heads(document(source), path, j),
        },
{
    only_items_hold_blocks(source);
    section_bounds(document(source), encode_utf8(source).len() as int, path);
}

proof fn first_title_is_first(doc: DocumentView, i: int)
    requires
        0 <= i,
    ensures
        match first_title(doc, i) {
            Some(t) => exists|k: int|
                {
                    &&& i <= k < doc.blocks.len()
                    &&& #[trigger] document_heading(doc, k)
                    &&& heading_level(doc.blocks[k]) == 1
                    &&& t == heading_text(doc.blocks[k])
                    &&& forall|j: int|
                        i <= j < k && #[trigger] document_heading(doc, j) ==> heading_level(
                            doc.blocks[j],
                        ) != 1
                },
            None => forall|j: int|
                i <= j < doc.blocks.len() && #[trigger] document_heading(doc, j) ==> heading_level(
                    doc.blocks[j],
                ) != 1,
        },
    decreases doc.blocks.len() - i,
{
    if i < doc.blocks.len() {
        first_title_is_first(doc, i + 1);
        if document_heading(doc, i) && heading_level(doc.blocks[i]) == 1 {
            assert(document_heading(doc, i));
        } else if let Some(t) = first_title(doc, i + 1) {
            let k = choose|k: int|
                {
                    &&& i + 1 <= k < doc.blocks.len()
                    &&& #[trigger] document_heading(doc, k)
                    &&& heading_level(doc.blocks[k]) == 1
                    &&& t == heading_text(doc.blocks[k])
                    &&& forall|j: int|
                        i + 1 <= j < k && #[trigger] document_heading(doc, j) ==> heading_level(
                            doc.blocks[j],
                        ) != 1
                };
            assert(document_heading(doc, k));
        }
    }
}

/// A note's title is its `title` property where that is a text; else the text of a
/// heading of the document of the first level before which there is none; and a note
/// with neither has no title.
pub proof fn a_title_is_given_or_the_first(doc: DocumentView)
    ensures
        doc.properties.get("title"@) matches Some(JsonView::Str(t)) ==> title(doc) == Some(t),
        !(doc.properties.get("title"@) matches Some(JsonView::Str(t))) ==> match title(doc) {
            Some(t) => exists|k: int|
                {
                    &&& 0 <= k < doc.blocks.len()
                    &&& #[trigger] document_heading(doc, k)
                    &&& heading_level(doc.blocks[k]) == 1
                    &&& t == heading_text(doc.blocks[k])
                    &&& forall|j: int|
                        0 <= j < k && #[trigger] document_heading(doc, j) ==> heading_level(
                            doc.blocks[j],
                        ) != 1
                },
            None => forall|j: int|
                0 <= j < doc.blocks.len() && #[trigger] document_heading(doc, j) ==> heading_level(
                    doc.blocks[j],
                ) != 1,
        },
{
    first_title_is_first(doc, 0);
}

// ---- spans ----

proof fn tiles_before(head: Seq<char>, tiles: Seq<Seq<char>>, n: int)
    requires
        0 <= n <= tiles.len(),
    ensures
        ({
            let whole = encode_utf8(head + concat(tiles));
            let at = tiles_end(encode_utf8(head).len() as int, tiles, n);
            &&& at == encode_utf8(head + concat(tiles.take(n))).len()
            &&& at <= whole.len()
            &&& whole.subrange(0, at) == encode_utf8(head + concat(tiles.take(n)))
        }),
{
    tiles_end_is(head, tiles, n);
    tiles_are_in_two(tiles, n);
    let a = head + concat(tiles.take(n));
    let z = concat(tiles.skip(n));
    assert(head + concat(tiles) =~= a + z);
    encode_concat(a, z);
    assert(encode_utf8(a + z).subrange(0, encode_utf8(a).len() as int) =~= encode_utf8(a));
}

proof fn tiles_end_is(head: Seq<char>, tiles: Seq<Seq<char>>, n: int)
    requires
        0 <= n <= tiles.len(),
    ensures
        tiles_end(encode_utf8(head).len() as int, tiles, n) == encode_utf8(
            head + concat(tiles.take(n)),
        ).len(),
    decreases n,
{
    if n > 0 {
        tiles_end_is(head, tiles, n - 1);
        let t = tiles.take(n);
        assert(t.drop_last() =~= tiles.take(n - 1));
        assert(head + concat(t) =~= (head + concat(tiles.take(n - 1))) + tiles[n - 1]);
        encode_concat(head + concat(tiles.take(n - 1)), tiles[n - 1]);
    } else {
        assert(tiles.take(0) =~= Seq::empty());
        assert(head + concat(tiles.take(0)) =~= head);
    }
}

proof fn tiles_are_in_two(tiles: Seq<Seq<char>>, n: int)
    requires
        0 <= n <= tiles.len(),
    ensures
        concat(tiles) == concat(tiles.take(n)) + concat(tiles.skip(n)),
    decreases tiles.len(),
{
    if n == tiles.len() {
        assert(tiles.take(n) =~= tiles);
        assert(tiles.skip(n) =~= Seq::empty());
        assert(concat(tiles) =~= concat(tiles.take(n)) + concat(tiles.skip(n)));
    } else {
        let front = tiles.drop_last();
        tiles_are_in_two(front, n);
        assert(front.take(n) =~= tiles.take(n));
        assert(tiles.skip(n).drop_last() =~= front.skip(n));
        assert(concat(tiles) =~= concat(tiles.take(n)) + concat(tiles.skip(n)));
    }
}

/// The span of a block cuts, out of the source, what its row cuts out of its tile.
pub proof fn a_span_cuts_its_block(head: Seq<char>, tiles: Seq<Seq<char>>, row: RowView)
    requires
        0 <= row.tile_ord < tiles.len(),
        0 <= row.start_in_tile <= row.end_in_tile <= encode_utf8(tiles[row.tile_ord as int]).len(),
    ensures
        ({
            let whole = encode_utf8(head + concat(tiles));
            let tile = encode_utf8(tiles[row.tile_ord as int]);
            span_in_source(encode_utf8(head).len() as int, tiles, row) matches Some((a, b)) && 0
                <= a <= b <= whole.len() && whole.subrange(a, b) == tile.subrange(
                row.start_in_tile as int,
                row.end_in_tile as int,
            )
        }),
{
    let t = row.tile_ord as int;
    let whole = encode_utf8(head + concat(tiles));
    let tile = encode_utf8(tiles[t]);
    tiles_before(head, tiles, t);
    tiles_before(head, tiles, t + 1);
    let at = tiles_end(encode_utf8(head).len() as int, tiles, t);
    let x = tiles.take(t + 1);
    assert(x.drop_last() =~= tiles.take(t));
    let a = head + concat(tiles.take(t));
    assert(head + concat(x) =~= a + tiles[t]);
    encode_concat(a, tiles[t]);
    assert forall|k: int| 0 <= k < tile.len() implies whole[at + k] == tile[k] by {
        assert(whole.subrange(0, at + tile.len())[at + k] == whole[at + k]);
    }
    assert(whole.subrange(at + row.start_in_tile, at + row.end_in_tile) =~= tile.subrange(
        row.start_in_tile as int,
        row.end_in_tile as int,
    ));
}

// ---- batches and vaults ----

proof fn absent_is_first(paths: Seq<Option<String>>, docs: Seq<Option<String>>, i: int)
    requires
        0 <= i,
        paths.len() == docs.len() <= usize::MAX,
    ensures
        match first_absent(paths, docs, i) {
            Some(f) => f matches BatchFault::Absent { element, path } && i <= element < paths.len()
                && path == (paths[element as int] is None) && (path || docs[element as int] is None)
                && forall|k: int|
                i <= k < element ==> (#[trigger] paths[k]) is Some && docs[k] is Some,
            None => forall|k: int|
                i <= k < paths.len() ==> (#[trigger] paths[k]) is Some && docs[k] is Some,
        },
    decreases paths.len() - i,
{
    if i < paths.len() {
        absent_is_first(paths, docs, i + 1);
    }
}

/// A batch is taken exactly if it has as many texts as paths, a thousand at most, and
/// none is absent; what is wrong is said of the first that is.
pub proof fn a_batch_is_whole(paths: Seq<Option<String>>, docs: Seq<Option<String>>)
    requires
        paths.len() <= usize::MAX,
        docs.len() <= usize::MAX,
    ensures
        batch_fault(paths, docs) is None <==> paths.len() == docs.len() && paths.len() <= 1000
            && forall|k: int|
            0 <= k < paths.len() ==> (#[trigger] paths[k]) is Some && docs[k] is Some,
        batch_fault(paths, docs) matches Some(BatchFault::Absent { element, path }) ==> {
            &&& element < paths.len()
            &&& path <==> paths[element as int] is None
            &&& path || docs[element as int] is None
            &&& forall|k: int|
                0 <= k < element ==> (#[trigger] paths[k]) is Some && docs[k] is Some
        },
{
    if paths.len() == docs.len() {
        absent_is_first(paths, docs, 0);
        if let Some(BatchFault::Absent { element, path }) = first_absent(paths, docs, 0) {
            assert(!(paths[element as int] is Some && docs[element as int] is Some));
        }
    }
}

/// Creating a vault takes nothing away: a new one is made only where neither its name
/// nor its id is in use; one that is there is adopted only where that was asked for, and
/// only under its own name.
pub proof fn a_vault_is_never_taken_over(
    name: Seq<char>,
    existing: Option<Uuid>,
    id: Uuid,
    holder: Option<Seq<char>>,
    if_not_exists: bool,
)
    ensures
        match vault_step(name, existing, id, holder, if_not_exists) {
            Ok(VaultStep::Insert(x)) => x == id && existing is None && holder is None && valid_path(
                name,
            ),
            Ok(VaultStep::Adopt(x)) => if_not_exists && valid_path(name) && (existing == Some(x) || (
            existing is None && x == id && holder == Some(name))),
            Err(VaultFault::InvalidName) => !valid_path(name),
            Err(VaultFault::NameTaken(x)) => existing == Some(x) && !if_not_exists,
            Err(VaultFault::IdTaken(x)) => x == id && existing is None && holder is Some && (
            if_not_exists ==> holder != Some(name)),
        },
{
}

} // verus!
