//! Golden cases that a parse is held to, for hashes and for extraction, and
//! pseudo-random documents.

use vstd::prelude::*;
use vstd::string::*;

use crate::document::{BlockView, Document, DocumentView, LinkRef, LinkView};
use crate::json::{
    array_of, get, item_list, json_copy, json_eq, member_list, object_of, Json, JsonView,
};
use crate::parse::{document, parse};
use crate::record::{lists_json, lists_view};
use crate::rows::{texts_json, texts_view};
use crate::state::copy_texts;
use crate::store::bytes_eq;
use crate::text::{str_eq, to_chars};

verus! {

// ---- hashes ----

/// What comes of a golden case for hashes.
#[derive(Debug, Clone, Copy, PartialEq, Eq, Structural)]
pub enum HashVerdict {
    Pass,
    /// A block that the case names is not there.
    OutOfRange { blocks_a: usize, blocks_b: usize },
    /// The case expects neither `equal` nor `different`.
    InvalidExpect,
    /// The hashes are not as expected.
    Mismatch,
}

/// What a case expects: that two hashes are equal, or that they differ.
pub open spec fn expects_equal(expect: Option<Seq<char>>) -> Option<bool> {
    match expect {
        Some(t) => if t == "equal"@ {
            Some(true)
        } else if t == "different"@ {
            Some(false)
        } else {
            None
        },
        None => None,
    }
}

/// What comes of a golden case for hashes.
pub open spec fn hash_verdict(
    a: Seq<BlockView>,
    b: Seq<BlockView>,
    i: int,
    j: int,
    expect: Option<Seq<char>>,
) -> HashVerdict {
    if i >= a.len() || j >= b.len() {
        HashVerdict::OutOfRange { blocks_a: a.len() as usize, blocks_b: b.len() as usize }
    } else {
        match expects_equal(expect) {
            None => HashVerdict::InvalidExpect,
            Some(equal) => if (a[i].content_hash == b[j].content_hash) == equal {
                HashVerdict::Pass
            } else {
                HashVerdict::Mismatch
            },
        }
    }
}

/// Holds the hashes of two blocks, each of a source, against what is expected.
pub fn hash_golden(doc_a: &str, doc_b: &str, i: usize, j: usize, expect: Option<&str>) -> (r:
    HashVerdict)
    ensures
        r == hash_verdict(
            document(doc_a@).blocks,
            document(doc_b@).blocks,
            i as int,
            j as int,
            (match expect {
                Some(t) => Some(t@),
                None => None,
            }),
        ),
{
    let a = parse(doc_a);
    let b = parse(doc_b);
    let ghost av = a.deep_view().blocks;
    let ghost bv = b.deep_view().blocks;
    assert(av.len() == a.blocks.len() && bv.len() == b.blocks.len());
    if i >= a.blocks.len() || j >= b.blocks.len() {
        return HashVerdict::OutOfRange { blocks_a: a.blocks.len(), blocks_b: b.blocks.len() };
    }
    assert(av[i as int] == a.blocks[i as int].deep_view());
    assert(bv[j as int] == b.blocks[j as int].deep_view());
    let equal = bytes_eq(
        vstd::array::array_as_slice(&a.blocks[i].content_hash),
        vstd::array::array_as_slice(&b.blocks[j].content_hash),
    );
    let want = match expect {
        Some(t) => if str_eq(t, "equal") {
            true
        } else if str_eq(t, "different") {
            proof {
                reveal_strlit("equal");
                reveal_strlit("different");
            }
            false
        } else {
            return HashVerdict::InvalidExpect;
        },
        None => {
            return HashVerdict::InvalidExpect;
        },
    };
    if equal == want {
        HashVerdict::Pass
    } else {
        HashVerdict::Mismatch
    }
}

// ---- extraction ----

/// What a golden case for extraction can say something of.
#[derive(Debug, Clone, Copy, PartialEq, Eq, Structural)]
pub enum Field {
    Links,
    Tags,
    BlockRefIds,
    Properties,
    Kinds,
    HeadingPaths,
}

impl Field {
    pub open spec fn label(self) -> Seq<char> {
        match self {
            Field::Links => "links"@,
            Field::Tags => "tags"@,
            Field::BlockRefIds => "block_ref_ids"@,
            Field::Properties => "properties"@,
            Field::Kinds => "kinds"@,
            Field::HeadingPaths => "heading_paths"@,
        }
    }

    /// The name of the field in a case.
    pub fn name(self) -> (r: &'static str)
        ensures
            r@ == self.label(),
    {
        match self {
            Field::Links => "links",
            Field::Tags => "tags",
            Field::BlockRefIds => "block_ref_ids",
            Field::Properties => "properties",
            Field::Kinds => "kinds",
            Field::HeadingPaths => "heading_paths",
        }
    }
}

/// A reference as a golden case writes it: what is absent is left out.
pub open spec fn link_object(l: LinkView) -> JsonView {
    let kind = ("kind"@, JsonView::Str(l.kind.name()));
    let target = ("target"@, JsonView::Str(l.target));
    JsonView::Object(
        (match l.alias {
            Some(a) => seq![("alias"@, JsonView::Str(a))],
            None => Seq::empty(),
        }) + (match l.anchor {
            Some(a) => seq![("anchor"@, JsonView::Str(a))],
            None => Seq::empty(),
        }) + seq![kind, target],
    )
}

fn link_json(l: &LinkRef) -> (r: Json)
    ensures
        r@ == link_object(l.deep_view()),
{
    let mut m: Vec<(String, Json)> = Vec::new();
    if let Some(a) = &l.alias {
        m.push(("alias".to_owned(), Json::Str(a.clone())));
    }
    if let Some(a) = &l.anchor {
        m.push(("anchor".to_owned(), Json::Str(a.clone())));
    }
    m.push(("kind".to_owned(), Json::Str(l.kind.tag().to_owned())));
    m.push(("target".to_owned(), Json::Str(l.target.clone())));
    assert(member_list(m@) =~= link_object(l.deep_view())->Object_0);
    object_of(m)
}

/// The markers of the first `n` blocks that have one.
pub open spec fn markers(blocks: Seq<BlockView>, n: int) -> Seq<Seq<char>>
    decreases n,
{
    if n <= 0 {
        Seq::empty()
    } else {
        match blocks[n - 1].block_ref_id {
            Some(m) => markers(blocks, n - 1).push(m),
            None => markers(blocks, n - 1),
        }
    }
}

/// What a document has in a field.
pub open spec fn field_of(doc: DocumentView, f: Field) -> JsonView {
    match f {
        Field::Links => JsonView::Array(
            Seq::new(doc.links.len(), |i: int| link_object(doc.links[i])),
        ),
        Field::Tags => texts_view(Seq::new(doc.tags.len(), |i: int| doc.tags[i].tag)),
        Field::BlockRefIds => texts_view(markers(doc.blocks, doc.blocks.len() as int)),
        Field::Properties => doc.properties,
        Field::Kinds => texts_view(Seq::new(doc.blocks.len(), |i: int| doc.blocks[i].kind.name())),
        Field::HeadingPaths => lists_view(
            Seq::new(doc.blocks.len(), |i: int| doc.blocks[i].heading_path),
        ),
    }
}

fn links_json(doc: &Document) -> (r: Json)
    ensures
        r@ == field_of(doc.deep_view(), Field::Links),
{
    let ghost v = doc.deep_view();
    let mut out: Vec<Json> = Vec::new();
    let mut i: usize = 0;
    while i < doc.links.len()
        invariant
            i <= doc.links.len(),
            out.len() == i,
            forall|k: int| 0 <= k < i ==> (#[trigger] out[k])@ == link_object(doc.links[k].deep_view()),
        decreases doc.links.len() - i,
    {
        out.push(link_json(&doc.links[i]));
        i += 1;
    }
    assert(item_list(out@) =~= field_of(v, Field::Links)->Array_0);
    array_of(out)
}

fn tags_json(doc: &Document) -> (r: Json)
    ensures
        r@ == field_of(doc.deep_view(), Field::Tags),
{
    let ghost v = doc.deep_view();
    let mut out: Vec<String> = Vec::new();
    let mut i: usize = 0;
    while i < doc.tags.len()
        invariant
            i <= doc.tags.len(),
            out.len() == i,
            forall|k: int| 0 <= k < i ==> (#[trigger] out[k])@ == doc.tags[k].tag@,
        decreases doc.tags.len() - i,
    {
        out.push(doc.tags[i].tag.clone());
        i += 1;
    }
    assert(out.deep_view() =~= Seq::new(v.tags.len(), |i: int| v.tags[i].tag));
    texts_json(&out)
}

fn markers_json(doc: &Document) -> (r: Json)
    ensures
        r@ == field_of(doc.deep_view(), Field::BlockRefIds),
{
    let ghost v = doc.deep_view().blocks;
    let mut out: Vec<String> = Vec::new();
    let mut i: usize = 0;
    proof {
        assert(out.deep_view() =~= Seq::empty());
    }
    while i < doc.blocks.len()
        invariant
            i <= doc.blocks.len(),
            v == doc.deep_view().blocks,
            out.deep_view() == markers(v, i as int),
        decreases doc.blocks.len() - i,
    {
        assert(v[i as int] == doc.blocks[i as int].deep_view());
        if let Some(m) = &doc.blocks[i].block_ref_id {
            let ghost before = out.deep_view();
            out.push(m.clone());
            assert(out.deep_view() =~= before.push(m@));
        }
        i += 1;
    }
    assert(v.len() == doc.blocks.len());
    texts_json(&out)
}

fn kinds_json(doc: &Document) -> (r: Json)
    ensures
        r@ == field_of(doc.deep_view(), Field::Kinds),
{
    let ghost v = doc.deep_view();
    let mut out: Vec<String> = Vec::new();
    let mut i: usize = 0;
    while i < doc.blocks.len()
        invariant
            i <= doc.blocks.len(),
            out.len() == i,
            forall|k: int| 0 <= k < i ==> (#[trigger] out[k])@ == doc.blocks[k].kind.name(),
        decreases doc.blocks.len() - i,
    {
        out.push(doc.blocks[i].kind.tag().to_owned());
        i += 1;
    }
    assert(out.deep_view() =~= Seq::new(v.blocks.len(), |i: int| v.blocks[i].kind.name()));
    texts_json(&out)
}

fn paths_json(doc: &Document) -> (r: Json)
    ensures
        r@ == field_of(doc.deep_view(), Field::HeadingPaths),
{
    let ghost v = doc.deep_view();
    let mut out: Vec<Vec<String>> = Vec::new();
    let mut i: usize = 0;
    while i < doc.blocks.len()
        invariant
            i <= doc.blocks.len(),
            out.len() == i,
            forall|k: int|
                0 <= k < i ==> (#[trigger] out[k]).deep_view()
                    == doc.blocks[k].heading_path.deep_view(),
        decreases doc.blocks.len() - i,
    {
        out.push(copy_texts(&doc.blocks[i].heading_path));
        i += 1;
    }
    assert(out.deep_view() =~= Seq::new(v.blocks.len(), |i: int| v.blocks[i].heading_path));
    lists_json(&out)
}

/// What a document has in a field.
pub fn field_json(doc: &Document, f: Field) -> (r: Json)
    ensures
        r@ == field_of(doc.deep_view(), f),
{
    match f {
        Field::Links => links_json(doc),
        Field::Tags => tags_json(doc),
        Field::BlockRefIds => markers_json(doc),
        Field::Properties => json_copy(&doc.properties),
        Field::Kinds => kinds_json(doc),
        Field::HeadingPaths => paths_json(doc),
    }
}

/// The fields, in the order in which they are checked.
pub open spec fn fields() -> Seq<Field> {
    seq![
        Field::Links,
        Field::Tags,
        Field::BlockRefIds,
        Field::Properties,
        Field::Kinds,
        Field::HeadingPaths,
    ]
}

/// The first `n` fields that the case says something else of than the document.
pub open spec fn wrong_fields(case: JsonView, doc: DocumentView, n: int) -> Seq<Field>
    decreases n,
{
    if n <= 0 {
        Seq::empty()
    } else {
        let f = fields()[n - 1];
        match case.get(f.label()) {
            Some(want) => if want != field_of(doc, f) {
                wrong_fields(case, doc, n - 1).push(f)
            } else {
                wrong_fields(case, doc, n - 1)
            },
            None => wrong_fields(case, doc, n - 1),
        }
    }
}

/// The case says something of one of the first `n` fields.
pub open spec fn asserts_something(case: JsonView, n: int) -> bool
    decreases n,
{
    n > 0 && (case.get(fields()[n - 1].label()) is Some || asserts_something(case, n - 1))
}

/// Holds a document against a golden case: the fields that are wrong, and whether
/// the case says anything at all.
pub fn extraction_golden(case: &Json, doc: &Document) -> (r: (Vec<Field>, bool))
    ensures
        r.0@ == wrong_fields(case@, doc.deep_view(), 6),
        r.1 == asserts_something(case@, 6),
{
    let mut all: Vec<Field> = Vec::new();
    all.push(Field::Links);
    all.push(Field::Tags);
    all.push(Field::BlockRefIds);
    all.push(Field::Properties);
    all.push(Field::Kinds);
    all.push(Field::HeadingPaths);
    assert(all@ =~= fields());
    let ghost dv = doc.deep_view();
    let mut wrong: Vec<Field> = Vec::new();
    let mut asserted = false;
    let mut i: usize = 0;
    while i < 6
        invariant
            i <= 6,
            all@ == fields(),
            all.len() == 6,
            dv == doc.deep_view(),
            wrong@ == wrong_fields(case@, dv, i as int),
            asserted == asserts_something(case@, i as int),
        decreases 6 - i,
    {
        let f = all[i];
        if let Some(want) = get(case, f.name()) {
            asserted = true;
            let got = field_json(doc, f);
            if !json_eq(want, &got) {
                wrong.push(f);
            }
        }
        i += 1;
    }
    (wrong, asserted)
}

// ---- pseudo-random documents ----

/// The state after one step of the generator.
pub open spec fn shifted(s: u64) -> u64 {
    let a = s ^ (s >> 12);
    let b = a ^ (a << 25);
    b ^ (b >> 27)
}

/// A deterministic generator of numbers.
#[derive(Debug)]
pub struct Rng {
    pub state: u64,
}

impl Rng {
    /// The generator of a seed.
    pub fn new(seed: u64) -> (r: Self)
        ensures
            r.state == seed | 1,
    {
        Rng { state: seed | 1 }
    }

    /// The next number.
    pub fn next(&mut self) -> (r: u64)
        ensures
            final(self).state == shifted(old(self).state),
            r == vstd::wrapping::u64_specs::wrapping_mul(
                shifted(old(self).state),
                0x2545F4914F6CDD1D,
            ),
    {
        let s = self.state;
        let a = s ^ (s >> 12);
        let b = a ^ (a << 25);
        self.state = b ^ (b >> 27);
        self.state.wrapping_mul(0x2545F4914F6CDD1D)
    }
}

/// The decimal digits of a number.
pub open spec fn decimal(n: nat) -> Seq<char>
    decreases n,
{
    let d = ((48 + n % 10) as u8) as char;
    if n < 10 {
        seq![d]
    } else {
        decimal(n / 10).push(d)
    }
}

/// A text with every `{n}` replaced by another, taken from the left.
pub open spec fn filled(s: Seq<char>, by: Seq<char>) -> Seq<char>
    decreases s.len(),
{
    if s.len() < 3 {
        s
    } else if s[0] == '{' && s[1] == 'n' && s[2] == '}' {
        by + filled(s.skip(3), by)
    } else {
        seq![s[0]] + filled(s.drop_first(), by)
    }
}

/// The decimal digits of a number.
pub fn decimal_text(n: u64) -> (r: String)
    ensures
        r@ == decimal(n as nat),
    decreases n,
{
    let d = (48 + (n % 10) as u8) as char;
    if n < 10 {
        let mut out = String::new();
        out.push(d);
        assert(out@ =~= seq![d]);
        out
    } else {
        let mut out = decimal_text(n / 10);
        out.push(d);
        out
    }
}

/// A text with every `{n}` replaced by another.
pub fn fill(s: &str, by: &str) -> (r: String)
    ensures
        r@ == filled(s@, by@),
{
    let chars = to_chars(s);
    let ghost v = chars@;
    let mut out = String::new();
    let mut i: usize = 0;
    proof {
        assert(v.skip(0) =~= v);
        assert(out@ + filled(v, by@) =~= filled(v, by@));
    }
    while i < chars.len() && chars.len() - i >= 3
        invariant
            i <= chars.len(),
            v == chars@,
            out@ + filled(v.skip(i as int), by@) == filled(v, by@),
        decreases chars.len() - i,
    {
        let ghost rest = v.skip(i as int);
        let ghost before = out@;
        if chars[i] == '{' && chars[i + 1] == 'n' && chars[i + 2] == '}' {
            out.append(by);
            proof {
                let tail = filled(rest.skip(3), by@);
                assert(rest.skip(3) =~= v.skip(i + 3));
                assert(rest[0] == v[i as int] && rest[1] == v[i + 1] && rest[2] == v[i + 2]);
                assert(before + (by@ + tail) =~= out@ + tail);
            }
            i += 3;
        } else {
            out.push(chars[i]);
            proof {
                let tail = filled(rest.drop_first(), by@);
                assert(rest.drop_first() =~= v.skip(i + 1));
                assert(rest[0] == v[i as int] && rest[1] == v[i + 1] && rest[2] == v[i + 2]);
                assert(before + (seq![rest[0]] + tail) =~= out@ + tail);
            }
            i += 1;
        }
    }
    let tail = crate::text::from_chars(&chars, i, chars.len());
    proof {
        assert(tail@ =~= v.skip(i as int));
    }
    out.append(tail.as_str());
    out
}

/// The pieces that documents are made of.
pub open spec fn piece_text(k: int) -> Seq<char> {
    if k == 0 {
        "# Heading {n}\n"@
    } else if k == 1 {
        "## Sub *{n}* [[note-{n}|alias]]\n"@
    } else if k == 2 {
        "Para {n} with [[target#Sec]] and #tag{n} text.\n"@
    } else if k == 3 {
        "Para with trailing spaces  \nhard break {n}.\n"@
    } else if k == 4 {
        "- item {n}\n- item [[x{n}]]\n  - nested {n}\n"@
    } else if k == 5 {
        "1. ordered {n}\n   continuation line\n"@
    } else if k == 6 {
        "> quoted {n}\n> more [[q{n}]]\n"@
    } else if k == 7 {
        "> lazy quote {n}\nlazy continuation\n"@
    } else if k == 8 {
        "```rust\nfn f{n}() {{}}\n```\n"@
    } else if k == 9 {
        "    indented code {n}\n"@
    } else if k == 10 {
        "| a | b |\n|---|---|\n| {n} | [[c\\|d]] |\n"@
    } else if k == 11 {
        "---\n"@
    } else if k == 12 {
        "Text with `code #notag [[nolink]]` span {n}.\n"@
    } else if k == 13 {
        "[ref{n}]: https://example.com/{n}\nUse [ref{n}] here.\n"@
    } else if k == 14 {
        "Block with id {n}. ^id-{n}\n"@
    } else if k == 15 {
        "<div>\nhtml block {n}\n</div>\n"@
    } else if k == 16 {
        "Setext {n}\n======\n"@
    } else if k == 17 {
        "\u{00e9}\u{0301} composed/decomposed {n}\n"@
    } else if k == 18 {
        "\n"@
    } else {
        "\n\n"@
    }
}

/// A piece that documents are made of.
pub fn piece(k: u64) -> (r: &'static str)
    ensures
        r@ == piece_text(k as int),
{
    match k {
        0 => "# Heading {n}\n",
        1 => "## Sub *{n}* [[note-{n}|alias]]\n",
        2 => "Para {n} with [[target#Sec]] and #tag{n} text.\n",
        3 => "Para with trailing spaces  \nhard break {n}.\n",
        4 => "- item {n}\n- item [[x{n}]]\n  - nested {n}\n",
        5 => "1. ordered {n}\n   continuation line\n",
        6 => "> quoted {n}\n> more [[q{n}]]\n",
        7 => "> lazy quote {n}\nlazy continuation\n",
        8 => "```rust\nfn f{n}() {{}}\n```\n",
        9 => "    indented code {n}\n",
        10 => "| a | b |\n|---|---|\n| {n} | [[c\\|d]] |\n",
        11 => "---\n",
        12 => "Text with `code #notag [[nolink]]` span {n}.\n",
        13 => "[ref{n}]: https://example.com/{n}\nUse [ref{n}] here.\n",
        14 => "Block with id {n}. ^id-{n}\n",
        15 => "<div>\nhtml block {n}\n</div>\n",
        16 => "Setext {n}\n======\n",
        17 => "\u{00e9}\u{0301} composed/decomposed {n}\n",
        18 => "\n",
        _ => "\n\n",
    }
}

pub open spec fn drawn(s: u64) -> u64 {
    vstd::wrapping::u64_specs::wrapping_mul(shifted(s), 0x2545F4914F6CDD1D)
}

/// `n` pieces drawn from a state of the generator, and the state after them.
pub open spec fn pieces_from(s: u64, number: Seq<char>, n: nat) -> (Seq<char>, u64)
    decreases n,
{
    if n == 0 {
        (Seq::empty(), s)
    } else {
        let (text, t) = pieces_from(s, number, (n - 1) as nat);
        (text + filled(piece_text(drawn(t) as int % 20), number), shifted(t))
    }
}

/// The document that a state of the generator gives under a number, and the state
/// after it.
pub open spec fn document_from(s: u64, i: nat) -> (Seq<char>, u64) {
    let front = if drawn(s) % 4 == 0 {
        "---\ntitle: fuzz\ntags: [f]\n---\n"@
    } else {
        ""@
    };
    let s1 = shifted(s);
    let parts = 1 + drawn(s1) as int % 12;
    let (body, t) = pieces_from(shifted(s1), decimal(i), parts as nat);
    (front + body, t)
}

/// A pseudo-random document.
pub fn fuzz_document(rng: &mut Rng, i: u64) -> (r: String)
    ensures
        r@ == document_from(old(rng).state, i as nat).0,
        final(rng).state == document_from(old(rng).state, i as nat).1,
{
    let mut out = if rng.next() % 4 == 0 {
        "---\ntitle: fuzz\ntags: [f]\n---\n".to_owned()
    } else {
        "".to_owned()
    };
    let ghost front = out@;
    let parts: u64 = 1 + rng.next() % 12;
    let number = decimal_text(i);
    let ghost s2 = rng.state;
    let mut k: u64 = 0;
    proof {
        assert(front + Seq::<char>::empty() =~= front);
    }
    while k < parts
        invariant
            k <= parts,
            number@ == decimal(i as nat),
            out@ == front + pieces_from(s2, number@, k as nat).0,
            rng.state == pieces_from(s2, number@, k as nat).1,
        decreases parts - k,
    {
        let ghost before = pieces_from(s2, number@, k as nat);
        let p = piece(rng.next() % 20);
        let text = fill(p, number.as_str());
        out.append(text.as_str());
        proof {
            let after = pieces_from(s2, number@, (k + 1) as nat);
            assert(after.0 == before.0 + text@);
            assert(out@ =~= front + after.0);
        }
        k += 1;
    }
    out
}

} // verus!
