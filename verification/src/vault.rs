//! Vault syntax: wiki-links, transclusions, tags, block-ID markers, and the
//! classification of markdown links. Runs on plain text only.

use vstd::prelude::*;
use vstd::string::*;
use vstd::utf8::*;

use crate::document::{opt_text, LinkKind, LinkRef, LinkView, TagRef, TagView, TextUnit, UnitView};
use crate::text::{
    ascii_alnum, ascii_alpha, ascii_digit, encode_concat, find, find_is, from_chars, is_alnum,
    is_alpha, is_digit, nfc, slice, sub_text, to_chars, to_nfc, trim, trim_end, trimmed,
    trimmed_end, whitespace, CharSet,
};

verus! {

/// How many backslashes stand right before `pos`.
pub open spec fn backslashes(text: Seq<char>, pos: int) -> nat
    decreases pos,
{
    if 0 < pos <= text.len() && text[pos - 1] == '\\' {
        1 + backslashes(text, pos - 1)
    } else {
        0
    }
}

/// The character at `pos` is escaped: an odd number of backslashes precedes it.
pub open spec fn escaped(text: Seq<char>, pos: int) -> bool {
    backslashes(text, pos) % 2 == 1
}

/// Whether the character at `pos` is escaped.
pub fn escaped_at(text: &Vec<char>, pos: usize) -> (r: bool)
    requires
        pos <= text.len(),
    ensures
        r == escaped(text@, pos as int),
{
    let mut i: usize = pos;
    let mut odd = false;
    while i > 0 && text[i - 1] == '\\'
        invariant
            i <= pos <= text.len(),
            (backslashes(text@, i as int) + (if odd { 1int } else { 0 })) % 2 == backslashes(
                text@,
                pos as int,
            ) as int % 2,
        decreases i,
    {
        odd = !odd;
        i -= 1;
    }
    odd
}

/// The interior of `[[ … ]]` while it is read.
pub ghost struct Interior {
    pub target: Seq<char>,
    pub anchor: Option<Seq<char>>,
    pub alias: Option<Seq<char>>,
}

/// The part of an interior that a character goes to.
#[derive(Clone, Copy, PartialEq, Eq, Structural)]
pub enum Part {
    Target,
    Anchor,
    Alias,
}

pub open spec fn grown(o: Option<Seq<char>>, c: char) -> Option<Seq<char>> {
    match o {
        Some(s) => Some(s.push(c)),
        None => Some(seq![c]),
    }
}

impl Interior {
    pub open spec fn put(self, part: Part, c: char) -> Interior {
        match part {
            Part::Target => Interior { target: self.target.push(c), ..self },
            Part::Anchor => Interior { anchor: grown(self.anchor, c), ..self },
            Part::Alias => Interior { alias: grown(self.alias, c), ..self },
        }
    }
}

/// What follows a `[[`, as text.
pub ghost enum WikiView {
    /// A link, and how many characters it takes up to and with its `]]`.
    Found(Seq<char>, Option<Seq<char>>, Option<Seq<char>>, int),
    /// A `]]` that closes no link: no target and no anchor.
    Invalid(int),
    /// No `]]` on this line.
    NoTerminator,
}

pub open spec fn nonempty(s: Seq<char>) -> Option<Seq<char>> {
    if s.len() == 0 {
        None
    } else {
        Some(s)
    }
}

/// What a closed interior stands for.
pub open spec fn closed(st: Interior, consumed: int) -> WikiView {
    let anchor = match st.anchor {
        Some(a) => nonempty(nfc(trimmed(a))),
        None => None,
    };
    if trimmed(st.target).len() == 0 && anchor is None {
        WikiView::Invalid(consumed)
    } else {
        WikiView::Found(
            nfc(trimmed(st.target)),
            anchor,
            match st.alias {
                Some(a) => nonempty(trimmed(a)),
                None => None,
            },
            consumed,
        )
    }
}

/// Reads an interior from `i` on: a single line, closed by `]]`. The first `#`
/// in the target starts the anchor, the first `|` the alias; a backslash takes
/// `#`, `|` and `]` literally.
pub open spec fn wiki_from(rest: Seq<char>, i: int, st: Interior, part: Part) -> WikiView
    decreases rest.len() - i,
{
    if i < 0 || i >= rest.len() || rest[i] == '\n' {
        WikiView::NoTerminator
    } else if rest[i] == '\\' && i + 1 < rest.len() && (rest[i + 1] == '#' || rest[i + 1] == '|'
        || rest[i + 1] == ']') {
        wiki_from(rest, i + 2, st.put(part, rest[i + 1]), part)
    } else if rest[i] == ']' && i + 1 < rest.len() && rest[i + 1] == ']' {
        closed(st, i + 2)
    } else if rest[i] == '#' && part == Part::Target {
        wiki_from(rest, i + 1, st, Part::Anchor)
    } else if rest[i] == '|' && part != Part::Alias {
        wiki_from(rest, i + 1, st, Part::Alias)
    } else {
        wiki_from(rest, i + 1, st.put(part, rest[i]), part)
    }
}

/// What the text after a `[[` stands for.
pub open spec fn wiki(rest: Seq<char>) -> WikiView {
    wiki_from(
        rest,
        0,
        Interior { target: Seq::empty(), anchor: None, alias: None },
        Part::Target,
    )
}

/// A link takes no more than there is.
pub proof fn wiki_bounds(rest: Seq<char>, i: int, st: Interior, part: Part)
    requires
        0 <= i,
    ensures
        match wiki_from(rest, i, st, part) {
            WikiView::Found(_, _, _, n) => i < n <= rest.len(),
            WikiView::Invalid(n) => i < n <= rest.len(),
            WikiView::NoTerminator => true,
        },
    decreases rest.len() - i,
{
    if i >= rest.len() || rest[i] == '\n' {
    } else if rest[i] == '\\' && i + 1 < rest.len() && (rest[i + 1] == '#' || rest[i + 1] == '|'
        || rest[i + 1] == ']') {
        wiki_bounds(rest, i + 2, st.put(part, rest[i + 1]), part);
    } else if rest[i] == ']' && i + 1 < rest.len() && rest[i + 1] == ']' {
    } else if rest[i] == '#' && part == Part::Target {
        wiki_bounds(rest, i + 1, st, Part::Anchor);
    } else if rest[i] == '|' && part != Part::Alias {
        wiki_bounds(rest, i + 1, st, Part::Alias);
    } else {
        wiki_bounds(rest, i + 1, st.put(part, rest[i]), part);
    }
}

/// A parsed `[[ … ]]` interior.
pub struct WikiParts {
    pub target: String,
    pub anchor: Option<String>,
    pub alias: Option<String>,
}

/// Outcome of scanning after a `[[` opener.
pub enum WikiOutcome {
    /// Valid link; characters consumed with the closing `]]`.
    Found(WikiParts, usize),
    /// A `]]` exists but there is neither target nor anchor; the bracketed
    /// span is consumed without a link.
    Invalid(usize),
    /// No `]]` before the line end: no later `[[` on this line has one either.
    NoTerminator,
}

impl WikiOutcome {
    pub open spec fn means(self) -> WikiView {
        match self {
            WikiOutcome::Found(p, n) => WikiView::Found(
                p.target@,
                opt_text(p.anchor),
                opt_text(p.alias),
                n as int,
            ),
            WikiOutcome::Invalid(n) => WikiView::Invalid(n as int),
            WikiOutcome::NoTerminator => WikiView::NoTerminator,
        }
    }
}

/// Adds a character to the part that is being read.
fn push_part(
    target: &mut String,
    anchor: &mut Option<String>,
    alias: &mut Option<String>,
    part: Part,
    c: char,
)
    ensures
        (Interior {
            target: final(target)@,
            anchor: opt_text(*final(anchor)),
            alias: opt_text(*final(alias)),
        }) == (Interior {
            target: old(target)@,
            anchor: opt_text(*old(anchor)),
            alias: opt_text(*old(alias)),
        }).put(part, c),
{
    match part {
        Part::Target => target.push(c),
        Part::Anchor => push_option(anchor, c),
        Part::Alias => push_option(alias, c),
    }
}

fn push_option(o: &mut Option<String>, c: char)
    ensures
        opt_text(*final(o)) == grown(opt_text(*old(o)), c),
{
    let mut s = match o.take() {
        Some(s) => s,
        None => String::new(),
    };
    s.push(c);
    assert(opt_text(*old(o)) is None ==> s@ =~= seq![c]);
    *o = Some(s);
}

fn keep_nonempty(s: String) -> (r: Option<String>)
    ensures
        opt_text(r) == nonempty(s@),
{
    if s.as_str().is_empty() {
        None
    } else {
        Some(s)
    }
}

/// Reads the interior after a `[[`, from `from` on.
pub fn parse_wiki(text: &Vec<char>, from: usize) -> (r: WikiOutcome)
    requires
        from <= text.len(),
    ensures
        r.means() == wiki(text@.skip(from as int)),
        r matches WikiOutcome::Found(p, _) ==> p.target@.len() > 0 || p.anchor is Some,
{
    let ghost rest = text@.skip(from as int);
    let mut target = String::new();
    let mut anchor: Option<String> = None;
    let mut alias: Option<String> = None;
    let mut part = Part::Target;
    let mut i: usize = from;
    while i < text.len()
        invariant
            from <= i <= text.len(),
            rest == text@.skip(from as int),
            wiki(rest) == wiki_from(
                rest,
                i - from,
                (Interior { target: target@, anchor: opt_text(anchor), alias: opt_text(alias) }),
                part,
            ),
        decreases text.len() - i,
    {
        let c = text[i];
        assert(c == rest[i - from]);
        if c == '\n' {
            return WikiOutcome::NoTerminator;
        }
        if c == '\\' && i + 1 < text.len() && (text[i + 1] == '#' || text[i + 1] == '|' || text[i
            + 1] == ']') {
            assert(text[i + 1] == rest[i - from + 1]);
            push_part(&mut target, &mut anchor, &mut alias, part, text[i + 1]);
            i += 2;
            continue;
        }
        if c == ']' && i + 1 < text.len() && text[i + 1] == ']' {
            assert(text[i + 1] == rest[i - from + 1]);
            let consumed: usize = i - from + 2;
            let bare = trim(target.as_str());
            let anchor = match anchor {
                Some(a) => keep_nonempty(to_nfc(trim(a.as_str()))),
                None => None,
            };
            if bare.is_empty() && anchor.is_none() {
                return WikiOutcome::Invalid(consumed);
            }
            let target = to_nfc(bare);
            let alias = match alias {
                Some(a) => keep_nonempty(trim(a.as_str()).to_owned()),
                None => None,
            };
            return WikiOutcome::Found(WikiParts { target, anchor, alias }, consumed);
        }
        assert(i + 1 < text.len() ==> text[i + 1] == rest[i - from + 1]);
        if c == '#' && part == Part::Target {
            part = Part::Anchor;
        } else if c == '|' && part != Part::Alias {
            part = Part::Alias;
        } else {
            push_part(&mut target, &mut anchor, &mut alias, part, c);
        }
        i += 1;
    }
    WikiOutcome::NoTerminator
}

/// The characters that a tag is made of.
pub open spec fn tag_char(c: char) -> bool {
    is_alnum(c) || c == '_' || c == '/' || c == '-'
}

/// How many tag characters stand from `from` on.
pub open spec fn tag_run(text: Seq<char>, from: int) -> nat
    decreases text.len() - from,
{
    if 0 <= from < text.len() && tag_char(text[from]) {
        1 + tag_run(text, from + 1)
    } else {
        0
    }
}

/// Where a scanned text stands.
pub ghost struct Place {
    /// Byte offset in the source; None for a literal.
    pub offset: Option<int>,
    /// The character before the text in the source.
    pub before: Option<char>,
    /// Byte offset at which the block's inline text starts.
    pub block_start: Option<int>,
}

/// A `#` at `i` may start a tag: it opens the block's text (or the literal), or
/// white space precedes it.
pub open spec fn tag_may_start(text: Seq<char>, place: Place, i: int) -> bool {
    let after_space = if i > 0 {
        whitespace(text[i - 1])
    } else {
        place.before is Some && whitespace(place.before->0)
    };
    match place.offset {
        Some(off) => place.block_start == Some(off + encode_utf8(text.take(i)).len())
            || after_space,
        None => i == 0 || whitespace(text[i - 1]),
    }
}

/// The tag that starts with the `#` at `i`: unescaped, in a place where a tag
/// may start, non-empty and not only digits.
pub open spec fn tag_at(text: Seq<char>, place: Place, i: int) -> Option<Seq<char>> {
    let tag = text.subrange(i + 1, i + 1 + tag_run(text, i + 1));
    if text[i] == '#' && !escaped(text, i) && tag_may_start(text, place, i) && tag.len() > 0 && (
    exists|k: int| 0 <= k < tag.len() && !is_digit(#[trigger] tag[k])) {
        Some(tag)
    } else {
        None
    }
}

/// An unescaped `[[` stands at `i`.
pub open spec fn opens_link(text: Seq<char>, i: int) -> bool {
    text[i] == '[' && i + 1 < text.len() && text[i + 1] == '[' && !escaped(text, i)
}

/// The kind of the link that opens at `i`: embedded by an unescaped `!` before
/// it; a reference to a block if its anchor starts with `^`.
pub open spec fn link_kind(text: Seq<char>, i: int, anchor: Option<Seq<char>>) -> LinkKind {
    if i > 0 && text[i - 1] == '!' && !escaped(text, i - 1) {
        LinkKind::Transclusion
    } else if anchor is Some && anchor->0.len() > 0 && anchor->0[0] == '^' {
        LinkKind::Blockref
    } else {
        LinkKind::Wikilink
    }
}

/// What a scan has found.
pub ghost struct Found {
    pub links: Seq<LinkView>,
    pub tags: Seq<TagView>,
}

/// What scanning `text` from `i` on adds to `acc`.
pub open spec fn scanned(text: Seq<char>, place: Place, block: u32, i: int, acc: Found) -> Found
    decreases
            (if 0 <= i < text.len() {
                text.len() - i
            } else {
                0
            }),
{
    if i < 0 || i >= text.len() {
        acc
    } else if opens_link(text, i) {
        match wiki(text.skip(i + 2)) {
            WikiView::Found(target, anchor, alias, n) => {
                let link = LinkView {
                    kind: link_kind(text, i, anchor),
                    target,
                    anchor,
                    alias,
                    block,
                };
                if n > 0 {
                    scanned(
                        text,
                        place,
                        block,
                        i + 2 + n,
                        Found { links: acc.links.push(link), ..acc },
                    )
                } else {
                    acc
                }
            },
            WikiView::Invalid(n) => if n > 0 {
                scanned(text, place, block, i + 2 + n, acc)
            } else {
                acc
            },
            WikiView::NoTerminator => scanned(
                text,
                place,
                block,
                i + find(text.skip(i), '\n') + 1,
                acc,
            ),
        }
    } else if let Some(tag) = tag_at(text, place, i) {
        scanned(
            text,
            place,
            block,
            i + 1 + tag.len(),
            Found { tags: acc.tags.push(TagView { tag, block: Some(block) }), ..acc },
        )
    } else {
        scanned(text, place, block, i + 1, acc)
    }
}

/// Bytes that a character takes in UTF-8.
fn char_width(c: char) -> (r: usize)
    ensures
        r == encode_scalar(c as u32).len(),
        1 <= r <= 4,
{
    let n: u32 = c as u32;
    proof {
        char_is_scalar(c);
    }
    if n <= 0x7f {
        1
    } else if n <= 0x7ff {
        2
    } else if n <= 0xffff {
        3
    } else {
        4
    }
}

/// The bytes of one character more.
proof fn encode_step(text: Seq<char>, i: int)
    requires
        0 <= i < text.len(),
    ensures
        encode_utf8(text.take(i + 1)).len() == encode_utf8(text.take(i)).len() + encode_scalar(
            text[i] as u32,
        ).len(),
{
    let one = seq![text[i]];
    assert(text.take(i + 1) =~= text.take(i) + one);
    encode_concat(text.take(i), one);
    assert(one.drop_first() =~= Seq::<char>::empty());
    assert(encode_utf8(one.drop_first()).len() == 0);
}

proof fn encode_take_le(text: Seq<char>, i: int)
    requires
        0 <= i <= text.len(),
    ensures
        encode_utf8(text.take(i)).len() <= encode_utf8(text).len(),
{
    assert(text =~= text.take(i) + text.skip(i));
    encode_concat(text.take(i), text.skip(i));
}

/// Byte offset of the character `to`, given that of the character `from`.
fn advance(text: &Vec<char>, from: usize, to: usize, at: usize) -> (r: usize)
    requires
        from <= to <= text.len(),
        at == encode_utf8(text@.take(from as int)).len(),
        encode_utf8(text@).len() <= usize::MAX,
    ensures
        r == encode_utf8(text@.take(to as int)).len(),
{
    let mut i: usize = from;
    let mut pos: usize = at;
    while i < to
        invariant
            from <= i <= to <= text.len(),
            pos == encode_utf8(text@.take(i as int)).len(),
            encode_utf8(text@).len() <= usize::MAX,
        decreases to - i,
    {
        proof {
            encode_step(text@, i as int);
            encode_take_le(text@, i + 1);
        }
        pos += char_width(text[i]);
        i += 1;
    }
    pos
}

/// Scans one text for links and tags.
pub fn scan_text(
    text: &str,
    offset: Option<usize>,
    before: Option<char>,
    block: u32,
    block_start: Option<usize>,
    links: &mut Vec<LinkRef>,
    tags: &mut Vec<TagRef>,
)
    requires
        offset is Some ==> offset->0 + encode_utf8(text@).len() <= usize::MAX,
    ensures
        (Found { links: final(links).deep_view(), tags: final(tags).deep_view() }) == scanned(
            text@,
            (Place {
                offset: (match offset {
                    Some(o) => Some(o as int),
                    None => None,
                }),
                before,
                block_start: (match block_start {
                    Some(b) => Some(b as int),
                    None => None,
                }),
            }),
            block,
            0,
            (Found { links: old(links).deep_view(), tags: old(tags).deep_view() }),
        ),
{
    let size: usize = text.as_bytes().len();
    let cs = to_chars(text);
    let ghost place = Place {
        offset: (match offset {
            Some(o) => Some(o as int),
            None => None,
        }),
        before,
        block_start: (match block_start {
            Some(b) => Some(b as int),
            None => None,
        }),
    };
    let ghost goal = scanned(
        text@,
        place,
        block,
        0,
        (Found { links: links.deep_view(), tags: tags.deep_view() }),
    );
    let mut i: usize = 0;
    let mut pos: usize = 0;
    proof {
        assert(encode_utf8(text@.take(0)).len() == 0);
    }
    while i < cs.len()
        invariant
            i <= cs.len(),
            cs@ == text@,
            encode_utf8(text@).len() <= usize::MAX,
            offset is Some ==> offset->0 + encode_utf8(text@).len() <= usize::MAX,
            pos == encode_utf8(text@.take(i as int)).len(),
            place == (Place {
                offset: (match offset {
                    Some(o) => Some(o as int),
                    None => None,
                }),
                before,
                block_start: (match block_start {
                    Some(b) => Some(b as int),
                    None => None,
                }),
            }),
            goal == scanned(
                text@,
                place,
                block,
                i as int,
                (Found { links: links.deep_view(), tags: tags.deep_view() }),
            ),
        decreases cs.len() - i,
    {
        let ghost acc = Found { links: links.deep_view(), tags: tags.deep_view() };
        if cs[i] == '[' && i + 1 < cs.len() && cs[i + 1] == '[' && !escaped_at(&cs, i) {
            proof {
                wiki_bounds(
                    text@.skip(i + 2),
                    0,
                    Interior { target: Seq::empty(), anchor: None, alias: None },
                    Part::Target,
                );
            }
            let next: usize = match parse_wiki(&cs, i + 2) {
                WikiOutcome::Found(parts, consumed) => {
                    let embed = i > 0 && cs[i - 1] == '!' && !escaped_at(&cs, i - 1);
                    let ghost link = LinkView {
                        kind: link_kind(text@, i as int, opt_text(parts.anchor)),
                        target: parts.target@,
                        anchor: opt_text(parts.anchor),
                        alias: opt_text(parts.alias),
                        block,
                    };
                    push_wiki(parts, embed, block, links);
                    proof {
                        assert(links@.last().deep_view() == link);
                        assert(links.deep_view() =~= acc.links.push(link));
                        assert(goal == scanned(text@, place, block, i + 2 + consumed, Found { links: acc.links.push(link), ..acc }));
                    }
                    i + 2 + consumed
                },
                WikiOutcome::Invalid(consumed) => {
                    assert(goal == scanned(text@, place, block, i + 2 + consumed, acc));
                    i + 2 + consumed
                },
                WikiOutcome::NoTerminator => {
                    let mut j: usize = i;
                    while j < cs.len() && cs[j] != '\n'
                        invariant
                            i <= j <= cs.len(),
                            cs@ == text@,
                            forall|k: int| i <= k < j ==> #[trigger] cs@[k] != '\n',
                        decreases cs.len() - j,
                    {
                        j += 1;
                    }
                    proof {
                        let t = text@.skip(i as int);
                        find_is(t, '\n', j - i);
                        assert(goal == scanned(text@, place, block, j + 1, acc));
                        assert(j == cs.len() ==> goal == acc);
                    }
                    if j < cs.len() {
                        j + 1
                    } else {
                        j
                    }
                },
            };
            pos = advance(&cs, i, next, pos);
            i = next;
            continue;
        }
        if cs[i] == '#' && !escaped_at(&cs, i) {
            let after_space = if i > 0 {
                cs[i - 1].is_whitespace()
            } else {
                match before {
                    Some(c) => c.is_whitespace(),
                    None => false,
                }
            };
            proof {
                encode_take_le(text@, i as int);
            }
            let may_start = match offset {
                Some(off) => {
                    let at: usize = off + pos;
                    (match block_start {
                        Some(b) => b == at,
                        None => false,
                    }) || after_space
                },
                None => i == 0 || cs[i - 1].is_whitespace(),
            };
            assert(may_start == tag_may_start(text@, place, i as int));
            if may_start {
                let end = tag_end(&cs, i + 1);
                if end > i + 1 && has_nondigit(&cs, i + 1, end) {
                    let tag = from_chars(&cs, i + 1, end);
                    proof {
                        assert(tag@ == text@.subrange(i + 1, end as int));
                        let k = choose|k: int| i + 1 <= k < end && !is_digit(#[trigger] cs@[k]);
                        assert(tag@[k - i - 1] == cs@[k]);
                        assert(tag_at(text@, place, i as int) == Some(tag@));
                    }
                    tags.push(TagRef { tag, block: Some(block) });
                    proof {
                        assert(tags.deep_view() =~= acc.tags.push(
                            TagView { tag: text@.subrange(i + 1, end as int), block: Some(block) },
                        ));
                    }
                    pos = advance(&cs, i, end, pos);
                    i = end;
                    continue;
                }
                proof {
                    let tag = text@.subrange(i + 1, i + 1 + tag_run(text@, i + 1));
                    assert(tag_at(text@, place, i as int) is None) by {
                        if exists|k: int| 0 <= k < tag.len() && !is_digit(#[trigger] tag[k]) {
                            let k = choose|k: int| 0 <= k < tag.len() && !is_digit(#[trigger] tag[k]);
                            assert(tag[k] == cs@[i + 1 + k]);
                        }
                    }
                }
            }
        }
        assert(tag_at(text@, place, i as int) is None);
        let step: usize = i + 1;
        pos = advance(&cs, i, step, pos);
        i = step;
    }
}

/// Where the run of tag characters that starts at `from` ends.
fn tag_end(text: &Vec<char>, from: usize) -> (r: usize)
    requires
        from <= text.len(),
    ensures
        r == from + tag_run(text@, from as int),
        from <= r <= text.len(),
{
    let mut i: usize = from;
    while i < text.len() && (ascii_alnum(text[i]) || text[i] == '_' || text[i] == '/' || text[i]
        == '-')
        invariant
            from <= i <= text.len(),
            i + tag_run(text@, i as int) == from + tag_run(text@, from as int),
        decreases text.len() - i,
    {
        i += 1;
    }
    i
}

fn has_nondigit(text: &Vec<char>, from: usize, to: usize) -> (r: bool)
    requires
        from <= to <= text.len(),
    ensures
        r == (exists|k: int| from <= k < to && !is_digit(#[trigger] text@[k])),
{
    let mut i: usize = from;
    while i < to
        invariant
            from <= i <= to <= text.len(),
            forall|k: int| from <= k < i ==> is_digit(#[trigger] text@[k]),
        decreases to - i,
    {
        if !ascii_digit(text[i]) {
            assert(!is_digit(text@[i as int]));
            return true;
        }
        i += 1;
    }
    false
}

/// Records a wiki-link.
fn push_wiki(parts: WikiParts, embed: bool, block: u32, links: &mut Vec<LinkRef>)
    ensures
        final(links)@.len() == old(links)@.len() + 1,
        final(links)@.drop_last() == old(links)@,
        final(links)@.last().deep_view() == (LinkView {
            kind: (if embed {
                LinkKind::Transclusion
            } else if parts.anchor is Some && parts.anchor->0@.len() > 0 && parts.anchor->0@[0]
                == '^' {
                LinkKind::Blockref
            } else {
                LinkKind::Wikilink
            }),
            target: parts.target@,
            anchor: opt_text(parts.anchor),
            alias: opt_text(parts.alias),
            block,
        }),
{
    let to_block = match &parts.anchor {
        Some(a) => starts_with_caret(a.as_str()),
        None => false,
    };
    let kind = if embed {
        LinkKind::Transclusion
    } else if to_block {
        LinkKind::Blockref
    } else {
        LinkKind::Wikilink
    };
    links.push(
        LinkRef { kind, target: parts.target, anchor: parts.anchor, alias: parts.alias, block },
    );
    assert(links@.drop_last() =~= old(links)@);
}

/// Whether the text starts with `^`.
pub fn starts_with_caret(s: &str) -> (r: bool)
    ensures
        r == (s@.len() > 0 && s@[0] == '^'),
{
    !s.is_empty() && s.get_char(0) == '^'
}

/// The character that ends right before byte `at`.
pub open spec fn char_before(source: Seq<char>, at: int) -> Option<char> {
    let head = sub_text(source, 0, at);
    if head.len() == 0 {
        None
    } else {
        Some(head.last())
    }
}

/// Where the first range among the units starts.
pub open spec fn first_range(units: Seq<UnitView>) -> Option<int>
    decreases units.len(),
{
    if units.len() == 0 {
        None
    } else {
        match units[0] {
            UnitView::Range(r) => Some(r.start as int),
            UnitView::Literal(_) => first_range(units.drop_first()),
        }
    }
}

/// What scanning one unit of a block adds to `acc`.
pub open spec fn scanned_unit(
    source: Seq<char>,
    unit: UnitView,
    block: u32,
    block_start: Option<int>,
    acc: Found,
) -> Found {
    match unit {
        UnitView::Range(r) => scanned(
            sub_text(source, r.start as int, r.end as int),
            Place {
                offset: Some(r.start as int),
                before: char_before(source, r.start as int),
                block_start,
            },
            block,
            0,
            acc,
        ),
        UnitView::Literal(t) => scanned(
            t,
            Place { offset: None, before: None, block_start },
            block,
            0,
            acc,
        ),
    }
}

/// What scanning the first `n` units of a block adds to `acc`.
pub open spec fn scanned_units(
    source: Seq<char>,
    units: Seq<UnitView>,
    n: int,
    block: u32,
    acc: Found,
) -> Found
    decreases n,
{
    if n <= 0 {
        acc
    } else {
        scanned_unit(
            source,
            units[n - 1],
            block,
            first_range(units),
            scanned_units(source, units, n - 1, block, acc),
        )
    }
}

/// What scanning the first `n` blocks adds to `acc`.
pub open spec fn scanned_blocks(
    source: Seq<char>,
    blocks: Seq<Seq<UnitView>>,
    n: int,
    acc: Found,
) -> Found
    decreases n,
{
    if n <= 0 {
        acc
    } else {
        scanned_units(
            source,
            blocks[n - 1],
            blocks[n - 1].len() as int,
            (n - 1) as u32,
            scanned_blocks(source, blocks, n - 1, acc),
        )
    }
}

/// The ranges among the units lie in the source and cut no character.
pub open spec fn units_within(units: Seq<UnitView>, source: Seq<char>) -> bool {
    forall|i: int|
        0 <= i < units.len() ==> (#[trigger] units[i] matches UnitView::Range(r) ==> r.within(source))
}

fn find_first_range(units: &Vec<TextUnit>) -> (r: Option<usize>)
    ensures
        first_range(units.deep_view()) == (match r {
            Some(s) => Some(s as int),
            None => None,
        }),
{
    let ghost v = units.deep_view();
    let mut i: usize = 0;
    proof {
        assert(v.skip(0) =~= v);
    }
    while i < units.len()
        invariant
            i <= units.len(),
            v == units.deep_view(),
            first_range(v) == first_range(v.skip(i as int)),
        decreases units.len() - i,
    {
        assert(v.skip(i as int)[0] == units[i as int].deep_view());
        match &units[i] {
            TextUnit::Range(s) => {
                return Some(s.start);
            },
            TextUnit::Literal(_) => {},
        }
        assert(v.skip(i as int).drop_first() =~= v.skip(i + 1));
        i += 1;
    }
    None
}

/// The character that ends right before byte `at`.
fn find_char_before(source: &str, at: usize) -> (r: Option<char>)
    requires
        at <= source.spec_bytes().len(),
        is_char_boundary(source.spec_bytes(), at as int),
    ensures
        r == char_before(source@, at as int),
{
    proof {
        encode_utf8_valid_utf8(source@);
        is_char_boundary_start_end_of_seq(source.spec_bytes());
    }
    let head = slice(source, 0, at);
    let n: usize = head.unicode_len();
    if n == 0 {
        None
    } else {
        Some(head.get_char(n - 1))
    }
}

/// Scans one block's text units.
pub fn scan_units(
    units: &Vec<TextUnit>,
    block: u32,
    source: &str,
    links: &mut Vec<LinkRef>,
    tags: &mut Vec<TagRef>,
)
    requires
        units_within(units.deep_view(), source@),
    ensures
        (Found { links: final(links).deep_view(), tags: final(tags).deep_view() }) == scanned_units(
            source@,
            units.deep_view(),
            units.len() as int,
            block,
            (Found { links: old(links).deep_view(), tags: old(tags).deep_view() }),
        ),
{
    let ghost v = units.deep_view();
    let size: usize = source.as_bytes().len();
    let block_start = find_first_range(units);
    let ghost start = Found { links: links.deep_view(), tags: tags.deep_view() };
    let mut u: usize = 0;
    while u < units.len()
        invariant
            u <= units.len(),
            v == units.deep_view(),
            size == source.spec_bytes().len(),
            units_within(v, source@),
            first_range(v) == (match block_start {
                Some(s) => Some(s as int),
                None => None,
            }),
            (Found { links: links.deep_view(), tags: tags.deep_view() }) == scanned_units(
                source@,
                v,
                u as int,
                block,
                start,
            ),
        decreases units.len() - u,
    {
        assert(v[u as int] == units[u as int].deep_view());
        match &units[u] {
            TextUnit::Range(r) => {
                let text = slice(source, r.start, r.end);
                let before = find_char_before(source, r.start);
                scan_text(text, Some(r.start), before, block, block_start, links, tags);
            },
            TextUnit::Literal(t) => {
                scan_text(t.as_str(), None, None, block, block_start, links, tags);
            },
        }
        u += 1;
    }
}

/// The characters that a block ID is made of.
pub open spec fn id_char(c: char) -> bool {
    is_alnum(c) || c == '-'
}

/// How many ID characters end the text.
pub open spec fn id_tail(s: Seq<char>) -> nat
    decreases s.len(),
{
    if s.len() > 0 && id_char(s.last()) {
        1 + id_tail(s.drop_last())
    } else {
        0
    }
}

/// The ID of the marker ` ^id` that ends the text.
pub open spec fn ref_marker(s: Seq<char>) -> Option<Seq<char>> {
    let n = id_tail(s) as int;
    if n > 0 && s.len() >= n + 2 && s[s.len() - n - 1] == '^' && s[s.len() - n - 2] == ' ' {
        Some(s.skip(s.len() - n))
    } else {
        None
    }
}

pub proof fn id_tail_bounds(s: Seq<char>)
    ensures
        id_tail(s) <= s.len(),
    decreases s.len(),
{
    if s.len() > 0 && id_char(s.last()) {
        id_tail_bounds(s.drop_last());
    }
}

/// The ID of the marker ` ^id` that ends the text.
pub fn trailing_ref_marker<'a>(s: &'a str) -> (r: Option<&'a str>)
    ensures
        match r {
            Some(id) => ref_marker(s@) == Some(id@),
            None => ref_marker(s@) is None,
        },
{
    let cs = to_chars(s);
    let mut i: usize = cs.len();
    proof {
        assert(s@.take(i as int) =~= s@);
    }
    while i > 0 && (ascii_alnum(cs[i - 1]) || cs[i - 1] == '-')
        invariant
            i <= cs.len(),
            cs@ == s@,
            id_tail(s@) == (cs.len() - i) + id_tail(s@.take(i as int)),
        decreases i,
    {
        assert(s@.take(i as int).drop_last() =~= s@.take(i - 1));
        i -= 1;
    }
    if i < cs.len() && i >= 2 && cs[i - 1] == '^' && cs[i - 2] == ' ' {
        let r = s.substring_char(i, cs.len());
        assert(r@ =~= s@.skip(i as int));
        Some(r)
    } else {
        None
    }
}

/// A URL scheme: a letter, then letters, digits, `+`, `.`, `-`, up to a `:`.
pub open spec fn has_scheme(url: Seq<char>) -> bool {
    &&& url.len() > 0
    &&& is_alpha(url[0])
    &&& exists|k: int|
        1 <= k < url.len() && #[trigger] url[k] == ':' && forall|j: int|
            1 <= j < k ==> scheme_char(#[trigger] url[j])
}

pub open spec fn scheme_char(c: char) -> bool {
    is_alnum(c) || c == '+' || c == '.' || c == '-'
}

/// Whether a link target names its own scheme.
pub fn has_url_scheme(url: &str) -> (r: bool)
    ensures
        r == has_scheme(url@),
{
    let cs = to_chars(url);
    if cs.len() == 0 || !ascii_alpha(cs[0]) {
        return false;
    }
    let mut i: usize = 1;
    while i < cs.len()
        invariant
            1 <= i <= cs.len(),
            cs@ == url@,
            is_alpha(url@[0]),
            forall|j: int| 1 <= j < i ==> scheme_char(#[trigger] url@[j]),
        decreases cs.len() - i,
    {
        if cs[i] == ':' {
            assert(url@[i as int] == ':');
            return true;
        }
        if !(ascii_alnum(cs[i]) || cs[i] == '+' || cs[i] == '.' || cs[i] == '-') {
            proof {
                assert(!scheme_char(url@[i as int]));
            }
            return false;
        }
        i += 1;
    }
    false
}

/// `s` without the suffix `.md`, where it has it.
pub open spec fn without_md(s: Seq<char>) -> Seq<char> {
    let n = s.len() as int;
    if n >= 3 && s[n - 3] == '.' && s[n - 2] == 'm' && s[n - 1] == 'd' {
        s.take(n - 3)
    } else {
        s
    }
}

/// The reference that a markdown link makes: none for one with a scheme or
/// without a path. A non-empty fragment becomes the anchor; `.md` is dropped.
pub open spec fn mdlink(url: Seq<char>, block: u32) -> Option<LinkView> {
    let h = find(url, '#') as int;
    let split = h + 1 < url.len();
    let path = if split {
        url.take(h)
    } else {
        url
    };
    let target = nfc(trimmed(without_md(path)));
    if has_scheme(url) || target.len() == 0 {
        None
    } else {
        Some(
            LinkView {
                kind: LinkKind::Mdlink,
                target,
                anchor: (if split {
                    Some(nfc(trimmed(url.skip(h + 1))))
                } else {
                    None
                }),
                alias: None,
                block,
            },
        )
    }
}

/// The reference that a markdown link makes is added to `links`.
pub fn record_mdlink(url: &str, block: u32, links: &mut Vec<LinkRef>)
    ensures
        final(links).deep_view() == match mdlink(url@, block) {
            Some(l) => old(links).deep_view().push(l),
            None => old(links).deep_view(),
        },
{
    if has_url_scheme(url) {
        return;
    }
    let cs = to_chars(url);
    let mut h: usize = 0;
    while h < cs.len() && cs[h] != '#'
        invariant
            h <= cs.len(),
            cs@ == url@,
            forall|k: int| 0 <= k < h ==> #[trigger] cs@[k] != '#',
        decreases cs.len() - h,
    {
        h += 1;
    }
    proof {
        find_is(url@, '#', h as int);
    }
    let split = h < cs.len() && h + 1 < cs.len();
    let path = if split {
        url.substring_char(0, h)
    } else {
        url
    };
    assert(split ==> path@ =~= url@.take(h as int));
    let n: usize = path.unicode_len();
    let bare = if n >= 3 && path.get_char(n - 3) == '.' && path.get_char(n - 2) == 'm'
        && path.get_char(n - 1) == 'd' {
        path.substring_char(0, n - 3)
    } else {
        path
    };
    assert(bare@ =~= without_md(path@));
    let target = to_nfc(trim(bare));
    if target.as_str().is_empty() {
        return;
    }
    let anchor = if split {
        let f = url.substring_char(h + 1, cs.len());
        assert(f@ =~= url@.skip(h + 1));
        Some(to_nfc(trim(f)))
    } else {
        None
    };
    let ghost before = links.deep_view();
    links.push(LinkRef { kind: LinkKind::Mdlink, target, anchor, alias: None, block });
    proof {
        assert(links.deep_view() =~= before.push(links@.last().deep_view()));
    }
}

/// `text` from `i` on, with each link replaced by its alias, else its target.
pub open spec fn displayed(text: Seq<char>, i: int) -> Seq<char>
    decreases
            (if 0 <= i < text.len() {
                text.len() - i
            } else {
                0
            }),
{
    if i < 0 || i >= text.len() {
        Seq::empty()
    } else if opens_link(text, i) {
        match wiki(text.skip(i + 2)) {
            WikiView::Found(target, _, alias, n) => (match alias {
                Some(a) => a,
                None => target,
            }) + (if n > 0 {
                displayed(text, i + 2 + n)
            } else {
                Seq::empty()
            }),
            _ => seq![text[i]] + displayed(text, i + 1),
        }
    } else {
        seq![text[i]] + displayed(text, i + 1)
    }
}

/// The text with each `[[…]]` replaced by what it displays.
pub fn replace_wikilinks_with_display(text: &str) -> (r: String)
    ensures
        r@ == displayed(text@, 0),
{
    let cs = to_chars(text);
    let mut out = String::new();
    let mut i: usize = 0;
    proof {
        assert(out@ + displayed(text@, 0) =~= displayed(text@, 0));
    }
    while i < cs.len()
        invariant
            i <= cs.len(),
            cs@ == text@,
            out@ + displayed(text@, i as int) == displayed(text@, 0),
        decreases cs.len() - i,
    {
        let ghost before = out@;
        if cs[i] == '[' && i + 1 < cs.len() && cs[i + 1] == '[' && !escaped_at(&cs, i) {
            proof {
                wiki_bounds(
                    text@.skip(i + 2),
                    0,
                    Interior { target: Seq::empty(), anchor: None, alias: None },
                    Part::Target,
                );
            }
            if let WikiOutcome::Found(parts, consumed) = parse_wiki(&cs, i + 2) {
                let shown = match &parts.alias {
                    Some(a) => a.as_str(),
                    None => parts.target.as_str(),
                };
                out.append(shown);
                proof {
                    let next = displayed(text@, i + 2 + consumed);
                    assert(out@ + next =~= before + (shown@ + next));
                }
                i = i + 2 + consumed;
                continue;
            }
        }
        out.push(cs[i]);
        proof {
            let next = displayed(text@, i + 1);
            assert(out@ + next =~= before + (seq![text@[i as int]] + next));
        }
        i += 1;
    }
    proof {
        assert(out@ + displayed(text@, i as int) =~= out@);
    }
    out
}

/// `text` without the marker ` ^id` that ends it, or as it is without one.
pub open spec fn without_marker(text: Seq<char>) -> Seq<char> {
    let bare = trimmed_end(CharSet::Whitespace, text);
    match ref_marker(bare) {
        Some(id) => bare.take(bare.len() - id.len() - 2),
        None => text,
    }
}

/// The text without the marker ` ^id` that ends it.
pub fn strip_ref_marker_text(text: &str) -> (r: String)
    ensures
        r@ == without_marker(text@),
{
    let bare = trim_end(text, CharSet::Whitespace);
    match trailing_ref_marker(bare) {
        Some(id) => {
            let n: usize = bare.unicode_len();
            let k: usize = id.unicode_len();
            proof {
                id_tail_bounds(bare@);
            }
            let kept = bare.substring_char(0, n - k - 2);
            assert(kept@ =~= bare@.take(n - k - 2));
            kept.to_owned()
        },
        None => text.to_owned(),
    }
}

} // verus!
