//! Byte-surgical edits of a source: cutting it at byte offsets, re-prefixing
//! fragments for where they go, and putting the pieces together.

use vstd::prelude::*;
use vstd::string::*;
use vstd::utf8::*;

use crate::text::{
    ascii_digit, char_bytes, char_offset_boundary, encode_concat, encode_injective,
    encode_len_bounds, find, find_first, find_is, from_chars, is_digit, lead, lead_is, lead_run,
    slice, slice_is_text, sub_text, to_chars, trail, trail_run, trim_end, trim_start, trimmed_end,
    trimmed_start, whitespace, CharSet,
};

verus! {

/// The text between two byte offsets, where they lie between characters.
pub open spec fn cut(s: Seq<char>, from: int, to: int) -> Option<Seq<char>> {
    let b = encode_utf8(s);
    if 0 <= from <= to <= b.len() && is_char_boundary(b, from) && is_char_boundary(b, to) {
        Some(sub_text(s, from, to))
    } else {
        None
    }
}

/// The text between two byte offsets, where they lie between characters.
pub fn get<'a>(s: &'a str, from: usize, to: usize) -> (r: Option<&'a str>)
    ensures
        cut(s@, from as int, to as int) == (match r {
            Some(t) => Some(t@),
            None => None,
        }),
{
    if from <= to && to <= s.as_bytes().len() && s.is_char_boundary(from) && s.is_char_boundary(
        to,
    ) {
        Some(slice(s, from, to))
    } else {
        None
    }
}

/// The bytes of a cut are the bytes between its ends.
pub proof fn cut_bytes(s: Seq<char>, from: int, to: int)
    ensures
        cut(s, from, to) matches Some(t) ==> encode_utf8(t) == encode_utf8(s).subrange(from, to),
{
    encode_utf8_valid_utf8(s);
    if cut(s, from, to) is Some {
        slice_is_text(encode_utf8(s), from, to);
    }
}

/// A text is what stands before an offset and what stands after it.
pub proof fn cut_in_two(s: Seq<char>, at: int)
    requires
        cut(s, 0, at) is Some,
    ensures
        cut(s, at, encode_utf8(s).len() as int) is Some,
        cut(s, 0, at)->0 + cut(s, at, encode_utf8(s).len() as int)->0 == s,
{
    let b = encode_utf8(s);
    let n = b.len() as int;
    encode_utf8_valid_utf8(s);
    is_char_boundary_start_end_of_seq(b);
    let a = cut(s, 0, at)->0;
    let z = cut(s, at, n)->0;
    cut_bytes(s, 0, at);
    cut_bytes(s, at, n);
    encode_concat(a, z);
    assert(b.subrange(0, at) + b.subrange(at, n) =~= b);
    encode_injective(a + z, s);
}

/// Three neighbouring cuts are the text.
pub proof fn cut_in_three(s: Seq<char>, from: int, to: int)
    requires
        cut(s, from, to) is Some,
    ensures
        cut(s, 0, from) is Some,
        cut(s, to, encode_utf8(s).len() as int) is Some,
        cut(s, 0, from)->0 + cut(s, from, to)->0 + cut(s, to, encode_utf8(s).len() as int)->0 == s,
{
    let b = encode_utf8(s);
    let n = b.len() as int;
    encode_utf8_valid_utf8(s);
    is_char_boundary_start_end_of_seq(b);
    let x = cut(s, 0, from)->0;
    let y = cut(s, from, to)->0;
    let z = cut(s, to, n)->0;
    cut_bytes(s, 0, from);
    cut_bytes(s, from, to);
    cut_bytes(s, to, n);
    encode_concat(x, y);
    encode_concat(x + y, z);
    assert(b.subrange(0, from) + b.subrange(from, to) + b.subrange(to, n) =~= b);
    encode_injective(x + y + z, s);
}

/// How many characters stand after the last line feed.
pub open spec fn last_line(s: Seq<char>) -> Seq<char>
    decreases s.len(),
{
    if s.len() == 0 || s.last() == '\n' {
        Seq::empty()
    } else {
        last_line(s.drop_last()).push(s.last())
    }
}

/// The offset of the start of the line that the offset `pos` is on.
pub open spec fn line_start(s: Seq<char>, pos: int) -> int {
    match cut(s, 0, pos) {
        Some(head) => pos - encode_utf8(last_line(head)).len(),
        None => 0,
    }
}

/// The last line is at the end of a text.
pub proof fn last_line_at_end(s: Seq<char>)
    ensures
        last_line(s).len() <= s.len(),
        s == s.take(s.len() - last_line(s).len()) + last_line(s),
        encode_utf8(last_line(s)).len() <= encode_utf8(s).len(),
        is_char_boundary(
            encode_utf8(s),
            encode_utf8(s).len() - encode_utf8(last_line(s)).len(),
        ),
    decreases s.len(),
{
    last_line_len(s);
    let k = s.len() - last_line(s).len();
    char_offset_boundary(s, k);
    assert(s.skip(k) == last_line(s));
    assert(s =~= s.take(k) + s.skip(k));
}

proof fn last_line_len(s: Seq<char>)
    ensures
        last_line(s).len() <= s.len(),
        last_line(s) == s.skip(s.len() - last_line(s).len()),
    decreases s.len(),
{
    if s.len() > 0 && s.last() != '\n' {
        let t = s.drop_last();
        last_line_len(t);
        let k = t.len() - last_line(t).len();
        assert(t.skip(k).push(s.last()) =~= s.skip(k));
    } else {
        assert(s.skip(s.len() as int) =~= Seq::<char>::empty());
    }
}

/// The offset of the start of the line that `pos` is on.
pub fn line_start_of(s: &str, pos: usize) -> (r: Option<usize>)
    ensures
        match r {
            Some(at) => cut(s@, 0, pos as int) is Some && at == line_start(s@, pos as int) && at
                <= pos && cut(s@, 0, at as int) is Some,
            None => cut(s@, 0, pos as int) is None,
        },
{
    let head = match get(s, 0, pos) {
        Some(h) => h,
        None => {
            return None;
        },
    };
    let bytes = head.as_bytes();
    let ghost b = encode_utf8(head@);
    let ghost all = encode_utf8(s@);
    proof {
        cut_bytes(s@, 0, pos as int);
        last_line_at_end(head@);
        encode_utf8_valid_utf8(s@);
        encode_utf8_valid_utf8(head@);
    }
    let mut i: usize = bytes.len();
    while i > 0 && bytes[i - 1] != 10
        invariant
            i <= bytes.len(),
            bytes@ == b,
            forall|k: int| i <= k < b.len() ==> #[trigger] b[k] != 10,
        decreases i,
    {
        i -= 1;
    }
    proof {
        line_feed_in_bytes(head@, i as int);
        let at = pos - encode_utf8(last_line(head@)).len();
        assert(b == all.subrange(0, pos as int));
        prefix_boundary(all, pos as int, at);
    }
    Some(i)
}

/// A boundary in a prefix is a boundary in the whole.
proof fn prefix_boundary(b: Seq<u8>, to: int, at: int)
    requires
        valid_utf8(b),
        0 <= at <= to <= b.len(),
        is_char_boundary(b, to),
        is_char_boundary(b.subrange(0, to), at),
    ensures
        is_char_boundary(b, at),
{
    valid_utf8_split(b, to);
    let p = b.subrange(0, to);
    if at < to {
        is_char_boundary_iff_not_is_continuation_byte(p, at);
        is_char_boundary_iff_not_is_continuation_byte(b, at);
        assert(p[at] == b[at]);
    }
}

/// Line feeds in a text are line feeds in its bytes.
proof fn line_feed_in_bytes(s: Seq<char>, i: int)
    requires
        0 <= i <= encode_utf8(s).len(),
        i > 0 ==> encode_utf8(s)[i - 1] == 10,
        forall|k: int| i <= k < encode_utf8(s).len() ==> #[trigger] encode_utf8(s)[k] != 10,
    ensures
        i == encode_utf8(s).len() - encode_utf8(last_line(s)).len(),
    decreases s.len(),
{
    let b = encode_utf8(s);
    if s.len() == 0 {
        assert(b.len() == 0);
        assert(last_line(s) =~= s);
    } else {
        let t = s.drop_last();
        let c = s.last();
        assert(s =~= t + seq![c]);
        encode_concat(t, seq![c]);
        let w = encode_utf8(seq![c]);
        char_bytes(c, '\n');
        if c == '\n' {
            assert(b.last() == 10);
            assert(b[b.len() - 1] == 10);
            assert(encode_utf8(Seq::<char>::empty()).len() == 0);
        } else {
            let tb = encode_utf8(t);
            assert(i <= tb.len()) by {
                if i > tb.len() {
                    assert(b[i - 1] == w[i - 1 - tb.len()]);
                }
            }
            assert forall|k: int| i <= k < tb.len() implies #[trigger] tb[k] != 10 by {
                assert(b[k] == tb[k]);
            }
            if i > 0 {
                assert(tb[i - 1] == b[i - 1]);
            }
            line_feed_in_bytes(t, i);
            encode_concat(last_line(t), seq![c]);
            assert(last_line(t).push(c) =~= last_line(t) + seq![c]);
        }
    }
}

/// The end of a block's content between two offsets: trailing blank lines are
/// not content, but one line feed after the content is.
pub open spec fn content_end_of(s: Seq<char>, start: int, end: int) -> Option<int> {
    match cut(s, start, end) {
        Some(seg) => {
            let content = trimmed_end(CharSet::Newline, seg);
            if content.len() == seg.len() {
                Some(end)
            } else {
                Some(start + encode_utf8(content).len() + 1)
            }
        },
        None => None,
    }
}

proof fn prefix_is_shorter(s: Seq<char>, n: int)
    requires
        0 <= n < s.len(),
    ensures
        encode_utf8(s.take(n)).len() < encode_utf8(s).len(),
{
    assert(s =~= s.take(n) + s.skip(n));
    encode_concat(s.take(n), s.skip(n));
    encode_len_bounds(s.skip(n));
}

/// The end of a block's content between two offsets.
pub fn content_end(s: &str, start: usize, end: usize) -> (r: Option<usize>)
    ensures
        content_end_of(s@, start as int, end as int) == (match r {
            Some(e) => Some(e as int),
            None => None,
        }),
        r matches Some(e) ==> start <= e <= end,
{
    match get(s, start, end) {
        Some(seg) => {
            let content = trim_end(seg, CharSet::Newline);
            let size = content.as_bytes().len();
            proof {
                trail_run(CharSet::Newline, seg@);
                cut_bytes(s@, start as int, end as int);
                if content@.len() < seg@.len() {
                    prefix_is_shorter(seg@, content@.len() as int);
                } else {
                    assert(content@ =~= seg@);
                }
            }
            if size == seg.as_bytes().len() {
                Some(end)
            } else {
                Some(start + size + 1)
            }
        },
        None => None,
    }
}

/// Where the first line of a text ends: after its line feed, if it has one.
pub open spec fn line_len(s: Seq<char>) -> int {
    let n = find(s, '\n') as int;
    if n < s.len() {
        n + 1
    } else {
        s.len() as int
    }
}

/// The lines of a text, each with the prefix; a blank line gets the prefix
/// without its trailing white space.
pub open spec fn prefixed(s: Seq<char>, prefix: Seq<char>) -> Seq<char>
    decreases s.len(),
    via prefixed_shrinks
{
    if s.len() == 0 {
        s
    } else {
        let n = line_len(s);
        let line = s.take(n);
        let lead = if trimmed_end(CharSet::LineEnd, line).len() > 0 {
            prefix
        } else {
            trimmed_end(CharSet::Whitespace, prefix)
        };
        lead + line + prefixed(s.skip(n), prefix)
    }
}

#[via_fn]
proof fn prefixed_shrinks(s: Seq<char>, prefix: Seq<char>) {
    find_first(s, '\n');
}

/// A fragment re-prefixed for where it goes: its first line as it is, the other
/// lines with the prefix.
pub open spec fn decorated(fragment: Seq<char>, prefix: Seq<char>) -> Seq<char> {
    if prefix.len() == 0 {
        fragment
    } else {
        fragment.take(line_len(fragment)) + prefixed(fragment.skip(line_len(fragment)), prefix)
    }
}

/// A fragment re-prefixed for where it goes.
pub fn decorate(fragment: &str, prefix: &str) -> (r: String)
    ensures
        r@ == decorated(fragment@, prefix@),
{
    if prefix.is_empty() {
        return fragment.to_owned();
    }
    let chars = to_chars(fragment);
    let ghost v = chars@;
    let bare = trim_end(prefix, CharSet::Whitespace);
    let mut out = String::new();
    let mut i: usize = 0;
    let mut first = true;
    proof {
        find_first(v, '\n');
        assert(v.skip(0) =~= v);
    }
    while i < chars.len()
        invariant
            i <= chars.len(),
            v == chars@,
            v == fragment@,
            prefix@.len() > 0,
            bare@ == trimmed_end(CharSet::Whitespace, prefix@),
            first ==> i == 0 && out@ == Seq::<char>::empty(),
            !first ==> out@ + prefixed(v.skip(i as int), prefix@) == decorated(v, prefix@),
        decreases chars.len() - i,
    {
        let ghost rest = v.skip(i as int);
        let mut j: usize = i;
        while j < chars.len() && chars[j] != '\n'
            invariant
                i <= j <= chars.len(),
                v == chars@,
                rest == v.skip(i as int),
                forall|k: int| 0 <= k < j - i ==> #[trigger] rest[k] != '\n',
            decreases chars.len() - j,
        {
            assert(rest[j - i] == v[j as int]);
            j += 1;
        }
        proof {
            if j < chars.len() {
                assert(rest[j - i] == v[j as int]);
            }
            find_is(rest, '\n', j - i);
        }
        if j < chars.len() {
            j += 1;
        }
        let line = from_chars(&chars, i, j);
        let ghost n = line_len(rest);
        proof {
            assert(n == j - i);
            assert(line@ =~= rest.take(n));
            assert(rest.skip(n) =~= v.skip(j as int));
        }
        if first {
            out.append(line.as_str());
            proof {
                assert(rest =~= v);
                assert(out@ =~= v.take(n));
            }
            first = false;
        } else {
            let ghost before = out@;
            let lead = if trim_end(line.as_str(), CharSet::LineEnd).is_empty() {
                bare
            } else {
                prefix
            };
            out.append(lead);
            out.append(line.as_str());
            proof {
                let tail = prefixed(rest.skip(n), prefix@);
                assert(prefixed(rest, prefix@) == lead@ + line@ + tail);
                assert(before + (lead@ + line@ + tail) =~= out@ + tail);
            }
        }
        i = j;
    }
    proof {
        let none = v.skip(i as int);
        assert(none =~= Seq::<char>::empty());
        assert(prefixed(none, prefix@) =~= none);
        if first {
            assert(v =~= Seq::<char>::empty());
            assert(decorated(v, prefix@) =~= Seq::<char>::empty());
        } else {
            assert(out@ + none =~= out@);
        }
    }
    out
}

/// The result of a splice.
#[derive(Debug)]
pub struct Splice {
    pub source: String,
    /// The rewritten byte range of the new source.
    pub edit: (usize, usize),
    /// The line that the replacement starts on.
    pub line_start: usize,
}

/// What a splice results in.
pub ghost struct SpliceView {
    pub source: Seq<char>,
    pub edit: (int, int),
    pub line_start: int,
}

impl DeepView for Splice {
    type V = SpliceView;

    open spec fn deep_view(&self) -> SpliceView {
        SpliceView {
            source: self.source@,
            edit: (self.edit.0 as int, self.edit.1 as int),
            line_start: self.line_start as int,
        }
    }
}

pub open spec fn lesser(a: int, b: int) -> int {
    if a <= b {
        a
    } else {
        b
    }
}

/// The replacement of a region: the fragment re-prefixed, and a line feed, but at
/// the very end of a source that has none.
pub open spec fn replacement(
    src: Seq<char>,
    region_end: int,
    fragment: Seq<char>,
    prefix: Seq<char>,
) -> Seq<char> {
    let body = decorated(trimmed_end(CharSet::Newline, fragment), prefix);
    let before = match cut(src, 0, region_end) {
        Some(t) => t,
        None => Seq::empty(),
    };
    if region_end < encode_utf8(src).len() || (before.len() > 0 && before.last() == '\n') {
        body.push('\n')
    } else {
        body
    }
}

/// The source with a region replaced: the first `keep` bytes of the line that the
/// region starts on stay, and everything outside the region stays.
pub open spec fn spliced(
    src: Seq<char>,
    region_start: int,
    region_end: int,
    keep: int,
    fragment: Seq<char>,
    prefix: Seq<char>,
) -> Option<SpliceView> {
    let at = line_start(src, region_start);
    let new = replacement(src, region_end, fragment, prefix);
    match (
        cut(src, 0, region_start),
        cut(src, at, lesser(at + keep, region_end)),
        cut(src, region_end, encode_utf8(src).len() as int),
    ) {
        (Some(_), Some(kept), Some(tail)) => Some(
            SpliceView {
                source: cut(src, 0, at)->0 + kept + new + tail,
                edit: (at, at + encode_utf8(kept).len() + encode_utf8(new).len()),
                line_start: at,
            },
        ),
        _ => None,
    }
}

/// Replaces a region of a source. None where an offset does not lie between
/// characters.
pub fn splice_replace(
    src: &str,
    region_start: usize,
    region_end: usize,
    keep: usize,
    fragment: &str,
    prefix: &str,
) -> (r: Option<Splice>)
    ensures
        match r {
            Some(x) => spliced(
                src@,
                region_start as int,
                region_end as int,
                keep as int,
                fragment@,
                prefix@,
            ) == Some(x.deep_view()),
            None => spliced(
                src@,
                region_start as int,
                region_end as int,
                keep as int,
                fragment@,
                prefix@,
            ) is None,
        },
{
    let size = src.as_bytes().len();
    let line_start = match line_start_of(src, region_start) {
        Some(a) => a,
        None => {
            return None;
        },
    };
    let tail = match get(src, region_end, size) {
        Some(t) => t,
        None => {
            return None;
        },
    };
    proof {
        encode_utf8_valid_utf8(src@);
        is_char_boundary_start_end_of_seq(encode_utf8(src@));
        assert(cut(src@, 0, region_end as int) is Some);
    }
    // The offsets are at most the source's length, but keep may be anything.
    let stop = if keep <= region_end && line_start <= region_end - keep {
        line_start + keep
    } else {
        region_end
    };
    let kept = match get(src, line_start, stop) {
        Some(k) => k,
        None => {
            return None;
        },
    };
    let before = match get(src, 0, region_end) {
        Some(b) => b,
        None => {
            return None;
        },
    };
    let head = match get(src, 0, line_start) {
        Some(h) => h,
        None => {
            return None;
        },
    };
    let mut new = decorate(trim_end(fragment, CharSet::Newline), prefix);
    if region_end < size || ends_in_newline(before) {
        new.push('\n');
    }
    let mut source = head.to_owned();
    source.append(kept);
    let ghost upto = source@;
    source.append(new.as_str());
    let end = source.as_str().as_bytes().len();
    proof {
        cut_bytes(src@, 0, line_start as int);
        encode_concat(head@, kept@);
        encode_concat(upto, new@);
    }
    source.append(tail);
    Some(Splice { source, edit: (line_start, end), line_start })
}

/// Whether a text ends in a line feed.
pub fn ends_in_newline(s: &str) -> (r: bool)
    ensures
        r == (s@.len() > 0 && s@.last() == '\n'),
{
    let chars = to_chars(s);
    chars.len() > 0 && chars[chars.len() - 1] == '\n'
}

/// A splice keeps every byte outside its region: the new source is the old one
/// with the region replaced.
pub proof fn a_splice_keeps_the_rest(
    src: Seq<char>,
    region_start: int,
    region_end: int,
    keep: int,
    fragment: Seq<char>,
    prefix: Seq<char>,
)
    requires
        0 <= keep,
    ensures
        spliced(src, region_start, region_end, keep, fragment, prefix) matches Some(x) ==> {
            let from = x.edit.0;
            let to = x.edit.1;
            let n = encode_utf8(src).len() as int;
            let m = encode_utf8(x.source).len() as int;
            &&& 0 <= from <= region_start
            &&& from <= to <= m
            &&& m - to == n - region_end
            &&& encode_utf8(x.source).subrange(0, from) == encode_utf8(src).subrange(0, from)
            &&& encode_utf8(x.source).subrange(to, m) == encode_utf8(src).subrange(region_end, n)
        },
{
    if let Some(x) = spliced(src, region_start, region_end, keep, fragment, prefix) {
        let at = line_start(src, region_start);
        let n = encode_utf8(src).len() as int;
        let kept = cut(src, at, lesser(at + keep, region_end))->0;
        let new = replacement(src, region_end, fragment, prefix);
        let tail = cut(src, region_end, n)->0;
        let head0 = cut(src, 0, region_start)->0;
        cut_bytes(src, 0, region_start);
        last_line_at_end(head0);
        encode_utf8_valid_utf8(src);
        is_char_boundary_start_end_of_seq(encode_utf8(src));
        let b = encode_utf8(src);
        prefix_boundary(b, region_start, at);
        let head = cut(src, 0, at)->0;
        cut_bytes(src, 0, at);
        cut_bytes(src, region_end, n);
        encode_concat(head, kept);
        encode_concat(head + kept, new);
        encode_concat(head + kept + new, tail);
        let out = encode_utf8(x.source);
        assert(out.subrange(0, at) =~= b.subrange(0, at));
        assert(out.subrange(x.edit.1, out.len() as int) =~= b.subrange(region_end, n));
    }
}

/// A text that ends with a blank line.
pub open spec fn with_blank_line(s: Seq<char>) -> Seq<char> {
    let t = if s.len() > 0 && s.last() == '\n' {
        s
    } else {
        s.push('\n')
    };
    if t.len() > 1 && t[t.len() - 2] == '\n' {
        t
    } else {
        t.push('\n')
    }
}

/// Makes a text end with a blank line.
pub fn blank_terminated(s: &str) -> (r: String)
    ensures
        r@ == with_blank_line(s@),
{
    let mut out = s.to_owned();
    if !ends_in_newline(s) {
        out.push('\n');
    }
    let chars = to_chars(out.as_str());
    if !(chars.len() > 1 && chars[chars.len() - 2] == '\n') {
        out.push('\n');
    }
    out
}

/// The line feeds that a text ends with.
pub open spec fn newlines_at_end(s: Seq<char>) -> Seq<char> {
    s.skip(s.len() - trail(CharSet::Newline, s))
}

/// The line feeds that a text ends with.
pub fn trailing_newlines(s: &str) -> (r: String)
    ensures
        r@ == newlines_at_end(s@),
{
    let chars = to_chars(s);
    let content = trim_end(s, CharSet::Newline);
    let n = content.unicode_len();
    proof {
        trail_run(CharSet::Newline, s@);
    }
    let r = from_chars(&chars, n, chars.len());
    assert(r@ =~= newlines_at_end(s@));
    r
}

/// Tile `i` after the tiles from `from` up to `to` were put in: they and the one
/// before them end with a blank line where another follows, and the last tile
/// ends as the source did.
pub open spec fn seamed(
    tiles: Seq<Seq<char>>,
    from: int,
    to: int,
    trailing: Seq<char>,
    i: int,
) -> Seq<char> {
    if i == tiles.len() - 1 {
        trimmed_end(CharSet::Newline, tiles[i]) + trailing
    } else if from - 1 <= i < to {
        with_blank_line(tiles[i])
    } else {
        tiles[i]
    }
}

/// The tiles with separators at a seam. No tile away from the seam changes, but
/// for the line feeds at the end of the last one.
pub open spec fn seamed_all(
    tiles: Seq<Seq<char>>,
    from: int,
    to: int,
    trailing: Seq<char>,
) -> Seq<Seq<char>> {
    Seq::new(tiles.len(), |i: int| seamed(tiles, from, to, trailing, i))
}

/// Puts separators in at a seam.
pub fn rebuild_body(tiles: &Vec<String>, from: usize, to: usize, trailing: &str) -> (r: Vec<String>)
    ensures
        r.deep_view() == seamed_all(tiles.deep_view(), from as int, to as int, trailing@),
{
    let ghost v = tiles.deep_view();
    let mut out: Vec<String> = Vec::new();
    let mut i: usize = 0;
    while i < tiles.len()
        invariant
            i <= tiles.len(),
            v == tiles.deep_view(),
            out.len() == i,
            forall|k: int|
                0 <= k < i ==> (#[trigger] out[k])@ == seamed(v, from as int, to as int, trailing@, k),
        decreases tiles.len() - i,
    {
        assert(v[i as int] == tiles[i as int]@);
        let t = tiles[i].as_str();
        if i == tiles.len() - 1 {
            let mut body = trim_end(t, CharSet::Newline).to_owned();
            body.append(trailing);
            out.push(body);
        } else if i >= from || i + 1 >= from {
            if i < to {
                out.push(blank_terminated(t));
            } else {
                out.push(tiles[i].clone());
            }
        } else {
            out.push(tiles[i].clone());
        }
        i += 1;
    }
    assert(out.deep_view() =~= seamed_all(v, from as int, to as int, trailing@));
    out
}

/// The marker of a list item: its first line between the decoration of what
/// encloses it and the end of its own.
pub open spec fn marker_of(src: Seq<char>, start: int, outer: int, full: int) -> Seq<char> {
    let n = encode_utf8(src).len() as int;
    if full < outer {
        ""@
    } else {
        match cut(src, start + outer, lesser(start + full, n)) {
            Some(m) => m,
            None => ""@,
        }
    }
}

/// The marker of a list item.
pub fn slice_marker<'a>(src: &'a str, start: usize, outer: usize, full: usize) -> (r: &'a str)
    ensures
        r@ == marker_of(src@, start as int, outer as int, full as int),
{
    let n = src.as_bytes().len();
    if full < outer {
        return "";
    }
    if start > n || outer > n - start {
        return "";
    }
    let end: usize = if full > n - start {
        n
    } else {
        start + full
    };
    match get(src, start + outer, end) {
        Some(m) => m,
        None => "",
    }
}

pub open spec fn first_or(s: Seq<char>, c: char) -> char {
    if s.len() > 0 {
        s[0]
    } else {
        c
    }
}

pub open spec fn ordered(marker: Seq<char>) -> bool {
    marker.len() > 0 && is_digit(marker[0])
}

/// An item's marker in the style of a list: the list's bullet; or the item's own
/// number with the list's delimiter; or, where one is numbered and the other is
/// not, the list's marker as it is.
pub open spec fn restyled(own: Seq<char>, dest: Seq<char>) -> Seq<char> {
    let d = trimmed_start(CharSet::Whitespace, dest);
    let o = trimmed_start(CharSet::Whitespace, own);
    if ordered(d) != ordered(o) {
        dest
    } else if ordered(d) {
        let digits = o.take(lead(CharSet::Digit, o) as int);
        let after = o.skip(lead(CharSet::Digit, o) as int);
        let tail = if after.len() > 0 {
            after.drop_first()
        } else {
            after
        };
        digits.push(first_or(trimmed_start(CharSet::Digit, d), '.')) + tail
    } else if o.len() > 0 {
        o.update(0, first_or(d, '-'))
    } else {
        o
    }
}

/// An item's text with its marker in the style of a list.
pub open spec fn remarked(item: Seq<char>, own_len: int, dest: Seq<char>) -> Seq<char> {
    let n = encode_utf8(item).len() as int;
    let at = lesser(own_len, n);
    match (cut(item, 0, at), cut(item, at, n)) {
        (Some(own), Some(rest)) => restyled(own, dest) + rest,
        _ => restyled(""@, dest) + item,
    }
}

fn starts_ordered(s: &str) -> (r: bool)
    ensures
        r == ordered(s@),
{
    s.unicode_len() > 0 && ascii_digit(s.get_char(0))
}

fn first_char_or(s: &str, c: char) -> (r: char)
    ensures
        r == first_or(s@, c),
{
    if s.unicode_len() > 0 {
        s.get_char(0)
    } else {
        c
    }
}

fn restyle(own: &str, dest: &str) -> (r: String)
    ensures
        r@ == restyled(own@, dest@),
{
    let d = trim_start(dest, CharSet::Whitespace);
    let o = trim_start(own, CharSet::Whitespace);
    let numbered = starts_ordered(d);
    if numbered != starts_ordered(o) {
        return dest.to_owned();
    }
    let chars = to_chars(o);
    if numbered {
        let rest = trim_start(o, CharSet::Digit);
        proof {
            lead_run(CharSet::Digit, o@);
        }
        let k = chars.len() - rest.unicode_len();
        let mut out = from_chars(&chars, 0, k);
        assert(out@ =~= o@.take(k as int));
        out.push(first_char_or(trim_start(d, CharSet::Digit), '.'));
        if k < chars.len() {
            let tail = from_chars(&chars, k + 1, chars.len());
            assert(tail@ =~= o@.skip(k as int).drop_first());
            out.append(tail.as_str());
        } else {
            assert(o@.skip(k as int) =~= Seq::<char>::empty());
            assert(out@ + Seq::<char>::empty() =~= out@);
        }
        out
    } else if chars.len() > 0 {
        let mut out = String::new();
        out.push(first_char_or(d, '-'));
        let tail = from_chars(&chars, 1, chars.len());
        out.append(tail.as_str());
        assert(out@ =~= o@.update(0, first_or(d@, '-')));
        out
    } else {
        assert(o@ =~= Seq::<char>::empty());
        String::new()
    }
}

/// An item's text with its marker in the style of a list.
pub fn remark_item(item: &str, own_len: usize, dest: &str) -> (r: String)
    ensures
        r@ == remarked(item@, own_len as int, dest@),
{
    let n = item.as_bytes().len();
    let at = if own_len <= n {
        own_len
    } else {
        n
    };
    match (get(item, 0, at), get(item, at, n)) {
        (Some(own), Some(rest)) => {
            let mut out = restyle(own, dest);
            out.append(rest);
            out
        },
        _ => {
            let mut out = restyle("", dest);
            out.append(item);
            out
        },
    }
}

/// The tiles with one moved to stand before or after another.
pub open spec fn tile_moved(tiles: Seq<Seq<char>>, from: int, anchor: int, before: bool) -> Seq<
    Seq<char>,
> {
    tiles.remove(from).insert(landing(from, anchor, before), tiles[from])
}

/// Where a moved tile lands among the others.
pub open spec fn landing(from: int, anchor: int, before: bool) -> int {
    let pos = if before {
        anchor
    } else {
        anchor + 1
    };
    if from < pos {
        pos - 1
    } else {
        pos
    }
}

/// Moves a tile to stand before or after another, with separators where it lands.
/// The tiles' other bytes stay as they are.
pub fn move_tiles(
    tiles: &Vec<String>,
    from: usize,
    anchor: usize,
    before: bool,
    trailing: &str,
) -> (r: Vec<String>)
    requires
        from < tiles.len(),
        anchor < tiles.len(),
    ensures
        ({
            let at = landing(from as int, anchor as int, before);
            r.deep_view() == seamed_all(
                tile_moved(tiles.deep_view(), from as int, anchor as int, before),
                at,
                at + 1,
                trailing@,
            )
        }),
{
    let ghost v = tiles.deep_view();
    let ghost rest = v.remove(from as int);
    let ghost want = tile_moved(v, from as int, anchor as int, before);
    let pos: usize = if before {
        anchor
    } else {
        anchor + 1
    };
    let at: usize = if from < pos {
        pos - 1
    } else {
        pos
    };
    let mut out: Vec<String> = Vec::new();
    let mut i: usize = 0;
    while i < tiles.len()
        invariant
            i <= tiles.len(),
            v == tiles.deep_view(),
            rest == v.remove(from as int),
            from < tiles.len(),
            at < tiles.len(),
            want == rest.insert(at as int, v[from as int]),
            out.len() == i,
            forall|k: int| 0 <= k < i ==> (#[trigger] out[k])@ == want[k],
        decreases tiles.len() - i,
    {
        // Slot i holds the moved tile, or the next of the others.
        let src: usize = if i == at {
            from
        } else {
            let k = if i < at {
                i
            } else {
                i - 1
            };
            if k < from {
                k
            } else {
                k + 1
            }
        };
        assert(v[src as int] == tiles[src as int]@);
        out.push(tiles[src].clone());
        i += 1;
    }
    assert(out.deep_view() =~= want);
    rebuild_body(&out, at, at + 1, trailing)
}

/// A source with the bytes between two offsets moved to stand at a third.
pub open spec fn lines_moved(src: Seq<char>, from: int, to: int, insert_at: int) -> Option<
    Seq<char>,
> {
    let n = encode_utf8(src).len() as int;
    match (cut(src, 0, from), cut(src, from, to), cut(src, to, n)) {
        (Some(head), Some(moved), Some(tail)) => {
            let rest = head + tail;
            let at = if insert_at >= to {
                insert_at - (to - from)
            } else {
                insert_at
            };
            match (cut(rest, 0, at), cut(rest, at, encode_utf8(rest).len() as int)) {
                (Some(a), Some(b)) => Some(a + moved + b),
                _ => None,
            }
        },
        _ => None,
    }
}

/// Moves the bytes between two offsets to stand at a third. None where an offset
/// does not lie between characters.
pub fn move_lines(src: &str, from: usize, to: usize, insert_at: usize) -> (r: Option<String>)
    ensures
        lines_moved(src@, from as int, to as int, insert_at as int) == (match r {
            Some(t) => Some(t@),
            None => None,
        }),
{
    let n = src.as_bytes().len();
    match (get(src, 0, from), get(src, from, to), get(src, to, n)) {
        (Some(head), Some(moved), Some(tail)) => {
            let mut rest = head.to_owned();
            rest.append(tail);
            let at: usize = if insert_at >= to {
                insert_at - (to - from)
            } else {
                insert_at
            };
            let m = rest.as_str().as_bytes().len();
            match (get(rest.as_str(), 0, at), get(rest.as_str(), at, m)) {
                (Some(a), Some(b)) => {
                    let mut out = a.to_owned();
                    out.append(moved);
                    out.append(b);
                    Some(out)
                },
                _ => None,
            }
        },
        _ => None,
    }
}

/// Putting separators in changes only the seam: away from it, and but for the end
/// of the last tile, every tile stays as it was.
pub proof fn only_the_seam_changes(
    tiles: Seq<Seq<char>>,
    from: int,
    to: int,
    trailing: Seq<char>,
    i: int,
)
    requires
        0 <= i < tiles.len() - 1,
        i < from - 1 || to <= i,
    ensures
        seamed_all(tiles, from, to, trailing)[i] == tiles[i],
{
}

proof fn both_counted(a: Seq<u8>, b: Seq<u8>)
    ensures
        (a + b).to_multiset() == a.to_multiset().add(b.to_multiset()),
{
    vstd::seq_lib::lemma_multiset_commutative(a, b);
}

/// Moving lines loses no byte and adds none.
pub proof fn a_line_move_keeps_every_byte(src: Seq<char>, from: int, to: int, insert_at: int)
    ensures
        lines_moved(src, from, to, insert_at) matches Some(out) ==> encode_utf8(out).to_multiset()
            == encode_utf8(src).to_multiset(),
{
    if let Some(out) = lines_moved(src, from, to, insert_at) {
        let n = encode_utf8(src).len() as int;
        let head = cut(src, 0, from)->0;
        let moved = cut(src, from, to)->0;
        let tail = cut(src, to, n)->0;
        let rest = head + tail;
        let at = if insert_at >= to {
            insert_at - (to - from)
        } else {
            insert_at
        };
        let a = cut(rest, 0, at)->0;
        let b = cut(rest, at, encode_utf8(rest).len() as int)->0;
        cut_in_three(src, from, to);
        cut_in_two(rest, at);
        encode_concat(head, moved);
        encode_concat(head + moved, tail);
        encode_concat(head, tail);
        encode_concat(a, b);
        encode_concat(a, moved);
        encode_concat(a + moved, b);
        let (eh, em, et) = (encode_utf8(head), encode_utf8(moved), encode_utf8(tail));
        let (ea, eb) = (encode_utf8(a), encode_utf8(b));
        both_counted(eh, em);
        both_counted(eh + em, et);
        both_counted(eh, et);
        both_counted(ea, eb);
        both_counted(ea, em);
        both_counted(ea + em, eb);
        assert(ea + eb == eh + et);
        let mh = eh.to_multiset();
        let mm = em.to_multiset();
        let mt = et.to_multiset();
        let ma = ea.to_multiset();
        let mb = eb.to_multiset();
        assert(ma.add(mb) == mh.add(mt));
        assert(ma.add(mm).add(mb) =~= ma.add(mb).add(mm));
        assert(mh.add(mm).add(mt) =~= mh.add(mt).add(mm));
    }
}

// ---- prefixes ----

/// Every line of a fragment but the first gets the prefix, a blank one without the white
/// space at the prefix's end; the first line stays as it is, and nothing is lost.
pub proof fn each_later_line_is_prefixed(line: Seq<char>, rest: Seq<char>, prefix: Seq<char>)
    requires
        !line.contains('\n'),
    ensures
        prefix.len() > 0 ==> decorated(line.push('\n') + rest, prefix) == line.push('\n')
            + prefixed(rest, prefix),
        prefix.len() == 0 ==> decorated(line.push('\n') + rest, prefix) == line.push('\n') + rest,
        decorated(line, prefix) == line,
        prefixed(line.push('\n') + rest, prefix) == (if trimmed_end(CharSet::LineEnd, line).len()
            > 0 {
            prefix
        } else {
            trimmed_end(CharSet::Whitespace, prefix)
        }) + line.push('\n') + prefixed(rest, prefix),
        line.len() > 0 ==> prefixed(line, prefix) == (if trimmed_end(CharSet::LineEnd, line).len()
            > 0 {
            prefix
        } else {
            trimmed_end(CharSet::Whitespace, prefix)
        }) + line,
        prefixed(Seq::empty(), prefix) == Seq::<char>::empty(),
{
    let first = line.push('\n');
    let s = first + rest;
    let n = line.len() as int;
    assert forall|i: int| 0 <= i < n implies #[trigger] s[i] != '\n' && line[i] != '\n' by {
        assert(line.contains(line[i]));
        assert(s[i] == line[i]);
    }
    find_is(s, '\n', n);
    assert(line_len(s) == n + 1);
    assert(s.take(n + 1) =~= first);
    assert(s.skip(n + 1) =~= rest);
    find_is(line, '\n', n);
    assert(line_len(line) == n);
    assert(line.take(n) =~= line);
    assert(line.skip(n) =~= Seq::empty());
    assert(line + Seq::<char>::empty() =~= line);
    let e = CharSet::LineEnd;
    assert(first.drop_last() =~= line);
    assert(first.last() == '\n');
    assert(trail(e, first) == 1 + trail(e, line));
    trail_run(e, line);
    trail_run(e, first);
    assert(trimmed_end(e, first).len() == trimmed_end(e, line).len());
    if line.len() > 0 {
        let lead = if trimmed_end(e, line).len() > 0 {
            prefix
        } else {
            trimmed_end(CharSet::Whitespace, prefix)
        };
        assert(lead + line + Seq::<char>::empty() =~= lead + line);
    }
}

// ---- markers of items ----

/// A text of digits.
pub open spec fn all_digits(s: Seq<char>) -> bool {
    s.len() > 0 && forall|k: int| 0 <= k < s.len() ==> is_digit(#[trigger] s[k])
}

proof fn digits_lead(n: Seq<char>, c: char, rest: Seq<char>)
    requires
        all_digits(n),
        !is_digit(c),
    ensures
        ({
            let m = n + seq![c] + rest;
            &&& trimmed_start(CharSet::Whitespace, m) == m
            &&& ordered(m)
            &&& lead(CharSet::Digit, m) == n.len()
        }),
{
    let m = n + seq![c] + rest;
    assert(m[0] == n[0]);
    assert(is_digit(n[0]));
    assert(!whitespace(m[0]));
    lead_is(CharSet::Whitespace, m, 0);
    assert(m.skip(0) =~= m);
    assert forall|k: int| 0 <= k < n.len() implies CharSet::Digit.has(#[trigger] m[k]) by {
        assert(m[k] == n[k]);
    }
    lead_is(CharSet::Digit, m, n.len() as int);
}

/// An item put into a list takes the list's style: in a numbered list its own number
/// stays and the list's delimiter is taken over; in a list of bullets the list's bullet;
/// where one is numbered and the other is not, the list's marker as it is.
pub proof fn an_item_takes_the_style_of_its_list(
    number: Seq<char>,
    delim: char,
    gap: Seq<char>,
    list_number: Seq<char>,
    list_delim: char,
    list_gap: Seq<char>,
    bullet: char,
    list_bullet: char,
)
    requires
        all_digits(number),
        all_digits(list_number),
        !is_digit(delim),
        !is_digit(list_delim),
        !is_digit(bullet) && !whitespace(bullet),
        !is_digit(list_bullet) && !whitespace(list_bullet),
    ensures
        restyled(number + seq![delim] + gap, list_number + seq![list_delim] + list_gap) == number
            + seq![list_delim] + gap,
        restyled(seq![bullet] + gap, seq![list_bullet] + list_gap) == seq![list_bullet] + gap,
        restyled(seq![bullet] + gap, list_number + seq![list_delim] + list_gap) == list_number
            + seq![list_delim] + list_gap,
        restyled(number + seq![delim] + gap, seq![list_bullet] + list_gap) == seq![list_bullet]
            + list_gap,
{
    let o = number + seq![delim] + gap;
    let d = list_number + seq![list_delim] + list_gap;
    digits_lead(number, delim, gap);
    digits_lead(list_number, list_delim, list_gap);
    let a = seq![bullet] + gap;
    let b = seq![list_bullet] + list_gap;
    lead_is(CharSet::Whitespace, a, 0);
    lead_is(CharSet::Whitespace, b, 0);
    assert(a.skip(0) =~= a);
    assert(b.skip(0) =~= b);
    let n = number.len() as int;
    assert(o.take(n) =~= number);
    assert(o.skip(n).drop_first() =~= gap);
    let m = list_number.len() as int;
    assert(d.skip(m)[0] == list_delim);
    assert(number.push(list_delim) + gap =~= number + seq![list_delim] + gap);
    assert(a.update(0, list_bullet) =~= seq![list_bullet] + gap);
}

} // verus!
