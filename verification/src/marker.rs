//! Adding a block ID never changes a block's content, and so never its identity.

use vstd::prelude::*;
use vstd::utf8::*;

use crate::content::{
    column_cut, column_cut_bounds, line_text, logical_line, logical_lines, logical_text,
    next_column, normalized, plain_text, quote_indent, stripped, stripped_by, stripped_is_suffix,
    unmarked, Strip,
};
use crate::path::split_joined;
use crate::span::{line_ends_at, line_start_at, line_starts, line_starts_facts};
use crate::text::{
    char_bytes, encode_concat, encode_len_bounds, find, find_first, find_is, is_alnum, split,
    text_without, trail_is, trail_run, trimmed_end, CharSet,
};

verus! {

/// A block ID and the blanks after it: what may follow ` ^` at the end of a line.
pub open spec fn is_marker(id: Seq<char>, blanks: Seq<char>) -> bool {
    &&& id.len() > 0
    &&& forall|i: int| 0 <= i < id.len() ==> is_alnum(#[trigger] id[i]) || id[i] == '-'
    &&& forall|i: int| 0 <= i < blanks.len() ==> CharSet::Blank.has(#[trigger] blanks[i])
}

/// A line with an ID marker, and blanks after it.
pub open spec fn marked(line: Seq<char>, id: Seq<char>, blanks: Seq<char>) -> Seq<char> {
    line + (seq![' ', '^'] + id) + blanks
}

/// What is left of a marked line is the line.
proof fn marked_line(line: Seq<char>, id: Seq<char>, blanks: Seq<char>)
    requires
        is_marker(id, blanks),
    ensures
        ({
            let marker = seq![' ', '^'] + id;
            let t = trimmed_end(CharSet::Blank, marked(line, id, blanks));
            marker.is_suffix_of(t) && t.take(t.len() - marker.len()) == line
        }),
{
    let marker = seq![' ', '^'] + id;
    let whole = marked(line, id, blanks);
    assert(whole[whole.len() - blanks.len() - 1] == id.last());
    assert forall|i: int| whole.len() - blanks.len() <= i < whole.len() implies CharSet::Blank.has(
        #[trigger] whole[i],
    ) by {
        assert(whole[i] == blanks[i - (whole.len() - blanks.len())]);
    }
    assert(!CharSet::Blank.has(id.last())) by {
        assert(is_alnum(id[id.len() - 1]) || id[id.len() - 1] == '-');
    }
    trail_is(CharSet::Blank, whole, blanks.len() as int);
    let t = trimmed_end(CharSet::Blank, whole);
    assert(t =~= line + marker);
    assert(marker =~= t.subrange(t.len() - marker.len(), t.len() as int));
    assert(t.take(t.len() - marker.len()) =~= line);
}

/// The marker comes off the last line that ends with it.
proof fn unmarked_at(lines: Seq<Seq<char>>, marker: Seq<char>, k: int)
    requires
        0 <= k < lines.len(),
        marker.is_suffix_of(trimmed_end(CharSet::Blank, lines[k])),
        forall|j: int|
            k < j < lines.len() ==> !marker.is_suffix_of(
                trimmed_end(CharSet::Blank, #[trigger] lines[j]),
            ),
    ensures
        ({
            let t = trimmed_end(CharSet::Blank, lines[k]);
            unmarked(lines, marker) == lines.update(k, t.take(t.len() - marker.len()))
        }),
    decreases lines.len(),
{
    let t = trimmed_end(CharSet::Blank, lines[k]);
    let kept = t.take(t.len() - marker.len());
    if k == lines.len() - 1 {
        assert(lines.drop_last().push(kept) =~= lines.update(k, kept));
    } else {
        let rest = lines.drop_last();
        assert(rest[k] == lines[k]);
        assert(!marker.is_suffix_of(trimmed_end(CharSet::Blank, lines[lines.len() - 1])));
        unmarked_at(rest, marker, k);
        assert(rest.update(k, kept).push(lines.last()) =~= lines.update(k, kept));
    }
}

/// Adding an ID marker to a line of a block never changes the block's content, and
/// so never changes its identity. The marker is the last of the block that reads so:
/// no later line of the block ends with it.
pub proof fn a_marker_never_changes_the_content(
    plain: (Seq<char>, Seq<(usize, usize)>, Seq<Strip>),
    with_id: (Seq<char>, Seq<(usize, usize)>, Seq<Strip>),
    k: int,
    id: Seq<char>,
    blanks: Seq<char>,
)
    requires
        is_marker(id, blanks),
        ({
            let a = split(logical_text(plain.0, plain.2, plain.1, plain.1.len() as int), '\n');
            let b = split(
                logical_text(with_id.0, with_id.2, with_id.1, with_id.1.len() as int),
                '\n',
            );
            &&& 0 <= k < a.len()
            &&& b == a.update(k, marked(a[k], id, blanks))
            &&& forall|j: int|
                k < j < a.len() ==> !(seq![' ', '^'] + id).is_suffix_of(
                    trimmed_end(CharSet::Blank, #[trigger] a[j]),
                )
        }),
    ensures
        plain_text(with_id.0, with_id.1, with_id.2, Some(id)) == plain_text(
            plain.0,
            plain.1,
            plain.2,
            None,
        ),
        normalized(with_id.0, with_id.1, with_id.2, Some(id)) == normalized(
            plain.0,
            plain.1,
            plain.2,
            None,
        ),
{
    let text = logical_text(plain.0, plain.2, plain.1, plain.1.len() as int);
    let a = split(text, '\n');
    let b = split(
        logical_text(with_id.0, with_id.2, with_id.1, with_id.1.len() as int),
        '\n',
    );
    marked_line(a[k], id, blanks);
    assert forall|j: int| k < j < b.len() implies !(seq![' ', '^'] + id).is_suffix_of(
        trimmed_end(CharSet::Blank, #[trigger] b[j]),
    ) by {
        assert(b[j] == a[j]);
    }
    unmarked_at(b, seq![' ', '^'] + id, k);
    assert(unmarked(b, seq![' ', '^'] + id) =~= a);
    split_joined(text, '\n');
}

/// The first line of a text of one line.
proof fn one_line(line: Seq<char>)
    requires
        forall|i: int| 0 <= i < line.len() ==> !CharSet::LineEnd.has(#[trigger] line[i]),
        encode_utf8(line.push('\n')).len() <= usize::MAX,
    ensures
        logical_text(line.push('\n'), Seq::empty(), seq![(1, 1)], 1) == line.push('\n'),
{
    let md = line.push('\n');
    let b = encode_utf8(md);
    let e = encode_utf8(line);
    assert(md =~= line + seq!['\n']);
    encode_concat(line, seq!['\n']);
    char_bytes('\n', '\n');
    assert forall|i: int| 0 <= i < line.len() implies #[trigger] line[i] != '\n' && line[i] != '\r' by {
        assert(!CharSet::LineEnd.has(line[i]));
    }
    text_without(line, '\n');
    text_without(line, '\r');
    no_line_ends(b, e.len() as int);
    assert(line_ends_at(b, e.len() as int));
    assert(line_starts(b, b.len() as int) =~= seq![0usize, b.len() as usize]);
    assert(line_start_at(md, 1) == 0);
    assert(line_start_at(md, 2) == b.len());
    assert(b.subrange(0, b.len() as int) =~= b);
    encode_utf8_decode_utf8(md);
    trail_is(CharSet::LineEnd, md, 1);
    assert(trimmed_end(CharSet::LineEnd, md) =~= line);
    let own: Seq<(usize, usize)> = seq![(1, 1)];
    reveal_with_fuel(logical_text, 2);
    assert(own[0] == (1usize, 1usize));
    assert(Seq::<char>::empty() + line.push('\n') =~= line.push('\n'));
}

/// Bytes without a line ending start one line.
proof fn no_line_ends(b: Seq<u8>, n: int)
    requires
        0 <= n <= b.len(),
        forall|k: int| 0 <= k < n ==> #[trigger] b[k] != 10 && b[k] != 13,
    ensures
        line_starts(b, n) == seq![0usize],
    decreases n,
{
    if n > 0 {
        no_line_ends(b, n - 1);
        assert(b[n - 1] != 10 && b[n - 1] != 13);
    }
}

/// A paragraph of one line has the same content with a block ID as without one: before
/// normalization it is the line, so that its content is the line's normal form.
pub proof fn a_marked_line_keeps_its_content(line: Seq<char>, id: Seq<char>, blanks: Seq<char>)
    requires
        is_marker(id, blanks),
        forall|i: int| 0 <= i < line.len() ==> !CharSet::LineEnd.has(#[trigger] line[i]),
        encode_utf8(marked(line, id, blanks).push('\n')).len() <= usize::MAX,
    ensures
        normalized(
            marked(line, id, blanks).push('\n'),
            seq![(1, 1)],
            Seq::empty(),
            Some(id),
        ) == normalized(line.push('\n'), seq![(1, 1)], Seq::empty(), None),
        trimmed_end(
            CharSet::Newline,
            plain_text(
                marked(line, id, blanks).push('\n'),
                seq![(1, 1)],
                Seq::empty(),
                Some(id),
            ),
        ) == line,
        trimmed_end(
            CharSet::Newline,
            plain_text(line.push('\n'), seq![(1, 1)], Seq::empty(), None),
        ) == line,
{
    let with_id = marked(line, id, blanks);
    let own: Seq<(usize, usize)> = seq![(1, 1)];
    let none = Seq::<Strip>::empty();
    assert forall|i: int| 0 <= i < with_id.len() implies !CharSet::LineEnd.has(
        #[trigger] with_id[i],
    ) by {
        let tail = seq![' ', '^'] + id;
        if i < line.len() {
            assert(with_id[i] == line[i]);
        } else if i < line.len() + 2 {
            assert(with_id[i] == tail[i - line.len()]);
        } else if i < line.len() + tail.len() {
            assert(with_id[i] == id[i - line.len() - 2]);
        } else {
            assert(with_id[i] == blanks[i - line.len() - tail.len()]);
        }
    }
    let rest = (seq![' ', '^'] + id) + blanks;
    assert(with_id.push('\n') =~= line + (rest + seq!['\n']));
    encode_concat(line, rest + seq!['\n']);
    encode_concat(rest, seq!['\n']);
    assert(line.push('\n') =~= line + seq!['\n']);
    encode_concat(line, seq!['\n']);
    one_line(line);
    one_line(with_id);
    line_feed_splits(line);
    line_feed_splits(with_id);
    let a = split(line.push('\n'), '\n');
    let b = split(with_id.push('\n'), '\n');
    assert(b =~= a.update(0, marked(a[0], id, blanks)));
    assert forall|j: int| 0 < j < a.len() implies !(seq![' ', '^'] + id).is_suffix_of(
        trimmed_end(CharSet::Blank, #[trigger] a[j]),
    ) by {
        trail_run(CharSet::Blank, a[j]);
    }
    a_marker_never_changes_the_content(
        (line.push('\n'), own, none),
        (with_id.push('\n'), own, none),
        0,
        id,
        blanks,
    );
    trail_is(CharSet::Newline, line.push('\n'), 1);
    assert(trimmed_end(CharSet::Newline, line.push('\n')) =~= line);
}

/// A line and its ending are two pieces: the line, and nothing.
proof fn line_feed_splits(line: Seq<char>)
    requires
        forall|i: int| 0 <= i < line.len() ==> !CharSet::LineEnd.has(#[trigger] line[i]),
    ensures
        split(line.push('\n'), '\n') == seq![line, Seq::empty()],
{
    let s = line.push('\n');
    assert forall|i: int| 0 <= i < line.len() implies #[trigger] s[i] != '\n' by {
        assert(!CharSet::LineEnd.has(line[i]));
    }
    find_is(s, '\n', line.len() as int);
    assert(s.take(line.len() as int) =~= line);
    let e = s.skip((line.len() + 1) as int);
    assert(e =~= Seq::<char>::empty());
    assert(split(e, '\n') =~= seq![e]) by {
        reveal_with_fuel(split, 2);
    }
    assert(split(s, '\n') =~= seq![line, Seq::<char>::empty()]) by {
        reveal_with_fuel(split, 2);
    }
}

// ---- where lines start ----

/// The offsets, among the first `n` bytes, at which a line has ended.
spec fn ends_in(b: Seq<u8>, n: int) -> Seq<int>
    decreases n,
{
    if n <= 0 {
        Seq::empty()
    } else if line_ends_at(b, n - 1) {
        ends_in(b, n - 1).push(n)
    } else {
        ends_in(b, n - 1)
    }
}

/// The bytes `a` end a line, whatever of `b` follows.
spec fn ends_a_line(a: Seq<u8>, b: Seq<u8>) -> bool {
    a.len() == 0 || a.last() == 10 || (a.last() == 13 && b.len() > 0 && b[0] != 10)
}

proof fn starts_before(a: Seq<u8>, b: Seq<u8>, n: int)
    requires
        ends_a_line(a, b),
        0 <= n <= a.len(),
    ensures
        line_starts(a + b, n) == line_starts(a, n),
    decreases n,
{
    if n > 0 {
        starts_before(a, b, n - 1);
        assert((a + b)[n - 1] == a[n - 1]);
        if n < a.len() {
            assert((a + b)[n] == a[n]);
        } else if b.len() > 0 {
            assert((a + b)[n] == b[0]);
        }
    }
}

proof fn starts_after(a: Seq<u8>, b: Seq<u8>, n: int)
    requires
        ends_a_line(a, b),
        0 <= n <= b.len(),
    ensures
        line_starts(a + b, a.len() + n) == line_starts(a, a.len() as int) + Seq::new(
            ends_in(b, n).len(),
            |k: int| (a.len() + ends_in(b, n)[k]) as usize,
        ),
    decreases n,
{
    let s = line_starts(a, a.len() as int);
    let now = Seq::new(ends_in(b, n).len(), |k: int| (a.len() + ends_in(b, n)[k]) as usize);
    if n == 0 {
        starts_before(a, b, a.len() as int);
        assert(s + now =~= s);
    } else {
        starts_after(a, b, n - 1);
        let was = Seq::new(
            ends_in(b, n - 1).len(),
            |k: int| (a.len() + ends_in(b, n - 1)[k]) as usize,
        );
        assert((a + b)[a.len() + n - 1] == b[n - 1]);
        if n < b.len() {
            assert((a + b)[a.len() + n] == b[n]);
        }
        assert(line_ends_at(a + b, a.len() + n - 1) == line_ends_at(b, n - 1));
        if line_ends_at(b, n - 1) {
            assert(now =~= was.push((a.len() + n) as usize));
            assert(s + now =~= (s + was).push((a.len() + n) as usize));
        } else {
            assert(now =~= was);
        }
    }
}

/// Bytes without line endings before others only shift where those end lines.
proof fn ends_shift(l: Seq<u8>, t: Seq<u8>, n: int)
    requires
        forall|k: int| 0 <= k < l.len() ==> #[trigger] l[k] != 10 && l[k] != 13,
        0 <= n <= t.len(),
    ensures
        ends_in(l + t, l.len() + n) == Seq::new(
            ends_in(t, n).len(),
            |k: int| l.len() + ends_in(t, n)[k],
        ),
    decreases n,
{
    let now = Seq::new(ends_in(t, n).len(), |k: int| l.len() + ends_in(t, n)[k]);
    if n == 0 {
        no_ends(l, t, l.len() as int);
        assert(now =~= Seq::<int>::empty());
    } else {
        ends_shift(l, t, n - 1);
        let was = Seq::new(ends_in(t, n - 1).len(), |k: int| l.len() + ends_in(t, n - 1)[k]);
        assert((l + t)[l.len() + n - 1] == t[n - 1]);
        if n < t.len() {
            assert((l + t)[l.len() + n] == t[n]);
        }
        if line_ends_at(t, n - 1) {
            assert(now =~= was.push(l.len() + n));
        } else {
            assert(now =~= was);
        }
    }
}

proof fn no_ends(l: Seq<u8>, t: Seq<u8>, n: int)
    requires
        forall|k: int| 0 <= k < l.len() ==> #[trigger] l[k] != 10 && l[k] != 13,
        0 <= n <= l.len(),
    ensures
        ends_in(l + t, n) == Seq::<int>::empty(),
    decreases n,
{
    if n > 0 {
        no_ends(l, t, n - 1);
        assert((l + t)[n - 1] == l[n - 1]);
    }
}

/// The first offset at which a line has ended.
proof fn first_end(t: Seq<u8>, i: int, n: int)
    requires
        0 <= i < n,
        line_ends_at(t, i),
        forall|k: int| 0 <= k < i ==> !line_ends_at(t, k),
    ensures
        ends_in(t, n).len() > 0,
        ends_in(t, n)[0] == i + 1,
    decreases n,
{
    if n == i + 1 {
        none_yet(t, i);
    } else {
        first_end(t, i, n - 1);
    }
}

proof fn none_yet(t: Seq<u8>, n: int)
    requires
        forall|k: int| 0 <= k < n ==> !line_ends_at(t, k),
    ensures
        ends_in(t, n) == Seq::<int>::empty(),
    decreases n,
{
    if n > 0 {
        none_yet(t, n - 1);
    }
}

// ---- a line in a source ----

/// The line ending that starts a text.
spec fn ending(rest: Seq<char>) -> Seq<char> {
    if rest.len() == 0 {
        Seq::empty()
    } else if rest[0] == '\r' && rest.len() > 1 && rest[1] == '\n' {
        seq!['\r', '\n']
    } else {
        seq![rest[0]]
    }
}

/// A text that starts with a line ending, or is empty, ends its first line there.
proof fn ending_is(rest: Seq<char>)
    requires
        rest.len() == 0 || CharSet::LineEnd.has(rest[0]),
    ensures
        ({
            let t = encode_utf8(rest);
            let e = encode_utf8(ending(rest));
            let ends = ends_in(t, t.len() as int);
            &&& e.len() <= t.len()
            &&& t.subrange(0, e.len() as int) == e
            &&& if ends.len() > 0 {
                ends[0] == e.len()
            } else {
                t.len() == e.len()
            }
        }),
{
    let t = encode_utf8(rest);
    let ee = ending(rest);
    if rest.len() > 0 {
        let n = ee.len() as int;
        assert(rest =~= ee + rest.skip(n)) by {
            assert(ee =~= rest.take(n));
        }
        encode_concat(ee, rest.skip(n));
        let tail = encode_utf8(rest.skip(n));
        char_bytes(rest[0], '\n');
        char_bytes(rest[0], '\r');
        if n == 2 {
            assert(ee =~= seq!['\r'] + seq!['\n']);
            encode_concat(seq!['\r'], seq!['\n']);
            char_bytes('\n', '\n');
            assert(encode_utf8(ee) =~= seq![13u8, 10u8]);
            assert(t[0] == 13 && t[1] == 10);
            first_end(t, 1, t.len() as int);
        } else {
            assert(encode_utf8(ee) =~= seq![if rest[0] == '\n' {
                10u8
            } else {
                13u8
            }]);
            assert(t[0] == encode_utf8(ee)[0]);
            if rest[0] == '\r' && t.len() > 1 {
                assert(rest.len() > 1) by {
                    if rest.len() == 1 {
                        assert(rest.skip(1) =~= Seq::<char>::empty());
                    }
                }
                let c = rest[1];
                let more = rest.skip(1);
                assert(more =~= seq![c] + more.skip(1));
                encode_concat(seq![c], more.skip(1));
                char_bytes(c, '\n');
                assert(t[1] == tail[0]);
                assert(tail[0] == encode_utf8(seq![c])[0]);
            }
            first_end(t, 0, t.len() as int);
        }
        assert(t.subrange(0, encode_utf8(ee).len() as int) =~= encode_utf8(ee));
    } else {
        assert(t.subrange(0, 0) =~= encode_utf8(ee));
    }
}

/// The number of the line that follows a text that ends a line.
pub open spec fn next_line(before: Seq<char>) -> int {
    line_starts(encode_utf8(before), encode_utf8(before).len() as int).len() as int
}

/// A text that is empty or ends in a line ending.
pub open spec fn closes_a_line(before: Seq<char>) -> bool {
    before.len() == 0 || CharSet::LineEnd.has(before.last())
}

/// A line: characters, and none of them a line ending.
pub open spec fn is_line(line: Seq<char>) -> bool {
    &&& line.len() > 0
    &&& forall|i: int| 0 <= i < line.len() ==> !CharSet::LineEnd.has(#[trigger] line[i])
}

/// What is read of a source made of whole lines, a line, and what follows it: up to
/// the line, the lines start where they do without the rest, and the line is read as
/// it is.
proof fn line_is_read(before: Seq<char>, line: Seq<char>, rest: Seq<char>)
    requires
        closes_a_line(before),
        is_line(line),
        rest.len() == 0 || CharSet::LineEnd.has(rest[0]),
        encode_utf8(before + line + rest).len() <= usize::MAX,
    ensures
        ({
            let md = before + line + rest;
            let p = encode_utf8(before);
            let s = line_starts(p, p.len() as int);
            &&& s.len() > 0
            &&& s.last() == p.len()
            &&& p.len() < encode_utf8(md).len()
            &&& encode_utf8(md).subrange(0, p.len() as int) == p
            &&& forall|q: int|
                q <= s.len() ==> #[trigger] line_start_at(md, q) == (if q <= 0 {
                    0
                } else {
                    s[q - 1] as int
                })
            &&& line_text(md, s.len() as int) == Some(line)
        }),
{
    let md = before + line + rest;
    let p = encode_utf8(before);
    let l = encode_utf8(line);
    let t = encode_utf8(rest);
    let b = encode_utf8(md);
    let s = line_starts(p, p.len() as int);
    encode_concat(before + line, rest);
    encode_concat(before, line);
    assert(b =~= p + (l + t));
    encode_len_bounds(line);
    assert forall|i: int| 0 <= i < line.len() implies #[trigger] line[i] != '\n' && line[i] != '\r' by {
        assert(!CharSet::LineEnd.has(line[i]));
    }
    text_without(line, '\n');
    text_without(line, '\r');
    if before.len() > 0 {
        let c = before.last();
        assert(before =~= before.drop_last() + seq![c]);
        encode_concat(before.drop_last(), seq![c]);
        char_bytes(c, '\n');
        char_bytes(c, '\r');
        assert(p.last() == 10 || p.last() == 13);
        assert((l + t)[0] == l[0]);
    }
    assert(ends_a_line(p, l + t));
    assert(s.len() > 0 && s.last() == p.len()) by {
        if p.len() > 0 {
            assert(line_ends_at(p, p.len() - 1));
        }
    }
    starts_after(p, l + t, (l + t).len() as int);
    ends_shift(l, t, t.len() as int);
    ending_is(rest);
    let ee = ending(rest);
    let e = encode_utf8(ee);
    let ends = ends_in(t, t.len() as int);
    let all = ends_in(l + t, (l + t).len() as int);
    let starts = line_starts(b, b.len() as int);
    assert(starts =~= s + Seq::new(all.len(), |k: int| (p.len() + all[k]) as usize));
    assert forall|q: int| q <= s.len() implies #[trigger] line_start_at(md, q) == (if q <= 0 {
        0
    } else {
        s[q - 1] as int
    }) by {
        if q > 0 {
            assert(starts[q - 1] == s[q - 1]);
        }
    }
    let ln = s.len() as int;
    let to = p.len() + l.len() + e.len();
    assert(line_start_at(md, ln + 1) == to) by {
        if ends.len() > 0 {
            assert(all[0] == l.len() + ends[0]);
            assert(starts[ln] == (p.len() + all[0]) as usize);
        } else {
            assert(starts.len() == ln);
        }
    }
    assert(line_start_at(md, ln) == p.len());
    encode_concat(line, ee);
    assert(b.subrange(p.len() as int, to as int) =~= l + t.subrange(0, e.len() as int));
    encode_utf8_decode_utf8(line + ee);
    let got = line + ee;
    assert forall|i: int| got.len() - ee.len() <= i < got.len() implies CharSet::LineEnd.has(
        #[trigger] got[i],
    ) by {
        assert(got[i] == ee[i - line.len()]);
    }
    assert(got[got.len() - ee.len() - 1] == line.last());
    trail_is(CharSet::LineEnd, got, ee.len() as int);
    assert(trimmed_end(CharSet::LineEnd, got) =~= line);
    assert(b.subrange(0, p.len() as int) =~= p);
}

// ---- stripping a marked line ----

proof fn cut_is_the_same(
    line: Seq<char>,
    more: Seq<char>,
    i: int,
    cols: int,
    width: int,
    blank_only: bool,
)
    requires
        0 <= i <= line.len(),
        column_cut(line, i, cols, width, blank_only) < line.len(),
    ensures
        column_cut(line + more, i, cols, width, blank_only) == column_cut(
            line,
            i,
            cols,
            width,
            blank_only,
        ),
    decreases line.len() - i,
{
    if i < line.len() {
        assert((line + more)[i] == line[i]);
        if !(cols >= width || (blank_only && !CharSet::Blank.has(line[i]))) {
            cut_is_the_same(
                line,
                more,
                i + 1,
                next_column(cols, line[i]),
                width,
                blank_only,
            );
        }
    }
}

/// Where something is left of a line, stripping it takes the same prefix off the line
/// with a marker after it.
proof fn stripping_spares_the_marker(
    line: Seq<char>,
    more: Seq<char>,
    line_no: int,
    strips: Seq<Strip>,
)
    requires
        stripped(line, line_no, strips).len() > 0,
        more.len() > 1,
        more[0] == ' ',
        more[1] == '^',
    ensures
        stripped(line + more, line_no, strips) == stripped(line, line_no, strips) + more,
    decreases strips.len(),
{
    if strips.len() > 0 {
        let outer = strips.drop_last();
        let mid = stripped(line, line_no, outer);
        let one = seq![strips.last()];
        assert(mid.len() > 0) by {
            stripped_is_suffix(mid, line_no, one);
            assert(one.drop_last() =~= Seq::<Strip>::empty());
            reveal_with_fuel(stripped, 2);
        }
        stripping_spares_the_marker(line, more, line_no, outer);
        let both = mid + more;
        let end = stripped_by(mid, line_no, strips.last());
        match strips.last() {
            Strip::Quote => {
                let i = quote_indent(mid);
                if i < mid.len() && mid[i] == '>' {
                    assert(quote_indent(both) == i);
                    assert(both[i] == '>');
                    assert(i + 1 < mid.len());
                    assert(both[i + 1] == mid[i + 1]);
                    if mid[i + 1] == ' ' {
                        assert(both.skip(i + 2) =~= mid.skip(i + 2) + more);
                    } else {
                        assert(both.skip(i + 1) =~= mid.skip(i + 1) + more);
                    }
                } else {
                    let j = quote_indent(both);
                    assert(j < both.len());
                    assert(both[j] != '>') by {
                        if j < mid.len() {
                            assert(both[j] == mid[j]);
                            assert(i == j);
                        } else {
                            assert(both[j] == more[j - mid.len()]);
                            assert(j - mid.len() <= 1);
                        }
                    }
                }
            },
            Strip::Item { first_line, first_width, cont_width } => {
                let (width, blank) = if line_no == first_line {
                    (first_width as int, false)
                } else {
                    (cont_width as int, true)
                };
                let c = column_cut(mid, 0, 0, width, blank);
                column_cut_bounds(mid, 0, 0, width, blank);
                assert(c < mid.len()) by {
                    if c >= mid.len() {
                        assert(mid.skip(c).len() == 0);
                    }
                }
                cut_is_the_same(mid, more, 0, 0, width, blank);
                assert(both.skip(c) =~= mid.skip(c) + more);
            },
        }
    }
}

// ---- the law ----

/// Lines that both sources read alike.
proof fn same_lines(
    a: Seq<char>,
    b: Seq<char>,
    strips: Seq<Strip>,
    from: int,
    to: int,
)
    requires
        forall|j: int| j <= to ==> #[trigger] line_text(a, j) == line_text(b, j),
    ensures
        logical_lines(a, strips, from, to) == logical_lines(b, strips, from, to),
        ({
            let p = logical_lines(a, strips, from, to);
            p.len() == 0 || p.last() == '\n'
        }),
    decreases to - from,
{
    if from <= to {
        assert(line_text(a, to) == line_text(b, to));
        if from < to {
            same_lines(a, b, strips, from, to - 1);
            assert(logical_line(a, strips, to) == logical_line(b, strips, to));
            let p = logical_lines(a, strips, from, to - 1);
            let q = logical_line(a, strips, to);
            assert(logical_lines(a, strips, from, to) == p + q);
            if q.len() == 0 {
                assert(p + q =~= p);
            }
        }
    }
}

proof fn same_text(
    a: Seq<char>,
    b: Seq<char>,
    strips: Seq<Strip>,
    own: Seq<(usize, usize)>,
    n: int,
    last: int,
)
    requires
        0 <= n <= own.len(),
        forall|j: int| j < last ==> #[trigger] line_text(a, j) == line_text(b, j),
        forall|r: int| 0 <= r < n ==> (#[trigger] own[r]).1 < last,
    ensures
        logical_text(a, strips, own, n) == logical_text(b, strips, own, n),
        ({
            let p = logical_text(a, strips, own, n);
            p.len() == 0 || p.last() == '\n'
        }),
    decreases n,
{
    if n > 0 {
        same_text(a, b, strips, own, n - 1, last);
        assert(own[n - 1].1 < last);
        same_lines(a, b, strips, own[n - 1].0 as int, own[n - 1].1 as int);
        let p = logical_text(a, strips, own, n - 1);
        let q = logical_lines(a, strips, own[n - 1].0 as int, own[n - 1].1 as int);
        if q.len() == 0 {
            assert(p + q =~= p);
        }
    }
}

/// A text splits at each of its line feeds.
proof fn splits_at_line_feed(a: Seq<char>, b: Seq<char>)
    ensures
        split(a.push('\n') + b, '\n') == split(a, '\n') + split(b, '\n'),
    decreases a.len(),
{
    let whole = a.push('\n') + b;
    let n = find(a, '\n') as int;
    find_first(a, '\n');
    assert forall|k: int| 0 <= k < n implies #[trigger] whole[k] != '\n' by {
        assert(whole[k] == a[k]);
    }
    find_is(whole, '\n', n);
    assert(whole.take(n) =~= a.take(n));
    if n == a.len() {
        assert(a.take(n) =~= a);
        assert(whole.skip(n + 1) =~= b);
        assert(split(a, '\n') =~= seq![a]);
        assert(split(whole, '\n') =~= seq![a] + split(b, '\n'));
    } else {
        let t = a.skip(n + 1);
        splits_at_line_feed(t, b);
        assert(whole.skip(n + 1) =~= t.push('\n') + b);
        assert(split(whole, '\n') =~= split(a, '\n') + split(b, '\n'));
    }
}

proof fn last_line_splits(p: Seq<char>, line: Seq<char>)
    requires
        p.len() == 0 || p.last() == '\n',
        forall|i: int| 0 <= i < line.len() ==> !CharSet::LineEnd.has(#[trigger] line[i]),
    ensures
        split(p + line.push('\n'), '\n') == (if p.len() == 0 {
            Seq::empty()
        } else {
            split(p.drop_last(), '\n')
        }) + seq![line, Seq::empty()],
{
    line_feed_splits(line);
    if p.len() == 0 {
        assert(p + line.push('\n') =~= line.push('\n'));
        assert(Seq::<Seq<char>>::empty() + seq![line, Seq::empty()] =~= seq![line, Seq::empty()]);
    } else {
        assert(p =~= p.drop_last().push('\n'));
        splits_at_line_feed(p.drop_last(), line.push('\n'));
    }
}

/// The stripped lines of a block whose last line is `line`: what stands before it, then
/// the line.
proof fn last_line_is_last(
    before: Seq<char>,
    line: Seq<char>,
    rest: Seq<char>,
    own_lines: Seq<(usize, usize)>,
    strips: Seq<Strip>,
)
    requires
        closes_a_line(before),
        is_line(line),
        rest.len() == 0 || CharSet::LineEnd.has(rest[0]),
        encode_utf8(before + line + rest).len() <= usize::MAX,
        own_lines.len() > 0,
        own_lines.last().0 <= own_lines.last().1 == next_line(before),
    ensures
        ({
            let md = before + line + rest;
            let n = own_lines.len() as int;
            logical_text(md, strips, own_lines, n) == (logical_text(md, strips, own_lines, n - 1)
                + logical_lines(
                md,
                strips,
                own_lines[n - 1].0 as int,
                next_line(before) - 1,
            )) + stripped(line, next_line(before), strips).push('\n')
        }),
{
    let md = before + line + rest;
    let ln = next_line(before);
    let n = own_lines.len() as int;
    let from = own_lines[n - 1].0 as int;
    line_is_read(before, line, rest);
    let lines = logical_lines(md, strips, from, ln - 1);
    let body = stripped(line, ln, strips);
    assert(logical_line(md, strips, ln) == body.push('\n'));
    assert(logical_lines(md, strips, from, ln) =~= lines + body.push('\n'));
    let first = logical_text(md, strips, own_lines, n - 1);
    assert(first + (lines + body.push('\n')) =~= (first + lines) + body.push('\n'));
}

/// What stands before the line is the same with the marker as without it, and ends in
/// a line feed.
proof fn what_stands_before(
    before: Seq<char>,
    line: Seq<char>,
    other: Seq<char>,
    rest: Seq<char>,
    own_lines: Seq<(usize, usize)>,
    strips: Seq<Strip>,
)
    requires
        closes_a_line(before),
        is_line(line),
        is_line(other),
        rest.len() == 0 || CharSet::LineEnd.has(rest[0]),
        encode_utf8(before + line + rest).len() <= usize::MAX,
        encode_utf8(before + other + rest).len() <= usize::MAX,
        own_lines.len() > 0,
        forall|r: int|
            0 <= r < own_lines.len() - 1 ==> (#[trigger] own_lines[r]).1 < next_line(before),
    ensures
        ({
            let n = own_lines.len() as int;
            let from = own_lines[n - 1].0 as int;
            let last = next_line(before) - 1;
            let md = before + line + rest;
            let md2 = before + other + rest;
            let p = logical_text(md, strips, own_lines, n - 1) + logical_lines(
                md,
                strips,
                from,
                last,
            );
            &&& p == logical_text(md2, strips, own_lines, n - 1) + logical_lines(
                md2,
                strips,
                from,
                last,
            )
            &&& p.len() == 0 || p.last() == '\n'
        }),
{
    let md = before + line + rest;
    let md2 = before + other + rest;
    let ln = next_line(before);
    let n = own_lines.len() as int;
    let from = own_lines[n - 1].0 as int;
    assert forall|j: int| j < ln implies #[trigger] line_text(md, j) == line_text(md2, j) by {
        earlier_line_is_the_same(before, line, other, rest, j);
    }
    same_text(md, md2, strips, own_lines, n - 1, ln);
    same_lines(md, md2, strips, from, ln - 1);
    let first = logical_text(md, strips, own_lines, n - 1);
    let lines = logical_lines(md, strips, from, ln - 1);
    if lines.len() == 0 {
        assert(first + lines =~= first);
    }
}

/// Two texts that end in the same line, once without and once with a marker, have the
/// same lines but for that.
proof fn marked_at_the_end(pre: Seq<char>, body: Seq<char>, id: Seq<char>, blanks: Seq<char>) -> (at:
    int)
    requires
        is_marker(id, blanks),
        pre.len() == 0 || pre.last() == '\n',
        forall|i: int| 0 <= i < body.len() ==> !CharSet::LineEnd.has(#[trigger] body[i]),
    ensures
        ({
            let a = split(pre + body.push('\n'), '\n');
            let b = split(pre + marked(body, id, blanks).push('\n'), '\n');
            &&& 0 <= at < a.len()
            &&& b == a.update(at, marked(a[at], id, blanks))
            &&& forall|j: int|
                at < j < a.len() ==> !(seq![' ', '^'] + id).is_suffix_of(
                    trimmed_end(CharSet::Blank, #[trigger] a[j]),
                )
        }),
{
    let body2 = marked(body, id, blanks);
    assert forall|i: int| 0 <= i < body2.len() implies !CharSet::LineEnd.has(#[trigger] body2[i]) by {
        marked_has_no_ending(body, id, blanks, i);
    }
    last_line_splits(pre, body);
    last_line_splits(pre, body2);
    let a = split(pre + body.push('\n'), '\n');
    let b = split(pre + body2.push('\n'), '\n');
    let at = a.len() - 2;
    assert(a[at] == body);
    assert(b =~= a.update(at, body2));
    assert forall|j: int| at < j < a.len() implies !(seq![' ', '^'] + id).is_suffix_of(
        trimmed_end(CharSet::Blank, #[trigger] a[j]),
    ) by {
        assert(a[j] =~= Seq::<char>::empty());
        trail_run(CharSet::Blank, a[j]);
    }
    at
}

/// Adding a block ID at the end of the last line of a block never changes the block's
/// content: whatever lines are the block's own and whatever containers enclose it, the
/// source with the marker gives the content that the source without it gives. The line
/// must have text left once its containers are stripped.
pub proof fn an_id_never_changes_the_content(
    before: Seq<char>,
    line: Seq<char>,
    rest: Seq<char>,
    own_lines: Seq<(usize, usize)>,
    strips: Seq<Strip>,
    id: Seq<char>,
    blanks: Seq<char>,
)
    requires
        is_marker(id, blanks),
        closes_a_line(before),
        is_line(line),
        rest.len() == 0 || CharSet::LineEnd.has(rest[0]),
        encode_utf8(before + marked(line, id, blanks) + rest).len() <= usize::MAX,
        own_lines.len() > 0,
        own_lines.last().0 <= own_lines.last().1 == next_line(before),
        forall|r: int|
            0 <= r < own_lines.len() - 1 ==> (#[trigger] own_lines[r]).1 < next_line(before),
        stripped(line, next_line(before), strips).len() > 0,
    ensures
        plain_text(before + marked(line, id, blanks) + rest, own_lines, strips, Some(id))
            == plain_text(before + line + rest, own_lines, strips, None),
        normalized(before + marked(line, id, blanks) + rest, own_lines, strips, Some(id))
            == normalized(before + line + rest, own_lines, strips, None),
{
    let more = (seq![' ', '^'] + id) + blanks;
    let with_id = marked(line, id, blanks);
    let md = before + line + rest;
    let md2 = before + with_id + rest;
    let ln = next_line(before);
    let n = own_lines.len() as int;
    assert(with_id =~= line + more);
    assert forall|i: int| 0 <= i < with_id.len() implies !CharSet::LineEnd.has(
        #[trigger] with_id[i],
    ) by {
        marked_has_no_ending(line, id, blanks, i);
    }
    assert(encode_utf8(md).len() <= encode_utf8(md2).len()) by {
        encode_concat(before + with_id, rest);
        encode_concat(before, with_id);
        encode_concat(line, more);
        encode_concat(before + line, rest);
        encode_concat(before, line);
    }
    let body = stripped(line, ln, strips);
    assert(stripped(with_id, ln, strips) == marked(body, id, blanks)) by {
        stripping_spares_the_marker(line, more, ln, strips);
        assert(body + more =~= marked(body, id, blanks));
    }
    assert forall|i: int| 0 <= i < body.len() implies !CharSet::LineEnd.has(#[trigger] body[i]) by {
        stripped_is_suffix(line, ln, strips);
        let k = choose|k: int| 0 <= k <= line.len() && body == #[trigger] line.skip(k);
        assert(body[i] == line[k + i]);
    }
    last_line_is_last(before, line, rest, own_lines, strips);
    last_line_is_last(before, with_id, rest, own_lines, strips);
    what_stands_before(before, line, with_id, rest, own_lines, strips);
    let pre = logical_text(md, strips, own_lines, n - 1) + logical_lines(
        md,
        strips,
        own_lines[n - 1].0 as int,
        ln - 1,
    );
    let at = marked_at_the_end(pre, body, id, blanks);
    a_marker_never_changes_the_content(
        (md, own_lines, strips),
        (md2, own_lines, strips),
        at,
        id,
        blanks,
    );
}

proof fn marked_has_no_ending(line: Seq<char>, id: Seq<char>, blanks: Seq<char>, i: int)
    requires
        is_marker(id, blanks),
        forall|k: int| 0 <= k < line.len() ==> !CharSet::LineEnd.has(#[trigger] line[k]),
        0 <= i < marked(line, id, blanks).len(),
    ensures
        !CharSet::LineEnd.has(marked(line, id, blanks)[i]),
{
    let whole = marked(line, id, blanks);
    let tail = seq![' ', '^'] + id;
    if i < line.len() {
        assert(whole[i] == line[i]);
    } else if i < line.len() + 2 {
        assert(whole[i] == tail[i - line.len()]);
    } else if i < line.len() + tail.len() {
        assert(whole[i] == id[i - line.len() - 2]);
    } else {
        assert(whole[i] == blanks[i - line.len() - tail.len()]);
    }
}

/// A line before the one that differs is read alike.
proof fn earlier_line_is_the_same(
    before: Seq<char>,
    line: Seq<char>,
    other: Seq<char>,
    rest: Seq<char>,
    j: int,
)
    requires
        closes_a_line(before),
        is_line(line),
        is_line(other),
        rest.len() == 0 || CharSet::LineEnd.has(rest[0]),
        encode_utf8(before + line + rest).len() <= usize::MAX,
        encode_utf8(before + other + rest).len() <= usize::MAX,
        j < next_line(before),
    ensures
        line_text(before + line + rest, j) == line_text(before + other + rest, j),
{
    let md = before + line + rest;
    let md2 = before + other + rest;
    let p = encode_utf8(before);
    line_is_read(before, line, rest);
    line_is_read(before, other, rest);
    line_starts_facts(before, p.len() as int);
    let a = line_start_at(md, j);
    let b = line_start_at(md, j + 1);
    assert(a == line_start_at(md2, j));
    assert(b == line_start_at(md2, j + 1));
    assert(0 <= a <= b <= p.len());
    assert(encode_utf8(md).subrange(a, b) =~= p.subrange(a, b)) by {
        assert(encode_utf8(md).subrange(0, p.len() as int).subrange(a, b) =~= encode_utf8(
            md,
        ).subrange(a, b));
    }
    assert(encode_utf8(md2).subrange(a, b) =~= p.subrange(a, b)) by {
        assert(encode_utf8(md2).subrange(0, p.len() as int).subrange(a, b) =~= encode_utf8(
            md2,
        ).subrange(a, b));
    }
}

} // verus!
