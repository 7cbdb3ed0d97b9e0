//! Normalized content: a block's logical text with its container decoration
//! stripped line by line, then minimal normalization. It feeds the content
//! hash.

use vstd::prelude::*;
use vstd::string::*;
use vstd::utf8::*;

use crate::span::{line_start_at, LineOffsets};
use crate::text::{
    join, joined, nfc, slice, split, split_on, sub_text, to_chars, to_nfc, trim_end, trimmed_end,
    CharSet,
};

verus! {

/// One enclosing container's stripping rule for a line, outermost first.
#[derive(Debug, Clone, Copy, PartialEq, Eq, Structural)]
pub enum Strip {
    /// Block quote: up to 3 spaces, `>`, one optional space, if present (lazy
    /// continuation lines have no prefix).
    Quote,
    /// List item. On the item's first line the marker (and a task item's
    /// checkbox) takes `first_width` columns; later lines are indented by
    /// `cont_width` columns of white space.
    Item { first_line: usize, first_width: usize, cont_width: usize },
}

/// How many spaces start the line, three at most.
pub open spec fn quote_indent(line: Seq<char>) -> int {
    if line.len() > 0 && line[0] == ' ' {
        if line.len() > 1 && line[1] == ' ' {
            if line.len() > 2 && line[2] == ' ' {
                3
            } else {
                2
            }
        } else {
            1
        }
    } else {
        0
    }
}

/// The line without a block quote's prefix.
pub open spec fn unquoted(line: Seq<char>) -> Seq<char> {
    let i = quote_indent(line);
    if i < line.len() && line[i] == '>' {
        if i + 1 < line.len() && line[i + 1] == ' ' {
            line.skip(i + 2)
        } else {
            line.skip(i + 1)
        }
    } else {
        line
    }
}

/// The line without a block quote's prefix.
pub fn strip_quote_prefix<'a>(line: &'a str) -> (r: &'a str)
    ensures
        r@ == unquoted(line@),
{
    let cs = to_chars(line);
    let mut i: usize = 0;
    if cs.len() > 0 && cs[0] == ' ' {
        i = 1;
        if cs.len() > 1 && cs[1] == ' ' {
            i = 2;
            if cs.len() > 2 && cs[2] == ' ' {
                i = 3;
            }
        }
    }
    assert(i == quote_indent(line@));
    if i < cs.len() && cs[i] == '>' {
        i += 1;
        if i < cs.len() && cs[i] == ' ' {
            i += 1;
        }
        let r = line.substring_char(i, cs.len());
        assert(r@ =~= line@.skip(i as int));
        r
    } else {
        line
    }
}

/// Columns after a character at column `cols`; tab stops are 4 apart.
pub open spec fn next_column(cols: int, c: char) -> int {
    if c == '\t' {
        cols + 4 - cols % 4
    } else {
        cols + 1
    }
}

/// Index of the first character from `i` on that starts at column `width` or
/// later, given that the character at `i` starts at column `cols`. With
/// `blank_only` also the first character that is neither space nor tab.
pub open spec fn column_cut(line: Seq<char>, i: int, cols: int, width: int, blank_only: bool) -> int
    decreases line.len() - i,
{
    if i >= line.len() {
        line.len() as int
    } else if cols >= width || (blank_only && !CharSet::Blank.has(line[i])) {
        i
    } else {
        column_cut(line, i + 1, next_column(cols, line[i]), width, blank_only)
    }
}

pub proof fn column_cut_bounds(line: Seq<char>, i: int, cols: int, width: int, blank_only: bool)
    requires
        0 <= i <= line.len(),
    ensures
        i <= column_cut(line, i, cols, width, blank_only) <= line.len(),
    decreases line.len() - i,
{
    if i < line.len() && !(cols >= width || (blank_only && !CharSet::Blank.has(line[i]))) {
        column_cut_bounds(line, i + 1, next_column(cols, line[i]), width, blank_only);
    }
}

/// The line from the column cut on.
pub open spec fn uncolumned(line: Seq<char>, width: int, blank_only: bool) -> Seq<char> {
    line.skip(column_cut(line, 0, 0, width, blank_only))
}

fn cut_columns<'a>(line: &'a str, width: usize, blank_only: bool) -> (r: &'a str)
    ensures
        r@ == uncolumned(line@, width as int, blank_only),
{
    let cs = to_chars(line);
    let mut i: usize = 0;
    let mut cols: usize = 0;
    let ghost mut at: int = 0;
    while i < cs.len() && cols < width && (!blank_only || CharSet::Blank.holds(cs[i]))
        invariant
            i <= cs.len(),
            cs@ == line@,
            cols == at || (cols == usize::MAX && at >= usize::MAX),
            0 <= at,
            column_cut(line@, 0, 0, width as int, blank_only) == column_cut(
                line@,
                i as int,
                at,
                width as int,
                blank_only,
            ),
        decreases cs.len() - i,
    {
        let step: usize = if cs[i] == '\t' {
            4 - cols % 4
        } else {
            1
        };
        proof {
            at = next_column(at, line@[i as int]);
        }
        cols = if cols > usize::MAX - step {
            usize::MAX
        } else {
            cols + step
        };
        i += 1;
    }
    let r = line.substring_char(i, cs.len());
    assert(r@ =~= line@.skip(i as int));
    r
}

/// Consumes up to `width` columns from the start of an item's first line,
/// whatever the characters: the marker itself.
pub fn strip_columns<'a>(line: &'a str, width: usize) -> (r: &'a str)
    ensures
        r@ == uncolumned(line@, width as int, false),
{
    cut_columns(line, width, false)
}

/// Consumes up to `width` columns of white space; an under-indented line
/// passes with what it has.
pub fn strip_columns_ws_only<'a>(line: &'a str, width: usize) -> (r: &'a str)
    ensures
        r@ == uncolumned(line@, width as int, true),
{
    cut_columns(line, width, true)
}

/// The line without one container's decoration.
pub open spec fn stripped_by(line: Seq<char>, line_no: int, strip: Strip) -> Seq<char> {
    match strip {
        Strip::Quote => unquoted(line),
        Strip::Item { first_line, first_width, cont_width } => if line_no == first_line {
            uncolumned(line, first_width as int, false)
        } else {
            uncolumned(line, cont_width as int, true)
        },
    }
}

/// The line without the decoration of the containers, outermost first.
pub open spec fn stripped(line: Seq<char>, line_no: int, strips: Seq<Strip>) -> Seq<char>
    decreases strips.len(),
{
    if strips.len() == 0 {
        line
    } else {
        stripped_by(stripped(line, line_no, strips.drop_last()), line_no, strips.last())
    }
}

/// Stripping takes a prefix off, no more.
pub proof fn stripped_is_suffix(line: Seq<char>, line_no: int, strips: Seq<Strip>)
    ensures
        exists|k: int| 0 <= k <= line.len() && stripped(line, line_no, strips) == #[trigger] line.skip(k),
    decreases strips.len(),
{
    if strips.len() == 0 {
        assert(line.skip(0) =~= line);
    } else {
        stripped_is_suffix(line, line_no, strips.drop_last());
        let k = choose|k: int|
            0 <= k <= line.len() && stripped(line, line_no, strips.drop_last())
                == #[trigger] line.skip(k);
        let mid = line.skip(k);
        let end = stripped_by(mid, line_no, strips.last());
        match strips.last() {
            Strip::Quote => {
                let i = quote_indent(mid);
                if i < mid.len() && mid[i] == '>' {
                    if i + 1 < mid.len() && mid[i + 1] == ' ' {
                        assert(end =~= line.skip(k + i + 2));
                    } else {
                        assert(end =~= line.skip(k + i + 1));
                    }
                }
            },
            Strip::Item { first_line, first_width, cont_width } => {
                let c = if line_no == first_line {
                    column_cut(mid, 0, 0, first_width as int, false)
                } else {
                    column_cut(mid, 0, 0, cont_width as int, true)
                };
                column_cut_bounds(mid, 0, 0, first_width as int, false);
                column_cut_bounds(mid, 0, 0, cont_width as int, true);
                assert(end =~= line.skip(k + c));
            },
        }
    }
}

/// Applies the container stack's prefixes to a line, for the first `depth`
/// containers.
pub fn strip_containers<'a>(line: &'a str, line_no: usize, strips: &Vec<Strip>, depth: usize) -> (r: &'a str)
    requires
        depth <= strips.len(),
    ensures
        r@ == stripped(line@, line_no as int, strips@.take(depth as int)),
{
    let mut cur = line;
    let mut i: usize = 0;
    while i < depth
        invariant
            i <= depth <= strips.len(),
            cur@ == stripped(line@, line_no as int, strips@.take(i as int)),
        decreases depth - i,
    {
        proof {
            let t = strips@.take(i + 1);
            assert(t.drop_last() =~= strips@.take(i as int));
        }
        cur = match &strips[i] {
            Strip::Quote => strip_quote_prefix(cur),
            Strip::Item { first_line, first_width, cont_width } => {
                if line_no == *first_line {
                    strip_columns(cur, *first_width)
                } else {
                    strip_columns_ws_only(cur, *cont_width)
                }
            },
        };
        i += 1;
    }
    cur
}

/// The text of a line without its ending; None past the end of the source.
pub open spec fn line_text(md: Seq<char>, line_no: int) -> Option<Seq<char>> {
    if line_start_at(md, line_no) >= encode_utf8(md).len() {
        None
    } else {
        Some(
            trimmed_end(
                CharSet::LineEnd,
                sub_text(md, line_start_at(md, line_no), line_start_at(md, line_no + 1)),
            ),
        )
    }
}

/// The text of a line without its ending; None past the end of the source.
pub fn get_line<'a>(md: &'a str, lo: &LineOffsets, line_no: usize) -> (r: Option<&'a str>)
    requires
        lo.of(md@),
    ensures
        match r {
            Some(t) => line_text(md@, line_no as int) == Some(t@),
            None => line_text(md@, line_no as int) is None,
        },
{
    let span = lo.line_span(line_no, line_no);
    proof {
        lo.start_facts(md@, line_no as int);
        lo.start_facts(md@, line_no + 1);
        assert(lo.start_of(line_no as int) <= lo.start_of(line_no + 1));
    }
    if span.start >= md.as_bytes().len() {
        None
    } else {
        Some(trim_end(slice(md, span.start, span.end), CharSet::LineEnd))
    }
}

/// The stripped lines `from..=to`, each followed by a line feed; lines past
/// the end of the source are left out.
pub open spec fn logical_lines(
    md: Seq<char>,
    strips: Seq<Strip>,
    from: int,
    to: int,
) -> Seq<char>
    decreases to - from,
{
    if from > to {
        Seq::empty()
    } else if from == to {
        logical_line(md, strips, to)
    } else {
        logical_lines(md, strips, from, to - 1) + logical_line(md, strips, to)
    }
}

pub open spec fn logical_line(md: Seq<char>, strips: Seq<Strip>, n: int) -> Seq<
    char,
> {
    match line_text(md, n) {
        Some(t) => stripped(t, n, strips).push('\n'),
        None => Seq::empty(),
    }
}

/// The stripped lines of the first `n` line ranges.
pub open spec fn logical_text(
    md: Seq<char>,
    strips: Seq<Strip>,
    own_lines: Seq<(usize, usize)>,
    n: int,
) -> Seq<char>
    decreases n,
{
    if n <= 0 {
        Seq::empty()
    } else {
        logical_text(md, strips, own_lines, n - 1) + logical_lines(
            md,
            strips,
            own_lines[n - 1].0 as int,
            own_lines[n - 1].1 as int,
        )
    }
}

/// The lines with `marker`, and the blanks after it, taken off the last line
/// that ends with it.
pub open spec fn unmarked(lines: Seq<Seq<char>>, marker: Seq<char>) -> Seq<Seq<char>>
    decreases lines.len(),
{
    if lines.len() == 0 {
        lines
    } else {
        let t = trimmed_end(CharSet::Blank, lines.last());
        if marker.is_suffix_of(t) {
            lines.drop_last().push(t.take(t.len() - marker.len()))
        } else {
            unmarked(lines.drop_last(), marker).push(lines.last())
        }
    }
}

/// The stripped lines of a block, without the ID marker.
pub open spec fn plain_text(
    md: Seq<char>,
    own_lines: Seq<(usize, usize)>,
    strips: Seq<Strip>,
    marker: Option<Seq<char>>,
) -> Seq<char> {
    let logical = logical_text(md, strips, own_lines, own_lines.len() as int);
    match marker {
        Some(id) => joined(unmarked(split(logical, '\n'), seq![' ', '^'] + id), seq!['\n']),
        None => logical,
    }
}

/// The normalized content of a block: its stripped lines, without the ID
/// marker, in NFC, without trailing line feeds.
pub open spec fn normalized(
    md: Seq<char>,
    own_lines: Seq<(usize, usize)>,
    strips: Seq<Strip>,
    marker: Option<Seq<char>>,
) -> Seq<char> {
    trimmed_end(CharSet::Newline, nfc(plain_text(md, own_lines, strips, marker)))
}

/// Whether `s` ends with `suffix`.
pub fn ends_with(s: &str, suffix: &str) -> (r: bool)
    ensures
        r == suffix@.is_suffix_of(s@),
{
    let a = to_chars(s);
    let b = to_chars(suffix);
    if b.len() > a.len() {
        return false;
    }
    let off: usize = a.len() - b.len();
    let mut i: usize = 0;
    while i < b.len()
        invariant
            i <= b.len(),
            off == a.len() - b.len(),
            a@ == s@,
            b@ == suffix@,
            forall|k: int| 0 <= k < i ==> #[trigger] b@[k] == a@[off + k],
        decreases b.len() - i,
    {
        if a[off + i] != b[i] {
            assert(suffix@[i as int] != s@.subrange(off as int, s@.len() as int)[i as int]);
            return false;
        }
        i += 1;
    }
    assert(suffix@ =~= s@.subrange(off as int, s@.len() as int));
    true
}

/// Takes the marker off the last line that ends with it.
fn strip_marker(logical: &str, marker: &str) -> (r: String)
    ensures
        r@ == joined(unmarked(split(logical@, '\n'), marker@), seq!['\n']),
{
    let mut lines = split_on(logical, '\n');
    let ghost v = lines.deep_view();
    let mut i: usize = lines.len();
    let mut done = false;
    proof {
        assert(v.take(i as int) =~= v);
        assert(v.skip(i as int) =~= Seq::empty());
        assert(unmarked(v, marker@) =~= unmarked(v.take(i as int), marker@) + v.skip(i as int));
    }
    while i > 0 && !done
        invariant
            i <= lines.len(),
            lines.len() == v.len(),
            !done ==> lines.deep_view() == v && unmarked(v, marker@) == unmarked(
                v.take(i as int),
                marker@,
            ) + v.skip(i as int),
            done ==> lines.deep_view() == unmarked(v, marker@),
        decreases i, (if done { 0int } else { 1 }),
    {
        let ghost k = i - 1;
        assert(lines[k]@ == v[k]);
        assert(v.take(i as int).drop_last() =~= v.take(k));
        let t = trim_end(lines[i - 1].as_str(), CharSet::Blank);
        let hit = ends_with(t, marker);
        if hit {
            let n: usize = t.unicode_len();
            let m: usize = marker.unicode_len();
            let kept = t.substring_char(0, n - m).to_owned();
            assert(kept@ =~= t@.take(n - m));
            lines.set(i - 1, kept);
            done = true;
            proof {
                assert(lines.deep_view() =~= v.update(k, kept@));
                assert(v.update(k, kept@) =~= v.take(k).push(kept@) + v.skip(i as int));
            }
        } else {
            proof {
                assert(unmarked(v.take(i as int), marker@) == unmarked(v.take(k), marker@).push(
                    v[k],
                ));
                assert(unmarked(v.take(k), marker@).push(v[k]) + v.skip(i as int) =~= unmarked(
                    v.take(k),
                    marker@,
                ) + v.skip(k));
            }
            i -= 1;
        }
    }
    proof {
        if !done {
            assert(v.take(0) =~= Seq::empty());
            assert(unmarked(v.take(0), marker@) + v.skip(0) =~= v);
        }
        reveal_strlit("\n");
        assert("\n"@ =~= seq!['\n']);
    }
    join(&lines, "\n")
}

/// Adds the stripped lines `from..=to` to `out`.
fn push_lines(
    out: &mut String,
    md: &str,
    lo: &LineOffsets,
    strips: &Vec<Strip>,
    from: usize,
    to: usize,
)
    requires
        lo.of(md@),
    ensures
        final(out)@ == old(out)@ + logical_lines(md@, strips@, from as int, to as int),
{
    if from > to {
        assert(out@ + Seq::<char>::empty() =~= out@);
        return;
    }
    let ghost start = out@;
    let mut n: usize = from;
    let mut done = false;
    proof {
        assert(start + Seq::<char>::empty() =~= start);
    }
    while !done
        invariant
            from <= n <= to,
            lo.of(md@),
            !done ==> out@ == start + logical_lines(md@, strips@, from as int, n - 1),
            done ==> out@ == start + logical_lines(md@, strips@, from as int, to as int),
        decreases to - n, (if done { 0int } else { 1 }),
    {
        let ghost before = out@;
        if let Some(line) = get_line(md, lo, n) {
            out.append(strip_containers(line, n, strips, strips.len()));
            out.push('\n');
        }
        proof {
            assert(strips@.take(strips.len() as int) =~= strips@);
            let l = logical_line(md@, strips@, n as int);
            assert(out@ =~= before + l);
            let so_far = logical_lines(md@, strips@, from as int, n - 1);
            assert(out@ =~= start + (so_far + l));
            if n == from {
                assert(so_far + l =~= l);
            }
        }
        if n == to {
            done = true;
        } else {
            n += 1;
        }
    }
}

/// Builds the normalized content of one block. `ref_marker` is the block ID to
/// strip: the block's own, or one that it shares with a descendant. It is the same
/// whether trailing line feeds are stripped after normalization or before.
pub fn normalized_content(
    md: &str,
    lo: &LineOffsets,
    own_lines: &Vec<(usize, usize)>,
    strips: &Vec<Strip>,
    ref_marker: Option<&str>,
) -> (r: String)
    requires
        lo.of(md@),
    ensures
        r@ == normalized(
            md@,
            own_lines@,
            strips@,
            match ref_marker {
                Some(id) => Some(id@),
                None => None,
            },
        ),
        r@ == nfc(
            trimmed_end(
                CharSet::Newline,
                plain_text(
                    md@,
                    own_lines@,
                    strips@,
                    match ref_marker {
                        Some(id) => Some(id@),
                        None => None,
                    },
                ),
            ),
        ),
{
    let mut logical = String::new();
    let mut i: usize = 0;
    while i < own_lines.len()
        invariant
            i <= own_lines.len(),
            lo.of(md@),
            logical@ == logical_text(md@, strips@, own_lines@, i as int),
        decreases own_lines.len() - i,
    {
        let (from, to) = own_lines[i];
        push_lines(&mut logical, md, lo, strips, from, to);
        i += 1;
    }
    let plain = match ref_marker {
        Some(id) => {
            let mut marker = String::new();
            marker.push(' ');
            marker.push('^');
            assert(marker@ =~= seq![' ', '^']);
            marker.append(id);
            strip_marker(logical.as_str(), marker.as_str())
        },
        None => logical,
    };
    let composed = to_nfc(plain.as_str());
    trim_end(composed.as_str(), CharSet::Newline).to_owned()
}

} // verus!
