//! Byte spans, and the line table that turns 1-based line numbers into byte
//! offsets. Columns are advisory, so spans are derived from line boundaries.

use vstd::prelude::*;
use vstd::string::*;
use vstd::utf8::*;

use crate::text::{boundary_after_ascii, slice, sub_text};

verus! {

/// Byte range [start, end) into the original source.
#[derive(Debug, Clone, Copy, PartialEq, Eq, Structural)]
pub struct Span {
    pub start: usize,
    pub end: usize,
}

impl Span {
    /// The span lies in `source` and does not cut a character.
    pub open spec fn within(self, source: Seq<char>) -> bool {
        &&& self.start <= self.end <= encode_utf8(source).len()
        &&& is_char_boundary(encode_utf8(source), self.start as int)
        &&& is_char_boundary(encode_utf8(source), self.end as int)
    }

    /// The bytes that the span covers.
    pub fn slice<'a>(&self, source: &'a str) -> (r: &'a str)
        requires
            self.within(source@),
        ensures
            r.spec_bytes() == source.spec_bytes().subrange(self.start as int, self.end as int),
            r@ == sub_text(source@, self.start as int, self.end as int),
    {
        slice(source, self.start, self.end)
    }
}

/// A line ends after byte `i`: LF, the LF of a CRLF, or a lone CR.
pub open spec fn line_ends_at(b: Seq<u8>, i: int) -> bool {
    b[i] == 10 || (b[i] == 13 && !(i + 1 < b.len() && b[i + 1] == 10))
}

/// The offsets, among the first `n` bytes, at which a line starts.
pub open spec fn line_starts(b: Seq<u8>, n: int) -> Seq<usize>
    decreases n,
{
    if n <= 0 {
        seq![0usize]
    } else if line_ends_at(b, n - 1) {
        line_starts(b, n - 1).push(n as usize)
    } else {
        line_starts(b, n - 1)
    }
}

/// Line starts are character boundaries inside the text, in ascending order.
pub proof fn line_starts_facts(s: Seq<char>, n: int)
    requires
        0 <= n <= encode_utf8(s).len(),
        encode_utf8(s).len() <= usize::MAX,
    ensures
        line_starts(encode_utf8(s), n).len() > 0,
        line_starts(encode_utf8(s), n)[0] == 0,
        forall|k: int|
            0 <= k < line_starts(encode_utf8(s), n).len() ==> {
                &&& (#[trigger] line_starts(encode_utf8(s), n)[k]) <= n
                &&& is_char_boundary(
                    encode_utf8(s),
                    line_starts(encode_utf8(s), n)[k] as int,
                )
            },
        forall|j: int, k: int|
            0 <= j < k < line_starts(encode_utf8(s), n).len() ==> (#[trigger] line_starts(
                encode_utf8(s),
                n,
            )[j]) < (#[trigger] line_starts(encode_utf8(s), n)[k]),
    decreases n,
{
    let b = encode_utf8(s);
    encode_utf8_valid_utf8(s);
    if n <= 0 {
        is_char_boundary_start_end_of_seq(b);
    } else {
        line_starts_facts(s, n - 1);
        if line_ends_at(b, n - 1) {
            boundary_after_ascii(b, n - 1);
        }
    }
}

/// Offset at which the 1-based `line` of a text starts: 0 for a line before the
/// first, the length of the text for a line past its end.
pub open spec fn line_start_at(source: Seq<char>, line: int) -> int {
    let b = encode_utf8(source);
    let starts = line_starts(b, b.len() as int);
    if line <= 0 {
        0
    } else if line - 1 < starts.len() {
        starts[line - 1] as int
    } else {
        b.len() as int
    }
}

/// Every line start is a character boundary of the text.
pub proof fn line_start_at_facts(source: Seq<char>, line: int)
    requires
        encode_utf8(source).len() <= usize::MAX,
    ensures
        0 <= line_start_at(source, line) <= encode_utf8(source).len(),
        is_char_boundary(encode_utf8(source), line_start_at(source, line)),
{
    line_starts_facts(source, encode_utf8(source).len() as int);
    encode_utf8_valid_utf8(source);
    is_char_boundary_start_end_of_seq(encode_utf8(source));
}

/// Offset of each line start; lines are 1-based.
pub struct LineOffsets {
    pub starts: Vec<usize>,
    pub len: usize,
}

impl LineOffsets {
    /// This is the line table of `source`.
    pub open spec fn of(&self, source: Seq<char>) -> bool {
        &&& self.starts@ == line_starts(encode_utf8(source), encode_utf8(source).len() as int)
        &&& self.len == encode_utf8(source).len()
    }

    /// Offset at which the 1-based `line` starts: 0 for a line before the
    /// first, the length of the source for a line past its end.
    pub open spec fn start_of(&self, line: int) -> int {
        if line <= 0 {
            0
        } else if line - 1 < self.starts@.len() {
            self.starts@[line - 1] as int
        } else {
            self.len as int
        }
    }

    /// Every line start is a character boundary of the source, and later lines
    /// start no earlier.
    pub proof fn start_facts(&self, source: Seq<char>, line: int)
        requires
            self.of(source),
        ensures
            self.start_of(line) == line_start_at(source, line),
            0 <= self.start_of(line) <= self.len,
            is_char_boundary(encode_utf8(source), self.start_of(line)),
            forall|next: int| line <= next ==> self.start_of(line) <= #[trigger] self.start_of(next),
    {
        line_starts_facts(source, encode_utf8(source).len() as int);
        encode_utf8_valid_utf8(source);
        is_char_boundary_start_end_of_seq(encode_utf8(source));
    }

    /// The line table of `source`.
    pub fn new(source: &str) -> (r: Self)
        ensures
            r.of(source@),
    {
        let bytes = source.as_bytes();
        let mut starts: Vec<usize> = Vec::new();
        starts.push(0);
        let mut i: usize = 0;
        while i < bytes.len()
            invariant
                i <= bytes.len(),
                bytes@ == encode_utf8(source@),
                starts@ == line_starts(bytes@, i as int),
            decreases bytes.len() - i,
        {
            if bytes[i] == 10 || (bytes[i] == 13 && !(i + 1 < bytes.len() && bytes[i + 1] == 10)) {
                starts.push(i + 1);
            }
            i += 1;
        }
        LineOffsets { starts, len: bytes.len() }
    }

    /// Byte offset of the start of `line` (1-based); source end if past it.
    pub fn line_start(&self, line: usize) -> (r: usize)
        ensures
            r == self.start_of(line as int),
    {
        if line == 0 {
            0
        } else if line - 1 < self.starts.len() {
            self.starts[line - 1]
        } else {
            self.len
        }
    }

    /// Span covering `start_line..=end_line`, including the line ending of
    /// `end_line`.
    pub fn line_span(&self, start_line: usize, end_line: usize) -> (r: Span)
        ensures
            r.start == self.start_of(start_line as int),
            r.end == self.start_of(end_line + 1),
    {
        let end = if end_line == usize::MAX {
            assert(self.starts.len() <= usize::MAX);
            self.len
        } else {
            self.line_start(end_line + 1)
        };
        Span { start: self.line_start(start_line), end }
    }
}

} // verus!
