//! Text primitives: characters, slices by byte offset, trimming, splitting.
//!
//! Text is modelled as the sequence of its characters (`s@`). Where byte
//! offsets matter, `encode_utf8(s@)` (also written `s.spec_bytes()`) is the
//! sequence of its bytes.

use unicode_normalization::UnicodeNormalization;
use vstd::prelude::*;
use vstd::string::*;
use vstd::utf8::*;

verus! {

/// Whether a character has the Unicode `White_Space` property.
pub open spec fn whitespace(c: char) -> bool {
    ||| '\u{9}' <= c <= '\u{d}'
    ||| c == ' '
    ||| c == '\u{85}'
    ||| c == '\u{a0}'
    ||| c == '\u{1680}'
    ||| '\u{2000}' <= c <= '\u{200a}'
    ||| c == '\u{2028}'
    ||| c == '\u{2029}'
    ||| c == '\u{202f}'
    ||| c == '\u{205f}'
    ||| c == '\u{3000}'
}

/// Whether a character has the Unicode general category `Cc`.
pub open spec fn control(c: char) -> bool {
    c <= '\u{1f}' || '\u{7f}' <= c <= '\u{9f}'
}

/// `char::is_whitespace`: the `White_Space` property of the character.
pub assume_specification[ char::is_whitespace ](c: char) -> (r: bool)
    ensures
        r == whitespace(c),
;

/// `char::is_control`: the general category `Cc` of the character.
pub assume_specification[ char::is_control ](c: char) -> (r: bool)
    ensures
        r == control(c),
;

/// `String::push`: the character goes to the end of the string.
pub assume_specification[ String::push ](s: &mut String, c: char)
    ensures
        final(s)@ == old(s)@.push(c),
;

/// The Unicode Normalization Form C of a text.
pub uninterp spec fn nfc(s: Seq<char>) -> Seq<char>;

/// `unicode_normalization::UnicodeNormalization::nfc`, collected: the text in
/// Normalization Form C. It depends on the text alone, and is its own normal form.
/// It is empty for the empty text only. A white space stands at an end of it only
/// where one stands at that end of the text: nothing else decomposes to white space
/// and nothing composes to it. Line feeds at the end stay as they are: without them it
/// is the normal form of the text without them, since a line feed neither decomposes
/// nor composes. Which characters compose is left unsaid.
#[verifier::external_body]
pub(crate) fn to_nfc(s: &str) -> (r: String)
    ensures
        r@ == nfc(s@),
        nfc(r@) == r@,
        r@.len() == 0 <==> s@.len() == 0,
        r@.len() > 0 && whitespace(r@[0]) ==> whitespace(s@[0]),
        r@.len() > 0 && whitespace(r@.last()) ==> whitespace(s@.last()),
        trimmed_end(CharSet::Newline, r@) == nfc(trimmed_end(CharSet::Newline, s@)),
{
    s.nfc().collect()
}

/// Every character of a text, in order.
pub fn to_chars(s: &str) -> (r: Vec<char>)
    ensures
        r@ == s@,
{
    let mut out: Vec<char> = Vec::new();
    for c in it: s.chars()
        invariant
            it.seq() == s@,
            out@ == s@.take(it.index() as int),
    {
        out.push(c);
    }
    out
}

/// The text made of the characters `[from, to)`.
pub fn from_chars(chars: &Vec<char>, from: usize, to: usize) -> (r: String)
    requires
        from <= to <= chars.len(),
    ensures
        r@ == chars@.subrange(from as int, to as int),
{
    let mut out = String::new();
    let mut i: usize = from;
    while i < to
        invariant
            from <= i <= to <= chars.len(),
            out@ == chars@.subrange(from as int, i as int),
        decreases to - i,
    {
        out.push(chars[i]);
        assert(chars@.subrange(from as int, i + 1) =~= chars@.subrange(from as int, i as int).push(
            chars@[i as int],
        ));
        i += 1;
    }
    out
}

/// Whether two texts hold the same characters.
pub fn str_eq(a: &str, b: &str) -> (r: bool)
    ensures
        r == (a@ == b@),
{
    a.to_owned() == b.to_owned()
}

/// The text that stands between the byte offsets `from` and `to` of `s`.
pub open spec fn sub_text(s: Seq<char>, from: int, to: int) -> Seq<char> {
    decode_utf8(encode_utf8(s).subrange(from, to))
}

/// The bytes of a concatenation are the concatenated bytes.
pub proof fn encode_concat(a: Seq<char>, b: Seq<char>)
    ensures
        encode_utf8(a + b) == encode_utf8(a) + encode_utf8(b),
    decreases a.len(),
{
    if a.len() == 0 {
        assert(a + b =~= b);
        assert(encode_utf8(a) =~= Seq::<u8>::empty());
        assert(encode_utf8(a) + encode_utf8(b) =~= encode_utf8(b));
    } else {
        assert((a + b).drop_first() =~= a.drop_first() + b);
        encode_concat(a.drop_first(), b);
        assert(encode_utf8(a + b) =~= encode_utf8(a) + encode_utf8(b));
    }
}

/// The bytes of a character: an ASCII character is its own byte, and no other
/// character has that byte.
pub proof fn char_bytes(c: char, a: char)
    requires
        a <= '\u{7f}',
    ensures
        encode_utf8(seq![c]).len() >= 1,
        c == a ==> encode_utf8(seq![c]) == seq![a as u8],
        c != a ==> forall|k: int|
            0 <= k < encode_utf8(seq![c]).len() ==> #[trigger] encode_utf8(seq![c])[k] != a as u8,
{
    let s = seq![c];
    assert(s.drop_first() =~= Seq::<char>::empty());
    reveal_with_fuel(encode_utf8, 2);
    assert(encode_utf8(s) =~= encode_scalar(c as u32));
    scalar_bytes(c as u32, a as u8);
}

proof fn scalar_bytes(v: u32, a: u8)
    requires
        v <= 0x10FFFF,
        a < 0x80,
    ensures
        encode_scalar(v).len() >= 1,
        v == a ==> encode_scalar(v) == seq![a],
        v != a ==> forall|k: int|
            0 <= k < encode_scalar(v).len() ==> #[trigger] encode_scalar(v)[k] != a,
{
    assert(v <= 0x7F ==> v & 0x7F == v) by (bit_vector);
    assert(forall|x: u8| #[trigger] (0xC0u8 | x) >= 0x80) by (bit_vector);
    assert(forall|x: u8| #[trigger] (0xE0u8 | x) >= 0x80) by (bit_vector);
    assert(forall|x: u8| #[trigger] (0xF0u8 | x) >= 0x80) by (bit_vector);
    assert(forall|x: u8| #[trigger] (0x80u8 | x) >= 0x80) by (bit_vector);
}

/// The bytes of a text without an ASCII character do not hold it.
pub proof fn text_without(s: Seq<char>, a: char)
    requires
        a <= '\u{7f}',
        forall|i: int| 0 <= i < s.len() ==> #[trigger] s[i] != a,
    ensures
        forall|k: int| 0 <= k < encode_utf8(s).len() ==> #[trigger] encode_utf8(s)[k] != a as u8,
    decreases s.len(),
{
    if s.len() > 0 {
        let t = s.drop_last();
        assert(s =~= t + seq![s.last()]);
        encode_concat(t, seq![s.last()]);
        char_bytes(s.last(), a);
        text_without(t, a);
    }
}

/// Texts with the same bytes are the same text.
pub proof fn encode_injective(a: Seq<char>, b: Seq<char>)
    requires
        encode_utf8(a) == encode_utf8(b),
    ensures
        a == b,
{
    encode_utf8_decode_utf8(a);
    encode_utf8_decode_utf8(b);
}

/// Every character takes at least one byte.
pub proof fn encode_len_bounds(a: Seq<char>)
    ensures
        a.len() <= encode_utf8(a).len(),
    decreases a.len(),
{
    if a.len() > 0 {
        encode_len_bounds(a.drop_first());
    }
}

/// The offset of the `i`-th character is a character boundary, and the text
/// splits there.
pub proof fn char_offset_boundary(s: Seq<char>, i: int)
    requires
        0 <= i <= s.len(),
    ensures
        encode_utf8(s.take(i)).len() <= encode_utf8(s).len(),
        is_char_boundary(encode_utf8(s), encode_utf8(s.take(i)).len() as int),
        encode_utf8(s) == encode_utf8(s.take(i)) + encode_utf8(s.skip(i)),
    decreases i,
{
    assert(s =~= s.take(i) + s.skip(i));
    encode_concat(s.take(i), s.skip(i));
    encode_utf8_valid_utf8(s);
    if i > 0 {
        let t = s.drop_first();
        char_offset_boundary(t, i - 1);
        encode_utf8_first_scalar(s);
        assert(pop_first_scalar(encode_utf8(s)) =~= encode_utf8(t));
        assert(s.take(i).drop_first() =~= t.take(i - 1));
        assert(encode_utf8(s.take(i)).len() == encode_scalar(s[0] as u32).len() + encode_utf8(
            t.take(i - 1),
        ).len());
    } else {
        assert(encode_utf8(s.take(0)).len() == 0);
    }
}

/// A boundary of the whole is a boundary of a prefix that ends at a boundary.
pub proof fn boundary_in_prefix(b: Seq<u8>, from: int, to: int)
    requires
        valid_utf8(b),
        is_char_boundary(b, from),
        is_char_boundary(b, to),
        0 <= from <= to <= b.len(),
    ensures
        valid_utf8(b.subrange(0, to)),
        is_char_boundary(b.subrange(0, to), from),
{
    valid_utf8_split(b, to);
    let p = b.subrange(0, to);
    if from < to {
        is_char_boundary_iff_not_is_continuation_byte(b, from);
        is_char_boundary_iff_not_is_continuation_byte(p, from);
        assert(p[from] == b[from]);
    } else {
        is_char_boundary_start_end_of_seq(p);
    }
}

/// A slice between two character boundaries is text.
pub proof fn slice_is_text(b: Seq<u8>, from: int, to: int)
    requires
        valid_utf8(b),
        is_char_boundary(b, from),
        is_char_boundary(b, to),
        0 <= from <= to <= b.len(),
    ensures
        valid_utf8(b.subrange(from, to)),
        encode_utf8(decode_utf8(b.subrange(from, to))) == b.subrange(from, to),
{
    boundary_in_prefix(b, from, to);
    valid_utf8_split(b.subrange(0, to), from);
    assert(b.subrange(0, to).subrange(from, to) =~= b.subrange(from, to));
    decode_utf8_encode_utf8(b.subrange(from, to));
}

/// The offset after an ASCII byte is a character boundary.
pub proof fn boundary_after_ascii(b: Seq<u8>, i: int)
    requires
        valid_utf8(b),
        0 <= i < b.len(),
        b[i] < 128,
    ensures
        is_char_boundary(b, i),
        is_char_boundary(b, i + 1),
    decreases b.len(),
{
    is_char_boundary_iff_not_is_continuation_byte(b, i);
    if i == 0 {
        let t = pop_first_scalar(b);
        assert(length_of_first_scalar(b) == 1);
        assert(is_char_boundary(t, 0));
    } else {
        let n = length_of_first_scalar(b);
        let t = pop_first_scalar(b);
        if i < n {
            assert(is_continuation_byte(b[i]));
        } else {
            assert(t[i - n] == b[i]);
            boundary_after_ascii(t, i - n);
        }
    }
}

/// The text between two byte offsets that are character boundaries.
pub fn slice<'a>(s: &'a str, from: usize, to: usize) -> (r: &'a str)
    requires
        from <= to <= s.spec_bytes().len(),
        is_char_boundary(s.spec_bytes(), from as int),
        is_char_boundary(s.spec_bytes(), to as int),
    ensures
        r.spec_bytes() == s.spec_bytes().subrange(from as int, to as int),
        r@ == sub_text(s@, from as int, to as int),
{
    proof {
        encode_utf8_valid_utf8(s@);
        boundary_in_prefix(s.spec_bytes(), from as int, to as int);
    }
    let (head, _) = s.split_at(to);
    let (_, r) = head.split_at(from);
    proof {
        assert(r.spec_bytes() =~= s.spec_bytes().subrange(from as int, to as int));
        encode_utf8_decode_utf8(r@);
    }
    r
}

/// A set of characters that texts are trimmed by or scanned for.
#[derive(Clone, Copy, PartialEq, Eq, Structural)]
pub enum CharSet {
    /// Unicode white space.
    Whitespace,
    /// A line feed.
    Newline,
    /// A line feed or a carriage return.
    LineEnd,
    /// A space or a tab.
    Blank,
    /// An ASCII digit.
    Digit,
}

pub open spec fn is_digit(c: char) -> bool {
    '0' <= c <= '9'
}

pub open spec fn is_alpha(c: char) -> bool {
    'a' <= c <= 'z' || 'A' <= c <= 'Z'
}

pub open spec fn is_alnum(c: char) -> bool {
    is_digit(c) || is_alpha(c)
}

/// Whether `c` is an ASCII digit.
pub fn ascii_digit(c: char) -> (r: bool)
    ensures
        r == is_digit(c),
{
    let n: u32 = c as u32;
    48 <= n && n <= 57
}

/// Whether `c` is an ASCII letter.
pub fn ascii_alpha(c: char) -> (r: bool)
    ensures
        r == is_alpha(c),
{
    let n: u32 = c as u32;
    (97 <= n && n <= 122) || (65 <= n && n <= 90)
}

/// Whether `c` is an ASCII letter or digit.
pub fn ascii_alnum(c: char) -> (r: bool)
    ensures
        r == is_alnum(c),
{
    ascii_digit(c) || ascii_alpha(c)
}

impl CharSet {
    pub open spec fn has(self, c: char) -> bool {
        match self {
            CharSet::Whitespace => whitespace(c),
            CharSet::Newline => c == '\n',
            CharSet::LineEnd => c == '\n' || c == '\r',
            CharSet::Blank => c == ' ' || c == '\t',
            CharSet::Digit => is_digit(c),
        }
    }

    /// Whether the set holds `c`.
    pub fn holds(self, c: char) -> (r: bool)
        ensures
            r == self.has(c),
    {
        match self {
            CharSet::Whitespace => c.is_whitespace(),
            CharSet::Newline => c == '\n',
            CharSet::LineEnd => c == '\n' || c == '\r',
            CharSet::Blank => c == ' ' || c == '\t',
            CharSet::Digit => ascii_digit(c),
        }
    }
}

/// How many characters at the start of `s` are in `set`.
pub open spec fn lead(set: CharSet, s: Seq<char>) -> nat
    decreases s.len(),
{
    if s.len() > 0 && set.has(s[0]) {
        1 + lead(set, s.drop_first())
    } else {
        0
    }
}

/// How many characters at the end of `s` are in `set`.
pub open spec fn trail(set: CharSet, s: Seq<char>) -> nat
    decreases s.len(),
{
    if s.len() > 0 && set.has(s.last()) {
        1 + trail(set, s.drop_last())
    } else {
        0
    }
}

/// `s` without its leading characters in `set`.
pub open spec fn trimmed_start(set: CharSet, s: Seq<char>) -> Seq<char> {
    s.skip(lead(set, s) as int)
}

/// `s` without its trailing characters in `set`.
pub open spec fn trimmed_end(set: CharSet, s: Seq<char>) -> Seq<char> {
    s.take(s.len() - trail(set, s))
}

/// `s` without the white space around it.
pub open spec fn trimmed(s: Seq<char>) -> Seq<char> {
    trimmed_end(CharSet::Whitespace, trimmed_start(CharSet::Whitespace, s))
}

/// What `lead` counts: a maximal run.
pub proof fn lead_run(set: CharSet, s: Seq<char>)
    ensures
        lead(set, s) <= s.len(),
        forall|i: int| 0 <= i < lead(set, s) ==> set.has(#[trigger] s[i]),
        lead(set, s) < s.len() ==> !set.has(s[lead(set, s) as int]),
    decreases s.len(),
{
    if s.len() > 0 && set.has(s[0]) {
        let t = s.drop_first();
        lead_run(set, t);
        assert forall|i: int| 0 <= i < lead(set, s) implies set.has(#[trigger] s[i]) by {
            if i > 0 {
                assert(s[i] == t[i - 1]);
            }
        }
    }
}

/// What `trail` counts: a maximal run.
pub proof fn trail_run(set: CharSet, s: Seq<char>)
    ensures
        trail(set, s) <= s.len(),
        forall|i: int| s.len() - trail(set, s) <= i < s.len() ==> set.has(#[trigger] s[i]),
        trail(set, s) < s.len() ==> !set.has(s[s.len() - trail(set, s) - 1]),
    decreases s.len(),
{
    if s.len() > 0 && set.has(s.last()) {
        let t = s.drop_last();
        trail_run(set, t);
        assert forall|i: int| s.len() - trail(set, s) <= i < s.len() implies set.has(
            #[trigger] s[i],
        ) by {
            if i < s.len() - 1 {
                assert(s[i] == t[i]);
            }
        }
    }
}

/// A maximal run at the start has the length that `lead` gives.
pub proof fn lead_is(set: CharSet, s: Seq<char>, n: int)
    requires
        0 <= n <= s.len(),
        forall|i: int| 0 <= i < n ==> set.has(#[trigger] s[i]),
        n < s.len() ==> !set.has(s[n]),
    ensures
        lead(set, s) == n,
{
    lead_run(set, s);
    let k = lead(set, s) as int;
    if k < n {
        assert(set.has(s[k]));
    } else if n < k {
        assert(set.has(s[n]));
    }
}

/// A maximal run at the end has the length that `trail` gives.
pub proof fn trail_is(set: CharSet, s: Seq<char>, n: int)
    requires
        0 <= n <= s.len(),
        forall|i: int| s.len() - n <= i < s.len() ==> set.has(#[trigger] s[i]),
        n < s.len() ==> !set.has(s[s.len() - n - 1]),
    ensures
        trail(set, s) == n,
{
    trail_run(set, s);
    let k = trail(set, s) as int;
    if k < n {
        assert(set.has(s[s.len() - k - 1]));
    } else if n < k {
        assert(set.has(s[s.len() - n - 1]));
    }
}

/// A trimmed text has no white space at either end.
pub proof fn trimmed_ends(s: Seq<char>)
    ensures
        trimmed(s).len() > 0 ==> !whitespace(trimmed(s)[0]) && !whitespace(trimmed(s).last()),
{
    let w = CharSet::Whitespace;
    let t = trimmed_start(w, s);
    lead_run(w, s);
    trail_run(w, t);
    if trimmed(s).len() > 0 {
        assert(trimmed(s)[0] == t[0]);
        assert(t[0] == s[lead(w, s) as int]);
        assert(trimmed(s).last() == t[t.len() - trail(w, t) - 1]);
        assert(!w.has(t[0]));
        assert(!w.has(trimmed(s).last()));
    }
}

/// A text without white space at its ends is trimmed.
pub proof fn bare_is_trimmed(s: Seq<char>)
    requires
        s.len() > 0 ==> !whitespace(s[0]) && !whitespace(s.last()),
    ensures
        trimmed(s) == s,
{
    let w = CharSet::Whitespace;
    lead_is(w, s, 0);
    assert(trimmed_start(w, s) =~= s);
    trail_is(w, s, 0);
    assert(trimmed(s) =~= s);
}

/// The text without its leading characters in `set`.
pub fn trim_start<'a>(s: &'a str, set: CharSet) -> (r: &'a str)
    ensures
        r@ == trimmed_start(set, s@),
{
    let cs = to_chars(s);
    let mut n: usize = 0;
    while n < cs.len() && set.holds(cs[n])
        invariant
            n <= cs.len(),
            cs@ == s@,
            forall|i: int| 0 <= i < n ==> set.has(#[trigger] s@[i]),
        decreases cs.len() - n,
    {
        n += 1;
    }
    proof {
        lead_is(set, s@, n as int);
    }
    s.substring_char(n, cs.len())
}

/// The text without its trailing characters in `set`.
pub fn trim_end<'a>(s: &'a str, set: CharSet) -> (r: &'a str)
    ensures
        r@ == trimmed_end(set, s@),
{
    let cs = to_chars(s);
    let mut n: usize = cs.len();
    while n > 0 && set.holds(cs[n - 1])
        invariant
            n <= cs.len(),
            cs@ == s@,
            forall|i: int| n <= i < cs.len() ==> set.has(#[trigger] s@[i]),
        decreases n,
    {
        n -= 1;
    }
    proof {
        trail_is(set, s@, cs.len() - n);
    }
    s.substring_char(0, n)
}

/// The text without the white space around it.
pub fn trim<'a>(s: &'a str) -> (r: &'a str)
    ensures
        r@ == trimmed(s@),
{
    trim_end(trim_start(s, CharSet::Whitespace), CharSet::Whitespace)
}

/// Index of the first `c` in `s`, or the length of `s` if there is none.
pub open spec fn find(s: Seq<char>, c: char) -> nat
    decreases s.len(),
{
    if s.len() == 0 || s[0] == c {
        0
    } else {
        1 + find(s.drop_first(), c)
    }
}

pub proof fn find_first(s: Seq<char>, c: char)
    ensures
        find(s, c) <= s.len(),
        forall|i: int| 0 <= i < find(s, c) ==> #[trigger] s[i] != c,
        find(s, c) < s.len() ==> s[find(s, c) as int] == c,
    decreases s.len(),
{
    if s.len() > 0 && s[0] != c {
        let t = s.drop_first();
        find_first(t, c);
        assert forall|i: int| 0 <= i < find(s, c) implies #[trigger] s[i] != c by {
            if i > 0 {
                assert(s[i] == t[i - 1]);
            }
        }
    }
}

pub proof fn find_is(s: Seq<char>, c: char, n: int)
    requires
        0 <= n <= s.len(),
        forall|i: int| 0 <= i < n ==> #[trigger] s[i] != c,
        n < s.len() ==> s[n] == c,
    ensures
        find(s, c) == n,
{
    find_first(s, c);
    let k = find(s, c) as int;
    if k < n {
        assert(s[k] != c);
    } else if n < k {
        assert(s[n] != c);
    }
}

/// The pieces of `s` between the separators `c`: one more than there are
/// separators.
pub open spec fn split(s: Seq<char>, c: char) -> Seq<Seq<char>>
    decreases s.len(),
{
    let n = find(s, c) as int;
    if n >= s.len() {
        seq![s]
    } else {
        seq![s.take(n)] + split(s.skip(n + 1), c)
    }
}

/// The pieces of a text between the separators `c`.
pub fn split_on(s: &str, c: char) -> (r: Vec<String>)
    ensures
        r.deep_view() == split(s@, c),
        r.len() > 0,
{
    let cs = to_chars(s);
    let mut out: Vec<String> = Vec::new();
    let mut from: usize = 0;
    let mut i: usize = 0;
    proof {
        assert(s@.skip(0) =~= s@);
        assert(out.deep_view() + split(s@.skip(0), c) =~= split(s@, c));
    }
    while i < cs.len()
        invariant
            from <= i <= cs.len(),
            cs@ == s@,
            out.deep_view() + split(s@.skip(from as int), c) == split(s@, c),
            forall|k: int| from <= k < i ==> #[trigger] cs@[k] != c,
        decreases cs.len() - i,
    {
        if cs[i] == c {
            let ghost before = out.deep_view();
            out.push(from_chars(&cs, from, i));
            proof {
                let rest = s@.skip(from as int);
                find_is(rest, c, i - from);
                assert(rest.take(i - from) =~= cs@.subrange(from as int, i as int));
                assert(rest.skip(i - from + 1) =~= s@.skip(i + 1));
                assert(out.deep_view() =~= before.push(rest.take(i - from)));
                assert(out.deep_view() + split(s@.skip(i + 1), c) =~= before + split(rest, c));
            }
            from = i + 1;
        }
        i += 1;
    }
    let ghost before = out.deep_view();
    out.push(from_chars(&cs, from, i));
    proof {
        let rest = s@.skip(from as int);
        find_is(rest, c, i - from);
        assert(rest =~= cs@.subrange(from as int, i as int));
        assert(out.deep_view() =~= before + split(rest, c));
    }
    out
}

/// The parts with `sep` between each two.
pub open spec fn joined(parts: Seq<Seq<char>>, sep: Seq<char>) -> Seq<char>
    decreases parts.len(),
{
    if parts.len() == 0 {
        Seq::empty()
    } else if parts.len() == 1 {
        parts[0]
    } else {
        joined(parts.drop_last(), sep) + sep + parts.last()
    }
}

/// The parts one after the other.
pub open spec fn concat(parts: Seq<Seq<char>>) -> Seq<char>
    decreases parts.len(),
{
    if parts.len() == 0 {
        Seq::empty()
    } else {
        concat(parts.drop_last()) + parts.last()
    }
}

/// The parts with `sep` between each two.
pub fn join(parts: &Vec<String>, sep: &str) -> (r: String)
    ensures
        r@ == joined(parts.deep_view(), sep@),
{
    let mut out = String::new();
    let mut i: usize = 0;
    while i < parts.len()
        invariant
            i <= parts.len(),
            out@ == joined(parts.deep_view().take(i as int), sep@),
        decreases parts.len() - i,
    {
        if i > 0 {
            out.append(sep);
        }
        out.append(parts[i].as_str());
        proof {
            let t = parts.deep_view().take(i + 1);
            assert(t.drop_last() =~= parts.deep_view().take(i as int));
            if i == 0 {
                assert(out@ =~= t[0]);
            }
        }
        i += 1;
    }
    proof {
        assert(parts.deep_view().take(i as int) =~= parts.deep_view());
    }
    out
}

/// The parts one after the other.
pub fn concat_all(parts: &Vec<String>) -> (r: String)
    ensures
        r@ == concat(parts.deep_view()),
{
    let mut out = String::new();
    let mut i: usize = 0;
    while i < parts.len()
        invariant
            i <= parts.len(),
            out@ == concat(parts.deep_view().take(i as int)),
        decreases parts.len() - i,
    {
        out.append(parts[i].as_str());
        proof {
            let t = parts.deep_view().take(i + 1);
            assert(t.drop_last() =~= parts.deep_view().take(i as int));
        }
        i += 1;
    }
    proof {
        assert(parts.deep_view().take(i as int) =~= parts.deep_view());
    }
    out
}

} // verus!
