//! Note-path grammar, normalization, and glob matching.
//!
//! Paths: NFC text, case-sensitive, `/`-separated segments; no leading or
//! trailing `/`; segments non-empty, not `.` or `..`, without control
//! characters, without `\`, without white space at either end; at most 1024
//! bytes in total.

use vstd::prelude::*;
use vstd::string::*;
use vstd::utf8::*;

use crate::text::{
    bare_is_trimmed, control, find, find_first, find_is, join, joined, nfc, split, split_on, str_eq,
    to_chars, to_nfc, trim, trimmed, trimmed_ends,
};

verus! {

pub const MAX_PATH_BYTES: usize = 1024;

/// Upper bound on a glob: it is matched against every candidate path, so an
/// unbounded pattern is an unbounded cost per row.
pub const MAX_GLOB_BYTES: usize = 4096;

/// Trims the white space around a path and brings it to NFC. Does not validate. The
/// result is trimmed and in NFC, so that a second call changes nothing, and a valid
/// path is left as it is.
pub fn path_normalize(path: &str) -> (r: String)
    ensures
        r@ == nfc(trimmed(path@)),
        trimmed(r@) == r@,
        nfc(r@) == r@,
        nfc(trimmed(r@)) == r@,
        valid_path(path@) ==> r@ == path@,
{
    let bare = trim(path);
    let r = to_nfc(bare);
    proof {
        trimmed_ends(path@);
        bare_is_trimmed(r@);
        if valid_path(path@) {
            a_valid_path_is_normal(path@);
        }
    }
    r
}

/// What a single path segment may be.
pub open spec fn valid_segment(seg: Seq<char>) -> bool {
    &&& seg.len() > 0
    &&& seg != seq!['.']
    &&& seg != seq!['.', '.']
    &&& seg == trimmed(seg)
    &&& forall|i: int| 0 <= i < seg.len() ==> !control(#[trigger] seg[i]) && seg[i] != '\\'
}

/// What a note path may be.
pub open spec fn valid_path(path: Seq<char>) -> bool {
    &&& path.len() > 0
    &&& encode_utf8(path).len() <= MAX_PATH_BYTES
    &&& path == trimmed(path)
    &&& nfc(path) == path
    &&& forall|i: int|
        0 <= i < split(path, '/').len() ==> valid_segment(#[trigger] split(path, '/')[i])
}

/// A valid path is its own normal form.
pub proof fn a_valid_path_is_normal(path: Seq<char>)
    requires
        valid_path(path),
    ensures
        nfc(trimmed(path)) == path,
{
}

/// Whether a path is valid as it stands: a path that still has to be
/// normalized is not.
pub fn path_is_valid(path: &str) -> (r: bool)
    ensures
        r == valid_path(path@),
{
    if path.is_empty() || path.as_bytes().len() > MAX_PATH_BYTES {
        return false;
    }
    if !str_eq(path, trim(path)) {
        return false;
    }
    if !str_eq(to_nfc(path).as_str(), path) {
        return false;
    }
    let segs = split_on(path, '/');
    let mut i: usize = 0;
    while i < segs.len()
        invariant
            i <= segs.len(),
            segs.deep_view() == split(path@, '/'),
            forall|k: int| 0 <= k < i ==> valid_segment(#[trigger] split(path@, '/')[k]),
        decreases segs.len() - i,
    {
        let ok = segment_is_valid(segs[i].as_str());
        assert(segs[i as int]@ == split(path@, '/')[i as int]);
        if !ok {
            return false;
        }
        i += 1;
    }
    true
}

/// Whether a segment is valid.
pub fn segment_is_valid(seg: &str) -> (r: bool)
    ensures
        r == valid_segment(seg@),
{
    let cs = to_chars(seg);
    if cs.len() == 0 {
        return false;
    }
    if cs.len() == 1 && cs[0] == '.' {
        assert(seg@ =~= seq!['.']);
        return false;
    }
    if cs.len() == 2 && cs[0] == '.' && cs[1] == '.' {
        assert(seg@ =~= seq!['.', '.']);
        return false;
    }
    if !str_eq(seg, trim(seg)) {
        return false;
    }
    let mut i: usize = 0;
    while i < cs.len()
        invariant
            i <= cs.len(),
            cs@ == seg@,
            forall|k: int| 0 <= k < i ==> !control(#[trigger] seg@[k]) && seg@[k] != '\\',
        decreases cs.len() - i,
    {
        if cs[i].is_control() || cs[i] == '\\' {
            return false;
        }
        i += 1;
    }
    true
}

/// Last path segment: the unit of link resolution by name.
pub fn basename<'a>(path: &'a str) -> (r: &'a str)
    ensures
        r@ == split(path@, '/').last(),
{
    let cs = to_chars(path);
    let mut i: usize = cs.len();
    while i > 0 && cs[i - 1] != '/'
        invariant
            i <= cs.len(),
            cs@ == path@,
            forall|k: int| i <= k < cs.len() ==> #[trigger] cs@[k] != '/',
        decreases i,
    {
        i -= 1;
    }
    proof {
        split_last(path@, '/', i as int);
    }
    path.substring_char(i, cs.len())
}

/// The last piece is what follows the last separator.
proof fn split_last(s: Seq<char>, c: char, i: int)
    requires
        0 <= i <= s.len(),
        forall|k: int| i <= k < s.len() ==> #[trigger] s[k] != c,
        i > 0 ==> s[i - 1] == c,
    ensures
        split(s, c).len() > 0,
        split(s, c).last() == s.subrange(i, s.len() as int),
    decreases s.len(),
{
    let n = find(s, c) as int;
    find_first(s, c);
    if n >= s.len() {
        assert(i == 0);
        assert(s.subrange(0, s.len() as int) =~= s);
    } else {
        assert(n < i);
        let t = s.skip(n + 1);
        assert forall|k: int| i - n - 1 <= k < t.len() implies #[trigger] t[k] != c by {
            assert(t[k] == s[k + n + 1]);
        }
        split_last(t, c, i - n - 1);
        assert(t.subrange(i - n - 1, t.len() as int) =~= s.subrange(i, s.len() as int));
    }
}

/// Size check for a caller-supplied glob.
pub fn glob_is_valid(glob: &str) -> (r: bool)
    ensures
        r == (0 < encode_utf8(glob@).len() <= MAX_GLOB_BYTES),
{
    let n: usize = glob.as_bytes().len();
    0 < n && n <= MAX_GLOB_BYTES
}

/// Wildcard match of the pattern items `i..n` against the subject items
/// `j..m`. An item for which `star` holds matches any run of subject items,
/// also an empty one; any other item matches the one subject item that `ok`
/// allows.
pub open spec fn wild(
    n: int,
    m: int,
    star: spec_fn(int) -> bool,
    ok: spec_fn(int, int) -> bool,
    i: int,
    j: int,
) -> bool
    decreases n - i, m - j,
{
    if i >= n {
        j >= m
    } else if star(i) {
        wild(n, m, star, ok, i + 1, j) || (j < m && wild(n, m, star, ok, i, j + 1))
    } else {
        j < m && ok(i, j) && wild(n, m, star, ok, i + 1, j + 1)
    }
}

/// `*` inside a segment matches any run of characters; nothing else is special.
pub open spec fn segment_matches(pat: Seq<char>, seg: Seq<char>) -> bool {
    wild(
        pat.len() as int,
        seg.len() as int,
        |i: int| pat[i] == '*',
        |i: int, j: int| pat[i] == seg[j],
        0,
        0,
    )
}

/// A `**` segment matches any run of whole segments, also none.
pub open spec fn segments_match(pat: Seq<Seq<char>>, segs: Seq<Seq<char>>) -> bool {
    wild(
        pat.len() as int,
        segs.len() as int,
        |i: int| pat[i] == seq!['*', '*'],
        |i: int, j: int| segment_matches(pat[i], segs[j]),
        0,
        0,
    )
}

/// What it means that `glob` matches `path`.
pub open spec fn glob_matches(glob: Seq<char>, path: Seq<char>) -> bool {
    segments_match(split(glob, '/'), split(path, '/'))
}

/// A match from a star survives if the subject starts earlier.
proof fn wild_star_earlier(
    n: int,
    m: int,
    star: spec_fn(int) -> bool,
    ok: spec_fn(int, int) -> bool,
    i: int,
    j: int,
    later: int,
)
    requires
        0 <= i < n,
        star(i),
        0 <= j <= later <= m,
        wild(n, m, star, ok, i, later),
    ensures
        wild(n, m, star, ok, i, j),
    decreases later - j,
{
    if j < later {
        wild_star_earlier(n, m, star, ok, i, j + 1, later);
    }
}

/// A match from a star picks where the rest of the pattern starts.
proof fn wild_star_pick(
    n: int,
    m: int,
    star: spec_fn(int) -> bool,
    ok: spec_fn(int, int) -> bool,
    i: int,
    j: int,
) -> (k: int)
    requires
        0 <= i < n,
        star(i),
        0 <= j <= m,
        wild(n, m, star, ok, i, j),
    ensures
        j <= k <= m,
        wild(n, m, star, ok, i + 1, k),
    decreases m - j,
{
    if wild(n, m, star, ok, i + 1, j) {
        j
    } else {
        wild_star_pick(n, m, star, ok, i, j + 1)
    }
}

/// A star-free run of the pattern matches item by item.
proof fn wild_run(
    n: int,
    m: int,
    star: spec_fn(int) -> bool,
    ok: spec_fn(int, int) -> bool,
    i: int,
    j: int,
    len: int,
)
    requires
        0 <= len,
        0 <= i <= i + len <= n,
        0 <= j <= m,
        forall|k: int| i <= k < i + len ==> !#[trigger] star(k),
    ensures
        wild(n, m, star, ok, i, j) <==> {
            &&& j + len <= m
            &&& forall|k: int| 0 <= k < len ==> #[trigger] ok(i + k, j + k)
            &&& wild(n, m, star, ok, i + len, j + len)
        },
    decreases len,
{
    if len > 0 {
        assert(!star(i));
        if j < m {
            wild_run(n, m, star, ok, i + 1, j + 1, len - 1);
            if wild(n, m, star, ok, i, j) {
                assert forall|k: int| 0 <= k < len implies #[trigger] ok(i + k, j + k) by {
                    if k > 0 {
                        assert(ok((i + 1) + (k - 1), (j + 1) + (k - 1)));
                    }
                }
            }
            if j + len <= m && (forall|k: int| 0 <= k < len ==> #[trigger] ok(i + k, j + k)) {
                assert(ok(i + 0, j + 0));
                assert forall|k: int| 0 <= k < len - 1 implies #[trigger] ok(
                    (i + 1) + k,
                    (j + 1) + k,
                ) by {
                    assert(ok(i + (k + 1), j + (k + 1)));
                }
            }
        }
    }
}

/// At the end of the subject only stars may be left.
proof fn wild_at_end(
    n: int,
    m: int,
    star: spec_fn(int) -> bool,
    ok: spec_fn(int, int) -> bool,
    i: int,
)
    requires
        0 <= i <= n,
        0 <= m,
    ensures
        wild(n, m, star, ok, i, m) <==> (forall|k: int| i <= k < n ==> #[trigger] star(k)),
    decreases n - i,
{
    if i < n {
        wild_at_end(n, m, star, ok, i + 1);
        if star(i) {
        } else {
            assert(!wild(n, m, star, ok, i, m));
        }
    }
}

/// Where the search stands: the answer for the whole equals the answer from
/// the last star, whose run starts at `mark`, and since that star the pattern
/// has matched item by item.
spec fn search_state(
    n: int,
    m: int,
    star: spec_fn(int) -> bool,
    ok: spec_fn(int, int) -> bool,
    last: Option<usize>,
    mark: int,
    pi: int,
    si: int,
) -> bool {
    &&& 0 <= pi <= n
    &&& 0 <= si <= m
    &&& match last {
        None => wild(n, m, star, ok, 0, 0) == wild(n, m, star, ok, pi, si),
        Some(sp) => {
            &&& 0 <= sp < pi
            &&& 0 <= mark <= si
            &&& star(sp as int)
            &&& pi - (sp + 1) == si - mark
            &&& forall|k: int| sp < k < pi ==> !#[trigger] star(k)
            &&& forall|k: int| 0 <= k < si - mark ==> #[trigger] ok(sp + 1 + k, mark + k)
            &&& wild(n, m, star, ok, 0, 0) == wild(n, m, star, ok, sp as int, mark)
        },
    }
}

/// A new star takes over from the old one.
proof fn search_star(
    n: int,
    m: int,
    star: spec_fn(int) -> bool,
    ok: spec_fn(int, int) -> bool,
    last: Option<usize>,
    mark: int,
    pi: int,
    si: int,
)
    requires
        search_state(n, m, star, ok, last, mark, pi, si),
        pi < n <= usize::MAX,
        star(pi),
    ensures
        search_state(n, m, star, ok, Some(pi as usize), si, pi + 1, si),
{
    if let Some(sp) = last {
        let len = pi - (sp + 1);
        wild_run(n, m, star, ok, sp + 1, mark, len);
        if wild(n, m, star, ok, pi, si) {
            assert(wild(n, m, star, ok, sp + 1, mark));
            assert(wild(n, m, star, ok, sp as int, mark));
        }
        if wild(n, m, star, ok, sp as int, mark) {
            let k = wild_star_pick(n, m, star, ok, sp as int, mark);
            wild_run(n, m, star, ok, sp + 1, k, len);
            wild_star_earlier(n, m, star, ok, pi, si, k + len);
        }
    }
}

/// The current items match.
proof fn search_step(
    n: int,
    m: int,
    star: spec_fn(int) -> bool,
    ok: spec_fn(int, int) -> bool,
    last: Option<usize>,
    mark: int,
    pi: int,
    si: int,
)
    requires
        search_state(n, m, star, ok, last, mark, pi, si),
        pi < n,
        si < m,
        !star(pi),
        ok(pi, si),
    ensures
        search_state(n, m, star, ok, last, mark, pi + 1, si + 1),
{
    if let Some(sp) = last {
        assert forall|k: int| 0 <= k < si + 1 - mark implies #[trigger] ok(sp + 1 + k, mark + k) by {
            if k == si - mark {
                assert(sp + 1 + k == pi);
            }
        }
    }
}

/// The current items do not match: the last star absorbs one more item.
proof fn search_back(
    n: int,
    m: int,
    star: spec_fn(int) -> bool,
    ok: spec_fn(int, int) -> bool,
    sp: usize,
    mark: int,
    pi: int,
    si: int,
)
    requires
        search_state(n, m, star, ok, Some(sp), mark, pi, si),
        si < m,
        pi < n ==> !star(pi) && !ok(pi, si),
    ensures
        search_state(n, m, star, ok, Some(sp), mark + 1, sp + 1, mark + 1),
{
    let len = pi - (sp + 1);
    wild_run(n, m, star, ok, sp + 1, mark, len);
    assert(!wild(n, m, star, ok, pi, si));
    assert(!wild(n, m, star, ok, sp + 1, mark));
}

/// The subject is used up.
proof fn search_end(
    n: int,
    m: int,
    star: spec_fn(int) -> bool,
    ok: spec_fn(int, int) -> bool,
    last: Option<usize>,
    mark: int,
    pi: int,
)
    requires
        search_state(n, m, star, ok, last, mark, pi, m),
    ensures
        wild(n, m, star, ok, 0, 0) <==> (forall|k: int| pi <= k < n ==> #[trigger] star(k)),
{
    wild_at_end(n, m, star, ok, pi);
    if let Some(sp) = last {
        let len = pi - (sp + 1);
        wild_run(n, m, star, ok, sp + 1, mark, len);
        if wild(n, m, star, ok, sp as int, mark) {
            let k = wild_star_pick(n, m, star, ok, sp as int, mark);
            wild_run(n, m, star, ok, sp + 1, k, len);
            assert(k == mark);
        }
    }
}

/// Git-style glob: `*` matches within a segment, a `**` segment matches across
/// segments; nothing else is special.
pub fn glob_match(glob: &str, path: &str) -> (r: bool)
    ensures
        r == glob_matches(glob@, path@),
{
    let pat = split_on(glob, '/');
    let segs = split_on(path, '/');
    match_segments(&pat, &segs)
}

/// Whether the segment is `**`.
fn is_double_star(seg: &str) -> (r: bool)
    ensures
        r == (seg@ == seq!['*', '*']),
{
    let cs = to_chars(seg);
    let r = cs.len() == 2 && cs[0] == '*' && cs[1] == '*';
    proof {
        if r {
            assert(seg@ =~= seq!['*', '*']);
        }
    }
    r
}

/// Segment-level wildcard match: greedy, with a single backtrack point, so the
/// cost is the product of the lengths however many `**` there are.
pub fn match_segments(pat: &Vec<String>, segs: &Vec<String>) -> (r: bool)
    ensures
        r == segments_match(pat.deep_view(), segs.deep_view()),
{
    let ghost p = pat.deep_view();
    let ghost s = segs.deep_view();
    let ghost star = |i: int| p[i] == seq!['*', '*'];
    let ghost ok = |i: int, j: int| segment_matches(p[i], s[j]);
    let ghost n = p.len() as int;
    let ghost m = s.len() as int;
    let mut pi: usize = 0;
    let mut si: usize = 0;
    let mut last: Option<usize> = None;
    let mut mark: usize = 0;
    while si < segs.len()
        invariant
            p == pat.deep_view(),
            s == segs.deep_view(),
            n == p.len() == pat.len(),
            m == s.len() == segs.len(),
            star == (|i: int| p[i] == seq!['*', '*']),
            ok == (|i: int, j: int| segment_matches(p[i], s[j])),
            search_state(n, m, star, ok, last, mark as int, pi as int, si as int),
        decreases m - (if last is Some { mark as int } else { -1 }), n - pi,
    {
        let starred = pi < pat.len() && is_double_star(pat[pi].as_str());
        assert(pi < n ==> pat[pi as int]@ == p[pi as int]);
        assert(segs[si as int]@ == s[si as int]);
        if starred {
            proof {
                search_star(n, m, star, ok, last, mark as int, pi as int, si as int);
            }
            last = Some(pi);
            mark = si;
            pi += 1;
        } else if pi < pat.len() && match_one(pat[pi].as_str(), segs[si].as_str()) {
            proof {
                search_step(n, m, star, ok, last, mark as int, pi as int, si as int);
            }
            pi += 1;
            si += 1;
        } else if let Some(sp) = last {
            proof {
                search_back(n, m, star, ok, sp, mark as int, pi as int, si as int);
            }
            pi = sp + 1;
            mark += 1;
            si = mark;
        } else {
            return false;
        }
    }
    proof {
        search_end(n, m, star, ok, last, mark as int, pi as int);
    }
    let ghost tail = pi as int;
    while pi < pat.len() && is_double_star(pat[pi].as_str())
        invariant
            p == pat.deep_view(),
            n == p.len() == pat.len(),
            tail <= pi <= n,
            star == (|i: int| p[i] == seq!['*', '*']),
            forall|k: int| tail <= k < pi ==> #[trigger] star(k),
        decreases n - pi,
    {
        assert(pat[pi as int]@ == p[pi as int]);
        pi += 1;
    }
    proof {
        if pi < n {
            assert(pat[pi as int]@ == p[pi as int]);
            assert(!star(pi as int));
        }
    }
    pi == pat.len()
}

/// `*` within a single segment; literal otherwise. The `*` arm comes before
/// literal equality, because `*` is a legal path character.
pub fn match_one(pat: &str, seg: &str) -> (r: bool)
    ensures
        r == segment_matches(pat@, seg@),
{
    let p = to_chars(pat);
    let s = to_chars(seg);
    let ghost star = |i: int| pat@[i] == '*';
    let ghost ok = |i: int, j: int| pat@[i] == seg@[j];
    let ghost n = p.len() as int;
    let ghost m = s.len() as int;
    let mut pi: usize = 0;
    let mut si: usize = 0;
    let mut last: Option<usize> = None;
    let mut mark: usize = 0;
    while si < s.len()
        invariant
            p@ == pat@,
            s@ == seg@,
            n == p.len(),
            m == s.len(),
            star == (|i: int| pat@[i] == '*'),
            ok == (|i: int, j: int| pat@[i] == seg@[j]),
            search_state(n, m, star, ok, last, mark as int, pi as int, si as int),
        decreases m - (if last is Some { mark as int } else { -1 }), n - pi,
    {
        if pi < p.len() && p[pi] == '*' {
            proof {
                search_star(n, m, star, ok, last, mark as int, pi as int, si as int);
            }
            last = Some(pi);
            mark = si;
            pi += 1;
        } else if pi < p.len() && p[pi] == s[si] {
            proof {
                search_step(n, m, star, ok, last, mark as int, pi as int, si as int);
            }
            pi += 1;
            si += 1;
        } else if let Some(sp) = last {
            proof {
                search_back(n, m, star, ok, sp, mark as int, pi as int, si as int);
            }
            pi = sp + 1;
            mark += 1;
            si = mark;
        } else {
            return false;
        }
    }
    proof {
        search_end(n, m, star, ok, last, mark as int, pi as int);
    }
    let ghost tail = pi as int;
    while pi < p.len() && p[pi] == '*'
        invariant
            p@ == pat@,
            n == p.len(),
            tail <= pi <= n,
            star == (|i: int| pat@[i] == '*'),
            forall|k: int| tail <= k < pi ==> #[trigger] star(k),
        decreases n - pi,
    {
        pi += 1;
    }
    proof {
        if pi < n {
            assert(!star(pi as int));
        }
    }
    pi == p.len()
}

/// How many segments at the start of a glob hold no `*`.
pub open spec fn literal_run(segs: Seq<Seq<char>>) -> nat
    decreases segs.len(),
{
    if segs.len() == 0 || segs[0].contains('*') {
        0
    } else {
        1 + literal_run(segs.drop_first())
    }
}

/// The text that every match of a glob starts with: its literal segments, then
/// what stands before the first `*` of the next one. A `**` segment matches no
/// segments too, so it does not contribute the separator before it.
pub open spec fn literal_prefix(segs: Seq<Seq<char>>) -> Seq<char> {
    let m = literal_run(segs) as int;
    let literal = joined(segs.take(m), seq!['/']);
    if m >= segs.len() || segs[m] == seq!['*', '*'] {
        literal
    } else {
        (if m > 0 { literal.push('/') } else { literal }) + segs[m].take(
            find(segs[m], '*') as int,
        )
    }
}

proof fn literal_run_is(segs: Seq<Seq<char>>, m: int)
    requires
        0 <= m <= segs.len(),
        forall|k: int| 0 <= k < m ==> !(#[trigger] segs[k]).contains('*'),
        m < segs.len() ==> segs[m].contains('*'),
    ensures
        literal_run(segs) == m,
    decreases segs.len(),
{
    if m > 0 {
        let t = segs.drop_first();
        assert(segs[0] == segs[0 as int]);
        assert forall|k: int| 0 <= k < m - 1 implies !(#[trigger] t[k]).contains('*') by {
            assert(t[k] == segs[k + 1]);
        }
        literal_run_is(t, m - 1);
    }
}

proof fn literal_run_facts(segs: Seq<Seq<char>>)
    ensures
        literal_run(segs) <= segs.len(),
        forall|k: int| 0 <= k < literal_run(segs) ==> !(#[trigger] segs[k]).contains('*'),
        literal_run(segs) < segs.len() ==> segs[literal_run(segs) as int].contains('*'),
    decreases segs.len(),
{
    if segs.len() > 0 && !segs[0].contains('*') {
        let t = segs.drop_first();
        literal_run_facts(t);
        assert forall|k: int| 0 <= k < literal_run(segs) implies !(#[trigger] segs[k]).contains(
            '*',
        ) by {
            if k > 0 {
                assert(segs[k] == t[k - 1]);
            }
        }
    }
}

/// The longest literal path prefix that every match must start with, so that
/// callers can narrow a scan before matching every row.
pub fn glob_literal_prefix(glob: &str) -> (r: String)
    ensures
        r@ == literal_prefix(split(glob@, '/')),
{
    let segs = split_on(glob, '/');
    let ghost v = segs.deep_view();
    proof {
        reveal_strlit("/");
        assert("/"@ =~= seq!['/']);
    }
    let mut literal: Vec<String> = Vec::new();
    let mut i: usize = 0;
    while i < segs.len()
        invariant
            i <= segs.len(),
            v == segs.deep_view(),
            v == split(glob@, '/'),
            literal.deep_view() == v.take(i as int),
            "/"@ == seq!['/'],
            forall|k: int| 0 <= k < i ==> !(#[trigger] v[k]).contains('*'),
        decreases segs.len() - i,
    {
        let seg = segs[i].as_str();
        assert(seg@ == v[i as int]);
        let cs = to_chars(seg);
        if cs.len() == 2 && cs[0] == '*' && cs[1] == '*' {
            proof {
                assert(seg@ =~= seq!['*', '*']);
                assert(seg@.contains('*')) by {
                    assert(seg@[0] == '*');
                }
                literal_run_is(v, i as int);
            }
            return join(&literal, "/");
        }
        let mut at: usize = 0;
        while at < cs.len() && cs[at] != '*'
            invariant
                at <= cs.len(),
                cs@ == seg@,
                forall|k: int| 0 <= k < at ==> #[trigger] cs@[k] != '*',
            decreases cs.len() - at,
        {
            at += 1;
        }
        if at < cs.len() {
            let mut out = join(&literal, "/");
            if i > 0 {
                out.push('/');
            }
            out.append(seg.substring_char(0, at));
            proof {
                find_is(seg@, '*', at as int);
                assert(seg@.contains('*')) by {
                    assert(seg@[at as int] == '*');
                }
                assert(v[i as int] != seq!['*', '*']) by {
                    if v[i as int] == seq!['*', '*'] {
                        assert(cs@[0] == '*' && cs@[1] == '*' && cs@.len() == 2);
                    }
                }
                literal_run_is(v, i as int);
                assert(seg@.take(at as int) =~= seg@.subrange(0, at as int));
            }
            return out;
        }
        assert(!seg@.contains('*'));
        let ghost before = literal.deep_view();
        literal.push(segs[i].clone());
        proof {
            assert(literal.deep_view() =~= before.push(v[i as int]));
            assert(v.take(i + 1) =~= v.take(i as int).push(v[i as int]));
        }
        i += 1;
    }
    proof {
        literal_run_is(v, i as int);
        assert(v.take(i as int) =~= v);
    }
    join(&literal, "/")
}

/// Joining from the front.
proof fn joined_front(first: Seq<char>, rest: Seq<Seq<char>>, sep: Seq<char>)
    requires
        rest.len() > 0,
    ensures
        joined(seq![first] + rest, sep) == first + sep + joined(rest, sep),
    decreases rest.len(),
{
    let all = seq![first] + rest;
    assert(all.last() == rest.last());
    if rest.len() == 1 {
        assert(all.drop_last() =~= seq![first]);
        assert(joined(all.drop_last(), sep) == first);
        assert(joined(all, sep) =~= first + sep + joined(rest, sep));
    } else {
        assert(all.drop_last() =~= seq![first] + rest.drop_last());
        joined_front(first, rest.drop_last(), sep);
        assert(joined(all, sep) =~= first + sep + joined(rest, sep));
    }
}

/// A text is its pieces with the separator between them.
pub proof fn split_joined(s: Seq<char>, c: char)
    ensures
        split(s, c).len() > 0,
        joined(split(s, c), seq![c]) == s,
    decreases s.len(),
{
    let n = find(s, c) as int;
    find_first(s, c);
    if n < s.len() {
        let t = s.skip(n + 1);
        split_joined(t, c);
        joined_front(s.take(n), split(t, c), seq![c]);
        assert(s =~= s.take(n) + seq![c] + t);
    }
}

/// The first `m` parts, joined, start the whole.
proof fn joined_prefix(parts: Seq<Seq<char>>, sep: Seq<char>, m: int)
    requires
        0 <= m <= parts.len(),
    ensures
        joined(parts.take(m), sep).is_prefix_of(joined(parts, sep)),
    decreases parts.len(),
{
    if m == parts.len() {
        assert(parts.take(m) =~= parts);
    } else if m == 0 {
        assert(joined(parts.take(0), sep) =~= Seq::empty());
    } else {
        joined_prefix(parts.drop_last(), sep, m);
        assert(parts.drop_last().take(m) =~= parts.take(m));
        assert(joined(parts, sep) == joined(parts.drop_last(), sep) + sep + parts.last());
    }
}

/// A segment pattern without `*` matches itself only.
proof fn literal_segment(pat: Seq<char>, seg: Seq<char>)
    requires
        !pat.contains('*'),
        segment_matches(pat, seg),
    ensures
        pat == seg,
{
    let star = |i: int| pat[i] == '*';
    let ok = |i: int, j: int| pat[i] == seg[j];
    assert forall|k: int| 0 <= k < pat.len() implies !#[trigger] star(k) by {
        assert(pat.contains(pat[k]));
    }
    wild_run(pat.len() as int, seg.len() as int, star, ok, 0, 0, pat.len() as int);
    assert forall|k: int| 0 <= k < pat.len() implies pat[k] == seg[k] by {
        assert(ok(0 + k, 0 + k));
    }
    assert(pat =~= seg);
}

/// What stands before the first `*` of a segment pattern starts the segment.
proof fn segment_prefix(pat: Seq<char>, seg: Seq<char>)
    requires
        segment_matches(pat, seg),
    ensures
        pat.take(find(pat, '*') as int).is_prefix_of(seg),
{
    let star = |i: int| pat[i] == '*';
    let ok = |i: int, j: int| pat[i] == seg[j];
    find_first(pat, '*');
    let f = find(pat, '*') as int;
    assert forall|k: int| 0 <= k < f implies !#[trigger] star(k) by {}
    wild_run(pat.len() as int, seg.len() as int, star, ok, 0, 0, f);
    assert forall|k: int| 0 <= k < f implies pat[k] == seg[k] by {
        assert(ok(0 + k, 0 + k));
    }
    assert(pat.take(f) =~= seg.take(f));
}

/// Narrowing a scan to the literal prefix never loses a match: every path that
/// a glob matches starts with the glob's literal prefix.
pub proof fn glob_match_starts_with_literal_prefix(glob: Seq<char>, path: Seq<char>)
    requires
        glob_matches(glob, path),
    ensures
        literal_prefix(split(glob, '/')).is_prefix_of(path),
{
    let pat = split(glob, '/');
    let segs = split(path, '/');
    let sep = seq!['/'];
    let m = literal_run(pat) as int;
    let star = |i: int| pat[i] == seq!['*', '*'];
    let ok = |i: int, j: int| segment_matches(pat[i], segs[j]);
    literal_run_facts(pat);
    split_joined(path, '/');
    assert forall|k: int| 0 <= k < m implies !#[trigger] star(k) by {
        if pat[k] == seq!['*', '*'] {
            assert(pat[k][0] == '*');
            assert(pat[k].contains('*'));
        }
    }
    wild_run(pat.len() as int, segs.len() as int, star, ok, 0, 0, m);
    assert forall|k: int| 0 <= k < m implies pat[k] == segs[k] by {
        assert(ok(0 + k, 0 + k));
        literal_segment(pat[k], segs[k]);
    }
    assert(pat.take(m) =~= segs.take(m));
    joined_prefix(segs, sep, m);
    if m < pat.len() && pat[m] != seq!['*', '*'] {
        assert(!star(m));
        assert(ok(m, m));
        segment_prefix(pat[m], segs[m]);
        joined_prefix(segs, sep, m + 1);
        let part = pat[m].take(find(pat[m], '*') as int);
        let literal = joined(pat.take(m), sep);
        let whole = joined(segs.take(m + 1), sep);
        assert(segs.take(m + 1).drop_last() =~= segs.take(m));
        if m == 0 {
            assert(literal.len() == 0);
            assert(whole == segs[0]);
            assert(literal + part =~= part);
            assert(part.is_prefix_of(whole));
        } else {
            assert(whole == literal + sep + segs[m]);
            assert((literal.push('/') + part).is_prefix_of(whole)) by {
                assert(literal.push('/') + part =~= whole.take(
                    (literal.len() + 1 + part.len()) as int,
                ));
            }
        }
        let lit = literal_prefix(pat);
        assert(lit.is_prefix_of(whole));
        assert(whole.is_prefix_of(path));
        assert(lit =~= path.take(lit.len() as int));
    }
}

// ---- what a glob matches ----

/// A match depends on the items alone, not on how they are numbered.
proof fn wild_shifted(
    n: int,
    m: int,
    star: spec_fn(int) -> bool,
    ok: spec_fn(int, int) -> bool,
    a: int,
    b: int,
    star2: spec_fn(int) -> bool,
    ok2: spec_fn(int, int) -> bool,
    i: int,
    j: int,
)
    requires
        a <= i,
        b <= j,
        forall|k: int| a <= k < n ==> #[trigger] star2(k - a) == star(k),
        forall|k: int, l: int| a <= k < n && b <= l < m ==> #[trigger] ok2(k - a, l - b) == ok(k, l),
    ensures
        wild(n, m, star, ok, i, j) == wild(n - a, m - b, star2, ok2, i - a, j - b),
    decreases n - i, m - j,
{
    if i < n {
        assert(star2(i - a) == star(i));
        if j < m {
            assert(ok2(i - a, j - b) == ok(i, j));
            if star(i) {
                wild_shifted(n, m, star, ok, a, b, star2, ok2, i, j + 1);
            } else {
                wild_shifted(n, m, star, ok, a, b, star2, ok2, i + 1, j + 1);
            }
        }
        if star(i) {
            wild_shifted(n, m, star, ok, a, b, star2, ok2, i + 1, j);
        }
    }
}

/// An item that matches any run: what follows it matches from some place on.
proof fn star_takes_a_run(
    n: int,
    m: int,
    star: spec_fn(int) -> bool,
    ok: spec_fn(int, int) -> bool,
    i: int,
    j: int,
)
    requires
        i < n,
        star(i),
        j <= m,
    ensures
        wild(n, m, star, ok, i, j) <==> exists|k: int|
            j <= k <= m && #[trigger] wild(n, m, star, ok, i + 1, k),
    decreases m - j,
{
    let here = wild(n, m, star, ok, i + 1, j);
    if j < m {
        star_takes_a_run(n, m, star, ok, i, j + 1);
    }
    if wild(n, m, star, ok, i, j) && !here {
        let k = choose|k: int| j + 1 <= k <= m && #[trigger] wild(n, m, star, ok, i + 1, k);
        assert(wild(n, m, star, ok, i + 1, k));
    }
    if exists|k: int| j <= k <= m && #[trigger] wild(n, m, star, ok, i + 1, k) {
        let k = choose|k: int| j <= k <= m && #[trigger] wild(n, m, star, ok, i + 1, k);
        if k > j {
            assert(j + 1 <= k <= m && wild(n, m, star, ok, i + 1, k));
            assert(wild(n, m, star, ok, i, j + 1));
        }
        assert(wild(n, m, star, ok, i, j));
    }
}

/// Items that match one each: they match what stands there, one for one, and what
/// follows matches what follows.
proof fn run_matches_run(
    n: int,
    m: int,
    star: spec_fn(int) -> bool,
    ok: spec_fn(int, int) -> bool,
    i: int,
    j: int,
    len: int,
)
    requires
        0 <= len,
        i + len <= n,
        forall|k: int| i <= k < i + len ==> !#[trigger] star(k),
    ensures
        wild(n, m, star, ok, i, j) <==> (len == 0 || j + len <= m) && (forall|k: int|
            0 <= k < len ==> #[trigger] ok(i + k, j + k)) && wild(n, m, star, ok, i + len, j + len),
    decreases len,
{
    if len > 0 {
        assert(!star(i));
        run_matches_run(n, m, star, ok, i + 1, j + 1, len - 1);
        if wild(n, m, star, ok, i, j) {
            assert forall|k: int| 0 <= k < len implies #[trigger] ok(i + k, j + k) by {
                if k > 0 {
                    assert(ok((i + 1) + (k - 1), (j + 1) + (k - 1)));
                }
            }
        }
        if (forall|k: int| 0 <= k < len ==> #[trigger] ok(i + k, j + k)) {
            assert(ok(i + 0, j + 0));
            assert forall|k: int| 0 <= k < len - 1 implies #[trigger] ok((i + 1) + k, (j + 1)
                + k) by {
                assert(ok(i + (k + 1), j + (k + 1)));
            }
        }
    }
}

/// A segment of a glob without `*` matches itself alone.
pub proof fn a_literal_matches_itself(pat: Seq<char>, seg: Seq<char>)
    requires
        !pat.contains('*'),
    ensures
        segment_matches(pat, seg) <==> seg == pat,
{
    let star = |i: int| pat[i] == '*';
    let ok = |i: int, j: int| pat[i] == seg[j];
    let n = pat.len() as int;
    let m = seg.len() as int;
    assert forall|k: int| 0 <= k < n implies !#[trigger] star(k) by {
        assert(pat.contains(pat[k]));
    }
    run_matches_run(n, m, star, ok, 0, 0, n);
    if segment_matches(pat, seg) {
        assert forall|k: int| 0 <= k < n implies pat[k] == seg[k] by {
            assert(ok(0 + k, 0 + k));
        }
        assert(seg =~= pat);
    }
}

/// A `*` in a segment of a glob matches any run of characters, also none: what stands
/// before it is what the segment starts with, and what follows it matches some rest.
pub proof fn a_star_matches_any_run(head: Seq<char>, tail: Seq<char>, seg: Seq<char>)
    requires
        !head.contains('*'),
    ensures
        segment_matches(head + seq!['*'] + tail, seg) <==> head.is_prefix_of(seg) && exists|k: int|
            head.len() <= k <= seg.len() && segment_matches(tail, #[trigger] seg.skip(k)),
{
    let pat = head + seq!['*'] + tail;
    let star = |i: int| pat[i] == '*';
    let ok = |i: int, j: int| pat[i] == seg[j];
    let n = pat.len() as int;
    let m = seg.len() as int;
    let h = head.len() as int;
    assert forall|k: int| 0 <= k < 0 + h implies !#[trigger] star(k) by {
        assert(head.contains(head[k]));
    }
    run_matches_run(n, m, star, ok, 0, 0, h);
    assert forall|k: int| 0 <= k <= m implies #[trigger] wild(n, m, star, ok, h + 1, k)
        == segment_matches(tail, seg.skip(k)) by {
        let rest = seg.skip(k);
        let star2 = |i: int| tail[i] == '*';
        let ok2 = |i: int, j: int| tail[i] == rest[j];
        assert forall|x: int| h + 1 <= x < n implies #[trigger] star2(x - (h + 1)) == star(x) by {
            assert(pat[x] == tail[x - (h + 1)]);
        }
        assert forall|x: int, y: int| h + 1 <= x < n && k <= y < m implies #[trigger] ok2(
            x - (h + 1),
            y - k,
        ) == ok(x, y) by {
            assert(pat[x] == tail[x - (h + 1)]);
        }
        wild_shifted(n, m, star, ok, h + 1, k, star2, ok2, h + 1, k);
    }
    if h <= m {
        assert(star(h));
        star_takes_a_run(n, m, star, ok, h, h);
    }
    if segment_matches(pat, seg) {
        assert(h <= m);
        assert forall|k: int| 0 <= k < h implies head[k] == seg[k] by {
            assert(ok(0 + k, 0 + k));
        }
        assert(head =~= seg.take(h));
        let k = choose|k: int| h <= k <= m && #[trigger] wild(n, m, star, ok, h + 1, k);
        assert(segment_matches(tail, seg.skip(k)));
    }
    if head.is_prefix_of(seg) && exists|k: int|
        h <= k <= m && segment_matches(tail, #[trigger] seg.skip(k)) {
        let k = choose|k: int| h <= k <= m && segment_matches(tail, #[trigger] seg.skip(k));
        assert(wild(n, m, star, ok, h + 1, k));
        assert forall|x: int| 0 <= x < h implies #[trigger] ok(0 + x, 0 + x) by {
            assert(head[x] == seg.take(h)[x]);
        }
    }
}

/// The first segment of a glob: `**` matches any run of segments, also none; any other
/// matches one segment. The rest of the glob matches the rest of the path. The glob of
/// no segments matches the path of none.
pub proof fn a_glob_matches_segment_by_segment(
    first: Seq<char>,
    pat: Seq<Seq<char>>,
    segs: Seq<Seq<char>>,
)
    ensures
        segments_match(Seq::empty(), segs) <==> segs.len() == 0,
        first == seq!['*', '*'] ==> (segments_match(seq![first] + pat, segs) <==> exists|k: int|
            0 <= k <= segs.len() && segments_match(pat, #[trigger] segs.skip(k))),
        first != seq!['*', '*'] ==> (segments_match(seq![first] + pat, segs) <==> segs.len() > 0
            && segment_matches(first, segs[0]) && segments_match(pat, segs.skip(1))),
{
    let all = seq![first] + pat;
    let star = |i: int| all[i] == seq!['*', '*'];
    let ok = |i: int, j: int| segment_matches(all[i], segs[j]);
    let n = all.len() as int;
    let m = segs.len() as int;
    assert forall|k: int| 0 <= k <= m implies #[trigger] wild(n, m, star, ok, 1, k)
        == segments_match(pat, segs.skip(k)) by {
        let rest = segs.skip(k);
        let star2 = |i: int| pat[i] == seq!['*', '*'];
        let ok2 = |i: int, j: int| segment_matches(pat[i], rest[j]);
        assert forall|x: int| 1 <= x < n implies #[trigger] star2(x - 1) == star(x) by {
            assert(all[x] == pat[x - 1]);
        }
        assert forall|x: int, y: int| 1 <= x < n && k <= y < m implies #[trigger] ok2(x - 1, y - k)
            == ok(x, y) by {
            assert(all[x] == pat[x - 1]);
            assert(rest[y - k] == segs[y]);
        }
        wild_shifted(n, m, star, ok, 1, k, star2, ok2, 1, k);
    }
    assert(all[0] == first);
    if first == seq!['*', '*'] {
        assert(star(0));
        star_takes_a_run(n, m, star, ok, 0, 0);
        if segments_match(all, segs) {
            let k = choose|k: int| 0 <= k <= m && #[trigger] wild(n, m, star, ok, 1, k);
            assert(segments_match(pat, segs.skip(k)));
        }
        if exists|k: int| 0 <= k <= m && segments_match(pat, #[trigger] segs.skip(k)) {
            let k = choose|k: int| 0 <= k <= m && segments_match(pat, #[trigger] segs.skip(k));
            assert(wild(n, m, star, ok, 1, k));
        }
    } else {
        assert(!star(0));
        if m > 0 {
            assert(ok(0, 0) == segment_matches(first, segs[0]));
            assert(wild(n, m, star, ok, 1, 1) == segments_match(pat, segs.skip(1)));
        }
    }
}

} // verus!
