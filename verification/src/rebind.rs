//! Heuristic rebinding: which of the blocks that no rule carried are likely the
//! same block. It works on the residual only, and never crosses two matches.

use vstd::prelude::*;
use vstd::string::*;
use vstd::multiset::Multiset;
use vstd::utf8::encode_utf8;

use crate::carry::{bind_keeps_order, CarryInput, CarryState, CarryView, InputView};
use crate::ids::Uuid;
use crate::text::{ascii_alnum, from_chars, is_alnum, to_chars};

verus! {

/// Cells that an alignment may have. Above it the heuristic is skipped, and
/// every unmatched block gets a fresh id.
pub const CELL_BUDGET: usize = 40_000;

// ---- features ----

/// The lowercase form of a text, by the Unicode tables.
pub uninterp spec fn lowercase(s: Seq<char>) -> Seq<char>;

/// Calls `str::to_lowercase`: the result is `lowercase` of the text.
#[verifier::external_body]
fn to_lower(s: &str) -> (r: String)
    ensures
        r@ == lowercase(s@),
{
    s.to_lowercase()
}

/// The numbers ascend.
pub open spec fn ascending(v: Seq<u64>) -> bool {
    forall|i: int, j: int| 0 <= i <= j < v.len() ==> #[trigger] v[i] <= #[trigger] v[j]
}

/// Calls `slice::sort_unstable`: the same numbers come out, ascending.
#[verifier::external_body]
fn sort_numbers(v: &mut Vec<u64>)
    ensures
        ascending(final(v)@),
        final(v)@.to_multiset() == old(v)@.to_multiset(),
{
    v.sort_unstable();
}

/// The hash of the first `n` bytes.
pub open spec fn fnv(bytes: Seq<u8>, n: int) -> u64
    decreases n,
{
    if n <= 0 {
        0xcbf2_9ce4_8422_2325
    } else {
        vstd::wrapping::u64_specs::wrapping_mul(
            fnv(bytes, n - 1) ^ (bytes[n - 1] as u64),
            0x100_0000_01b3,
        )
    }
}

/// The 64-bit FNV-1a hash of a text.
pub fn fnv1a(s: &str) -> (r: u64)
    ensures
        r == fnv(encode_utf8(s@), encode_utf8(s@).len() as int),
{
    let bytes = s.as_bytes();
    let mut h: u64 = 0xcbf2_9ce4_8422_2325;
    let mut i: usize = 0;
    while i < bytes.len()
        invariant
            i <= bytes.len(),
            bytes@ == encode_utf8(s@),
            h == fnv(bytes@, i as int),
        decreases bytes.len() - i,
    {
        h = (h ^ (bytes[i] as u64)).wrapping_mul(0x100_0000_01b3);
        i += 1;
    }
    h
}

/// The words before `n` that have ended, and the one that goes on there.
pub open spec fn words_at(s: Seq<char>, n: int) -> (Seq<Seq<char>>, Seq<char>)
    decreases n,
{
    if n <= 0 {
        (Seq::empty(), Seq::empty())
    } else {
        let (done, word) = words_at(s, n - 1);
        if is_alnum(s[n - 1]) {
            (done, word.push(s[n - 1]))
        } else if word.len() > 0 {
            (done.push(word), Seq::empty())
        } else {
            (done, Seq::empty())
        }
    }
}

/// The words of a text: the longest runs of ASCII letters and digits.
pub open spec fn words(s: Seq<char>) -> Seq<Seq<char>> {
    let (done, word) = words_at(s, s.len() as int);
    if word.len() > 0 {
        done.push(word)
    } else {
        done
    }
}

pub open spec fn word_hash(w: Seq<char>) -> u64 {
    fnv(encode_utf8(w), encode_utf8(w).len() as int)
}

pub open spec fn word_hashes(ws: Seq<Seq<char>>) -> Seq<u64> {
    Seq::new(ws.len(), |i: int| word_hash(ws[i]))
}

/// The hashes of the words of a text, in order.
fn word_numbers(s: &str) -> (r: Vec<u64>)
    ensures
        r@ == word_hashes(words(s@)),
{
    let chars = to_chars(s);
    let ghost v = chars@;
    let mut out: Vec<u64> = Vec::new();
    let mut from: usize = 0;
    let mut i: usize = 0;
    proof {
        assert(word_hashes(words_at(v, 0).0) =~= Seq::<u64>::empty());
    }
    while i < chars.len()
        invariant
            from <= i <= chars.len(),
            v == chars@,
            v == s@,
            out@ == word_hashes(words_at(v, i as int).0),
            words_at(v, i as int).1 == v.subrange(from as int, i as int),
        decreases chars.len() - i,
    {
        let ghost done = words_at(v, i as int).0;
        let ghost word = words_at(v, i as int).1;
        if ascii_alnum(chars[i]) {
            assert(word.push(v[i as int]) =~= v.subrange(from as int, i + 1));
        } else {
            if from < i {
                let w = from_chars(&chars, from, i);
                out.push(fnv1a(w.as_str()));
                assert(out@ =~= word_hashes(done.push(word)));
            }
            from = i + 1;
            assert(v.subrange(from as int, i + 1) =~= Seq::<char>::empty());
        }
        i += 1;
    }
    let ghost done = words_at(v, i as int).0;
    let ghost word = words_at(v, i as int).1;
    if from < i {
        let w = from_chars(&chars, from, i);
        out.push(fnv1a(w.as_str()));
        assert(out@ =~= word_hashes(done.push(word)));
    }
    out
}

/// A pair of words as one number; the order of the two counts.
pub open spec fn pair_hash(a: u64, b: u64) -> u64 {
    vstd::wrapping::u64_specs::wrapping_mul(a, 0x100_0000_01b3) ^ ((b << 17) | (b >> 47))
}

/// The features of a text: its words, then its pairs of neighbouring words.
pub open spec fn feature_list(hashes: Seq<u64>) -> Seq<u64> {
    hashes + Seq::new(
        (if hashes.len() > 0 {
            hashes.len() - 1
        } else {
            0
        }) as nat,
        |i: int| pair_hash(hashes[i], hashes[i + 1]),
    )
}

/// The features of a text, ascending.
pub fn features(text: &str) -> (r: Vec<u64>)
    ensures
        ascending(r@),
        r@.to_multiset() == feature_list(word_hashes(words(lowercase(text@)))).to_multiset(),
{
    let lower = to_lower(text);
    let toks = word_numbers(lower.as_str());
    let mut out: Vec<u64> = Vec::new();
    let mut i: usize = 0;
    while i < toks.len()
        invariant
            i <= toks.len(),
            out@ == toks@.take(i as int),
        decreases toks.len() - i,
    {
        out.push(toks[i]);
        i += 1;
    }
    assert(out@ =~= toks@);
    let mut k: usize = 1;
    while k < toks.len()
        invariant
            1 <= k,
            k <= toks.len() || k == 1,
            out@.len() == toks@.len() + k - 1,
            forall|j: int| 0 <= j < toks@.len() ==> #[trigger] out@[j] == toks@[j],
            forall|j: int|
                toks@.len() <= j < out@.len() ==> #[trigger] out@[j] == pair_hash(
                    toks@[j - toks@.len()],
                    toks@[j - toks@.len() + 1],
                ),
        decreases toks.len() - k,
    {
        let b: u64 = toks[k];
        out.push(toks[k - 1].wrapping_mul(0x100_0000_01b3) ^ ((b << 17) | (b >> 47)));
        k += 1;
    }
    proof {
        let want = feature_list(toks@);
        assert(out@.len() == want.len());
        assert forall|j: int| 0 <= j < want.len() implies out@[j] == want[j] by {
            if j < toks@.len() {
                assert(out@[j] == toks@[j]);
            }
        }
        assert(out@ =~= want);
    }
    sort_numbers(&mut out);
    out
}

/// How many features two lists share, each as often as both have it.
pub open spec fn shared(a: Seq<u64>, b: Seq<u64>) -> nat {
    a.to_multiset().intersection_with(b.to_multiset()).len()
}

proof fn shared_empty(a: Seq<u64>, b: Seq<u64>)
    requires
        a.len() == 0 || b.len() == 0,
    ensures
        shared(a, b) == 0,
{
    broadcast use vstd::multiset::group_multiset_axioms;

    a.to_multiset_ensures();
    b.to_multiset_ensures();
    let m = a.to_multiset().intersection_with(b.to_multiset());
    assert forall|v: u64| #[trigger] m.count(v) == 0 by {
        vstd::multiset::lemma_intersection_count(a.to_multiset(), b.to_multiset(), v);
        if a.len() == 0 {
            assert(!a.contains(v));
        } else {
            assert(!b.contains(v));
        }
    }
    assert(m =~= Multiset::empty());
}

proof fn first_counts(a: Seq<u64>, v: u64)
    requires
        a.len() > 0,
    ensures
        a.to_multiset().count(v) == a.drop_first().to_multiset().count(v) + (if a[0] == v {
            1nat
        } else {
            0
        }),
{
    broadcast use vstd::multiset::group_multiset_axioms;

    a.to_multiset_ensures();
    assert(a.drop_first() =~= a.remove(0));
    assert(a.contains(a[0]));
}

proof fn smaller_is_alone(a: Seq<u64>, b: Seq<u64>)
    requires
        a.len() > 0,
        b.len() > 0,
        ascending(b),
        a[0] < b[0],
    ensures
        shared(a, b) == shared(a.drop_first(), b),
        shared(b, a) == shared(b, a.drop_first()),
{
    broadcast use vstd::multiset::group_multiset_axioms;

    b.to_multiset_ensures();
    let am = a.to_multiset();
    let bm = b.to_multiset();
    let rm = a.drop_first().to_multiset();
    assert(!b.contains(a[0]));
    assert forall|v: u64| am.intersection_with(bm).count(v) == rm.intersection_with(bm).count(v)
        && bm.intersection_with(am).count(v) == bm.intersection_with(rm).count(v) by {
        first_counts(a, v);
        vstd::multiset::lemma_intersection_count(am, bm, v);
        vstd::multiset::lemma_intersection_count(rm, bm, v);
        vstd::multiset::lemma_intersection_count(bm, am, v);
        vstd::multiset::lemma_intersection_count(bm, rm, v);
    }
    assert(am.intersection_with(bm) =~= rm.intersection_with(bm));
    assert(bm.intersection_with(am) =~= bm.intersection_with(rm));
}

proof fn equal_is_shared(a: Seq<u64>, b: Seq<u64>)
    requires
        a.len() > 0,
        b.len() > 0,
        a[0] == b[0],
    ensures
        shared(a, b) == shared(a.drop_first(), b.drop_first()) + 1,
{
    broadcast use vstd::multiset::group_multiset_axioms;

    let am = a.to_multiset();
    let bm = b.to_multiset();
    let ra = a.drop_first().to_multiset();
    let rb = b.drop_first().to_multiset();
    let inner = ra.intersection_with(rb);
    assert forall|v: u64| am.intersection_with(bm).count(v) == inner.insert(a[0]).count(v) by {
        first_counts(a, v);
        first_counts(b, v);
        vstd::multiset::lemma_intersection_count(am, bm, v);
        vstd::multiset::lemma_intersection_count(ra, rb, v);
    }
    assert(am.intersection_with(bm) =~= inner.insert(a[0]));
}

proof fn ascending_skip(a: Seq<u64>, i: int)
    requires
        ascending(a),
        0 <= i <= a.len(),
    ensures
        ascending(a.skip(i)),
{
}

/// How many features two ascending lists share.
pub fn intersect(a: &Vec<u64>, b: &Vec<u64>) -> (r: usize)
    requires
        ascending(a@),
        ascending(b@),
    ensures
        r == shared(a@, b@),
{
    let mut i: usize = 0;
    let mut j: usize = 0;
    let mut n: usize = 0;
    proof {
        assert(a@.skip(0) =~= a@);
        assert(b@.skip(0) =~= b@);
    }
    while i < a.len() && j < b.len()
        invariant
            i <= a.len(),
            j <= b.len(),
            n <= i,
            ascending(a@),
            ascending(b@),
            n + shared(a@.skip(i as int), b@.skip(j as int)) == shared(a@, b@),
        decreases a.len() - i + b.len() - j,
    {
        let ghost x = a@.skip(i as int);
        let ghost y = b@.skip(j as int);
        proof {
            ascending_skip(a@, i as int);
            ascending_skip(b@, j as int);
            assert(x.drop_first() =~= a@.skip(i + 1));
            assert(y.drop_first() =~= b@.skip(j + 1));
        }
        if a[i] < b[j] {
            proof {
                smaller_is_alone(x, y);
            }
            i += 1;
        } else if b[j] < a[i] {
            proof {
                smaller_is_alone(y, x);
            }
            j += 1;
        } else {
            proof {
                equal_is_shared(x, y);
            }
            n += 1;
            i += 1;
            j += 1;
        }
    }
    proof {
        shared_empty(a@.skip(i as int), b@.skip(j as int));
    }
    n
}

// ---- the residual ----

/// The blocks among the first `n` old ones that nothing carried.
pub open spec fn unused(used: Seq<bool>, n: int) -> Seq<usize>
    decreases n,
{
    if n <= 0 {
        Seq::empty()
    } else if used[n - 1] {
        unused(used, n - 1)
    } else {
        unused(used, n - 1).push((n - 1) as usize)
    }
}

/// The blocks among the first `n` new ones that have no id yet.
pub open spec fn unassigned_slots(assign: Seq<Option<Uuid>>, n: int) -> Seq<usize>
    decreases n,
{
    if n <= 0 {
        Seq::empty()
    } else if assign[n - 1] is Some {
        unassigned_slots(assign, n - 1)
    } else {
        unassigned_slots(assign, n - 1).push((n - 1) as usize)
    }
}

/// What no rule carried: old blocks and new ones, in document order.
#[derive(Debug)]
pub struct Residual {
    pub old_idxs: Vec<usize>,
    pub new_idxs: Vec<usize>,
}

/// What no rule carried.
pub fn residual(state: &CarryState) -> (r: Residual)
    ensures
        r.old_idxs@ == unused(state.old_used@, state.old_used.len() as int),
        r.new_idxs@ == unassigned_slots(state.assign@, state.assign.len() as int),
{
    let mut old_idxs: Vec<usize> = Vec::new();
    let mut i: usize = 0;
    while i < state.old_used.len()
        invariant
            i <= state.old_used.len(),
            old_idxs@ == unused(state.old_used@, i as int),
        decreases state.old_used.len() - i,
    {
        if !state.old_used[i] {
            old_idxs.push(i);
        }
        i += 1;
    }
    let mut new_idxs: Vec<usize> = Vec::new();
    let mut k: usize = 0;
    while k < state.assign.len()
        invariant
            k <= state.assign.len(),
            new_idxs@ == unassigned_slots(state.assign@, k as int),
        decreases state.assign.len() - k,
    {
        if state.assign[k].is_none() {
            new_idxs.push(k);
        }
        k += 1;
    }
    Residual { old_idxs, new_idxs }
}

/// The positions among the first `n` of the residual's new blocks that have this
/// kind.
pub open spec fn peers_of(inp: InputView, kind: Seq<char>, new_idxs: Seq<usize>, n: int) -> Seq<
    usize,
>
    decreases n,
{
    if n <= 0 {
        Seq::empty()
    } else if inp.new[new_idxs[n - 1] as int].kind == kind {
        peers_of(inp, kind, new_idxs, n - 1).push((n - 1) as usize)
    } else {
        peers_of(inp, kind, new_idxs, n - 1)
    }
}

/// The positions among the residual's new blocks that have the kind of an old
/// one: only blocks of one kind are matched.
pub fn peers(input: &CarryInput, old_idx: usize, new_idxs: &Vec<usize>) -> (r: Vec<usize>)
    requires
        old_idx < input.old.len(),
        crate::carry::within(new_idxs@, input.new.len() as int),
    ensures
        r@ == peers_of(
            input.deep_view(),
            input.deep_view().old[old_idx as int].kind,
            new_idxs@,
            new_idxs.len() as int,
        ),
{
    let ghost inp = input.deep_view();
    let ghost kind = inp.old[old_idx as int].kind;
    let mut out: Vec<usize> = Vec::new();
    let mut i: usize = 0;
    while i < new_idxs.len()
        invariant
            i <= new_idxs.len(),
            old_idx < input.old.len(),
            crate::carry::within(new_idxs@, input.new.len() as int),
            inp == input.deep_view(),
            kind == inp.old[old_idx as int].kind,
            out@ == peers_of(inp, kind, new_idxs@, i as int),
        decreases new_idxs.len() - i,
    {
        let ni = new_idxs[i];
        assert(new_idxs@[i as int] < input.new.len());
        assert(inp.new[ni as int] == input.new[ni as int].deep_view());
        assert(inp.old[old_idx as int] == input.old[old_idx as int].deep_view());
        if crate::text::str_eq(input.new[ni].kind, input.old[old_idx].kind) {
            out.push(i);
        }
        i += 1;
    }
    out
}

/// A run of 2 to 4 neighbours among `n`.
pub open spec fn is_run(r: (usize, usize), n: int) -> bool {
    r.0 + 2 <= r.1 <= r.0 + 4 && r.1 <= n
}

/// Runs in the order of their starts, then of their ends.
pub open spec fn run_before(a: (usize, usize), b: (usize, usize)) -> bool {
    a.0 < b.0 || (a.0 == b.0 && a.1 < b.1)
}

/// The runs of neighbours that a split block may have become: all of them, in
/// order.
pub fn split_runs(n: usize) -> (r: Vec<(usize, usize)>)
    ensures
        forall|k: int| 0 <= k < r.len() ==> is_run(#[trigger] r[k], n as int),
        forall|j: int, k: int| 0 <= j < k < r.len() ==> run_before(#[trigger] r[j], #[trigger] r[k]),
        forall|run: (usize, usize)| is_run(run, n as int) ==> r@.contains(run),
{
    let mut out: Vec<(usize, usize)> = Vec::new();
    let mut s: usize = 0;
    while s < n
        invariant
            s <= n,
            forall|k: int| 0 <= k < out.len() ==> is_run(#[trigger] out[k], n as int),
            forall|k: int| 0 <= k < out.len() ==> (#[trigger] out[k]).0 < s,
            forall|j: int, k: int|
                0 <= j < k < out.len() ==> run_before(#[trigger] out[j], #[trigger] out[k]),
            forall|run: (usize, usize)|
                is_run(run, n as int) && run.0 < s ==> #[trigger] out@.contains(run),
        decreases n - s,
    {
        let last: usize = if n - s < 4 {
            n
        } else {
            s + 4
        };
        let mut w: usize = 2;
        while w <= last - s
            invariant
                s < n,
                2 <= w,
                last <= n,
                s <= last <= s + 4,
                last == n || last == s + 4,
                forall|k: int| 0 <= k < out.len() ==> is_run(#[trigger] out[k], n as int),
                forall|k: int|
                    0 <= k < out.len() ==> (#[trigger] out[k]).0 < s || (out[k].0 == s && out[k].1 < s
                        + w),
                forall|j: int, k: int|
                    0 <= j < k < out.len() ==> run_before(#[trigger] out[j], #[trigger] out[k]),
                forall|run: (usize, usize)|
                    is_run(run, n as int) && (run.0 < s || (run.0 == s && run.1 < s + w))
                        ==> #[trigger] out@.contains(run),
            decreases last - s + 1 - w,
        {
            let ghost before = out@;
            out.push((s, s + w));
            proof {
                assert forall|run: (usize, usize)|
                    is_run(run, n as int) && (run.0 < s || (run.0 == s && run.1 < s + w + 1)) implies
                    #[trigger] out@.contains(run) by {
                    if run.0 == s && run.1 == s + w {
                        assert(out@[before.len() as int] == run);
                    } else {
                        assert(before.contains(run));
                        let k = choose|k: int| 0 <= k < before.len() && before[k] == run;
                        assert(out@[k] == run);
                    }
                }
            }
            w += 1;
        }
        s += 1;
    }
    out
}

/// The features of several texts together.
pub open spec fn joined_list(parts: Seq<Vec<u64>>, n: int) -> Seq<u64>
    decreases n,
{
    if n <= 0 {
        Seq::empty()
    } else {
        joined_list(parts, n - 1) + parts[n - 1]@
    }
}

/// The features of several texts together, ascending.
pub fn joined_features(parts: &Vec<Vec<u64>>) -> (r: Vec<u64>)
    ensures
        ascending(r@),
        r@.to_multiset() == joined_list(parts@, parts.len() as int).to_multiset(),
{
    let mut out: Vec<u64> = Vec::new();
    let mut i: usize = 0;
    while i < parts.len()
        invariant
            i <= parts.len(),
            out@ == joined_list(parts@, i as int),
        decreases parts.len() - i,
    {
        let p = &parts[i];
        let ghost before = out@;
        let mut k: usize = 0;
        while k < p.len()
            invariant
                k <= p.len(),
                out@ == before + p@.take(k as int),
            decreases p.len() - k,
        {
            out.push(p[k]);
            k += 1;
            assert(out@ =~= before + p@.take(k as int));
        }
        assert(p@.take(k as int) =~= p@);
        i += 1;
    }
    sort_numbers(&mut out);
    out
}

// ---- the alignment ----

/// What an alignment does at a pair of blocks.
#[derive(Debug, Clone, Copy, PartialEq, Eq, Structural)]
pub enum Step {
    /// The two are the same block, with the bits of the score that says so.
    Take { score: u32 },
    SkipOld,
    SkipNew,
}

/// One binding that the heuristic made, with the bits of its score.
#[derive(Debug, Clone, Copy, PartialEq, Eq, Structural)]
pub struct Rebound {
    pub new_idx: usize,
    pub old_idx: usize,
    pub score: u32,
}

/// What the heuristic came to.
#[derive(Debug)]
pub enum Outcome {
    Ran(Vec<Rebound>),
    /// The residual is too large.
    OverBudget { cells: usize },
}

/// The bindings of an alignment from old position `i` and new position `j` on.
pub open spec fn traced(
    steps: Seq<Step>,
    old_idxs: Seq<usize>,
    new_idxs: Seq<usize>,
    i: int,
    j: int,
) -> Seq<Rebound>
    decreases old_idxs.len() - i + new_idxs.len() - j,
{
    if i < 0 || j < 0 || i >= old_idxs.len() || j >= new_idxs.len() {
        Seq::empty()
    } else {
        match steps[i * new_idxs.len() + j] {
            Step::Take { score } => seq![
                Rebound { new_idx: new_idxs[j], old_idx: old_idxs[i], score },
            ] + traced(steps, old_idxs, new_idxs, i + 1, j + 1),
            Step::SkipOld => traced(steps, old_idxs, new_idxs, i + 1, j),
            Step::SkipNew => traced(steps, old_idxs, new_idxs, i, j + 1),
        }
    }
}

/// The number of cells, as far as a machine number can say.
pub open spec fn cell_count(n: int, m: int) -> int {
    if n * m > usize::MAX {
        usize::MAX as int
    } else {
        n * m
    }
}

/// How many cells the alignment of a residual has.
pub fn cells(r: &Residual) -> (c: usize)
    ensures
        c == cell_count(r.old_idxs.len() as int, r.new_idxs.len() as int),
{
    match r.old_idxs.len().checked_mul(r.new_idxs.len()) {
        Some(c) => c,
        None => usize::MAX,
    }
}

/// What rebinding comes to, where `steps` says what the alignment does at each
/// pair, row by row.
pub open spec fn rebinding(
    old_idxs: Seq<usize>,
    new_idxs: Seq<usize>,
    steps: Seq<Step>,
) -> Option<Seq<Rebound>> {
    if cell_count(old_idxs.len() as int, new_idxs.len() as int) > 40_000 {
        None
    } else {
        Some(traced(steps, old_idxs, new_idxs, 0, 0))
    }
}

/// Aligns the residual. `steps` says what the alignment does at each pair, row
/// by row; it is not read where the residual is over the budget.
pub fn rebind(r: &Residual, steps: &Vec<Step>) -> (o: Outcome)
    requires
        cell_count(r.old_idxs.len() as int, r.new_idxs.len() as int) <= 40_000 ==> steps.len()
            == r.old_idxs.len() * r.new_idxs.len(),
    ensures
        match o {
            Outcome::Ran(v) => rebinding(r.old_idxs@, r.new_idxs@, steps@) == Some(v@),
            Outcome::OverBudget { cells } => {
                &&& rebinding(r.old_idxs@, r.new_idxs@, steps@) is None
                &&& cells == cell_count(r.old_idxs.len() as int, r.new_idxs.len() as int)
            },
        },
{
    let count = cells(r);
    if count > CELL_BUDGET {
        return Outcome::OverBudget { cells: count };
    }
    let n: usize = r.old_idxs.len();
    let m: usize = r.new_idxs.len();
    let ghost olds = r.old_idxs@;
    let ghost news = r.new_idxs@;
    assert(n * m <= 40_000);
    let mut out: Vec<Rebound> = Vec::new();
    let mut i: usize = 0;
    let mut j: usize = 0;
    let ghost all = traced(steps@, olds, news, 0, 0);
    proof {
        assert(out@ + all =~= all);
    }
    while i < n && j < m
        invariant
            i <= n,
            j <= m,
            n == r.old_idxs.len(),
            m == r.new_idxs.len(),
            olds == r.old_idxs@,
            news == r.new_idxs@,
            n * m <= 40_000,
            steps.len() == n * m,
            out@ + traced(steps@, olds, news, i as int, j as int) == all,
        decreases n - i + m - j,
    {
        proof {
            assert(i * m + j < n * m) by (nonlinear_arith)
                requires
                    i < n,
                    j < m,
                    0 <= i,
                    0 <= j,
            ;
            assert(0 <= i * m <= n * m) by (nonlinear_arith)
                requires
                    0 <= i < n,
                    0 <= m,
            ;
        }
        match steps[i * m + j] {
            Step::Take { score } => {
                let b = Rebound { new_idx: r.new_idxs[j], old_idx: r.old_idxs[i], score };
                let ghost rest = traced(steps@, olds, news, i + 1, j + 1);
                let ghost before = out@;
                out.push(b);
                assert(before + (seq![b] + rest) =~= out@ + rest);
                i += 1;
                j += 1;
            },
            Step::SkipOld => {
                i += 1;
            },
            Step::SkipNew => {
                j += 1;
            },
        }
    }
    assert(out@ + Seq::<Rebound>::empty() =~= out@);
    Outcome::Ran(out)
}

/// Positions ascend strictly.
pub open spec fn strictly_ascending(v: Seq<usize>) -> bool {
    forall|i: int, j: int| 0 <= i < j < v.len() ==> #[trigger] v[i] < #[trigger] v[j]
}

proof fn unused_is(used: Seq<bool>, n: int)
    requires
        0 <= n <= used.len() <= usize::MAX,
    ensures
        strictly_ascending(unused(used, n)),
        forall|k: int|
            0 <= k < unused(used, n).len() ==> (#[trigger] unused(used, n)[k]) < n && !used[unused(
                used,
                n,
            )[k] as int],
    decreases n,
{
    if n > 0 {
        unused_is(used, n - 1);
    }
}

proof fn unassigned_slots_are(assign: Seq<Option<Uuid>>, n: int)
    requires
        0 <= n <= assign.len() <= usize::MAX,
    ensures
        strictly_ascending(unassigned_slots(assign, n)),
        forall|k: int|
            0 <= k < unassigned_slots(assign, n).len() ==> (#[trigger] unassigned_slots(assign, n)[k])
                < n && assign[unassigned_slots(assign, n)[k] as int] is None,
    decreases n,
{
    if n > 0 {
        unassigned_slots_are(assign, n - 1);
    }
}

/// A binding is of blocks in the residual, from these positions on.
pub open spec fn bound_in(
    r: Rebound,
    old_idxs: Seq<usize>,
    new_idxs: Seq<usize>,
    i: int,
    j: int,
) -> bool {
    exists|a: int, b: int|
        {
            &&& i <= a < old_idxs.len()
            &&& j <= b < new_idxs.len()
            &&& r.old_idx == #[trigger] old_idxs[a]
            &&& r.new_idx == #[trigger] new_idxs[b]
        }
}

/// The bindings are of blocks in the residual, and no two of them cross.
pub open spec fn monotonic(
    bindings: Seq<Rebound>,
    old_idxs: Seq<usize>,
    new_idxs: Seq<usize>,
    i: int,
    j: int,
) -> bool {
    &&& forall|k: int|
        0 <= k < bindings.len() ==> bound_in(#[trigger] bindings[k], old_idxs, new_idxs, i, j)
    &&& forall|k: int, l: int|
        0 <= k < l < bindings.len() ==> (#[trigger] bindings[k]).old_idx < (
        #[trigger] bindings[l]).old_idx && bindings[k].new_idx < bindings[l].new_idx
}

/// Matches never cross: whatever the alignment decides, its bindings are of
/// blocks in the residual and in the order of both documents.
pub proof fn matches_never_cross(
    steps: Seq<Step>,
    old_idxs: Seq<usize>,
    new_idxs: Seq<usize>,
    i: int,
    j: int,
)
    requires
        strictly_ascending(old_idxs),
        strictly_ascending(new_idxs),
        0 <= i <= old_idxs.len(),
        0 <= j <= new_idxs.len(),
    ensures
        monotonic(traced(steps, old_idxs, new_idxs, i, j), old_idxs, new_idxs, i, j),
    decreases old_idxs.len() - i + new_idxs.len() - j,
{
    let all = traced(steps, old_idxs, new_idxs, i, j);
    if i < old_idxs.len() && j < new_idxs.len() {
        match steps[i * new_idxs.len() + j] {
            Step::Take { score } => {
                matches_never_cross(steps, old_idxs, new_idxs, i + 1, j + 1);
                let rest = traced(steps, old_idxs, new_idxs, i + 1, j + 1);
                let first = Rebound { new_idx: new_idxs[j], old_idx: old_idxs[i], score };
                assert(all == seq![first] + rest);
                assert forall|k: int| 0 <= k < all.len() implies bound_in(
                    #[trigger] all[k],
                    old_idxs,
                    new_idxs,
                    i,
                    j,
                ) by {
                    if k == 0 {
                        assert(first.old_idx == old_idxs[i] && first.new_idx == new_idxs[j]);
                    } else {
                        assert(all[k] == rest[k - 1]);
                        assert(bound_in(rest[k - 1], old_idxs, new_idxs, i + 1, j + 1));
                    }
                }
                assert forall|k: int, l: int| 0 <= k < l < all.len() implies (
                #[trigger] all[k]).old_idx < (#[trigger] all[l]).old_idx && all[k].new_idx
                    < all[l].new_idx by {
                    assert(all[l] == rest[l - 1]);
                    if k == 0 {
                        assert(bound_in(rest[l - 1], old_idxs, new_idxs, i + 1, j + 1));
                        let (a, b) = choose|a: int, b: int|
                            {
                                &&& i + 1 <= a < old_idxs.len()
                                &&& j + 1 <= b < new_idxs.len()
                                &&& rest[l - 1].old_idx == #[trigger] old_idxs[a]
                                &&& rest[l - 1].new_idx == #[trigger] new_idxs[b]
                            };
                        assert(old_idxs[i] < old_idxs[a]);
                        assert(new_idxs[j] < new_idxs[b]);
                    } else {
                        assert(all[k] == rest[k - 1]);
                    }
                }
            },
            Step::SkipOld => {
                matches_never_cross(steps, old_idxs, new_idxs, i + 1, j);
                assert(all == traced(steps, old_idxs, new_idxs, i + 1, j));
                assert forall|k: int| 0 <= k < all.len() implies bound_in(
                    #[trigger] all[k],
                    old_idxs,
                    new_idxs,
                    i,
                    j,
                ) by {
                    assert(bound_in(all[k], old_idxs, new_idxs, i + 1, j));
                }
            },
            Step::SkipNew => {
                matches_never_cross(steps, old_idxs, new_idxs, i, j + 1);
                assert(all == traced(steps, old_idxs, new_idxs, i, j + 1));
                assert forall|k: int| 0 <= k < all.len() implies bound_in(
                    #[trigger] all[k],
                    old_idxs,
                    new_idxs,
                    i,
                    j,
                ) by {
                    assert(bound_in(all[k], old_idxs, new_idxs, i, j + 1));
                }
            },
        }
    }
}

// ---- applying it ----

/// One binding applied, where both blocks are still free.
pub open spec fn rebound_one(inp: InputView, st: CarryView, b: Rebound) -> CarryView {
    if b.new_idx < st.assign.len() && b.old_idx < st.old_used.len() && st.assign[b.new_idx as int]
        is None && !st.old_used[b.old_idx as int] {
        st.bound(inp, b.new_idx as int, b.old_idx as int)
    } else {
        st
    }
}

/// The first `n` bindings applied.
pub open spec fn rebound(inp: InputView, st: CarryView, bindings: Seq<Rebound>, n: int) -> CarryView
    decreases n,
{
    if n <= 0 {
        st
    } else {
        rebound_one(inp, rebound(inp, st, bindings, n - 1), bindings[n - 1])
    }
}

/// Applying bindings keeps the carry in order.
pub proof fn rebound_ok(inp: InputView, st: CarryView, bindings: Seq<Rebound>, n: int)
    requires
        inp.ok(),
        st.ok(inp),
        n <= bindings.len(),
    ensures
        rebound(inp, st, bindings, n).ok(inp),
    decreases n,
{
    if n > 0 {
        rebound_ok(inp, st, bindings, n - 1);
        let before = rebound(inp, st, bindings, n - 1);
        let b = bindings[n - 1];
        if b.new_idx < before.assign.len() && b.old_idx < before.old_used.len()
            && before.assign[b.new_idx as int] is None && !before.old_used[b.old_idx as int] {
            bind_keeps_order(inp, before, b.new_idx as int, b.old_idx as int);
        }
    }
}

/// Applies bindings; one whose blocks are not both free is passed over.
pub fn apply_bindings(input: &CarryInput, state: &mut CarryState, bindings: &Vec<Rebound>)
    requires
        input.deep_view().ok(),
        old(state).deep_view().ok(input.deep_view()),
    ensures
        final(state).deep_view() == rebound(
            input.deep_view(),
            old(state).deep_view(),
            bindings@,
            bindings.len() as int,
        ),
        final(state).deep_view().ok(input.deep_view()),
{
    let ghost inp = input.deep_view();
    let ghost st0 = state.deep_view();
    let mut i: usize = 0;
    while i < bindings.len()
        invariant
            i <= bindings.len(),
            inp == input.deep_view(),
            inp.ok(),
            st0.ok(inp),
            state.deep_view() == rebound(inp, st0, bindings@, i as int),
            state.deep_view().ok(inp),
            inp.old.len() == input.old_ids.len(),
        decreases bindings.len() - i,
    {
        let b = bindings[i];
        let ghost before = state.deep_view();
        if b.new_idx < state.assign.len() && b.old_idx < state.old_used.len()
            && state.assign[b.new_idx].is_none() && !state.old_used[b.old_idx] {
            let id = input.old_ids[b.old_idx];
            state.assign.set(b.new_idx, Some(id));
            state.old_used.set(b.old_idx, true);
            assert(state.deep_view().assign =~= before.bound(
                inp,
                b.new_idx as int,
                b.old_idx as int,
            ).assign);
            assert(state.deep_view().old_used =~= before.bound(
                inp,
                b.new_idx as int,
                b.old_idx as int,
            ).old_used);
        }
        proof {
            rebound_ok(inp, st0, bindings@, i + 1);
        }
        i += 1;
    }
}

proof fn rebound_applies(inp: InputView, st: CarryView, v: Seq<Rebound>, n: int)
    requires
        st.assign.len() == inp.new.len(),
        st.old_used.len() == inp.old.len(),
        0 <= n <= v.len(),
        forall|k: int|
            0 <= k < v.len() ==> {
                &&& (#[trigger] v[k]).new_idx < st.assign.len()
                &&& v[k].old_idx < st.old_used.len()
                &&& st.assign[v[k].new_idx as int] is None
                &&& !st.old_used[v[k].old_idx as int]
            },
        forall|k: int, l: int|
            0 <= k < l < v.len() ==> (#[trigger] v[k]).old_idx < (#[trigger] v[l]).old_idx
                && v[k].new_idx < v[l].new_idx,
    ensures
        ({
            let r = rebound(inp, st, v, n);
            &&& r.assign.len() == st.assign.len()
            &&& r.old_used.len() == st.old_used.len()
            &&& forall|k: int|
                0 <= k < n ==> r.assign[(#[trigger] v[k]).new_idx as int] == Some(
                    inp.old_ids[v[k].old_idx as int],
                )
            &&& forall|k: int|
                n <= k < v.len() ==> r.assign[(#[trigger] v[k]).new_idx as int] is None
                    && !r.old_used[v[k].old_idx as int]
        }),
    decreases n,
{
    if n > 0 {
        rebound_applies(inp, st, v, n - 1);
        let before = rebound(inp, st, v, n - 1);
        let r = rebound(inp, st, v, n);
        let b = v[n - 1];
        assert(before.assign[b.new_idx as int] is None);
        assert(r == before.bound(inp, b.new_idx as int, b.old_idx as int));
        assert forall|k: int| 0 <= k < n implies r.assign[(#[trigger] v[k]).new_idx as int] == Some(
            inp.old_ids[v[k].old_idx as int],
        ) by {
            if k < n - 1 {
                assert(v[k].new_idx < v[n - 1].new_idx);
            }
        }
        assert forall|k: int| n <= k < v.len() implies r.assign[(#[trigger] v[k]).new_idx as int]
            is None && !r.old_used[v[k].old_idx as int] by {
            assert(v[n - 1].new_idx < v[k].new_idx);
            assert(v[n - 1].old_idx < v[k].old_idx);
        }
    }
}

/// What the heuristic binds is bound: each binding it makes of a residual gives
/// the new block the old block's id, and nothing that a rule carried changes.
pub proof fn every_binding_applies(inp: InputView, st: CarryView, steps: Seq<Step>)
    requires
        inp.ok(),
        st.ok(inp),
        inp.old.len() <= usize::MAX,
        inp.new.len() <= usize::MAX,
    ensures
        ({
            let olds = unused(st.old_used, st.old_used.len() as int);
            let news = unassigned_slots(st.assign, st.assign.len() as int);
            let v = traced(steps, olds, news, 0, 0);
            let r = rebound(inp, st, v, v.len() as int);
            &&& forall|k: int|
                0 <= k < v.len() ==> r.assign[(#[trigger] v[k]).new_idx as int] == Some(
                    inp.old_ids[v[k].old_idx as int],
                )
            &&& forall|n: int|
                0 <= n < st.assign.len() && #[trigger] st.assign[n] is Some ==> r.assign[n]
                    == st.assign[n]
        }),
{
    let olds = unused(st.old_used, st.old_used.len() as int);
    let news = unassigned_slots(st.assign, st.assign.len() as int);
    let v = traced(steps, olds, news, 0, 0);
    unused_is(st.old_used, st.old_used.len() as int);
    unassigned_slots_are(st.assign, st.assign.len() as int);
    matches_never_cross(steps, olds, news, 0, 0);
    assert forall|k: int| 0 <= k < v.len() implies {
        &&& (#[trigger] v[k]).new_idx < st.assign.len()
        &&& v[k].old_idx < st.old_used.len()
        &&& st.assign[v[k].new_idx as int] is None
        &&& !st.old_used[v[k].old_idx as int]
    } by {
        let (a, b) = choose|a: int, b: int|
            {
                &&& 0 <= a < olds.len()
                &&& 0 <= b < news.len()
                &&& v[k].old_idx == #[trigger] olds[a]
                &&& v[k].new_idx == #[trigger] news[b]
            };
        assert(olds[a] < st.old_used.len());
        assert(news[b] < st.assign.len());
    }
    rebound_applies(inp, st, v, v.len() as int);
    rebound_keeps(inp, st, v, v.len() as int);
}

proof fn rebound_keeps(inp: InputView, st: CarryView, v: Seq<Rebound>, n: int)
    ensures
        rebound(inp, st, v, n).assign.len() == st.assign.len(),
        forall|i: int|
            0 <= i < st.assign.len() && #[trigger] st.assign[i] is Some ==> rebound(
                inp,
                st,
                v,
                n,
            ).assign[i] == st.assign[i],
    decreases n,
{
    if n > 0 {
        rebound_keeps(inp, st, v, n - 1);
    }
}

/// The first `n` bindings that gave a new block the id of an old one: the id, and the
/// bits of the score.
pub open spec fn inferred_by(
    bindings: Seq<Rebound>,
    ids: Seq<Uuid>,
    old_ids: Seq<Uuid>,
    n: int,
) -> Seq<(Uuid, u32)>
    decreases n,
{
    if n <= 0 {
        Seq::empty()
    } else {
        let b = bindings[n - 1];
        let before = inferred_by(bindings, ids, old_ids, n - 1);
        if b.new_idx < ids.len() && b.old_idx < old_ids.len() && ids[b.new_idx as int]
            == old_ids[b.old_idx as int] {
            before.push((ids[b.new_idx as int], b.score))
        } else {
            before
        }
    }
}

/// Which ids were inferred, and with what score: a carry by a rule records none.
pub fn inferred(bindings: &Vec<Rebound>, ids: &Vec<Uuid>, old_ids: &Vec<Uuid>) -> (r: Vec<
    (Uuid, u32),
>)
    ensures
        r@ == inferred_by(bindings@, ids@, old_ids@, bindings.len() as int),
{
    let mut out: Vec<(Uuid, u32)> = Vec::new();
    let mut i: usize = 0;
    while i < bindings.len()
        invariant
            i <= bindings.len(),
            out@ == inferred_by(bindings@, ids@, old_ids@, i as int),
        decreases bindings.len() - i,
    {
        let b = bindings[i];
        if b.new_idx < ids.len() && b.old_idx < old_ids.len() && ids[b.new_idx]
            == old_ids[b.old_idx] {
            out.push((ids[b.new_idx], b.score));
        }
        i += 1;
    }
    out
}

// ---- words ----

proof fn words_at_start(a: Seq<char>, b: Seq<char>, n: int)
    requires
        0 <= n <= a.len(),
    ensures
        words_at(a + b, n) == words_at(a, n),
    decreases n,
{
    if n > 0 {
        words_at_start(a, b, n - 1);
        assert((a + b)[n - 1] == a[n - 1]);
    }
}

proof fn words_after(a: Seq<char>, c: char, b: Seq<char>, n: int)
    requires
        !is_alnum(c),
        0 <= n <= b.len(),
    ensures
        words_at(a + seq![c] + b, a.len() + 1 + n) == (
            words(a) + words_at(b, n).0,
            words_at(b, n).1,
        ),
    decreases n,
{
    let s = a + seq![c] + b;
    if n == 0 {
        assert(s =~= a + (seq![c] + b));
        words_at_start(a, seq![c] + b, a.len() as int);
        assert(s[a.len() as int] == c);
        assert(words(a) + Seq::<Seq<char>>::empty() =~= words(a));
    } else {
        words_after(a, c, b, n - 1);
        assert(s[a.len() + n] == b[n - 1]);
        let (done, word) = words_at(b, n - 1);
        assert(words(a) + done.push(word) =~= (words(a) + done).push(word));
    }
}

proof fn one_word(s: Seq<char>, n: int)
    requires
        0 <= n <= s.len(),
        forall|k: int| 0 <= k < s.len() ==> is_alnum(#[trigger] s[k]),
    ensures
        words_at(s, n) == (Seq::<Seq<char>>::empty(), s.take(n)),
    decreases n,
{
    if n > 0 {
        one_word(s, n - 1);
        assert(is_alnum(s[n - 1]));
        assert(s.take(n) =~= s.take(n - 1).push(s[n - 1]));
    } else {
        assert(s.take(0) =~= Seq::empty());
    }
}

/// Letters and digits alone are one word, and nothing is none; any other character
/// parts the words before it from those after it, and is in none.
pub proof fn words_are_runs(a: Seq<char>, c: char, b: Seq<char>)
    ensures
        (forall|k: int| 0 <= k < a.len() ==> is_alnum(#[trigger] a[k])) ==> words(a) == (if a.len()
            == 0 {
            Seq::<Seq<char>>::empty()
        } else {
            seq![a]
        }),
        !is_alnum(c) ==> words(a + seq![c] + b) == words(a) + words(b),
{
    if forall|k: int| 0 <= k < a.len() ==> is_alnum(#[trigger] a[k]) {
        one_word(a, a.len() as int);
        assert(a.take(a.len() as int) =~= a);
        assert(words(a) =~= if a.len() == 0 {
            Seq::<Seq<char>>::empty()
        } else {
            seq![a]
        });
    }
    if !is_alnum(c) {
        let s = a + seq![c] + b;
        words_after(a, c, b, b.len() as int);
        assert(s.len() == a.len() + 1 + b.len());
        let (done, word) = words_at(b, b.len() as int);
        assert(words(a) + done.push(word) =~= (words(a) + done).push(word));
    }
}

// ---- what is left to bind ----

proof fn unused_are(used: Seq<bool>, n: int)
    requires
        0 <= n <= used.len() <= usize::MAX,
    ensures
        strictly_ascending(unused(used, n)),
        forall|k: int| 0 <= k < unused(used, n).len() ==> #[trigger] unused(used, n)[k] < n,
        forall|i: usize| #[trigger] unused(used, n).contains(i) <==> i < n && !used[i as int],
    decreases n,
{
    if n > 0 {
        unused_are(used, n - 1);
        let old = unused(used, n - 1);
        let new = unused(used, n);
        assert forall|i: usize| #[trigger] new.contains(i) <==> i < n && !used[i as int] by {
            if new.contains(i) {
                let k = new.index_of(i);
                if k < old.len() {
                    assert(old[k] == i);
                    assert(old.contains(i));
                }
            }
            if i < n && !used[i as int] {
                if i < n - 1 {
                    assert(old.contains(i));
                    let k = old.index_of(i);
                    assert(new[k] == i);
                } else {
                    assert(new[old.len() as int] == i);
                }
            }
        }
    }
}

proof fn unassigned_are(assign: Seq<Option<Uuid>>, n: int)
    requires
        0 <= n <= assign.len() <= usize::MAX,
    ensures
        strictly_ascending(unassigned_slots(assign, n)),
        forall|k: int|
            0 <= k < unassigned_slots(assign, n).len() ==> #[trigger] unassigned_slots(assign, n)[k]
                < n,
        forall|i: usize| #[trigger]
            unassigned_slots(assign, n).contains(i) <==> i < n && assign[i as int] is None,
    decreases n,
{
    if n > 0 {
        unassigned_are(assign, n - 1);
        let old = unassigned_slots(assign, n - 1);
        let new = unassigned_slots(assign, n);
        assert forall|i: usize| #[trigger] new.contains(i) <==> i < n && assign[i as int]
            is None by {
            if new.contains(i) {
                let k = new.index_of(i);
                if k < old.len() {
                    assert(old[k] == i);
                    assert(old.contains(i));
                }
            }
            if i < n && assign[i as int] is None {
                if i < n - 1 {
                    assert(old.contains(i));
                    let k = old.index_of(i);
                    assert(new[k] == i);
                } else {
                    assert(new[old.len() as int] == i);
                }
            }
        }
    }
}

/// What is left to bind are all the old blocks that nothing carried and all the new ones
/// that have no id, in order.
pub proof fn nothing_is_left_out(used: Seq<bool>, assign: Seq<Option<Uuid>>)
    requires
        used.len() <= usize::MAX,
        assign.len() <= usize::MAX,
    ensures
        ({
            let old = unused(used, used.len() as int);
            let new = unassigned_slots(assign, assign.len() as int);
            &&& strictly_ascending(old)
            &&& strictly_ascending(new)
            &&& forall|i: usize| #[trigger]
                old.contains(i) <==> i < used.len() && !used[i as int]
            &&& forall|i: usize| #[trigger]
                new.contains(i) <==> i < assign.len() && assign[i as int] is None
        }),
{
    unused_are(used, used.len() as int);
    unassigned_are(assign, assign.len() as int);
}

} // verus!
