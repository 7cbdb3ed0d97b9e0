//! Edit scripts: how an older list is rebuilt from the newer one.
//!
//! A script is packed integers: `0, start, len` keeps a run of the newer list,
//! `1, count` takes the next items of the payload literally.

use vstd::prelude::*;
use vstd::string::*;

use crate::ids::Uuid;

verus! {

/// KEEP: copy `len` items of the newer list from `start`.
pub const OP_KEEP: i32 = 0;

/// INS: take the next `count` items of the payload.
pub const OP_INS: i32 = 1;

/// How many items two lists have in common at their start.
pub open spec fn prefix_len<T>(a: Seq<T>, b: Seq<T>) -> nat
    decreases a.len(),
{
    if a.len() > 0 && b.len() > 0 && a[0] == b[0] {
        1 + prefix_len(a.drop_first(), b.drop_first())
    } else {
        0
    }
}

/// How many items two lists have in common at their end.
pub open spec fn suffix_len<T>(a: Seq<T>, b: Seq<T>) -> nat
    decreases a.len(),
{
    if a.len() > 0 && b.len() > 0 && a.last() == b.last() {
        1 + suffix_len(a.drop_last(), b.drop_last())
    } else {
        0
    }
}

/// How many items the lists share at the start, and then at the end of what is
/// left.
pub open spec fn shared<T>(new: Seq<T>, old: Seq<T>) -> (int, int) {
    let p = prefix_len(new, old) as int;
    (p, suffix_len(new.skip(p), old.skip(p)) as int)
}

/// The instructions that rebuild a list of `old` items from one of `new`, given
/// what they share.
pub open spec fn script_ops(new: int, old: int, p: int, s: int) -> Seq<i32> {
    (if p > 0 {
        seq![OP_KEEP, 0i32, p as i32]
    } else {
        Seq::empty()
    }) + (if old - p - s > 0 {
        seq![OP_INS, (old - p - s) as i32]
    } else {
        Seq::empty()
    }) + (if s > 0 {
        seq![OP_KEEP, (new - s) as i32, s as i32]
    } else {
        Seq::empty()
    })
}

pub open spec fn ops_between<T>(new: Seq<T>, old: Seq<T>) -> Seq<i32> {
    let (p, s) = shared(new, old);
    script_ops(new.len() as int, old.len() as int, p, s)
}

pub open spec fn payload_between<T>(new: Seq<T>, old: Seq<T>) -> Seq<T> {
    let (p, s) = shared(new, old);
    old.subrange(p, old.len() - s)
}

pub proof fn prefix_facts<T>(a: Seq<T>, b: Seq<T>)
    ensures
        prefix_len(a, b) <= a.len(),
        prefix_len(a, b) <= b.len(),
        forall|i: int| 0 <= i < prefix_len(a, b) ==> #[trigger] a[i] == b[i],
        prefix_len(a, b) < a.len() && prefix_len(a, b) < b.len() ==> a[prefix_len(a, b) as int]
            != b[prefix_len(a, b) as int],
    decreases a.len(),
{
    if a.len() > 0 && b.len() > 0 && a[0] == b[0] {
        let x = a.drop_first();
        let y = b.drop_first();
        prefix_facts(x, y);
        assert forall|i: int| 0 <= i < prefix_len(a, b) implies #[trigger] a[i] == b[i] by {
            if i > 0 {
                assert(x[i - 1] == y[i - 1]);
            }
        }
    }
}

pub proof fn prefix_is<T>(a: Seq<T>, b: Seq<T>, n: int)
    requires
        0 <= n <= a.len(),
        n <= b.len(),
        forall|i: int| 0 <= i < n ==> #[trigger] a[i] == b[i],
        n < a.len() && n < b.len() ==> a[n] != b[n],
    ensures
        prefix_len(a, b) == n,
{
    prefix_facts(a, b);
    let k = prefix_len(a, b) as int;
    if k < n {
        assert(a[k] == b[k]);
    } else if n < k {
        assert(a[n] == b[n]);
    }
}

pub proof fn suffix_facts<T>(a: Seq<T>, b: Seq<T>)
    ensures
        suffix_len(a, b) <= a.len(),
        suffix_len(a, b) <= b.len(),
        forall|i: int|
            0 <= i < suffix_len(a, b) ==> #[trigger] a[a.len() - 1 - i] == b[b.len() - 1 - i],
        suffix_len(a, b) < a.len() && suffix_len(a, b) < b.len() ==> a[a.len() - 1 - suffix_len(
            a,
            b,
        )] != b[b.len() - 1 - suffix_len(a, b)],
    decreases a.len(),
{
    if a.len() > 0 && b.len() > 0 && a.last() == b.last() {
        let x = a.drop_last();
        let y = b.drop_last();
        suffix_facts(x, y);
        assert forall|i: int| 0 <= i < suffix_len(a, b) implies #[trigger] a[a.len() - 1 - i]
            == b[b.len() - 1 - i] by {
            if i > 0 {
                assert(x[x.len() - 1 - (i - 1)] == y[y.len() - 1 - (i - 1)]);
            }
        }
    }
}

pub proof fn suffix_is<T>(a: Seq<T>, b: Seq<T>, n: int)
    requires
        0 <= n <= a.len(),
        n <= b.len(),
        forall|i: int| 0 <= i < n ==> #[trigger] a[a.len() - 1 - i] == b[b.len() - 1 - i],
        n < a.len() && n < b.len() ==> a[a.len() - 1 - n] != b[b.len() - 1 - n],
    ensures
        suffix_len(a, b) == n,
{
    suffix_facts(a, b);
    let k = suffix_len(a, b) as int;
    if k < n {
        assert(a[a.len() - 1 - k] == b[b.len() - 1 - k]);
    } else if n < k {
        assert(a[a.len() - 1 - n] == b[b.len() - 1 - n]);
    }
}

/// The instructions for given shared runs.
fn make_ops(new: usize, old: usize, p: usize, s: usize) -> (r: Vec<i32>)
    requires
        p + s <= new <= i32::MAX,
        p + s <= old <= i32::MAX,
    ensures
        r@ == script_ops(new as int, old as int, p as int, s as int),
{
    let mut ops: Vec<i32> = Vec::new();
    if p > 0 {
        ops.push(OP_KEEP);
        ops.push(0);
        ops.push(p as i32);
    }
    let ghost head = ops@;
    assert(head =~= (if p > 0 {
        seq![OP_KEEP, 0i32, p as i32]
    } else {
        Seq::empty()
    }));
    if old - p - s > 0 {
        ops.push(OP_INS);
        ops.push((old - p - s) as i32);
    }
    let ghost mid = ops@;
    assert(mid =~= head + (if old - p - s > 0 {
        seq![OP_INS, (old - p - s) as i32]
    } else {
        Seq::empty()
    }));
    if s > 0 {
        ops.push(OP_KEEP);
        ops.push((new - s) as i32);
        ops.push(s as i32);
    }
    assert(ops@ =~= script_ops(new as int, old as int, p as int, s as int));
    ops
}

/// A script over texts.
#[derive(Debug)]
pub struct TextScript {
    pub ops: Vec<i32>,
    pub payload: Vec<String>,
}

/// A script over ids.
#[derive(Debug)]
pub struct IdScript {
    pub ops: Vec<i32>,
    pub payload: Vec<Uuid>,
}

/// The script that rebuilds the old texts from the new ones. Linear: exact for
/// edits of one region, and the changed middle literally otherwise.
pub fn diff_texts(new: &Vec<String>, old: &Vec<String>) -> (r: TextScript)
    requires
        new.len() <= i32::MAX,
        old.len() <= i32::MAX,
    ensures
        r.ops@ == ops_between(new.deep_view(), old.deep_view()),
        r.payload.deep_view() == payload_between(new.deep_view(), old.deep_view()),
{
    let ghost a = new.deep_view();
    let ghost b = old.deep_view();
    let max: usize = if new.len() < old.len() {
        new.len()
    } else {
        old.len()
    };
    let mut p: usize = 0;
    while p < max && new[p] == old[p]
        invariant
            p <= max <= new.len(),
            max <= old.len(),
            a == new.deep_view(),
            b == old.deep_view(),
            forall|i: int| 0 <= i < p ==> #[trigger] a[i] == b[i],
        decreases max - p,
    {
        assert(a[p as int] == b[p as int]);
        p += 1;
    }
    proof {
        if p < max {
            assert(a[p as int] != b[p as int]);
        }
        prefix_is(a, b, p as int);
    }
    let ghost x = a.skip(p as int);
    let ghost y = b.skip(p as int);
    let mut s: usize = 0;
    while s < max - p && new[new.len() - 1 - s] == old[old.len() - 1 - s]
        invariant
            p + s <= max <= new.len(),
            max <= old.len(),
            a == new.deep_view(),
            b == old.deep_view(),
            x == a.skip(p as int),
            y == b.skip(p as int),
            forall|i: int| 0 <= i < s ==> #[trigger] x[x.len() - 1 - i] == y[y.len() - 1 - i],
        decreases max - p - s,
    {
        assert(x[x.len() - 1 - s] == new[new.len() - 1 - s]@);
        assert(y[y.len() - 1 - s] == old[old.len() - 1 - s]@);
        s += 1;
    }
    proof {
        if s < max - p {
            assert(x[x.len() - 1 - s] == new[new.len() - 1 - s]@);
            assert(y[y.len() - 1 - s] == old[old.len() - 1 - s]@);
        }
        suffix_is(x, y, s as int);
    }
    let mut payload: Vec<String> = Vec::new();
    let mut i: usize = p;
    while i < old.len() - s
        invariant
            p <= i <= old.len() - s,
            p + s <= old.len(),
            payload.len() == i - p,
            forall|k: int| 0 <= k < payload.len() ==> (#[trigger] payload[k])@ == old[p + k]@,
        decreases old.len() - s - i,
    {
        payload.push(old[i].clone());
        i += 1;
    }
    assert(payload.deep_view() =~= payload_between(a, b));
    TextScript { ops: make_ops(new.len(), old.len(), p, s), payload }
}

/// The script that rebuilds the old ids from the new ones.
pub fn diff_ids(new: &Vec<Uuid>, old: &Vec<Uuid>) -> (r: IdScript)
    requires
        new.len() <= i32::MAX,
        old.len() <= i32::MAX,
    ensures
        r.ops@ == ops_between(new@, old@),
        r.payload@ == payload_between(new@, old@),
{
    let ghost a = new@;
    let ghost b = old@;
    let max: usize = if new.len() < old.len() {
        new.len()
    } else {
        old.len()
    };
    let mut p: usize = 0;
    while p < max && new[p] == old[p]
        invariant
            p <= max <= new.len(),
            max <= old.len(),
            a == new@,
            b == old@,
            forall|i: int| 0 <= i < p ==> #[trigger] a[i] == b[i],
        decreases max - p,
    {
        p += 1;
    }
    proof {
        prefix_is(a, b, p as int);
    }
    let ghost x = a.skip(p as int);
    let ghost y = b.skip(p as int);
    let mut s: usize = 0;
    while s < max - p && new[new.len() - 1 - s] == old[old.len() - 1 - s]
        invariant
            p + s <= max <= new.len(),
            max <= old.len(),
            a == new@,
            b == old@,
            x == a.skip(p as int),
            y == b.skip(p as int),
            forall|i: int| 0 <= i < s ==> #[trigger] x[x.len() - 1 - i] == y[y.len() - 1 - i],
        decreases max - p - s,
    {
        s += 1;
    }
    proof {
        suffix_is(x, y, s as int);
    }
    let mut payload: Vec<Uuid> = Vec::new();
    let mut i: usize = p;
    while i < old.len() - s
        invariant
            p <= i <= old.len() - s,
            p + s <= old.len(),
            payload.len() == i - p,
            forall|k: int| 0 <= k < payload.len() ==> #[trigger] payload[k] == old[p + k],
        decreases old.len() - s - i,
    {
        payload.push(old[i]);
        i += 1;
    }
    assert(payload@ =~= payload_between(a, b));
    IdScript { ops: make_ops(new.len(), old.len(), p, s), payload }
}

/// Where an item of the rebuilt list comes from.
#[derive(Debug, Clone, Copy, PartialEq, Eq, Structural)]
pub enum Pick {
    /// From the newer list.
    Keep(usize),
    /// From the payload.
    Ins(usize),
}

pub open spec fn keeps(start: int, len: int) -> Seq<Pick> {
    Seq::new(len as nat, |i: int| Pick::Keep((start + i) as usize))
}

pub open spec fn inserts(start: int, len: int) -> Seq<Pick> {
    Seq::new(len as nat, |i: int| Pick::Ins((start + i) as usize))
}

/// What the instructions from `i` on pick, with `used` payload items taken;
/// None if the script is corrupt.
pub open spec fn picks(ops: Seq<i32>, i: int, used: int, newer: int, payload: int) -> Option<
    Seq<Pick>,
>
    decreases ops.len() - i,
{
    if i < 0 || i >= ops.len() {
        Some(Seq::empty())
    } else if ops[i] == OP_KEEP {
        if i + 2 < ops.len() && ops[i + 1] >= 0 && ops[i + 2] >= 0 && ops[i + 1] + ops[i + 2]
            <= newer {
            match picks(ops, i + 3, used, newer, payload) {
                Some(rest) => Some(keeps(ops[i + 1] as int, ops[i + 2] as int) + rest),
                None => None,
            }
        } else {
            None
        }
    } else if ops[i] == OP_INS {
        if i + 1 < ops.len() && ops[i + 1] >= 0 && used + ops[i + 1] <= payload {
            match picks(ops, i + 2, used + ops[i + 1], newer, payload) {
                Some(rest) => Some(inserts(used, ops[i + 1] as int) + rest),
                None => None,
            }
        } else {
            None
        }
    } else {
        None
    }
}

/// The picked items.
pub open spec fn picked<T>(p: Seq<Pick>, newer: Seq<T>, payload: Seq<T>) -> Seq<T> {
    Seq::new(
        p.len(),
        |i: int|
            match p[i] {
                Pick::Keep(j) => newer[j as int],
                Pick::Ins(j) => payload[j as int],
            },
    )
}

/// The older list that a script rebuilds; None if the script is corrupt.
pub open spec fn rebuilt<T>(newer: Seq<T>, ops: Seq<i32>, payload: Seq<T>) -> Option<Seq<T>> {
    match picks(ops, 0, 0, newer.len() as int, payload.len() as int) {
        Some(p) => Some(picked(p, newer, payload)),
        None => None,
    }
}

/// Every pick names an item that there is.
pub open spec fn picks_fit(p: Seq<Pick>, newer: int, payload: int) -> bool {
    forall|i: int|
        0 <= i < p.len() ==> match #[trigger] p[i] {
            Pick::Keep(j) => j < newer,
            Pick::Ins(j) => j < payload,
        }
}

/// Reads a script: where each item comes from, None if it is corrupt.
pub fn read_script(ops: &Vec<i32>, newer: usize, payload: usize) -> (r: Option<Vec<Pick>>)
    ensures
        match r {
            Some(p) => {
                &&& picks(ops@, 0, 0, newer as int, payload as int) == Some(p@)
                &&& picks_fit(p@, newer as int, payload as int)
            },
            None => picks(ops@, 0, 0, newer as int, payload as int) is None,
        },
{
    let mut out: Vec<Pick> = Vec::new();
    let mut i: usize = 0;
    let mut used: usize = 0;
    let ghost goal = picks(ops@, 0, 0, newer as int, payload as int);
    proof {
        if goal is Some {
            assert(out@ + goal->0 =~= goal->0);
        }
    }
    while i < ops.len()
        invariant
            i <= ops.len(),
            used <= payload,
            picks_fit(out@, newer as int, payload as int),
            goal == picks(ops@, 0, 0, newer as int, payload as int),
            ({
                let rest = picks(ops@, i as int, used as int, newer as int, payload as int);
                goal == (match rest {
                    Some(p) => Some(out@ + p),
                    None => None,
                })
            }),
        decreases ops.len() - i,
    {
        let ghost before = out@;
        if ops[i] == OP_KEEP {
            if !(ops.len() - i > 2 && ops[i + 1] >= 0 && ops[i + 2] >= 0) {
                return None;
            }
            let start: usize = ops[i + 1] as usize;
            let len: usize = ops[i + 2] as usize;
            if start > newer || len > newer - start {
                return None;
            }
            let mut k: usize = 0;
            assert(out@ =~= before + keeps(start as int, 0));
            while k < len
                invariant
                    k <= len,
                    start + len <= newer,
                    out@ == before + keeps(start as int, k as int),
                    picks_fit(out@, newer as int, payload as int),
                decreases len - k,
            {
                out.push(Pick::Keep(start + k));
                k += 1;
                assert(out@ =~= before + keeps(start as int, k as int));
            }
            proof {
                let rest = picks(ops@, i + 3, used as int, newer as int, payload as int);
                if rest is Some {
                    assert(before + (keeps(start as int, len as int) + rest->0) =~= out@ + rest->0);
                }
            }
            i += 3;
        } else if ops[i] == OP_INS {
            if !(ops.len() - i > 1 && ops[i + 1] >= 0) {
                return None;
            }
            let count: usize = ops[i + 1] as usize;
            if count > payload - used {
                return None;
            }
            let mut k: usize = 0;
            assert(out@ =~= before + inserts(used as int, 0));
            while k < count
                invariant
                    k <= count,
                    used + count <= payload,
                    out@ == before + inserts(used as int, k as int),
                    picks_fit(out@, newer as int, payload as int),
                decreases count - k,
            {
                out.push(Pick::Ins(used + k));
                k += 1;
                assert(out@ =~= before + inserts(used as int, k as int));
            }
            proof {
                let rest = picks(ops@, i + 2, used + count, newer as int, payload as int);
                if rest is Some {
                    assert(before + (inserts(used as int, count as int) + rest->0) =~= out@
                        + rest->0);
                }
            }
            used += count;
            i += 2;
        } else {
            return None;
        }
    }
    proof {
        assert(out@ + Seq::<Pick>::empty() =~= out@);
    }
    Some(out)
}

/// Rebuilds the older texts; None if the script is corrupt.
pub fn apply_texts(newer: &Vec<String>, ops: &Vec<i32>, payload: &Vec<String>) -> (r: Option<
    Vec<String>,
>)
    ensures
        match r {
            Some(v) => rebuilt(newer.deep_view(), ops@, payload.deep_view()) == Some(v.deep_view()),
            None => rebuilt(newer.deep_view(), ops@, payload.deep_view()) is None,
        },
{
    let p = match read_script(ops, newer.len(), payload.len()) {
        Some(p) => p,
        None => {
            return None;
        },
    };
    let mut out: Vec<String> = Vec::new();
    let mut i: usize = 0;
    while i < p.len()
        invariant
            i <= p.len(),
            out.len() == i,
            picks_fit(p@, newer.len() as int, payload.len() as int),
            forall|k: int|
                0 <= k < i ==> (#[trigger] out[k])@ == picked(
                    p@,
                    newer.deep_view(),
                    payload.deep_view(),
                )[k],
        decreases p.len() - i,
    {
        assert(match p@[i as int] {
            Pick::Keep(j) => j < newer.len(),
            Pick::Ins(j) => j < payload.len(),
        });
        match p[i] {
            Pick::Keep(j) => {
                out.push(newer[j].clone());
            },
            Pick::Ins(j) => {
                out.push(payload[j].clone());
            },
        }
        i += 1;
    }
    assert(out.deep_view() =~= picked(p@, newer.deep_view(), payload.deep_view()));
    Some(out)
}

/// Rebuilds the older ids; None if the script is corrupt.
pub fn apply_ids(newer: &Vec<Uuid>, ops: &Vec<i32>, payload: &Vec<Uuid>) -> (r: Option<Vec<Uuid>>)
    ensures
        match r {
            Some(v) => rebuilt(newer@, ops@, payload@) == Some(v@),
            None => rebuilt(newer@, ops@, payload@) is None,
        },
{
    let p = match read_script(ops, newer.len(), payload.len()) {
        Some(p) => p,
        None => {
            return None;
        },
    };
    let mut out: Vec<Uuid> = Vec::new();
    let mut i: usize = 0;
    while i < p.len()
        invariant
            i <= p.len(),
            out.len() == i,
            picks_fit(p@, newer.len() as int, payload.len() as int),
            forall|k: int| 0 <= k < i ==> #[trigger] out[k] == picked(p@, newer@, payload@)[k],
        decreases p.len() - i,
    {
        assert(match p@[i as int] {
            Pick::Keep(j) => j < newer.len(),
            Pick::Ins(j) => j < payload.len(),
        });
        match p[i] {
            Pick::Keep(j) => {
                out.push(newer[j]);
            },
            Pick::Ins(j) => {
                out.push(payload[j]);
            },
        }
        i += 1;
    }
    assert(out@ =~= picked(p@, newer@, payload@));
    Some(out)
}

/// What a script for given shared runs picks.
spec fn all_picks(n: int, m: int, p: int, s: int) -> Seq<Pick> {
    keeps(0, p) + (inserts(0, m - p - s) + keeps(n - s, s))
}

proof fn tail_picks(n: int, m: int, p: int, s: int)
    requires
        0 <= p,
        0 <= s,
        p + s <= n <= i32::MAX,
        p + s <= m <= i32::MAX,
    ensures
        ({
            let at = (if p > 0 {
                3int
            } else {
                0
            }) + (if m - p - s > 0 {
                2int
            } else {
                0
            });
            picks(script_ops(n, m, p, s), at, m - p - s, n, m - p - s) == Some(keeps(n - s, s))
        }),
{
    let ops = script_ops(n, m, p, s);
    let at = (if p > 0 {
        3int
    } else {
        0
    }) + (if m - p - s > 0 {
        2int
    } else {
        0
    });
    if s > 0 {
        assert(ops[at] == OP_KEEP);
        assert(ops[at + 1] == n - s);
        assert(ops[at + 2] == s);
        assert(picks(ops, at + 3, m - p - s, n, m - p - s) == Some(Seq::<Pick>::empty()));
        assert(keeps(n - s, s) + Seq::<Pick>::empty() =~= keeps(n - s, s));
    } else {
        assert(ops.len() == at);
        assert(keeps(n - s, s) =~= Seq::<Pick>::empty());
    }
}

proof fn middle_picks(n: int, m: int, p: int, s: int)
    requires
        0 <= p,
        0 <= s,
        p + s <= n <= i32::MAX,
        p + s <= m <= i32::MAX,
    ensures
        picks(
            script_ops(n, m, p, s),
            if p > 0 {
                3
            } else {
                0
            },
            0,
            n,
            m - p - s,
        ) == Some(inserts(0, m - p - s) + keeps(n - s, s)),
{
    let ops = script_ops(n, m, p, s);
    let at = if p > 0 {
        3int
    } else {
        0
    };
    tail_picks(n, m, p, s);
    if m - p - s > 0 {
        assert(ops[at] == OP_INS);
        assert(ops[at + 1] == m - p - s);
    } else {
        assert(inserts(0, 0) + keeps(n - s, s) =~= keeps(n - s, s));
    }
}

proof fn script_picks(n: int, m: int, p: int, s: int)
    requires
        0 <= p,
        0 <= s,
        p + s <= n <= i32::MAX,
        p + s <= m <= i32::MAX,
    ensures
        picks(script_ops(n, m, p, s), 0, 0, n, m - p - s) == Some(all_picks(n, m, p, s)),
{
    let ops = script_ops(n, m, p, s);
    middle_picks(n, m, p, s);
    if p > 0 {
        assert(ops[0] == OP_KEEP);
        assert(ops[1] == 0);
        assert(ops[2] == p);
    } else {
        let rest = inserts(0, m - p - s) + keeps(n - s, s);
        assert(keeps(0, 0) + rest =~= rest);
    }
}

/// A script undoes the change that it was made from: applied to the new list it
/// gives back the old one.
pub proof fn script_undoes<T>(new: Seq<T>, old: Seq<T>)
    requires
        new.len() <= i32::MAX,
        old.len() <= i32::MAX,
    ensures
        rebuilt(new, ops_between(new, old), payload_between(new, old)) == Some(old),
{
    let (p, s) = shared(new, old);
    let n = new.len() as int;
    let m = old.len() as int;
    let x = new.skip(p);
    let y = old.skip(p);
    prefix_facts(new, old);
    suffix_facts(x, y);
    script_picks(n, m, p, s);
    let payload = payload_between(new, old);
    let all = all_picks(n, m, p, s);
    let got = picked(all, new, payload);
    assert(got.len() == m);
    assert forall|i: int| 0 <= i < m implies got[i] == old[i] by {
        if i < p {
            assert(all[i] == Pick::Keep(i as usize));
            assert(new[i] == old[i]);
        } else if i < m - s {
            assert(all[i] == Pick::Ins((i - p) as usize));
            assert(payload[i - p] == old[i]);
        } else {
            let k = m - 1 - i;
            assert(all[i] == Pick::Keep((n - 1 - k) as usize));
            assert(x[x.len() - 1 - k] == y[y.len() - 1 - k]);
            assert(x[x.len() - 1 - k] == new[n - 1 - k]);
            assert(y[y.len() - 1 - k] == old[m - 1 - k]);
        }
    }
    assert(got =~= old);
}

} // verus!
