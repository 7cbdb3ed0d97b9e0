//! Identity carry: which blocks of a new parse keep the ids of old ones.
//!
//! Pass 1 carries by `^id` claims, pass 2 by equal content (first within the
//! same section, then anywhere), pass 3 mints what is left.

use vstd::prelude::*;
use vstd::string::*;

use crate::document::{Block, BlockView};
use crate::ids::Uuid;
use crate::store::{bytes_eq, BlockRow, RowView};
use crate::text::str_eq;

verus! {

/// One carry candidate: the same view whether it came from a stored row or
/// from a fresh parse.
pub struct CarrySrc<'a> {
    pub block_ref_id: Option<&'a str>,
    pub content_hash: &'a [u8],
    pub heading_path: &'a Vec<String>,
    pub kind: &'a str,
    pub content: &'a str,
}

/// What a carry candidate is.
pub ghost struct SrcView {
    pub block_ref_id: Option<Seq<char>>,
    pub content_hash: Seq<u8>,
    pub heading_path: Seq<Seq<char>>,
    pub kind: Seq<char>,
    pub content: Seq<char>,
}

impl<'a> DeepView for CarrySrc<'a> {
    type V = SrcView;

    open spec fn deep_view(&self) -> SrcView {
        SrcView {
            block_ref_id: match self.block_ref_id {
                Some(s) => Some(s@),
                None => None,
            },
            content_hash: self.content_hash@,
            heading_path: self.heading_path.deep_view(),
            kind: self.kind@,
            content: self.content@,
        }
    }
}

pub open spec fn src_of_row(b: RowView) -> SrcView {
    SrcView {
        block_ref_id: b.block_ref_id,
        content_hash: b.content_hash,
        heading_path: b.heading_path,
        kind: b.kind,
        content: b.content,
    }
}

pub open spec fn src_of_block(b: BlockView) -> SrcView {
    SrcView {
        block_ref_id: b.block_ref_id,
        content_hash: b.content_hash,
        heading_path: b.heading_path,
        kind: b.kind.name(),
        content: b.normalized_content,
    }
}

impl<'a> CarrySrc<'a> {
    /// The candidate that a stored row is.
    pub fn from_row(b: &'a BlockRow) -> (r: Self)
        ensures
            r.deep_view() == src_of_row(b.deep_view()),
    {
        CarrySrc {
            block_ref_id: match &b.block_ref_id {
                Some(s) => Some(s.as_str()),
                None => None,
            },
            content_hash: b.content_hash.as_slice(),
            heading_path: &b.heading_path,
            kind: b.kind.as_str(),
            content: b.content.as_str(),
        }
    }

    /// The candidate that a parsed block is.
    pub fn from_block(b: &'a Block) -> (r: Self)
        ensures
            r.deep_view() == src_of_block(b.deep_view()),
    {
        CarrySrc {
            block_ref_id: match &b.block_ref_id {
                Some(s) => Some(s.as_str()),
                None => None,
            },
            content_hash: vstd::array::array_as_slice(&b.content_hash),
            heading_path: &b.heading_path,
            kind: b.kind.tag(),
            content: b.normalized_content.as_str(),
        }
    }
}

/// The candidates that the carry passes read.
pub struct CarryInput<'a> {
    pub old: &'a Vec<CarrySrc<'a>>,
    pub new: &'a Vec<CarrySrc<'a>>,
    pub old_ids: &'a Vec<Uuid>,
}

/// What the carry passes read.
pub ghost struct InputView {
    pub old: Seq<SrcView>,
    pub new: Seq<SrcView>,
    pub old_ids: Seq<Uuid>,
}

impl<'a> DeepView for CarryInput<'a> {
    type V = InputView;

    open spec fn deep_view(&self) -> InputView {
        InputView {
            old: self.old.deep_view(),
            new: self.new.deep_view(),
            old_ids: self.old_ids@,
        }
    }
}

impl InputView {
    /// Every old block has an id of its own.
    pub open spec fn ok(self) -> bool {
        &&& self.old.len() == self.old_ids.len()
        &&& self.old_ids.no_duplicates()
    }
}

/// How many ids were carried in which way.
pub struct CarryTally {
    pub carried_ref: usize,
    pub carried_hash: usize,
}

/// Assignments gathered across scopes, before minting.
pub struct CarryState {
    pub assign: Vec<Option<Uuid>>,
    pub old_used: Vec<bool>,
    pub tally: CarryTally,
}

/// What has been assigned.
pub ghost struct CarryView {
    pub assign: Seq<Option<Uuid>>,
    pub old_used: Seq<bool>,
    pub by_ref: int,
    pub by_hash: int,
}

impl DeepView for CarryState {
    type V = CarryView;

    open spec fn deep_view(&self) -> CarryView {
        CarryView {
            assign: self.assign@,
            old_used: self.old_used@,
            by_ref: self.tally.carried_ref as int,
            by_hash: self.tally.carried_hash as int,
        }
    }
}

/// How many slots are assigned.
pub open spec fn assigned(assign: Seq<Option<Uuid>>) -> nat
    decreases assign.len(),
{
    if assign.len() == 0 {
        0
    } else {
        assigned(assign.drop_last()) + (if assign.last() is Some {
            1nat
        } else {
            0
        })
    }
}

/// Block `n` carries the id of old block `o`.
pub open spec fn carries(inp: InputView, assign: Seq<Option<Uuid>>, n: int, o: int) -> bool {
    assign[n] == Some(inp.old_ids[o])
}

impl CarryView {
    /// Only ids of used old blocks are assigned, each used one to one block.
    pub open spec fn ok(self, inp: InputView) -> bool {
        &&& self.assign.len() == inp.new.len()
        &&& self.old_used.len() == inp.old.len()
        &&& forall|n: int|
            0 <= n < self.assign.len() && #[trigger] self.assign[n] is Some ==> exists|o: int|
                0 <= o < self.old_used.len() && self.old_used[o] && #[trigger] carries(
                    inp,
                    self.assign,
                    n,
                    o,
                )
        &&& forall|o: int|
            0 <= o < self.old_used.len() && #[trigger] self.old_used[o] ==> exists|n: int|
                0 <= n < self.assign.len() && #[trigger] carries(inp, self.assign, n, o)
        &&& forall|m: int, n: int|
            0 <= m < n < self.assign.len() && self.assign[m] is Some ==> #[trigger] self.assign[m]
                != #[trigger] self.assign[n]
        &&& 0 <= self.by_ref
        &&& 0 <= self.by_hash
        &&& self.by_ref + self.by_hash <= assigned(self.assign)
    }

    /// Block `n` takes the id of old block `o`.
    pub open spec fn bound(self, inp: InputView, n: int, o: int) -> CarryView {
        CarryView {
            assign: self.assign.update(n, Some(inp.old_ids[o])),
            old_used: self.old_used.update(o, true),
            ..self
        }
    }
}

proof fn assigned_update(assign: Seq<Option<Uuid>>, n: int, id: Uuid)
    requires
        0 <= n < assign.len(),
        assign[n] is None,
    ensures
        assigned(assign.update(n, Some(id))) == assigned(assign) + 1,
        assigned(assign) < assign.len(),
    decreases assign.len(),
{
    let next = assign.update(n, Some(id));
    assigned_bound(assign.drop_last());
    if n == assign.len() - 1 {
        assert(next.drop_last() =~= assign.drop_last());
    } else {
        assigned_update(assign.drop_last(), n, id);
        assert(next.drop_last() =~= assign.drop_last().update(n, Some(id)));
    }
}

proof fn assigned_bound(assign: Seq<Option<Uuid>>)
    ensures
        assigned(assign) <= assign.len(),
    decreases assign.len(),
{
    if assign.len() > 0 {
        assigned_bound(assign.drop_last());
    }
}

/// Binding an unassigned block to an unused one keeps the state in order.
pub proof fn bind_keeps_order(inp: InputView, st: CarryView, n: int, o: int)
    requires
        inp.ok(),
        st.ok(inp),
        0 <= n < st.assign.len(),
        0 <= o < st.old_used.len(),
        st.assign[n] is None,
        !st.old_used[o],
    ensures
        st.bound(inp, n, o).ok(inp),
        assigned(st.bound(inp, n, o).assign) == assigned(st.assign) + 1,
        assigned(st.assign) < st.assign.len(),
{
    let next = st.bound(inp, n, o);
    assigned_update(st.assign, n, inp.old_ids[o]);
    assert forall|k: int|
        0 <= k < next.assign.len() && #[trigger] next.assign[k] is Some implies exists|p: int|
        0 <= p < next.old_used.len() && next.old_used[p] && #[trigger] carries(inp, next.assign, k, p) by {
        if k == n {
            assert(carries(inp, next.assign, n, o));
        } else {
            assert(st.assign[k] is Some);
            let p = choose|p: int|
                0 <= p < st.old_used.len() && st.old_used[p] && #[trigger] carries(inp, st.assign, k, p);
            assert(carries(inp, next.assign, k, p));
        }
    }
    assert forall|p: int| 0 <= p < next.old_used.len() && #[trigger] next.old_used[p] implies exists|
        k: int,
    |
        0 <= k < next.assign.len() && #[trigger] carries(inp, next.assign, k, p) by {
        if p == o {
            assert(carries(inp, next.assign, n, o));
        } else {
            assert(st.old_used[p]);
            let k = choose|k: int| 0 <= k < st.assign.len() && #[trigger] carries(inp, st.assign, k, p);
            assert(k != n);
            assert(carries(inp, next.assign, k, p));
        }
    }
    assert forall|a: int, b: int|
        0 <= a < b < next.assign.len() && next.assign[a] is Some implies #[trigger] next.assign[a]
        != #[trigger] next.assign[b] by {
        if a == n || b == n {
            let c = if a == n {
                b
            } else {
                a
            };
            if next.assign[c] == Some(inp.old_ids[o]) {
                assert(st.assign[c] is Some);
                let p = choose|p: int|
                    0 <= p < st.old_used.len() && st.old_used[p] && #[trigger] carries(
                        inp,
                        st.assign,
                        c,
                        p,
                    );
                assert(inp.old_ids[p] == inp.old_ids[o]);
                assert(p == o);
            }
        } else {
            assert(st.assign[a] is Some);
        }
    }
}

/// The first index in the list for which `p` holds.
pub open spec fn first_where(idxs: Seq<usize>, p: spec_fn(int) -> bool) -> Option<int>
    decreases idxs.len(),
{
    if idxs.len() == 0 {
        None
    } else if p(idxs[0] as int) {
        Some(idxs[0] as int)
    } else {
        first_where(idxs.drop_first(), p)
    }
}

proof fn first_where_none(idxs: Seq<usize>, p: spec_fn(int) -> bool)
    requires
        forall|k: int| 0 <= k < idxs.len() ==> !p(#[trigger] idxs[k] as int),
    ensures
        first_where(idxs, p) is None,
    decreases idxs.len(),
{
    if idxs.len() > 0 {
        let t = idxs.drop_first();
        assert(!p(idxs[0] as int));
        assert forall|k: int| 0 <= k < t.len() implies !p(#[trigger] t[k] as int) by {
            assert(t[k] == idxs[k + 1]);
        }
        first_where_none(t, p);
    }
}

proof fn first_where_at(idxs: Seq<usize>, p: spec_fn(int) -> bool, i: int)
    requires
        0 <= i < idxs.len(),
        p(idxs[i] as int),
        forall|k: int| 0 <= k < i ==> !p(#[trigger] idxs[k] as int),
    ensures
        first_where(idxs, p) == Some(idxs[i] as int),
    decreases idxs.len(),
{
    if i > 0 {
        let t = idxs.drop_first();
        assert(!p(idxs[0] as int));
        assert forall|k: int| 0 <= k < i - 1 implies !p(#[trigger] t[k] as int) by {
            assert(t[k] == idxs[k + 1]);
        }
        first_where_at(t, p, i - 1);
    }
}

/// Old block `o` holds the marker `r` and is free in `used`.
pub open spec fn holds(inp: InputView, used: Seq<bool>, r: Seq<char>) -> spec_fn(int) -> bool {
    |o: int| !used[o] && inp.old[o].block_ref_id == Some(r)
}

/// One claim: only the first free holder of a marker can be claimed, and only
/// by the first claimant.
pub open spec fn claim_step(
    inp: InputView,
    old_idxs: Seq<usize>,
    used0: Seq<bool>,
    n: int,
    st: CarryView,
) -> CarryView {
    if st.assign[n] is Some {
        st
    } else {
        match inp.new[n].block_ref_id {
            Some(r) => match first_where(old_idxs, holds(inp, used0, r)) {
                Some(o) => if !st.old_used[o] {
                    CarryView { by_ref: st.by_ref + 1, ..st.bound(inp, n, o) }
                } else {
                    st
                },
                None => st,
            },
            None => st,
        }
    }
}

/// The claims of the first `k` new blocks.
pub open spec fn claimed(
    inp: InputView,
    old_idxs: Seq<usize>,
    new_idxs: Seq<usize>,
    k: int,
    st: CarryView,
) -> CarryView
    decreases k,
{
    if k <= 0 {
        st
    } else {
        claim_step(
            inp,
            old_idxs,
            st.old_used,
            new_idxs[k - 1] as int,
            claimed(inp, old_idxs, new_idxs, k - 1, st),
        )
    }
}

/// Old block `o` is free and has the same content as `src`, and the same
/// section if that counts.
pub open spec fn alike(inp: InputView, used: Seq<bool>, src: SrcView, section: bool) -> spec_fn(
    int,
) -> bool {
    |o: int|
        !used[o] && inp.old[o].content_hash == src.content_hash && (section
            ==> inp.old[o].heading_path == src.heading_path)
}

/// One match by content: the first free block that is alike.
pub open spec fn match_step(
    inp: InputView,
    old_idxs: Seq<usize>,
    section: bool,
    n: int,
    st: CarryView,
) -> CarryView {
    if st.assign[n] is Some {
        st
    } else {
        match first_where(old_idxs, alike(inp, st.old_used, inp.new[n], section)) {
            Some(o) => CarryView { by_hash: st.by_hash + 1, ..st.bound(inp, n, o) },
            None => st,
        }
    }
}

/// The matches by content of the first `k` new blocks: k-th to k-th, in
/// document order.
pub open spec fn matched(
    inp: InputView,
    old_idxs: Seq<usize>,
    new_idxs: Seq<usize>,
    section: bool,
    k: int,
    st: CarryView,
) -> CarryView
    decreases k,
{
    if k <= 0 {
        st
    } else {
        match_step(
            inp,
            old_idxs,
            section,
            new_idxs[k - 1] as int,
            matched(inp, old_idxs, new_idxs, section, k - 1, st),
        )
    }
}

/// The carry over one scope: claims, then equal content in the same section,
/// then equal content anywhere. Content hashes do not cover the section, so
/// without the middle step an identical paragraph of a deleted section could
/// take the place of a surviving one.
pub open spec fn scoped(
    inp: InputView,
    old_idxs: Seq<usize>,
    new_idxs: Seq<usize>,
    st: CarryView,
) -> CarryView {
    let n = new_idxs.len() as int;
    matched(
        inp,
        old_idxs,
        new_idxs,
        false,
        n,
        matched(inp, old_idxs, new_idxs, true, n, claimed(inp, old_idxs, new_idxs, n, st)),
    )
}

proof fn first_where_in(idxs: Seq<usize>, p: spec_fn(int) -> bool, len: int)
    requires
        within(idxs, len),
    ensures
        first_where(idxs, p) matches Some(o) ==> 0 <= o < len && p(o),
    decreases idxs.len(),
{
    if idxs.len() > 0 && !p(idxs[0] as int) {
        let t = idxs.drop_first();
        assert forall|k: int| 0 <= k < t.len() implies (#[trigger] t[k]) < len by {
            assert(t[k] == idxs[k + 1]);
        }
        first_where_in(t, p, len);
    } else if idxs.len() > 0 {
        assert(idxs[0] < len);
    }
}

proof fn claimed_ok(
    inp: InputView,
    old_idxs: Seq<usize>,
    new_idxs: Seq<usize>,
    k: int,
    st: CarryView,
)
    requires
        inp.ok(),
        st.ok(inp),
        within(old_idxs, inp.old.len() as int),
        within(new_idxs, inp.new.len() as int),
        k <= new_idxs.len(),
    ensures
        claimed(inp, old_idxs, new_idxs, k, st).ok(inp),
    decreases k,
{
    if k > 0 {
        claimed_ok(inp, old_idxs, new_idxs, k - 1, st);
        let before = claimed(inp, old_idxs, new_idxs, k - 1, st);
        let n = new_idxs[k - 1] as int;
        assert(new_idxs[k - 1] < inp.new.len());
        if let Some(r) = inp.new[n].block_ref_id {
            let p = holds(inp, st.old_used, r);
            first_where_in(old_idxs, p, inp.old.len() as int);
            if before.assign[n] is None {
                if let Some(o) = first_where(old_idxs, p) {
                    if !before.old_used[o] {
                        bind_keeps_order(inp, before, n, o);
                    }
                }
            }
        }
    }
}

proof fn matched_ok(
    inp: InputView,
    old_idxs: Seq<usize>,
    new_idxs: Seq<usize>,
    section: bool,
    k: int,
    st: CarryView,
)
    requires
        inp.ok(),
        st.ok(inp),
        within(old_idxs, inp.old.len() as int),
        within(new_idxs, inp.new.len() as int),
        k <= new_idxs.len(),
    ensures
        matched(inp, old_idxs, new_idxs, section, k, st).ok(inp),
    decreases k,
{
    if k > 0 {
        matched_ok(inp, old_idxs, new_idxs, section, k - 1, st);
        let before = matched(inp, old_idxs, new_idxs, section, k - 1, st);
        let n = new_idxs[k - 1] as int;
        assert(new_idxs[k - 1] < inp.new.len());
        let p = alike(inp, before.old_used, inp.new[n], section);
        first_where_in(old_idxs, p, inp.old.len() as int);
        if before.assign[n] is None {
            if let Some(o) = first_where(old_idxs, p) {
                bind_keeps_order(inp, before, n, o);
            }
        }
    }
}

/// Carrying over a scope keeps the state in order: an id goes to one block only.
pub proof fn scoped_ok(
    inp: InputView,
    old_idxs: Seq<usize>,
    new_idxs: Seq<usize>,
    st: CarryView,
)
    requires
        inp.ok(),
        st.ok(inp),
        within(old_idxs, inp.old.len() as int),
        within(new_idxs, inp.new.len() as int),
    ensures
        scoped(inp, old_idxs, new_idxs, st).ok(inp),
{
    let n = new_idxs.len() as int;
    claimed_ok(inp, old_idxs, new_idxs, n, st);
    let a = claimed(inp, old_idxs, new_idxs, n, st);
    matched_ok(inp, old_idxs, new_idxs, true, n, a);
    let b = matched(inp, old_idxs, new_idxs, true, n, a);
    matched_ok(inp, old_idxs, new_idxs, false, n, b);
}

proof fn claimed_keeps(
    inp: InputView,
    old_idxs: Seq<usize>,
    new_idxs: Seq<usize>,
    k: int,
    st: CarryView,
)
    requires
        within(new_idxs, st.assign.len() as int),
        k <= new_idxs.len(),
    ensures
        claimed(inp, old_idxs, new_idxs, k, st).assign.len() == st.assign.len(),
        forall|i: int|
            0 <= i < st.assign.len() && #[trigger] st.assign[i] is Some ==> claimed(
                inp,
                old_idxs,
                new_idxs,
                k,
                st,
            ).assign[i] == st.assign[i],
    decreases k,
{
    if k > 0 {
        claimed_keeps(inp, old_idxs, new_idxs, k - 1, st);
        assert(new_idxs[k - 1] < st.assign.len());
    }
}

proof fn matched_keeps(
    inp: InputView,
    old_idxs: Seq<usize>,
    new_idxs: Seq<usize>,
    section: bool,
    k: int,
    st: CarryView,
)
    requires
        within(new_idxs, st.assign.len() as int),
        k <= new_idxs.len(),
    ensures
        matched(inp, old_idxs, new_idxs, section, k, st).assign.len() == st.assign.len(),
        forall|i: int|
            0 <= i < st.assign.len() && #[trigger] st.assign[i] is Some ==> matched(
                inp,
                old_idxs,
                new_idxs,
                section,
                k,
                st,
            ).assign[i] == st.assign[i],
    decreases k,
{
    if k > 0 {
        matched_keeps(inp, old_idxs, new_idxs, section, k - 1, st);
        assert(new_idxs[k - 1] < st.assign.len());
    }
}

/// Carrying over a scope leaves every id where it is assigned already.
pub proof fn scoped_keeps(
    inp: InputView,
    old_idxs: Seq<usize>,
    new_idxs: Seq<usize>,
    st: CarryView,
)
    requires
        within(new_idxs, st.assign.len() as int),
    ensures
        scoped(inp, old_idxs, new_idxs, st).assign.len() == st.assign.len(),
        forall|i: int|
            0 <= i < st.assign.len() && #[trigger] st.assign[i] is Some ==> scoped(
                inp,
                old_idxs,
                new_idxs,
                st,
            ).assign[i] == st.assign[i],
{
    let n = new_idxs.len() as int;
    claimed_keeps(inp, old_idxs, new_idxs, n, st);
    let a = claimed(inp, old_idxs, new_idxs, n, st);
    matched_keeps(inp, old_idxs, new_idxs, true, n, a);
    let b = matched(inp, old_idxs, new_idxs, true, n, a);
    matched_keeps(inp, old_idxs, new_idxs, false, n, b);
}

/// The whole-note carry is in order.
pub proof fn note_carry_ok(inp: InputView)
    requires
        inp.ok(),
        inp.old.len() <= usize::MAX,
        inp.new.len() <= usize::MAX,
    ensures
        note_carry(inp).ok(inp),
{
    unassigned_ok(inp);
    scoped_ok(
        inp,
        all_indices(inp.old.len() as int),
        all_indices(inp.new.len() as int),
        unassigned(inp.old.len() as int, inp.new.len() as int),
    );
}

/// Whether two optional texts are equal.
pub fn opt_eq(a: &Option<&str>, b: &Option<&str>) -> (r: bool)
    ensures
        r == (match (*a, *b) {
            (Some(x), Some(y)) => x@ == y@,
            (None, None) => true,
            _ => false,
        }),
{
    match (a, b) {
        (Some(x), Some(y)) => str_eq(x, y),
        (None, None) => true,
        _ => false,
    }
}

/// Whether two lists of texts are equal.
pub fn texts_eq(a: &Vec<String>, b: &Vec<String>) -> (r: bool)
    ensures
        r == (a.deep_view() == b.deep_view()),
{
    if a.len() != b.len() {
        assert(a.deep_view().len() != b.deep_view().len());
        return false;
    }
    let mut i: usize = 0;
    while i < a.len()
        invariant
            i <= a.len() == b.len(),
            forall|k: int| 0 <= k < i ==> (#[trigger] a[k])@ == b[k]@,
        decreases a.len() - i,
    {
        if a[i] != b[i] {
            assert(a.deep_view()[i as int] != b.deep_view()[i as int]);
            return false;
        }
        i += 1;
    }
    assert(a.deep_view() =~= b.deep_view());
    true
}

/// The indices are indices of a list of `n`.
pub open spec fn within(idxs: Seq<usize>, n: int) -> bool {
    forall|k: int| 0 <= k < idxs.len() ==> (#[trigger] idxs[k]) < n
}

fn find_holder(
    input: &CarryInput,
    old_idxs: &Vec<usize>,
    used: &Vec<bool>,
    marker: &str,
) -> (r: Option<usize>)
    requires
        within(old_idxs@, input.old.len() as int),
        used.len() == input.old.len(),
    ensures
        first_where(old_idxs@, holds(input.deep_view(), used@, marker@)) == (match r {
            Some(o) => Some(o as int),
            None => None,
        }),
        r matches Some(o) ==> o < input.old.len() && !used[o as int],
{
    let ghost inp = input.deep_view();
    let ghost p = holds(inp, used@, marker@);
    let mut i: usize = 0;
    while i < old_idxs.len()
        invariant
            i <= old_idxs.len(),
            inp == input.deep_view(),
            p == holds(inp, used@, marker@),
            within(old_idxs@, input.old.len() as int),
            used.len() == input.old.len(),
            forall|k: int| 0 <= k < i ==> !p(#[trigger] old_idxs@[k] as int),
        decreases old_idxs.len() - i,
    {
        let o: usize = old_idxs[i];
        assert(inp.old[o as int] == input.old[o as int].deep_view());
        if !used[o] && opt_eq(&input.old[o].block_ref_id, &Some(marker)) {
            proof {
                first_where_at(old_idxs@, p, i as int);
            }
            return Some(o);
        }
        i += 1;
    }
    proof {
        first_where_none(old_idxs@, p);
    }
    None
}

fn find_alike(
    input: &CarryInput,
    old_idxs: &Vec<usize>,
    used: &Vec<bool>,
    n: usize,
    section: bool,
) -> (r: Option<usize>)
    requires
        within(old_idxs@, input.old.len() as int),
        used.len() == input.old.len(),
        n < input.new.len(),
    ensures
        first_where(
            old_idxs@,
            alike(input.deep_view(), used@, input.deep_view().new[n as int], section),
        ) == (match r {
            Some(o) => Some(o as int),
            None => None,
        }),
        r matches Some(o) ==> o < input.old.len() && !used[o as int],
{
    let ghost inp = input.deep_view();
    let ghost p = alike(inp, used@, inp.new[n as int], section);
    assert(inp.new[n as int] == input.new[n as int].deep_view());
    let mut i: usize = 0;
    while i < old_idxs.len()
        invariant
            i <= old_idxs.len(),
            n < input.new.len(),
            inp == input.deep_view(),
            inp.new[n as int] == input.new[n as int].deep_view(),
            p == alike(inp, used@, inp.new[n as int], section),
            within(old_idxs@, input.old.len() as int),
            used.len() == input.old.len(),
            forall|k: int| 0 <= k < i ==> !p(#[trigger] old_idxs@[k] as int),
        decreases old_idxs.len() - i,
    {
        let o: usize = old_idxs[i];
        assert(inp.old[o as int] == input.old[o as int].deep_view());
        if !used[o] && bytes_eq(input.old[o].content_hash, input.new[n].content_hash) && (!section
            || texts_eq(input.old[o].heading_path, input.new[n].heading_path)) {
            proof {
                first_where_at(old_idxs@, p, i as int);
            }
            return Some(o);
        }
        i += 1;
    }
    proof {
        first_where_none(old_idxs@, p);
    }
    None
}

fn copy_flags(v: &Vec<bool>) -> (r: Vec<bool>)
    ensures
        r@ == v@,
{
    let mut out: Vec<bool> = Vec::new();
    let mut i: usize = 0;
    while i < v.len()
        invariant
            i <= v.len(),
            out@ == v@.take(i as int),
        decreases v.len() - i,
    {
        out.push(v[i]);
        i += 1;
    }
    assert(v@.take(i as int) =~= v@);
    out
}

/// Carries ids over one scope: passes 1 and 2.
pub fn carry_scope(
    input: &CarryInput,
    old_idxs: &Vec<usize>,
    new_idxs: &Vec<usize>,
    state: &mut CarryState,
)
    requires
        input.deep_view().ok(),
        old(state).deep_view().ok(input.deep_view()),
        within(old_idxs@, input.old.len() as int),
        within(new_idxs@, input.new.len() as int),
    ensures
        final(state).deep_view() == scoped(
            input.deep_view(),
            old_idxs@,
            new_idxs@,
            old(state).deep_view(),
        ),
        final(state).deep_view().ok(input.deep_view()),
{
    let ghost inp = input.deep_view();
    let ghost st0 = state.deep_view();
    let used0 = copy_flags(&state.old_used);
    let mut i: usize = 0;
    while i < new_idxs.len()
        invariant
            i <= new_idxs.len(),
            inp == input.deep_view(),
            inp.ok(),
            used0@ == st0.old_used,
            used0.len() == input.old.len(),
            within(old_idxs@, input.old.len() as int),
            within(new_idxs@, input.new.len() as int),
            state.deep_view() == claimed(inp, old_idxs@, new_idxs@, i as int, st0),
            state.deep_view().ok(inp),
        decreases new_idxs.len() - i,
    {
        let n: usize = new_idxs[i];
        assert(inp.new[n as int] == input.new[n as int].deep_view());
        if state.assign[n].is_none() {
            if let Some(marker) = input.new[n].block_ref_id {
                if let Some(o) = find_holder(input, old_idxs, &used0, marker) {
                    if !state.old_used[o] {
                        proof {
                            bind_keeps_order(inp, state.deep_view(), n as int, o as int);
                        }
                        state.assign.set(n, Some(input.old_ids[o]));
                        state.old_used.set(o, true);
                        state.tally.carried_ref = state.tally.carried_ref + 1;
                    }
                }
            }
        }
        i += 1;
    }
    match_scope(input, old_idxs, new_idxs, true, state);
    match_scope(input, old_idxs, new_idxs, false, state);
}

/// One round of matching by content.
fn match_scope(
    input: &CarryInput,
    old_idxs: &Vec<usize>,
    new_idxs: &Vec<usize>,
    section: bool,
    state: &mut CarryState,
)
    requires
        input.deep_view().ok(),
        old(state).deep_view().ok(input.deep_view()),
        within(old_idxs@, input.old.len() as int),
        within(new_idxs@, input.new.len() as int),
    ensures
        final(state).deep_view() == matched(
            input.deep_view(),
            old_idxs@,
            new_idxs@,
            section,
            new_idxs.len() as int,
            old(state).deep_view(),
        ),
        final(state).deep_view().ok(input.deep_view()),
{
    let ghost inp = input.deep_view();
    let ghost st0 = state.deep_view();
    let mut i: usize = 0;
    while i < new_idxs.len()
        invariant
            i <= new_idxs.len(),
            inp == input.deep_view(),
            inp.ok(),
            within(old_idxs@, input.old.len() as int),
            within(new_idxs@, input.new.len() as int),
            state.deep_view() == matched(inp, old_idxs@, new_idxs@, section, i as int, st0),
            state.deep_view().ok(inp),
        decreases new_idxs.len() - i,
    {
        let n: usize = new_idxs[i];
        if state.assign[n].is_none() {
            if let Some(o) = find_alike(input, old_idxs, &state.old_used, n, section) {
                proof {
                    bind_keeps_order(inp, state.deep_view(), n as int, o as int);
                }
                state.assign.set(n, Some(input.old_ids[o]));
                state.old_used.set(o, true);
                state.tally.carried_hash = state.tally.carried_hash + 1;
            }
        }
        i += 1;
    }
}

/// Nothing assigned yet.
pub open spec fn unassigned(old_len: int, new_len: int) -> CarryView {
    CarryView {
        assign: Seq::new(new_len as nat, |i: int| None),
        old_used: Seq::new(old_len as nat, |i: int| false),
        by_ref: 0,
        by_hash: 0,
    }
}

impl CarryState {
    /// Nothing assigned yet.
    pub fn new(old_len: usize, new_len: usize) -> (r: Self)
        ensures
            r.deep_view() == unassigned(old_len as int, new_len as int),
    {
        let mut assign: Vec<Option<Uuid>> = Vec::new();
        let mut i: usize = 0;
        while i < new_len
            invariant
                i <= new_len,
                assign.len() == i,
                forall|k: int| 0 <= k < i ==> #[trigger] assign[k] is None,
            decreases new_len - i,
        {
            assign.push(None);
            i += 1;
        }
        let mut old_used: Vec<bool> = Vec::new();
        let mut k: usize = 0;
        while k < old_len
            invariant
                k <= old_len,
                old_used.len() == k,
                forall|j: int| 0 <= j < k ==> !(#[trigger] old_used[j]),
            decreases old_len - k,
        {
            old_used.push(false);
            k += 1;
        }
        let ghost want = unassigned(old_len as int, new_len as int);
        assert(assign@ =~= want.assign);
        assert(old_used@ =~= want.old_used);
        CarryState { assign, old_used, tally: CarryTally { carried_ref: 0, carried_hash: 0 } }
    }
}

/// A fresh state is in order.
pub proof fn unassigned_ok(inp: InputView)
    ensures
        unassigned(inp.old.len() as int, inp.new.len() as int).ok(inp),
{
}

/// How many of the first `n` slots are unassigned.
pub open spec fn open_slots(assign: Seq<Option<Uuid>>, n: int) -> nat
    decreases n,
{
    if n <= 0 {
        0
    } else {
        open_slots(assign, n - 1) + (if assign[n - 1] is None {
            1nat
        } else {
            0
        })
    }
}

/// The ids of the new blocks: the assigned one, else the next fresh one.
pub open spec fn final_ids(assign: Seq<Option<Uuid>>, fresh: Seq<Uuid>) -> Seq<Uuid> {
    Seq::new(
        assign.len(),
        |i: int|
            match assign[i] {
                Some(id) => id,
                None => fresh[open_slots(assign, i) as int],
            },
    )
}

/// The ids of the first `n` old blocks that nothing carries.
pub open spec fn unused_ids(old_ids: Seq<Uuid>, used: Seq<bool>, n: int) -> Seq<Uuid>
    decreases n,
{
    if n <= 0 {
        Seq::empty()
    } else if used[n - 1] {
        unused_ids(old_ids, used, n - 1)
    } else {
        unused_ids(old_ids, used, n - 1).push(old_ids[n - 1])
    }
}

/// The finished carry: for each new block its id, and what was minted, removed
/// and carried.
#[derive(Debug)]
pub struct Carry {
    pub ids: Vec<Uuid>,
    pub minted: Vec<Uuid>,
    pub removed: Vec<Uuid>,
    pub carried_ref: usize,
    pub carried_hash: usize,
}

/// What a finished carry is.
pub open spec fn carry_done(c: Carry, inp: InputView, st: CarryView, fresh: Seq<Uuid>) -> bool {
    &&& c.ids@ == final_ids(st.assign, fresh)
    &&& c.minted@ == fresh.take(open_slots(st.assign, st.assign.len() as int) as int)
    &&& c.removed@ == unused_ids(inp.old_ids, st.old_used, inp.old_ids.len() as int)
    &&& c.carried_ref == st.by_ref
    &&& c.carried_hash == st.by_hash
}

/// How many ids have to be minted.
pub fn mints_needed(state: &CarryState) -> (r: usize)
    ensures
        r == open_slots(state.assign@, state.assign.len() as int),
{
    let mut n: usize = 0;
    let mut i: usize = 0;
    while i < state.assign.len()
        invariant
            i <= state.assign.len(),
            n <= i,
            n == open_slots(state.assign@, i as int),
        decreases state.assign.len() - i,
    {
        if state.assign[i].is_none() {
            n += 1;
        }
        i += 1;
    }
    n
}

proof fn open_slots_grow(assign: Seq<Option<Uuid>>, i: int, n: int)
    requires
        0 <= i <= n <= assign.len(),
    ensures
        open_slots(assign, i) <= open_slots(assign, n),
        i < n && assign[i] is None ==> open_slots(assign, i) < open_slots(assign, n),
    decreases n - i,
{
    if i < n {
        open_slots_grow(assign, i, n - 1);
    }
}

/// Pass 3: mints whatever no scope carried; unmatched old blocks are removed.
pub fn finish_carry(input: &CarryInput, state: CarryState, fresh: &Vec<Uuid>) -> (r: Carry)
    requires
        input.deep_view().ok(),
        state.deep_view().ok(input.deep_view()),
        fresh.len() >= open_slots(state.assign@, state.assign.len() as int),
    ensures
        carry_done(r, input.deep_view(), state.deep_view(), fresh@),
{
    let mut ids: Vec<Uuid> = Vec::new();
    let mut minted: Vec<Uuid> = Vec::new();
    let mut i: usize = 0;
    while i < state.assign.len()
        invariant
            i <= state.assign.len(),
            fresh.len() >= open_slots(state.assign@, state.assign.len() as int),
            ids@ == final_ids(state.assign@, fresh@).take(i as int),
            minted@ == fresh@.take(open_slots(state.assign@, i as int) as int),
            minted.len() == open_slots(state.assign@, i as int),
        decreases state.assign.len() - i,
    {
        proof {
            open_slots_grow(state.assign@, i as int, state.assign.len() as int);
        }
        let id = match state.assign[i] {
            Some(id) => id,
            None => {
                let id = fresh[minted.len()];
                minted.push(id);
                id
            },
        };
        ids.push(id);
        proof {
            let f = final_ids(state.assign@, fresh@);
            assert(f.take(i + 1) =~= f.take(i as int).push(f[i as int]));
        }
        i += 1;
    }
    proof {
        let f = final_ids(state.assign@, fresh@);
        assert(f.take(i as int) =~= f);
    }
    let mut removed: Vec<Uuid> = Vec::new();
    let mut k: usize = 0;
    while k < input.old_ids.len()
        invariant
            k <= input.old_ids.len() == state.old_used.len(),
            removed@ == unused_ids(input.old_ids@, state.old_used@, k as int),
        decreases input.old_ids.len() - k,
    {
        if !state.old_used[k] {
            removed.push(input.old_ids[k]);
        }
        k += 1;
    }
    Carry {
        ids,
        minted,
        removed,
        carried_ref: state.tally.carried_ref,
        carried_hash: state.tally.carried_hash,
    }
}

/// The indices `0..n`.
pub open spec fn all_indices(n: int) -> Seq<usize> {
    Seq::new(n as nat, |i: int| i as usize)
}

/// The indices `from..to`.
pub fn index_range(from: usize, to: usize) -> (r: Vec<usize>)
    ensures
        r@ == Seq::new(
            (if to > from {
                to - from
            } else {
                0
            }) as nat,
            |i: int| (from + i) as usize,
        ),
{
    let mut out: Vec<usize> = Vec::new();
    let mut i: usize = from;
    while i < to
        invariant
            from <= i,
            i <= to || i == from,
            out.len() == i - from,
            forall|k: int| 0 <= k < out.len() ==> #[trigger] out[k] == from + k,
        decreases to - i,
    {
        out.push(i);
        i += 1;
    }
    assert(out@ =~= Seq::new(
        (if to > from {
            to - from
        } else {
            0
        }) as nat,
        |i: int| (from + i) as usize,
    ));
    out
}

pub open spec fn row_srcs(rows: Seq<RowView>) -> Seq<SrcView> {
    Seq::new(rows.len(), |i: int| src_of_row(rows[i]))
}

pub open spec fn block_srcs(blocks: Seq<BlockView>) -> Seq<SrcView> {
    Seq::new(blocks.len(), |i: int| src_of_block(blocks[i]))
}

pub open spec fn row_ids(rows: Seq<RowView>) -> Seq<Uuid> {
    Seq::new(rows.len(), |i: int| rows[i].id)
}

/// What a whole-note carry reads.
pub open spec fn note_input(old: Seq<RowView>, new: Seq<BlockView>) -> InputView {
    InputView { old: row_srcs(old), new: block_srcs(new), old_ids: row_ids(old) }
}

/// The whole-note carry, before minting.
pub open spec fn note_carry(inp: InputView) -> CarryView {
    scoped(
        inp,
        all_indices(inp.old.len() as int),
        all_indices(inp.new.len() as int),
        unassigned(inp.old.len() as int, inp.new.len() as int),
    )
}

/// The candidates that stored rows are.
pub fn srcs_of_rows<'a>(rows: &'a Vec<BlockRow>) -> (r: Vec<CarrySrc<'a>>)
    ensures
        r.deep_view() == row_srcs(rows.deep_view()),
        r.len() == rows.len(),
{
    let mut out: Vec<CarrySrc> = Vec::new();
    let mut i: usize = 0;
    while i < rows.len()
        invariant
            i <= rows.len(),
            out.len() == i,
            forall|k: int|
                0 <= k < i ==> (#[trigger] out[k]).deep_view() == src_of_row(rows[k].deep_view()),
        decreases rows.len() - i,
    {
        out.push(CarrySrc::from_row(&rows[i]));
        i += 1;
    }
    assert(out.deep_view() =~= row_srcs(rows.deep_view()));
    out
}

/// The candidates that parsed blocks are.
pub fn srcs_of_blocks<'a>(blocks: &'a Vec<Block>) -> (r: Vec<CarrySrc<'a>>)
    ensures
        r.deep_view() == block_srcs(blocks.deep_view()),
        r.len() == blocks.len(),
{
    let mut out: Vec<CarrySrc> = Vec::new();
    let mut i: usize = 0;
    while i < blocks.len()
        invariant
            i <= blocks.len(),
            out.len() == i,
            forall|k: int|
                0 <= k < i ==> (#[trigger] out[k]).deep_view() == src_of_block(
                    blocks[k].deep_view(),
                ),
        decreases blocks.len() - i,
    {
        out.push(CarrySrc::from_block(&blocks[i]));
        i += 1;
    }
    assert(out.deep_view() =~= block_srcs(blocks.deep_view()));
    out
}

/// The ids of stored rows.
pub fn ids_of_rows(rows: &Vec<BlockRow>) -> (r: Vec<Uuid>)
    ensures
        r@ == row_ids(rows.deep_view()),
        r.len() == rows.len(),
{
    let mut out: Vec<Uuid> = Vec::new();
    let mut i: usize = 0;
    while i < rows.len()
        invariant
            i <= rows.len(),
            out.len() == i,
            forall|k: int| 0 <= k < i ==> #[trigger] out[k] == rows[k].id,
        decreases rows.len() - i,
    {
        out.push(rows[i].id);
        i += 1;
    }
    assert(out@ =~= row_ids(rows.deep_view()));
    out
}

/// The whole-note carry, before minting.
pub fn carry_note(old: &Vec<BlockRow>, new: &Vec<Block>) -> (r: CarryState)
    requires
        row_ids(old.deep_view()).no_duplicates(),
    ensures
        r.deep_view() == note_carry(note_input(old.deep_view(), new.deep_view())),
        r.deep_view().ok(note_input(old.deep_view(), new.deep_view())),
{
    let old_src = srcs_of_rows(old);
    let new_src = srcs_of_blocks(new);
    let old_ids = ids_of_rows(old);
    let input = CarryInput { old: &old_src, new: &new_src, old_ids: &old_ids };
    let ghost inp = input.deep_view();
    assert(inp == note_input(old.deep_view(), new.deep_view()));
    let all_old = index_range(0, old.len());
    let all_new = index_range(0, new.len());
    assert(all_old@ =~= all_indices(old.len() as int));
    assert(all_new@ =~= all_indices(new.len() as int));
    let mut state = CarryState::new(old.len(), new.len());
    proof {
        unassigned_ok(inp);
    }
    carry_scope(&input, &all_old, &all_new, &mut state);
    state
}

/// The whole-note carry. `fresh` holds ids that nothing has yet, as many as
/// there are new blocks.
pub fn carry(old: &Vec<BlockRow>, new: &Vec<Block>, fresh: &Vec<Uuid>) -> (r: Carry)
    requires
        row_ids(old.deep_view()).no_duplicates(),
        fresh.len() >= new.len(),
    ensures
        r.ids.len() == new.len(),
        carry_done(
            r,
            note_input(old.deep_view(), new.deep_view()),
            note_carry(note_input(old.deep_view(), new.deep_view())),
            fresh@,
        ),
{
    let state = carry_note(old, new);
    let old_src = srcs_of_rows(old);
    let new_src = srcs_of_blocks(new);
    let old_ids = ids_of_rows(old);
    let input = CarryInput { old: &old_src, new: &new_src, old_ids: &old_ids };
    assert(input.deep_view() == note_input(old.deep_view(), new.deep_view()));
    proof {
        open_slots_bound(state.assign@, state.assign.len() as int);
    }
    finish_carry(&input, state, fresh)
}

pub proof fn open_slots_bound(assign: Seq<Option<Uuid>>, n: int)
    requires
        0 <= n <= assign.len(),
    ensures
        open_slots(assign, n) <= n,
    decreases n,
{
    if n > 0 {
        open_slots_bound(assign, n - 1);
    }
}

/// An id is never given to two blocks: the ids of a finished carry are
/// distinct, given fresh ids that are new and distinct.
pub proof fn carried_ids_are_distinct(inp: InputView, st: CarryView, fresh: Seq<Uuid>)
    requires
        inp.ok(),
        st.ok(inp),
        fresh.no_duplicates(),
        fresh.len() >= open_slots(st.assign, st.assign.len() as int),
        forall|i: int, o: int|
            0 <= i < fresh.len() && 0 <= o < inp.old_ids.len() ==> #[trigger] fresh[i]
                != #[trigger] inp.old_ids[o],
    ensures
        final_ids(st.assign, fresh).no_duplicates(),
{
    let ids = final_ids(st.assign, fresh);
    let n = st.assign.len() as int;
    assert forall|a: int, b: int| 0 <= a < ids.len() && 0 <= b < ids.len() && a != b implies ids[a]
        != ids[b] by {
        open_slots_grow(st.assign, a, n);
        open_slots_grow(st.assign, b, n);
        if a < b {
            open_slots_grow(st.assign, a, b);
        } else {
            open_slots_grow(st.assign, b, a);
        }
        if st.assign[a] is Some {
            let o = choose|o: int|
                0 <= o < st.old_used.len() && st.old_used[o] && #[trigger] carries(
                    inp,
                    st.assign,
                    a,
                    o,
                );
            assert(ids[a] == inp.old_ids[o]);
        }
        if st.assign[b] is Some {
            let o = choose|o: int|
                0 <= o < st.old_used.len() && st.old_used[o] && #[trigger] carries(
                    inp,
                    st.assign,
                    b,
                    o,
                );
            assert(ids[b] == inp.old_ids[o]);
        }
    }
}

pub proof fn unused_ids_are(old_ids: Seq<Uuid>, used: Seq<bool>, n: int, id: Uuid)
    requires
        0 <= n <= old_ids.len() == used.len(),
    ensures
        unused_ids(old_ids, used, n).contains(id) <==> exists|o: int|
            0 <= o < n && !used[o] && #[trigger] old_ids[o] == id,
    decreases n,
{
    if n > 0 {
        let before = unused_ids(old_ids, used, n - 1);
        unused_ids_are(old_ids, used, n - 1, id);
        if !used[n - 1] {
            let now = before.push(old_ids[n - 1]);
            if now.contains(id) {
                let k = choose|k: int| 0 <= k < now.len() && now[k] == id;
                if k < before.len() {
                    assert(before[k] == id);
                    assert(before.contains(id));
                }
            }
            if before.contains(id) {
                let k = choose|k: int| 0 <= k < before.len() && before[k] == id;
                assert(now[k] == id);
            }
            if old_ids[n - 1] == id {
                assert(now[now.len() - 1] == id);
            }
        }
        if exists|o: int| 0 <= o < n && !used[o] && #[trigger] old_ids[o] == id {
            let o = choose|o: int| 0 <= o < n && !used[o] && #[trigger] old_ids[o] == id;
            if o < n - 1 {
                assert(old_ids[o] == id);
            }
        }
    }
}

/// Every old id is either carried by a block or removed, and not both.
pub proof fn carried_or_removed(inp: InputView, st: CarryView, fresh: Seq<Uuid>, o: int)
    requires
        inp.ok(),
        st.ok(inp),
        fresh.len() >= open_slots(st.assign, st.assign.len() as int),
        0 <= o < inp.old_ids.len(),
        !fresh.contains(inp.old_ids[o]),
    ensures
        final_ids(st.assign, fresh).contains(inp.old_ids[o]) <==> !unused_ids(
            inp.old_ids,
            st.old_used,
            inp.old_ids.len() as int,
        ).contains(inp.old_ids[o]),
{
    let ids = final_ids(st.assign, fresh);
    let id = inp.old_ids[o];
    unused_ids_are(inp.old_ids, st.old_used, inp.old_ids.len() as int, id);
    if st.old_used[o] {
        let n = choose|n: int| 0 <= n < st.assign.len() && #[trigger] carries(inp, st.assign, n, o);
        assert(ids[n] == id);
        assert(ids.contains(id));
        if exists|p: int| 0 <= p < inp.old_ids.len() && !st.old_used[p] && #[trigger] inp.old_ids[p]
            == id {
            let p = choose|p: int|
                0 <= p < inp.old_ids.len() && !st.old_used[p] && #[trigger] inp.old_ids[p] == id;
            assert(p == o);
        }
    } else {
        assert(inp.old_ids[o] == id);
        if ids.contains(id) {
            let n = choose|n: int| 0 <= n < ids.len() && ids[n] == id;
            if st.assign[n] is Some {
                let p = choose|p: int|
                    0 <= p < st.old_used.len() && st.old_used[p] && #[trigger] carries(
                        inp,
                        st.assign,
                        n,
                        p,
                    );
                assert(inp.old_ids[p] == id);
                assert(p == o);
            } else {
                open_slots_grow(st.assign, n, st.assign.len() as int);
                assert(fresh.contains(fresh[open_slots(st.assign, n) as int]));
            }
        }
    }
}

/// The claims so far bind blocks to themselves.
spec fn self_bound(inp: InputView, st: CarryView) -> bool {
    &&& st.assign.len() == st.old_used.len() == inp.old.len()
    &&& forall|i: int|
        0 <= i < st.assign.len() ==> (#[trigger] st.assign[i] is Some <==> st.old_used[i])
    &&& forall|i: int|
        0 <= i < st.assign.len() && #[trigger] st.assign[i] is Some ==> st.assign[i] == Some(
            inp.old_ids[i],
        )
}

/// The first free holder of a marker is the first block with it.
proof fn holder_of_same(inp: InputView, used: Seq<bool>, n: int, r: Seq<char>)
    requires
        inp.old == inp.new,
        0 <= n < inp.old.len() <= usize::MAX,
        used.len() == inp.old.len(),
        forall|i: int| 0 <= i < used.len() ==> !(#[trigger] used[i]),
        inp.new[n].block_ref_id == Some(r),
    ensures
        ({
            let f = first_where(all_indices(inp.old.len() as int), holds(inp, used, r));
            &&& f is Some
            &&& 0 <= f->0 <= n
            &&& inp.old[f->0].block_ref_id == Some(r)
            &&& forall|i: int| 0 <= i < f->0 ==> (#[trigger] inp.old[i]).block_ref_id != Some(r)
        }),
{
    let p = holds(inp, used, r);
    let idxs = all_indices(inp.old.len() as int);
    let k = least(inp.old, r, n);
    assert forall|i: int| 0 <= i < k implies !p(#[trigger] idxs[i] as int) by {
        assert(inp.old[i].block_ref_id != Some(r));
    }
    assert(p(idxs[k] as int));
    first_where_at(idxs, p, k);
}

/// The first block with the marker `r`, at `n` or before it.
proof fn least(old: Seq<SrcView>, r: Seq<char>, n: int) -> (k: int)
    requires
        0 <= n < old.len(),
        old[n].block_ref_id == Some(r),
    ensures
        0 <= k <= n,
        old[k].block_ref_id == Some(r),
        forall|i: int| 0 <= i < k ==> (#[trigger] old[i]).block_ref_id != Some(r),
    decreases n,
{
    if exists|i: int| 0 <= i < n && (#[trigger] old[i]).block_ref_id == Some(r) {
        let i = choose|i: int| 0 <= i < n && (#[trigger] old[i]).block_ref_id == Some(r);
        least(old, r, i)
    } else {
        n
    }
}

/// No earlier block has the marker of block `i`.
spec fn first_holder(old: Seq<SrcView>, i: int) -> bool {
    forall|j: int| 0 <= j < i ==> (#[trigger] old[j]).block_ref_id != old[i].block_ref_id
}

proof fn claims_of_same(inp: InputView, k: int)
    requires
        inp.ok(),
        inp.old == inp.new,
        inp.old.len() <= usize::MAX,
        0 <= k <= inp.old.len(),
    ensures
        ({
            let st = claimed(
                inp,
                all_indices(inp.old.len() as int),
                all_indices(inp.old.len() as int),
                k,
                unassigned(inp.old.len() as int, inp.old.len() as int),
            );
            &&& self_bound(inp, st)
            &&& forall|i: int| k <= i < inp.old.len() ==> #[trigger] st.assign[i] is None
            &&& forall|i: int|
                0 <= i < k && inp.old[i].block_ref_id is Some ==> (#[trigger] st.assign[i] is Some
                    <==> first_holder(inp.old, i))
        }),
    decreases k,
{
    let len = inp.old.len() as int;
    let idxs = all_indices(len);
    let st0 = unassigned(len, len);
    if k > 0 {
        claims_of_same(inp, k - 1);
        let before = claimed(inp, idxs, idxs, k - 1, st0);
        let n = k - 1;
        assert(idxs[n] == n);
        if let Some(r) = inp.new[n].block_ref_id {
            holder_of_same(inp, st0.old_used, n, r);
            let o = first_where(idxs, holds(inp, st0.old_used, r))->0;
            if o < n {
                assert(first_holder(inp.old, o));
                assert(before.assign[o] is Some);
                assert(before.old_used[o]);
                assert(inp.old[o].block_ref_id == inp.old[n].block_ref_id);
                assert(!first_holder(inp.old, n));
            } else {
                assert(first_holder(inp.old, n));
                assert(before.assign[n] is None);
                assert(!before.old_used[n]);
            }
        }
    }
}

proof fn matches_of_same(inp: InputView, st0: CarryView, k: int)
    requires
        inp.ok(),
        inp.old == inp.new,
        inp.old.len() <= usize::MAX,
        self_bound(inp, st0),
        0 <= k <= inp.old.len(),
    ensures
        ({
            let st = matched(
                inp,
                all_indices(inp.old.len() as int),
                all_indices(inp.old.len() as int),
                true,
                k,
                st0,
            );
            &&& self_bound(inp, st)
            &&& forall|i: int| 0 <= i < k ==> #[trigger] st.assign[i] is Some
            &&& forall|i: int| k <= i < inp.old.len() ==> #[trigger] st.assign[i] == st0.assign[i]
        }),
    decreases k,
{
    let idxs = all_indices(inp.old.len() as int);
    if k > 0 {
        matches_of_same(inp, st0, k - 1);
        let st = matched(inp, idxs, idxs, true, k - 1, st0);
        let n = k - 1;
        assert(idxs[n] == n);
        if st.assign[n] is None {
            let p = alike(inp, st.old_used, inp.new[n], true);
            assert forall|i: int| 0 <= i < n implies !p(#[trigger] idxs[i] as int) by {
                assert(st.assign[i] is Some);
            }
            assert(p(idxs[n] as int));
            first_where_at(idxs, p, n);
        }
    }
}

proof fn matched_when_full(
    inp: InputView,
    old_idxs: Seq<usize>,
    new_idxs: Seq<usize>,
    section: bool,
    k: int,
    st: CarryView,
)
    requires
        0 <= k <= new_idxs.len(),
        within(new_idxs, st.assign.len() as int),
        forall|i: int| 0 <= i < st.assign.len() ==> #[trigger] st.assign[i] is Some,
    ensures
        matched(inp, old_idxs, new_idxs, section, k, st) == st,
    decreases k,
{
    if k > 0 {
        matched_when_full(inp, old_idxs, new_idxs, section, k - 1, st);
        assert(new_idxs[k - 1] < st.assign.len());
    }
}

/// Writing blocks that are as they were keeps every id where it was.
pub proof fn unchanged_blocks_keep_their_ids(inp: InputView, i: int)
    requires
        inp.ok(),
        inp.old == inp.new,
        inp.old.len() <= usize::MAX,
        0 <= i < inp.new.len(),
    ensures
        note_carry(inp).assign[i] == Some(inp.old_ids[i]),
{
    let len = inp.old.len() as int;
    let idxs = all_indices(len);
    let st0 = unassigned(len, len);
    claims_of_same(inp, len);
    let st1 = claimed(inp, idxs, idxs, len, st0);
    matches_of_same(inp, st1, len);
    let st2 = matched(inp, idxs, idxs, true, len, st1);
    assert(st2.assign[i] is Some);
    matched_when_full(inp, idxs, idxs, false, len, st2);
}

/// Where the first index stands for which `p` holds.
proof fn first_where_pos(idxs: Seq<usize>, p: spec_fn(int) -> bool) -> (j: int)
    ensures
        match first_where(idxs, p) {
            Some(o) => {
                &&& 0 <= j < idxs.len()
                &&& idxs[j] == o
                &&& p(o)
                &&& forall|k: int| 0 <= k < j ==> !p(#[trigger] idxs[k] as int)
            },
            None => forall|k: int| 0 <= k < idxs.len() ==> !p(#[trigger] idxs[k] as int),
        },
    decreases idxs.len(),
{
    if idxs.len() == 0 {
        0
    } else if p(idxs[0] as int) {
        0
    } else {
        let t = idxs.drop_first();
        let j = first_where_pos(t, p);
        match first_where(idxs, p) {
            Some(o) => {
                assert(idxs[j + 1] == t[j]);
                assert forall|k: int| 0 <= k < j + 1 implies !p(#[trigger] idxs[k] as int) by {
                    if k > 0 {
                        assert(idxs[k] == t[k - 1]);
                    }
                }
            },
            None => {
                assert forall|k: int| 0 <= k < idxs.len() implies !p(#[trigger] idxs[k] as int) by {
                    if k > 0 {
                        assert(idxs[k] == t[k - 1]);
                    }
                }
            },
        }
        j + 1
    }
}

/// The matches by content of the first `k` blocks of the note.
spec fn pass(inp: InputView, section: bool, k: int, st: CarryView) -> CarryView {
    matched(
        inp,
        all_indices(inp.old.len() as int),
        all_indices(inp.new.len() as int),
        section,
        k,
        st,
    )
}

/// The claims of the first `k` blocks of the note.
spec fn claims(inp: InputView, k: int) -> CarryView {
    claimed(
        inp,
        all_indices(inp.old.len() as int),
        all_indices(inp.new.len() as int),
        k,
        unassigned(inp.old.len() as int, inp.new.len() as int),
    )
}

spec fn sized(inp: InputView, st: CarryView) -> bool {
    &&& st.assign.len() == inp.new.len() <= usize::MAX
    &&& st.old_used.len() == inp.old.len() <= usize::MAX
}

/// Between two points of a pass, what is assigned stays, what is used stays, and only
/// the blocks between them are assigned.
proof fn pass_goes_on(inp: InputView, section: bool, j: int, k: int, st: CarryView)
    requires
        sized(inp, st),
        0 <= j <= k <= inp.new.len(),
    ensures
        ({
            let a = pass(inp, section, j, st);
            let b = pass(inp, section, k, st);
            &&& sized(inp, a)
            &&& sized(inp, b)
            &&& forall|i: int|
                0 <= i < inp.new.len() && (i < j || i >= k || a.assign[i] is Some)
                    ==> #[trigger] b.assign[i] == a.assign[i]
            &&& forall|o: int| 0 <= o < inp.old.len() && a.old_used[o] ==> #[trigger] b.old_used[o]
        }),
    decreases k,
{
    let news = all_indices(inp.new.len() as int);
    let olds = all_indices(inp.old.len() as int);
    if k > 0 {
        let last = k - 1;
        if j < k {
            pass_goes_on(inp, section, j, last, st);
        } else {
            pass_goes_on(inp, section, last, last, st);
        }
        let before = pass(inp, section, last, st);
        assert(news[last] == last);
        first_where_in(
            olds,
            alike(inp, before.old_used, inp.new[last], section),
            inp.old.len() as int,
        );
    }
}

/// What a pass does with one block: it takes the first old block that is free then and
/// alike, unless the block has its id already.
proof fn pass_at(inp: InputView, section: bool, n: int, st: CarryView) -> (found: Option<int>)
    requires
        sized(inp, st),
        0 <= n < inp.new.len(),
        st.assign[n] is None,
    ensures
        ({
            let before = pass(inp, section, n, st);
            let end = pass(inp, section, inp.new.len() as int, st);
            let p = alike(inp, before.old_used, inp.new[n], section);
            &&& sized(inp, before)
            &&& sized(inp, end)
            &&& forall|o: int|
                0 <= o < inp.old.len() && st.old_used[o] ==> #[trigger] before.old_used[o]
            &&& forall|o: int|
                0 <= o < inp.old.len() && before.old_used[o] ==> #[trigger] end.old_used[o]
            &&& match found {
                Some(o) => {
                    &&& 0 <= o < inp.old.len()
                    &&& p(o)
                    &&& forall|i: int| 0 <= i < o ==> !#[trigger] p(i)
                    &&& end.assign[n] == Some(inp.old_ids[o])
                    &&& end.old_used[o]
                    &&& pass(inp, section, n + 1, st).old_used[o]
                },
                None => {
                    &&& forall|i: int| 0 <= i < inp.old.len() ==> !#[trigger] p(i)
                    &&& end.assign[n] is None
                },
            }
        }),
{
    let olds = all_indices(inp.old.len() as int);
    let news = all_indices(inp.new.len() as int);
    let len = inp.new.len() as int;
    pass_goes_on(inp, section, 0, n, st);
    pass_goes_on(inp, section, n, n + 1, st);
    pass_goes_on(inp, section, n + 1, len, st);
    pass_goes_on(inp, section, n, len, st);
    let before = pass(inp, section, n, st);
    let after = pass(inp, section, n + 1, st);
    let p = alike(inp, before.old_used, inp.new[n], section);
    assert(news[n] == n);
    assert(before.assign[n] is None);
    let j = first_where_pos(olds, p);
    let found = first_where(olds, p);
    match found {
        Some(o) => {
            assert(j == o);
            assert forall|i: int| 0 <= i < o implies !#[trigger] p(i) by {
                assert(!p(olds[i] as int));
            }
            assert(after.old_used[o]);
            assert(after.assign[n] == Some(inp.old_ids[o]));
        },
        None => {
            assert forall|i: int| 0 <= i < inp.old.len() implies !#[trigger] p(i) by {
                assert(!p(olds[i] as int));
            }
            assert(after.assign[n] is None);
        },
    }
    found
}

/// No claim concerns the pair: no old block holds the marker of the new one, and no
/// new block the marker of the old one. (Neither has to hold one.)
pub open spec fn unclaimed(inp: InputView, n: int, o: int) -> bool {
    &&& inp.new[n].block_ref_id matches Some(r) ==> forall|i: int|
        0 <= i < inp.old.len() ==> (#[trigger] inp.old[i]).block_ref_id != Some(r)
    &&& inp.old[o].block_ref_id matches Some(r) ==> forall|i: int|
        0 <= i < inp.new.len() ==> (#[trigger] inp.new[i]).block_ref_id != Some(r)
}

/// New block `n` and old block `o` both hold a marker that no other block holds.
pub open spec fn sole_holders(inp: InputView, n: int, o: int) -> bool {
    &&& inp.new[n].block_ref_id is Some
    &&& inp.old[o].block_ref_id == inp.new[n].block_ref_id
    &&& forall|i: int|
        0 <= i < inp.old.len() && i != o ==> (#[trigger] inp.old[i]).block_ref_id
            != inp.new[n].block_ref_id
    &&& forall|i: int|
        0 <= i < inp.new.len() && i != n ==> (#[trigger] inp.new[i]).block_ref_id
            != inp.new[n].block_ref_id
}

/// New block `n` has the content of old block `o`, which no other block has, and no
/// claim comes between them.
pub open spec fn untouched(inp: InputView, n: int, o: int) -> bool {
    &&& inp.new[n].content_hash == inp.old[o].content_hash
    &&& forall|i: int|
        0 <= i < inp.new.len() && i != n ==> (#[trigger] inp.new[i]).content_hash
            != inp.new[n].content_hash
    &&& forall|i: int|
        0 <= i < inp.old.len() && i != o ==> (#[trigger] inp.old[i]).content_hash
            != inp.old[o].content_hash
    &&& unclaimed(inp, n, o) || sole_holders(inp, n, o)
}

/// New block `n` has the content and the section of old block `o`, which no other
/// block has both, and no claim comes between them.
pub open spec fn untouched_in_section(inp: InputView, n: int, o: int) -> bool {
    &&& inp.new[n].content_hash == inp.old[o].content_hash
    &&& inp.new[n].heading_path == inp.old[o].heading_path
    &&& forall|i: int|
        0 <= i < inp.new.len() && i != n ==> (#[trigger] inp.new[i]).content_hash
            != inp.new[n].content_hash || inp.new[i].heading_path != inp.new[n].heading_path
    &&& forall|i: int|
        0 <= i < inp.old.len() && i != o ==> (#[trigger] inp.old[i]).content_hash
            != inp.old[o].content_hash || inp.old[i].heading_path != inp.old[o].heading_path
    &&& unclaimed(inp, n, o)
}

/// No old block has the content of new block `n`, and none holds its marker.
pub open spec fn unlike_any(inp: InputView, n: int) -> bool {
    &&& forall|i: int|
        0 <= i < inp.old.len() ==> (#[trigger] inp.old[i]).content_hash
            != inp.new[n].content_hash
    &&& inp.new[n].block_ref_id matches Some(r) ==> forall|i: int|
        0 <= i < inp.old.len() ==> (#[trigger] inp.old[i]).block_ref_id != Some(r)
}

/// What the claims of the first `k` blocks leave alone: blocks whose marker no old
/// block holds, and old blocks whose marker no new block holds.
proof fn claims_pass_by(inp: InputView, k: int)
    requires
        inp.old.len() <= usize::MAX,
        0 <= k <= inp.new.len() <= usize::MAX,
    ensures
        sized(inp, claims(inp, k)),
        forall|n: int|
            0 <= n < inp.new.len() && (n >= k || (inp.new[n].block_ref_id matches Some(r)
                ==> forall|i: int|
                0 <= i < inp.old.len() ==> (#[trigger] inp.old[i]).block_ref_id != Some(r)))
                ==> #[trigger] claims(inp, k).assign[n] is None,
        forall|o: int|
            0 <= o < inp.old.len() && #[trigger] claims(inp, k).old_used[o] ==> exists|i: int|
                0 <= i < k && (#[trigger] inp.new[i]).block_ref_id is Some
                    && inp.new[i].block_ref_id == inp.old[o].block_ref_id,
    decreases k,
{
    let olds = all_indices(inp.old.len() as int);
    let news = all_indices(inp.new.len() as int);
    if k > 0 {
        let at = k - 1;
        claims_pass_by(inp, at);
        let before = claims(inp, at);
        let st0 = unassigned(inp.old.len() as int, inp.new.len() as int);
        assert(news[at] == at);
        if let Some(r) = inp.new[at].block_ref_id {
            let p = holds(inp, st0.old_used, r);
            first_where_in(olds, p, inp.old.len() as int);
            if let Some(o) = first_where(olds, p) {
                assert(inp.old[o].block_ref_id == Some(r));
            }
        }
        let after = claims(inp, k);
        assert forall|o: int| 0 <= o < inp.old.len() && #[trigger] after.old_used[o] implies exists|
            i: int,
        |
            0 <= i < k && (#[trigger] inp.new[i]).block_ref_id is Some && inp.new[i].block_ref_id
                == inp.old[o].block_ref_id by {
            if before.old_used[o] {
                let i = choose|i: int|
                    0 <= i < at && (#[trigger] inp.new[i]).block_ref_id is Some
                        && inp.new[i].block_ref_id == inp.old[o].block_ref_id;
                assert(inp.new[i].block_ref_id is Some);
            } else {
                assert(inp.new[at].block_ref_id is Some);
            }
        }
    }
}

/// A claim keeps the id, whatever became of the content: where one old and one new
/// block hold a marker, the new block is the old one.
pub proof fn a_claim_keeps_the_id(inp: InputView, n: int, o: int)
    requires
        inp.ok(),
        inp.old.len() <= usize::MAX,
        inp.new.len() <= usize::MAX,
        0 <= n < inp.new.len(),
        0 <= o < inp.old.len(),
        sole_holders(inp, n, o),
    ensures
        note_carry(inp).assign[n] == Some(inp.old_ids[o]),
{
    let olds = all_indices(inp.old.len() as int);
    let news = all_indices(inp.new.len() as int);
    let len = inp.new.len() as int;
    let st0 = unassigned(inp.old.len() as int, len);
    let r = inp.new[n].block_ref_id->0;
    claims_pass_by(inp, n);
    let before = claims(inp, n);
    assert(!before.old_used[o]);
    assert(before.assign[n] is None);
    let p = holds(inp, st0.old_used, r);
    assert forall|k: int| 0 <= k < o implies !p(#[trigger] olds[k] as int) by {
        assert(inp.old[k].block_ref_id != Some(r));
    }
    assert(p(olds[o] as int));
    first_where_at(olds, p, o);
    assert(news[n] == n);
    assert(claims(inp, n + 1).assign[n] == Some(inp.old_ids[o]));
    claims_stay(inp, n + 1, len, n);
    let a = claims(inp, len);
    claims_pass_by(inp, len);
    pass_goes_on(inp, true, 0, len, a);
    let b = pass(inp, true, len, a);
    pass_goes_on(inp, false, 0, len, b);
}

/// What a claim assigned stays.
proof fn claims_stay(inp: InputView, j: int, k: int, n: int)
    requires
        inp.old.len() <= usize::MAX,
        0 <= j <= k <= inp.new.len() <= usize::MAX,
        0 <= n < inp.new.len(),
        claims(inp, j).assign[n] is Some,
    ensures
        claims(inp, k).assign[n] == claims(inp, j).assign[n],
    decreases k,
{
    if j < k {
        claims_stay(inp, j, k - 1, n);
        claims_pass_by(inp, k - 1);
        assert(all_indices(inp.new.len() as int)[k - 1] == k - 1);
    }
}

/// The state between the passes, and what the claims leave of a pair that none
/// concerns.
proof fn pair_after_claims(inp: InputView, n: int, o: int)
    requires
        inp.old.len() <= usize::MAX,
        inp.new.len() <= usize::MAX,
        0 <= n < inp.new.len(),
        0 <= o < inp.old.len(),
        unclaimed(inp, n, o),
    ensures
        ({
            let len = inp.new.len() as int;
            let a = claims(inp, len);
            &&& sized(inp, a)
            &&& a.assign[n] is None
            &&& !a.old_used[o]
            &&& note_carry(inp) == pass(inp, false, len, pass(inp, true, len, a))
        }),
{
    claims_pass_by(inp, inp.new.len() as int);
}

/// A pass leaves an old block free that is alike to no other new block.
proof fn pass_spares(inp: InputView, section: bool, k: int, st: CarryView, n: int, o: int)
    requires
        sized(inp, st),
        0 <= k <= inp.new.len(),
        0 <= o < inp.old.len(),
        !st.old_used[o],
        k <= n,
        forall|i: int|
            0 <= i < inp.new.len() && i != n ==> (#[trigger] inp.new[i]).content_hash
                != inp.old[o].content_hash || (section && inp.new[i].heading_path
                != inp.old[o].heading_path),
    ensures
        !pass(inp, section, k, st).old_used[o],
    decreases k,
{
    if k > 0 {
        pass_spares(inp, section, k - 1, st, n, o);
        pass_goes_on(inp, section, 0, k - 1, st);
        let before = pass(inp, section, k - 1, st);
        let olds = all_indices(inp.old.len() as int);
        assert(all_indices(inp.new.len() as int)[k - 1] == k - 1);
        assert(inp.new[k - 1].content_hash != inp.old[o].content_hash || (section
            && inp.new[k - 1].heading_path != inp.old[o].heading_path));
        first_where_in(
            olds,
            alike(inp, before.old_used, inp.new[k - 1], section),
            inp.old.len() as int,
        );
    }
}

/// An untouched block keeps its id, whatever happens to the note around it: a block
/// that no claim concerns, and whose content no other block has before or after the
/// write.
pub proof fn an_untouched_block_keeps_its_id(inp: InputView, n: int, o: int)
    requires
        inp.ok(),
        inp.old.len() <= usize::MAX,
        inp.new.len() <= usize::MAX,
        0 <= n < inp.new.len(),
        0 <= o < inp.old.len(),
        untouched(inp, n, o),
    ensures
        note_carry(inp).assign[n] == Some(inp.old_ids[o]),
{
    if sole_holders(inp, n, o) {
        a_claim_keeps_the_id(inp, n, o);
    } else {
        let len = inp.new.len() as int;
        pair_after_claims(inp, n, o);
        let a = claims(inp, len);
        pass_spares(inp, true, n, a, n, o);
        let found = pass_at(inp, true, n, a);
        let before = pass(inp, true, n, a);
        let p = alike(inp, before.old_used, inp.new[n], true);
        let b = pass(inp, true, len, a);
        if let Some(i) = found {
            assert(i == o);
            pass_goes_on(inp, false, 0, len, b);
        } else {
            assert(!p(o));
            assert(inp.new[n].heading_path != inp.old[o].heading_path);
            pass_spares(inp, true, len, a, len, o);
            pass_spares(inp, false, n, b, n, o);
            let again = pass_at(inp, false, n, b);
            let q = alike(inp, pass(inp, false, n, b).old_used, inp.new[n], false);
            assert(q(o));
            assert(again is Some);
            assert(again == Some(o));
        }
    }
}

/// A section keeps its own blocks: a block that no claim concerns, and whose content
/// no other block of its section has before or after the write, keeps its id, though
/// other sections hold the same content.
pub proof fn a_section_keeps_its_own_blocks(inp: InputView, n: int, o: int)
    requires
        inp.ok(),
        inp.old.len() <= usize::MAX,
        inp.new.len() <= usize::MAX,
        0 <= n < inp.new.len(),
        0 <= o < inp.old.len(),
        untouched_in_section(inp, n, o),
    ensures
        note_carry(inp).assign[n] == Some(inp.old_ids[o]),
{
    let len = inp.new.len() as int;
    pair_after_claims(inp, n, o);
    let a = claims(inp, len);
    pass_spares(inp, true, n, a, n, o);
    let found = pass_at(inp, true, n, a);
    let p = alike(inp, pass(inp, true, n, a).old_used, inp.new[n], true);
    assert(p(o));
    assert(found is Some);
    assert(found == Some(o));
    pass_goes_on(inp, false, 0, len, pass(inp, true, len, a));
}

/// Nothing alike is left over: a new block goes without an old id, and an old block
/// without a new place, only where their contents differ.
pub proof fn nothing_alike_is_left_over(inp: InputView, n: int, o: int)
    requires
        inp.ok(),
        inp.old.len() <= usize::MAX,
        inp.new.len() <= usize::MAX,
        0 <= n < inp.new.len(),
        0 <= o < inp.old.len(),
    ensures
        note_carry(inp).assign[n] is None && !note_carry(inp).old_used[o]
            ==> inp.new[n].content_hash != inp.old[o].content_hash,
{
    let len = inp.new.len() as int;
    claims_pass_by(inp, len);
    let a = claims(inp, len);
    pass_goes_on(inp, true, 0, len, a);
    let b = pass(inp, true, len, a);
    let end = pass(inp, false, len, b);
    assert(note_carry(inp) == end);
    pass_goes_on(inp, false, 0, len, b);
    if end.assign[n] is None && !end.old_used[o] {
        assert(b.assign[n] is None);
        let found = pass_at(inp, false, n, b);
        let before = pass(inp, false, n, b);
        let p = alike(inp, before.old_used, inp.new[n], false);
        assert(!p(o));
    }
}

/// The pass by section binds a pair that is alike and that no claim concerns.
proof fn bound_by_section(inp: InputView, n: int, o: int)
    requires
        inp.ok(),
        inp.old.len() <= usize::MAX,
        inp.new.len() <= usize::MAX,
        0 <= n < inp.new.len(),
        0 <= o < inp.old.len(),
        inp.new[n].content_hash == inp.old[o].content_hash,
        inp.new[n].heading_path == inp.old[o].heading_path,
        unclaimed(inp, n, o),
        note_carry(inp).assign[n] == Some(inp.old_ids[o]),
    ensures
        ({
            let a = claims(inp, inp.new.len() as int);
            let before = pass(inp, true, n, a);
            &&& !before.old_used[o]
            &&& pass(inp, true, n + 1, a).old_used[o]
            &&& forall|i: int|
                0 <= i < o && inp.old[i].content_hash == inp.old[o].content_hash
                    && inp.old[i].heading_path == inp.old[o].heading_path
                    ==> #[trigger] before.old_used[i]
        }),
{
    let len = inp.new.len() as int;
    pair_after_claims(inp, n, o);
    let a = claims(inp, len);
    let found = pass_at(inp, true, n, a);
    let before = pass(inp, true, n, a);
    let p = alike(inp, before.old_used, inp.new[n], true);
    let b = pass(inp, true, len, a);
    match found {
        Some(i) => {
            pass_goes_on(inp, false, 0, len, b);
            assert(inp.old_ids[i] == inp.old_ids[o]);
            assert(i == o);
            assert forall|i: int|
                0 <= i < o && inp.old[i].content_hash == inp.old[o].content_hash
                    && inp.old[i].heading_path == inp.old[o].heading_path implies
                #[trigger] before.old_used[i] by {
                assert(!p(i));
            }
        },
        None => {
            assert(!p(o));
            assert(before.old_used[o]);
            let again = pass_at(inp, false, n, b);
            let i = again->0;
            assert(inp.old_ids[i] == inp.old_ids[o]);
            assert(b.old_used[o]);
            assert(pass(inp, false, n, b).old_used[o]);
        },
    }
}

/// Copies pair in order: of blocks with the same content in the same section that no
/// claim concerns, an earlier one never takes the place of a later one.
pub proof fn copies_pair_in_order(inp: InputView, n: int, o: int, later: int, other: int)
    requires
        inp.ok(),
        inp.old.len() <= usize::MAX,
        inp.new.len() <= usize::MAX,
        0 <= n < later < inp.new.len(),
        0 <= o < inp.old.len(),
        0 <= other < inp.old.len(),
        inp.new[n].content_hash == inp.old[o].content_hash,
        inp.new[n].heading_path == inp.old[o].heading_path,
        inp.new[later].content_hash == inp.new[n].content_hash,
        inp.new[later].heading_path == inp.new[n].heading_path,
        inp.old[other].content_hash == inp.old[o].content_hash,
        inp.old[other].heading_path == inp.old[o].heading_path,
        unclaimed(inp, n, o),
        unclaimed(inp, later, other),
        note_carry(inp).assign[n] == Some(inp.old_ids[o]),
        note_carry(inp).assign[later] == Some(inp.old_ids[other]),
    ensures
        o < other,
{
    let len = inp.new.len() as int;
    let a = claims(inp, len);
    bound_by_section(inp, n, o);
    bound_by_section(inp, later, other);
    pair_after_claims(inp, n, o);
    pass_goes_on(inp, true, n, later, a);
    pass_goes_on(inp, true, n + 1, later, a);
    if other < o {
        assert(pass(inp, true, n, a).old_used[other]);
        assert(pass(inp, true, later, a).old_used[other]);
    } else if other == o {
        assert(pass(inp, true, later, a).old_used[o]);
    }
}

/// What is new is minted: a block whose content no old block has, and whose marker no
/// old block holds, takes no old id.
pub proof fn what_is_new_is_minted(inp: InputView, n: int)
    requires
        inp.ok(),
        inp.old.len() <= usize::MAX,
        inp.new.len() <= usize::MAX,
        0 <= n < inp.new.len(),
        unlike_any(inp, n),
    ensures
        note_carry(inp).assign[n] is None,
{
    let len = inp.new.len() as int;
    claims_pass_by(inp, len);
    let a = claims(inp, len);
    let found = pass_at(inp, true, n, a);
    assert(found is None);
    let b = pass(inp, true, len, a);
    let again = pass_at(inp, false, n, b);
    assert(again is None);
}

/// Carrying over a scope uses no old block that is outside the scope.
pub proof fn scoped_spares(
    inp: InputView,
    old_idxs: Seq<usize>,
    new_idxs: Seq<usize>,
    st: CarryView,
    o: int,
)
    requires
        0 <= o < st.old_used.len(),
        !st.old_used[o],
        within(old_idxs, st.old_used.len() as int),
        forall|k: int| 0 <= k < old_idxs.len() ==> #[trigger] old_idxs[k] != o,
    ensures
        !scoped(inp, old_idxs, new_idxs, st).old_used[o],
{
    let n = new_idxs.len() as int;
    claimed_spares(inp, old_idxs, new_idxs, n, st, o);
    let a = claimed(inp, old_idxs, new_idxs, n, st);
    matched_spares(inp, old_idxs, new_idxs, true, n, a, o);
    let b = matched(inp, old_idxs, new_idxs, true, n, a);
    matched_spares(inp, old_idxs, new_idxs, false, n, b, o);
}

proof fn claimed_spares(
    inp: InputView,
    old_idxs: Seq<usize>,
    new_idxs: Seq<usize>,
    k: int,
    st: CarryView,
    o: int,
)
    requires
        0 <= o < st.old_used.len(),
        !st.old_used[o],
        within(old_idxs, st.old_used.len() as int),
        forall|i: int| 0 <= i < old_idxs.len() ==> #[trigger] old_idxs[i] != o,
    ensures
        claimed(inp, old_idxs, new_idxs, k, st).old_used.len() == st.old_used.len(),
        !claimed(inp, old_idxs, new_idxs, k, st).old_used[o],
    decreases k,
{
    if k > 0 {
        claimed_spares(inp, old_idxs, new_idxs, k - 1, st, o);
        if let Some(r) = inp.new[new_idxs[k - 1] as int].block_ref_id {
            let j = first_where_pos(old_idxs, holds(inp, st.old_used, r));
            assert(first_where(old_idxs, holds(inp, st.old_used, r)) is Some ==> old_idxs[j] != o
                && old_idxs[j] < st.old_used.len());
        }
    }
}

proof fn matched_spares(
    inp: InputView,
    old_idxs: Seq<usize>,
    new_idxs: Seq<usize>,
    section: bool,
    k: int,
    st: CarryView,
    o: int,
)
    requires
        0 <= o < st.old_used.len(),
        !st.old_used[o],
        within(old_idxs, st.old_used.len() as int),
        forall|i: int| 0 <= i < old_idxs.len() ==> #[trigger] old_idxs[i] != o,
    ensures
        matched(inp, old_idxs, new_idxs, section, k, st).old_used.len() == st.old_used.len(),
        !matched(inp, old_idxs, new_idxs, section, k, st).old_used[o],
    decreases k,
{
    if k > 0 {
        matched_spares(inp, old_idxs, new_idxs, section, k - 1, st, o);
        let before = matched(inp, old_idxs, new_idxs, section, k - 1, st);
        let p = alike(inp, before.old_used, inp.new[new_idxs[k - 1] as int], section);
        let j = first_where_pos(old_idxs, p);
        assert(first_where(old_idxs, p) is Some ==> old_idxs[j] != o && old_idxs[j]
            < st.old_used.len());
    }
}

/// An id that is not carried is not in the new note, where fresh ids are new.
pub proof fn what_is_not_carried_is_gone(
    inp: InputView,
    st: CarryView,
    fresh: Seq<Uuid>,
    o: int,
)
    requires
        inp.ok(),
        st.ok(inp),
        fresh.len() >= st.assign.len(),
        0 <= o < inp.old.len(),
        !st.old_used[o],
        !fresh.contains(inp.old_ids[o]),
    ensures
        !final_ids(st.assign, fresh).contains(inp.old_ids[o]),
{
    let ids = final_ids(st.assign, fresh);
    if ids.contains(inp.old_ids[o]) {
        let n = choose|n: int| 0 <= n < ids.len() && ids[n] == inp.old_ids[o];
        if st.assign[n] is Some {
            let c = choose|c: int|
                0 <= c < st.old_used.len() && st.old_used[c] && #[trigger] carries(
                    inp,
                    st.assign,
                    n,
                    c,
                );
            assert(inp.old_ids[c] == inp.old_ids[o]);
        } else {
            open_slots_bound(st.assign, n);
            assert(fresh[open_slots(st.assign, n) as int] == inp.old_ids[o]);
        }
    }
}

/// Carrying over a scope assigns nothing to a new block that is outside the scope.
pub proof fn scoped_passes_by(
    inp: InputView,
    old_idxs: Seq<usize>,
    new_idxs: Seq<usize>,
    st: CarryView,
    n: int,
)
    requires
        within(new_idxs, st.assign.len() as int),
        0 <= n < st.assign.len(),
        forall|k: int| 0 <= k < new_idxs.len() ==> #[trigger] new_idxs[k] != n,
    ensures
        scoped(inp, old_idxs, new_idxs, st).assign[n] == st.assign[n],
{
    let len = new_idxs.len() as int;
    claimed_passes_by(inp, old_idxs, new_idxs, len, st, n);
    let a = claimed(inp, old_idxs, new_idxs, len, st);
    matched_passes_by(inp, old_idxs, new_idxs, true, len, a, n);
    let b = matched(inp, old_idxs, new_idxs, true, len, a);
    matched_passes_by(inp, old_idxs, new_idxs, false, len, b, n);
}

proof fn claimed_passes_by(
    inp: InputView,
    old_idxs: Seq<usize>,
    new_idxs: Seq<usize>,
    k: int,
    st: CarryView,
    n: int,
)
    requires
        within(new_idxs, st.assign.len() as int),
        k <= new_idxs.len(),
        0 <= n < st.assign.len(),
        forall|i: int| 0 <= i < new_idxs.len() ==> #[trigger] new_idxs[i] != n,
    ensures
        claimed(inp, old_idxs, new_idxs, k, st).assign.len() == st.assign.len(),
        claimed(inp, old_idxs, new_idxs, k, st).assign[n] == st.assign[n],
    decreases k,
{
    if k > 0 {
        claimed_passes_by(inp, old_idxs, new_idxs, k - 1, st, n);
        assert(new_idxs[k - 1] != n && new_idxs[k - 1] < st.assign.len());
    }
}

proof fn matched_passes_by(
    inp: InputView,
    old_idxs: Seq<usize>,
    new_idxs: Seq<usize>,
    section: bool,
    k: int,
    st: CarryView,
    n: int,
)
    requires
        within(new_idxs, st.assign.len() as int),
        k <= new_idxs.len(),
        0 <= n < st.assign.len(),
        forall|i: int| 0 <= i < new_idxs.len() ==> #[trigger] new_idxs[i] != n,
    ensures
        matched(inp, old_idxs, new_idxs, section, k, st).assign.len() == st.assign.len(),
        matched(inp, old_idxs, new_idxs, section, k, st).assign[n] == st.assign[n],
    decreases k,
{
    if k > 0 {
        matched_passes_by(inp, old_idxs, new_idxs, section, k - 1, st, n);
        assert(new_idxs[k - 1] != n && new_idxs[k - 1] < st.assign.len());
    }
}

} // verus!
