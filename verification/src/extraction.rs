//! The extraction indexes: the edges and tags of a note, reconciled by their
//! natural keys against a whole parse.

use vstd::prelude::*;
use vstd::string::*;

use crate::document::{opt_text, LinkRef, LinkView, TagRef, TagView};
use crate::ids::Uuid;
use crate::json::{text_before, text_less};
use crate::refs::{links_below, tags_below};
use crate::store::{
    anchor_columns, batch_resolution, name_rows, nullif_empty, path_rows, resolve_targets,
    split_anchor, Resolution,
};
use crate::text::str_eq;

verus! {

/// What a key is: a number, then texts.
pub type KeyView = (int, Seq<Seq<char>>);

/// Lists of texts in the order of their first difference, from `i` on.
pub open spec fn texts_less(a: Seq<Seq<char>>, b: Seq<Seq<char>>, i: int) -> bool
    decreases a.len() - i,
{
    if i < 0 || i >= a.len() || i >= b.len() {
        false
    } else if a[i] == b[i] {
        texts_less(a, b, i + 1)
    } else {
        text_less(a[i], b[i])
    }
}

/// The order of keys.
pub open spec fn key_less(a: KeyView, b: KeyView) -> bool {
    a.0 < b.0 || (a.0 == b.0 && texts_less(a.1, b.1, 0))
}

/// Something with a key.
pub trait Keyed: Sized {
    spec fn key(&self) -> KeyView;

    /// Whether the key comes before another.
    fn before(&self, other: &Self) -> (r: bool)
        ensures
            r == key_less(self.key(), other.key()),
    ;

    /// Whether the keys are the same.
    fn same(&self, other: &Self) -> (r: bool)
        ensures
            r == (self.key() == other.key()),
    ;

    /// A copy with the same key.
    fn copy(&self) -> (r: Self)
        ensures
            r.key() == self.key(),
    ;
}

/// Keys with one more, each once, in order.
pub open spec fn with_key(s: Seq<KeyView>, k: KeyView) -> Seq<KeyView>
    decreases s.len(),
{
    if s.len() == 0 {
        seq![k]
    } else if s[0] == k {
        s
    } else if key_less(k, s[0]) {
        seq![k] + s
    } else {
        seq![s[0]] + with_key(s.drop_first(), k)
    }
}

/// The first `n` keys, each once, in order.
pub open spec fn key_set(s: Seq<KeyView>, n: int) -> Seq<KeyView>
    decreases n,
{
    if n <= 0 {
        Seq::empty()
    } else {
        with_key(key_set(s, n - 1), s[n - 1])
    }
}

pub open spec fn keys<K: Keyed>(v: Seq<K>) -> Seq<KeyView> {
    Seq::new(v.len(), |i: int| v[i].key())
}

proof fn with_key_after(s: Seq<KeyView>, k: KeyView, n: int)
    requires
        0 <= n <= s.len(),
        forall|i: int| 0 <= i < n ==> #[trigger] s[i] != k && !key_less(k, s[i]),
    ensures
        with_key(s, k) == s.take(n) + with_key(s.skip(n), k),
    decreases n,
{
    if n == 0 {
        assert(s.take(0) + with_key(s, k) =~= with_key(s, k));
        assert(s.skip(0) =~= s);
    } else {
        assert(s[0] != k && !key_less(k, s[0]));
        let t = s.drop_first();
        assert forall|i: int| 0 <= i < n - 1 implies #[trigger] t[i] != k && !key_less(k, t[i]) by {
            assert(t[i] == s[i + 1]);
        }
        with_key_after(t, k, n - 1);
        assert(t.skip(n - 1) =~= s.skip(n));
        assert(seq![s[0]] + (t.take(n - 1) + with_key(s.skip(n), k)) =~= s.take(n) + with_key(
            s.skip(n),
            k,
        ));
    }
}

/// Adds a key, where it is not there yet, in its place.
pub fn insert_key<K: Keyed>(v: &mut Vec<K>, k: K)
    ensures
        keys(final(v)@) == with_key(keys(old(v)@), k.key()),
{
    let ghost s = keys(v@);
    let ghost key = k.key();
    let mut i: usize = 0;
    while i < v.len() && !v[i].same(&k) && !k.before(&v[i])
        invariant
            i <= v.len(),
            s == keys(v@),
            key == k.key(),
            forall|j: int| 0 <= j < i ==> #[trigger] s[j] != key && !key_less(key, s[j]),
        decreases v.len() - i,
    {
        assert(s[i as int] == v[i as int].key());
        i += 1;
    }
    proof {
        with_key_after(s, key, i as int);
    }
    let ghost rest = s.skip(i as int);
    if i < v.len() && v[i].same(&k) {
        proof {
            assert(rest[0] == v[i as int].key());
            assert(s.take(i as int) + rest =~= s);
        }
        return;
    }
    let ghost before = v@;
    v.insert(i, k);
    proof {
        if i < before.len() {
            assert(rest[0] == before[i as int].key());
        }
        assert(with_key(rest, key) =~= seq![key] + rest);
        assert(keys(v@) =~= s.take(i as int) + (seq![key] + rest));
    }
}

/// Whether a key is among others.
pub fn has_key<K: Keyed>(v: &Vec<K>, k: &K) -> (r: bool)
    ensures
        r == keys(v@).contains(k.key()),
{
    let ghost s = keys(v@);
    let mut i: usize = 0;
    while i < v.len()
        invariant
            i <= v.len(),
            s == keys(v@),
            forall|j: int| 0 <= j < i ==> #[trigger] s[j] != k.key(),
        decreases v.len() - i,
    {
        assert(s[i as int] == v[i as int].key());
        if v[i].same(k) {
            return true;
        }
        i += 1;
    }
    false
}

// ---- the order is an order ----

pub proof fn text_less_order(a: Seq<char>, b: Seq<char>, c: Seq<char>)
    ensures
        !text_less(a, a),
        text_less(a, b) && text_less(b, c) ==> text_less(a, c),
        a != b ==> text_less(a, b) || text_less(b, a),
    decreases a.len() + b.len() + c.len(),
{
    if a.len() > 0 {
        text_less_irreflexive(a);
    }
    if a.len() > 0 && b.len() > 0 {
        if a[0] == b[0] {
            if c.len() > 0 {
                text_less_order(a.drop_first(), b.drop_first(), c.drop_first());
            } else {
                text_less_order(a.drop_first(), b.drop_first(), c);
            }
            if a.drop_first() == b.drop_first() {
                assert(a =~= seq![a[0]] + a.drop_first());
                assert(b =~= seq![b[0]] + b.drop_first());
            }
        }
    }
    if a.len() == 0 && b.len() == 0 {
        assert(a =~= b);
    }
}

proof fn text_less_irreflexive(a: Seq<char>)
    ensures
        !text_less(a, a),
    decreases a.len(),
{
    if a.len() > 0 {
        text_less_irreflexive(a.drop_first());
    }
}

proof fn texts_less_order(a: Seq<Seq<char>>, b: Seq<Seq<char>>, c: Seq<Seq<char>>, i: int)
    requires
        a.len() == b.len() == c.len(),
        0 <= i <= a.len(),
    ensures
        !texts_less(a, a, i),
        texts_less(a, b, i) && texts_less(b, c, i) ==> texts_less(a, c, i),
        (exists|k: int| i <= k < a.len() && #[trigger] a[k] != b[k]) ==> texts_less(a, b, i)
            || texts_less(b, a, i),
    decreases a.len() - i,
{
    if i < a.len() {
        texts_less_order(a, b, c, i + 1);
        text_less_order(a[i], b[i], c[i]);
        text_less_order(b[i], a[i], c[i]);
        if a[i] == b[i] {
            if exists|k: int| i <= k < a.len() && #[trigger] a[k] != b[k] {
                let k = choose|k: int| i <= k < a.len() && #[trigger] a[k] != b[k];
                assert(i + 1 <= k && a[k] != b[k]);
            }
        }
    }
}

/// The order of keys of one length is strict and total.
pub proof fn key_order(a: KeyView, b: KeyView, c: KeyView)
    requires
        a.1.len() == b.1.len() == c.1.len(),
    ensures
        !key_less(a, a),
        key_less(a, b) && key_less(b, c) ==> key_less(a, c),
        a != b ==> key_less(a, b) || key_less(b, a),
{
    texts_less_order(a.1, b.1, c.1, 0);
    if a != b && a.0 == b.0 {
        if forall|k: int| 0 <= k < a.1.len() ==> a.1[k] == b.1[k] {
            assert(a.1 =~= b.1);
        } else {
            let k = choose|k: int| 0 <= k < a.1.len() && a.1[k] != b.1[k];
            assert(a.1[k] != b.1[k]);
        }
    }
}

/// Keys in order, each once, all of one length.
pub open spec fn in_order(s: Seq<KeyView>, width: nat) -> bool {
    &&& forall|i: int| 0 <= i < s.len() ==> (#[trigger] s[i]).1.len() == width
    &&& forall|i: int, j: int| 0 <= i < j < s.len() ==> key_less(#[trigger] s[i], #[trigger] s[j])
}

proof fn with_key_in_order(s: Seq<KeyView>, k: KeyView, width: nat)
    requires
        in_order(s, width),
        k.1.len() == width,
    ensures
        in_order(with_key(s, k), width),
        forall|x: KeyView| #[trigger] with_key(s, k).contains(x) <==> s.contains(x) || x == k,
    decreases s.len(),
{
    let r = with_key(s, k);
    if s.len() == 0 {
        assert(r[0] == k);
        assert forall|x: KeyView| #[trigger] r.contains(x) <==> s.contains(x) || x == k by {
            if x == k {
                assert(r[0] == x);
            }
        }
    } else if s[0] == k {
        assert(s.contains(k));
    } else if key_less(k, s[0]) {
        assert forall|i: int, j: int| 0 <= i < j < r.len() implies key_less(
            #[trigger] r[i],
            #[trigger] r[j],
        ) by {
            assert(r[j] == s[j - 1]);
            if i == 0 {
                if j > 1 {
                    key_order(k, s[0], s[j - 1]);
                }
            } else {
                assert(r[i] == s[i - 1]);
            }
        }
        assert forall|x: KeyView| #[trigger] r.contains(x) <==> s.contains(x) || x == k by {
            if x == k {
                assert(r[0] == x);
            }
            if s.contains(x) {
                let i = choose|i: int| 0 <= i < s.len() && s[i] == x;
                assert(r[i + 1] == x);
            }
            if r.contains(x) {
                let i = choose|i: int| 0 <= i < r.len() && r[i] == x;
                if i > 0 {
                    assert(s[i - 1] == x);
                }
            }
        }
    } else {
        let t = s.drop_first();
        assert forall|i: int, j: int| 0 <= i < j < t.len() implies key_less(
            #[trigger] t[i],
            #[trigger] t[j],
        ) by {
            assert(t[i] == s[i + 1] && t[j] == s[j + 1]);
        }
        assert forall|i: int| 0 <= i < t.len() implies (#[trigger] t[i]).1.len() == width by {
            assert(t[i] == s[i + 1]);
        }
        with_key_in_order(t, k, width);
        let u = with_key(t, k);
        assert(r == seq![s[0]] + u);
        assert forall|x: KeyView| #[trigger] r.contains(x) <==> s.contains(x) || x == k by {
            if r.contains(x) {
                let i = choose|i: int| 0 <= i < r.len() && r[i] == x;
                if i > 0 {
                    assert(u[i - 1] == x);
                    assert(u.contains(x));
                    if x != k {
                        let j = choose|j: int| 0 <= j < t.len() && t[j] == x;
                        assert(s[j + 1] == x);
                    }
                } else {
                    assert(s[0] == x);
                }
            }
            if s.contains(x) || x == k {
                if x == s[0] {
                    assert(r[0] == x);
                } else {
                    if x != k {
                        let j = choose|j: int| 0 <= j < s.len() && s[j] == x;
                        assert(t[j - 1] == x);
                        assert(t.contains(x));
                    }
                    assert(u.contains(x));
                    let i = choose|i: int| 0 <= i < u.len() && u[i] == x;
                    assert(r[i + 1] == x);
                }
            }
        }
        assert forall|i: int, j: int| 0 <= i < j < r.len() implies key_less(
            #[trigger] r[i],
            #[trigger] r[j],
        ) by {
            assert(r[j] == u[j - 1]);
            if i > 0 {
                assert(r[i] == u[i - 1]);
            } else {
                assert(u.contains(u[j - 1]));
                if u[j - 1] == k {
                    key_order(k, s[0], s[0]);
                } else {
                    assert(t.contains(u[j - 1]));
                    let m = choose|m: int| 0 <= m < t.len() && t[m] == u[j - 1];
                    assert(s[m + 1] == u[j - 1]);
                    assert(key_less(s[0], s[m + 1]));
                }
            }
        }
        assert forall|i: int| 0 <= i < r.len() implies (#[trigger] r[i]).1.len() == width by {
            if i > 0 {
                assert(r[i] == u[i - 1]);
            } else {
                assert(r[0] == s[0]);
            }
        }
    }
}

/// A key set holds exactly the keys it is made of, in order and each once.
pub proof fn key_set_is_exact(s: Seq<KeyView>, n: int, width: nat)
    requires
        0 <= n <= s.len(),
        forall|i: int| 0 <= i < s.len() ==> (#[trigger] s[i]).1.len() == width,
    ensures
        in_order(key_set(s, n), width),
        forall|x: KeyView| #[trigger] key_set(s, n).contains(x) <==> s.take(n).contains(x),
    decreases n,
{
    if n > 0 {
        key_set_is_exact(s, n - 1, width);
        with_key_in_order(key_set(s, n - 1), s[n - 1], width);
        assert forall|x: KeyView| #[trigger] key_set(s, n).contains(x) <==> s.take(n).contains(
            x,
        ) by {
            if s.take(n).contains(x) {
                let t = s.take(n);
                let i = choose|i: int| 0 <= i < t.len() && t[i] == x;
                if i < n - 1 {
                    assert(s.take(n - 1)[i] == x);
                }
            }
            if s.take(n - 1).contains(x) {
                let t = s.take(n - 1);
                let i = choose|i: int| 0 <= i < t.len() && t[i] == x;
                assert(s.take(n)[i] == x);
            }
            if x == s[n - 1] {
                assert(s.take(n)[n - 1] == x);
            }
        }
    }
}

// ---- edges ----

/// The natural key of an edge; the empty text stands for what is absent.
#[derive(Debug)]
pub struct EdgeKey {
    pub src_block: Uuid,
    pub kind: String,
    pub dst_path: String,
    pub dst_heading: String,
    pub dst_block_ref: String,
    pub alias: String,
}

fn first_text_before(a: &str, b: &str, otherwise: bool) -> (r: bool)
    ensures
        r == (if a@ == b@ {
            otherwise
        } else {
            text_less(a@, b@)
        }),
{
    if str_eq(a, b) {
        otherwise
    } else {
        text_before(a, b)
    }
}

impl Keyed for EdgeKey {
    open spec fn key(&self) -> KeyView {
        (
            self.src_block.value as int,
            seq![self.kind@, self.dst_path@, self.dst_heading@, self.dst_block_ref@, self.alias@],
        )
    }

    fn before(&self, other: &Self) -> (r: bool) {
        let texts = first_text_before(
            self.kind.as_str(),
            other.kind.as_str(),
            first_text_before(
                self.dst_path.as_str(),
                other.dst_path.as_str(),
                first_text_before(
                    self.dst_heading.as_str(),
                    other.dst_heading.as_str(),
                    first_text_before(
                        self.dst_block_ref.as_str(),
                        other.dst_block_ref.as_str(),
                        first_text_before(self.alias.as_str(), other.alias.as_str(), false),
                    ),
                ),
            ),
        );
        proof {
            reveal_with_fuel(texts_less, 6);
        }
        self.src_block.value < other.src_block.value || (self.src_block.value
            == other.src_block.value && texts)
    }

    fn same(&self, other: &Self) -> (r: bool) {
        let r = self.src_block.value == other.src_block.value && self.kind == other.kind
            && self.dst_path == other.dst_path && self.dst_heading == other.dst_heading
            && self.dst_block_ref == other.dst_block_ref && self.alias == other.alias;
        proof {
            let a = self.key().1;
            let b = other.key().1;
            if self.key() == other.key() {
                assert(a[0] == b[0] && a[1] == b[1] && a[2] == b[2] && a[3] == b[3] && a[4] == b[4]);
            }
            if r {
                assert(a =~= b);
            }
        }
        r
    }

    fn copy(&self) -> (r: Self) {
        EdgeKey {
            src_block: self.src_block,
            kind: self.kind.clone(),
            dst_path: self.dst_path.clone(),
            dst_heading: self.dst_heading.clone(),
            dst_block_ref: self.dst_block_ref.clone(),
            alias: self.alias.clone(),
        }
    }
}

pub open spec fn text_or_empty(o: Option<Seq<char>>) -> Seq<char> {
    match o {
        Some(t) => t,
        None => ""@,
    }
}

/// The key of the edge that a reference is.
pub open spec fn link_key(l: LinkView, ids: Seq<Uuid>) -> KeyView {
    let (heading, block_ref) = anchor_columns(l.anchor);
    (
        ids[l.block as int].value as int,
        seq![l.kind.name(), l.target, heading, block_ref, text_or_empty(l.alias)],
    )
}

pub open spec fn link_keys(links: Seq<LinkView>, ids: Seq<Uuid>) -> Seq<KeyView> {
    Seq::new(links.len(), |i: int| link_key(links[i], ids))
}

/// The keys of the edges that a note should have.
pub open spec fn desired_edges(links: Seq<LinkView>, ids: Seq<Uuid>) -> Seq<KeyView> {
    key_set(link_keys(links, ids), links.len() as int)
}

/// The edges that a note should have, each once, in order.
pub fn edges_of(links: &Vec<LinkRef>, ids: &Vec<Uuid>) -> (r: Vec<EdgeKey>)
    requires
        links_below(links.deep_view(), ids.len() as int),
    ensures
        keys(r@) == desired_edges(links.deep_view(), ids@),
{
    let ghost v = links.deep_view();
    let ghost all = link_keys(v, ids@);
    let mut out: Vec<EdgeKey> = Vec::new();
    let mut i: usize = 0;
    proof {
        assert(keys(out@) =~= Seq::empty());
    }
    while i < links.len()
        invariant
            i <= links.len(),
            v == links.deep_view(),
            all == link_keys(v, ids@),
            links_below(v, ids.len() as int),
            keys(out@) == key_set(all, i as int),
        decreases links.len() - i,
    {
        let l = &links[i];
        assert(v[i as int] == l.deep_view());
        let (dst_heading, dst_block_ref) = split_anchor(&l.anchor);
        let k = EdgeKey {
            src_block: ids[l.block as usize],
            kind: l.kind.tag().to_owned(),
            dst_path: l.target.clone(),
            dst_heading,
            dst_block_ref,
            alias: match &l.alias {
                Some(a) => a.clone(),
                None => "".to_owned(),
            },
        };
        assert(k.key() == all[i as int]);
        insert_key(&mut out, k);
        i += 1;
    }
    out
}

// ---- tags ----

/// The natural key of a tag; a tag of the note itself has no block.
#[derive(Debug)]
pub struct TagKey {
    pub block: Option<Uuid>,
    pub tag: String,
}

pub open spec fn block_rank(block: Option<Uuid>) -> int {
    match block {
        Some(b) => b.value as int,
        None => -1,
    }
}

impl Keyed for TagKey {
    open spec fn key(&self) -> KeyView {
        (block_rank(self.block), seq![self.tag@])
    }

    fn before(&self, other: &Self) -> (r: bool) {
        let texts = first_text_before(self.tag.as_str(), other.tag.as_str(), false);
        proof {
            reveal_with_fuel(texts_less, 2);
        }
        match (self.block, other.block) {
            (Some(a), Some(b)) => a.value < b.value || (a.value == b.value && texts),
            (Some(_), None) => false,
            (None, Some(_)) => true,
            (None, None) => texts,
        }
    }

    fn same(&self, other: &Self) -> (r: bool) {
        let blocks = match (self.block, other.block) {
            (Some(a), Some(b)) => a.value == b.value,
            (None, None) => true,
            _ => false,
        };
        let r = blocks && self.tag == other.tag;
        proof {
            let a = self.key().1;
            let b = other.key().1;
            if self.key() == other.key() {
                assert(a[0] == b[0]);
            }
            if r {
                assert(a =~= b);
            }
        }
        r
    }

    fn copy(&self) -> (r: Self) {
        TagKey { block: self.block, tag: self.tag.clone() }
    }
}

pub open spec fn tag_key(t: TagView, ids: Seq<Uuid>) -> KeyView {
    (
        block_rank(
            match t.block {
                Some(b) => Some(ids[b as int]),
                None => None,
            },
        ),
        seq![t.tag],
    )
}

pub open spec fn tag_keys(tags: Seq<TagView>, ids: Seq<Uuid>) -> Seq<KeyView> {
    Seq::new(tags.len(), |i: int| tag_key(tags[i], ids))
}

/// The keys of the tags that a note should have.
pub open spec fn desired_tags(tags: Seq<TagView>, ids: Seq<Uuid>) -> Seq<KeyView> {
    key_set(tag_keys(tags, ids), tags.len() as int)
}

/// The tags that a note should have, each once, in order.
pub fn tags_of(tags: &Vec<TagRef>, ids: &Vec<Uuid>) -> (r: Vec<TagKey>)
    requires
        tags_below(tags.deep_view(), ids.len() as int),
    ensures
        keys(r@) == desired_tags(tags.deep_view(), ids@),
{
    let ghost v = tags.deep_view();
    let ghost all = tag_keys(v, ids@);
    let mut out: Vec<TagKey> = Vec::new();
    let mut i: usize = 0;
    proof {
        assert(keys(out@) =~= Seq::empty());
    }
    while i < tags.len()
        invariant
            i <= tags.len(),
            v == tags.deep_view(),
            all == tag_keys(v, ids@),
            tags_below(v, ids.len() as int),
            keys(out@) == key_set(all, i as int),
        decreases tags.len() - i,
    {
        let t = &tags[i];
        assert(v[i as int] == t.deep_view());
        let k = TagKey {
            block: match t.block {
                Some(b) => Some(ids[b as usize]),
                None => None,
            },
            tag: t.tag.clone(),
        };
        assert(k.key() == all[i as int]);
        insert_key(&mut out, k);
        i += 1;
    }
    out
}

// ---- reconciling ----

/// The rows that are there, by their numbers.
pub open spec fn row_keys<K: Keyed>(v: Seq<(i64, K)>) -> Seq<(i64, KeyView)> {
    Seq::new(v.len(), |i: int| (v[i].0, v[i].1.key()))
}

/// The numbers of the first `n` rows whose keys are no longer wanted.
pub open spec fn stale_rows(have: Seq<(i64, KeyView)>, want: Seq<KeyView>, n: int) -> Seq<i64>
    decreases n,
{
    if n <= 0 {
        Seq::empty()
    } else if want.contains(have[n - 1].1) {
        stale_rows(have, want, n - 1)
    } else {
        stale_rows(have, want, n - 1).push(have[n - 1].0)
    }
}

/// Some row has this key.
pub open spec fn is_there(have: Seq<(i64, KeyView)>, k: KeyView) -> bool {
    exists|i: int| 0 <= i < have.len() && (#[trigger] have[i]).1 == k
}

/// The first `n` wanted keys that no row has.
pub open spec fn new_keys(have: Seq<(i64, KeyView)>, want: Seq<KeyView>, n: int) -> Seq<KeyView>
    decreases n,
{
    if n <= 0 {
        Seq::empty()
    } else if is_there(have, want[n - 1]) {
        new_keys(have, want, n - 1)
    } else {
        new_keys(have, want, n - 1).push(want[n - 1])
    }
}

fn row_there<K: Keyed>(have: &Vec<(i64, K)>, k: &K) -> (r: bool)
    ensures
        r == is_there(row_keys(have@), k.key()),
{
    let ghost h = row_keys(have@);
    let mut i: usize = 0;
    while i < have.len()
        invariant
            i <= have.len(),
            h == row_keys(have@),
            forall|j: int| 0 <= j < i ==> (#[trigger] h[j]).1 != k.key(),
        decreases have.len() - i,
    {
        assert(h[i as int].1 == have[i as int].1.key());
        if have[i].1.same(k) {
            return true;
        }
        i += 1;
    }
    false
}

/// The numbers of the rows to delete, and the keys of those to insert, in
/// order.
pub fn reconcile_keys<K: Keyed>(have: &Vec<(i64, K)>, want: &Vec<K>) -> (r: (Vec<i64>, Vec<K>))
    ensures
        r.0@ == stale_rows(row_keys(have@), keys(want@), have.len() as int),
        keys(r.1@) == new_keys(row_keys(have@), keys(want@), want.len() as int),
{
    let ghost h = row_keys(have@);
    let ghost w = keys(want@);
    let mut stale: Vec<i64> = Vec::new();
    let mut i: usize = 0;
    while i < have.len()
        invariant
            i <= have.len(),
            h == row_keys(have@),
            w == keys(want@),
            stale@ == stale_rows(h, w, i as int),
        decreases have.len() - i,
    {
        assert(h[i as int] == (have[i as int].0, have[i as int].1.key()));
        if !has_key(want, &have[i].1) {
            stale.push(have[i].0);
        }
        i += 1;
    }
    let mut new: Vec<K> = Vec::new();
    let mut k: usize = 0;
    proof {
        assert(keys(new@) =~= Seq::empty());
    }
    while k < want.len()
        invariant
            k <= want.len(),
            h == row_keys(have@),
            w == keys(want@),
            keys(new@) == new_keys(h, w, k as int),
        decreases want.len() - k,
    {
        assert(w[k as int] == want[k as int].key());
        if !row_there(have, &want[k]) {
            let ghost before = keys(new@);
            let c = want[k].copy();
            new.push(c);
            assert(keys(new@) =~= before.push(c.key()));
        }
        k += 1;
    }
    (stale, new)
}

proof fn stale_rows_are(have: Seq<(i64, KeyView)>, want: Seq<KeyView>, n: int, id: i64)
    requires
        0 <= n <= have.len(),
    ensures
        stale_rows(have, want, n).contains(id) <==> exists|i: int|
            0 <= i < n && (#[trigger] have[i]).0 == id && !want.contains(have[i].1),
    decreases n,
{
    if n > 0 {
        stale_rows_are(have, want, n - 1, id);
        let before = stale_rows(have, want, n - 1);
        let after = stale_rows(have, want, n);
        if !want.contains(have[n - 1].1) {
            assert(after == before.push(have[n - 1].0));
            if before.contains(id) {
                let j = choose|j: int| 0 <= j < before.len() && before[j] == id;
                assert(after[j] == id);
            }
            if have[n - 1].0 == id {
                assert(after[before.len() as int] == id);
            }
            if after.contains(id) && id != have[n - 1].0 {
                let j = choose|j: int| 0 <= j < after.len() && after[j] == id;
                assert(before[j] == id);
            }
        }
        if exists|i: int| 0 <= i < n && (#[trigger] have[i]).0 == id && !want.contains(have[i].1) {
            let i = choose|i: int|
                0 <= i < n && (#[trigger] have[i]).0 == id && !want.contains(have[i].1);
            if i < n - 1 {
                assert(have[i].0 == id);
            }
        }
    }
}

proof fn new_keys_are(have: Seq<(i64, KeyView)>, want: Seq<KeyView>, n: int, k: KeyView)
    requires
        0 <= n <= want.len(),
    ensures
        new_keys(have, want, n).contains(k) <==> want.take(n).contains(k) && !is_there(have, k),
    decreases n,
{
    if n > 0 {
        new_keys_are(have, want, n - 1, k);
        let before = new_keys(have, want, n - 1);
        let after = new_keys(have, want, n);
        let t = want.take(n);
        let u = want.take(n - 1);
        if t.contains(k) {
            let i = choose|i: int| 0 <= i < t.len() && t[i] == k;
            if i < n - 1 {
                assert(u[i] == k);
            }
        }
        if u.contains(k) {
            let i = choose|i: int| 0 <= i < u.len() && u[i] == k;
            assert(t[i] == k);
        }
        if want[n - 1] == k {
            assert(t[n - 1] == k);
        }
        if !is_there(have, want[n - 1]) {
            assert(after == before.push(want[n - 1]));
            if before.contains(k) {
                let j = choose|j: int| 0 <= j < before.len() && before[j] == k;
                assert(after[j] == k);
            }
            if want[n - 1] == k {
                assert(after[before.len() as int] == k);
            }
            if after.contains(k) && k != want[n - 1] {
                let j = choose|j: int| 0 <= j < after.len() && after[j] == k;
                assert(before[j] == k);
            }
        }
    } else {
        assert(want.take(0).len() == 0);
    }
}

/// Some row that is not deleted has this key.
pub open spec fn is_kept(have: Seq<(i64, KeyView)>, stale: Seq<i64>, k: KeyView) -> bool {
    exists|i: int|
        0 <= i < have.len() && (#[trigger] have[i]).1 == k && !stale.contains(have[i].0)
}

/// Reconciling is recomputing: the rows that are kept and the rows that are
/// inserted have exactly the wanted keys, and no key is inserted that is there.
pub proof fn reconciling_is_recomputing(have: Seq<(i64, KeyView)>, want: Seq<KeyView>, k: KeyView)
    requires
        forall|a: int, b: int|
            0 <= a < b < have.len() ==> (#[trigger] have[a]).0 != (#[trigger] have[b]).0,
    ensures
        ({
            let stale = stale_rows(have, want, have.len() as int);
            let new = new_keys(have, want, want.len() as int);
            &&& want.contains(k) <==> is_kept(have, stale, k) || new.contains(k)
            &&& !(is_kept(have, stale, k) && new.contains(k))
        }),
{
    let stale = stale_rows(have, want, have.len() as int);
    new_keys_are(have, want, want.len() as int, k);
    assert(want.take(want.len() as int) =~= want);
    assert forall|i: int| 0 <= i < have.len() && (#[trigger] have[i]).1 == k implies (
    want.contains(k) <==> !stale.contains(have[i].0)) by {
        stale_rows_are(have, want, have.len() as int, have[i].0);
        if stale.contains(have[i].0) {
            let j = choose|j: int|
                0 <= j < have.len() && (#[trigger] have[j]).0 == have[i].0 && !want.contains(
                    have[j].1,
                );
            if i < j {
                assert(have[i].0 != have[j].0);
            } else if j < i {
                assert(have[j].0 != have[i].0);
            }
        }
    }
    if is_there(have, k) {
        let i = choose|i: int| 0 <= i < have.len() && (#[trigger] have[i]).1 == k;
        assert(have[i].1 == k);
    }
}

/// Where every row is wanted and every wanted key is there, nothing is written.
pub proof fn reconciled_rows_are_not_written(
    have: Seq<(i64, KeyView)>,
    want: Seq<KeyView>,
    n: int,
    m: int,
)
    requires
        0 <= n <= have.len(),
        0 <= m <= want.len(),
        forall|i: int| 0 <= i < have.len() ==> want.contains((#[trigger] have[i]).1),
        forall|i: int| 0 <= i < want.len() ==> is_there(have, #[trigger] want[i]),
    ensures
        stale_rows(have, want, n).len() == 0,
        new_keys(have, want, m).len() == 0,
    decreases n + m,
{
    if n > 0 {
        reconciled_rows_are_not_written(have, want, n - 1, m);
    } else if m > 0 {
        reconciled_rows_are_not_written(have, want, n, m - 1);
    }
}

/// The edges that a note should have are those of its references, each once.
pub proof fn desired_edges_are_the_links(links: Seq<LinkView>, ids: Seq<Uuid>)
    ensures
        in_order(desired_edges(links, ids), 5),
        forall|k: KeyView| #[trigger]
            desired_edges(links, ids).contains(k) <==> exists|i: int|
                0 <= i < links.len() && k == link_key(#[trigger] links[i], ids),
{
    let all = link_keys(links, ids);
    let n = links.len() as int;
    key_set_is_exact(all, n, 5);
    assert(all.take(n) =~= all);
    assert forall|k: KeyView| #[trigger] desired_edges(links, ids).contains(k) <==> exists|i: int|
        0 <= i < links.len() && k == link_key(#[trigger] links[i], ids) by {
        if all.contains(k) {
            let i = choose|i: int| 0 <= i < all.len() && all[i] == k;
            assert(k == link_key(links[i], ids));
        }
        if exists|i: int| 0 <= i < links.len() && k == link_key(#[trigger] links[i], ids) {
            let i = choose|i: int| 0 <= i < links.len() && k == link_key(#[trigger] links[i], ids);
            assert(all[i] == k);
        }
    }
}

/// The tags that a note should have are those of its document, each once.
pub proof fn desired_tags_are_the_tags(tags: Seq<TagView>, ids: Seq<Uuid>)
    ensures
        in_order(desired_tags(tags, ids), 1),
        forall|k: KeyView| #[trigger]
            desired_tags(tags, ids).contains(k) <==> exists|i: int|
                0 <= i < tags.len() && k == tag_key(#[trigger] tags[i], ids),
{
    let all = tag_keys(tags, ids);
    let n = tags.len() as int;
    key_set_is_exact(all, n, 1);
    assert(all.take(n) =~= all);
    assert forall|k: KeyView| #[trigger] desired_tags(tags, ids).contains(k) <==> exists|i: int|
        0 <= i < tags.len() && k == tag_key(#[trigger] tags[i], ids) by {
        if all.contains(k) {
            let i = choose|i: int| 0 <= i < all.len() && all[i] == k;
            assert(k == tag_key(tags[i], ids));
        }
        if exists|i: int| 0 <= i < tags.len() && k == tag_key(#[trigger] tags[i], ids) {
            let i = choose|i: int| 0 <= i < tags.len() && k == tag_key(#[trigger] tags[i], ids);
            assert(all[i] == k);
        }
    }
}

// ---- the rows of new edges ----

impl Keyed for String {
    open spec fn key(&self) -> KeyView {
        (0, seq![self@])
    }

    fn before(&self, other: &Self) -> (r: bool) {
        proof {
            reveal_with_fuel(texts_less, 2);
        }
        first_text_before(self.as_str(), other.as_str(), false)
    }

    fn same(&self, other: &Self) -> (r: bool) {
        let r = *self == *other;
        proof {
            let a = self.key().1;
            let b = other.key().1;
            if self.key() == other.key() {
                assert(a[0] == b[0]);
            }
        }
        r
    }

    fn copy(&self) -> (r: Self) {
        self.clone()
    }
}

/// Texts as keys.
pub open spec fn path_keys(edges: Seq<EdgeKey>) -> Seq<KeyView> {
    Seq::new(edges.len(), |i: int| (0int, seq![edges[i].dst_path@]))
}

/// The distinct targets of edges, in order: what has to be resolved.
pub fn edge_targets(edges: &Vec<EdgeKey>) -> (r: Vec<String>)
    ensures
        keys(r@) == key_set(path_keys(edges@), edges.len() as int),
{
    let ghost all = path_keys(edges@);
    let mut out: Vec<String> = Vec::new();
    let mut i: usize = 0;
    proof {
        assert(keys(out@) =~= Seq::empty());
    }
    while i < edges.len()
        invariant
            i <= edges.len(),
            all == path_keys(edges@),
            keys(out@) == key_set(all, i as int),
        decreases edges.len() - i,
    {
        let t = edges[i].dst_path.clone();
        assert(t.key() == all[i as int]);
        insert_key(&mut out, t);
        i += 1;
    }
    out
}

/// A new edge as it is stored.
#[derive(Debug)]
pub struct EdgeRow {
    pub src_block: Uuid,
    pub kind: String,
    pub dst_path: String,
    pub dst_heading: Option<String>,
    pub dst_block_ref: Option<String>,
    pub alias: Option<String>,
    pub resolution: Resolution,
}

fn null_if_empty(s: &String) -> (r: Option<String>)
    ensures
        opt_text(r) == nullif_empty(s@),
{
    if s.as_str().unicode_len() == 0 {
        None
    } else {
        Some(s.clone())
    }
}

/// A row holds what an edge's key says, resolved.
pub open spec fn stores(row: EdgeRow, k: EdgeKey, resolution: Resolution) -> bool {
    &&& row.src_block == k.src_block
    &&& row.kind@ == k.kind@
    &&& row.dst_path@ == k.dst_path@
    &&& opt_text(row.dst_heading) == nullif_empty(k.dst_heading@)
    &&& opt_text(row.dst_block_ref) == nullif_empty(k.dst_block_ref@)
    &&& opt_text(row.alias) == nullif_empty(k.alias@)
    &&& row.resolution == resolution
}

/// The rows of new edges, each resolved by the rows of the two queries.
pub fn edge_rows(
    new: &Vec<EdgeKey>,
    exact: &Vec<(String, Uuid)>,
    names: &Vec<(String, Uuid, i64)>,
) -> (r: Vec<EdgeRow>)
    ensures
        r.len() == new.len(),
        forall|i: int|
            0 <= i < r.len() ==> stores(
                #[trigger] r[i],
                new[i],
                batch_resolution(new[i].dst_path@, path_rows(exact@), name_rows(names@)),
            ),
{
    let mut paths: Vec<String> = Vec::new();
    let mut i: usize = 0;
    while i < new.len()
        invariant
            i <= new.len(),
            paths.len() == i,
            forall|k: int| 0 <= k < i ==> (#[trigger] paths[k])@ == new[k].dst_path@,
        decreases new.len() - i,
    {
        paths.push(new[i].dst_path.clone());
        i += 1;
    }
    let resolutions = resolve_targets(&paths, exact, names);
    let mut out: Vec<EdgeRow> = Vec::new();
    let mut k: usize = 0;
    while k < new.len()
        invariant
            k <= new.len(),
            out.len() == k,
            resolutions.len() == new.len(),
            forall|j: int|
                0 <= j < new.len() ==> #[trigger] resolutions[j] == batch_resolution(
                    new[j].dst_path@,
                    path_rows(exact@),
                    name_rows(names@),
                ),
            forall|j: int| 0 <= j < k ==> stores(#[trigger] out[j], new[j], resolutions[j]),
        decreases new.len() - k,
    {
        let e = &new[k];
        let row = EdgeRow {
            src_block: e.src_block,
            kind: e.kind.clone(),
            dst_path: e.dst_path.clone(),
            dst_heading: null_if_empty(&e.dst_heading),
            dst_block_ref: null_if_empty(&e.dst_block_ref),
            alias: null_if_empty(&e.alias),
            resolution: resolutions[k],
        };
        assert(stores(row, *e, resolutions[k as int]));
        out.push(row);
        k += 1;
    }
    out
}

/// The writes that bring the extraction indexes in line.
#[derive(Debug)]
pub struct ExtractionPlan {
    pub stale_edges: Vec<i64>,
    pub new_edges: Vec<EdgeKey>,
    pub stale_tags: Vec<i64>,
    pub new_tags: Vec<TagKey>,
}

/// The writes that bring the edges and tags of a note in line with its parse.
/// Rows are compared by their natural keys, and a key is stored once.
pub fn reconcile_extraction(
    links: &Vec<LinkRef>,
    tags: &Vec<TagRef>,
    ids: &Vec<Uuid>,
    edges: &Vec<(i64, EdgeKey)>,
    tag_rows: &Vec<(i64, TagKey)>,
) -> (r: ExtractionPlan)
    requires
        links_below(links.deep_view(), ids.len() as int),
        tags_below(tags.deep_view(), ids.len() as int),
    ensures
        ({
            let want = desired_edges(links.deep_view(), ids@);
            &&& r.stale_edges@ == stale_rows(row_keys(edges@), want, edges.len() as int)
            &&& keys(r.new_edges@) == new_keys(row_keys(edges@), want, want.len() as int)
        }),
        ({
            let want = desired_tags(tags.deep_view(), ids@);
            &&& r.stale_tags@ == stale_rows(row_keys(tag_rows@), want, tag_rows.len() as int)
            &&& keys(r.new_tags@) == new_keys(row_keys(tag_rows@), want, want.len() as int)
        }),
{
    let want_edges = edges_of(links, ids);
    let (stale_edges, new_edges) = reconcile_keys(edges, &want_edges);
    let want_tags = tags_of(tags, ids);
    let (stale_tags, new_tags) = reconcile_keys(tag_rows, &want_tags);
    assert(keys(want_edges@).len() == want_edges.len());
    assert(keys(want_tags@).len() == want_tags.len());
    ExtractionPlan { stale_edges, new_edges, stale_tags, new_tags }
}

} // verus!
