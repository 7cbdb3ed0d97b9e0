//! JSON values: note properties, block attributes, revision metadata.

use vstd::prelude::*;
use vstd::string::*;

use crate::text::{str_eq, to_chars};

verus! {

/// A JSON value. An object lists its members in ascending key order, each key
/// once. A number that is not an integer is held as its shortest decimal text.
#[derive(Debug)]
pub enum Json {
    Null,
    Bool(bool),
    Int(i128),
    Real(String),
    Str(String),
    Array(Vec<Json>),
    Object(Vec<(String, Json)>),
}

/// What a JSON value is.
pub ghost enum JsonView {
    Null,
    Bool(bool),
    Int(int),
    Real(Seq<char>),
    Str(Seq<char>),
    Array(Seq<JsonView>),
    Object(Seq<(Seq<char>, JsonView)>),
}

/// Views of the first `n` items.
pub open spec fn items_view(v: Vec<Json>, n: int) -> Seq<JsonView>
    decreases v, n,
{
    if n <= 0 || n > v.len() {
        Seq::empty()
    } else {
        items_view(v, n - 1).push(json_view(v[n - 1]))
    }
}

/// Views of the first `n` members.
pub open spec fn members_view(v: Vec<(String, Json)>, n: int) -> Seq<(Seq<char>, JsonView)>
    decreases v, n,
{
    if n <= 0 || n > v.len() {
        Seq::empty()
    } else {
        members_view(v, n - 1).push((v[n - 1].0@, json_view(v[n - 1].1)))
    }
}

pub open spec fn json_view(j: Json) -> JsonView
    decreases j, 0int,
{
    match j {
        Json::Null => JsonView::Null,
        Json::Bool(b) => JsonView::Bool(b),
        Json::Int(i) => JsonView::Int(i as int),
        Json::Real(s) => JsonView::Real(s@),
        Json::Str(s) => JsonView::Str(s@),
        Json::Array(v) => JsonView::Array(items_view(v, v.len() as int)),
        Json::Object(v) => JsonView::Object(members_view(v, v.len() as int)),
    }
}

impl View for Json {
    type V = JsonView;

    open spec fn view(&self) -> JsonView {
        json_view(*self)
    }
}

pub proof fn items_view_index(v: Vec<Json>, n: int)
    requires
        0 <= n <= v.len(),
    ensures
        items_view(v, n).len() == n,
        forall|i: int| 0 <= i < n ==> #[trigger] items_view(v, n)[i] == v[i]@,
    decreases n,
{
    if n > 0 {
        items_view_index(v, n - 1);
    }
}

pub proof fn members_view_index(v: Vec<(String, Json)>, n: int)
    requires
        0 <= n <= v.len(),
    ensures
        members_view(v, n).len() == n,
        forall|i: int|
            0 <= i < n ==> #[trigger] members_view(v, n)[i] == (v[i].0@, v[i].1@),
    decreases n,
{
    if n > 0 {
        members_view_index(v, n - 1);
    }
}

/// Views of members.
pub open spec fn member_list(v: Seq<(String, Json)>) -> Seq<(Seq<char>, JsonView)> {
    Seq::new(v.len(), |i: int| (v[i].0@, v[i].1@))
}

/// Views of items.
pub open spec fn item_list(v: Seq<Json>) -> Seq<JsonView> {
    Seq::new(v.len(), |i: int| v[i]@)
}

/// An object with these members, which are in ascending key order.
pub fn object_of(v: Vec<(String, Json)>) -> (r: Json)
    ensures
        r@ == JsonView::Object(member_list(v@)),
{
    proof {
        members_view_index(v, v.len() as int);
        assert(members_view(v, v.len() as int) =~= member_list(v@));
    }
    Json::Object(v)
}

/// An array of these items.
pub fn array_of(v: Vec<Json>) -> (r: Json)
    ensures
        r@ == JsonView::Array(item_list(v@)),
{
    proof {
        items_view_index(v, v.len() as int);
        assert(items_view(v, v.len() as int) =~= item_list(v@));
    }
    Json::Array(v)
}

/// Code point order of texts.
pub open spec fn text_less(a: Seq<char>, b: Seq<char>) -> bool
    decreases a.len(),
{
    if b.len() == 0 {
        false
    } else if a.len() == 0 {
        true
    } else if a[0] != b[0] {
        a[0] < b[0]
    } else {
        text_less(a.drop_first(), b.drop_first())
    }
}

proof fn text_less_from(a: Seq<char>, b: Seq<char>, n: int)
    requires
        0 <= n <= a.len(),
        n <= b.len(),
        forall|i: int| 0 <= i < n ==> #[trigger] a[i] == b[i],
    ensures
        text_less(a, b) == text_less(a.skip(n), b.skip(n)),
    decreases n,
{
    if n > 0 {
        let x = a.drop_first();
        let y = b.drop_first();
        assert forall|i: int| 0 <= i < n - 1 implies #[trigger] x[i] == y[i] by {
            assert(a[i + 1] == b[i + 1]);
        }
        assert(a[0] == b[0]);
        text_less_from(x, y, n - 1);
        assert(x.skip(n - 1) =~= a.skip(n));
        assert(y.skip(n - 1) =~= b.skip(n));
    } else {
        assert(a.skip(0) =~= a);
        assert(b.skip(0) =~= b);
    }
}

fn char_before(a: char, b: char) -> (r: bool)
    ensures
        r == (a < b),
{
    (a as u32) < (b as u32)
}

/// Whether `a` comes before `b` in code point order.
pub fn text_before(a: &str, b: &str) -> (r: bool)
    ensures
        r == text_less(a@, b@),
{
    let x = to_chars(a);
    let y = to_chars(b);
    let mut i: usize = 0;
    while i < x.len() && i < y.len() && x[i] == y[i]
        invariant
            i <= x.len(),
            i <= y.len(),
            x@ == a@,
            y@ == b@,
            forall|k: int| 0 <= k < i ==> #[trigger] x@[k] == y@[k],
        decreases x.len() - i,
    {
        i += 1;
    }
    proof {
        text_less_from(a@, b@, i as int);
        if i < x.len() && i < y.len() {
            assert(a@.skip(i as int)[0] == x@[i as int]);
            assert(b@.skip(i as int)[0] == y@[i as int]);
        }
    }
    if i >= y.len() {
        false
    } else if i >= x.len() {
        true
    } else {
        char_before(x[i], y[i])
    }
}

/// The value of the member `key`.
pub open spec fn member(m: Seq<(Seq<char>, JsonView)>, key: Seq<char>) -> Option<JsonView>
    decreases m.len(),
{
    if m.len() == 0 {
        None
    } else if m[0].0 == key {
        Some(m[0].1)
    } else {
        member(m.drop_first(), key)
    }
}

/// The members with `key` set to `value`.
pub open spec fn with_member(
    m: Seq<(Seq<char>, JsonView)>,
    key: Seq<char>,
    value: JsonView,
) -> Seq<(Seq<char>, JsonView)>
    decreases m.len(),
{
    if m.len() == 0 {
        seq![(key, value)]
    } else if m[0].0 == key {
        m.update(0, (key, value))
    } else if text_less(key, m[0].0) {
        seq![(key, value)] + m
    } else {
        seq![m[0]] + with_member(m.drop_first(), key, value)
    }
}

proof fn member_skip(m: Seq<(Seq<char>, JsonView)>, key: Seq<char>, n: int)
    requires
        0 <= n <= m.len(),
        forall|i: int| 0 <= i < n ==> (#[trigger] m[i]).0 != key,
    ensures
        member(m, key) == member(m.skip(n), key),
    decreases n,
{
    if n > 0 {
        let t = m.drop_first();
        assert(m[0].0 != key);
        assert forall|i: int| 0 <= i < n - 1 implies (#[trigger] t[i]).0 != key by {
            assert(t[i] == m[i + 1]);
        }
        member_skip(t, key, n - 1);
        assert(t.skip(n - 1) =~= m.skip(n));
    } else {
        assert(m.skip(0) =~= m);
    }
}

proof fn with_member_skip(
    m: Seq<(Seq<char>, JsonView)>,
    key: Seq<char>,
    value: JsonView,
    n: int,
)
    requires
        0 <= n <= m.len(),
        forall|i: int|
            0 <= i < n ==> (#[trigger] m[i]).0 != key && !text_less(key, m[i].0),
    ensures
        with_member(m, key, value) == m.take(n) + with_member(m.skip(n), key, value),
    decreases n,
{
    if n > 0 {
        let t = m.drop_first();
        assert(m[0].0 != key && !text_less(key, m[0].0));
        assert forall|i: int| 0 <= i < n - 1 implies (#[trigger] t[i]).0 != key && !text_less(
            key,
            t[i].0,
        ) by {
            assert(t[i] == m[i + 1]);
        }
        with_member_skip(t, key, value, n - 1);
        assert(t.skip(n - 1) =~= m.skip(n));
        assert(seq![m[0]] + t.take(n - 1) =~= m.take(n));
        assert(with_member(m, key, value) =~= m.take(n) + with_member(m.skip(n), key, value));
    } else {
        assert(m.skip(0) =~= m);
        assert(m.take(0) + with_member(m, key, value) =~= with_member(m, key, value));
    }
}

impl JsonView {
    /// The value under `key`, where this is an object that has it.
    pub open spec fn get(self, key: Seq<char>) -> Option<JsonView> {
        match self {
            JsonView::Object(m) => member(m, key),
            _ => None,
        }
    }

    /// This object with `key` set to `value`; any other value is left as it is.
    pub open spec fn put(self, key: Seq<char>, value: JsonView) -> JsonView {
        match self {
            JsonView::Object(m) => JsonView::Object(with_member(m, key, value)),
            _ => self,
        }
    }
}

/// The value under `key`, where `j` is an object that has it.
pub fn get<'a>(j: &'a Json, key: &str) -> (r: Option<&'a Json>)
    ensures
        match r {
            Some(v) => j@.get(key@) == Some(v@),
            None => j@.get(key@) is None,
        },
{
    match j {
        Json::Object(v) => {
            let ghost m = members_view(*v, v.len() as int);
            proof {
                members_view_index(*v, v.len() as int);
            }
            let mut i: usize = 0;
            while i < v.len()
                invariant
                    i <= v.len(),
                    m.len() == v.len(),
                    j@ == JsonView::Object(m),
                    forall|k: int| 0 <= k < v.len() ==> #[trigger] m[k] == (v[k].0@, v[k].1@),
                    forall|k: int| 0 <= k < i ==> (#[trigger] m[k]).0 != key@,
                decreases v.len() - i,
            {
                if str_eq(v[i].0.as_str(), key) {
                    proof {
                        assert(m[i as int].0 == key@);
                        member_skip(m, key@, i as int);
                        assert(m.skip(i as int)[0] == m[i as int]);
                    }
                    return Some(&v[i].1);
                }
                assert(m[i as int].0 != key@);
                i += 1;
            }
            proof {
                member_skip(m, key@, i as int);
            }
            None
        },
        _ => None,
    }
}

/// Sets `key` to `value` in an object; any other value is left as it is.
pub fn put(j: &mut Json, key: String, value: Json)
    ensures
        final(j)@ == old(j)@.put(key@, value@),
{
    match j {
        Json::Object(v) => {
            let ghost before = *v;
            let ghost m = members_view(*v, v.len() as int);
            proof {
                members_view_index(*v, v.len() as int);
            }
            let mut i: usize = 0;
            while i < v.len() && !str_eq(v[i].0.as_str(), key.as_str()) && !text_before(
                key.as_str(),
                v[i].0.as_str(),
            )
                invariant
                    i <= v.len(),
                    *v == before,
                    m.len() == v.len(),
                    forall|k: int|
                        0 <= k < v.len() ==> #[trigger] m[k] == (before[k].0@, before[k].1@),
                    forall|k: int|
                        0 <= k < i ==> (#[trigger] m[k]).0 != key@ && !text_less(key@, m[k].0),
                decreases v.len() - i,
            {
                assert(m[i as int].0 == v[i as int].0@);
                i += 1;
            }
            let ghost kv = (key@, value@);
            proof {
                with_member_skip(m, key@, value@, i as int);
            }
            if i < v.len() && str_eq(v[i].0.as_str(), key.as_str()) {
                v[i] = (key, value);
                proof {
                    members_view_index(*v, v.len() as int);
                    let t = m.skip(i as int);
                    assert(t[0] == m[i as int]);
                    assert(members_view(*v, v.len() as int) =~= m.take(i as int) + t.update(0, kv));
                }
            } else {
                proof {
                    if i < v.len() {
                        let t = m.skip(i as int);
                        assert(t[0] == m[i as int]);
                        assert(m[i as int].0 == v[i as int].0@);
                    }
                }
                v.insert(i, (key, value));
                proof {
                    members_view_index(*v, v.len() as int);
                    let t = m.skip(i as int);
                    assert(members_view(*v, v.len() as int) =~= m.take(i as int) + (seq![kv] + t));
                    if t.len() == 0 {
                        assert(seq![kv] + t =~= seq![kv]);
                    }
                }
            }
        },
        _ => {},
    }
}

/// Whether two values are equal.
pub fn json_eq(a: &Json, b: &Json) -> (r: bool)
    ensures
        r == (a@ == b@),
    decreases a,
{
    match (a, b) {
        (Json::Null, Json::Null) => true,
        (Json::Bool(x), Json::Bool(y)) => *x == *y,
        (Json::Int(x), Json::Int(y)) => *x == *y,
        (Json::Real(x), Json::Real(y)) => *x == *y,
        (Json::Str(x), Json::Str(y)) => *x == *y,
        (Json::Array(x), Json::Array(y)) => {
            proof {
                items_view_index(*x, x.len() as int);
                items_view_index(*y, y.len() as int);
            }
            if x.len() != y.len() {
                return false;
            }
            let mut i: usize = 0;
            while i < x.len()
                invariant
                    i <= x.len() == y.len(),
                    *a == Json::Array(*x),
                    items_view(*x, x.len() as int).len() == x.len(),
                    items_view(*y, y.len() as int).len() == y.len(),
                    forall|k: int|
                        0 <= k < x.len() ==> #[trigger] items_view(*x, x.len() as int)[k] == x[k]@,
                    forall|k: int|
                        0 <= k < y.len() ==> #[trigger] items_view(*y, y.len() as int)[k] == y[k]@,
                    forall|k: int| 0 <= k < i ==> (#[trigger] x[k])@ == y[k]@,
                    a@ == JsonView::Array(items_view(*x, x.len() as int)),
                    b@ == JsonView::Array(items_view(*y, y.len() as int)),
                decreases x.len() - i,
            {
                if !json_eq(&x[i], &y[i]) {
                    assert(items_view(*x, x.len() as int)[i as int] != items_view(
                        *y,
                        y.len() as int,
                    )[i as int]);
                    return false;
                }
                i += 1;
            }
            proof {
                assert(items_view(*x, x.len() as int) =~= items_view(*y, y.len() as int));
            }
            true
        },
        (Json::Object(x), Json::Object(y)) => {
            proof {
                members_view_index(*x, x.len() as int);
                members_view_index(*y, y.len() as int);
            }
            if x.len() != y.len() {
                return false;
            }
            let mut i: usize = 0;
            while i < x.len()
                invariant
                    i <= x.len() == y.len(),
                    *a == Json::Object(*x),
                    members_view(*x, x.len() as int).len() == x.len(),
                    members_view(*y, y.len() as int).len() == y.len(),
                    forall|k: int|
                        0 <= k < x.len() ==> #[trigger] members_view(*x, x.len() as int)[k] == (
                            x[k].0@,
                            x[k].1@,
                        ),
                    forall|k: int|
                        0 <= k < y.len() ==> #[trigger] members_view(*y, y.len() as int)[k] == (
                            y[k].0@,
                            y[k].1@,
                        ),
                    forall|k: int|
                        0 <= k < i ==> (#[trigger] x[k]).0@ == y[k].0@ && x[k].1@ == y[k].1@,
                    a@ == JsonView::Object(members_view(*x, x.len() as int)),
                    b@ == JsonView::Object(members_view(*y, y.len() as int)),
                decreases x.len() - i,
            {
                if x[i].0 != y[i].0 || !json_eq(&x[i].1, &y[i].1) {
                    assert(members_view(*x, x.len() as int)[i as int] != members_view(
                        *y,
                        y.len() as int,
                    )[i as int]);
                    return false;
                }
                i += 1;
            }
            proof {
                assert(members_view(*x, x.len() as int) =~= members_view(*y, y.len() as int));
            }
            true
        },
        _ => false,
    }
}

/// A copy of a value.
pub fn json_copy(j: &Json) -> (r: Json)
    ensures
        r@ == j@,
    decreases j,
{
    match j {
        Json::Null => Json::Null,
        Json::Bool(b) => Json::Bool(*b),
        Json::Int(i) => Json::Int(*i),
        Json::Real(s) => Json::Real(s.clone()),
        Json::Str(s) => Json::Str(s.clone()),
        Json::Array(v) => {
            let mut out: Vec<Json> = Vec::new();
            let mut i: usize = 0;
            while i < v.len()
                invariant
                    i <= v.len(),
                    *j == Json::Array(*v),
                    out.len() == i,
                    forall|k: int| 0 <= k < i ==> (#[trigger] out[k])@ == v[k]@,
                decreases v.len() - i,
            {
                let item = &v[i];
                assert(*item == v[i as int]);
                assert(decreases_to!(*j => j->Array_0));
                assert(decreases_to!(*v => v[i as int]));
                out.push(json_copy(item));
                i += 1;
            }
            proof {
                items_view_index(*v, v.len() as int);
                items_view_index(out, out.len() as int);
                assert(items_view(out, out.len() as int) =~= items_view(*v, v.len() as int));
            }
            Json::Array(out)
        },
        Json::Object(v) => {
            let mut out: Vec<(String, Json)> = Vec::new();
            let mut i: usize = 0;
            while i < v.len()
                invariant
                    i <= v.len(),
                    *j == Json::Object(*v),
                    out.len() == i,
                    forall|k: int|
                        0 <= k < i ==> (#[trigger] out[k]).0@ == v[k].0@ && out[k].1@ == v[k].1@,
                decreases v.len() - i,
            {
                let item = &v[i];
                assert(*item == v[i as int]);
                assert(decreases_to!(*j => j->Object_0));
                assert(decreases_to!(*v => v[i as int]));
                out.push((item.0.clone(), json_copy(&item.1)));
                i += 1;
            }
            proof {
                members_view_index(*v, v.len() as int);
                members_view_index(out, out.len() as int);
                assert(members_view(out, out.len() as int) =~= members_view(*v, v.len() as int));
            }
            Json::Object(out)
        },
    }
}

/// The members of `from` added to `into` where `into` does not have the key.
pub open spec fn merged(into: JsonView, from: Seq<(Seq<char>, JsonView)>) -> JsonView
    decreases from.len(),
{
    if from.len() == 0 {
        into
    } else {
        let rest = merged(into, from.drop_last());
        if rest.get(from.last().0) is None {
            rest.put(from.last().0, from.last().1)
        } else {
            rest
        }
    }
}

/// Copies the members of `from` into `into` without overwriting existing keys.
pub fn merge_json(into: &mut Json, from: &Json)
    ensures
        final(into)@ == match (old(into)@, from@) {
            (JsonView::Object(_), JsonView::Object(m)) => merged(old(into)@, m),
            _ => old(into)@,
        },
{
    let is_object = matches!(into, Json::Object(_));
    if !is_object {
        return;
    }
    if let Json::Object(v) = from {
        let ghost m = members_view(*v, v.len() as int);
        proof {
            members_view_index(*v, v.len() as int);
        }
        let mut i: usize = 0;
        while i < v.len()
            invariant
                i <= v.len(),
                m.len() == v.len(),
                forall|k: int| 0 <= k < v.len() ==> #[trigger] m[k] == (v[k].0@, v[k].1@),
                into@ == merged(old(into)@, m.take(i as int)),
                into@ is Object,
            decreases v.len() - i,
        {
            let absent = get(into, v[i].0.as_str()).is_none();
            proof {
                let t = m.take(i + 1);
                assert(t.drop_last() =~= m.take(i as int));
                assert(t.last() == m[i as int]);
            }
            if absent {
                put(into, v[i].0.clone(), json_copy(&v[i].1));
            }
            i += 1;
        }
        proof {
            assert(m.take(i as int) =~= m);
        }
    }
}

proof fn with_member_reads(
    m: Seq<(Seq<char>, JsonView)>,
    key: Seq<char>,
    value: JsonView,
    other: Seq<char>,
)
    ensures
        member(with_member(m, key, value), other) == (if other == key {
            Some(value)
        } else {
            member(m, other)
        }),
    decreases m.len(),
{
    let next = with_member(m, key, value);
    if m.len() == 0 {
        assert(next.drop_first() =~= m);
    } else if m[0].0 == key {
        assert(next.drop_first() =~= m.drop_first());
    } else if text_less(key, m[0].0) {
        assert(next.drop_first() =~= m);
    } else {
        with_member_reads(m.drop_first(), key, value, other);
        assert(next.drop_first() =~= with_member(m.drop_first(), key, value));
    }
}

/// What is put under a key is read under that key; what is under any other stays.
pub proof fn a_put_reads_back(j: JsonView, key: Seq<char>, value: JsonView, other: Seq<char>)
    requires
        j is Object,
    ensures
        j.put(key, value) is Object,
        j.put(key, value).get(key) == Some(value),
        other != key ==> j.put(key, value).get(other) == j.get(other),
{
    with_member_reads(j->Object_0, key, value, key);
    with_member_reads(j->Object_0, key, value, other);
}

proof fn member_push(m: Seq<(Seq<char>, JsonView)>, key: Seq<char>)
    requires
        m.len() > 0,
    ensures
        member(m, key) == (match member(m.drop_last(), key) {
            Some(v) => Some(v),
            None => if m.last().0 == key {
                Some(m.last().1)
            } else {
                None
            },
        }),
    decreases m.len(),
{
    if m.len() == 1 {
        assert(m.drop_first() =~= Seq::empty());
        assert(m.drop_last() =~= Seq::empty());
    } else {
        member_push(m.drop_first(), key);
        assert(m.drop_first().drop_last() =~= m.drop_last().drop_first());
    }
}

/// Merging overwrites nothing and loses nothing: a key is read as before where it was
/// there, and else as the other object has it.
pub proof fn a_merge_only_adds(into: JsonView, from: Seq<(Seq<char>, JsonView)>, key: Seq<char>)
    requires
        into is Object,
    ensures
        merged(into, from) is Object,
        into.get(key) is Some ==> merged(into, from).get(key) == into.get(key),
        into.get(key) is None ==> merged(into, from).get(key) == member(from, key),
    decreases from.len(),
{
    if from.len() > 0 {
        let rest = merged(into, from.drop_last());
        a_merge_only_adds(into, from.drop_last(), key);
        member_push(from, key);
        a_put_reads_back(rest, from.last().0, from.last().1, key);
    }
}

} // verus!
